//! Small pieces of text handling shared by the save formats and the screens:
//! numbers in decimal and back, and the lines of a text, trimmed.

use vstd::prelude::*;
use vstd::string::StringExecFns;
use vstd::string::StringSliceAdditionalSpecFns;
use vstd::utf8::{
    is_char_boundary, is_continuation_byte, length_of_first_scalar, pop_first_scalar, valid_first_scalar,
    valid_utf8,
};
use crate::game::string_bytes;
use crate::dictionary::{
    is_ascii_space, is_line, lowered, leading_space, space_prefix_at, space_prefix_len, space_suffix_before,
    space_suffix_len, trailing_space, trimmed,
};

verus! {

/// The digit character for `d`.
pub open spec fn digit_char(d: nat) -> char {
    (48 + d) as char
}

/// `n` written in decimal, with no leading zeros ("0" for zero).
pub open spec fn decimal_chars(n: nat) -> Seq<char>
    decreases n,
{
    if n < 10 {
        seq![digit_char(n)]
    } else {
        decimal_chars(n / 10).push(digit_char(n % 10))
    }
}

/// The text of one digit.
fn digit_text(d: u64) -> (text: &'static str)
    requires
        d < 10,
    ensures
        text@ == seq![digit_char(d as nat)],
{
    let text = match d {
        0 => "0",
        1 => "1",
        2 => "2",
        3 => "3",
        4 => "4",
        5 => "5",
        6 => "6",
        7 => "7",
        8 => "8",
        _ => "9",
    };
    proof {
        reveal_strlit("0");
        reveal_strlit("1");
        reveal_strlit("2");
        reveal_strlit("3");
        reveal_strlit("4");
        reveal_strlit("5");
        reveal_strlit("6");
        reveal_strlit("7");
        reveal_strlit("8");
        reveal_strlit("9");
        assert(text@ =~= seq![digit_char(d as nat)]);
    }
    text
}

/// `n` in decimal.
pub fn decimal(n: u64) -> (text: String)
    ensures
        text@ == decimal_chars(n as nat),
    decreases n,
{
    if n < 10 {
        let mut text = String::new();
        text.append(digit_text(n));
        proof {
            assert(text@ =~= decimal_chars(n as nat));
        }
        text
    } else {
        let mut text = decimal(n / 10);
        text.append(digit_text(n % 10));
        proof {
            assert(text@ =~= decimal_chars(n as nat));
        }
        text
    }
}

/// From a character boundary, the next one is one character further on.
pub proof fn lemma_boundary_step(b: Seq<u8>, i: int)
    requires
        valid_utf8(b),
        0 <= i < b.len(),
        is_char_boundary(b, i),
    ensures
        valid_first_scalar(b.subrange(i, b.len() as int)),
        i + length_of_first_scalar(b.subrange(i, b.len() as int)) <= b.len(),
        is_char_boundary(b, i + length_of_first_scalar(b.subrange(i, b.len() as int))),
    decreases b.len(),
{
    let l = length_of_first_scalar(b);
    let tail = pop_first_scalar(b);
    assert(valid_first_scalar(b) && valid_utf8(tail));
    assert(1 <= l <= b.len());
    assert(tail.len() == b.len() - l);
    if i == 0 {
        assert(b.subrange(0, b.len() as int) =~= b);
        assert(is_char_boundary(tail, 0));
        assert(is_char_boundary(b, l));
    } else {
        assert(is_char_boundary(tail, i - l));
        assert(i - l >= 0);
        assert(b.subrange(i, b.len() as int) =~= tail.subrange(i - l, tail.len() as int));
        lemma_boundary_step(tail, i - l);
        let l2 = length_of_first_scalar(tail.subrange(i - l, tail.len() as int));
        assert(is_char_boundary(b, i + l2) == is_char_boundary(tail, i - l + l2));
    }
}

/// A byte that is not a continuation byte starts a character.
pub proof fn lemma_boundary_at_lead(b: Seq<u8>, i: int)
    requires
        valid_utf8(b),
        0 <= i <= b.len(),
        i == b.len() || !is_continuation_byte(b[i]),
    ensures
        is_char_boundary(b, i),
{
    if i == b.len() {
        vstd::utf8::is_char_boundary_start_end_of_seq(b);
    } else {
        vstd::utf8::is_char_boundary_iff_not_is_continuation_byte(b, i);
    }
}

/// Lines start and end on character boundaries.
pub proof fn lemma_line_boundaries(b: Seq<u8>, s: int, e: int)
    requires
        valid_utf8(b),
        is_line(b, s, e),
    ensures
        is_char_boundary(b, s),
        is_char_boundary(b, e),
{
    lemma_boundary_at_lead(b, e);
    if s == 0 {
        lemma_boundary_at_lead(b, 0);
    } else {
        lemma_boundary_at_lead(b, s - 1);
        lemma_boundary_step(b, s - 1);
        assert(b.subrange(s - 1, b.len() as int)[0] == 10);
    }
}

/// The bytes a whitespace character can start with.
pub open spec fn space_lead(x: u8) -> bool {
    x < 0x80 || x == 0xC2 || x == 0xE1 || x == 0xE2 || x == 0xE3
}

/// Past a whitespace character at a boundary is the next boundary.
proof fn lemma_space_step(b: Seq<u8>, i: int, e: int)
    requires
        valid_utf8(b),
        0 <= i <= e <= b.len(),
        is_char_boundary(b, i),
        space_prefix_len(b.subrange(i, e)) > 0,
    ensures
        is_char_boundary(b, i + space_prefix_len(b.subrange(i, e))),
{
    let seg = b.subrange(i, e);
    let k = space_prefix_len(seg);
    lemma_boundary_step(b, i);
    let tail = b.subrange(i, b.len() as int);
    assert(tail[0] == seg[0]);
    assert(length_of_first_scalar(tail) == k);
}

/// Past the leading whitespace of a segment that starts on a boundary is a
/// boundary.
proof fn lemma_leading_boundary(b: Seq<u8>, i: int, e: int)
    requires
        valid_utf8(b),
        0 <= i <= e <= b.len(),
        is_char_boundary(b, i),
    ensures
        is_char_boundary(b, i + leading_space(b.subrange(i, e))),
    decreases e - i,
{
    let seg = b.subrange(i, e);
    let k = space_prefix_len(seg);
    if k > 0 && k <= seg.len() {
        lemma_space_step(b, i, e);
        assert(seg.skip(k as int) =~= b.subrange(i + k, e));
        lemma_leading_boundary(b, i + k, e);
    }
}

/// Where the trailing whitespace of `s` starts, the byte is one a whitespace
/// character starts with.
proof fn lemma_trailing_lead(s: Seq<u8>)
    requires
        trailing_space(s) > 0,
    ensures
        trailing_space(s) <= s.len(),
        space_lead(s[s.len() - trailing_space(s)]),
    decreases s.len(),
{
    let k = space_suffix_len(s);
    let rest = s.take(s.len() - k);
    if trailing_space(rest) > 0 {
        lemma_trailing_lead(rest);
        assert(rest[rest.len() - trailing_space(rest)] == s[s.len() - trailing_space(s)]);
    }
}

/// A line of `text` with its surrounding whitespace removed, as `str::trim`
/// gives it.
pub fn trimmed_line(text: &str, start: usize, end: usize) -> (line: &str)
    requires
        is_line(text.spec_bytes(), start as int, end as int),
    ensures
        line.spec_bytes() == trimmed(text.spec_bytes().subrange(start as int, end as int)),
{
    proof {
        vstd::utf8::encode_utf8_valid_utf8(text@);
        lemma_line_boundaries(text.spec_bytes(), start as int, end as int);
    }
    trimmed_between(text, start, end)
}

/// `text[start..end]` with its surrounding whitespace removed, as `str::trim`
/// gives it, for bounds that fall between characters.
pub fn trimmed_between(text: &str, start: usize, end: usize) -> (line: &str)
    requires
        start <= end <= text.spec_bytes().len(),
        is_char_boundary(text.spec_bytes(), start as int),
        is_char_boundary(text.spec_bytes(), end as int),
    ensures
        line.spec_bytes() == trimmed(text.spec_bytes().subrange(start as int, end as int)),
{
    let t = text.as_bytes();
    let ghost b = t@;
    let ghost seg = b.subrange(start as int, end as int);
    proof {
        vstd::utf8::encode_utf8_valid_utf8(text@);
    }
    let mut lo = start;
    proof {
        assert(seg.skip(0) =~= seg);
    }
    loop
        invariant
            b == t@,
            valid_utf8(b),
            start <= lo <= end <= b.len(),
            seg == b.subrange(start as int, end as int),
            leading_space(seg) == (lo - start) + leading_space(seg.skip(lo - start)),
            is_char_boundary(b, lo as int),
        ensures
            start <= lo <= end,
            leading_space(seg) == (lo - start) + leading_space(seg.skip(lo - start)),
            space_prefix_len(b.subrange(lo as int, end as int)) == 0,
            is_char_boundary(b, lo as int),
        decreases end - lo,
    {
        let k = space_prefix_at(t, lo, end);
        proof {
            assert(seg.skip(lo - start) =~= b.subrange(lo as int, end as int));
        }
        if k == 0 {
            break;
        }
        proof {
            let r = seg.skip(lo - start);
            assert(r.skip(k as int) =~= seg.skip(lo - start + k));
            lemma_space_step(b, lo as int, end as int);
        }
        lo = lo + k;
    }
    let ghost rest = seg.skip(lo - start);
    proof {
        assert(rest =~= b.subrange(lo as int, end as int));
        assert(leading_space(rest) == 0);
    }
    let mut hi = end;
    proof {
        assert(rest.take(rest.len() as int) =~= rest);
    }
    loop
        invariant
            b == t@,
            start <= lo <= hi <= end <= b.len(),
            rest == b.subrange(lo as int, end as int),
            trailing_space(rest) == (end - hi) + trailing_space(rest.take(hi - lo)),
            hi == end || space_lead(b[hi as int]),
            is_char_boundary(b, end as int),
            valid_utf8(b),
        ensures
            lo <= hi <= end,
            trailing_space(rest) == (end - hi) + trailing_space(rest.take(hi - lo)),
            space_suffix_len(b.subrange(lo as int, hi as int)) == 0,
            hi == end || space_lead(b[hi as int]),
        decreases hi - lo,
    {
        let k = space_suffix_before(t, lo, hi);
        proof {
            assert(rest.take(hi - lo) =~= b.subrange(lo as int, hi as int));
        }
        if k == 0 {
            break;
        }
        proof {
            let r = rest.take(hi - lo);
            assert(r.take(r.len() - k) =~= rest.take(hi - lo - k));
            assert(b[hi - k] == r[r.len() - k]);
        }
        hi = hi - k;
    }
    proof {
        assert(rest.take(hi - lo) =~= b.subrange(lo as int, hi as int));
        assert(trailing_space(rest.take(hi - lo)) == 0);
        assert(trimmed(seg) =~= rest.take(rest.len() - trailing_space(rest)));
        if hi < end {
            lemma_boundary_at_lead(b, hi as int);
        }
        if hi < b.len() {
            vstd::utf8::is_char_boundary_iff_not_is_continuation_byte(b, hi as int);
        }
    }
    let (_, after) = text.split_at(lo);
    proof {
        assert(after.spec_bytes() == b.subrange(lo as int, b.len() as int));
        vstd::utf8::encode_utf8_valid_utf8(after@);
        let a = after.spec_bytes();
        assert(hi - lo == a.len() || a[hi - lo] == b[hi as int]);
        lemma_boundary_at_lead(a, hi - lo);
    }
    let (line, _) = after.split_at(hi - lo);
    proof {
        assert(line.spec_bytes() =~= b.subrange(lo as int, hi as int));
    }
    line
}

/// Lowering ASCII letters keeps text valid UTF-8: it only ever swaps one
/// single-byte character for another, and leaves every byte of a longer
/// character, all of them 128 or more, as it was.
proof fn lemma_lowered_valid(b: Seq<u8>)
    requires
        valid_utf8(b),
    ensures
        valid_utf8(lowered(b)),
    decreases b.len(),
{
    if b.len() > 0 {
        let l = lowered(b);
        let n = length_of_first_scalar(b);
        assert(1 <= n <= b.len());
        if b[0] >= 128 {
            assert forall|k: int| 0 <= k < n implies l[k] == b[k] by {
                assert(b[k] >= 128);
            }
        } else {
            assert(n == 1);
            assert(l[0] < 128);
        }
        assert(length_of_first_scalar(l) == n);
        assert(pop_first_scalar(l) =~= lowered(pop_first_scalar(b)));
        assert(pop_first_scalar(b).len() < b.len());
        lemma_lowered_valid(pop_first_scalar(b));
    }
}

/// The text with each ASCII letter A-Z lowered to a-z and every other byte as
/// it was, as `str::to_ascii_lowercase` gives it.
pub(crate) fn lower_ascii(s: &str) -> (out: String)
    ensures
        string_bytes(out) == lowered(s.spec_bytes()),
{
    let b = s.as_bytes();
    let mut out: Vec<u8> = Vec::new();
    let mut i: usize = 0;
    while i < b.len()
        invariant
            0 <= i <= b@.len(),
            out@ == lowered(b@.take(i as int)),
        decreases b@.len() - i,
    {
        let c = b[i];
        out.push(if 65 <= c && c <= 90 { c + 32 } else { c });
        proof {
            assert(lowered(b@.take(i + 1)) =~= lowered(b@.take(i as int)).push(crate::dictionary::lower_byte(c)));
        }
        i += 1;
    }
    proof {
        assert(b@.take(i as int) =~= b@);
        vstd::utf8::encode_utf8_valid_utf8(s@);
        lemma_lowered_valid(b@);
    }
    lossy_text(out.as_slice())
}

/// `String::from_utf8_lossy`: the text the bytes spell. Bytes that are valid
/// UTF-8 come back unchanged; what becomes of others is not stated.
#[verifier::external_body]
pub(crate) fn lossy_text(bytes: &[u8]) -> (out: String)
    ensures
        valid_utf8(bytes@) ==> string_bytes(out) == bytes@,
{
    String::from_utf8_lossy(bytes).into_owned()
}

/// Bytes below 128 are valid UTF-8 whatever their order.
pub proof fn lemma_ascii_valid(b: Seq<u8>)
    requires
        forall|i: int| 0 <= i < b.len() ==> #[trigger] b[i] < 128,
    ensures
        valid_utf8(b),
    decreases b.len(),
{
    if b.len() > 0 {
        let rest = pop_first_scalar(b);
        assert(length_of_first_scalar(b) == 1);
        assert(rest =~= b.subrange(1, b.len() as int));
        assert forall|i: int| 0 <= i < rest.len() implies #[trigger] rest[i] < 128 by {
            assert(rest[i] == b[i + 1]);
        }
        lemma_ascii_valid(rest);
    }
}

/// The text of the line from `start` up to the next line break or the end.
pub open spec fn line_end(t: Seq<u8>, start: int) -> int
    decreases t.len() - start,
{
    if start >= t.len() || t[start] == 10 {
        start
    } else {
        line_end(t, start + 1)
    }
}

/// The lines of `t` from `start` on, split at each line break.
pub open spec fn lines_from(t: Seq<u8>, start: int) -> Seq<Seq<u8>>
    decreases t.len() + 1 - start,
{
    if start > t.len() || start < 0 {
        Seq::empty()
    } else {
        let e = line_end(t, start);
        proof {
            lemma_line_end(t, start);
        }
        seq![t.subrange(start, e)] + lines_from(t, e + 1)
    }
}

pub proof fn lemma_line_end(t: Seq<u8>, start: int)
    requires
        0 <= start <= t.len(),
    ensures
        start <= line_end(t, start) <= t.len(),
        is_line(t, start, line_end(t, start)) || !(start == 0 || t[start - 1] == 10),
        forall|k: int| start <= k < line_end(t, start) ==> t[k] != 10,
        line_end(t, start) == t.len() || t[line_end(t, start)] == 10,
    decreases t.len() - start,
{
    if start < t.len() && t[start] != 10 {
        lemma_line_end(t, start + 1);
    }
}

/// Where the line that starts at `start` ends.
pub fn find_line_end(t: &[u8], start: usize) -> (end: usize)
    requires
        start <= t@.len(),
    ensures
        end == line_end(t@, start as int),
{
    let mut end = start;
    while end < t.len() && t[end] != 10
        invariant
            start <= end <= t@.len(),
            line_end(t@, start as int) == line_end(t@, end as int),
        decreases t@.len() - end,
    {
        end += 1;
    }
    end
}

/// Where the next byte `b` at or after `from` is, or the length when there is
/// none.
pub open spec fn next_byte(t: Seq<u8>, b: u8, from: int) -> int
    decreases t.len() - from,
{
    if from >= t.len() || t[from] == b {
        from
    } else {
        next_byte(t, b, from + 1)
    }
}

pub proof fn lemma_next_byte(t: Seq<u8>, b: u8, from: int)
    requires
        0 <= from <= t.len(),
    ensures
        from <= next_byte(t, b, from) <= t.len(),
        forall|k: int| from <= k < next_byte(t, b, from) ==> t[k] != b,
        next_byte(t, b, from) == t.len() || t[next_byte(t, b, from)] == b,
    decreases t.len() - from,
{
    if from < t.len() && t[from] != b {
        lemma_next_byte(t, b, from + 1);
    }
}

/// Searching a window for a byte is searching the whole text from the
/// window's start.
pub proof fn lemma_next_byte_shift(t: Seq<u8>, b: u8, s: int, from: int, e: int)
    requires
        0 <= s <= from <= e <= t.len(),
    ensures
        next_byte(t.subrange(0, e), b, from) == s + next_byte(t.subrange(s, e), b, from - s),
    decreases e - from,
{
    if from < e && t[from] != b {
        lemma_next_byte_shift(t, b, s, from + 1, e);
    }
}

/// Where `b` next occurs in `t[from..to]`, or `to`.
pub fn find_byte(t: &[u8], b: u8, from: usize, to: usize) -> (at: usize)
    requires
        from <= to <= t@.len(),
    ensures
        at == next_byte(t@.subrange(0, to as int), b, from as int),
{
    let ghost u = t@.subrange(0, to as int);
    let mut at = from;
    while at < to && t[at] != b
        invariant
            from <= at <= to,
            to <= t@.len(),
            u == t@.subrange(0, to as int),
            next_byte(u, b, from as int) == next_byte(u, b, at as int),
        decreases to - at,
    {
        at += 1;
    }
    at
}

/// The lines of `t` from `start` on, as `str::lines` gives them: split at each
/// line feed, a carriage return before one dropped, and no empty line after a
/// final line feed.
pub open spec fn text_lines(t: Seq<u8>, start: int) -> Seq<Seq<u8>>
    decreases t.len() + 1 - start,
{
    if start >= t.len() || start < 0 {
        Seq::empty()
    } else {
        let e = next_byte(t, 10, start);
        proof {
            lemma_next_byte(t, 10, start);
        }
        let content = if e < t.len() && e > start && t[e - 1] == 13 {
            t.subrange(start, e - 1)
        } else {
            t.subrange(start, e)
        };
        seq![content] + text_lines(t, e + 1)
    }
}

/// The pieces of `t` between commas, from `start` on, as `str::split(',')`
/// gives them.
pub open spec fn fields(t: Seq<u8>, start: int) -> Seq<Seq<u8>>
    decreases t.len() + 1 - start,
{
    if start > t.len() || start < 0 {
        Seq::empty()
    } else {
        let e = next_byte(t, 44, start);
        proof {
            lemma_next_byte(t, 44, start);
        }
        if e < t.len() {
            seq![t.subrange(start, e)] + fields(t, e + 1)
        } else {
            seq![t.subrange(start, e)]
        }
    }
}

pub open spec fn is_digit(b: u8) -> bool {
    48 <= b <= 57
}

/// The number ASCII digits spell.
pub open spec fn digits_value(s: Seq<u8>) -> nat
    decreases s.len(),
{
    if s.len() == 0 {
        0
    } else {
        digits_value(s.drop_last()) * 10 + (s.last() - 48) as nat
    }
}

/// An unsigned number as `str::parse` reads one: an optional `+`, then one
/// or more digits, no larger than `max`.
pub open spec fn parse_number(s: Seq<u8>, max: nat) -> Option<nat> {
    let d = number_digits(s);
    if d.len() > 0 && all_digits(d) && digits_value(d) <= max {
        Some(digits_value(d))
    } else {
        None
    }
}

/// The digits of a number's text: all of it, or what follows a leading `+`.
pub open spec fn number_digits(s: Seq<u8>) -> Seq<u8> {
    if s.len() > 0 && s[0] == 43 {
        s.skip(1)
    } else {
        s
    }
}

pub open spec fn all_digits(d: Seq<u8>) -> bool {
    forall|i: int| 0 <= i < d.len() ==> is_digit(#[trigger] d[i])
}

pub proof fn lemma_digits_grow(s: Seq<u8>, i: int)
    requires
        0 <= i <= s.len(),
        forall|k: int| 0 <= k < s.len() ==> is_digit(#[trigger] s[k]),
    ensures
        digits_value(s.take(i)) <= digits_value(s),
    decreases s.len() - i,
{
    if i < s.len() {
        lemma_digits_grow(s, i + 1);
        assert(s.take(i + 1).drop_last() =~= s.take(i));
    } else {
        assert(s.take(i) =~= s);
    }
}

/// The number the digits of `t[lo..hi]` spell, as `str::parse` reads it,
/// when it is no larger than `max`.
pub fn parse_range(t: &[u8], lo: usize, hi: usize, max: u64) -> (n: Option<u64>)
    requires
        lo <= hi <= t@.len(),
    ensures
        match n {
            Some(v) => parse_number(t@.subrange(lo as int, hi as int), max as nat) == Some(v as nat),
            None => parse_number(t@.subrange(lo as int, hi as int), max as nat) is None,
        },
{
    let ghost s = t@.subrange(lo as int, hi as int);
    let mut i = lo;
    if i < hi && t[i] == 43 {
        i = i + 1;
    }
    let ghost d = t@.subrange(i as int, hi as int);
    proof {
        if s.len() > 0 && s[0] == 43 {
            assert(d =~= s.skip(1));
        } else {
            assert(d =~= s);
        }
    }
    if i == hi {
        return None;
    }
    let start = i;
    let mut value: u64 = 0;
    while i < hi
        invariant
            start <= i <= hi <= t@.len(),
            d == t@.subrange(start as int, hi as int),
            s == t@.subrange(lo as int, hi as int),
            d == number_digits(s),
            d.len() > 0,
            forall|k: int| 0 <= k < i - start ==> is_digit(#[trigger] d[k]),
            value == digits_value(d.take(i - start)),
            value <= max,
        decreases hi - i,
    {
        let c = t[i];
        proof {
            assert(d[i - start] == c);
            assert(d.take(i - start + 1).drop_last() =~= d.take(i - start));
        }
        if c < 48 || c > 57 {
            proof {
                assert(!is_digit(d[i - start]));
                assert(!all_digits(d));
                assert(parse_number(s, max as nat) is None);
            }
            return None;
        }
        let digit = (c - 48) as u64;
        if digit > max || value > (max - digit) / 10 {
            proof {
                assert(digits_value(d.take(i - start + 1)) == value * 10 + digit);
                if digit <= max {
                    assert(value * 10 + digit > max) by (nonlinear_arith)
                        requires
                            value > (max - digit) / 10,
                            digit <= max,
                    ;
                }
                if all_digits(d) {
                    lemma_digits_grow(d, i - start + 1);
                    assert(digits_value(d) > max);
                }
                assert(parse_number(s, max as nat) is None);
            }
            return None;
        }
        value = value * 10 + digit;
        i += 1;
    }
    proof {
        assert(d.take(d.len() as int) =~= d);
    }
    Some(value)
}

/// `n` in decimal, as bytes.
pub open spec fn decimal_digits(n: nat) -> Seq<u8>
    decreases n,
{
    if n < 10 {
        seq![(48 + n) as u8]
    } else {
        decimal_digits(n / 10).push((48 + n % 10) as u8)
    }
}

/// Write `n` in decimal on the end of `out`.
pub fn push_decimal(out: &mut Vec<u8>, n: u64)
    ensures
        final(out)@ == old(out)@ + decimal_digits(n as nat),
    decreases n,
{
    if n >= 10 {
        push_decimal(out, n / 10);
    }
    out.push((48 + n % 10) as u8);
    proof {
        if n < 10 {
            assert(final(out)@ =~= old(out)@ + decimal_digits(n as nat));
        } else {
            assert(final(out)@ =~= old(out)@ + decimal_digits(n as nat));
        }
    }
}

/// Decimal digits are digits, and read back as the number they came from.
pub proof fn lemma_decimal_parses(n: nat, max: nat)
    requires
        n <= max,
    ensures
        decimal_digits(n).len() > 0,
        all_digits(decimal_digits(n)),
        decimal_digits(n)[0] != 43,
        digits_value(decimal_digits(n)) == n,
        parse_number(decimal_digits(n), max) == Some(n),
        forall|i: int| 0 <= i < decimal_digits(n).len() ==> #[trigger] decimal_digits(n)[i] != 44 && decimal_digits(n)[i]
            != 10 && decimal_digits(n)[i] != 61 && decimal_digits(n)[i] != 13,
    decreases n,
{
    let d = decimal_digits(n);
    if n >= 10 {
        lemma_decimal_parses(n / 10, max);
        assert(d.drop_last() =~= decimal_digits(n / 10));
        assert(d[0] == decimal_digits(n / 10)[0]);
        assert(d.last() == (48 + n % 10) as u8);
        assert(digits_value(d) == digits_value(d.drop_last()) * 10 + (d.last() - 48) as nat);
        assert(n == (n / 10) * 10 + n % 10);
    } else {
        assert(d.drop_last() =~= Seq::<u8>::empty());
        assert(digits_value(d) == digits_value(d.drop_last()) * 10 + (d.last() - 48) as nat);
    }
    assert(number_digits(d) == d);
}

/// Where a byte next occurs in a text that starts with `p`, past `p`.
pub proof fn lemma_next_byte_past(p: Seq<u8>, r: Seq<u8>, b: u8, from: int)
    requires
        p.len() <= from <= p.len() + r.len(),
    ensures
        next_byte(p + r, b, from) == p.len() + next_byte(r, b, from - p.len()),
    decreases p.len() + r.len() - from,
{
    if from < p.len() + r.len() && (p + r)[from] != b {
        lemma_next_byte_past(p, r, b, from + 1);
    }
}

/// Where a byte next occurs, when the part before `p`'s end holds none.
pub proof fn lemma_next_byte_skip(p: Seq<u8>, r: Seq<u8>, b: u8, from: int)
    requires
        0 <= from <= p.len(),
        forall|i: int| from <= i < p.len() ==> p[i] != b,
    ensures
        next_byte(p + r, b, from) == p.len() + next_byte(r, b, 0),
    decreases p.len() - from,
{
    if from < p.len() {
        assert((p + r)[from] == p[from]);
        lemma_next_byte_skip(p, r, b, from + 1);
    } else {
        lemma_next_byte_past(p, r, b, from);
    }
}

/// The lines of a text past a prefix are the lines of the rest.
pub proof fn lemma_text_lines_past(p: Seq<u8>, r: Seq<u8>, from: int)
    requires
        p.len() <= from,
    ensures
        text_lines(p + r, from) == text_lines(r, from - p.len()),
    decreases p.len() + r.len() + 1 - from,
{
    let t = p + r;
    if from < t.len() {
        lemma_next_byte(t, 10, from);
        lemma_next_byte_past(p, r, 10, from);
        let e = next_byte(t, 10, from);
        lemma_text_lines_past(p, r, e + 1);
        assert(t.subrange(from, e) =~= r.subrange(from - p.len(), e - p.len()));
        if e > from {
            assert(t.subrange(from, e - 1) =~= r.subrange(from - p.len(), e - 1 - p.len()));
            assert(t[e - 1] == r[e - 1 - p.len()]);
        }
    }
}

/// A line ended by a line feed, then the rest: that line, then the rest's.
pub proof fn lemma_text_lines_cons(line: Seq<u8>, rest: Seq<u8>)
    requires
        forall|i: int| 0 <= i < line.len() ==> #[trigger] line[i] != 10,
        line.len() == 0 || line.last() != 13,
    ensures
        text_lines(line + seq![10u8] + rest, 0) == seq![line] + text_lines(rest, 0),
{
    let p = line + seq![10u8];
    let t = p + rest;
    assert(line + seq![10u8] + rest == t);
    lemma_next_byte_skip(line, seq![10u8] + rest, 10, 0);
    assert(line + (seq![10u8] + rest) =~= t);
    assert(next_byte(seq![10u8] + rest, 10, 0) == 0);
    let e = line.len() as int;
    assert(next_byte(t, 10, 0) == e);
    assert(t.subrange(0, e) =~= line);
    if e > 0 {
        assert(t[e - 1] == line.last());
    }
    lemma_text_lines_past(p, rest, e + 1);
}

/// The pieces of a list past a prefix are the pieces of the rest.
pub proof fn lemma_fields_past(p: Seq<u8>, r: Seq<u8>, from: int)
    requires
        p.len() <= from,
    ensures
        fields(p + r, from) == fields(r, from - p.len()),
    decreases p.len() + r.len() + 1 - from,
{
    let t = p + r;
    if from <= t.len() {
        lemma_next_byte(t, 44, from);
        lemma_next_byte_past(p, r, 44, from);
        let e = next_byte(t, 44, from);
        assert(t.subrange(from, e) =~= r.subrange(from - p.len(), e - p.len()));
        if e < t.len() {
            lemma_fields_past(p, r, e + 1);
        }
    }
}

/// A piece ended by a comma, then the rest: that piece, then the rest's.
pub proof fn lemma_fields_cons(piece: Seq<u8>, rest: Seq<u8>)
    requires
        forall|i: int| 0 <= i < piece.len() ==> #[trigger] piece[i] != 44,
    ensures
        fields(piece + seq![44u8] + rest, 0) == seq![piece] + fields(rest, 0),
{
    let p = piece + seq![44u8];
    let t = p + rest;
    assert(piece + seq![44u8] + rest == t);
    lemma_next_byte_skip(piece, seq![44u8] + rest, 44, 0);
    assert(piece + (seq![44u8] + rest) =~= t);
    assert(next_byte(seq![44u8] + rest, 44, 0) == 0);
    let e = piece.len() as int;
    assert(t.subrange(0, e) =~= piece);
    lemma_fields_past(p, rest, e + 1);
}

/// A piece with no comma is one field.
pub proof fn lemma_fields_one(piece: Seq<u8>)
    requires
        forall|i: int| 0 <= i < piece.len() ==> #[trigger] piece[i] != 44,
    ensures
        fields(piece, 0) == seq![piece],
{
    lemma_next_byte_skip(piece, Seq::<u8>::empty(), 44, 0);
    assert(piece + Seq::<u8>::empty() =~= piece);
    assert(piece.subrange(0, piece.len() as int) =~= piece);
}


/// The pieces of `t` between the bytes `sep`, from `start` on, as
/// `str::split` gives them.
pub open spec fn split_on(t: Seq<u8>, sep: u8, start: int) -> Seq<Seq<u8>>
    decreases t.len() + 1 - start,
{
    if start > t.len() || start < 0 {
        Seq::empty()
    } else {
        let e = next_byte(t, sep, start);
        proof {
            lemma_next_byte(t, sep, start);
        }
        if e < t.len() {
            seq![t.subrange(start, e)] + split_on(t, sep, e + 1)
        } else {
            seq![t.subrange(start, e)]
        }
    }
}

/// The pieces of a text past a prefix are the pieces of the rest.
pub proof fn lemma_split_past(p: Seq<u8>, r: Seq<u8>, sep: u8, from: int)
    requires
        p.len() <= from,
    ensures
        split_on(p + r, sep, from) == split_on(r, sep, from - p.len()),
    decreases p.len() + r.len() + 1 - from,
{
    let t = p + r;
    if from <= t.len() {
        lemma_next_byte(t, sep, from);
        lemma_next_byte_past(p, r, sep, from);
        let e = next_byte(t, sep, from);
        assert(t.subrange(from, e) =~= r.subrange(from - p.len(), e - p.len()));
        if e < t.len() {
            lemma_split_past(p, r, sep, e + 1);
        }
    }
}

/// A piece ended by the separator, then the rest: that piece, then the rest's.
pub proof fn lemma_split_cons(piece: Seq<u8>, sep: u8, rest: Seq<u8>)
    requires
        forall|i: int| 0 <= i < piece.len() ==> #[trigger] piece[i] != sep,
    ensures
        split_on(piece + seq![sep] + rest, sep, 0) == seq![piece] + split_on(rest, sep, 0),
{
    let p = piece + seq![sep];
    let t = p + rest;
    assert(piece + seq![sep] + rest == t);
    lemma_next_byte_skip(piece, seq![sep] + rest, sep, 0);
    assert(piece + (seq![sep] + rest) =~= t);
    assert(next_byte(seq![sep] + rest, sep, 0) == 0);
    let e = piece.len() as int;
    assert(t.subrange(0, e) =~= piece);
    lemma_split_past(p, rest, sep, e + 1);
}

/// A piece without the separator is one piece.
pub proof fn lemma_split_one(piece: Seq<u8>, sep: u8)
    requires
        forall|i: int| 0 <= i < piece.len() ==> #[trigger] piece[i] != sep,
    ensures
        split_on(piece, sep, 0) == seq![piece],
{
    lemma_next_byte_skip(piece, Seq::<u8>::empty(), sep, 0);
    assert(piece + Seq::<u8>::empty() =~= piece);
    assert(piece.subrange(0, piece.len() as int) =~= piece);
}

/// Valid UTF-8 followed by valid UTF-8 is valid UTF-8.
pub proof fn lemma_valid_concat(a: Seq<u8>, b: Seq<u8>)
    requires
        valid_utf8(a),
        valid_utf8(b),
    ensures
        valid_utf8(a + b),
{
    vstd::utf8::valid_utf8_concat(a, b);
}

/// Next to an ASCII byte of a text, or at either end, is a character boundary.
pub proof fn lemma_ascii_boundary(b: Seq<u8>, i: int)
    requires
        valid_utf8(b),
        0 <= i <= b.len(),
        i == 0 || i == b.len() || b[i] < 128 || b[i - 1] < 128,
    ensures
        is_char_boundary(b, i),
{
    if i == 0 {
    } else if i == b.len() || b[i] < 128 {
        lemma_boundary_at_lead(b, i);
    } else {
        lemma_boundary_at_lead(b, i - 1);
        lemma_boundary_step(b, i - 1);
        assert(b.subrange(i - 1, b.len() as int)[0] == b[i - 1]);
    }
}

/// `text[start..end]`, for bounds that fall between characters.
pub fn str_between(text: &str, start: usize, end: usize) -> (piece: &str)
    requires
        start <= end <= text.spec_bytes().len(),
        is_char_boundary(text.spec_bytes(), start as int),
        is_char_boundary(text.spec_bytes(), end as int),
    ensures
        piece.spec_bytes() == text.spec_bytes().subrange(start as int, end as int),
{
    let (head, _) = text.split_at(end);
    proof {
        vstd::utf8::encode_utf8_valid_utf8(text@);
        vstd::utf8::encode_utf8_valid_utf8(head@);
        let hb = head.spec_bytes();
        assert(hb =~= text.spec_bytes().subrange(0, end as int));
        lemma_prefix_boundary(text.spec_bytes(), end as int, start as int);
    }
    let (_, piece) = head.split_at(start);
    proof {
        assert(piece.spec_bytes() =~= text.spec_bytes().subrange(start as int, end as int));
    }
    piece
}

/// A boundary of a text is one of any prefix of it that holds it.
proof fn lemma_prefix_boundary(b: Seq<u8>, end: int, i: int)
    requires
        valid_utf8(b),
        0 <= i <= end <= b.len(),
        is_char_boundary(b, end),
        is_char_boundary(b, i),
    ensures
        valid_utf8(b.subrange(0, end)),
        is_char_boundary(b.subrange(0, end), i),
{
    vstd::utf8::valid_utf8_split(b, end);
    if i < end {
        vstd::utf8::is_char_boundary_iff_not_is_continuation_byte(b, i);
        vstd::utf8::is_char_boundary_iff_not_is_continuation_byte(b.subrange(0, end), i);
    } else {
        vstd::utf8::is_char_boundary_start_end_of_seq(b.subrange(0, end));
    }
}


/// Three decimal digits, with leading zeros, of `n` below 1000.
pub open spec fn three_digits(n: nat) -> Seq<u8> {
    seq![(48 + n / 100) as u8, (48 + (n / 10) % 10) as u8, (48 + n % 10) as u8]
}

/// `n` in decimal with its digits in groups of three, joined by commas.
pub open spec fn thousands_text(n: nat) -> Seq<u8>
    decreases n,
{
    if n < 1000 {
        decimal_digits(n)
    } else {
        thousands_text(n / 1000) + seq![44u8] + three_digits(n % 1000)
    }
}

proof fn lemma_thousands_ascii(n: nat)
    ensures
        forall|i: int| 0 <= i < thousands_text(n).len() ==> #[trigger] thousands_text(n)[i] < 128,
    decreases n,
{
    if n < 1000 {
        lemma_decimal_parses(n, n);
        assert forall|i: int| 0 <= i < thousands_text(n).len() implies #[trigger] thousands_text(n)[i] < 128 by {
            assert(is_digit(decimal_digits(n)[i]));
        }
    } else {
        lemma_thousands_ascii(n / 1000);
        let a = thousands_text(n / 1000);
        let t = thousands_text(n);
        assert forall|i: int| 0 <= i < t.len() implies #[trigger] t[i] < 128 by {
            if i < a.len() {
                assert(t[i] == a[i]);
            }
        }
    }
}

fn push_thousands(out: &mut Vec<u8>, n: u64)
    ensures
        final(out)@ == old(out)@ + thousands_text(n as nat),
    decreases n,
{
    if n < 1000 {
        push_decimal(out, n);
    } else {
        push_thousands(out, n / 1000);
        let r = n % 1000;
        out.push(44);
        out.push((48 + r / 100) as u8);
        out.push((48 + (r / 10) % 10) as u8);
        out.push((48 + r % 10) as u8);
        proof {
            assert(final(out)@ =~= old(out)@ + thousands_text(n as nat));
        }
    }
}

/// A count for the screen: its digits in groups of three, joined by commas.
pub fn thousands(n: usize) -> (text: String)
    ensures
        string_bytes(text) == thousands_text(n as nat),
{
    let mut out: Vec<u8> = Vec::new();
    push_thousands(&mut out, n as u64);
    proof {
        assert(out@ =~= thousands_text(n as nat));
        lemma_thousands_ascii(n as nat);
        lemma_ascii_valid(out@);
    }
    lossy_text(out.as_slice())
}

} // verus!
