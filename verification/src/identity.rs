//! Who you are, without knowing anything about you.
//!
//! An account is a random 80-bit id generated on this device, shown as a code
//! to keep; the display name beside it on a leaderboard is whatever you choose.

use vstd::prelude::*;
use vstd::string::StringExecFns;
use vstd::string::StringSliceAdditionalSpecFns;
use crate::dictionary::{
    lemma_leading_space_len, lemma_trailing_space_len, leading_space, lowered, space_suffix_len,
    trailing_space, trimmed, trim_bounds,
};
use crate::game::string_bytes;
use crate::solver::lemma_encode_concat;
use crate::text::{
    find_byte, lemma_ascii_valid, lemma_boundary_at_lead, lemma_boundary_step, lemma_next_byte,
    lemma_next_byte_shift, lemma_text_lines_cons, lossy_text, next_byte, text_lines, trimmed_between,
};
use crate::themes::same_bytes;
use vstd::utf8::{encode_utf8, is_continuation_byte, valid_utf8};

verus! {

/// Crockford base32: no I, L, O or U, so a handwritten code cannot be misread
/// and no four-letter word can appear in one.
pub const ALPHABET: [u8; 32] = [
    48u8, 49u8, 50u8, 51u8, 52u8, 53u8, 54u8, 55u8, 56u8, 57u8, 65u8, 66u8, 67u8, 68u8, 69u8, 70u8,
    71u8, 72u8, 74u8, 75u8, 77u8, 78u8, 80u8, 81u8, 82u8, 83u8, 84u8, 86u8, 87u8, 88u8, 89u8, 90u8,
];

/// 80 bits, which is 16 characters.
pub const ID_BYTES: usize = 10;

pub const MIN_NAME: usize = 3;
pub const MAX_NAME: usize = 16;

#[derive(Clone, Debug, PartialEq, Eq)]
pub struct Identity {
    /// The account itself: 16 characters, never shown to other players.
    pub id: String,
    /// What other players see. Uniqueness is the server's to enforce.
    pub name: String,
}

/// The byte at `j`, or zero past the end: the padding of the last group.
pub open spec fn byte_or_zero(bytes: Seq<u8>, j: int) -> u8 {
    if 0 <= j < bytes.len() {
        bytes[j]
    } else {
        0
    }
}

/// The `k`-th group of five bits of `bytes`, most significant bit first, the
/// last group padded with zero bits: the five bits at offset `5k mod 8` of the
/// 16-bit window of bytes `5k/8` and `5k/8 + 1`.
pub open spec fn quintet(bytes: Seq<u8>, k: int) -> u16 {
    let j = (5 * k) / 8;
    let window = ((byte_or_zero(bytes, j) as u16) * 256 + (byte_or_zero(bytes, j + 1) as u16)) as u16;
    (window >> ((11 - (5 * k) % 8) as u16)) & 31u16
}

/// How many characters `n` bytes take in base32.
pub open spec fn base32_len(n: nat) -> nat {
    (8 * n + 4) / 5
}

/// The bytes in base32: one character of the alphabet per group of five bits.
pub open spec fn base32(bytes: Seq<u8>) -> Seq<u8> {
    Seq::new(base32_len(bytes.len()), |k: int| ALPHABET[quintet(bytes, k) as int])
}

/// The bytes in Crockford base32.
pub fn encode(bytes: &[u8]) -> (code: String)
    requires
        bytes@.len() <= usize::MAX / 8,
    ensures
        string_bytes(code) == base32(bytes@),
{
    let n = bytes.len();
    let count = (8 * n + 4) / 5;
    let mut out: Vec<u8> = Vec::new();
    let mut k: usize = 0;
    while k < count
        invariant
            n == bytes@.len(),
            n <= usize::MAX / 8,
            count == base32_len(n as nat),
            0 <= k <= count,
            out@.len() == k,
            forall|i: int| 0 <= i < k ==> #[trigger] out@[i] == base32(bytes@)[i],
            forall|i: int| 0 <= i < k ==> #[trigger] out@[i] < 128,
        decreases count - k,
    {
        let j = (5 * k) / 8;
        let b0: u8 = if j < n { bytes[j] } else { 0 };
        let b1: u8 = if j + 1 < n { bytes[j + 1] } else { 0 };
        let window: u16 = (b0 as u16) * 256 + (b1 as u16);
        let shift: u16 = (11 - (5 * k) % 8) as u16;
        let group: u16 = (window >> shift) & 31u16;
        proof {
            assert(group == quintet(bytes@, k as int));
            assert(group < 32) by (bit_vector)
                requires
                    group == (window >> shift) & 31u16,
            ;
            lemma_alphabet_char(group as int);
        }
        out.push(ALPHABET[group as usize]);
        k += 1;
    }
    proof {
        assert(out@ =~= base32(bytes@));
        lemma_ascii_valid(out@);
    }
    lossy_text(out.as_slice())
}

/// A code in groups of four, joined by dashes.
pub open spec fn dashed(code: Seq<u8>) -> Seq<u8>
    decreases code.len(),
{
    if code.len() <= 4 {
        code
    } else {
        code.take(4) + seq![45u8] + dashed(code.skip(4))
    }
}

/// Bytes below 128.
pub open spec fn ascii_bytes(b: Seq<u8>) -> bool {
    forall|i: int| 0 <= i < b.len() ==> #[trigger] b[i] < 128
}

pub open spec fn is_ascii_alphanumeric(b: u8) -> bool {
    (48 <= b <= 57) || (65 <= b <= 90) || (97 <= b <= 122)
}

/// A typed character as a code reads it: raised to capitals, and the
/// characters people confuse folded together (I and L to 1, O to 0, U to V).
pub open spec fn fold_code_char(b: u8) -> u8 {
    let up = if 97 <= b <= 122 {
        (b - 32) as u8
    } else {
        b
    };
    if up == 73 || up == 76 {
        49
    } else if up == 79 {
        48
    } else if up == 85 {
        86
    } else {
        up
    }
}

/// What a typed code comes to: its letters and digits, folded; spacing,
/// dashes and anything else dropped.
pub open spec fn cleaned_code(code: Seq<u8>) -> Seq<u8>
    decreases code.len(),
{
    if code.len() == 0 {
        Seq::empty()
    } else {
        cleaned_code(code.drop_last()) + if is_ascii_alphanumeric(code.last()) {
            seq![fold_code_char(code.last())]
        } else {
            Seq::empty()
        }
    }
}

pub open spec fn in_alphabet(b: u8) -> bool {
    exists|i: int| 0 <= i < 32 && ALPHABET[i] == b
}

/// The id a typed code gives back: its cleaned form, when that is sixteen
/// characters of the alphabet.
pub open spec fn code_id(code: Seq<u8>) -> Option<Seq<u8>> {
    let c = cleaned_code(code);
    if c.len() == 16 && forall|i: int| 0 <= i < 16 ==> in_alphabet(#[trigger] c[i]) {
        Some(c)
    } else {
        None
    }
}

/// The alphabet's characters are ASCII capitals and digits, none of which
/// folding changes.
pub proof fn lemma_alphabet_char(a: int)
    requires
        0 <= a < 32,
    ensures
        ALPHABET[a] < 128,
        is_ascii_alphanumeric(ALPHABET[a]),
        fold_code_char(ALPHABET[a]) == ALPHABET[a],
{
    assert(a == 0 || a == 1 || a == 2 || a == 3 || a == 4 || a == 5 || a == 6 || a == 7 || a == 8 || a == 9
        || a == 10 || a == 11 || a == 12 || a == 13 || a == 14 || a == 15 || a == 16 || a == 17 || a == 18
        || a == 19 || a == 20 || a == 21 || a == 22 || a == 23 || a == 24 || a == 25 || a == 26 || a == 27
        || a == 28 || a == 29 || a == 30 || a == 31);
}

fn alphabet_holds(b: u8) -> (found: bool)
    ensures
        found == in_alphabet(b),
{
    let mut i: usize = 0;
    while i < 32
        invariant
            0 <= i <= 32,
            forall|k: int| 0 <= k < i ==> ALPHABET[k] != b,
        decreases 32 - i,
    {
        if ALPHABET[i] == b {
            return true;
        }
        i += 1;
    }
    false
}

impl Identity {
    /// A brand new account, its id spelled from ten random bytes.
    pub fn generate(bytes: [u8; 10]) -> (me: Identity)
        ensures
            string_bytes(me.id) == base32(bytes@),
            me.name@.len() == 0,
    {
        let id = encode(bytes.as_slice());
        Identity { id, name: String::new() }
    }

    /// The id in groups of four joined by dashes, which is how it is shown and
    /// typed. For an id that is not plain ASCII nothing is stated.
    pub fn recovery_code(&self) -> (code: String)
        ensures
            ascii_bytes(string_bytes(self.id)) ==> string_bytes(code) == dashed(string_bytes(self.id)),
    {
        let b = self.id.as_str().as_bytes();
        let ghost id = b@;
        let n = b.len();
        let mut out: Vec<u8> = Vec::new();
        let mut start: usize = 0;
        proof {
            assert(id.skip(0) =~= id);
            assert(out@ + dashed(id) =~= dashed(id));
        }
        while start < n
            invariant
                id == b@,
                n == id.len(),
                n == b@.len(),
                0 <= start <= n,
                out@ + dashed(id.skip(start as int)) == dashed(id),
            decreases n - start,
        {
            let end = if n - start > 4 { start + 4 } else { n };
            let ghost rest = id.skip(start as int);
            let mut i = start;
            let ghost before = out@;
            while i < end
                invariant
                    start <= i <= end <= n,
                    n == b@.len(),
                    id == b@,
                    out@ == before + id.subrange(start as int, i as int),
                decreases end - i,
            {
                out.push(b[i]);
                proof {
                    assert(id.subrange(start as int, i + 1) =~= id.subrange(start as int, i as int).push(id[i as int]));
                }
                i += 1;
            }
            if end < n {
                out.push(45);
                proof {
                    assert(rest.take(4) =~= id.subrange(start as int, end as int));
                    assert(rest.skip(4) =~= id.skip(end as int));
                    assert(dashed(rest) == rest.take(4) + seq![45u8] + dashed(rest.skip(4)));
                    assert(out@ + dashed(id.skip(end as int)) =~= before + dashed(rest));
                }
            } else {
                proof {
                    assert(rest =~= id.subrange(start as int, end as int));
                    assert(id.skip(end as int) =~= Seq::<u8>::empty());
                    assert(dashed(Seq::<u8>::empty()) =~= Seq::<u8>::empty());
                    assert(out@ + dashed(id.skip(end as int)) =~= before + dashed(rest));
                }
            }
            start = end;
        }
        proof {
            assert(id.skip(n as int) =~= Seq::<u8>::empty());
            assert(out@ =~= dashed(id));
            if ascii_bytes(id) {
                assert forall|k: int| 0 <= k < out@.len() implies #[trigger] out@[k] < 128 by {
                    lemma_dashed_ascii(id, k);
                }
                lemma_ascii_valid(out@);
            }
        }
        lossy_text(out.as_slice())
    }

    /// Read a code back, however it was typed: spacing, dashes and case are
    /// all forgiven, and the characters people confuse are folded together.
    pub fn from_recovery(code: &str) -> (me: Option<Identity>)
        ensures
            match me {
                Some(i) => code_id(code.spec_bytes()) == Some(string_bytes(i.id)) && i.name@.len() == 0,
                None => code_id(code.spec_bytes()) is None,
            },
    {
        let b = code.as_bytes();
        let mut cleaned: Vec<u8> = Vec::new();
        let mut i: usize = 0;
        while i < b.len()
            invariant
                0 <= i <= b@.len(),
                cleaned@ == cleaned_code(b@.take(i as int)),
            decreases b@.len() - i,
        {
            let c = b[i];
            proof {
                assert(b@.take(i + 1).drop_last() =~= b@.take(i as int));
            }
            if (48 <= c && c <= 57) || (65 <= c && c <= 90) || (97 <= c && c <= 122) {
                let up = if 97 <= c && c <= 122 { c - 32 } else { c };
                let folded = if up == 73 || up == 76 {
                    49
                } else if up == 79 {
                    48
                } else if up == 85 {
                    86
                } else {
                    up
                };
                cleaned.push(folded);
            } else {
                proof {
                    assert(cleaned_code(b@.take(i + 1)) =~= cleaned_code(b@.take(i as int)));
                }
            }
            i += 1;
        }
        proof {
            assert(b@.take(b@.len() as int) =~= b@);
        }
        if cleaned.len() != ID_BYTES * 8 / 5 {
            return None;
        }
        let mut k: usize = 0;
        while k < cleaned.len()
            invariant
                0 <= k <= cleaned@.len(),
                cleaned@ == cleaned_code(code.spec_bytes()),
                cleaned@.len() == 16,
                forall|j: int| 0 <= j < k ==> in_alphabet(#[trigger] cleaned@[j]),
            decreases cleaned@.len() - k,
        {
            if !alphabet_holds(cleaned[k]) {
                return None;
            }
            k += 1;
        }
        proof {
            assert forall|j: int| 0 <= j < cleaned@.len() implies #[trigger] cleaned@[j] < 128 by {
                assert(in_alphabet(cleaned@[j]));
                let a = choose|a: int| 0 <= a < 32 && ALPHABET[a] == cleaned@[j];
                lemma_alphabet_char(a);
            }
            lemma_ascii_valid(cleaned@);
        }
        let id = lossy_text(cleaned.as_slice());
        Some(Identity { id, name: String::new() })
    }
}

proof fn lemma_dashed_ascii(code: Seq<u8>, k: int)
    requires
        ascii_bytes(code),
        0 <= k < dashed(code).len(),
    ensures
        dashed(code)[k] < 128,
    decreases code.len(),
{
    if code.len() > 4 {
        if k > 4 {
            lemma_dashed_ascii(code.skip(4), k - 5);
        }
    }
}

/// A code reads the same in pieces as whole.
pub proof fn lemma_cleaned_concat(a: Seq<u8>, b: Seq<u8>)
    ensures
        cleaned_code(a + b) == cleaned_code(a) + cleaned_code(b),
    decreases b.len(),
{
    if b.len() == 0 {
        assert(a + b =~= a);
        assert(cleaned_code(a) + cleaned_code(b) =~= cleaned_code(a));
    } else {
        assert((a + b).drop_last() =~= a + b.drop_last());
        lemma_cleaned_concat(a, b.drop_last());
        let tail = if is_ascii_alphanumeric(b.last()) {
            seq![fold_code_char(b.last())]
        } else {
            Seq::<u8>::empty()
        };
        assert(cleaned_code(a) + cleaned_code(b.drop_last()) + tail =~= cleaned_code(a) + (cleaned_code(
            b.drop_last(),
        ) + tail));
    }
}

/// Typing a code in lower case changes nothing.
pub proof fn lemma_code_ignores_case(code: Seq<u8>)
    ensures
        cleaned_code(lowered(code)) == cleaned_code(code),
    decreases code.len(),
{
    if code.len() > 0 {
        assert(lowered(code).drop_last() =~= lowered(code.drop_last()));
        lemma_code_ignores_case(code.drop_last());
    } else {
        assert(lowered(code) =~= code);
    }
}

/// Spaces, dashes and anything else that is not a letter or digit between the
/// pieces of a code change nothing.
pub proof fn lemma_code_ignores_separators(a: Seq<u8>, sep: u8, b: Seq<u8>)
    requires
        !is_ascii_alphanumeric(sep),
    ensures
        cleaned_code(a + seq![sep] + b) == cleaned_code(a + b),
{
    lemma_cleaned_concat(a + seq![sep], b);
    lemma_cleaned_concat(a, seq![sep]);
    lemma_cleaned_concat(a, b);
    let one = seq![sep];
    assert(one.drop_last() =~= Seq::<u8>::empty());
    assert(one.last() == sep);
    assert(cleaned_code(Seq::<u8>::empty()) =~= Seq::<u8>::empty());
    assert(cleaned_code(one) =~= Seq::<u8>::empty());
    assert(cleaned_code(a) + Seq::<u8>::empty() =~= cleaned_code(a));
}

/// Characters of the alphabet read back as themselves.
proof fn lemma_cleaned_alphabet(code: Seq<u8>)
    requires
        forall|i: int| 0 <= i < code.len() ==> in_alphabet(#[trigger] code[i]),
    ensures
        cleaned_code(code) == code,
    decreases code.len(),
{
    if code.len() > 0 {
        lemma_cleaned_alphabet(code.drop_last());
        let a = choose|a: int| 0 <= a < 32 && ALPHABET[a] == code.last();
        assert(in_alphabet(code[code.len() - 1]));
        lemma_alphabet_char(a);
        assert(code.drop_last().push(code.last()) =~= code);
    } else {
        assert(cleaned_code(code) =~= code);
    }
}

/// A recovery code, written down and typed back, gives back the id.
pub proof fn lemma_recovery_round_trip(id: Seq<u8>)
    requires
        id.len() == 16,
        forall|i: int| 0 <= i < 16 ==> in_alphabet(#[trigger] id[i]),
    ensures
        code_id(dashed(id)) == Some(id),
{
    lemma_cleaned_dashed(id);
    lemma_cleaned_alphabet(id);
}

proof fn lemma_cleaned_dashed(code: Seq<u8>)
    ensures
        cleaned_code(dashed(code)) == cleaned_code(code),
    decreases code.len(),
{
    if code.len() > 4 {
        lemma_cleaned_dashed(code.skip(4));
        lemma_code_ignores_separators(code.take(4), 45, dashed(code.skip(4)));
        lemma_cleaned_concat(code.take(4), dashed(code.skip(4)));
        lemma_cleaned_concat(code.take(4), code.skip(4));
        assert(code.take(4) + code.skip(4) =~= code);
    }
}

/// Why a name was refused, so the screen can say so.
#[derive(Clone, Copy, PartialEq, Eq, Debug)]
pub enum NameError {
    TooShort,
    TooLong,
    BadCharacter,
}

impl NameError {
    pub fn message(self) -> (text: String)
        ensures
            text@ == match self {
                NameError::TooShort => "At least 3 characters"@,
                NameError::TooLong => "At most 16 characters"@,
                NameError::BadCharacter => "Letters, numbers, - and _ only"@,
            },
    {
        match self {
            NameError::TooShort => String::from_str("At least 3 characters"),
            NameError::TooLong => String::from_str("At most 16 characters"),
            NameError::BadCharacter => String::from_str("Letters, numbers, - and _ only"),
        }
    }
}

/// How many characters UTF-8 bytes hold: one per byte that is not a
/// continuation byte.
pub open spec fn char_count(b: Seq<u8>) -> nat
    decreases b.len(),
{
    if b.len() == 0 {
        0
    } else {
        char_count(b.drop_last()) + if is_continuation_byte(b.last()) {
            0nat
        } else {
            1nat
        }
    }
}

/// A character a name may hold: an ASCII letter or digit, `-` or `_`.
pub open spec fn name_byte(b: u8) -> bool {
    is_ascii_alphanumeric(b) || b == 45 || b == 95
}

/// The characters a name may hold: the ASCII letters of either case, the
/// digits, `-` and `_`, and nothing else.
pub proof fn lemma_name_characters(b: u8)
    ensures
        name_byte(b) <==> (48 <= b <= 57 || 65 <= b <= 90 || 97 <= b <= 122 || b == 45 || b == 95),
{
}

/// The verdict on a name: trimmed, then three to sixteen characters, each a
/// letter, a digit, `-` or `_`.
pub open spec fn name_verdict(name: Seq<u8>) -> Result<Seq<u8>, NameError> {
    let t = trimmed(name);
    if char_count(t) < MIN_NAME {
        Err(NameError::TooShort)
    } else if char_count(t) > MAX_NAME {
        Err(NameError::TooLong)
    } else if !(forall|i: int| 0 <= i < t.len() ==> name_byte(#[trigger] t[i])) {
        Err(NameError::BadCharacter)
    } else {
        Ok(t)
    }
}

proof fn lemma_plain_char_count(b: Seq<u8>)
    requires
        forall|i: int| 0 <= i < b.len() ==> #[trigger] b[i] < 128,
    ensures
        char_count(b) == b.len(),
    decreases b.len(),
{
    if b.len() > 0 {
        assert forall|i: int| 0 <= i < b.drop_last().len() implies #[trigger] b.drop_last()[i] < 128 by {
            assert(b.drop_last()[i] == b[i]);
        }
        lemma_plain_char_count(b.drop_last());
        assert(b.last() == b[b.len() - 1]);
    }
}

/// A name made only of ASCII letters of either case, digits, `-` and `_` is
/// judged by its length alone: under three characters too short, over sixteen
/// too long, and otherwise accepted just as it was typed.
pub proof fn lemma_plain_names_accepted(name: Seq<u8>)
    requires
        name.len() >= 1,
        forall|i: int|
            0 <= i < name.len() ==> (48 <= #[trigger] name[i] <= 57 || 65 <= name[i] <= 90 || 97 <= name[i] <= 122
                || name[i] == 45 || name[i] == 95),
    ensures
        name_verdict(name) == if name.len() < 3 {
            Err::<Seq<u8>, NameError>(NameError::TooShort)
        } else if name.len() > 16 {
            Err::<Seq<u8>, NameError>(NameError::TooLong)
        } else {
            Ok::<Seq<u8>, NameError>(name)
        },
{
    assert(name[0] < 128 && !crate::dictionary::is_ascii_space(name[0]));
    assert(crate::dictionary::space_prefix_len(name) == 0);
    assert(crate::dictionary::leading_space(name) == 0);
    assert(name.skip(0) =~= name);
    let n = name.len() as int;
    assert(name[n - 1] < 128 && !crate::dictionary::is_ascii_space(name[n - 1]));
    assert(crate::dictionary::space_suffix_len(name) == 0);
    assert(crate::dictionary::trailing_space(name) == 0);
    assert(name.take(n) =~= name);
    assert(trimmed(name) == name);
    assert forall|i: int| 0 <= i < name.len() implies #[trigger] name[i] < 128 by {}
    lemma_plain_char_count(name);
}

/// Local checks only. Whether the name is taken is a question only the server
/// can answer, and it answers it when the name is claimed.
pub fn check_name(name: &str) -> (verdict: Result<String, NameError>)
    ensures
        match verdict {
            Ok(s) => name_verdict(name.spec_bytes()) == Ok::<Seq<u8>, NameError>(string_bytes(s)),
            Err(e) => name_verdict(name.spec_bytes()) == Err::<Seq<u8>, NameError>(e),
        },
{
    let b = name.as_bytes();
    let (lo, hi) = trim_bounds(b, 0, b.len());
    let ghost t = b@.subrange(lo as int, hi as int);
    proof {
        assert(b@.subrange(0, b@.len() as int) =~= b@);
        assert(t == trimmed(name.spec_bytes()));
    }
    let mut count: usize = 0;
    let mut i = lo;
    while i < hi
        invariant
            lo <= i <= hi <= b@.len(),
            t == b@.subrange(lo as int, hi as int),
            count == char_count(t.take(i - lo)),
            count <= i - lo,
        decreases hi - i,
    {
        proof {
            assert(t.take(i - lo + 1).drop_last() =~= t.take(i - lo));
            assert(t.take(i - lo + 1).last() == b@[i as int]);
        }
        if !(0x80 <= b[i] && b[i] <= 0xbf) {
            count += 1;
        }
        i += 1;
    }
    proof {
        assert(t.take(hi - lo) =~= t);
    }
    if count < MIN_NAME {
        return Err(NameError::TooShort);
    }
    if count > MAX_NAME {
        return Err(NameError::TooLong);
    }
    let mut k = lo;
    while k < hi
        invariant
            lo <= k <= hi <= b@.len(),
            b@ == name.spec_bytes(),
            t == b@.subrange(lo as int, hi as int),
            t == trimmed(name.spec_bytes()),
            char_count(t) == count,
            MIN_NAME <= count <= MAX_NAME,
            forall|j: int| 0 <= j < k - lo ==> name_byte(#[trigger] t[j]),
        decreases hi - k,
    {
        let c = b[k];
        if !((48 <= c && c <= 57) || (65 <= c && c <= 90) || (97 <= c && c <= 122) || c == 45 || c == 95) {
            proof {
                assert(t[k - lo] == c);
                assert(!name_byte(t[k - lo]));
            }
            return Err(NameError::BadCharacter);
        }
        k += 1;
    }
    let piece = vstd::slice::slice_subrange(b, lo, hi);
    proof {
        assert(piece@ == t);
        assert forall|j: int| 0 <= j < t.len() implies #[trigger] t[j] < 128 by {
            assert(name_byte(t[j]));
        }
        lemma_ascii_valid(t);
    }
    Ok(lossy_text(piece))
}


pub open spec fn id_key() -> Seq<u8> {
    seq![105u8, 100u8]
}

pub open spec fn name_key() -> Seq<u8> {
    seq![110u8, 97u8, 109u8, 101u8]
}

/// What an identity's save holds: the id and the name.
pub type IdText = (Seq<u8>, Seq<u8>);

/// What one line of a save does: `id=` or `name=` sets that field to the rest
/// of the line, trimmed; any other line changes nothing.
pub open spec fn id_step(state: IdText, line: Seq<u8>) -> IdText {
    let eq = next_byte(line, 61, 0);
    if eq >= line.len() {
        state
    } else {
        let key = line.take(eq);
        let value = trimmed(line.skip(eq + 1));
        if key == id_key() {
            (value, state.1)
        } else if key == name_key() {
            (state.0, value)
        } else {
            state
        }
    }
}

pub open spec fn id_after(state: IdText, lines: Seq<Seq<u8>>) -> IdText
    decreases lines.len(),
{
    if lines.len() == 0 {
        state
    } else {
        id_after(id_step(state, lines[0]), lines.drop_first())
    }
}

/// The id and name a save's text describes, line by line.
pub open spec fn identity_in(t: Seq<u8>) -> IdText {
    id_after((Seq::empty(), Seq::empty()), text_lines(t, 0))
}

/// An identity's save: `id=` and `name=` lines.
pub open spec fn saved_identity(id: Seq<u8>, name: Seq<u8>) -> Seq<u8> {
    id_key() + seq![61u8] + id + seq![10u8] + name_key() + seq![61u8] + name + seq![10u8]
}

/// Take in one line of a save, `text[start..end]`.
fn read_id_line(text: &str, start: usize, end: usize, id: &mut String, name: &mut String)
    requires
        start <= end <= text.spec_bytes().len(),
        end == text.spec_bytes().len() || text.spec_bytes()[end as int] == 10
            || text.spec_bytes()[end as int] == 13,
    ensures
        (string_bytes(*final(id)), string_bytes(*final(name))) == id_step(
            (string_bytes(*old(id)), string_bytes(*old(name))),
            text.spec_bytes().subrange(start as int, end as int),
        ),
{
    let t = text.as_bytes();
    let ghost tb = t@;
    let ghost line = tb.subrange(start as int, end as int);
    let eq = find_byte(t, 61, start, end);
    proof {
        lemma_next_byte_shift(tb, 61, start as int, start as int, end as int);
        lemma_next_byte(line, 61, 0);
    }
    if eq < end {
        let key = vstd::slice::slice_subrange(t, start, eq);
        let id_name: [u8; 2] = [105, 100];
        let name_name: [u8; 4] = [110, 97, 109, 101];
        proof {
            assert(key@ =~= line.take(eq - start));
            assert(id_name@ =~= id_key());
            assert(name_name@ =~= name_key());
        }
        let is_id = same_bytes(key, id_name.as_slice());
        let is_name = same_bytes(key, name_name.as_slice());
        if is_id || is_name {
            proof {
                vstd::utf8::encode_utf8_valid_utf8(text@);
                lemma_next_byte(tb.subrange(0, end as int), 61, start as int);
                assert(tb[eq as int] == 61);
                lemma_boundary_at_lead(tb, eq as int);
                lemma_boundary_step(tb, eq as int);
                assert(tb.subrange(eq as int, tb.len() as int)[0] == 61);
                lemma_boundary_at_lead(tb, end as int);
            }
            let value = trimmed_between(text, eq + 1, end);
            proof {
                assert(tb.subrange(eq + 1, end as int) =~= line.skip(eq - start + 1));
            }
            if is_id {
                *id = value.to_owned();
            } else {
                *name = value.to_owned();
            }
        }
    }
}

impl Identity {
    /// The identity a save describes. Nothing without a save, or when the
    /// save holds no id.
    pub fn load(saved: Option<&str>) -> (me: Option<Identity>)
        ensures
            match saved {
                None => me is None,
                Some(text) => match me {
                    Some(i) => identity_in(text.spec_bytes()).0.len() > 0 && string_bytes(i.id)
                        == identity_in(text.spec_bytes()).0 && string_bytes(i.name) == identity_in(
                        text.spec_bytes(),
                    ).1,
                    None => identity_in(text.spec_bytes()).0.len() == 0,
                },
            },
    {
        let text = match saved {
            None => return None,
            Some(text) => text,
        };
        let t = text.as_bytes();
        let ghost tb = t@;
        let len = t.len();
        let mut id = String::new();
        let mut name = String::new();
        proof {
            assert(string_bytes(id) =~= Seq::<u8>::empty());
            assert(string_bytes(name) =~= Seq::<u8>::empty());
        }
        if len == 0 {
            proof {
                assert(text_lines(tb, 0) =~= Seq::<Seq<u8>>::empty());
            }
            return None;
        }
        let mut start: usize = 0;
        let mut more = true;
        while more
            invariant
                tb == t@,
                tb == text.spec_bytes(),
                len == tb.len(),
                len > 0,
                0 <= start < len,
                more ==> id_after((string_bytes(id), string_bytes(name)), text_lines(tb, start as int))
                    == identity_in(tb),
                !more ==> (string_bytes(id), string_bytes(name)) == identity_in(tb),
            decreases (if more { len + 1 - start } else { 0 }),
        {
            let ghost before = (string_bytes(id), string_bytes(name));
            let end = find_byte(t, 10, start, len);
            proof {
                assert(tb.subrange(0, len as int) =~= tb);
                lemma_next_byte(tb, 10, start as int);
            }
            let content_end = if end < len && end > start && t[end - 1] == 13 { end - 1 } else { end };
            let ghost line = tb.subrange(start as int, content_end as int);
            proof {
                assert(text_lines(tb, start as int)[0] == line);
                assert(text_lines(tb, start as int).drop_first() =~= text_lines(tb, end + 1));
                assert(id_after(before, text_lines(tb, start as int)) == id_after(
                    id_step(before, line),
                    text_lines(tb, end + 1),
                ));
            }
            read_id_line(text, start, content_end, &mut id, &mut name);
            if end < len - 1 {
                start = end + 1;
            } else {
                proof {
                    assert(text_lines(tb, end + 1) =~= Seq::<Seq<u8>>::empty());
                }
                more = false;
            }
        }
        if id.as_str().is_empty() {
            proof {
                assert(string_bytes(id) =~= Seq::<u8>::empty());
            }
            None
        } else {
            proof {
                assert(string_bytes(id).len() > 0);
            }
            Some(Identity { id, name })
        }
    }

    /// The text an identity is saved as.
    pub fn store(&self) -> (text: String)
        ensures
            string_bytes(text) == saved_identity(string_bytes(self.id), string_bytes(self.name)),
    {
        let mut out = String::from_str("id=");
        out.append(self.id.as_str());
        out.append("\nname=");
        out.append(self.name.as_str());
        out.append("\n");
        proof {
            reveal_strlit("id=");
            reveal_strlit("\nname=");
            reveal_strlit("\n");
            let a = "id="@;
            let b = "\nname="@;
            let c = "\n"@;
            lemma_encode_ascii(a);
            lemma_encode_ascii(b);
            lemma_encode_ascii(c);
            assert(encode_utf8(a) =~= id_key() + seq![61u8]);
            assert(encode_utf8(b) =~= seq![10u8] + name_key() + seq![61u8]);
            assert(encode_utf8(c) =~= seq![10u8]);
            lemma_encode_concat(a, self.id@);
            lemma_encode_concat(a + self.id@, b);
            lemma_encode_concat(a + self.id@ + b, self.name@);
            lemma_encode_concat(a + self.id@ + b + self.name@, c);
            assert(string_bytes(out) =~= saved_identity(string_bytes(self.id), string_bytes(self.name)));
        }
        out
    }
}

/// Without whitespace at its end, a value cannot end in a carriage return.
proof fn lemma_trimmed_end(s: Seq<u8>)
    requires
        trimmed(s) == s,
        s.len() > 0,
    ensures
        s.last() != 13,
{
    lemma_leading_space_len(s);
    let t = s.skip(leading_space(s) as int);
    lemma_trailing_space_len(t);
    assert(trimmed(s).len() == s.len());
    if s.last() == 13 {
        assert(leading_space(s) == 0);
        assert(t =~= s);
        assert(space_suffix_len(t) == 1);
        assert(trailing_space(t) >= 1);
    }
}

/// Characters below 128 are encoded as one byte each, their own value.
proof fn lemma_encode_ascii(s: Seq<char>)
    requires
        forall|i: int| 0 <= i < s.len() ==> (#[trigger] s[i] as u32) < 128,
    ensures
        encode_utf8(s) =~= Seq::new(s.len(), |i: int| (s[i] as u32) as u8),
    decreases s.len(),
{
    if s.len() > 0 {
        let v = s[0] as u32;
        assert((v & 0x7F) as u8 == v as u8) by (bit_vector)
            requires
                v < 128,
        ;
        lemma_encode_ascii(s.drop_first());
    }
}

/// An identity saved and read back is the same identity, for an id and a name
/// that hold no line break and no whitespace at either end, as every id and
/// every name that passes `check_name` is.
pub proof fn lemma_identity_round_trip(id: Seq<u8>, name: Seq<u8>)
    requires
        forall|i: int| 0 <= i < id.len() ==> #[trigger] id[i] != 10,
        forall|i: int| 0 <= i < name.len() ==> #[trigger] name[i] != 10,
        trimmed(id) == id,
        trimmed(name) == name,
    ensures
        identity_in(saved_identity(id, name)) == (id, name),
{
    let l1 = id_key() + seq![61u8] + id;
    let l2 = name_key() + seq![61u8] + name;
    if id.len() > 0 {
        lemma_trimmed_end(id);
        assert(l1.last() == id.last());
    }
    if name.len() > 0 {
        lemma_trimmed_end(name);
        assert(l2.last() == name.last());
    }
    assert forall|i: int| 0 <= i < l1.len() implies #[trigger] l1[i] != 10 by {
        if i >= 3 {
            assert(l1[i] == id[i - 3]);
        }
    }
    assert forall|i: int| 0 <= i < l2.len() implies #[trigger] l2[i] != 10 by {
        if i >= 5 {
            assert(l2[i] == name[i - 5]);
        }
    }
    assert(saved_identity(id, name) =~= l1 + seq![10u8] + (l2 + seq![10u8] + Seq::<u8>::empty()));
    lemma_text_lines_cons(l1, l2 + seq![10u8] + Seq::<u8>::empty());
    lemma_text_lines_cons(l2, Seq::<u8>::empty());
    assert(text_lines(Seq::<u8>::empty(), 0) =~= Seq::<Seq<u8>>::empty());
    let lines = seq![l1, l2];
    assert(text_lines(saved_identity(id, name), 0) =~= lines);
    assert(l1[0] == 105 && l1[1] == 100 && l1[2] == 61);
    assert(next_byte(l1, 61, 2) == 2);
    assert(next_byte(l1, 61, 1) == 2);
    assert(next_byte(l1, 61, 0) == 2);
    assert(l2[0] == 110 && l2[1] == 97 && l2[2] == 109 && l2[3] == 101 && l2[4] == 61);
    assert(next_byte(l2, 61, 4) == 4);
    assert(next_byte(l2, 61, 3) == 4);
    assert(next_byte(l2, 61, 2) == 4);
    assert(next_byte(l2, 61, 1) == 4);
    assert(next_byte(l2, 61, 0) == 4);
    assert(l1.take(2) =~= id_key());
    assert(l1.skip(3) =~= id);
    assert(l2.take(4) =~= name_key());
    assert(l2.skip(5) =~= name);
    let s0: IdText = (Seq::empty(), Seq::empty());
    assert(id_step(s0, l1) == (id, Seq::<u8>::empty()));
    assert(id_step((id, Seq::<u8>::empty()), l2) == (id, name));
    assert(lines.drop_first() =~= seq![l2]);
    assert(seq![l2].drop_first() =~= Seq::<Seq<u8>>::empty());
    let s1: IdText = (id, Seq::<u8>::empty());
    let s2: IdText = (id, name);
    assert(id_after(s2, Seq::<Seq<u8>>::empty()) == s2);
    assert(id_after(s1, seq![l2]) == id_after(id_step(s1, l2), Seq::<Seq<u8>>::empty()));
    assert(id_after(s0, lines) == id_after(id_step(s0, l1), seq![l2]));
}

} // verus!
