//! How a round in play is saved: one `key=value` line each for the round, the
//! tiles, the theme, the clock in seconds and the words found with their
//! paths.

use vstd::prelude::*;
use vstd::string::StringSliceAdditionalSpecFns;
use vstd::utf8::{is_char_boundary, valid_utf8};
use crate::game::{string_bytes, Position};
use crate::round::SavedRound;
use crate::solver::bytes_of;
use crate::text::{
    all_digits, decimal_digits, digits_value, lemma_ascii_valid, lemma_valid_concat, lossy_text, next_byte,
    number_digits, parse_number, push_decimal, split_on, text_lines,
};

verus! {

pub open spec fn round_key() -> Seq<u8> {
    seq![114u8, 111u8, 117u8, 110u8, 100u8]
}

pub open spec fn grid_key() -> Seq<u8> {
    seq![103u8, 114u8, 105u8, 100u8]
}

pub open spec fn theme_key() -> Seq<u8> {
    seq![116u8, 104u8, 101u8, 109u8, 101u8]
}

pub open spec fn time_key() -> Seq<u8> {
    seq![116u8, 105u8, 109u8, 101u8, 95u8, 108u8, 101u8, 102u8, 116u8]
}

pub open spec fn found_key() -> Seq<u8> {
    seq![102u8, 111u8, 117u8, 110u8, 100u8]
}

/// What a solo round saves in place of a server's round.
pub open spec fn solo_word() -> Seq<u8> {
    seq![115u8, 111u8, 108u8, 111u8]
}

/// The pieces with `sep` between each two.
pub open spec fn joined_by(pieces: Seq<Seq<u8>>, sep: u8) -> Seq<u8>
    decreases pieces.len(),
{
    if pieces.len() == 0 {
        Seq::empty()
    } else if pieces.len() == 1 {
        pieces[0]
    } else {
        pieces[0] + seq![sep] + joined_by(pieces.drop_first(), sep)
    }
}

/// The fraction of a second in milliseconds, `f` between 1 and 999, as
/// decimal digits without trailing zeros.
pub open spec fn fraction_digits(f: nat) -> Seq<u8> {
    let d1 = (48 + f / 100) as u8;
    let d2 = (48 + (f / 10) % 10) as u8;
    let d3 = (48 + f % 10) as u8;
    if f % 10 != 0 {
        seq![d1, d2, d3]
    } else if (f / 10) % 10 != 0 {
        seq![d1, d2]
    } else {
        seq![d1]
    }
}

/// Milliseconds as seconds in decimal: the whole seconds, then a point and
/// the fraction when there is one.
pub open spec fn seconds_text(ms: nat) -> Seq<u8> {
    decimal_digits(ms / 1000) + if ms % 1000 == 0 {
        Seq::<u8>::empty()
    } else {
        seq![46u8] + fraction_digits(ms % 1000)
    }
}

/// A tile as its index, row by row, in decimal.
pub open spec fn slot_text(p: Position) -> Seq<u8> {
    decimal_digits((p.row * 4 + p.col) as nat)
}

/// A found word and its path: `word:i.j.k`.
pub open spec fn entry_text(word: Seq<u8>, path: Seq<Position>) -> Seq<u8> {
    word + seq![58u8] + joined_by(path.map_values(|p: Position| slot_text(p)), 46)
}

pub open spec fn entries_text(found: Seq<(String, Vec<Position>)>) -> Seq<Seq<u8>> {
    found.map_values(|e: (String, Vec<Position>)| entry_text(string_bytes(e.0), e.1@))
}

pub open spec fn key_line(key: Seq<u8>, value: Seq<u8>) -> Seq<u8> {
    key + seq![61u8] + value + seq![10u8]
}

/// A round's save.
pub open spec fn saved_text(s: SavedRound) -> Seq<u8> {
    key_line(
        round_key(),
        match s.round {
            Some(r) => decimal_digits(r as nat),
            None => solo_word(),
        },
    ) + key_line(grid_key(), joined_by(bytes_of(s.grid@), 44)) + key_line(
        theme_key(),
        match s.theme {
            Some(t) => string_bytes(t),
            None => Seq::empty(),
        },
    ) + key_line(time_key(), seconds_text(s.time_left as nat)) + key_line(
        found_key(),
        joined_by(entries_text(s.found@), 59),
    )
}

/// Joining one more piece on.
pub(crate) proof fn lemma_joined_push(pieces: Seq<Seq<u8>>, sep: u8, x: Seq<u8>)
    requires
        pieces.len() > 0,
    ensures
        joined_by(pieces.push(x), sep) == joined_by(pieces, sep) + seq![sep] + x,
    decreases pieces.len(),
{
    assert(pieces.push(x)[0] == pieces[0]);
    if pieces.len() == 1 {
        assert(pieces.push(x).drop_first() =~= seq![x]);
        assert(joined_by(seq![x], sep) == x);
        assert(joined_by(pieces, sep) == pieces[0]);
    } else {
        assert(pieces.push(x).drop_first() =~= pieces.drop_first().push(x));
        lemma_joined_push(pieces.drop_first(), sep, x);
        assert(pieces[0] + seq![sep] + (joined_by(pieces.drop_first(), sep) + seq![sep] + x) =~= pieces[0] + seq![
            sep,
        ] + joined_by(pieces.drop_first(), sep) + seq![sep] + x);
    }
}

/// Valid text joined by an ASCII separator stays valid.
pub(crate) proof fn lemma_joined_valid(pieces: Seq<Seq<u8>>, sep: u8)
    requires
        sep < 128,
        forall|i: int| 0 <= i < pieces.len() ==> valid_utf8(#[trigger] pieces[i]),
    ensures
        valid_utf8(joined_by(pieces, sep)),
    decreases pieces.len(),
{
    if pieces.len() == 0 {
        lemma_ascii_valid(Seq::<u8>::empty());
    } else if pieces.len() > 1 {
        lemma_joined_valid(pieces.drop_first(), sep);
        lemma_ascii_valid(seq![sep]);
        assert(valid_utf8(pieces[0]));
        lemma_valid_concat(pieces[0], seq![sep]);
        lemma_valid_concat(pieces[0] + seq![sep], joined_by(pieces.drop_first(), sep));
    } else {
        assert(valid_utf8(pieces[0]));
    }
}

/// Write `pieces`, joined by `sep`, on the end of `out`.
fn push_joined_strings(out: &mut Vec<u8>, pieces: &Vec<String>, sep: u8)
    ensures
        final(out)@ == old(out)@ + joined_by(bytes_of(pieces@), sep),
{
    let ghost start = out@;
    let mut i: usize = 0;
    proof {
        assert(start + joined_by(bytes_of(pieces@).take(0), sep) =~= start);
    }
    while i < pieces.len()
        invariant
            0 <= i <= pieces@.len(),
            out@ == start + joined_by(bytes_of(pieces@).take(i as int), sep),
        decreases pieces@.len() - i,
    {
        let ghost before = out@;
        let ghost all = bytes_of(pieces@);
        if i > 0 {
            out.push(sep);
        }
        let b = pieces[i].as_str().as_bytes();
        let mut j: usize = 0;
        let ghost mid = out@;
        while j < b.len()
            invariant
                0 <= j <= b@.len(),
                out@ == mid + b@.take(j as int),
            decreases b@.len() - j,
        {
            out.push(b[j]);
            proof {
                assert(b@.take(j + 1) =~= b@.take(j as int).push(b@[j as int]));
            }
            j += 1;
        }
        proof {
            assert(b@.take(b@.len() as int) =~= b@);
            assert(b@ == all[i as int]);
            assert(all.take(i + 1) =~= all.take(i as int).push(all[i as int]));
            if i == 0 {
                assert(all.take(1) =~= seq![all[0]]);
                assert(out@ =~= start + joined_by(all.take(1), sep));
            } else {
                lemma_joined_push(all.take(i as int), sep, all[i as int]);
                assert(out@ =~= start + joined_by(all.take(i + 1), sep));
            }
        }
        i += 1;
    }
    proof {
        assert(bytes_of(pieces@).take(pieces@.len() as int) =~= bytes_of(pieces@));
    }
}

/// Write `bytes` on the end of `out`.
pub(crate) fn push_bytes(out: &mut Vec<u8>, bytes: &[u8])
    ensures
        final(out)@ == old(out)@ + bytes@,
{
    let ghost start = out@;
    let mut j: usize = 0;
    while j < bytes.len()
        invariant
            0 <= j <= bytes@.len(),
            out@ == start + bytes@.take(j as int),
        decreases bytes@.len() - j,
    {
        out.push(bytes[j]);
        proof {
            assert(bytes@.take(j + 1) =~= bytes@.take(j as int).push(bytes@[j as int]));
        }
        j += 1;
    }
    proof {
        assert(bytes@.take(bytes@.len() as int) =~= bytes@);
    }
}

/// Write a path's tiles, joined by points, on the end of `out`.
fn push_path(out: &mut Vec<u8>, path: &Vec<Position>)
    requires
        forall|i: int| 0 <= i < path@.len() ==> (#[trigger] path@[i]).row * 4 + path@[i].col <= usize::MAX,
    ensures
        final(out)@ == old(out)@ + joined_by(path@.map_values(|p: Position| slot_text(p)), 46),
{
    let ghost start = out@;
    let ghost all = path@.map_values(|p: Position| slot_text(p));
    let mut i: usize = 0;
    proof {
        assert(start + joined_by(all.take(0), 46) =~= start);
    }
    while i < path.len()
        invariant
            forall|i: int| 0 <= i < path@.len() ==> (#[trigger] path@[i]).row * 4 + path@[i].col <= usize::MAX,
            all == path@.map_values(|p: Position| slot_text(p)),
            0 <= i <= path@.len(),
            out@ == start + joined_by(all.take(i as int), 46),
        decreases path@.len() - i,
    {
        if i > 0 {
            out.push(46);
        }
        let p = path[i];
        proof {
            assert(path@[i as int].row * 4 + path@[i as int].col <= usize::MAX);
        }
        push_decimal(out, (p.row * 4 + p.col) as u64);
        proof {
            assert(all[i as int] == slot_text(p));
            assert(all.take(i + 1) =~= all.take(i as int).push(all[i as int]));
            if i == 0 {
                assert(all.take(1) =~= seq![all[0]]);
                assert(out@ =~= start + joined_by(all.take(1), 46));
            } else {
                lemma_joined_push(all.take(i as int), 46, all[i as int]);
                assert(out@ =~= start + joined_by(all.take(i + 1), 46));
            }
        }
        i += 1;
    }
    proof {
        assert(all.take(path@.len() as int) =~= all);
    }
}

/// Write milliseconds as seconds on the end of `out`.
fn push_seconds(out: &mut Vec<u8>, ms: u32)
    ensures
        final(out)@ == old(out)@ + seconds_text(ms as nat),
{
    push_decimal(out, (ms / 1000) as u64);
    let f = ms % 1000;
    if f != 0 {
        out.push(46);
        out.push((48 + f / 100) as u8);
        if f % 10 != 0 {
            out.push((48 + (f / 10) % 10) as u8);
            out.push((48 + f % 10) as u8);
        } else if (f / 10) % 10 != 0 {
            out.push((48 + (f / 10) % 10) as u8);
        }
    }
    proof {
        assert(final(out)@ =~= old(out)@ + seconds_text(ms as nat));
    }
}


/// Decimal digits are ASCII.
pub(crate) proof fn lemma_digits_ascii(n: nat)
    ensures
        valid_utf8(decimal_digits(n)),
        forall|i: int| 0 <= i < decimal_digits(n).len() ==> #[trigger] decimal_digits(n)[i] < 128,
{
    crate::text::lemma_decimal_parses(n, n);
    assert forall|i: int| 0 <= i < decimal_digits(n).len() implies #[trigger] decimal_digits(n)[i] < 128 by {
        assert(crate::text::is_digit(decimal_digits(n)[i]));
    }
    lemma_ascii_valid(decimal_digits(n));
}

proof fn lemma_entry_valid(word: Seq<u8>, path: Seq<Position>)
    requires
        valid_utf8(word),
    ensures
        valid_utf8(entry_text(word, path)),
{
    let slots = path.map_values(|p: Position| slot_text(p));
    assert forall|i: int| 0 <= i < slots.len() implies valid_utf8(#[trigger] slots[i]) by {
        lemma_digits_ascii((path[i].row * 4 + path[i].col) as nat);
    }
    lemma_joined_valid(slots, 46);
    lemma_ascii_valid(seq![58u8]);
    lemma_valid_concat(word, seq![58u8]);
    lemma_valid_concat(word + seq![58u8], joined_by(slots, 46));
}

proof fn lemma_line_valid(key: Seq<u8>, value: Seq<u8>)
    requires
        forall|i: int| 0 <= i < key.len() ==> #[trigger] key[i] < 128,
        valid_utf8(value),
    ensures
        valid_utf8(key_line(key, value)),
{
    assert forall|i: int| 0 <= i < (key + seq![61u8]).len() implies #[trigger] (key + seq![61u8])[i] < 128 by {
        if i < key.len() {
            assert((key + seq![61u8])[i] == key[i]);
        }
    }
    lemma_ascii_valid(key + seq![61u8]);
    lemma_ascii_valid(seq![10u8]);
    lemma_valid_concat(key + seq![61u8], value);
    lemma_valid_concat(key + seq![61u8] + value, seq![10u8]);
}

/// A round's save is text.
proof fn lemma_saved_valid(s: SavedRound)
    ensures
        valid_utf8(saved_text(s)),
{
    let r = match s.round {
        Some(r) => decimal_digits(r as nat),
        None => solo_word(),
    };
    match s.round {
        Some(n) => lemma_digits_ascii(n as nat),
        None => lemma_ascii_valid(solo_word()),
    }
    lemma_line_valid(round_key(), r);
    let g = bytes_of(s.grid@);
    assert forall|i: int| 0 <= i < g.len() implies valid_utf8(#[trigger] g[i]) by {
        vstd::utf8::encode_utf8_valid_utf8(s.grid@[i]@);
    }
    lemma_joined_valid(g, 44);
    lemma_line_valid(grid_key(), joined_by(g, 44));
    let t = match s.theme {
        Some(t) => string_bytes(t),
        None => Seq::empty(),
    };
    match s.theme {
        Some(x) => vstd::utf8::encode_utf8_valid_utf8(x@),
        None => lemma_ascii_valid(Seq::<u8>::empty()),
    }
    lemma_line_valid(theme_key(), t);
    let secs = s.time_left as nat;
    lemma_digits_ascii(secs / 1000);
    if secs % 1000 != 0 {
        let f = secs % 1000;
        lemma_ascii_valid(seq![46u8] + fraction_digits(f));
        lemma_valid_concat(decimal_digits(secs / 1000), seq![46u8] + fraction_digits(f));
    } else {
        assert(seconds_text(secs) =~= decimal_digits(secs / 1000));
    }
    lemma_line_valid(time_key(), seconds_text(secs));
    let e = entries_text(s.found@);
    assert forall|i: int| 0 <= i < e.len() implies valid_utf8(#[trigger] e[i]) by {
        vstd::utf8::encode_utf8_valid_utf8(s.found@[i].0@);
        lemma_entry_valid(string_bytes(s.found@[i].0), s.found@[i].1@);
    }
    lemma_joined_valid(e, 59);
    lemma_line_valid(found_key(), joined_by(e, 59));
    let l1 = key_line(round_key(), r);
    let l2 = key_line(grid_key(), joined_by(g, 44));
    let l3 = key_line(theme_key(), t);
    let l4 = key_line(time_key(), seconds_text(secs));
    let l5 = key_line(found_key(), joined_by(e, 59));
    lemma_valid_concat(l1, l2);
    lemma_valid_concat(l1 + l2, l3);
    lemma_valid_concat(l1 + l2 + l3, l4);
    lemma_valid_concat(l1 + l2 + l3 + l4, l5);
}

/// Write a key and its `=` on the end of `out`.
fn push_key(out: &mut Vec<u8>, key: &[u8])
    ensures
        final(out)@ == old(out)@ + key@ + seq![61u8],
{
    push_bytes(out, key);
    out.push(61);
}

impl SavedRound {
    /// The text the round is saved as.
    #[verifier::spinoff_prover]
    #[verifier::rlimit(60)]
    pub fn to_text(&self) -> (text: String)
        requires
            forall|i: int, j: int|
                0 <= i < self.found@.len() && 0 <= j < self.found@[i].1@.len() ==> (#[trigger] self.found@[i].1@[j]).row
                    * 4 + self.found@[i].1@[j].col <= usize::MAX,
        ensures
            string_bytes(text) == saved_text(*self),
    {
        let mut out: Vec<u8> = Vec::new();
        let round_name: [u8; 5] = [114, 111, 117, 110, 100];
        let grid_name: [u8; 4] = [103, 114, 105, 100];
        let theme_name: [u8; 5] = [116, 104, 101, 109, 101];
        let time_name: [u8; 9] = [116, 105, 109, 101, 95, 108, 101, 102, 116];
        let found_name: [u8; 5] = [102, 111, 117, 110, 100];
        let solo: [u8; 4] = [115, 111, 108, 111];
        proof {
            assert(round_name@ =~= round_key());
            assert(grid_name@ =~= grid_key());
            assert(theme_name@ =~= theme_key());
            assert(time_name@ =~= time_key());
            assert(found_name@ =~= found_key());
            assert(solo@ =~= solo_word());
        }
        push_key(&mut out, round_name.as_slice());
        match self.round {
            Some(r) => push_decimal(&mut out, r),
            None => push_bytes(&mut out, solo.as_slice()),
        }
        out.push(10);
        let ghost after_round = out@;
        push_key(&mut out, grid_name.as_slice());
        push_joined_strings(&mut out, &self.grid, 44);
        out.push(10);
        let ghost after_grid = out@;
        push_key(&mut out, theme_name.as_slice());
        match &self.theme {
            Some(t) => push_bytes(&mut out, t.as_str().as_bytes()),
            None => {},
        }
        out.push(10);
        let ghost after_theme = out@;
        push_key(&mut out, time_name.as_slice());
        push_seconds(&mut out, self.time_left);
        out.push(10);
        let ghost after_time = out@;
        push_key(&mut out, found_name.as_slice());
        let ghost start = out@;
        let ghost all = entries_text(self.found@);
        let mut i: usize = 0;
        proof {
            assert(start + joined_by(all.take(0), 59) =~= start);
        }
        while i < self.found.len()
            invariant
                forall|i: int, j: int|
                    0 <= i < self.found@.len() && 0 <= j < self.found@[i].1@.len() ==> (#[trigger] self.found@[i].1@[j]).row
                        * 4 + self.found@[i].1@[j].col <= usize::MAX,
                all == entries_text(self.found@),
                0 <= i <= self.found@.len(),
                out@ == start + joined_by(all.take(i as int), 59),
            decreases self.found@.len() - i,
        {
            let ghost before = out@;
            if i > 0 {
                out.push(59);
            }
            let e = &self.found[i];
            push_bytes(&mut out, e.0.as_str().as_bytes());
            out.push(58);
            proof {
                assert forall|j: int| 0 <= j < e.1@.len() implies (#[trigger] e.1@[j]).row * 4 + e.1@[j].col
                    <= usize::MAX by {
                    assert(self.found@[i as int].1@[j] == e.1@[j]);
                }
            }
            push_path(&mut out, &e.1);
            proof {
                assert(all[i as int] == entry_text(string_bytes(e.0), e.1@));
                assert(all.take(i + 1) =~= all.take(i as int).push(all[i as int]));
                if i == 0 {
                    assert(all.take(1) =~= seq![all[0]]);
                    assert(out@ =~= start + joined_by(all.take(1), 59));
                } else {
                    lemma_joined_push(all.take(i as int), 59, all[i as int]);
                    assert(out@ =~= start + joined_by(all.take(i + 1), 59));
                }
            }
            i += 1;
        }
        out.push(10);
        proof {
            assert(all.take(self.found@.len() as int) =~= all);
            assert(out@ =~= saved_text(*self));
            lemma_saved_valid(*self);
        }
        lossy_text(out.as_slice())
    }
}


/// The milliseconds the first three digits of a fraction of a second stand
/// for; digits past the third are dropped.
pub open spec fn milli(frac: Seq<u8>) -> nat {
    let d0 = if frac.len() > 0 { (frac[0] - 48) as nat } else { 0 };
    let d1 = if frac.len() > 1 { (frac[1] - 48) as nat } else { 0 };
    let d2 = if frac.len() > 2 { (frac[2] - 48) as nat } else { 0 };
    d0 * 100 + d1 * 10 + d2
}

/// Seconds in decimal, read to the millisecond: an optional `+`, the whole
/// seconds, and after a point the fraction, with a digit somewhere; nothing
/// when the text is anything else or the time does not fit.
pub open spec fn seconds_value(v: Seq<u8>) -> Option<u32> {
    let d = number_digits(v);
    let dot = next_byte(d, 46, 0);
    let whole = d.take(dot);
    let frac = if dot < d.len() {
        d.skip(dot + 1)
    } else {
        Seq::<u8>::empty()
    };
    if all_digits(whole) && all_digits(frac) && (whole.len() > 0 || frac.len() > 0) && digits_value(whole) * 1000
        + milli(frac) <= u32::MAX {
        Some((digits_value(whole) * 1000 + milli(frac)) as u32)
    } else {
        None
    }
}

/// A path as the save writes it: tile indices; nothing when one does not read.
pub open spec fn path_in(pieces: Seq<Seq<u8>>) -> Option<Seq<Position>>
    decreases pieces.len(),
{
    if pieces.len() == 0 {
        Some(Seq::empty())
    } else {
        match parse_number(pieces[0], usize::MAX as nat) {
            Some(i) => match path_in(pieces.drop_first()) {
                Some(rest) => Some(seq![Position { row: (i / 4) as usize, col: (i % 4) as usize }] + rest),
                None => None,
            },
            None => None,
        }
    }
}

/// One saved word: `word:i.j.k`, or nothing when it does not read.
pub open spec fn entry_in(piece: Seq<u8>) -> Option<(Seq<u8>, Seq<Position>)> {
    let c = next_byte(piece, 58, 0);
    if c >= piece.len() {
        None
    } else {
        match path_in(split_on(piece.skip(c + 1), 46, 0)) {
            Some(p) => Some((piece.take(c), p)),
            None => None,
        }
    }
}

/// The saved words that read, in order; empty pieces are skipped.
pub open spec fn entries_in(pieces: Seq<Seq<u8>>) -> Seq<(Seq<u8>, Seq<Position>)>
    decreases pieces.len(),
{
    if pieces.len() == 0 {
        Seq::empty()
    } else {
        (if pieces[0].len() == 0 {
            Seq::empty()
        } else {
            match entry_in(pieces[0]) {
                Some(e) => seq![e],
                None => Seq::empty(),
            }
        }) + entries_in(pieces.drop_first())
    }
}

/// What a save's lines have said so far: whether a round line was read, whether
/// one failed to read, then the round, the tiles, the theme, the clock and the
/// words with their paths.
pub type SaveState = (bool, bool, Option<u64>, Seq<Seq<u8>>, Option<Seq<u8>>, u32, Seq<(Seq<u8>, Seq<Position>)>);

/// What one line of a save does. `key=value` lines set their field; a round
/// that does not read spoils the whole save; any other line changes nothing.
pub open spec fn save_step(st: SaveState, line: Seq<u8>) -> SaveState {
    let eq = next_byte(line, 61, 0);
    if st.1 || eq >= line.len() {
        st
    } else {
        let key = line.take(eq);
        let v = line.skip(eq + 1);
        if key == round_key() {
            if v == solo_word() {
                (true, false, None, st.3, st.4, st.5, st.6)
            } else {
                match parse_number(v, u64::MAX as nat) {
                    Some(n) => (true, false, Some(n as u64), st.3, st.4, st.5, st.6),
                    None => (st.0, true, st.2, st.3, st.4, st.5, st.6),
                }
            }
        } else if key == grid_key() {
            (st.0, st.1, st.2, split_on(v, 44, 0), st.4, st.5, st.6)
        } else if key == theme_key() {
            (st.0, st.1, st.2, st.3, if v.len() == 0 { None } else { Some(v) }, st.5, st.6)
        } else if key == time_key() {
            (st.0, st.1, st.2, st.3, st.4, match seconds_value(v) {
                Some(ms) => ms,
                None => 0,
            }, st.6)
        } else if key == found_key() {
            (st.0, st.1, st.2, st.3, st.4, st.5, entries_in(split_on(v, 59, 0)))
        } else {
            st
        }
    }
}

pub open spec fn save_after(st: SaveState, lines: Seq<Seq<u8>>) -> SaveState
    decreases lines.len(),
{
    if lines.len() == 0 {
        st
    } else {
        save_after(save_step(st, lines[0]), lines.drop_first())
    }
}

/// What a save's text says, line by line.
pub open spec fn save_in(t: Seq<u8>) -> SaveState {
    save_after((false, false, None, Seq::empty(), None, 0, Seq::empty()), text_lines(t, 0))
}

/// The view of a saved word and path.
pub open spec fn entry_of(e: (String, Vec<Position>)) -> (Seq<u8>, Seq<Position>) {
    (string_bytes(e.0), e.1@)
}

pub open spec fn theme_of(t: Option<String>) -> Option<Seq<u8>> {
    match t {
        Some(x) => Some(string_bytes(x)),
        None => None,
    }
}

/// `s` holds what the state read says.
pub open spec fn holds_state(s: SavedRound, st: SaveState) -> bool {
    &&& s.round == st.2
    &&& bytes_of(s.grid@) == st.3
    &&& theme_of(s.theme) == st.4
    &&& s.time_left == st.5
    &&& s.found@.map_values(|e: (String, Vec<Position>)| entry_of(e)) == st.6
}

/// A spoilt read stays spoilt.
proof fn lemma_spoilt(st: SaveState, lines: Seq<Seq<u8>>)
    requires
        st.1,
    ensures
        save_after(st, lines) == st,
    decreases lines.len(),
{
    if lines.len() > 0 {
        lemma_spoilt(st, lines.drop_first());
    }
}


/// One step through the pieces of `t[lo..hi]` split at `sep`: the piece that
/// starts at `p` ends where the next separator is, or at `hi`.
proof fn lemma_split_step(t: Seq<u8>, sep: u8, lo: int, hi: int, p: int)
    requires
        0 <= lo <= p <= hi <= t.len(),
    ensures
        ({
            let v = t.subrange(lo, hi);
            let e = next_byte(t.subrange(0, hi), sep, p);
            &&& e == lo + next_byte(v, sep, p - lo)
            &&& p <= e <= hi
            &&& e < hi ==> t[e] == sep
            &&& forall|k: int| p <= k < e ==> t[k] != sep
            &&& split_on(v, sep, p - lo) == seq![t.subrange(p, e)] + if e < hi {
                split_on(v, sep, e + 1 - lo)
            } else {
                Seq::<Seq<u8>>::empty()
            }
        }),
{
    let v = t.subrange(lo, hi);
    crate::text::lemma_next_byte_shift(t, sep, lo, p, hi);
    crate::text::lemma_next_byte(v, sep, p - lo);
    let e = next_byte(t.subrange(0, hi), sep, p);
    assert(v.subrange(p - lo, e - lo) =~= t.subrange(p, e));
    if e < hi {
        assert(split_on(v, sep, p - lo) =~= seq![t.subrange(p, e)] + split_on(v, sep, e + 1 - lo));
    } else {
        assert(split_on(v, sep, p - lo) =~= seq![t.subrange(p, e)]);
    }
    assert forall|k: int| p <= k < e implies t[k] != sep by {
        assert(v[k - lo] == t[k]);
    }
}

/// `t[a..b]` as digits, when they all are digits and spell no more than `max`.
fn digits_between(t: &[u8], a: usize, b: usize, max: u64) -> (n: Option<u64>)
    requires
        a <= b <= t@.len(),
    ensures
        match n {
            Some(v) => all_digits(t@.subrange(a as int, b as int)) && digits_value(t@.subrange(a as int, b as int))
                == v && v <= max,
            None => !all_digits(t@.subrange(a as int, b as int)) || digits_value(t@.subrange(a as int, b as int))
                > max,
        },
{
    let ghost d = t@.subrange(a as int, b as int);
    let mut i = a;
    let mut value: u64 = 0;
    while i < b
        invariant
            a <= i <= b <= t@.len(),
            d == t@.subrange(a as int, b as int),
            forall|k: int| 0 <= k < i - a ==> crate::text::is_digit(#[trigger] d[k]),
            value == digits_value(d.take(i - a)),
            value <= max,
        decreases b - i,
    {
        let c = t[i];
        proof {
            assert(d[i - a] == c);
            assert(d.take(i - a + 1).drop_last() =~= d.take(i - a));
        }
        if c < 48 || c > 57 {
            proof {
                assert(!crate::text::is_digit(d[i - a]));
            }
            return None;
        }
        let digit = (c - 48) as u64;
        if digit > max || value > (max - digit) / 10 {
            proof {
                assert(digits_value(d.take(i - a + 1)) == value * 10 + digit);
                if digit <= max {
                    assert(value * 10 + digit > max) by (nonlinear_arith)
                        requires
                            value > (max - digit) / 10,
                            digit <= max,
                    ;
                }
                if all_digits(d) {
                    crate::text::lemma_digits_grow(d, i - a + 1);
                }
            }
            return None;
        }
        value = value * 10 + digit;
        i += 1;
    }
    proof {
        assert(d.take(d.len() as int) =~= d);
    }
    Some(value)
}

/// `t[lo..hi]` as seconds, in milliseconds.
fn parse_seconds(t: &[u8], lo: usize, hi: usize) -> (ms: Option<u32>)
    requires
        lo <= hi <= t@.len(),
    ensures
        ms == seconds_value(t@.subrange(lo as int, hi as int)),
{
    let ghost v = t@.subrange(lo as int, hi as int);
    let mut a = lo;
    if a < hi && t[a] == 43 {
        a = a + 1;
    }
    let ghost d = t@.subrange(a as int, hi as int);
    proof {
        if v.len() > 0 && v[0] == 43 {
            assert(d =~= v.skip(1));
        } else {
            assert(d =~= v);
        }
        assert(d == number_digits(v));
        crate::text::lemma_next_byte_shift(t@, 46, a as int, a as int, hi as int);
        crate::text::lemma_next_byte(d, 46, 0);
    }
    let dot = crate::text::find_byte(t, 46, a, hi);
    let ghost rel = dot - a;
    proof {
        assert(rel == next_byte(d, 46, 0));
        assert(d.take(rel) =~= t@.subrange(a as int, dot as int));
        if dot < hi {
            assert(d.skip(rel + 1) =~= t@.subrange(dot + 1, hi as int));
        }
    }
    let whole = match digits_between(t, a, dot, 4294967) {
        Some(w) => w,
        None => {
            proof {
                let whole = d.take(rel);
                if all_digits(whole) {
                    assert(digits_value(whole) * 1000 > u32::MAX);
                }
            }
            return None;
        },
    };
    let fs = if dot < hi { dot + 1 } else { hi };
    let ghost frac = t@.subrange(fs as int, hi as int);
    proof {
        if dot >= hi {
            assert(frac =~= Seq::<u8>::empty());
        }
        assert(rel < d.len() <==> dot < hi);
    }
    let mut m: u64 = 0;
    let mut k = fs;
    while k < hi
        invariant
            fs <= k <= hi <= t@.len(),
            frac == t@.subrange(fs as int, hi as int),
            v == t@.subrange(lo as int, hi as int),
            d == number_digits(v),
            rel == next_byte(d, 46, 0),
            frac == (if rel < d.len() {
                d.skip(rel + 1)
            } else {
                Seq::<u8>::empty()
            }),
            forall|j: int| 0 <= j < k - fs ==> crate::text::is_digit(#[trigger] frac[j]),
            m == milli(frac.take(k - fs)),
        decreases hi - k,
    {
        let c = t[k];
        proof {
            assert(frac[k - fs] == c);
        }
        if c < 48 || c > 57 {
            proof {
                assert(!crate::text::is_digit(frac[k - fs]));
                assert(!all_digits(frac));
            }
            return None;
        }
        let place = k - fs;
        if place < 3 {
            let weight: u64 = if place == 0 { 100 } else if place == 1 { 10 } else { 1 };
            m = m + weight * (c - 48) as u64;
        }
        proof {
            let f1 = frac.take(k - fs + 1);
            let f0 = frac.take(k - fs);
            assert(f1.len() == f0.len() + 1);
            assert(forall|j: int| 0 <= j < f0.len() ==> f1[j] == f0[j]);
        }
        k += 1;
    }
    proof {
        assert(frac.take(frac.len() as int) =~= frac);
    }
    if dot == a && fs == hi {
        return None;
    }
    let total = whole * 1000 + m;
    if total > u32::MAX as u64 {
        return None;
    }
    Some(total as u32)
}


/// The pieces of `text[lo..hi]` between the bytes `sep`, as strings.
fn split_strings(text: &str, lo: usize, hi: usize, sep: u8) -> (out: Vec<String>)
    requires
        lo <= hi <= text.spec_bytes().len(),
        sep < 128,
        is_char_boundary(text.spec_bytes(), lo as int),
        is_char_boundary(text.spec_bytes(), hi as int),
    ensures
        bytes_of(out@) == split_on(text.spec_bytes().subrange(lo as int, hi as int), sep, 0),
{
    let t = text.as_bytes();
    let ghost tb = t@;
    let ghost v = tb.subrange(lo as int, hi as int);
    proof {
        vstd::utf8::encode_utf8_valid_utf8(text@);
    }
    let mut out: Vec<String> = Vec::new();
    let mut p = lo;
    let mut more = true;
    proof {
        assert(bytes_of(out@) + split_on(v, sep, 0) =~= split_on(v, sep, 0));
    }
    while more
        invariant
            tb == t@,
            tb == text.spec_bytes(),
            valid_utf8(tb),
            v == tb.subrange(lo as int, hi as int),
            sep < 128,
            lo <= p <= hi <= tb.len(),
            is_char_boundary(tb, p as int),
            is_char_boundary(tb, hi as int),
            more ==> bytes_of(out@) + split_on(v, sep, p - lo) == split_on(v, sep, 0),
            !more ==> bytes_of(out@) == split_on(v, sep, 0),
        decreases (if more { hi + 1 - p } else { 0 }),
    {
        let ghost before = out@;
        let e = crate::text::find_byte(t, sep, p, hi);
        proof {
            lemma_split_step(tb, sep, lo as int, hi as int, p as int);
            if e < hi {
                crate::text::lemma_ascii_boundary(tb, e as int);
            }
        }
        let piece = crate::text::str_between(text, p, e);
        out.push(piece.to_owned());
        proof {
            assert(bytes_of(out@) =~= bytes_of(before).push(tb.subrange(p as int, e as int)));
        }
        if e < hi {
            proof {
                crate::text::lemma_ascii_boundary(tb, e + 1);
                assert(bytes_of(out@) + split_on(v, sep, e + 1 - lo) =~= bytes_of(before) + split_on(v, sep, p - lo));
            }
            p = e + 1;
        } else {
            proof {
                assert(bytes_of(out@) =~= bytes_of(before) + split_on(v, sep, p - lo));
            }
            more = false;
        }
    }
    out
}

/// A path read from `t[lo..hi]`: tile indices joined by points.
fn read_path(t: &[u8], lo: usize, hi: usize) -> (path: Option<Vec<Position>>)
    requires
        lo <= hi <= t@.len(),
    ensures
        match path {
            Some(p) => path_in(split_on(t@.subrange(lo as int, hi as int), 46, 0)) == Some(p@),
            None => path_in(split_on(t@.subrange(lo as int, hi as int), 46, 0)) is None,
        },
{
    let ghost v = t@.subrange(lo as int, hi as int);
    let ghost whole = path_in(split_on(v, 46, 0));
    let mut out: Vec<Position> = Vec::new();
    let mut p = lo;
    loop
        invariant
            v == t@.subrange(lo as int, hi as int),
            whole == path_in(split_on(v, 46, 0)),
            lo <= p <= hi <= t@.len(),
            whole == match path_in(split_on(v, 46, p - lo)) {
                Some(r) => Some(out@ + r),
                None => None::<Seq<Position>>,
            },
        decreases hi + 1 - p,
    {
        let ghost before = out@;
        let e = crate::text::find_byte(t, 46, p, hi);
        proof {
            lemma_split_step(t@, 46, lo as int, hi as int, p as int);
            let rest = if e < hi {
                split_on(v, 46, e + 1 - lo)
            } else {
                Seq::<Seq<u8>>::empty()
            };
            assert((seq![t@.subrange(p as int, e as int)] + rest).drop_first() =~= rest);
            assert((seq![t@.subrange(p as int, e as int)] + rest)[0] == t@.subrange(p as int, e as int));
        }
        match crate::text::parse_range(t, p, e, usize::MAX as u64) {
            Some(i) => {
                out.push(Position { row: (i / 4) as usize, col: (i % 4) as usize });
                if e < hi {
                    proof {
                        let x = Position { row: (i / 4) as usize, col: (i % 4) as usize };
                        match path_in(split_on(v, 46, e + 1 - lo)) {
                            Some(r) => {
                                assert(before + (seq![x] + r) =~= out@ + r);
                            },
                            None => {},
                        }
                    }
                    p = e + 1;
                } else {
                    proof {
                        assert(path_in(Seq::<Seq<u8>>::empty()) == Some(Seq::<Position>::empty()));
                        assert(before + (seq![Position { row: (i / 4) as usize, col: (i % 4) as usize }]
                            + Seq::<Position>::empty()) =~= out@);
                    }
                    return Some(out);
                }
            },
            None => {
                return None;
            },
        }
    }
}

/// The saved words of `text[lo..hi]`: `word:path` pieces joined by `;`.
fn read_entries(text: &str, lo: usize, hi: usize) -> (out: Vec<(String, Vec<Position>)>)
    requires
        lo <= hi <= text.spec_bytes().len(),
        is_char_boundary(text.spec_bytes(), lo as int),
        is_char_boundary(text.spec_bytes(), hi as int),
    ensures
        out@.map_values(|e: (String, Vec<Position>)| entry_of(e)) == entries_in(
            split_on(text.spec_bytes().subrange(lo as int, hi as int), 59, 0),
        ),
{
    let t = text.as_bytes();
    let ghost tb = t@;
    let ghost v = tb.subrange(lo as int, hi as int);
    let ghost whole = entries_in(split_on(v, 59, 0));
    proof {
        vstd::utf8::encode_utf8_valid_utf8(text@);
    }
    let mut out: Vec<(String, Vec<Position>)> = Vec::new();
    let mut p = lo;
    proof {
        assert(out@.map_values(|e: (String, Vec<Position>)| entry_of(e)) + whole =~= whole);
    }
    loop
        invariant
            tb == t@,
            tb == text.spec_bytes(),
            valid_utf8(tb),
            v == tb.subrange(lo as int, hi as int),
            whole == entries_in(split_on(v, 59, 0)),
            lo <= p <= hi <= tb.len(),
            is_char_boundary(tb, p as int),
            is_char_boundary(tb, hi as int),
            out@.map_values(|e: (String, Vec<Position>)| entry_of(e)) + entries_in(split_on(v, 59, p - lo)) == whole,
        decreases hi + 1 - p,
    {
        let ghost before = out@.map_values(|e: (String, Vec<Position>)| entry_of(e));
        let e = crate::text::find_byte(t, 59, p, hi);
        let ghost piece = tb.subrange(p as int, e as int);
        let ghost rest = if e < hi {
            split_on(v, 59, e + 1 - lo)
        } else {
            Seq::<Seq<u8>>::empty()
        };
        proof {
            lemma_split_step(tb, 59, lo as int, hi as int, p as int);
            assert((seq![piece] + rest).drop_first() =~= rest);
            assert((seq![piece] + rest)[0] == piece);
            if e < hi {
                crate::text::lemma_ascii_boundary(tb, e as int);
            }
        }
        let mut got: Option<(String, Vec<Position>)> = None;
        if p < e {
            let c = crate::text::find_byte(t, 58, p, e);
            proof {
                crate::text::lemma_next_byte_shift(tb, 58, p as int, p as int, e as int);
                crate::text::lemma_next_byte(piece, 58, 0);
            }
            if c < e {
                proof {
                    assert(piece.skip(c - p + 1) =~= tb.subrange(c + 1, e as int));
                    assert(piece.take(c - p) =~= tb.subrange(p as int, c as int));
                    assert(tb[c as int] == 58);
                    crate::text::lemma_ascii_boundary(tb, c as int);
                }
                match read_path(t, c + 1, e) {
                    Some(path) => {
                        let word = crate::text::str_between(text, p, c);
                        got = Some((word.to_owned(), path));
                    },
                    None => {},
                }
            }
        }
        match got {
            Some(entry) => {
                out.push(entry);
            },
            None => {},
        }
        proof {
            let now = out@.map_values(|e: (String, Vec<Position>)| entry_of(e));
            let first = if piece.len() == 0 {
                Seq::<(Seq<u8>, Seq<Position>)>::empty()
            } else {
                match entry_in(piece) {
                    Some(x) => seq![x],
                    None => Seq::empty(),
                }
            };
            assert(entries_in(seq![piece] + rest) == first + entries_in(rest));
            assert(now =~= before + first);
        }
        if e < hi {
            proof {
                crate::text::lemma_ascii_boundary(tb, e + 1);
            }
            p = e + 1;
        } else {
            proof {
                assert(entries_in(Seq::<Seq<u8>>::empty()) =~= Seq::<(Seq<u8>, Seq<Position>)>::empty());
                assert(out@.map_values(|e: (String, Vec<Position>)| entry_of(e)) =~= whole);
            }
            return out;
        }
    }
}


/// A save read so far.
struct Reading {
    has_round: bool,
    round: Option<u64>,
    grid: Vec<String>,
    theme: Option<String>,
    time_left: u32,
    found: Vec<(String, Vec<Position>)>,
}

spec fn reading_state(r: Reading) -> SaveState {
    (
        r.has_round,
        false,
        r.round,
        bytes_of(r.grid@),
        theme_of(r.theme),
        r.time_left,
        r.found@.map_values(|e: (String, Vec<Position>)| entry_of(e)),
    )
}

/// Take in one line of a save, `text[start..end]`. False when the line spoils
/// the save.
fn read_save_line(text: &str, start: usize, end: usize, r: &mut Reading) -> (ok: bool)
    requires
        start <= end <= text.spec_bytes().len(),
        start == 0 || text.spec_bytes()[start - 1] == 10,
        end == text.spec_bytes().len() || text.spec_bytes()[end as int] == 10 || text.spec_bytes()[end as int]
            == 13,
    ensures
        ({
            let st = save_step(reading_state(*old(r)), text.spec_bytes().subrange(start as int, end as int));
            &&& ok == !st.1
            &&& ok ==> reading_state(*final(r)) == st
        }),
{
    let t = text.as_bytes();
    let ghost tb = t@;
    let ghost line = tb.subrange(start as int, end as int);
    proof {
        vstd::utf8::encode_utf8_valid_utf8(text@);
    }
    let eq = crate::text::find_byte(t, 61, start, end);
    proof {
        crate::text::lemma_next_byte_shift(tb, 61, start as int, start as int, end as int);
        crate::text::lemma_next_byte(line, 61, 0);
    }
    if eq >= end {
        return true;
    }
    let key = vstd::slice::slice_subrange(t, start, eq);
    let ghost value = line.skip(eq - start + 1);
    proof {
        assert(key@ =~= line.take(eq - start));
        assert(tb.subrange(eq + 1, end as int) =~= value);
        assert(tb[eq as int] == 61);
        crate::text::lemma_ascii_boundary(tb, eq + 1);
        crate::text::lemma_ascii_boundary(tb, end as int);
    }
    let round_name: [u8; 5] = [114, 111, 117, 110, 100];
    let grid_name: [u8; 4] = [103, 114, 105, 100];
    let theme_name: [u8; 5] = [116, 104, 101, 109, 101];
    let time_name: [u8; 9] = [116, 105, 109, 101, 95, 108, 101, 102, 116];
    let found_name: [u8; 5] = [102, 111, 117, 110, 100];
    let solo: [u8; 4] = [115, 111, 108, 111];
    proof {
        assert(round_name@ =~= round_key());
        assert(grid_name@ =~= grid_key());
        assert(theme_name@ =~= theme_key());
        assert(time_name@ =~= time_key());
        assert(found_name@ =~= found_key());
        assert(solo@ =~= solo_word());
    }
    if crate::themes::same_bytes(key, round_name.as_slice()) {
        let v = vstd::slice::slice_subrange(t, eq + 1, end);
        if crate::themes::same_bytes(v, solo.as_slice()) {
            r.has_round = true;
            r.round = None;
        } else {
            match crate::text::parse_range(t, eq + 1, end, u64::MAX) {
                Some(n) => {
                    r.has_round = true;
                    r.round = Some(n);
                },
                None => {
                    return false;
                },
            }
        }
    } else if crate::themes::same_bytes(key, grid_name.as_slice()) {
        r.grid = split_strings(text, eq + 1, end, 44);
    } else if crate::themes::same_bytes(key, theme_name.as_slice()) {
        if eq + 1 == end {
            r.theme = None;
        } else {
            let v = crate::text::str_between(text, eq + 1, end);
            r.theme = Some(v.to_owned());
        }
    } else if crate::themes::same_bytes(key, time_name.as_slice()) {
        r.time_left = match parse_seconds(t, eq + 1, end) {
            Some(ms) => ms,
            None => 0,
        };
    } else if crate::themes::same_bytes(key, found_name.as_slice()) {
        r.found = read_entries(text, eq + 1, end);
    }
    true
}

impl SavedRound {
    /// Read a saved round: nothing for an empty or damaged save, which is one
    /// without a round line, with one that does not read, or without sixteen
    /// tiles.
    pub fn from_text(text: &str) -> (saved: Option<SavedRound>)
        ensures
            ({
                let st = save_in(text.spec_bytes());
                match saved {
                    Some(s) => !st.1 && st.0 && st.3.len() == 16 && holds_state(s, st),
                    None => st.1 || !st.0 || st.3.len() != 16,
                }
            }),
    {
        let t = text.as_bytes();
        let ghost tb = t@;
        let len = t.len();
        let mut r = Reading {
            has_round: false,
            round: None,
            grid: Vec::new(),
            theme: None,
            time_left: 0,
            found: Vec::new(),
        };
        let ghost init: SaveState = (false, false, None, Seq::empty(), None, 0, Seq::empty());
        proof {
            assert(reading_state(r) =~~= init);
        }
        if len > 0 {
            let mut start: usize = 0;
            let mut more = true;
            while more
                invariant
                    tb == t@,
                    tb == text.spec_bytes(),
                    len == tb.len(),
                    len > 0,
                    0 <= start < len,
                    start == 0 || tb[start - 1] == 10,
                    more ==> save_after(reading_state(r), text_lines(tb, start as int)) == save_in(tb),
                    !more ==> reading_state(r) == save_in(tb),
                decreases (if more { len + 1 - start } else { 0 }),
            {
                let ghost before = reading_state(r);
                let end = crate::text::find_byte(t, 10, start, len);
                proof {
                    assert(tb.subrange(0, len as int) =~= tb);
                    crate::text::lemma_next_byte(tb, 10, start as int);
                }
                let content_end = if end < len && end > start && t[end - 1] == 13 { end - 1 } else { end };
                let ghost line = tb.subrange(start as int, content_end as int);
                proof {
                    assert(text_lines(tb, start as int)[0] == line);
                    assert(text_lines(tb, start as int).drop_first() =~= text_lines(tb, end + 1));
                    assert(save_after(before, text_lines(tb, start as int)) == save_after(
                        save_step(before, line),
                        text_lines(tb, end + 1),
                    ));
                }
                if !read_save_line(text, start, content_end, &mut r) {
                    proof {
                        lemma_spoilt(save_step(before, line), text_lines(tb, end + 1));
                    }
                    return None;
                }
                if end < len - 1 {
                    start = end + 1;
                } else {
                    proof {
                        assert(text_lines(tb, end + 1) =~= Seq::<Seq<u8>>::empty());
                    }
                    more = false;
                }
            }
        } else {
            proof {
                assert(text_lines(tb, 0) =~= Seq::<Seq<u8>>::empty());
            }
        }
        if !r.has_round || r.grid.len() != 16 {
            return None;
        }
        Some(SavedRound { round: r.round, grid: r.grid, theme: r.theme, time_left: r.time_left, found: r.found })
    }
}


/// `s` holds no byte `b`.
pub open spec fn avoids(s: Seq<u8>, b: u8) -> bool {
    forall|i: int| 0 <= i < s.len() ==> #[trigger] s[i] != b
}

/// `s` is empty or does not end in `b`.
pub open spec fn ends_without(s: Seq<u8>, b: u8) -> bool {
    s.len() == 0 || s.last() != b
}

/// A round whose save reads back as itself: some tiles, none holding a comma
/// or a line feed, the last not ending in a carriage return; a theme, if any,
/// that is not empty, holds no line feed and does not end in a carriage
/// return; and words that hold no `;`, `:` or line feed, each with a path of at
/// least one tile, every tile in one of the four columns. A carriage return
/// anywhere else reads back as it was: only one just before a line feed is
/// taken for part of the line break.
pub open spec fn plain_save(s: SavedRound) -> bool {
    &&& s.grid@.len() > 0
    &&& forall|i: int|
        0 <= i < s.grid@.len() ==> avoids(string_bytes(#[trigger] s.grid@[i]), 44) && avoids(
            string_bytes(s.grid@[i]),
            10,
        )
    &&& ends_without(string_bytes(s.grid@.last()), 13)
    &&& (s.theme matches Some(t) ==> string_bytes(t).len() > 0 && avoids(string_bytes(t), 10) && ends_without(
        string_bytes(t),
        13,
    ))
    &&& forall|i: int|
        0 <= i < s.found@.len() ==> {
            let w = string_bytes((#[trigger] s.found@[i]).0);
            let p = s.found@[i].1@;
            &&& avoids(w, 59) && avoids(w, 58) && avoids(w, 10)
            &&& p.len() > 0
            &&& forall|j: int| 0 <= j < p.len() ==> (#[trigger] p[j]).col < 4 && p[j].row * 4 + p[j].col <= usize::MAX
        }
}

/// Pieces joined end as the last piece does, when it does not end in `b`.
proof fn lemma_joined_ends(pieces: Seq<Seq<u8>>, sep: u8, b: u8)
    requires
        sep != b,
        pieces.len() > 0,
        ends_without(pieces.last(), b),
    ensures
        ends_without(joined_by(pieces, sep), b),
    decreases pieces.len(),
{
    if pieces.len() > 1 {
        lemma_joined_ends(pieces.drop_first(), sep, b);
        let rest = joined_by(pieces.drop_first(), sep);
        let j = pieces[0] + seq![sep] + rest;
        if rest.len() > 0 {
            assert(j.last() == rest.last());
        } else {
            assert(j.last() == sep);
        }
    }
}

/// `a`, then `c`, then `rest` ends as `rest` does, or in `c`.
proof fn lemma_ends_after(a: Seq<u8>, c: u8, rest: Seq<u8>, b: u8)
    requires
        c != b,
        ends_without(rest, b),
    ensures
        ends_without(a + seq![c] + rest, b),
{
    let j = a + seq![c] + rest;
    if rest.len() > 0 {
        assert(j.last() == rest.last());
    } else {
        assert(j.last() == c);
    }
}

proof fn lemma_avoids_ends(s: Seq<u8>, b: u8)
    requires
        avoids(s, b),
    ensures
        ends_without(s, b),
{
    if s.len() > 0 {
        assert(s[s.len() - 1] != b);
    }
}

proof fn lemma_joined_avoids(pieces: Seq<Seq<u8>>, sep: u8, b: u8)
    requires
        sep != b,
        forall|i: int| 0 <= i < pieces.len() ==> avoids(#[trigger] pieces[i], b),
    ensures
        avoids(joined_by(pieces, sep), b),
    decreases pieces.len(),
{
    if pieces.len() > 1 {
        lemma_joined_avoids(pieces.drop_first(), sep, b);
        let j = pieces[0] + seq![sep] + joined_by(pieces.drop_first(), sep);
        assert(avoids(pieces[0], b));
        assert forall|i: int| 0 <= i < j.len() implies #[trigger] j[i] != b by {
            if i < pieces[0].len() {
                assert(j[i] == pieces[0][i]);
            } else if i > pieces[0].len() {
                assert(j[i] == joined_by(pieces.drop_first(), sep)[i - pieces[0].len() - 1]);
            }
        }
    } else if pieces.len() == 1 {
        assert(avoids(pieces[0], b));
    }
}

/// Pieces joined by a separator none of them holds split back into those
/// pieces.
proof fn lemma_split_joined(pieces: Seq<Seq<u8>>, sep: u8)
    requires
        pieces.len() > 0,
        forall|i: int| 0 <= i < pieces.len() ==> avoids(#[trigger] pieces[i], sep),
    ensures
        split_on(joined_by(pieces, sep), sep, 0) == pieces,
    decreases pieces.len(),
{
    assert(avoids(pieces[0], sep));
    if pieces.len() == 1 {
        crate::text::lemma_split_one(pieces[0], sep);
    } else {
        lemma_split_joined(pieces.drop_first(), sep);
        crate::text::lemma_split_cons(pieces[0], sep, joined_by(pieces.drop_first(), sep));
        assert(seq![pieces[0]] + pieces.drop_first() =~= pieces);
    }
}

proof fn lemma_digits_avoid(n: nat, b: u8)
    requires
        !(48 <= b <= 57),
    ensures
        avoids(decimal_digits(n), b),
        decimal_digits(n).len() > 0,
{
    crate::text::lemma_decimal_parses(n, n);
    assert forall|i: int| 0 <= i < decimal_digits(n).len() implies #[trigger] decimal_digits(n)[i] != b by {
        assert(crate::text::is_digit(decimal_digits(n)[i]));
    }
}

/// Milliseconds written as seconds read back as themselves.
pub proof fn lemma_seconds_round_trip(ms: u32)
    ensures
        seconds_value(seconds_text(ms as nat)) == Some(ms),
{
    let n = ms as nat;
    let d = decimal_digits(n / 1000);
    crate::text::lemma_decimal_parses(n / 1000, n / 1000);
    lemma_digits_avoid(n / 1000, 46);
    let f = n % 1000;
    let rest = if f == 0 {
        Seq::<u8>::empty()
    } else {
        seq![46u8] + fraction_digits(f)
    };
    let v = seconds_text(n);
    assert(v == d + rest);
    assert(v[0] == d[0]);
    assert(number_digits(v) == v);
    crate::text::lemma_next_byte_skip(d, rest, 46, 0);
    crate::text::lemma_next_byte(v, 46, 0);
    if f == 0 {
        assert(next_byte(rest, 46, 0) == 0);
        assert(next_byte(v, 46, 0) == d.len());
        assert(v.take(d.len() as int) =~= d);
        assert(milli(Seq::<u8>::empty()) == 0);
    } else {
        assert(rest[0] == 46);
        assert(next_byte(rest, 46, 0) == 0);
        assert(next_byte(v, 46, 0) == d.len());
        assert(v.take(d.len() as int) =~= d);
        let fr = fraction_digits(f);
        assert(v.skip(d.len() + 1int) =~= fr);
        assert(all_digits(fr));
        assert(milli(fr) == f);
    }
}

/// A path written as tile indices reads back as itself.
proof fn lemma_path_round_trip(path: Seq<Position>)
    requires
        forall|j: int| 0 <= j < path.len() ==> (#[trigger] path[j]).col < 4 && path[j].row * 4 + path[j].col <= usize::MAX,
    ensures
        path_in(path.map_values(|p: Position| slot_text(p))) == Some(path),
    decreases path.len(),
{
    let slots = path.map_values(|p: Position| slot_text(p));
    if path.len() > 0 {
        let p0 = path[0];
        assert(p0.col < 4 && p0.row * 4 + p0.col <= usize::MAX);
        let i = (p0.row * 4 + p0.col) as nat;
        crate::text::lemma_decimal_parses(i, usize::MAX as nat);
        assert(slots[0] == decimal_digits(i));
        assert(slots.drop_first() =~= path.drop_first().map_values(|p: Position| slot_text(p)));
        lemma_path_round_trip(path.drop_first());
        assert(Position { row: (i / 4) as usize, col: (i % 4) as usize } == p0);
        assert(seq![p0] + path.drop_first() =~= path);
    } else {
        assert(slots =~= Seq::<Seq<u8>>::empty());
    }
}

/// Saved words read back as themselves.
proof fn lemma_entries_round_trip(found: Seq<(String, Vec<Position>)>)
    requires
        forall|i: int|
            0 <= i < found.len() ==> {
                let w = string_bytes((#[trigger] found[i]).0);
                let p = found[i].1@;
                &&& avoids(w, 59) && avoids(w, 58)
                &&& p.len() > 0
                &&& forall|j: int| 0 <= j < p.len() ==> (#[trigger] p[j]).col < 4 && p[j].row * 4 + p[j].col <= usize::MAX
            },
    ensures
        entries_in(entries_text(found)) == found.map_values(|e: (String, Vec<Position>)| entry_of(e)),
    decreases found.len(),
{
    let pieces = entries_text(found);
    if found.len() > 0 {
        let w = string_bytes(found[0].0);
        let p = found[0].1@;
        let slots = p.map_values(|q: Position| slot_text(q));
        let j = joined_by(slots, 46);
        assert(pieces[0] == w + seq![58u8] + j);
        assert forall|k: int| 0 <= k < slots.len() implies avoids(#[trigger] slots[k], 46) by {
            lemma_digits_avoid((p[k].row * 4 + p[k].col) as nat, 46);
        }
        lemma_split_joined(slots, 46);
        lemma_path_round_trip(p);
        crate::text::lemma_next_byte_skip(w, seq![58u8] + j, 58, 0);
        assert(w + (seq![58u8] + j) =~= pieces[0]);
        assert((seq![58u8] + j)[0] == 58);
        assert(next_byte(seq![58u8] + j, 58, 0) == 0);
        assert(pieces[0].skip(w.len() + 1int) =~= j);
        assert(pieces[0].take(w.len() as int) =~= w);
        assert(entry_in(pieces[0]) == Some((w, p)));
        assert(pieces.drop_first() =~= entries_text(found.drop_first()));
        lemma_entries_round_trip(found.drop_first());
        assert(found.map_values(|e: (String, Vec<Position>)| entry_of(e)) =~= seq![entry_of(found[0])]
            + found.drop_first().map_values(|e: (String, Vec<Position>)| entry_of(e)));
    } else {
        assert(pieces =~= Seq::<Seq<u8>>::empty());
        assert(found.map_values(|e: (String, Vec<Position>)| entry_of(e)) =~= Seq::<(Seq<u8>, Seq<Position>)>::empty());
    }
}


/// The content of a `key=value` line.
pub open spec fn pair(key: Seq<u8>, value: Seq<u8>) -> Seq<u8> {
    key + seq![61u8] + value
}

/// One step over a `key=value` line whose key holds no `=`.
proof fn lemma_pair_step(key: Seq<u8>, value: Seq<u8>)
    requires
        avoids(key, 61),
    ensures
        next_byte(pair(key, value), 61, 0) == key.len(),
        pair(key, value).take(key.len() as int) == key,
        pair(key, value).skip(key.len() + 1int) == value,
{
    crate::text::lemma_next_byte_skip(key, seq![61u8] + value, 61, 0);
    assert(key + (seq![61u8] + value) =~= pair(key, value));
    assert((seq![61u8] + value)[0] == 61);
    assert(next_byte(seq![61u8] + value, 61, 0) == 0);
    assert(pair(key, value).take(key.len() as int) =~= key);
    assert(pair(key, value).skip(key.len() + 1int) =~= value);
}

proof fn lemma_line_avoids(key: Seq<u8>, value: Seq<u8>, b: u8)
    requires
        avoids(key, b),
        avoids(value, b),
        b != 61,
    ensures
        avoids(pair(key, value), b),
{
    let l = pair(key, value);
    assert forall|i: int| 0 <= i < l.len() implies #[trigger] l[i] != b by {
        if i < key.len() {
            assert(l[i] == key[i]);
        } else if i > key.len() {
            assert(l[i] == value[i - key.len() - 1]);
        }
    }
}

/// A text of whole lines, each ended by a line feed, holds those lines.
proof fn lemma_lines_of(line: Seq<u8>, rest: Seq<u8>)
    requires
        avoids(line, 10),
        ends_without(line, 13),
    ensures
        text_lines(line + seq![10u8] + rest, 0) == seq![line] + text_lines(rest, 0),
{
    crate::text::lemma_text_lines_cons(line, rest);
}

pub open spec fn round_value(s: SavedRound) -> Seq<u8> {
    match s.round {
        Some(r) => decimal_digits(r as nat),
        None => solo_word(),
    }
}

pub open spec fn theme_value(s: SavedRound) -> Seq<u8> {
    match s.theme {
        Some(t) => string_bytes(t),
        None => Seq::<u8>::empty(),
    }
}

/// The five lines of a round's save, without their line feeds.
pub open spec fn save_lines(s: SavedRound) -> Seq<Seq<u8>> {
    seq![
        pair(round_key(), round_value(s)),
        pair(grid_key(), joined_by(bytes_of(s.grid@), 44)),
        pair(theme_key(), theme_value(s)),
        pair(time_key(), seconds_text(s.time_left as nat)),
        pair(found_key(), joined_by(entries_text(s.found@), 59)),
    ]
}

/// No line of a plain round's save holds a line feed, nor ends in a carriage
/// return.
proof fn lemma_save_lines_plain(s: SavedRound)
    requires
        plain_save(s),
    ensures
        forall|i: int| 0 <= i < 5 ==> avoids(#[trigger] save_lines(s)[i], 10) && ends_without(save_lines(s)[i], 13),
{
    let rv = round_value(s);
    let g = bytes_of(s.grid@);
    let gv = joined_by(g, 44);
    let tv = theme_value(s);
    let sv = seconds_text(s.time_left as nat);
    let es = entries_text(s.found@);
    let fv = joined_by(es, 59);
    match s.round {
        Some(r) => {
            lemma_digits_avoid(r as nat, 10);
            lemma_digits_avoid(r as nat, 13);
            lemma_avoids_ends(rv, 13);
        },
        None => {
            assert(avoids(solo_word(), 13));
            lemma_avoids_ends(rv, 13);
        },
    }
    assert forall|i: int| 0 <= i < g.len() implies avoids(#[trigger] g[i], 10) by {
        assert(g[i] == string_bytes(s.grid@[i]));
    }
    lemma_joined_avoids(g, 44, 10);
    assert(g.last() == string_bytes(s.grid@.last()));
    lemma_joined_ends(g, 44, 13);
    lemma_digits_avoid((s.time_left as nat) / 1000, 10);
    lemma_digits_avoid((s.time_left as nat) / 1000, 13);
    assert(avoids(sv, 10) && avoids(sv, 13)) by {
        let d = decimal_digits((s.time_left as nat) / 1000);
        let f = (s.time_left as nat) % 1000;
        if f != 0 {
            let rest = seq![46u8] + fraction_digits(f);
            assert forall|i: int| 0 <= i < sv.len() implies #[trigger] sv[i] != 10 && sv[i] != 13 by {
                if i < d.len() {
                    assert(sv[i] == d[i]);
                } else {
                    assert(sv[i] == rest[i - d.len()]);
                }
            }
        } else {
            assert(sv =~= d);
        }
    }
    lemma_avoids_ends(sv, 13);
    assert forall|i: int| 0 <= i < es.len() implies avoids(#[trigger] es[i], 10) && ends_without(es[i], 13) by {
        lemma_entry_plain(s, i);
    }
    lemma_joined_avoids(es, 59, 10);
    if es.len() > 0 {
        lemma_joined_ends(es, 59, 13);
    }
    assert(avoids(round_key(), 10));
    assert(avoids(grid_key(), 10));
    assert(avoids(theme_key(), 10));
    assert(avoids(time_key(), 10));
    assert(avoids(found_key(), 10));
    lemma_line_avoids(round_key(), rv, 10);
    lemma_line_avoids(grid_key(), gv, 10);
    lemma_line_avoids(theme_key(), tv, 10);
    lemma_line_avoids(time_key(), sv, 10);
    lemma_line_avoids(found_key(), fv, 10);
    lemma_ends_after(round_key(), 61, rv, 13);
    lemma_ends_after(grid_key(), 61, gv, 13);
    lemma_ends_after(theme_key(), 61, tv, 13);
    lemma_ends_after(time_key(), 61, sv, 13);
    lemma_ends_after(found_key(), 61, fv, 13);
}

/// A saved word's text holds no line feed and no `;`, and ends in its path.
proof fn lemma_entry_plain(s: SavedRound, i: int)
    requires
        plain_save(s),
        0 <= i < s.found@.len(),
    ensures
        avoids(entries_text(s.found@)[i], 10),
        ends_without(entries_text(s.found@)[i], 13),
        avoids(entries_text(s.found@)[i], 59),
{
    let w = string_bytes(s.found@[i].0);
    let p = s.found@[i].1@;
    let slots = p.map_values(|q: Position| slot_text(q));
    assert forall|k: int| 0 <= k < slots.len() implies avoids(#[trigger] slots[k], 10) && avoids(slots[k], 13)
        && avoids(slots[k], 59) by {
        lemma_digits_avoid((p[k].row * 4 + p[k].col) as nat, 10);
        lemma_digits_avoid((p[k].row * 4 + p[k].col) as nat, 13);
        lemma_digits_avoid((p[k].row * 4 + p[k].col) as nat, 59);
    }
    lemma_joined_avoids(slots, 46, 10);
    lemma_joined_avoids(slots, 46, 13);
    lemma_joined_avoids(slots, 46, 59);
    let e = entries_text(s.found@)[i];
    let j = joined_by(slots, 46);
    assert(e == w + seq![58u8] + j);
    lemma_avoids_ends(j, 13);
    lemma_ends_after(w, 58, j, 13);
    assert forall|k: int| 0 <= k < e.len() implies #[trigger] e[k] != 10 && e[k] != 59 by {
        if k < w.len() {
            assert(e[k] == w[k]);
        } else if k > w.len() {
            assert(e[k] == j[k - w.len() - 1]);
        }
    }
}

/// A plain round's save is its five lines.
proof fn lemma_save_text_lines(s: SavedRound)
    requires
        plain_save(s),
    ensures
        text_lines(saved_text(s), 0) == save_lines(s),
{
    lemma_save_lines_plain(s);
    let ls = save_lines(s);
    assert(avoids(ls[0], 10) && ends_without(ls[0], 13));
    assert(avoids(ls[1], 10) && ends_without(ls[1], 13));
    assert(avoids(ls[2], 10) && ends_without(ls[2], 13));
    assert(avoids(ls[3], 10) && ends_without(ls[3], 13));
    assert(avoids(ls[4], 10) && ends_without(ls[4], 13));
    let nl = seq![10u8];
    let t5 = ls[4] + nl + Seq::<u8>::empty();
    let t4 = ls[3] + nl + t5;
    let t3 = ls[2] + nl + t4;
    let t2 = ls[1] + nl + t3;
    let t1 = ls[0] + nl + t2;
    assert(saved_text(s) =~= t1);
    lemma_lines_of(ls[4], Seq::<u8>::empty());
    lemma_lines_of(ls[3], t5);
    lemma_lines_of(ls[2], t4);
    lemma_lines_of(ls[1], t3);
    lemma_lines_of(ls[0], t2);
    assert(text_lines(Seq::<u8>::empty(), 0) =~= Seq::<Seq<u8>>::empty());
    assert(text_lines(t1, 0) =~= ls);
}

proof fn lemma_keys()
    ensures
        avoids(round_key(), 61),
        avoids(grid_key(), 61),
        avoids(theme_key(), 61),
        avoids(time_key(), 61),
        avoids(found_key(), 61),
        grid_key() != round_key(),
        theme_key() != round_key(),
        theme_key() != grid_key(),
        time_key() != round_key(),
        time_key() != grid_key(),
        time_key() != theme_key(),
        found_key() != round_key(),
        found_key() != grid_key(),
        found_key() != theme_key(),
        found_key() != time_key(),
{
    assert(grid_key().len() != round_key().len());
    assert(theme_key()[1] != round_key()[1]);
    assert(theme_key().len() != grid_key().len());
    assert(time_key().len() != round_key().len());
    assert(time_key().len() != grid_key().len());
    assert(time_key().len() != theme_key().len());
    assert(found_key()[0] != round_key()[0]);
    assert(found_key().len() != grid_key().len());
    assert(found_key()[0] != theme_key()[0]);
    assert(found_key().len() != time_key().len());
}

proof fn lemma_step_round(s: SavedRound, st: SaveState)
    requires
        !st.1,
    ensures
        save_step(st, save_lines(s)[0]) == (true, false, s.round, st.3, st.4, st.5, st.6),
{
    lemma_keys();
    let rv = round_value(s);
    lemma_pair_step(round_key(), rv);
    match s.round {
        Some(r) => {
            crate::text::lemma_decimal_parses(r as nat, u64::MAX as nat);
            assert(rv[0] != solo_word()[0]);
        },
        None => {},
    }
}

proof fn lemma_step_grid(s: SavedRound, st: SaveState)
    requires
        !st.1,
        plain_save(s),
    ensures
        save_step(st, save_lines(s)[1]) == (st.0, st.1, st.2, bytes_of(s.grid@), st.4, st.5, st.6),
{
    lemma_keys();
    let g = bytes_of(s.grid@);
    lemma_pair_step(grid_key(), joined_by(g, 44));
    assert forall|i: int| 0 <= i < g.len() implies avoids(#[trigger] g[i], 44) by {
        assert(g[i] == string_bytes(s.grid@[i]));
    }
    lemma_split_joined(g, 44);
}

proof fn lemma_step_theme(s: SavedRound, st: SaveState)
    requires
        !st.1,
        plain_save(s),
    ensures
        save_step(st, save_lines(s)[2]) == (st.0, st.1, st.2, st.3, theme_of(s.theme), st.5, st.6),
{
    lemma_keys();
    lemma_pair_step(theme_key(), theme_value(s));
}

proof fn lemma_step_time(s: SavedRound, st: SaveState)
    requires
        !st.1,
    ensures
        save_step(st, save_lines(s)[3]) == (st.0, st.1, st.2, st.3, st.4, s.time_left, st.6),
{
    lemma_keys();
    lemma_pair_step(time_key(), seconds_text(s.time_left as nat));
    lemma_seconds_round_trip(s.time_left);
}

proof fn lemma_step_found(s: SavedRound, st: SaveState)
    requires
        !st.1,
        plain_save(s),
    ensures
        save_step(st, save_lines(s)[4]) == (
            st.0,
            st.1,
            st.2,
            st.3,
            st.4,
            st.5,
            s.found@.map_values(|e: (String, Vec<Position>)| entry_of(e)),
        ),
{
    lemma_keys();
    let es = entries_text(s.found@);
    let fv = joined_by(es, 59);
    lemma_pair_step(found_key(), fv);
    if es.len() > 0 {
        assert forall|i: int| 0 <= i < es.len() implies avoids(#[trigger] es[i], 59) by {
            lemma_entry_plain(s, i);
        }
        lemma_split_joined(es, 59);
    } else {
        assert(fv =~= Seq::<u8>::empty());
        crate::text::lemma_split_one(Seq::<u8>::empty(), 59);
        let one = seq![Seq::<u8>::empty()];
        assert(one.drop_first() =~= Seq::<Seq<u8>>::empty());
        assert(one[0].len() == 0);
        assert(entries_in(Seq::<Seq<u8>>::empty()) =~= Seq::<(Seq<u8>, Seq<Position>)>::empty());
        assert(entries_in(one) =~= Seq::<(Seq<u8>, Seq<Position>)>::empty());
        assert(es =~= Seq::<Seq<u8>>::empty());
    }
    assert forall|i: int| 0 <= i < s.found@.len() implies {
        let w = string_bytes((#[trigger] s.found@[i]).0);
        let p = s.found@[i].1@;
        &&& avoids(w, 59) && avoids(w, 58)
        &&& p.len() > 0
        &&& forall|j: int| 0 <= j < p.len() ==> (#[trigger] p[j]).col < 4 && p[j].row * 4 + p[j].col <= usize::MAX
    } by {}
    lemma_entries_round_trip(s.found@);
}

/// A round saved and read back is the same round: its round, tiles, theme,
/// clock to the millisecond, and words with their paths, for any round whose
/// save format can hold it.
pub proof fn lemma_saved_round_reads_back(s: SavedRound)
    requires
        plain_save(s),
    ensures
        save_in(saved_text(s)) == (
            true,
            false,
            s.round,
            bytes_of(s.grid@),
            theme_of(s.theme),
            s.time_left,
            s.found@.map_values(|e: (String, Vec<Position>)| entry_of(e)),
        ),
{
    lemma_save_text_lines(s);
    let ls = save_lines(s);
    let s0: SaveState = (false, false, None, Seq::empty(), None, 0, Seq::empty());
    lemma_step_round(s, s0);
    let s1 = save_step(s0, ls[0]);
    lemma_step_grid(s, s1);
    let s2 = save_step(s1, ls[1]);
    lemma_step_theme(s, s2);
    let s3 = save_step(s2, ls[2]);
    lemma_step_time(s, s3);
    let s4 = save_step(s3, ls[3]);
    lemma_step_found(s, s4);
    let s5 = save_step(s4, ls[4]);
    assert(ls.drop_first() =~= seq![ls[1], ls[2], ls[3], ls[4]]);
    assert(seq![ls[1], ls[2], ls[3], ls[4]].drop_first() =~= seq![ls[2], ls[3], ls[4]]);
    assert(seq![ls[2], ls[3], ls[4]].drop_first() =~= seq![ls[3], ls[4]]);
    assert(seq![ls[3], ls[4]].drop_first() =~= seq![ls[4]]);
    assert(seq![ls[4]].drop_first() =~= Seq::<Seq<u8>>::empty());
    assert(save_after(s5, Seq::<Seq<u8>>::empty()) == s5);
    assert(save_after(s4, seq![ls[4]]) == save_after(s5, Seq::<Seq<u8>>::empty()));
    assert(save_after(s3, seq![ls[3], ls[4]]) == save_after(s4, seq![ls[4]]));
    assert(save_after(s2, seq![ls[2], ls[3], ls[4]]) == save_after(s3, seq![ls[3], ls[4]]));
    assert(save_after(s1, seq![ls[1], ls[2], ls[3], ls[4]]) == save_after(s2, seq![ls[2], ls[3], ls[4]]));
    assert(save_after(s0, ls) == save_after(s1, seq![ls[1], ls[2], ls[3], ls[4]]));
}

} // verus!
