//! Rounds precomputed for the server, in the JSON it serves them from.
//!
//! The server has to know a round's board and which words are valid on it, but
//! cannot hold the lexicon. So each round is written out here, where the
//! dictionary lives: its number, its sixteen tiles, its theme and every word
//! that scores on it, in byte order. Rounds go out in packs of a hundred, one
//! stored entry each.

use vstd::prelude::*;
use vstd::string::StringSliceAdditionalSpecFns;
use vstd::utf8::valid_utf8;
use crate::game::{string_bytes, tile, Grid, Position};
use crate::save::{joined_by, lemma_digits_ascii, lemma_joined_push, lemma_joined_valid, push_bytes};
use crate::solver::{bytes_of, lemma_lex_asymmetric, lemma_lex_skip, lemma_lex_transitive, lex_less, BoardWords};
use crate::text::{decimal_digits, lemma_ascii_valid, lemma_valid_concat, lossy_text, push_decimal};
use vstd::seq_lib::group_to_multiset_ensures;

verus! {

/// Rounds per pack. One stored entry holds a pack, so this trades entry size
/// against how many entries an upload costs.
pub const PACK_SIZE: u64 = 100;

// --- the words, in byte order ---------------------------------------------------

/// `a` comes before `b` in byte order, as `str`'s ordering has it: at the first
/// byte where they differ, or `a` running out first.
pub fn lex_before(a: &[u8], b: &[u8]) -> (before: bool)
    ensures
        before == lex_less(a@, b@),
{
    let n: usize = if a.len() < b.len() {
        a.len()
    } else {
        b.len()
    };
    let mut i: usize = 0;
    while i < n
        invariant
            n <= a@.len(),
            n <= b@.len(),
            n == a@.len() || n == b@.len(),
            0 <= i <= n,
            a@.take(i as int) == b@.take(i as int),
        decreases n - i,
    {
        if a[i] != b[i] {
            proof {
                lemma_lex_skip(a@, b@, i as int);
                assert(a@.skip(i as int)[0] == a@[i as int]);
                assert(b@.skip(i as int)[0] == b@[i as int]);
            }
            return a[i] < b[i];
        }
        proof {
            assert(a@.take(i + 1) =~= a@.take(i as int).push(a@[i as int]));
            assert(b@.take(i + 1) =~= b@.take(i as int).push(b@[i as int]));
        }
        i += 1;
    }
    proof {
        lemma_lex_skip(a@, b@, n as int);
        assert(a@.skip(n as int).len() == a@.len() - n);
        assert(b@.skip(n as int).len() == b@.len() - n);
    }
    a.len() < b.len()
}

/// Each word is no later in byte order than the next.
pub open spec fn in_byte_order(words: Seq<Seq<u8>>) -> bool {
    forall|i: int, j: int| 0 <= i < j < words.len() ==> !lex_less(#[trigger] words[j], #[trigger] words[i])
}

/// Put `w` into `list`, keeping it in byte order.
fn insert_in_order(list: &mut Vec<String>, w: String)
    requires
        in_byte_order(bytes_of(old(list)@)),
    ensures
        in_byte_order(bytes_of(final(list)@)),
        bytes_of(final(list)@).to_multiset() == bytes_of(old(list)@).to_multiset().insert(string_bytes(w)),
{
    let ghost old_bytes = bytes_of(list@);
    let ghost wb = string_bytes(w);
    let mut k: usize = 0;
    while k < list.len() && !lex_before(w.as_str().as_bytes(), list[k].as_str().as_bytes())
        invariant
            old_bytes == bytes_of(list@),
            wb == string_bytes(w),
            in_byte_order(old_bytes),
            0 <= k <= list@.len(),
            forall|i: int| 0 <= i < k ==> !lex_less(wb, #[trigger] old_bytes[i]),
        decreases list@.len() - k,
    {
        k += 1;
    }
    list.insert(k, w);
    proof {
        let nb = bytes_of(list@);
        assert(nb =~= old_bytes.insert(k as int, wb));
        broadcast use vstd::seq_lib::to_multiset_insert;
        assert forall|i: int, j: int| 0 <= i < j < nb.len() implies !lex_less(#[trigger] nb[j], #[trigger] nb[i]) by {
            if j < k {
                assert(nb[i] == old_bytes[i] && nb[j] == old_bytes[j]);
            } else if j == k {
                assert(nb[j] == wb && nb[i] == old_bytes[i]);
            } else if i == k {
                assert(nb[i] == wb && nb[j] == old_bytes[j - 1]);
                assert(lex_less(wb, old_bytes[k as int]));
                if lex_less(old_bytes[j - 1], wb) {
                    lemma_lex_transitive(old_bytes[j - 1], wb, old_bytes[k as int]);
                    if j - 1 > k {
                        assert(!lex_less(old_bytes[j - 1], old_bytes[k as int]));
                    } else {
                        lemma_lex_asymmetric(wb, old_bytes[k as int]);
                    }
                }
            } else if i < k {
                assert(nb[i] == old_bytes[i] && nb[j] == old_bytes[j - 1]);
            } else {
                assert(nb[i] == old_bytes[i - 1] && nb[j] == old_bytes[j - 1]);
            }
        }
    }
}

/// Put each of `words` into `list`, keeping it in byte order.
fn insert_all(list: &mut Vec<String>, words: &Vec<String>)
    requires
        in_byte_order(bytes_of(old(list)@)),
    ensures
        in_byte_order(bytes_of(final(list)@)),
        bytes_of(final(list)@).to_multiset() == bytes_of(old(list)@).to_multiset().add(
            bytes_of(words@).to_multiset(),
        ),
{
    let ghost start = bytes_of(list@).to_multiset();
    let ghost all = bytes_of(words@);
    let mut i: usize = 0;
    proof {
        broadcast use group_to_multiset_ensures;
        assert(all.take(0) =~= Seq::<Seq<u8>>::empty());
        assert(start.add(all.take(0).to_multiset()) =~= start);
    }
    while i < words.len()
        invariant
            all == bytes_of(words@),
            0 <= i <= words@.len(),
            in_byte_order(bytes_of(list@)),
            bytes_of(list@).to_multiset() == start.add(all.take(i as int).to_multiset()),
        decreases words@.len() - i,
    {
        let w = words[i].clone();
        proof {
            assert(string_bytes(w) == all[i as int]);
            assert(all.take(i + 1) =~= all.take(i as int).push(all[i as int]));
            broadcast use group_to_multiset_ensures;
            assert(start.add(all.take(i + 1).to_multiset()) =~= start.add(all.take(i as int).to_multiset()).insert(
                all[i as int],
            ));
        }
        insert_in_order(list, w);
        i += 1;
    }
    proof {
        assert(all.take(words@.len() as int) =~= all);
    }
}

/// Every word that scores on a board, common and obscure alike, in byte order.
pub fn valid_words(words: &BoardWords) -> (valid: Vec<String>)
    ensures
        in_byte_order(bytes_of(valid@)),
        bytes_of(valid@).to_multiset() == (bytes_of(words.common@) + bytes_of(words.obscure@)).to_multiset(),
{
    let mut valid: Vec<String> = Vec::new();
    proof {
        broadcast use group_to_multiset_ensures;
        assert(bytes_of(valid@) =~= Seq::<Seq<u8>>::empty());
    }
    insert_all(&mut valid, &words.common);
    insert_all(&mut valid, &words.obscure);
    proof {
        vstd::seq_lib::lemma_multiset_commutative(bytes_of(words.common@), bytes_of(words.obscure@));
        broadcast use group_to_multiset_ensures;
        assert(vstd::multiset::Multiset::<Seq<u8>>::empty().add(bytes_of(words.common@).to_multiset()) =~= bytes_of(
            words.common@,
        ).to_multiset());
    }
    valid
}

// --- a round as JSON -------------------------------------------------------------

/// Text in double quotes. Nothing is escaped: tiles are letters, words are
/// lower-case letters, and theme names hold no quotes.
pub open spec fn quoted(s: Seq<u8>) -> Seq<u8> {
    seq![34u8] + s + seq![34u8]
}

pub open spec fn quoted_all(pieces: Seq<Seq<u8>>) -> Seq<Seq<u8>> {
    pieces.map_values(|p: Seq<u8>| quoted(p))
}

/// A JSON array of strings.
pub open spec fn json_strings(pieces: Seq<Seq<u8>>) -> Seq<u8> {
    seq![91u8] + joined_by(quoted_all(pieces), 44) + seq![93u8]
}

/// The board's sixteen tiles, row by row.
pub open spec fn grid_tiles(grid: Grid) -> Seq<Seq<u8>> {
    Seq::new(16, |i: int| tile(grid, Position { row: (i / 4) as usize, col: (i % 4) as usize }))
}

/// `{"round":`
pub open spec fn round_field() -> Seq<u8> {
    seq![123u8, 34u8, 114u8, 111u8, 117u8, 110u8, 100u8, 34u8, 58u8]
}

/// `,"grid":`
pub open spec fn grid_field() -> Seq<u8> {
    seq![44u8, 34u8, 103u8, 114u8, 105u8, 100u8, 34u8, 58u8]
}

/// `,"theme":`
pub open spec fn theme_field() -> Seq<u8> {
    seq![44u8, 34u8, 116u8, 104u8, 101u8, 109u8, 101u8, 34u8, 58u8]
}

/// `,"words":`
pub open spec fn words_field() -> Seq<u8> {
    seq![44u8, 34u8, 119u8, 111u8, 114u8, 100u8, 115u8, 34u8, 58u8]
}

/// `null`
pub open spec fn null_word() -> Seq<u8> {
    seq![110u8, 117u8, 108u8, 108u8]
}

/// The theme's name, if there is one.
pub open spec fn theme_bytes(theme: Option<String>) -> Option<Seq<u8>> {
    match theme {
        Some(t) => Some(string_bytes(t)),
        None => None,
    }
}

/// One round as the server stores it: its number, its tiles, its theme or
/// `null`, and the words valid on it.
pub open spec fn round_text(round: u64, grid: Grid, theme: Option<Seq<u8>>, words: Seq<Seq<u8>>) -> Seq<u8> {
    round_field() + decimal_digits(round as nat) + grid_field() + json_strings(grid_tiles(grid)) + theme_field()
        + match theme {
        Some(t) => quoted(t),
        None => null_word(),
    } + words_field() + json_strings(words) + seq![125u8]
}

/// Write `pieces` as a JSON array of strings.
fn push_strings(out: &mut Vec<u8>, pieces: &Vec<String>)
    ensures
        final(out)@ == old(out)@ + json_strings(bytes_of(pieces@)),
{
    let ghost start = out@;
    let ghost all = quoted_all(bytes_of(pieces@));
    out.push(91);
    let mut i: usize = 0;
    proof {
        assert(joined_by(all.take(0), 44) =~= Seq::<u8>::empty());
    }
    while i < pieces.len()
        invariant
            all == quoted_all(bytes_of(pieces@)),
            0 <= i <= pieces@.len(),
            out@ == start + seq![91u8] + joined_by(all.take(i as int), 44),
        decreases pieces@.len() - i,
    {
        let ghost before = out@;
        if i > 0 {
            out.push(44);
        }
        out.push(34);
        push_bytes(out, pieces[i].as_str().as_bytes());
        out.push(34);
        proof {
            assert(all[i as int] == quoted(string_bytes(pieces@[i as int])));
            assert(all.take(i + 1) =~= all.take(i as int).push(all[i as int]));
            if i == 0 {
                assert(all.take(1) =~= seq![all[0]]);
                assert(out@ =~= start + seq![91u8] + joined_by(all.take(1), 44));
            } else {
                lemma_joined_push(all.take(i as int), 44, all[i as int]);
                assert(out@ =~= start + seq![91u8] + joined_by(all.take(i + 1), 44));
            }
        }
        i += 1;
    }
    out.push(93);
    proof {
        assert(all.take(pieces@.len() as int) =~= all);
    }
}

/// Write the board's tiles as a JSON array of strings.
fn push_tiles(out: &mut Vec<u8>, grid: &Grid)
    ensures
        final(out)@ == old(out)@ + json_strings(grid_tiles(*grid)),
{
    let ghost start = out@;
    let ghost all = quoted_all(grid_tiles(*grid));
    out.push(91);
    let mut s: usize = 0;
    proof {
        assert(joined_by(all.take(0), 44) =~= Seq::<u8>::empty());
    }
    while s < 16
        invariant
            all == quoted_all(grid_tiles(*grid)),
            0 <= s <= 16,
            out@ == start + seq![91u8] + joined_by(all.take(s as int), 44),
        decreases 16 - s,
    {
        if s > 0 {
            out.push(44);
        }
        out.push(34);
        push_bytes(out, grid[s / 4][s % 4].letters.as_bytes());
        out.push(34);
        proof {
            assert(grid_tiles(*grid)[s as int] == tile(*grid, Position { row: s / 4, col: s % 4 }));
            assert(all[s as int] == quoted(tile(*grid, Position { row: s / 4, col: s % 4 })));
            assert(all.take(s + 1) =~= all.take(s as int).push(all[s as int]));
            if s == 0 {
                assert(all.take(1) =~= seq![all[0]]);
                assert(out@ =~= start + seq![91u8] + joined_by(all.take(1), 44));
            } else {
                lemma_joined_push(all.take(s as int), 44, all[s as int]);
                assert(out@ =~= start + seq![91u8] + joined_by(all.take(s + 1), 44));
            }
        }
        s += 1;
    }
    out.push(93);
    proof {
        assert(all.take(16) =~= all);
    }
}

proof fn lemma_ascii_piece_valid(b: Seq<u8>)
    requires
        forall|i: int| 0 <= i < b.len() ==> #[trigger] b[i] < 128,
    ensures
        valid_utf8(b),
{
    lemma_ascii_valid(b);
}

proof fn lemma_quoted_valid(s: Seq<u8>)
    requires
        valid_utf8(s),
    ensures
        valid_utf8(quoted(s)),
{
    lemma_ascii_valid(seq![34u8]);
    lemma_valid_concat(seq![34u8], s);
    lemma_valid_concat(seq![34u8] + s, seq![34u8]);
}

proof fn lemma_strings_valid(pieces: Seq<Seq<u8>>)
    requires
        forall|i: int| 0 <= i < pieces.len() ==> valid_utf8(#[trigger] pieces[i]),
    ensures
        valid_utf8(json_strings(pieces)),
{
    let q = quoted_all(pieces);
    assert forall|i: int| 0 <= i < q.len() implies valid_utf8(#[trigger] q[i]) by {
        lemma_quoted_valid(pieces[i]);
    }
    lemma_joined_valid(q, 44);
    lemma_ascii_valid(seq![91u8]);
    lemma_ascii_valid(seq![93u8]);
    lemma_valid_concat(seq![91u8], joined_by(q, 44));
    lemma_valid_concat(seq![91u8] + joined_by(q, 44), seq![93u8]);
}

/// A round's JSON is text.
proof fn lemma_round_valid(round: u64, grid: Grid, theme: Option<Seq<u8>>, words: Seq<Seq<u8>>)
    requires
        theme matches Some(t) ==> valid_utf8(t),
        forall|i: int| 0 <= i < words.len() ==> valid_utf8(#[trigger] words[i]),
    ensures
        valid_utf8(round_text(round, grid, theme, words)),
{
    lemma_ascii_piece_valid(round_field());
    lemma_ascii_piece_valid(grid_field());
    lemma_ascii_piece_valid(theme_field());
    lemma_ascii_piece_valid(words_field());
    lemma_ascii_piece_valid(null_word());
    lemma_ascii_valid(seq![125u8]);
    lemma_digits_ascii(round as nat);
    let tiles = grid_tiles(grid);
    assert forall|i: int| 0 <= i < tiles.len() implies valid_utf8(#[trigger] tiles[i]) by {
        let p = Position { row: (i / 4) as usize, col: (i % 4) as usize };
        vstd::utf8::encode_utf8_valid_utf8(grid[p.row as int][p.col as int].letters@);
    }
    lemma_strings_valid(tiles);
    lemma_strings_valid(words);
    let t = match theme {
        Some(t) => quoted(t),
        None => null_word(),
    };
    match theme {
        Some(x) => lemma_quoted_valid(x),
        None => {},
    }
    let a = round_field() + decimal_digits(round as nat);
    lemma_valid_concat(round_field(), decimal_digits(round as nat));
    let b = a + grid_field();
    lemma_valid_concat(a, grid_field());
    let c = b + json_strings(tiles);
    lemma_valid_concat(b, json_strings(tiles));
    let d = c + theme_field();
    lemma_valid_concat(c, theme_field());
    let e = d + t;
    lemma_valid_concat(d, t);
    let f = e + words_field();
    lemma_valid_concat(e, words_field());
    let g = f + json_strings(words);
    lemma_valid_concat(f, json_strings(words));
    lemma_valid_concat(g, seq![125u8]);
}

/// One round as the server stores it: its number, its sixteen tiles, its theme
/// or `null`, and `words`, the words valid on it.
#[verifier::spinoff_prover]
pub fn round_json(round: u64, grid: &Grid, theme: &Option<String>, words: &Vec<String>) -> (json: String)
    ensures
        string_bytes(json) == round_text(round, *grid, theme_bytes(*theme), bytes_of(words@)),
{
    let round_name: [u8; 9] = [123, 34, 114, 111, 117, 110, 100, 34, 58];
    let grid_name: [u8; 8] = [44, 34, 103, 114, 105, 100, 34, 58];
    let theme_name: [u8; 9] = [44, 34, 116, 104, 101, 109, 101, 34, 58];
    let words_name: [u8; 9] = [44, 34, 119, 111, 114, 100, 115, 34, 58];
    let null: [u8; 4] = [110, 117, 108, 108];
    proof {
        assert(round_name@ =~= round_field());
        assert(grid_name@ =~= grid_field());
        assert(theme_name@ =~= theme_field());
        assert(words_name@ =~= words_field());
        assert(null@ =~= null_word());
    }
    let mut out: Vec<u8> = Vec::new();
    push_bytes(&mut out, round_name.as_slice());
    push_decimal(&mut out, round);
    push_bytes(&mut out, grid_name.as_slice());
    push_tiles(&mut out, grid);
    push_bytes(&mut out, theme_name.as_slice());
    match theme {
        Some(t) => {
            out.push(34);
            push_bytes(&mut out, t.as_str().as_bytes());
            out.push(34);
        },
        None => push_bytes(&mut out, null.as_slice()),
    }
    push_bytes(&mut out, words_name.as_slice());
    push_strings(&mut out, words);
    out.push(125);
    proof {
        let tb = theme_bytes(*theme);
        assert(out@ =~= round_text(round, *grid, tb, bytes_of(words@)));
        match theme {
            Some(x) => vstd::utf8::encode_utf8_valid_utf8(x@),
            None => {},
        }
        let wb = bytes_of(words@);
        assert forall|i: int| 0 <= i < wb.len() implies valid_utf8(#[trigger] wb[i]) by {
            vstd::utf8::encode_utf8_valid_utf8(words@[i]@);
        }
        lemma_round_valid(round, *grid, tb, wb);
    }
    lossy_text(out.as_slice())
}

// --- packs -------------------------------------------------------------------------

/// The packs rounds `first` up to `end` fall into: for each, its index and the
/// rounds of the run it holds, from where the last left off to the end of its
/// pack or of the run.
pub open spec fn packs_from(first: nat, end: nat) -> Seq<(u64, u64, u64)>
    decreases end - first,
{
    if first >= end {
        Seq::empty()
    } else {
        let index = first / PACK_SIZE as nat;
        let stop = if (index + 1) * PACK_SIZE as nat <= end {
            (index + 1) * PACK_SIZE as nat
        } else {
            end
        };
        seq![(index as u64, first as u64, stop as u64)] + packs_from(stop, end)
    }
}

/// How `count` rounds from `first` split into packs: each pack's index, and the
/// first round it holds and the one after its last.
pub fn pack_runs(first: u64, count: u64) -> (runs: Vec<(u64, u64, u64)>)
    requires
        first + count <= u64::MAX,
    ensures
        runs@ == packs_from(first as nat, (first + count) as nat),
{
    let end = first + count;
    let mut runs: Vec<(u64, u64, u64)> = Vec::new();
    let mut round = first;
    while round < end
        invariant
            end == first + count,
            first <= round,
            round <= end || count == 0,
            runs@ + packs_from(round as nat, end as nat) == packs_from(first as nat, end as nat),
        decreases end - round,
    {
        let index = round / PACK_SIZE;
        let stop = if index + 1 <= end / PACK_SIZE {
            (index + 1) * PACK_SIZE
        } else {
            end
        };
        proof {
            assert((index + 1) * PACK_SIZE as nat <= end <==> index + 1 <= end / PACK_SIZE);
            assert(packs_from(round as nat, end as nat) == seq![(index, round, stop)] + packs_from(
                stop as nat,
                end as nat,
            ));
            assert(runs@.push((index, round, stop)) + packs_from(stop as nat, end as nat) =~= runs@ + packs_from(
                round as nat,
                end as nat,
            ));
        }
        runs.push((index, round, stop));
        round = stop;
    }
    proof {
        assert(runs@ + packs_from(round as nat, end as nat) =~= runs@);
    }
    runs
}


/// A pack: its rounds' JSON in a JSON array.
pub open spec fn pack_text(rounds: Seq<Seq<u8>>) -> Seq<u8> {
    seq![91u8] + joined_by(rounds, 44) + seq![93u8]
}

/// A pack of rounds, each given as its JSON.
pub fn pack_json(rounds: &Vec<String>) -> (json: String)
    ensures
        string_bytes(json) == pack_text(bytes_of(rounds@)),
{
    let ghost all = bytes_of(rounds@);
    let mut out: Vec<u8> = Vec::new();
    out.push(91);
    let mut i: usize = 0;
    proof {
        assert(joined_by(all.take(0), 44) =~= Seq::<u8>::empty());
    }
    while i < rounds.len()
        invariant
            all == bytes_of(rounds@),
            0 <= i <= rounds@.len(),
            out@ == seq![91u8] + joined_by(all.take(i as int), 44),
        decreases rounds@.len() - i,
    {
        if i > 0 {
            out.push(44);
        }
        push_bytes(&mut out, rounds[i].as_str().as_bytes());
        proof {
            assert(all.take(i + 1) =~= all.take(i as int).push(all[i as int]));
            if i == 0 {
                assert(all.take(1) =~= seq![all[0]]);
                assert(out@ =~= seq![91u8] + joined_by(all.take(1), 44));
            } else {
                lemma_joined_push(all.take(i as int), 44, all[i as int]);
                assert(out@ =~= seq![91u8] + joined_by(all.take(i + 1), 44));
            }
        }
        i += 1;
    }
    out.push(93);
    proof {
        assert(all.take(rounds@.len() as int) =~= all);
        assert(out@ =~= pack_text(all));
        assert forall|k: int| 0 <= k < all.len() implies valid_utf8(#[trigger] all[k]) by {
            vstd::utf8::encode_utf8_valid_utf8(rounds@[k]@);
        }
        lemma_joined_valid(all, 44);
        lemma_ascii_valid(seq![91u8]);
        lemma_ascii_valid(seq![93u8]);
        lemma_valid_concat(seq![91u8], joined_by(all, 44));
        lemma_valid_concat(seq![91u8] + joined_by(all, 44), seq![93u8]);
    }
    lossy_text(out.as_slice())
}

} // verus!
