//! What kind of board each round gets, and building the superword boards.
//!
//! Every fifth round is a superword board and the four between are themed.
//! Themes are dealt in shuffled passes through the rotation, never the same
//! theme twice running; a month's seasonal theme, when given, takes the second
//! round of every five.

use vstd::prelude::*;
use vstd::string::StringSliceAdditionalSpecFns;
use crate::game::{
    adjacent, board_is_good, collect_theme_words, count_at_least, good_board, worst_tile,
    LONG_WORD_LEN, generate_board_local, in_board, is_lower_letter, letter_face, neighbours,
    qu_face, rolled, spelled, string_bytes, tile, tiles_ok, traces, valid_path, Cell, Grid, Position,
};
use crate::dictionary::{lowered, trimmed, Dictionary};
use crate::random::{below, pick_one, shuffle};
use crate::solver::{bytes_of, ranked, free_tiles, lemma_mask_holds, lemma_mask_push, mask_of_path, solve_board, solves, BoardWords};
use crate::text::{find_line_end, lemma_line_end, lines_from, lower_ascii, trimmed_line};
use rand::rngs::StdRng;
use crate::random::{seeded_order, seeded_shuffle};
use vstd::seq_lib::group_to_multiset_ensures;

verus! {

/// A word split into board tiles: one letter each, with "qu" on a single tile;
/// nothing for a word with anything but the letters a-z.
pub open spec fn tiles_of(word: Seq<u8>) -> Option<Seq<Seq<u8>>>
    decreases word.len(),
{
    if word.len() == 0 {
        Some(Seq::empty())
    } else if !is_lower_letter(word[0]) {
        None
    } else if word[0] == 113 && word.len() >= 2 && word[1] == 117 {
        match tiles_of(word.skip(2)) {
            Some(rest) => Some(seq![seq![113u8, 117u8]] + rest),
            None => None,
        }
    } else {
        match tiles_of(word.skip(1)) {
            Some(rest) => Some(seq![seq![word[0]]] + rest),
            None => None,
        }
    }
}

/// A word split into board tiles: one letter each, with "qu" on a single tile.
pub fn word_tiles(word: &str) -> (tiles: Option<Vec<&'static str>>)
    ensures
        match tiles {
            Some(t) => tiles_of(word.spec_bytes()) matches Some(spec_tiles) && t@.len()
                == spec_tiles.len() && forall|i: int|
                0 <= i < t@.len() ==> (#[trigger] t@[i]).spec_bytes() == spec_tiles[i],
            None => tiles_of(word.spec_bytes()) is None,
        },
{
    let bytes = word.as_bytes();
    let n = bytes.len();
    let mut out: Vec<&'static str> = Vec::new();
    let mut i: usize = 0;
    let ghost mut done: Seq<Seq<u8>> = Seq::empty();
    proof {
        assert(bytes@.skip(0) =~= bytes@);
        assert forall|t: Seq<Seq<u8>>| tiles_of(bytes@.skip(0)) == Some(t) implies tiles_of(bytes@) == Some(done + t) by {
            assert(done + t =~= t);
        }
    }
    while i < n
        invariant
            n == bytes@.len(),
            bytes@ == word.spec_bytes(),
            0 <= i <= n,
            out@.len() == done.len(),
            forall|k: int| 0 <= k < out@.len() ==> (#[trigger] out@[k]).spec_bytes() == done[k],
            forall|t: Seq<Seq<u8>>|
                tiles_of(bytes@.skip(i as int)) == Some(t) ==> tiles_of(bytes@) == Some(done + t),
            tiles_of(bytes@.skip(i as int)) is None ==> tiles_of(bytes@) is None,
        decreases n - i,
    {
        let b = bytes[i];
        let ghost rest = bytes@.skip(i as int);
        if !(97 <= b && b <= 122) {
            proof {
                assert(rest[0] == b);
                assert(tiles_of(rest) is None);
            }
            return None;
        }
        if b == 113 && i + 1 < n && bytes[i + 1] == 117 {
            out.push(qu_face());
            proof {
                assert(rest[0] == b && rest[1] == 117);
                assert(rest.skip(2) =~= bytes@.skip(i + 2));
                assert forall|t: Seq<Seq<u8>>|
                    tiles_of(bytes@.skip(i + 2)) == Some(t) implies tiles_of(bytes@) == Some(
                        done.push(seq![113u8, 117u8]) + t,
                    ) by {
                    assert(seq![seq![113u8, 117u8]] + t =~= seq![seq![113u8, 117u8]] + t);
                    assert(done + (seq![seq![113u8, 117u8]] + t) =~= done.push(seq![113u8, 117u8]) + t);
                }
                done = done.push(seq![113u8, 117u8]);
            }
            i += 2;
        } else {
            out.push(letter_face(b));
            proof {
                assert(rest[0] == b);
                assert(!(rest.len() >= 2 && rest[1] == 117 && b == 113)) by {
                    if rest.len() >= 2 && b == 113 {
                        assert(rest[1] == bytes@[i + 1]);
                    }
                }
                assert(rest.skip(1) =~= bytes@.skip(i + 1));
                assert forall|t: Seq<Seq<u8>>|
                    tiles_of(bytes@.skip(i + 1)) == Some(t) implies tiles_of(bytes@) == Some(
                        done.push(seq![b]) + t,
                    ) by {
                    assert(done + (seq![seq![b]] + t) =~= done.push(seq![b]) + t);
                }
                done = done.push(seq![b]);
            }
            i += 1;
        }
    }
    proof {
        assert(bytes@.skip(n as int) =~= Seq::<u8>::empty());
        assert(done + Seq::<Seq<u8>>::empty() =~= done);
    }
    Some(out)
}

/// A themed board must hold at least this many words from its category.
pub const THEME_WORDS_REQUIRED: usize = 20;

/// Every this-many-th round is a superword board.
pub const SUPERWORD_EVERY: u64 = 5;

/// The themes that rotate, in order.
pub const ROTATION_THEMES: [&'static str; 10] = [
    "Animals",
    "Food",
    "Nature",
    "Body",
    "Music",
    "Science",
    "Math",
    "History",
    "Verbs",
    "Adjectives",
];

/// The theme each month favours, January first.
pub const SEASONAL_THEMES: [&'static str; 12] = [
    "Winter",
    "Valentine's Day",
    "St. Patrick's Day",
    "Easter",
    "Spring",
    "Summer",
    "Fourth of July",
    "School",
    "Fall",
    "Halloween",
    "Thanksgiving",
    "Christmas",
];

/// Where in each block of five the month's seasonal theme falls: the second
/// round, as far from the superword round at the block's end as it can be.
pub const SEASONAL_POSITION: u64 = 1;

/// The theme a month (1 = January) favours.
pub fn season_for_month(month: u32) -> (season: Option<&'static str>)
    ensures
        season == (if 1 <= month <= 12 {
            Some(SEASONAL_THEMES[month - 1])
        } else {
            None::<&'static str>
        }),
{
    if month >= 1 && month <= 12 {
        Some(SEASONAL_THEMES[(month - 1) as usize])
    } else {
        None
    }
}

/// A stable 64-bit mix, so the schedule is the same on every machine and build.
pub open spec fn mix_spec(x: u64) -> u64 {
    let a = vstd::wrapping::u64_specs::wrapping_add(x, 0x9E37_79B9_7F4A_7C15);
    let b = vstd::wrapping::u64_specs::wrapping_mul(a ^ (a >> 30u64), 0xBF58_476D_1CE4_E5B9);
    let c = vstd::wrapping::u64_specs::wrapping_mul(b ^ (b >> 27u64), 0x94D0_49BB_1331_11EB);
    c ^ (c >> 31u64)
}

pub fn mix(x: u64) -> (mixed: u64)
    ensures
        mixed == mix_spec(x),
{
    let a = x.wrapping_add(0x9E37_79B9_7F4A_7C15);
    let b = (a ^ (a >> 30u64)).wrapping_mul(0xBF58_476D_1CE4_E5B9);
    let c = (b ^ (b >> 27u64)).wrapping_mul(0x94D0_49BB_1331_11EB);
    c ^ (c >> 31u64)
}

/// The numbers below `n`, in order.
pub open spec fn deal(n: nat) -> Seq<usize> {
    Seq::new(n, |i: int| i as usize)
}

/// `order` holds each number below `n` exactly once.
pub open spec fn dealt(order: Seq<usize>, n: nat) -> bool {
    order.to_multiset() == deal(n).to_multiset()
}

fn in_order(n: usize) -> (order: Vec<usize>)
    ensures
        order@ == deal(n as nat),
{
    let mut order: Vec<usize> = Vec::new();
    let mut i: usize = 0;
    while i < n
        invariant
            0 <= i <= n,
            order@ == deal(i as nat),
        decreases n - i,
    {
        order.push(i);
        proof {
            assert(order@ =~= deal((i + 1) as nat));
        }
        i += 1;
    }
    order
}

/// An order holding each number below `n` once holds no number twice, and
/// only numbers below `n`.
pub proof fn lemma_dealt(order: Seq<usize>, n: nat)
    requires
        dealt(order, n),
        n <= usize::MAX,
    ensures
        order.no_duplicates(),
        order.len() == n,
        forall|x: usize| order.contains(x) <==> x < n,
{
    broadcast use group_to_multiset_ensures;

    let d = deal(n);
    assert(d.no_duplicates());
    d.lemma_multiset_has_no_duplicates();
    order.lemma_multiset_has_no_duplicates_conv();
    assert forall|x: usize| order.contains(x) <==> x < n by {
        assert(order.contains(x) <==> order.to_multiset().count(x) > 0);
        assert(d.contains(x) <==> d.to_multiset().count(x) > 0);
        if x < n {
            assert(d[x as int] == x);
        }
    }
    assert(order.to_multiset().len() == d.to_multiset().len());
}

/// The seed of pass `p` through the rotation.
pub open spec fn pass_seed(p: u64) -> u64 {
    mix_spec(p ^ 0x5448_454D_45u64)
}

/// The shuffle of the rotation for pass `p`.
pub open spec fn pass_order(p: u64) -> Seq<usize> {
    seeded_order(pass_seed(p), deal(10))
}

/// Pass `p` as it is dealt: a pass that would open with the theme the last one
/// ended on starts with its second theme instead.
pub open spec fn pass_dealt(p: u64) -> Seq<usize> {
    let o = pass_order(p);
    if p > 0 && o[0] == pass_order((p - 1) as u64)[9] {
        o.update(0, o[1]).update(1, o[0])
    } else {
        o
    }
}

/// The rotation theme of the `index`-th themed round (counting from zero).
pub open spec fn theme_index(index: u64) -> usize {
    pass_dealt(index / 10)[(index % 10) as int]
}

/// The rotation theme of the `index`-th themed round.
fn theme_at(index: u64) -> (name: &'static str)
    ensures
        dealt(pass_order(index / 10), 10),
        index / 10 > 0 ==> dealt(pass_order((index / 10 - 1) as u64), 10),
        theme_index(index) < 10,
        name == ROTATION_THEMES[theme_index(index) as int],
{
    let p = index / 10;
    let mut order = in_order(10);
    seeded_shuffle(mix(p ^ 0x5448_454D_45u64), &mut order);
    proof {
        lemma_dealt(order@, 10);
    }
    if p > 0 {
        let mut last = in_order(10);
        seeded_shuffle(mix((p - 1) ^ 0x5448_454D_45u64), &mut last);
        proof {
            lemma_dealt(last@, 10);
        }
        if order[0] == last[9] {
            let first = order[0];
            let second = order[1];
            order[0] = second;
            order[1] = first;
        }
    }
    let k = (index % 10) as usize;
    proof {
        assert(order@ == pass_dealt(p));
        assert(order@.contains(order@[k as int]));
        assert(pass_order(p).contains(order@[k as int])) by {
            if p > 0 && pass_order(p)[0] == pass_order((p - 1) as u64)[9] {
                if k == 0 {
                    assert(pass_order(p)[1] == order@[0]);
                } else if k == 1 {
                    assert(pass_order(p)[0] == order@[1]);
                } else {
                    assert(pass_order(p)[k as int] == order@[k as int]);
                }
            } else {
                assert(pass_order(p)[k as int] == order@[k as int]);
            }
        }
    }
    ROTATION_THEMES[order[k]]
}

/// Within a pass the themes never repeat, and a pass never opens with the theme
/// the last one closed on: no two consecutive themed rounds share a theme.
pub proof fn lemma_rotation_never_repeats(index: u64)
    requires
        index < u64::MAX,
    ensures
        dealt(pass_order(index / 10), 10) && dealt(pass_order((index + 1) as u64 / 10), 10)
            ==> theme_index(index) != theme_index((index + 1) as u64),
{
    let p = index / 10;
    let next = (index + 1) as u64;
    if dealt(pass_order(p), 10) && dealt(pass_order(next / 10), 10) {
        lemma_dealt(pass_order(p), 10);
        lemma_dealt(pass_order(next / 10), 10);
        let o = pass_order(p);
        if index % 10 < 9 {
            assert(next / 10 == p);
            assert(next % 10 == index % 10 + 1);
            let j = (index % 10) as int;
            if p > 0 && o[0] == pass_order((p - 1) as u64)[9] {
                let d = pass_dealt(p);
                assert(d[j] != d[j + 1]) by {
                    if j == 0 {
                        assert(d[0] == o[1] && d[1] == o[0]);
                    } else if j == 1 {
                        assert(d[1] == o[0] && d[2] == o[2]);
                    } else {
                        assert(d[j] == o[j] && d[j + 1] == o[j + 1]);
                    }
                }
            } else {
                assert(o[j] != o[j + 1]);
            }
        } else {
            assert(next / 10 == p + 1);
            assert(next % 10 == 0);
            let o2 = pass_order((p + 1) as u64);
            assert(((p + 1) as u64 - 1) as u64 == p);
            assert(pass_dealt(p)[9] == o[9]);
            if o2[0] == o[9] {
                assert(pass_dealt((p + 1) as u64)[0] == o2[1]);
                assert(o2[1] != o2[0]);
            }
        }
    }
}

/// Each pass deals every rotation theme exactly once, so over whole passes the
/// themes come up equally often.
pub proof fn lemma_pass_deals_every_theme(p: u64)
    requires
        p < u64::MAX / 10,
    ensures
        dealt(pass_order(p), 10) ==> dealt(pass_dealt(p), 10),
        forall|j: int| 0 <= j < 10 ==> theme_index((p * 10 + j) as u64) == #[trigger] pass_dealt(p)[j],
{
    assert forall|j: int| 0 <= j < 10 implies theme_index((p * 10 + j) as u64) == #[trigger] pass_dealt(p)[j] by {
        assert(p * 10 + j <= u64::MAX);
        assert(((p * 10 + j) as u64) == p * 10 + j);
        assert(((p * 10 + j) as u64) / 10 == p);
        assert(((p * 10 + j) as u64) % 10 == j);
    }
    if dealt(pass_order(p), 10) {
        let o = pass_order(p);
        lemma_dealt(o, 10);
        if p > 0 && o[0] == pass_order((p - 1) as u64)[9] {
            let d = pass_dealt(p);
            assert(d =~= o.update(0, o[1]).update(1, o[0]));
            assert(d.to_multiset() =~= o.to_multiset()) by {
                broadcast use group_to_multiset_ensures;
                assert(o =~= seq![o[0], o[1]] + o.subrange(2, 10));
                assert(d =~= seq![o[1], o[0]] + o.subrange(2, 10));
                vstd::seq_lib::lemma_multiset_commutative(seq![o[0], o[1]], o.subrange(2, 10));
                vstd::seq_lib::lemma_multiset_commutative(seq![o[1], o[0]], o.subrange(2, 10));
                assert(seq![o[0], o[1]] =~= seq![o[0]].push(o[1]));
                assert(seq![o[1], o[0]] =~= seq![o[1]].push(o[0]));
                assert(seq![o[0]] =~= Seq::<usize>::empty().push(o[0]));
                assert(seq![o[1]] =~= Seq::<usize>::empty().push(o[1]));
                assert(seq![o[0], o[1]].to_multiset() =~= seq![o[1], o[0]].to_multiset());
            }
        }
    }
}

/// The rotation's themes are ten different names, and no month's seasonal
/// theme is one of them.
pub proof fn lemma_theme_names_distinct()
    ensures
        forall|i: int, j: int|
            0 <= i < 10 && 0 <= j < 10 && i != j ==> #[trigger] ROTATION_THEMES[i]@ != #[trigger] ROTATION_THEMES[j]@,
        forall|i: int, j: int|
            0 <= i < 12 && 0 <= j < 10 ==> #[trigger] SEASONAL_THEMES[i]@ != #[trigger] ROTATION_THEMES[j]@,
{
    reveal_strlit("Animals");
    reveal_strlit("Food");
    reveal_strlit("Nature");
    reveal_strlit("Body");
    reveal_strlit("Music");
    reveal_strlit("Science");
    reveal_strlit("Math");
    reveal_strlit("History");
    reveal_strlit("Verbs");
    reveal_strlit("Adjectives");
    reveal_strlit("Winter");
    reveal_strlit("Valentine's Day");
    reveal_strlit("St. Patrick's Day");
    reveal_strlit("Easter");
    reveal_strlit("Spring");
    reveal_strlit("Summer");
    reveal_strlit("Fourth of July");
    reveal_strlit("School");
    reveal_strlit("Fall");
    reveal_strlit("Halloween");
    reveal_strlit("Thanksgiving");
    reveal_strlit("Christmas");
    assert(ROTATION_THEMES[0]@.len() == 7 && ROTATION_THEMES[0]@[0] == 'A' && ROTATION_THEMES[0]@[1] == 'n');
    assert(ROTATION_THEMES[1]@.len() == 4 && ROTATION_THEMES[1]@[0] == 'F' && ROTATION_THEMES[1]@[1] == 'o');
    assert(ROTATION_THEMES[2]@.len() == 6 && ROTATION_THEMES[2]@[0] == 'N' && ROTATION_THEMES[2]@[1] == 'a');
    assert(ROTATION_THEMES[3]@.len() == 4 && ROTATION_THEMES[3]@[0] == 'B' && ROTATION_THEMES[3]@[1] == 'o');
    assert(ROTATION_THEMES[4]@.len() == 5 && ROTATION_THEMES[4]@[0] == 'M' && ROTATION_THEMES[4]@[1] == 'u');
    assert(ROTATION_THEMES[5]@.len() == 7 && ROTATION_THEMES[5]@[0] == 'S' && ROTATION_THEMES[5]@[1] == 'c');
    assert(ROTATION_THEMES[6]@.len() == 4 && ROTATION_THEMES[6]@[0] == 'M' && ROTATION_THEMES[6]@[1] == 'a');
    assert(ROTATION_THEMES[7]@.len() == 7 && ROTATION_THEMES[7]@[0] == 'H' && ROTATION_THEMES[7]@[1] == 'i');
    assert(ROTATION_THEMES[8]@.len() == 5 && ROTATION_THEMES[8]@[0] == 'V' && ROTATION_THEMES[8]@[1] == 'e');
    assert(ROTATION_THEMES[9]@.len() == 10 && ROTATION_THEMES[9]@[0] == 'A' && ROTATION_THEMES[9]@[1] == 'd');
    assert(SEASONAL_THEMES[0]@.len() == 6 && SEASONAL_THEMES[0]@[0] == 'W' && SEASONAL_THEMES[0]@[1] == 'i');
    assert(SEASONAL_THEMES[1]@.len() == 15 && SEASONAL_THEMES[1]@[0] == 'V' && SEASONAL_THEMES[1]@[1] == 'a');
    assert(SEASONAL_THEMES[2]@.len() == 17 && SEASONAL_THEMES[2]@[0] == 'S' && SEASONAL_THEMES[2]@[1] == 't');
    assert(SEASONAL_THEMES[3]@.len() == 6 && SEASONAL_THEMES[3]@[0] == 'E' && SEASONAL_THEMES[3]@[1] == 'a');
    assert(SEASONAL_THEMES[4]@.len() == 6 && SEASONAL_THEMES[4]@[0] == 'S' && SEASONAL_THEMES[4]@[1] == 'p');
    assert(SEASONAL_THEMES[5]@.len() == 6 && SEASONAL_THEMES[5]@[0] == 'S' && SEASONAL_THEMES[5]@[1] == 'u');
    assert(SEASONAL_THEMES[6]@.len() == 14 && SEASONAL_THEMES[6]@[0] == 'F' && SEASONAL_THEMES[6]@[1] == 'o');
    assert(SEASONAL_THEMES[7]@.len() == 6 && SEASONAL_THEMES[7]@[0] == 'S' && SEASONAL_THEMES[7]@[1] == 'c');
    assert(SEASONAL_THEMES[8]@.len() == 4 && SEASONAL_THEMES[8]@[0] == 'F' && SEASONAL_THEMES[8]@[1] == 'a');
    assert(SEASONAL_THEMES[9]@.len() == 9 && SEASONAL_THEMES[9]@[0] == 'H' && SEASONAL_THEMES[9]@[1] == 'a');
    assert(SEASONAL_THEMES[10]@.len() == 12 && SEASONAL_THEMES[10]@[0] == 'T' && SEASONAL_THEMES[10]@[1] == 'h');
    assert(SEASONAL_THEMES[11]@.len() == 9 && SEASONAL_THEMES[11]@[0] == 'C' && SEASONAL_THEMES[11]@[1] == 'h');
    assert forall|i: int, j: int|
        0 <= i < 10 && 0 <= j < 10 && i != j implies #[trigger] ROTATION_THEMES[i]@ != #[trigger] ROTATION_THEMES[j]@ by {
        assert(i == 0 || i == 1 || i == 2 || i == 3 || i == 4 || i == 5 || i == 6 || i == 7 || i == 8 || i == 9);
        assert(j == 0 || j == 1 || j == 2 || j == 3 || j == 4 || j == 5 || j == 6 || j == 7 || j == 8 || j == 9);
    }
    assert forall|i: int, j: int|
        0 <= i < 12 && 0 <= j < 10 implies #[trigger] SEASONAL_THEMES[i]@ != #[trigger] ROTATION_THEMES[j]@ by {
        assert(i == 0 || i == 1 || i == 2 || i == 3 || i == 4 || i == 5 || i == 6 || i == 7 || i == 8 || i == 9
            || i == 10 || i == 11);
        assert(j == 0 || j == 1 || j == 2 || j == 3 || j == 4 || j == 5 || j == 6 || j == 7 || j == 8 || j == 9);
    }
}

/// The kind of board a round gets.
#[derive(Clone, Debug, PartialEq, Eq)]
pub enum RoundKind {
    Superword(String),
    Themed(String),
}

/// The seed of the `cycle`-th pass through the superwords.
pub open spec fn super_seed(cycle: u64) -> u64 {
    mix_spec(cycle ^ 0x574F_5244u64)
}

/// The shuffle of `n` superwords for the pass that block `block` falls in.
pub open spec fn super_order(block: u64, n: nat) -> Seq<usize> {
    seeded_order(super_seed(block / (n as u64)), deal(n))
}

/// Which of `n` superwords block `block` is dealt.
pub open spec fn superword_index(block: u64, n: nat) -> usize {
    super_order(block, n)[(block % (n as u64)) as int]
}

/// Superwords are dealt through a fixed shuffle of the list, so every word is
/// used once before any repeats.
fn superword_for_block(block: u64, superwords: &[String]) -> (word: String)
    requires
        superwords@.len() > 0,
    ensures
        dealt(super_order(block, superwords@.len()), superwords@.len()),
        superword_index(block, superwords@.len()) < superwords@.len(),
        word == superwords@[superword_index(block, superwords@.len()) as int],
{
    let n = superwords.len();
    let cycle = block / (n as u64);
    let mut order = in_order(n);
    seeded_shuffle(mix(cycle ^ 0x574F_5244u64), &mut order);
    proof {
        lemma_dealt(order@, n as nat);
    }
    let k = (block % (n as u64)) as usize;
    proof {
        assert(order@.contains(order@[k as int]));
    }
    superwords[order[k]].clone()
}

/// Within one pass through the superwords, no block is dealt the same word as
/// another.
pub proof fn lemma_superwords_fresh_within_a_pass(b1: u64, b2: u64, n: nat)
    requires
        0 < n <= usize::MAX,
    ensures
        b1 / (n as u64) == b2 / (n as u64) && b1 != b2 && dealt(super_order(b1, n), n) ==> superword_index(b1, n)
            != superword_index(b2, n),
{
    if b1 / (n as u64) == b2 / (n as u64) && b1 != b2 && dealt(super_order(b1, n), n) {
        lemma_dealt(super_order(b1, n), n);
        let m = n as u64;
        assert(b1 % m != b2 % m) by {
            assert(b1 == m * (b1 / m) + b1 % m) by (nonlinear_arith)
                requires
                    m > 0,
            ;
            assert(b2 == m * (b2 / m) + b2 % m) by (nonlinear_arith)
                requires
                    m > 0,
            ;
        }
        assert(super_order(b1, n) == super_order(b2, n));
    }
}

/// Every fifth round is a superword, and a pass through the list deals each
/// superword once: two different superword slots whose blocks fall in the same
/// pass get different words from a list that holds no word twice, each a word
/// of the list. The premises are what `kind_for_slot` states of each slot.
pub proof fn lemma_superword_slots_of_a_pass_differ(
    superwords: Seq<String>,
    s1: u64,
    k1: RoundKind,
    s2: u64,
    k2: RoundKind,
)
    requires
        0 < superwords.len() <= usize::MAX,
        superwords.no_duplicates(),
        s1 % SUPERWORD_EVERY == SUPERWORD_EVERY - 1,
        s2 % SUPERWORD_EVERY == SUPERWORD_EVERY - 1,
        s1 != s2,
        (s1 / SUPERWORD_EVERY) / (superwords.len() as u64) == (s2 / SUPERWORD_EVERY) / (superwords.len() as u64),
        (k1 is Superword) <==> s1 % SUPERWORD_EVERY == SUPERWORD_EVERY - 1,
        k1 matches RoundKind::Superword(w) ==> w == superwords[superword_index(
            s1 / SUPERWORD_EVERY,
            superwords.len(),
        ) as int] && dealt(super_order(s1 / SUPERWORD_EVERY, superwords.len()), superwords.len()),
        (k2 is Superword) <==> s2 % SUPERWORD_EVERY == SUPERWORD_EVERY - 1,
        k2 matches RoundKind::Superword(w) ==> w == superwords[superword_index(
            s2 / SUPERWORD_EVERY,
            superwords.len(),
        ) as int] && dealt(super_order(s2 / SUPERWORD_EVERY, superwords.len()), superwords.len()),
    ensures
        k1 is Superword,
        k2 is Superword,
        superwords.contains(k1->Superword_0),
        superwords.contains(k2->Superword_0),
        k1->Superword_0 != k2->Superword_0,
{
    let n = superwords.len();
    let b1 = s1 / SUPERWORD_EVERY;
    let b2 = s2 / SUPERWORD_EVERY;
    assert(b1 != b2) by {
        assert(s1 == 5 * b1 + 4);
        assert(s2 == 5 * b2 + 4);
    }
    lemma_superwords_fresh_within_a_pass(b1, b2, n);
    let i1 = superword_index(b1, n);
    let i2 = superword_index(b2, n);
    lemma_dealt(super_order(b1, n), n);
    lemma_dealt(super_order(b2, n), n);
    let m = n as u64;
    assert(b1 % m < m && b2 % m < m);
    assert(super_order(b1, n).contains(i1));
    assert(super_order(b2, n).contains(i2));
    assert(i1 < n && i2 < n);
    assert(superwords.contains(superwords[i1 as int]));
    assert(superwords.contains(superwords[i2 as int]));
}

/// How many themed rounds of the regular rotation come before slot `slot`:
/// four per block of five, or three when a seasonal theme takes one of them.
pub open spec fn rotation_count(slot: u64, seasonal: bool) -> u64 {
    let block = slot / SUPERWORD_EVERY;
    let within = slot % SUPERWORD_EVERY;
    if !seasonal {
        (block * (SUPERWORD_EVERY - 1) + within) as u64
    } else {
        (block * (SUPERWORD_EVERY - 2) + within - if within > SEASONAL_POSITION {
            1int
        } else {
            0int
        }) as u64
    }
}

/// The slot is the month's seasonal round.
pub open spec fn is_seasonal_slot(slot: u64, season: Option<&str>) -> bool {
    season is Some && slot % SUPERWORD_EVERY == SEASONAL_POSITION
}

/// The passes the rotation drew on for the `count`-th themed round are each a
/// shuffle of the whole rotation.
pub open spec fn passes_dealt(count: u64) -> bool {
    &&& dealt(pass_order(count / 10), 10)
    &&& count / 10 > 0 ==> dealt(pass_order((count / 10 - 1) as u64), 10)
}

/// The board kind for a round slot, favouring `season`'s theme when one is
/// given: the last round of every five a superword, the seasonal theme second
/// when there is one, and the rotation through the rest.
pub fn kind_for_slot(slot: u64, superwords: &[String], season: Option<&str>) -> (kind: RoundKind)
    requires
        slot % SUPERWORD_EVERY == SUPERWORD_EVERY - 1 ==> superwords@.len() > 0,
    ensures
        (kind is Superword) <==> slot % SUPERWORD_EVERY == SUPERWORD_EVERY - 1,
        kind matches RoundKind::Superword(w) ==> w == superwords@[superword_index(
            slot / SUPERWORD_EVERY,
            superwords@.len(),
        ) as int] && dealt(super_order(slot / SUPERWORD_EVERY, superwords@.len()), superwords@.len()),
        kind matches RoundKind::Themed(t) ==> if is_seasonal_slot(slot, season) {
            t@ == season->0@
        } else {
            &&& t@ == ROTATION_THEMES[theme_index(rotation_count(slot, season is Some)) as int]@
            &&& passes_dealt(rotation_count(slot, season is Some))
        },
{
    let block = slot / SUPERWORD_EVERY;
    let within = slot % SUPERWORD_EVERY;
    if within == SUPERWORD_EVERY - 1 {
        return RoundKind::Superword(superword_for_block(block, superwords));
    }
    match season {
        None => {
            let before = block * (SUPERWORD_EVERY - 1) + within;
            RoundKind::Themed(theme_at(before).to_owned())
        },
        Some(name) => {
            if within == SEASONAL_POSITION {
                return RoundKind::Themed(name.to_owned());
            }
            let skipped: u64 = if within > SEASONAL_POSITION { 1 } else { 0 };
            proof {
                assert(block * 3 <= u64::MAX - 5) by (nonlinear_arith)
                    requires
                        block == slot / 5,
                ;
            }
            let before = block * (SUPERWORD_EVERY - 2) + within - skipped;
            RoundKind::Themed(theme_at(before).to_owned())
        },
    }
}

/// Past a themed round of the rotation, the next one the rotation serves is
/// the next in its count: superword and seasonal rounds take no place in it.
pub proof fn lemma_next_rotation_round(slot: u64, seasonal: bool)
    requires
        slot < u64::MAX - 10,
        slot % SUPERWORD_EVERY != SUPERWORD_EVERY - 1,
        !(seasonal && slot % SUPERWORD_EVERY == SEASONAL_POSITION),
    ensures
        ({
            let step: u64 = if slot % SUPERWORD_EVERY == 3 {
                2
            } else if seasonal && slot % SUPERWORD_EVERY == 0 {
                2
            } else {
                1
            };
            let next = (slot + step) as u64;
            &&& next % SUPERWORD_EVERY != SUPERWORD_EVERY - 1
            &&& !(seasonal && next % SUPERWORD_EVERY == SEASONAL_POSITION)
            &&& rotation_count(next, seasonal) == rotation_count(slot, seasonal) + 1
        }),
{
}

/// The superwords a list's text holds: each line trimmed and lower-cased,
/// blank lines and `#` comments left out, in file order.
pub open spec fn superwords_in(lines: Seq<Seq<u8>>) -> Seq<Seq<u8>>
    decreases lines.len(),
{
    if lines.len() == 0 {
        Seq::empty()
    } else {
        let l = trimmed(lines[0]);
        (if l.len() == 0 || l[0] == 35 {
            Seq::empty()
        } else {
            seq![lowered(l)]
        }) + superwords_in(lines.drop_first())
    }
}

/// The curated superwords, in file order.
pub fn superwords(text: &str) -> (words: Vec<String>)
    ensures
        crate::solver::bytes_of(words@) == superwords_in(lines_from(text.spec_bytes(), 0)),
{
    let t = text.as_bytes();
    let ghost tb = t@;
    let len = t.len();
    let mut words: Vec<String> = Vec::new();
    let mut start: usize = 0;
    let mut more = true;
    proof {
        assert(crate::solver::bytes_of(words@) + superwords_in(lines_from(tb, 0)) =~= superwords_in(
            lines_from(tb, 0),
        ));
    }
    while more
        invariant
            tb == t@,
            tb == text.spec_bytes(),
            len == tb.len(),
            0 <= start <= len,
            start == 0 || tb[start - 1] == 10,
            more ==> crate::solver::bytes_of(words@) + superwords_in(lines_from(tb, start as int))
                == superwords_in(lines_from(tb, 0)),
            !more ==> crate::solver::bytes_of(words@) == superwords_in(lines_from(tb, 0)),
        decreases (if more { len + 2 - start } else { 0 }),
    {
        let ghost done = crate::solver::bytes_of(words@);
        let end = find_line_end(t, start);
        let ghost here = tb.subrange(start as int, end as int);
        proof {
            lemma_line_end(tb, start as int);
            assert(lines_from(tb, start as int)[0] == here);
            assert(lines_from(tb, start as int).drop_first() =~= lines_from(tb, end + 1));
        }
        let line = trimmed_line(text, start, end);
        let lb = line.as_bytes();
        if lb.len() > 0 && lb[0] != 35 {
            words.push(lower_ascii(line));
            proof {
                assert(crate::solver::bytes_of(words@) =~= done.push(lowered(trimmed(here))));
                assert(done + superwords_in(lines_from(tb, start as int)) =~= done.push(lowered(trimmed(here)))
                    + superwords_in(lines_from(tb, end + 1)));
            }
        } else {
            proof {
                assert(superwords_in(lines_from(tb, start as int)) =~= superwords_in(lines_from(tb, end + 1)));
            }
        }
        if end < len {
            start = end + 1;
        } else {
            proof {
                assert(lines_from(tb, end + 1) =~= Seq::<Seq<u8>>::empty());
                assert(crate::solver::bytes_of(words@) + Seq::<Seq<u8>>::empty() =~= crate::solver::bytes_of(
                    words@,
                ));
            }
            more = false;
        }
    }
    words
}

/// `p` is a tour of the whole board that starts with `pre`: a path through all
/// sixteen tiles, each stepping to a touching one.
pub open spec fn tour_from(pre: Seq<Position>, p: Seq<Position>) -> bool {
    &&& p.len() == 16
    &&& valid_path(p)
    &&& p.take(pre.len() as int) == pre
}

/// Carry a tour from the end of `path` on through every tile not yet on it,
/// trying the free neighbours in random order and backing up from dead ends:
/// it succeeds exactly when some tour of the board starts with `path`.
fn extend_tour(path: &mut Vec<Position>, used: &mut u16, rng: &mut StdRng) -> (done: bool)
    requires
        old(path)@.len() >= 1,
        valid_path(old(path)@),
        mask_of_path(*old(used), old(path)@),
        old(path)@.len() + free_tiles(*old(used), 16) == 16,
    ensures
        done == exists|p: Seq<Position>| #[trigger] tour_from(old(path)@, p),
        done ==> final(path)@.len() == 16 && valid_path(final(path)@) && final(path)@.take(
            old(path)@.len() as int,
        ) == old(path)@,
        !done ==> final(path)@ == old(path)@ && *final(used) == *old(used),
    decreases free_tiles(*old(used), 16),
{
    if path.len() == 16 {
        proof {
            assert(path@.take(16) =~= path@);
            assert(tour_from(path@, path@));
        }
        return true;
    }
    let ghost pre = path@;
    let saved = *used;
    let last = path[path.len() - 1];
    proof {
        assert(in_board(last));
    }
    let around = neighbours(last);
    let mut next: Vec<Position> = Vec::new();
    let mut k: usize = 0;
    while k < around.len()
        invariant
            0 <= k <= around@.len(),
            forall|n: Position| around@.contains(n) <==> in_board(n) && adjacent(last, n),
            forall|n: Position| #[trigger] next@.contains(n) ==> in_board(n) && adjacent(last, n) && !pre.contains(n),
            forall|i: int| 0 <= i < k && !pre.contains(#[trigger] around@[i]) ==> next@.contains(around@[i]),
            mask_of_path(*used, pre),
            *used == saved,
        decreases around@.len() - k,
    {
        let n = around[k];
        proof {
            assert(around@.contains(n));
            assert(in_board(n));
            lemma_mask_holds(*used, pre, n);
        }
        let ghost before0 = next@;
        if *used & (1u16 << ((n.row * 4 + n.col) as u16)) == 0 {
            let ghost before = next@;
            next.push(n);
            proof {
                assert forall|i: int| 0 <= i < k + 1 && !pre.contains(#[trigger] around@[i]) implies next@.contains(
                    around@[i],
                ) by {
                    if i < k {
                        assert(before.contains(around@[i]));
                        let t = choose|t: int| 0 <= t < before.len() && before[t] == around@[i];
                        assert(next@[t] == around@[i]);
                    } else {
                        assert(next@[next@.len() - 1] == n);
                    }
                }
                assert forall|x: Position| #[trigger] next@.contains(x) implies in_board(x) && adjacent(last, x)
                    && !pre.contains(x) by {
                    if x != n {
                        let i = choose|i: int| 0 <= i < next@.len() && next@[i] == x;
                        assert(before[i] == x);
                        assert(before.contains(x));
                    }
                }
            }
        }
        k += 1;
    }
    proof {
        assert forall|n: Position| in_board(n) && adjacent(last, n) && !pre.contains(n) implies #[trigger] next@.contains(
            n,
        ) by {
            assert(around@.contains(n));
            let i = choose|i: int| 0 <= i < around@.len() && around@[i] == n;
            assert(!pre.contains(around@[i]));
        }
    }
    let ghost unshuffled = next@;
    shuffle(rng, &mut next);
    let ghost shuffled = next@;
    proof {
        broadcast use group_to_multiset_ensures;

        assert forall|n: Position| #[trigger] next@.contains(n) implies in_board(n) && adjacent(last, n)
            && !pre.contains(n) by {
            assert(next@.to_multiset().count(n) > 0);
            assert(unshuffled.contains(n));
        }
        assert forall|n: Position| in_board(n) && adjacent(last, n) && !pre.contains(n) implies #[trigger] next@.contains(
            n,
        ) by {
            assert(unshuffled.contains(n));
            assert(unshuffled.to_multiset().count(n) > 0);
        }
    }
    let mut j: usize = 0;
    while j < next.len()
        invariant
            0 <= j <= next@.len(),
            forall|n: Position| #[trigger] next@.contains(n) ==> in_board(n) && adjacent(last, n) && !pre.contains(n),
            path@ == pre,
            pre.len() >= 1,
            pre.len() < 16,
            pre.last() == last,
            valid_path(pre),
            mask_of_path(saved, pre),
            *used == saved,
            saved == *old(used),
            pre == old(path)@,
            pre.len() + free_tiles(saved, 16) == 16,
            forall|n: Position| in_board(n) && adjacent(last, n) && !pre.contains(n) ==> #[trigger] next@.contains(n),
            forall|i: int, p: Seq<Position>|
                0 <= i < j ==> !#[trigger] tour_from(pre.push(#[trigger] next@[i]), p),
        decreases next@.len() - j,
    {
        let n = next[j];
        proof {
            assert(next@.contains(n));
            lemma_mask_push(saved, pre, n);
            assert(valid_path(pre.push(n))) by {
                assert forall|a: int, b: int| 0 <= a < b < pre.push(n).len() implies pre.push(n)[a] != pre.push(
                    n,
                )[b] by {
                    if b == pre.len() && pre[a] == n {
                        assert(pre.contains(n));
                    }
                }
            }
        }
        *used = saved | (1u16 << ((n.row * 4 + n.col) as u16));
        path.push(n);
        if extend_tour(path, used, rng) {
            proof {
                assert(path@.take(pre.len() as int) =~= path@.take(pre.len() as int + 1).take(pre.len() as int));
                assert(pre.push(n).take(pre.len() as int) =~= pre);
                assert(tour_from(pre, path@));
            }
            return true;
        }
        path.pop();
        *used = saved;
        proof {
            assert(path@ =~= pre);
            assert forall|i: int, p: Seq<Position>| 0 <= i < j + 1 implies !#[trigger] tour_from(
                pre.push(#[trigger] next@[i]),
                p,
            ) by {
                if i == j {
                    assert(next@[i] == n);
                    if tour_from(pre.push(n), p) {
                        assert(exists|q: Seq<Position>| #[trigger] tour_from(pre.push(n), q));
                    }
                }
            }
        }
        j += 1;
    }
    proof {
        assert forall|p: Seq<Position>| !#[trigger] tour_from(pre, p) by {
            if tour_from(pre, p) {
                let m = pre.len() as int;
                let n = p[m];
                assert(p[m - 1] == p.take(m)[m - 1]);
                assert(p[m - 1] == last);
                assert(adjacent(p[m - 1], p[m]));
                assert(in_board(n));
                assert(!pre.contains(n)) by {
                    if pre.contains(n) {
                        let t = choose|t: int| 0 <= t < pre.len() && pre[t] == n;
                        assert(p[t] == p.take(m)[t]);
                    }
                }
                assert(next@.contains(n));
                let i = choose|i: int| 0 <= i < next@.len() && next@[i] == n;
                assert(p.take(m + 1) =~= pre.push(n)) by {
                    assert forall|t: int| 0 <= t < m implies p.take(m + 1)[t] == pre.push(n)[t] by {
                        assert(p[t] == p.take(m)[t]);
                    }
                }
                assert(tour_from(pre.push(next@[i]), p));
            }
        }
    }
    false
}

/// The tiles row by row, each row the other way round from the last: a path
/// through every tile.
fn snake() -> (path: Vec<Position>)
    ensures
        path@.len() == 16,
        valid_path(path@),
{
    let mut path: Vec<Position> = Vec::new();
    let mut s: usize = 0;
    while s < 16
        invariant
            0 <= s <= 16,
            path@.len() == s,
            forall|i: int|
                0 <= i < s ==> #[trigger] path@[i] == (Position {
                    row: (i / 4) as usize,
                    col: (if (i / 4) % 2 == 0 { i % 4 } else { 3 - i % 4 }) as usize,
                }),
        decreases 16 - s,
    {
        let r = s / 4;
        let c = if r % 2 == 0 { s % 4 } else { 3 - s % 4 };
        path.push(Position { row: r, col: c });
        s += 1;
    }
    proof {
        assert forall|a: int, b: int| 0 <= a < b < 16 implies path@[a] != path@[b] by {
            if a / 4 == b / 4 {
                assert(a % 4 != b % 4);
            }
        }
        assert forall|i: int| 0 <= i < 15 implies adjacent(#[trigger] path@[i], path@[i + 1]) by {
            assert(i == 0 || i == 1 || i == 2 || i == 3 || i == 4 || i == 5 || i == 6 || i == 7 || i == 8 || i
                == 9 || i == 10 || i == 11 || i == 12 || i == 13 || i == 14);
        }
    }
    path
}

/// A random path through all sixteen tiles, stepping to a touching tile each
/// time. A search starts from a random tile; should one fail, the next random
/// start is tried, and after sixteen the row-by-row snake is used.
fn tour(rng: &mut StdRng) -> (path: Vec<Position>)
    ensures
        path@.len() == 16,
        valid_path(path@),
{
    let mut attempt: usize = 0;
    while attempt < 16
        decreases 16 - attempt,
    {
        let start = Position { row: below(rng, 4), col: below(rng, 4) };
        let mut path: Vec<Position> = Vec::new();
        path.push(start);
        let shift: u16 = (start.row * 4 + start.col) as u16;
        let mut used: u16 = 1u16 << shift;
        proof {
            crate::solver::lemma_mask_empty();
            lemma_mask_push(0, Seq::<Position>::empty(), start);
            assert(Seq::<Position>::empty().push(start) =~= path@);
            assert((0u16 | (1u16 << shift)) == (1u16 << shift)) by (bit_vector);
        }
        if extend_tour(&mut path, &mut used, rng) {
            return path;
        }
        attempt += 1;
    }
    snake()
}

/// The letters of a run of tiles, one after another.
pub open spec fn joined(tiles: Seq<Seq<u8>>) -> Seq<u8>
    decreases tiles.len(),
{
    if tiles.len() == 0 {
        Seq::empty()
    } else {
        joined(tiles.drop_last()) + tiles.last()
    }
}

proof fn lemma_joined_front(first: Seq<u8>, rest: Seq<Seq<u8>>)
    ensures
        joined(seq![first] + rest) == first + joined(rest),
    decreases rest.len(),
{
    if rest.len() == 0 {
        assert(seq![first] + rest =~= seq![first]);
        assert(seq![first].drop_last() =~= Seq::<Seq<u8>>::empty());
        assert(joined(Seq::<Seq<u8>>::empty()) =~= Seq::<u8>::empty());
        assert(joined(rest) =~= Seq::<u8>::empty());
        assert(joined(seq![first]) == joined(seq![first].drop_last()) + seq![first].last());
        assert(Seq::<u8>::empty() + first =~= first);
        assert(first + Seq::<u8>::empty() =~= first);
    } else {
        assert((seq![first] + rest).drop_last() =~= seq![first] + rest.drop_last());
        assert((seq![first] + rest).last() == rest.last());
        lemma_joined_front(first, rest.drop_last());
        assert(first + joined(rest.drop_last()) + rest.last() =~= first + (joined(rest.drop_last())
            + rest.last()));
    }
}

/// Every tile of a word shows at least one letter.
proof fn lemma_tiles_nonempty(word: Seq<u8>, i: int)
    requires
        tiles_of(word) is Some,
        0 <= i < (tiles_of(word)->0).len(),
    ensures
        (tiles_of(word)->0)[i].len() > 0,
    decreases word.len(),
{
    if word.len() > 0 {
        if word[0] == 113 && word.len() >= 2 && word[1] == 117 {
            if i > 0 {
                lemma_tiles_nonempty(word.skip(2), i - 1);
            }
        } else {
            if i > 0 {
                lemma_tiles_nonempty(word.skip(1), i - 1);
            }
        }
    }
}

/// A word's tiles, laid end to end, spell the word.
proof fn lemma_tiles_spell(word: Seq<u8>)
    requires
        tiles_of(word) is Some,
    ensures
        joined(tiles_of(word)->0) == word,
    decreases word.len(),
{
    if word.len() > 0 {
        if word[0] == 113 && word.len() >= 2 && word[1] == 117 {
            lemma_tiles_spell(word.skip(2));
            lemma_joined_front(seq![113u8, 117u8], tiles_of(word.skip(2))->0);
            assert(seq![113u8, 117u8] + word.skip(2) =~= word);
        } else {
            lemma_tiles_spell(word.skip(1));
            lemma_joined_front(seq![word[0]], tiles_of(word.skip(1))->0);
            assert(seq![word[0]] + word.skip(1) =~= word);
        }
    } else {
        assert(joined(Seq::<Seq<u8>>::empty()) =~= Seq::<u8>::empty());
    }
}

/// A path whose tiles show `tiles` in turn spells them laid end to end.
proof fn lemma_path_spells(g: Grid, path: Seq<Position>, tiles: Seq<Seq<u8>>)
    requires
        path.len() == tiles.len(),
        forall|i: int| 0 <= i < path.len() ==> tile(g, #[trigger] path[i]) == tiles[i],
    ensures
        spelled(g, path) == joined(tiles),
    decreases path.len(),
{
    if path.len() > 0 {
        assert forall|i: int| 0 <= i < path.len() - 1 implies tile(g, #[trigger] path.drop_last()[i])
            == tiles.drop_last()[i] by {
            assert(path.drop_last()[i] == path[i]);
        }
        lemma_path_spells(g, path.drop_last(), tiles.drop_last());
        assert(tile(g, path[path.len() - 1]) == tiles[tiles.len() - 1]);
    }
}

/// `grid` spells `word` along a path through all sixteen tiles.
pub open spec fn spells_across(grid: Grid, word: Seq<u8>) -> bool {
    exists|path: Seq<Position>| path.len() == 16 && #[trigger] traces(grid, word, None, path)
}

/// Lay the word's sixteen tiles along a tour of the board.
fn lay_word(path: &Vec<Position>, tiles: &Vec<&'static str>) -> (grid: Grid)
    requires
        path@.len() == 16,
        tiles@.len() == 16,
        valid_path(path@),
        forall|i: int| 0 <= i < 16 ==> (#[trigger] tiles@[i]).spec_bytes().len() > 0,
    ensures
        forall|i: int| 0 <= i < 16 ==> tile(grid, #[trigger] path@[i]) == tiles@[i].spec_bytes(),
        tiles_ok(grid),
{
    let blank = Cell { letters: letter_face(101) };
    let mut grid: Grid = [[blank; 4]; 4];
    let mut i: usize = 0;
    while i < 16
        invariant
            0 <= i <= 16,
            path@.len() == 16,
            tiles@.len() == 16,
            valid_path(path@),
            forall|j: int| 0 <= j < i ==> tile(grid, #[trigger] path@[j]) == tiles@[j].spec_bytes(),
            forall|j: int| 0 <= j < 16 ==> (#[trigger] tiles@[j]).spec_bytes().len() > 0,
            tiles_ok(grid),
        decreases 16 - i,
    {
        let p = path[i];
        proof {
            assert(in_board(p));
        }
        let ghost before = grid;
        let mut row = grid[p.row];
        row[p.col] = Cell { letters: tiles[i] };
        grid[p.row] = row;
        proof {
            assert forall|j: int| 0 <= j < i + 1 implies tile(grid, #[trigger] path@[j]) == tiles@[j].spec_bytes() by {
                if j < i {
                    let q = path@[j];
                    assert(q != p);
                    if q.row == p.row {
                        assert(grid[p.row as int] == row);
                        assert(q.col != p.col);
                    }
                    assert(tile(grid, q) == tile(before, q));
                }
            }
            assert forall|q: Position| in_board(q) implies (#[trigger] tile(grid, q)).len() > 0 by {
                if q != p {
                    if q.row == p.row {
                        assert(grid[p.row as int] == row);
                    }
                    assert(tile(grid, q) == tile(before, q));
                } else {
                    assert(tiles@[i as int].spec_bytes().len() > 0);
                }
            }
        }
        i += 1;
    }
    grid
}

/// Lay a sixteen-tile word along random tours of the board, and keep the
/// layout that plays best: one clearing the quality bar, then the one with the
/// most common words. Nothing for a word that does not fill the board.
pub fn build_superword_board(dict: &Dictionary, word: &str, rng: &mut StdRng) -> (board: Option<(Grid, BoardWords)>)
    requires
        dict.wf(),
    ensures
        board is Some <==> (tiles_of(word.spec_bytes()) matches Some(t) && t.len() == 16),
        board matches Some(b) ==> spells_across(b.0, word.spec_bytes()) && solves(b.0, *dict, b.1) && tiles_ok(
            b.0,
        ),
{
    let tiles = match word_tiles(word) {
        Some(t) => t,
        None => {
            return None;
        },
    };
    if tiles.len() != 16 {
        return None;
    }
    let ghost spec_tiles = tiles_of(word.spec_bytes())->0;
    proof {
        assert forall|i: int| 0 <= i < 16 implies (#[trigger] tiles@[i]).spec_bytes() == spec_tiles[i] by {}
        lemma_tiles_spell(word.spec_bytes());
        assert forall|i: int| 0 <= i < 16 implies (#[trigger] tiles@[i]).spec_bytes().len() > 0 by {
            lemma_tiles_nonempty(word.spec_bytes(), i);
        }
    }
    let mut best: Option<(Grid, BoardWords, bool, usize)> = None;
    let mut layout: usize = 0;
    while layout < 150
        invariant
            dict.wf(),
            tiles@.len() == 16,
            spec_tiles.len() == 16,
            forall|i: int| 0 <= i < 16 ==> (#[trigger] tiles@[i]).spec_bytes() == spec_tiles[i],
            forall|i: int| 0 <= i < 16 ==> (#[trigger] tiles@[i]).spec_bytes().len() > 0,
            joined(spec_tiles) == word.spec_bytes(),
            layout > 0 ==> best is Some,
            best matches Some(b) ==> spells_across(b.0, word.spec_bytes()) && solves(b.0, *dict, b.1) && tiles_ok(
                b.0,
            ),
        decreases 150 - layout,
    {
        let path = tour(rng);
        let grid = lay_word(&path, &tiles);
        proof {
            assert forall|i: int| 0 <= i < 16 implies tile(grid, #[trigger] path@[i]) == spec_tiles[i] by {}
            lemma_path_spells(grid, path@, spec_tiles);
            assert(traces(grid, word.spec_bytes(), None, path@));
        }
        let words = solve_board(dict, &grid);
        let good = board_is_good(&words);
        let count = words.common.len();
        let better = match &best {
            None => true,
            Some(b) => (good && !b.2) || (good == b.2 && count > b.3),
        };
        if better {
            best = Some((grid, words, good, count));
        }
        layout += 1;
    }
    match best {
        Some(b) => Some((b.0, b.1)),
        None => None,
    }
}

/// Board kinds for solo play, when there is no server to serve rounds: a
/// superword board every fifth round, and plain boards between, since a themed
/// board takes seconds of searching.
pub struct SoloRotation {
    played: u64,
    superwords: Vec<String>,
}

impl SoloRotation {
    pub closed spec fn played(&self) -> u64 {
        self.played
    }

    pub closed spec fn words(&self) -> Seq<String> {
        self.superwords@
    }

    pub fn new(superwords: Vec<String>) -> (solo: Self)
        ensures
            solo.played() == 0,
            solo.words() == superwords@,
    {
        SoloRotation { played: 0, superwords }
    }

    /// How many solo boards have been served.
    pub fn rounds_played(&self) -> (n: u64)
        ensures
            n == self.played(),
    {
        self.played
    }

    /// The next solo board: every fifth one is laid out around one of the
    /// superwords, when the one picked fills the board; the rest are plain.
    pub fn next_board(&mut self, dict: &Dictionary, rng: &mut StdRng) -> (board: (Grid, BoardWords, Option<String>))
        requires
            old(self).played() < u64::MAX,
            dict.wf(),
        ensures
            final(self).played() == old(self).played() + 1,
            final(self).words() == old(self).words(),
            solves(board.0, *dict, board.1),
            tiles_ok(board.0),
            board.2 is None,
            final(self).played() % SUPERWORD_EVERY != 0 ==> rolled(board.0),
            rolled(board.0) || exists|i: int|
                0 <= i < final(self).words().len() && spells_across(
                    board.0,
                    string_bytes(#[trigger] final(self).words()[i]),
                ),
            final(self).played() % SUPERWORD_EVERY == 0 && final(self).words().len() > 0 && (forall|i: int|
                0 <= i < final(self).words().len() ==> (tiles_of(string_bytes(#[trigger] final(self).words()[i]))
                    matches Some(t) && t.len() == 16)) ==> exists|i: int|
                0 <= i < final(self).words().len() && spells_across(
                    board.0,
                    string_bytes(#[trigger] final(self).words()[i]),
                ),
    {
        self.played = self.played + 1;
        if self.played % SUPERWORD_EVERY == 0 {
            if let Some(word) = pick_one(rng, &self.superwords) {
                let word = word.clone();
                let text = word.as_str();
                proof {
                    let i = choose|i: int| 0 <= i < self.superwords@.len() && self.superwords@[i] == word;
                    assert(string_bytes(self.superwords@[i]) == text.spec_bytes());
                }
                if let Some((grid, words)) = build_superword_board(dict, text, rng) {
                    return (grid, words, None);
                }
            }
        }
        generate_board_local(dict, rng)
    }
}


// --- themed boards -------------------------------------------------------------

/// Letters weighted roughly by English frequency, for changing a tile.
pub const WEIGHTED_LETTERS: [&'static str; 25] = [
    "a", "b", "c", "d", "e", "f", "g", "h", "i", "j", "k", "l", "m", "n", "o", "p", "r", "s", "t", "u", "v",
    "w", "x", "y", "z",
];

/// The weight of each of `WEIGHTED_LETTERS`.
pub const LETTER_WEIGHTS: [u32; 25] = [
    82, 15, 28, 43, 127, 22, 20, 61, 70, 2, 8, 40, 24, 67, 75, 19, 60, 63, 91, 28, 10, 24, 2, 20, 1,
];

/// The weights of the first `k` letters together.
pub open spec fn weight_before(k: nat) -> nat
    decreases k,
{
    if k == 0 {
        0
    } else {
        weight_before((k - 1) as nat) + LETTER_WEIGHTS[k - 1] as nat
    }
}

/// All the weights together.
pub const TOTAL_WEIGHT: u32 = 1002;

proof fn lemma_total_weight()
    ensures
        weight_before(25) == TOTAL_WEIGHT,
{
    reveal_with_fuel(weight_before, 26);
}

/// The letter a draw of `pick` out of the total weight lands on: each letter
/// takes a run of draws as long as its weight, in alphabetical order.
pub fn letter_for_pick(pick: u32) -> (letter: &'static str)
    requires
        pick < TOTAL_WEIGHT,
    ensures
        exists|i: int| 0 <= i < 25 && weight_before(i as nat) <= pick < weight_before((i + 1) as nat)
            && letter == WEIGHTED_LETTERS[i],
{
    proof {
        lemma_total_weight();
    }
    let mut left: u32 = pick;
    let mut i: usize = 0;
    while i < 25
        invariant
            0 <= i <= 25,
            weight_before(25) == TOTAL_WEIGHT,
            pick < TOTAL_WEIGHT,
            weight_before(i as nat) <= pick,
            left == pick - weight_before(i as nat),
        decreases 25 - i,
    {
        if left < LETTER_WEIGHTS[i] {
            return WEIGHTED_LETTERS[i];
        }
        left = left - LETTER_WEIGHTS[i];
        i += 1;
    }
    proof {
        assert(false);
    }
    "e"
}

/// A letter drawn by weight: a draw below the total weight, and the letter it
/// lands on.
pub fn weighted_letter(rng: &mut StdRng) -> (letter: &'static str)
    ensures
        exists|i: int| 0 <= i < 25 && letter == WEIGHTED_LETTERS[i],
{
    let pick = below(rng, TOTAL_WEIGHT as usize) as u32;
    letter_for_pick(pick)
}

/// How good a candidate themed board is, and whether it is good enough.
pub struct Scored {
    pub score: u128,
    pub words: BoardWords,
    pub done: bool,
}

/// The smaller of `a` and `b`.
pub open spec fn least(a: nat, b: nat) -> nat {
    if a <= b {
        a
    } else {
        b
    }
}

/// A themed board's score, from how many theme words it holds, how many common
/// words, how many of those are long, and how little its least-used tile is
/// used. Theme words dominate until there are enough of them; the quality bar's
/// three parts pull the board toward playable the whole way.
pub open spec fn theme_board_score(themed: nat, common: nat, long: nat, worst: nat) -> nat {
    100 * least(themed, THEME_WORDS_REQUIRED as nat) + 5 * (if themed > THEME_WORDS_REQUIRED {
        (themed - THEME_WORDS_REQUIRED) as nat
    } else {
        0
    }) + least(common, crate::game::MIN_SOLUTIONS as nat) + 15 * least(long, crate::game::MIN_LONG_SOLUTIONS as nat)
        + 30 * least(worst, crate::game::MIN_TILE_COVERAGE as nat)
}

/// `worst` is how often the least-used tile of `words` is used.
pub open spec fn least_coverage(words: BoardWords, worst: nat) -> bool {
    &&& exists|r: int, c: int| 0 <= r < 4 && 0 <= c < 4 && worst == words.coverage[r][c]
    &&& forall|r: int, c: int| 0 <= r < 4 && 0 <= c < 4 ==> worst <= #[trigger] words.coverage[r][c]
}

/// Every tile shows something.
pub fn tiles_filled(grid: &Grid) -> (filled: bool)
    ensures
        filled == tiles_ok(*grid),
{
    let mut s: usize = 0;
    while s < 16
        invariant
            0 <= s <= 16,
            forall|p: Position| in_board(p) && p.row * 4 + p.col < s ==> (#[trigger] tile(*grid, p)).len() > 0,
        decreases 16 - s,
    {
        let p = Position { row: s / 4, col: s % 4 };
        if grid[s / 4][s % 4].letters.as_bytes().len() == 0 {
            proof {
                assert(in_board(p));
                assert(tile(*grid, p).len() == 0);
            }
            return false;
        }
        proof {
            assert forall|q: Position| in_board(q) && q.row * 4 + q.col < s + 1 implies (#[trigger] tile(
                *grid,
                q,
            )).len() > 0 by {
                if q.row * 4 + q.col == s {
                    assert(q == p);
                }
            }
        }
        s += 1;
    }
    true
}

/// Solve a candidate themed board and score it.
#[verifier::spinoff_prover]
pub fn score_theme_board(dict: &Dictionary, theme: &crate::themes::Theme, grid: &Grid) -> (scored: Scored)
    requires
        dict.wf(),
    ensures
        solves(*grid, *dict, scored.words),
        ranked(bytes_of(scored.words.theme@)),
        forall|w: Seq<u8>|
            #[trigger] bytes_of(scored.words.theme@).contains(w) <==> (bytes_of(scored.words.common@).contains(w)
                || bytes_of(scored.words.obscure@).contains(w)) && bytes_of(theme.all@).contains(w),
        exists|worst: nat|
            least_coverage(scored.words, worst) && scored.score == theme_board_score(
                scored.words.theme@.len(),
                scored.words.common@.len(),
                count_at_least(bytes_of(scored.words.common@), LONG_WORD_LEN as nat),
                worst,
            ),
        scored.done == (scored.words.theme@.len() >= THEME_WORDS_REQUIRED && good_board(scored.words)),
{
    let mut words = solve_board(dict, grid);
    words.theme = collect_theme_words(&words, theme);
    let themed = words.theme.len();
    let ghost all = bytes_of(words.common@);
    let mut long: usize = 0;
    let mut i: usize = 0;
    while i < words.common.len()
        invariant
            all == bytes_of(words.common@),
            0 <= i <= words.common@.len(),
            long == count_at_least(all.take(i as int), LONG_WORD_LEN as nat),
            long <= i,
        decreases words.common@.len() - i,
    {
        proof {
            assert(all.take(i + 1).drop_last() =~= all.take(i as int));
        }
        if words.common[i].as_str().as_bytes().len() >= LONG_WORD_LEN {
            long += 1;
        }
        i += 1;
    }
    proof {
        assert(all.take(i as int) =~= all);
    }
    let worst = worst_tile(&words);
    let required = THEME_WORDS_REQUIRED as u128;
    let t = themed as u128;
    let score: u128 = 100 * (if t < required {
        t
    } else {
        required
    }) + 5 * (if t > required {
        t - required
    } else {
        0
    }) + (if words.common.len() < crate::game::MIN_SOLUTIONS {
        words.common.len() as u128
    } else {
        crate::game::MIN_SOLUTIONS as u128
    }) + 15 * (if long < crate::game::MIN_LONG_SOLUTIONS {
        long as u128
    } else {
        crate::game::MIN_LONG_SOLUTIONS as u128
    }) + 30 * (if worst < crate::game::MIN_TILE_COVERAGE {
        worst as u128
    } else {
        crate::game::MIN_TILE_COVERAGE as u128
    });
    let done = themed >= THEME_WORDS_REQUIRED && board_is_good(&words);
    let out = Scored { score, words, done };
    proof {
        assert(least_coverage(out.words, worst as nat));
        assert(out.score == theme_board_score(
            out.words.theme@.len(),
            out.words.common@.len(),
            count_at_least(bytes_of(out.words.common@), LONG_WORD_LEN as nat),
            worst as nat,
        ));
    }
    out
}

/// Where a themed round's fallback starts in the rotation: at its own theme
/// when that is a rotation theme, and `None` for a seasonal one, which is tried
/// first and then falls back through the rotation from its first theme. A round
/// tries the rotation in order from there, wrapping round, and takes a plain
/// board after the last.
pub fn rotation_start(name: &str) -> (at: Option<usize>)
    ensures
        match at {
            Some(i) => i < 10 && ROTATION_THEMES[i as int].spec_bytes() == name.spec_bytes() && forall|j: int|
                0 <= j < i ==> ROTATION_THEMES[j].spec_bytes() != name.spec_bytes(),
            None => forall|j: int| 0 <= j < 10 ==> ROTATION_THEMES[j].spec_bytes() != name.spec_bytes(),
        },
{
    let mut i: usize = 0;
    while i < 10
        invariant
            0 <= i <= 10,
            forall|j: int| 0 <= j < i ==> ROTATION_THEMES[j].spec_bytes() != name.spec_bytes(),
        decreases 10 - i,
    {
        if crate::themes::same_bytes(ROTATION_THEMES[i].as_bytes(), name.as_bytes()) {
            return Some(i);
        }
        i += 1;
    }
    None
}

/// Which theme a themed round tries at one step of its fallback.
#[derive(Clone, Copy, Debug, PartialEq, Eq)]
pub enum ThemeTry {
    /// The round's own theme, when it is a seasonal one outside the rotation.
    Own,
    /// The rotation theme at this place in `ROTATION_THEMES`.
    Rotation(usize),
}

/// The theme a themed round named `name` tries at fallback step `step`, or
/// `None` once every theme has been tried and the round takes a plain board.
/// A rotation theme starts the rotation at itself and wraps round it once; a
/// seasonal theme is tried first, then the whole rotation from its first theme.
/// A theme that the round's themes lack, or whose board cannot be found, is
/// passed over for the next step.
pub fn theme_try(name: &str, step: usize) -> (next: Option<ThemeTry>)
    ensures
        (forall|j: int| 0 <= j < 10 ==> ROTATION_THEMES[j].spec_bytes() != name.spec_bytes()) ==> next == if step
            == 0 {
            Some(ThemeTry::Own)
        } else if step <= 10 {
            Some(ThemeTry::Rotation((step - 1) as usize))
        } else {
            None::<ThemeTry>
        },
        forall|s: int|
            0 <= s < 10 && #[trigger] ROTATION_THEMES[s].spec_bytes() == name.spec_bytes() && (forall|j: int|
                0 <= j < s ==> ROTATION_THEMES[j].spec_bytes() != name.spec_bytes()) ==> next == if step < 10 {
                Some(ThemeTry::Rotation(((s + step) % 10) as usize))
            } else {
                None::<ThemeTry>
            },
{
    match rotation_start(name) {
        None => {
            if step == 0 {
                Some(ThemeTry::Own)
            } else if step <= 10 {
                Some(ThemeTry::Rotation(step - 1))
            } else {
                None
            }
        },
        Some(start) => {
            proof {
                assert forall|s: int|
                    0 <= s < 10 && #[trigger] ROTATION_THEMES[s].spec_bytes() == name.spec_bytes() && (forall|j: int|
                        0 <= j < s ==> ROTATION_THEMES[j].spec_bytes() != name.spec_bytes()) implies s == start by {
                    if s < start {
                        assert(ROTATION_THEMES[s].spec_bytes() != name.spec_bytes());
                    } else if s > start {
                        assert(ROTATION_THEMES[start as int].spec_bytes() != name.spec_bytes());
                    }
                }
            }
            if step < 10 {
                Some(ThemeTry::Rotation((start + step) % 10))
            } else {
                None
            }
        },
    }
}

} // verus!
