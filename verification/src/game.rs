//! A round's rules: tracing adjacent tiles, scoring words and the letter bonus.

use vstd::prelude::*;
use vstd::string::StringSliceAdditionalSpecFns;
use rand::rngs::StdRng;
use crate::random::{below, seeded_draws, seeded_ranges, shuffle};
use vstd::seq_lib::group_to_multiset_ensures;
use crate::dictionary::Dictionary;
use crate::solver::{
    bytes_of, free_tiles, lemma_mask_empty, lemma_mask_holds, lemma_mask_push, mask_of_path, solve_board,
    solves, BoardWords,
};

verus! {

/// Tiles on a side of the board.
pub const SIZE: usize = 4;
/// A live round, in seconds. Everyone playing is on the same one at the same time.
pub const ROUND_SECONDS: u32 = 180;
/// How long the scorecard holds before the next round begins, in seconds.
pub const RESULTS_SECONDS: u32 = 30;
/// A board is only fun if there is plenty to find. Reroll until it clears these.
pub const MIN_SOLUTIONS: usize = 60;
pub const MIN_LONG_SOLUTIONS: usize = 4;
pub const LONG_WORD_LEN: usize = 6;
/// A superword fills the whole board: one word across all sixteen tiles.
pub const SUPERWORD_TILES: usize = 16;
/// What finding a superword is worth, whatever its length.
pub const SUPERWORD_POINTS: u32 = 20_000;
/// Obscure words score this many tenths of a common word's points.
pub const OBSCURE_TENTHS: u32 = 11;
/// Each letter used in a found word (a yellow star) earns this much...
pub const LETTER_USED_BONUS: u32 = 25;
/// ...each letter used in two or more (a green star) this much again...
pub const LETTER_REUSED_BONUS: u32 = 100;
/// ...and using every letter on the board this much more on top.
pub const FULL_BOARD_BONUS: u32 = 500;
/// A longest word at least this long makes an unthemed board a "Long" one.
pub const LONG_BOARD_LEN: usize = 10;
/// Attempts the dictionary-free derivation makes at a board that looks playable.
pub const DERIVE_ATTEMPTS: usize = 24;
/// Every tile has to appear in at least this many words.
pub const MIN_TILE_COVERAGE: u32 = 2;
/// Seeds tried before settling for the best board found.
pub const SEED_ATTEMPTS: u32 = 48;
/// Dice rolls tried before settling for the best board rolled.
pub const MAX_BOARD_ATTEMPTS: usize = 400;

/// One tile: usually one letter, but the `Qu` die puts two on a single tile.
#[derive(Clone, Copy)]
pub struct Cell {
    pub letters: &'static str,
}

/// The board, row by row.
pub type Grid = [[Cell; SIZE]; SIZE];

/// The letters on the tile at `p`.
pub open spec fn tile(grid: Grid, p: Position) -> Seq<u8> {
    grid[p.row as int][p.col as int].letters.spec_bytes()
}

pub open spec fn in_board(p: Position) -> bool {
    p.row < SIZE && p.col < SIZE
}

/// Every tile shows at least one letter.
pub open spec fn tiles_ok(grid: Grid) -> bool {
    forall|p: Position| in_board(p) ==> (#[trigger] tile(grid, p)).len() > 0
}

/// Every tile shows a face a die or a plant can put there.
pub open spec fn faces_ok(grid: Grid) -> bool {
    forall|p: Position| in_board(p) ==> is_face(#[trigger] tile(grid, p))
}

/// The letters a path over the board spells.
pub open spec fn spelled(grid: Grid, path: Seq<Position>) -> Seq<u8>
    decreases path.len(),
{
    if path.len() == 0 {
        Seq::empty()
    } else {
        spelled(grid, path.drop_last()) + tile(grid, path.last())
    }
}

/// On the board, no tile twice, each step to a touching tile.
pub open spec fn valid_path(path: Seq<Position>) -> bool {
    &&& forall|i: int| 0 <= i < path.len() ==> in_board(#[trigger] path[i])
    &&& forall|i: int, j: int| 0 <= i < j < path.len() ==> path[i] != path[j]
    &&& forall|i: int| 0 <= i < path.len() - 1 ==> adjacent(#[trigger] path[i], path[i + 1])
}

/// `path` traces `word`, through `through` when one is given.
pub open spec fn traces(grid: Grid, word: Seq<u8>, through: Option<Position>, path: Seq<Position>) -> bool {
    &&& 1 <= path.len()
    &&& valid_path(path)
    &&& spelled(grid, path) == word
    &&& (through matches Some(t) ==> path.contains(t))
}

/// `word` can be traced on the board.
pub open spec fn traceable(grid: Grid, word: Seq<u8>) -> bool {
    exists|path: Seq<Position>| traces(grid, word, None, path)
}

/// Some way of going on from `path` finishes tracing `word`.
pub open spec fn completes(grid: Grid, word: Seq<u8>, through: Option<Position>, path: Seq<Position>) -> bool {
    exists|rest: Seq<Position>| #[trigger] traces(grid, word, through, path + rest)
}

/// The `d`-th cell of the 3x3 block around `at` (row-major, `d` = 4 is `at`).
pub open spec fn around(at: Position, d: int) -> Position {
    Position { row: (at.row + d / 3 - 1) as usize, col: (at.col + d % 3 - 1) as usize }
}

/// The `d`-th cell around `at` is a neighbour on the board.
pub open spec fn around_ok(at: Position, d: int) -> bool {
    &&& 0 <= d < 9
    &&& d != 4
    &&& 0 <= at.row + d / 3 - 1 < SIZE
    &&& 0 <= at.col + d % 3 - 1 < SIZE
}

/// A tile on the board.
#[derive(Clone, Copy, PartialEq, Eq, Debug)]
pub struct Position {
    pub row: usize,
    pub col: usize,
}

/// The points a word of `len` letters is worth, before any bonus.
pub open spec fn points_for_len(len: nat) -> nat {
    if len <= 2 {
        0
    } else if len == 3 {
        100
    } else if len == 4 {
        400
    } else if len == 5 {
        800
    } else if len == 6 {
        1_400
    } else if len == 7 {
        1_800
    } else {
        (2_200 + 400 * (len - 8)) as nat
    }
}

/// Two distinct tiles that touch, diagonals included.
pub open spec fn adjacent(a: Position, b: Position) -> bool {
    let dr = a.row - b.row;
    let dc = a.col - b.col;
    -1 <= dr <= 1 && -1 <= dc <= 1 && (dr != 0 || dc != 0)
}

/// The payout curve: length is worth far more than volume.
pub fn word_points(len: usize) -> (points: u32)
    requires
        len <= 10_737_420,
    ensures
        points == points_for_len(len as nat),
{
    match len {
        0 | 1 | 2 => 0,
        3 => 100,
        4 => 400,
        5 => 800,
        6 => 1_400,
        7 => 1_800,
        _ => 2_200 + 400 * (len as u32 - 8),
    }
}

/// Whether two tiles touch: any of the eight neighbours, never the tile itself.
pub fn is_adjacent(a: Position, b: Position) -> (touching: bool)
    ensures
        touching == adjacent(a, b),
{
    let dr = if a.row >= b.row { a.row - b.row } else { b.row - a.row };
    let dc = if a.col >= b.col { a.col - b.col } else { b.col - a.col };
    dr <= 1 && dc <= 1 && (dr != 0 || dc != 0)
}


pub open spec fn is_lower_letter(b: u8) -> bool {
    97 <= b <= 122
}

/// What a tile can show: one letter a-z, or the two letters of the `Qu` die.
pub open spec fn is_face(s: Seq<u8>) -> bool {
    (s.len() == 1 && is_lower_letter(s[0])) || s == seq![113u8, 117u8]
}


pub proof fn lemma_spelled_concat(grid: Grid, a: Seq<Position>, b: Seq<Position>)
    ensures
        spelled(grid, a + b) == spelled(grid, a) + spelled(grid, b),
    decreases b.len(),
{
    if b.len() == 0 {
        assert(a + b =~= a);
    } else {
        assert((a + b).drop_last() =~= a + b.drop_last());
        lemma_spelled_concat(grid, a, b.drop_last());
    }
}

pub proof fn lemma_spelled_push(grid: Grid, a: Seq<Position>, p: Position)
    ensures
        spelled(grid, a.push(p)) == spelled(grid, a) + tile(grid, p),
{
    assert(a.push(p).drop_last() =~= a);
}

/// A path over tiles that each show a letter spells at least one letter a tile.
pub proof fn lemma_spelled_len(grid: Grid, p: Seq<Position>)
    requires
        tiles_ok(grid),
        forall|i: int| 0 <= i < p.len() ==> in_board(#[trigger] p[i]),
    ensures
        spelled(grid, p).len() >= p.len(),
    decreases p.len(),
{
    if p.len() > 0 {
        lemma_spelled_len(grid, p.drop_last());
        assert(in_board(p[p.len() - 1]));
    }
}

/// Whether `word[i..]` starts with `tile`.
fn starts_with_at(word: &[u8], i: usize, tile: &[u8]) -> (ok: bool)
    requires
        i <= word@.len(),
    ensures
        ok == (i + tile@.len() <= word@.len() && word@.subrange(i as int, i + tile@.len()) == tile@),
{
    let n = word.len();
    if tile.len() > n - i {
        return false;
    }
    let mut k: usize = 0;
    while k < tile.len()
        invariant
            n == word@.len(),
            i + tile@.len() <= n,
            0 <= k <= tile@.len(),
            forall|m: int| 0 <= m < k ==> word@[i + m] == tile@[m],
        decreases tile@.len() - k,
    {
        if word[i + k] != tile[k] {
            proof {
                assert(word@.subrange(i as int, i + tile@.len())[k as int] != tile@[k as int]);
            }
            return false;
        }
        k += 1;
    }
    proof {
        assert(word@.subrange(i as int, i + tile@.len()) =~= tile@);
    }
    true
}

/// Whether the path holds `at`.
fn path_holds(path: &Vec<Position>, at: Position) -> (found: bool)
    ensures
        found == path@.contains(at),
{
    let mut k: usize = 0;
    while k < path.len()
        invariant
            0 <= k <= path@.len(),
            forall|m: int| 0 <= m < k ==> path@[m] != at,
        decreases path@.len() - k,
    {
        if path[k].row == at.row && path[k].col == at.col {
            proof {
                assert(path@[k as int] == at);
            }
            return true;
        }
        k += 1;
    }
    false
}

/// Whether the path passes the tile `through` asks for, if any.
fn through_ok(path: &Vec<Position>, through: Option<Position>) -> (ok: bool)
    ensures
        ok == (through matches Some(t) ==> path@.contains(t)),
{
    match through {
        Some(t) => path_holds(path, t),
        None => true,
    }
}


/// Nothing goes on from a path that already holds the tile it steps to.
proof fn lemma_dead_repeat(grid: Grid, w: Seq<u8>, through: Option<Position>, pre: Seq<Position>, at: Position)
    requires
        pre.contains(at),
    ensures
        !completes(grid, w, through, pre.push(at)),
{
    let q = pre.push(at);
    assert forall|rest: Seq<Position>| !#[trigger] traces(grid, w, through, q + rest) by {
        let k = choose|k: int| 0 <= k < pre.len() && pre[k] == at;
        assert((q + rest)[k] == at && (q + rest)[pre.len() as int] == at);
    }
}

/// Nothing goes on from a tile whose letters are not the word's next ones.
proof fn lemma_dead_mismatch(grid: Grid, w: Seq<u8>, through: Option<Position>, pre: Seq<Position>, at: Position, i: int)
    requires
        0 <= i <= w.len(),
        spelled(grid, pre) == w.take(i),
        !(i + tile(grid, at).len() <= w.len() && w.subrange(i, i + tile(grid, at).len()) == tile(grid, at)),
    ensures
        !completes(grid, w, through, pre.push(at)),
{
    let q = pre.push(at);
    let letters = tile(grid, at);
    assert forall|rest: Seq<Position>| !#[trigger] traces(grid, w, through, q + rest) by {
        if traces(grid, w, through, q + rest) {
            lemma_spelled_concat(grid, q, rest);
            lemma_spelled_push(grid, pre, at);
            let sq = spelled(grid, q);
            assert(sq == w.take(i) + letters);
            assert(w == sq + spelled(grid, rest));
            assert(w.subrange(i, i + letters.len()) =~= letters);
        }
    }
}

/// Once the word is spelled, only a path through the asked-for tile will do.
proof fn lemma_dead_finished(grid: Grid, w: Seq<u8>, through: Option<Position>, q: Seq<Position>)
    requires
        tiles_ok(grid),
        spelled(grid, q) == w,
        !(through matches Some(t) ==> q.contains(t)),
    ensures
        !completes(grid, w, through, q),
{
    assert forall|rest: Seq<Position>| !#[trigger] traces(grid, w, through, q + rest) by {
        if traces(grid, w, through, q + rest) {
            lemma_spelled_concat(grid, q, rest);
            assert forall|k: int| 0 <= k < rest.len() implies in_board(#[trigger] rest[k]) by {
                assert(in_board((q + rest)[q.len() + k]));
            }
            lemma_spelled_len(grid, rest);
            assert(rest.len() == 0);
            assert(q + rest =~= q);
        }
    }
}

/// If no neighbour of the path's last tile goes on to finish the word, and the
/// word is not finished yet, nothing does.
proof fn lemma_dead_neighbours(grid: Grid, w: Seq<u8>, through: Option<Position>, q: Seq<Position>, at: Position, j: int)
    requires
        q.len() >= 1,
        q.last() == at,
        spelled(grid, q) == w.take(j),
        0 <= j < w.len(),
        forall|e: int|
            around_ok(at, e) ==> !#[trigger] completes(grid, w, through, q.push(around(at, e))),
    ensures
        !completes(grid, w, through, q),
{
    assert forall|rest: Seq<Position>| !#[trigger] traces(grid, w, through, q + rest) by {
        if traces(grid, w, through, q + rest) {
            if rest.len() == 0 {
                assert(q + rest =~= q);
                assert(w.take(j).len() < w.len());
            } else {
                let n = rest[0];
                assert((q + rest)[q.len() - 1] == at);
                assert((q + rest)[q.len() as int] == n);
                assert(adjacent(at, n));
                assert(in_board(n));
                let e = ((n.row - at.row + 1) * 3 + (n.col - at.col + 1)) as int;
                assert(around(at, e) == n);
                assert(around_ok(at, e));
                assert(q + rest =~= q.push(n) + rest.drop_first());
                assert(traces(grid, w, through, q.push(n) + rest.drop_first()));
                assert(completes(grid, w, through, q.push(around(at, e))));
            }
        }
    }
}

/// Go on tracing `word[i..]` from the tile `at`, after the tiles of `path`.
/// On success `path` holds a whole tracing; otherwise it is left as it was.
fn trace_step(
    grid: &Grid,
    word: &[u8],
    i: usize,
    at: Position,
    through: Option<Position>,
    path: &mut Vec<Position>,
) -> (found: bool)
    requires
        valid_path(old(path)@),
        spelled(*grid, old(path)@) == word@.take(i as int),
        i <= word@.len(),
        in_board(at),
        old(path)@.len() == 0 || adjacent(old(path)@.last(), at),
    ensures
        found ==> traces(*grid, word@, through, final(path)@) && final(path)@.len() > old(path)@.len()
            && final(path)@.take(old(path)@.len() as int) == old(path)@ && final(path)@[old(path)@.len() as int] == at,
        !found ==> final(path)@ == old(path)@,
        !found && (tiles_ok(*grid) || through is None) ==> !completes(*grid, word@, through, old(path)@.push(at)),
    decreases word@.len() - i, 16 - old(path)@.len(),
{
    let ghost g = *grid;
    let ghost pre = path@;
    let ghost w = word@;
    let ghost q = pre.push(at);
    if path_holds(path, at) {
        proof {
            lemma_dead_repeat(g, w, through, pre, at);
        }
        return false;
    }
    let n = word.len();
    let letters = grid[at.row][at.col].letters.as_bytes();
    proof {
        assert(letters@ == tile(g, at));
    }
    if !starts_with_at(word, i, letters) {
        proof {
            lemma_dead_mismatch(g, w, through, pre, at, i as int);
        }
        return false;
    }
    let j = i + letters.len();
    proof {
        assert(j <= w.len());
    }
    path.push(at);
    proof {
        lemma_spelled_push(g, pre, at);
        assert(w.take(i as int) + letters@ =~= w.take(j as int));
        assert(path@ == q);
        assert(valid_path(q)) by {
            assert forall|a: int, b: int| 0 <= a < b < q.len() implies q[a] != q[b] by {
                if b == pre.len() {
                    assert(pre[a] != at);
                }
            }
        }
    }
    if j == n {
        if through_ok(path, through) {
            proof {
                assert(w.take(j as int) =~= w);
                assert(path@.take(pre.len() as int) =~= pre);
            }
            return true;
        }
        proof {
            assert(w.take(j as int) =~= w);
            if tiles_ok(g) {
                lemma_dead_finished(g, w, through, q);
            }
        }
    } else {
        proof {
            lemma_path_fits(q);
        }
        let mut d: usize = 0;
        while d < 9
            invariant
                q.len() <= 16,
                g == *grid,
                w == word@,
                path@ == q,
                q == pre.push(at),
                pre == old(path)@,
                valid_path(q),
                spelled(g, q) == w.take(j as int),
                i <= j < w.len(),
                q.len() >= 1,
                q.last() == at,
                in_board(at),
                0 <= d <= 9,
                tiles_ok(g) || through is None ==> forall|e: int|
                    e < d && around_ok(at, e) ==> !#[trigger] completes(
                        g,
                        w,
                        through,
                        q.push(around(at, e)),
                    ),
            decreases 9 - d,
        {
            let rr = at.row + d / 3;
            let cc = at.col + d % 3;
            if d != 4 && rr >= 1 && rr <= SIZE && cc >= 1 && cc <= SIZE {
                let next = Position { row: rr - 1, col: cc - 1 };
                proof {
                    assert(d / 3 <= 2 && d % 3 <= 2);
                    assert(d / 3 == 1 && d % 3 == 1 ==> d == 4);
                    assert(next == around(at, d as int));
                    assert(adjacent(q.last(), next));
                }
                if trace_step(grid, word, j, next, through, path) {
                    proof {
                        assert(path@.take(q.len() as int) == q);
                        assert(path@.take(pre.len() as int) =~= path@.take(q.len() as int).take(pre.len() as int));
                        assert(q.take(pre.len() as int) =~= pre);
                        assert(path@[pre.len() as int] == path@.take(q.len() as int)[pre.len() as int]);
                    }
                    return true;
                }
            }
            d += 1;
        }
        proof {
            if tiles_ok(g) || through is None {
                lemma_dead_neighbours(g, w, through, q, at, j as int);
            }
        }
    }
    path.pop();
    proof {
        assert(path@ =~= pre);
    }
    false
}

/// A path spelling `word`, through `through` when one is given.
fn trace(grid: &Grid, word: &[u8], through: Option<Position>) -> (found: Option<Vec<Position>>)
    ensures
        found matches Some(p) ==> traces(*grid, word@, through, p@),
        found is None && (tiles_ok(*grid) || through is None) ==> forall|p: Seq<Position>|
            !traces(*grid, word@, through, p),
{
    let mut path: Vec<Position> = Vec::new();
    let mut k: usize = 0;
    while k < SIZE * SIZE
        invariant
            path@ == Seq::<Position>::empty(),
            0 <= k <= SIZE * SIZE,
            tiles_ok(*grid) || through is None ==> forall|m: int|
                0 <= m < k ==> !#[trigger] completes(
                    *grid,
                    word@,
                    through,
                    seq![Position { row: (m / 4) as usize, col: (m % 4) as usize }],
                ),
        decreases SIZE * SIZE - k,
    {
        let start = Position { row: k / SIZE, col: k % SIZE };
        proof {
            assert(spelled(*grid, path@) == word@.take(0)) by {
                assert(word@.take(0) =~= Seq::<u8>::empty());
            }
            assert(path@.push(start) =~= seq![start]);
        }
        if trace_step(grid, word, 0, start, through, &mut path) {
            return Some(path);
        }
        k += 1;
    }
    proof {
        assert forall|p: Seq<Position>| (tiles_ok(*grid) || through is None) implies !traces(*grid, word@, through, p) by {
            if traces(*grid, word@, through, p) {
                let s = p[0];
                assert(in_board(s));
                let m = (s.row * 4 + s.col) as int;
                assert(seq![Position { row: (m / 4) as usize, col: (m % 4) as usize }] =~= seq![s]);
                assert(seq![s] + p.drop_first() =~= p);
                assert(traces(*grid, word@, through, seq![s] + p.drop_first()));
                assert(completes(*grid, word@, through, seq![Position { row: (m / 4) as usize, col: (m % 4) as usize }]));
            }
        }
    }
    None
}

/// A path spelling `word` across `grid`, if there is one. A tile that shows
/// nothing may lie on the path.
pub fn find_path(grid: &Grid, word: &str) -> (found: Option<Vec<Position>>)
    ensures
        found.is_some() == traceable(*grid, word.spec_bytes()),
        found matches Some(p) ==> traces(*grid, word.spec_bytes(), None, p@),
{
    trace(grid, word.as_bytes(), None)
}

/// A path spelling `word` across `grid` that passes through `through`, if any.
/// The search stops where the word's letters run out, so on a board with a
/// tile that shows nothing, a path that reaches `through` only over such tiles
/// after the word is spelled is not looked for: there, a path found is a
/// tracing through `through`, and none found says nothing more.
pub fn path_through(grid: &Grid, word: &str, through: Position) -> (found: Option<Vec<Position>>)
    ensures
        tiles_ok(*grid) ==> found.is_some() == (exists|p: Seq<Position>|
            traces(*grid, word.spec_bytes(), Some(through), p)),
        found matches Some(p) ==> traces(*grid, word.spec_bytes(), Some(through), p@),
{
    trace(grid, word.as_bytes(), Some(through))
}


/// How many tiles, in row-major order among the first `n`, were used at least
/// `k` times.
pub open spec fn tiles_used_at_least(uses: [[u32; SIZE]; SIZE], k: u32, n: nat) -> nat
    decreases n,
{
    if n == 0 {
        0
    } else {
        let i = n - 1;
        tiles_used_at_least(uses, k, i as nat) + if uses[i / 4][i % 4] >= k {
            1nat
        } else {
            0nat
        }
    }
}

/// The letter bonus a board's tile uses have earned.
pub open spec fn bonus_for(uses: [[u32; SIZE]; SIZE]) -> nat {
    let used = tiles_used_at_least(uses, 1, 16);
    let reused = tiles_used_at_least(uses, 2, 16);
    used * 25 + reused * 100 + if used == 16 {
        500nat
    } else {
        0nat
    }
}

proof fn lemma_tiles_used_bound(uses: [[u32; SIZE]; SIZE], k: u32, n: nat)
    ensures
        tiles_used_at_least(uses, k, n) <= n,
    decreases n,
{
    if n > 0 {
        lemma_tiles_used_bound(uses, k, (n - 1) as nat);
    }
}

/// The letter bonus for how often each tile has been used: every used letter,
/// every reused letter, and the whole board.
pub fn letter_bonus(uses: &[[u32; SIZE]; SIZE]) -> (bonus: u32)
    ensures
        bonus == bonus_for(*uses),
{
    let mut used: u32 = 0;
    let mut reused: u32 = 0;
    let mut i: usize = 0;
    while i < SIZE * SIZE
        invariant
            0 <= i <= 16,
            used == tiles_used_at_least(*uses, 1, i as nat),
            reused == tiles_used_at_least(*uses, 2, i as nat),
        decreases 16 - i,
    {
        proof {
            lemma_tiles_used_bound(*uses, 1, i as nat);
            lemma_tiles_used_bound(*uses, 2, i as nat);
        }
        let u = uses[i / SIZE][i % SIZE];
        if u >= 1 {
            used += 1;
        }
        if u >= 2 {
            reused += 1;
        }
        i += 1;
    }
    proof {
        lemma_tiles_used_bound(*uses, 1, 16);
        lemma_tiles_used_bound(*uses, 2, 16);
    }
    let full = if used == 16 { FULL_BOARD_BONUS } else { 0 };
    used * LETTER_USED_BONUS + reused * LETTER_REUSED_BONUS + full
}

/// Every tile used at least `k` times, when every tile is used at least `k`
/// times.
proof fn lemma_tiles_all_used(uses: [[u32; SIZE]; SIZE], k: u32, n: nat)
    requires
        n <= 16,
        forall|r: int, c: int| 0 <= r < 4 && 0 <= c < 4 ==> #[trigger] uses[r][c] >= k,
    ensures
        tiles_used_at_least(uses, k, n) == n,
    decreases n,
{
    if n > 0 {
        lemma_tiles_all_used(uses, k, (n - 1) as nat);
        let i = n - 1;
        assert(uses[i / 4][i % 4] >= k);
    }
}

/// The letter bonus is worth up to 2,500 a round: 25 for each of the sixteen
/// letters, 100 more for each reused, and 500 for the whole board; exactly that
/// once every letter has been used twice.
pub proof fn lemma_letter_bonus_is_at_most_2500(uses: [[u32; SIZE]; SIZE])
    ensures
        bonus_for(uses) <= 2_500,
        (forall|r: int, c: int| 0 <= r < 4 && 0 <= c < 4 ==> #[trigger] uses[r][c] >= 2) ==> bonus_for(uses) == 2_500,
{
    lemma_tiles_used_bound(uses, 1, 16);
    lemma_tiles_used_bound(uses, 2, 16);
    if forall|r: int, c: int| 0 <= r < 4 && 0 <= c < 4 ==> #[trigger] uses[r][c] >= 2 {
        lemma_tiles_all_used(uses, 2, 16);
        assert forall|r: int, c: int| 0 <= r < 4 && 0 <= c < 4 implies #[trigger] uses[r][c] >= 1 by {
            assert(uses[r][c] >= 2);
        }
        lemma_tiles_all_used(uses, 1, 16);
    }
}

/// The payout table: a word of two letters or fewer is worth nothing, of
/// three letters 100, four 400, five 800, six 1,400, seven 1,800 and eight
/// 2,200, and each letter past eight adds 400.
pub proof fn lemma_payout_table(len: nat)
    ensures
        len <= 2 ==> points_for_len(len) == 0,
        len == 3 ==> points_for_len(len) == 100,
        len == 4 ==> points_for_len(len) == 400,
        len == 5 ==> points_for_len(len) == 800,
        len == 6 ==> points_for_len(len) == 1_400,
        len == 7 ==> points_for_len(len) == 1_800,
        len >= 8 ==> points_for_len(len) == 2_200 + 400 * (len - 8),
{
}

/// What a word scores, by its kind: a superword (sixteen tiles or more) 20,000
/// flat; an obscure word its length's points and a tenth more, rounded down;
/// any other word its length's points.
pub proof fn lemma_word_scores(word: Seq<u8>, obscure: bool)
    ensures
        SUPERWORD_POINTS == 20_000,
        SUPERWORD_TILES == 16,
        (crate::rotation::tiles_of(word) matches Some(t) && t.len() >= 16) ==> word_score_for(word, obscure)
            == 20_000,
        !(crate::rotation::tiles_of(word) matches Some(t) && t.len() >= 16) ==> word_score_for(word, obscure) == if obscure {
            points_for_len(word.len()) * 11 / 10
        } else {
            points_for_len(word.len())
        },
{
}

/// The uses of the sixteen tiles, row by row.
pub open spec fn uses_in_order(uses: [[u32; SIZE]; SIZE]) -> Seq<u32> {
    Seq::new(16, |i: int| uses[i / 4][i % 4])
}

proof fn lemma_count_is_filter(uses: [[u32; SIZE]; SIZE], k: u32, n: nat)
    requires
        n <= 16,
    ensures
        tiles_used_at_least(uses, k, n) == uses_in_order(uses).take(n as int).filter(|u: u32| u >= k).len(),
        tiles_used_at_least(uses, k, n) == n ==> forall|i: int| 0 <= i < n ==> #[trigger] uses[i / 4][i % 4] >= k,
    decreases n,
{
    reveal(Seq::filter);
    let s = uses_in_order(uses).take(n as int);
    if n == 0 {
        assert(s =~= Seq::<u32>::empty());
    } else {
        lemma_count_is_filter(uses, k, (n - 1) as nat);
        lemma_tiles_used_bound(uses, k, (n - 1) as nat);
        let pred = |u: u32| u >= k;
        assert(s.drop_last() =~= uses_in_order(uses).take(n - 1));
        assert(s.last() == uses[(n - 1) / 4][(n - 1) % 4]);
        assert(s.filter(pred).len() == s.drop_last().filter(pred).len() + if pred(s.last()) {
            1int
        } else {
            0int
        });
    }
}

/// The letter bonus pays 25 for each letter of the board used, 100 more for
/// each used twice or more, and 500 more once every letter has been used:
/// while some letter is unused there is no whole-board bonus.
pub proof fn lemma_letter_bonus_pays(uses: [[u32; SIZE]; SIZE])
    ensures
        ({
            let used = uses_in_order(uses).filter(|u: u32| u >= 1).len();
            let reused = uses_in_order(uses).filter(|u: u32| u >= 2).len();
            &&& (exists|r: int, c: int| 0 <= r < 4 && 0 <= c < 4 && #[trigger] uses[r][c] == 0) ==> bonus_for(uses)
                == 25 * used + 100 * reused
            &&& (forall|r: int, c: int| 0 <= r < 4 && 0 <= c < 4 ==> #[trigger] uses[r][c] >= 1) ==> bonus_for(uses)
                == 25 * 16 + 100 * reused + 500
        }),
        LETTER_USED_BONUS == 25,
        LETTER_REUSED_BONUS == 100,
        FULL_BOARD_BONUS == 500,
{
    lemma_count_is_filter(uses, 1, 16);
    lemma_count_is_filter(uses, 2, 16);
    assert(uses_in_order(uses).take(16) =~= uses_in_order(uses));
    if exists|r: int, c: int| 0 <= r < 4 && 0 <= c < 4 && #[trigger] uses[r][c] == 0 {
        let (r, c) = choose|r: int, c: int| 0 <= r < 4 && 0 <= c < 4 && #[trigger] uses[r][c] == 0;
        let i = r * 4 + c;
        assert(i / 4 == r && i % 4 == c);
        assert(tiles_used_at_least(uses, 1, 16) != 16);
    }
    if forall|r: int, c: int| 0 <= r < 4 && 0 <= c < 4 ==> #[trigger] uses[r][c] >= 1 {
        lemma_tiles_all_used(uses, 1, 16);
    }
}

/// Length dominates volume: a longer word always scores more than a shorter
/// one, one of seven letters more than four of three, and past eight letters
/// each letter adds 400.
pub proof fn lemma_longer_words_score_more(a: nat, b: nat)
    requires
        3 <= a < b,
    ensures
        points_for_len(a) < points_for_len(b),
        points_for_len(7) > 4 * points_for_len(3),
        b >= 9 ==> points_for_len(b) == points_for_len((b - 1) as nat) + 400,
{
}

/// What a word scores: a superword its flat bonus, anything else its length's
/// points, with 10% more for an obscure word.
pub open spec fn word_score_for(word: Seq<u8>, obscure: bool) -> nat {
    if crate::rotation::tiles_of(word) matches Some(t) && t.len() >= SUPERWORD_TILES {
        SUPERWORD_POINTS as nat
    } else if obscure {
        points_for_len(word.len()) * 11 / 10
    } else {
        points_for_len(word.len())
    }
}

/// What a word scores. The server scores submissions the same way; the two must
/// agree or the leaderboard will not match the scorecard.
pub fn score_word(word: &str, obscure: bool) -> (points: u32)
    requires
        word.spec_bytes().len() <= 10_737_420,
        obscure ==> points_for_len(word.spec_bytes().len()) * 11 <= u32::MAX,
    ensures
        points == word_score_for(word.spec_bytes(), obscure),
{
    let tiles = crate::rotation::word_tiles(word);
    let superword = match &tiles {
        Some(t) => t.len() >= SUPERWORD_TILES,
        None => false,
    };
    if superword {
        return SUPERWORD_POINTS;
    }
    let points = word_points(word.len());
    if obscure {
        points * OBSCURE_TENTHS / 10
    } else {
        points
    }
}

/// A board as the server sends it -- sixteen tiles, row by row -- in the form
/// the game plays on. A tile is any single letter or `qu`, in either case;
/// anything else is refused.
pub open spec fn parsed_tile(t: Seq<u8>) -> Option<Seq<u8>> {
    let l = crate::dictionary::lowered(t);
    if is_face(l) {
        Some(l)
    } else {
        None
    }
}

/// The face a tile's text names, in either case, if it names one.
fn parse_tile(tile: &str) -> (face: Option<&'static str>)
    ensures
        match face {
            Some(f) => parsed_tile(tile.spec_bytes()) == Some(f.spec_bytes()),
            None => parsed_tile(tile.spec_bytes()) is None,
        },
{
    let b = tile.as_bytes();
    let ghost l = crate::dictionary::lowered(b@);
    proof {
        assert(l.len() == b@.len());
    }
    let lower = |c: u8| -> (r: u8)
        ensures
            r == crate::dictionary::lower_byte(c),
        { if 65 <= c && c <= 90 { c + 32 } else { c } };
    if b.len() == 1 {
        let c = lower(b[0]);
        if is_lower_letter_byte(c) {
            let f = letter_face(c);
            proof {
                assert(l =~= seq![c]);
            }
            return Some(f);
        }
        proof {
            assert(l[0] == c);
        }
        return None;
    }
    if b.len() == 2 {
        let c0 = lower(b[0]);
        let c1 = lower(b[1]);
        proof {
            assert(l[0] == c0 && l[1] == c1);
        }
        if c0 == 113 && c1 == 117 {
            let f = qu_face();
            proof {
                assert(l =~= seq![113u8, 117u8]);
            }
            return Some(f);
        }
        return None;
    }
    None
}

fn is_lower_letter_byte(b: u8) -> (r: bool)
    ensures
        r == is_lower_letter(b),
{
    97 <= b && b <= 122
}

/// The board a server message holds, if it holds sixteen readable tiles.
pub fn parse_grid(tiles: &Vec<String>) -> (grid: Option<Grid>)
    ensures
        grid.is_some() == (tiles@.len() == 16 && forall|i: int|
            0 <= i < 16 ==> (#[trigger] parsed_tile(crate::game::string_bytes(tiles@[i]))) is Some),
        grid matches Some(g) ==> faces_ok(g) && forall|p: Position|
            #![trigger tile(g, p)]
            in_board(p) ==> parsed_tile(crate::game::string_bytes(tiles@[p.row * 4 + p.col])) == Some(
                tile(g, p),
            ),
{
    if tiles.len() != SIZE * SIZE {
        return None;
    }
    let blank = Cell { letters: letter_face(97) };
    let mut grid: Grid = [[blank; SIZE]; SIZE];
    let mut i: usize = 0;
    while i < SIZE * SIZE
        invariant
            tiles@.len() == 16,
            0 <= i <= 16,
            forall|k: int|
                0 <= k < i ==> (#[trigger] parsed_tile(string_bytes(tiles@[k]))) is Some,
            forall|p: Position|
                #![trigger tile(grid, p)]
                in_board(p) && p.row * 4 + p.col < i ==> parsed_tile(string_bytes(tiles@[p.row * 4 + p.col])) == Some(
                    tile(grid, p),
                ),
        decreases 16 - i,
    {
        let t = tiles[i].as_str();
        proof {
            assert(t.spec_bytes() == string_bytes(tiles@[i as int]));
        }
        match parse_tile(t) {
            Some(f) => {
                let r = i / SIZE;
                let c = i % SIZE;
                let ghost before = grid;
                let mut row = grid[r];
                row[c] = Cell { letters: f };
                grid[r] = row;
                proof {
                    assert(grid[r as int][c as int].letters == f);
                    assert forall|x: int, y: int| 0 <= x < 4 && 0 <= y < 4 && (x != r || y != c) implies grid[x][y] == before[x][y] by {
                        if x == r {
                            assert(grid[x] == row);
                        }
                    }
                    assert forall|p: Position|
                        #![trigger tile(grid, p)]
                        in_board(p) && p.row * 4 + p.col < i + 1 implies parsed_tile(string_bytes(tiles@[p.row * 4 + p.col])) == Some(
                            tile(grid, p),
                        ) by {
                        if p.row * 4 + p.col == i {
                            assert(p.row == r && p.col == c);
                        } else {
                            assert(p.row != r || p.col != c);
                            assert(grid[p.row as int][p.col as int] == before[p.row as int][p.col as int]);
                            assert(tile(grid, p) == tile(before, p));
                        }
                    }
                }
            },
            None => {
                proof {
                    assert(parsed_tile(string_bytes(tiles@[i as int])) is None);
                }
                return None;
            },
        }
        i += 1;
    }
    proof {
        assert forall|p: Position| in_board(p) implies is_face(#[trigger] tile(grid, p)) by {
            assert(parsed_tile(string_bytes(tiles@[p.row * 4 + p.col])) == Some(tile(grid, p)));
        }
    }
    Some(grid)
}

/// The bytes of a string's text.
pub open spec fn string_bytes(s: String) -> Seq<u8> {
    vstd::utf8::encode_utf8(s@)
}

/// The face for one letter, as a tile shows it.
pub fn letter_face(b: u8) -> (face: &'static str)
    requires
        is_lower_letter(b),
    ensures
        face.spec_bytes() == seq![b],
{
    let face = match b {
        97 => {
            proof {
                reveal_strlit("a");
            }
            "a"
        },
        98 => {
            proof {
                reveal_strlit("b");
            }
            "b"
        },
        99 => {
            proof {
                reveal_strlit("c");
            }
            "c"
        },
        100 => {
            proof {
                reveal_strlit("d");
            }
            "d"
        },
        101 => {
            proof {
                reveal_strlit("e");
            }
            "e"
        },
        102 => {
            proof {
                reveal_strlit("f");
            }
            "f"
        },
        103 => {
            proof {
                reveal_strlit("g");
            }
            "g"
        },
        104 => {
            proof {
                reveal_strlit("h");
            }
            "h"
        },
        105 => {
            proof {
                reveal_strlit("i");
            }
            "i"
        },
        106 => {
            proof {
                reveal_strlit("j");
            }
            "j"
        },
        107 => {
            proof {
                reveal_strlit("k");
            }
            "k"
        },
        108 => {
            proof {
                reveal_strlit("l");
            }
            "l"
        },
        109 => {
            proof {
                reveal_strlit("m");
            }
            "m"
        },
        110 => {
            proof {
                reveal_strlit("n");
            }
            "n"
        },
        111 => {
            proof {
                reveal_strlit("o");
            }
            "o"
        },
        112 => {
            proof {
                reveal_strlit("p");
            }
            "p"
        },
        113 => {
            proof {
                reveal_strlit("q");
            }
            "q"
        },
        114 => {
            proof {
                reveal_strlit("r");
            }
            "r"
        },
        115 => {
            proof {
                reveal_strlit("s");
            }
            "s"
        },
        116 => {
            proof {
                reveal_strlit("t");
            }
            "t"
        },
        117 => {
            proof {
                reveal_strlit("u");
            }
            "u"
        },
        118 => {
            proof {
                reveal_strlit("v");
            }
            "v"
        },
        119 => {
            proof {
                reveal_strlit("w");
            }
            "w"
        },
        120 => {
            proof {
                reveal_strlit("x");
            }
            "x"
        },
        121 => {
            proof {
                reveal_strlit("y");
            }
            "y"
        },
        _ => {
            proof {
                reveal_strlit("z");
            }
            "z"
        },
    };
    proof {
        broadcast use vstd::string::is_ascii_spec_bytes;

        assert(vstd::string::is_ascii(face));
        assert(face.spec_bytes() =~= seq![b]);
    }
    face
}

/// The face of the `Qu` die.
pub fn qu_face() -> (face: &'static str)
    ensures
        face.spec_bytes() == seq![113u8, 117u8],
{
    let face = "qu";
    proof {
        reveal_strlit("qu");
        broadcast use vstd::string::is_ascii_spec_bytes;

        assert(vstd::string::is_ascii(face));
        assert(face.spec_bytes() =~= seq![113u8, 117u8]);
    }
    face
}

/// The sixteen dice, one byte per face; `q` stands for the `Qu` face. Rolling
/// real dice gives a far better letter mix than sampling letters one by one.
pub const DICE: [[u8; 6]; 16] = [
    [97u8, 97u8, 101u8, 101u8, 103u8, 110u8],
    [97u8, 98u8, 98u8, 106u8, 111u8, 111u8],
    [97u8, 99u8, 104u8, 111u8, 112u8, 115u8],
    [97u8, 102u8, 102u8, 107u8, 112u8, 115u8],
    [97u8, 111u8, 111u8, 116u8, 116u8, 119u8],
    [99u8, 105u8, 109u8, 111u8, 116u8, 117u8],
    [100u8, 101u8, 105u8, 108u8, 114u8, 120u8],
    [100u8, 101u8, 108u8, 114u8, 118u8, 121u8],
    [100u8, 105u8, 115u8, 116u8, 116u8, 121u8],
    [101u8, 101u8, 103u8, 104u8, 110u8, 119u8],
    [101u8, 101u8, 105u8, 110u8, 115u8, 117u8],
    [101u8, 104u8, 114u8, 116u8, 118u8, 119u8],
    [101u8, 105u8, 111u8, 115u8, 115u8, 116u8],
    [101u8, 108u8, 114u8, 116u8, 116u8, 121u8],
    [104u8, 105u8, 109u8, 110u8, 113u8, 117u8],
    [104u8, 108u8, 110u8, 110u8, 114u8, 122u8],
];

/// What a die face shows: its letter, or `qu` for the `q` face.
pub open spec fn die_face(b: u8) -> Seq<u8> {
    if b == 113 {
        seq![113u8, 117u8]
    } else {
        seq![b]
    }
}

/// Some face of die `d`.
pub open spec fn face_of_die(face: Seq<u8>, d: int) -> bool {
    exists|f: int| 0 <= f < 6 && face == die_face(#[trigger] DICE[d][f])
}

/// A face of one of the dice.
pub open spec fn on_a_die(face: Seq<u8>) -> bool {
    exists|d: int| 0 <= d < 16 && #[trigger] face_of_die(face, d)
}

proof fn lemma_dice_letters(d: int, f: int)
    requires
        0 <= d < 16,
        0 <= f < 6,
    ensures
        is_lower_letter(DICE[d][f]),
{
    assert(forall|f: int| 0 <= f < 6 ==> is_lower_letter(#[trigger] DICE[0][f]));
    assert(forall|f: int| 0 <= f < 6 ==> is_lower_letter(#[trigger] DICE[1][f]));
    assert(forall|f: int| 0 <= f < 6 ==> is_lower_letter(#[trigger] DICE[2][f]));
    assert(forall|f: int| 0 <= f < 6 ==> is_lower_letter(#[trigger] DICE[3][f]));
    assert(forall|f: int| 0 <= f < 6 ==> is_lower_letter(#[trigger] DICE[4][f]));
    assert(forall|f: int| 0 <= f < 6 ==> is_lower_letter(#[trigger] DICE[5][f]));
    assert(forall|f: int| 0 <= f < 6 ==> is_lower_letter(#[trigger] DICE[6][f]));
    assert(forall|f: int| 0 <= f < 6 ==> is_lower_letter(#[trigger] DICE[7][f]));
    assert(forall|f: int| 0 <= f < 6 ==> is_lower_letter(#[trigger] DICE[8][f]));
    assert(forall|f: int| 0 <= f < 6 ==> is_lower_letter(#[trigger] DICE[9][f]));
    assert(forall|f: int| 0 <= f < 6 ==> is_lower_letter(#[trigger] DICE[10][f]));
    assert(forall|f: int| 0 <= f < 6 ==> is_lower_letter(#[trigger] DICE[11][f]));
    assert(forall|f: int| 0 <= f < 6 ==> is_lower_letter(#[trigger] DICE[12][f]));
    assert(forall|f: int| 0 <= f < 6 ==> is_lower_letter(#[trigger] DICE[13][f]));
    assert(forall|f: int| 0 <= f < 6 ==> is_lower_letter(#[trigger] DICE[14][f]));
    assert(forall|f: int| 0 <= f < 6 ==> is_lower_letter(#[trigger] DICE[15][f]));
}

/// The tile a die face puts on the board.
fn face_tile(b: u8) -> (face: &'static str)
    requires
        is_lower_letter(b),
    ensures
        face.spec_bytes() == die_face(b),
{
    if b == 113 {
        qu_face()
    } else {
        letter_face(b)
    }
}

/// One face of die `d`, rolled.
fn roll_die(d: usize, rng: &mut StdRng) -> (face: &'static str)
    requires
        d < 16,
    ensures
        face_of_die(face.spec_bytes(), d as int),
{
    let f = below(rng, 6);
    let b = DICE[d][f];
    proof {
        lemma_dice_letters(d as int, f as int);
    }
    let face = face_tile(b);
    proof {
        assert(face.spec_bytes() == die_face(DICE[d as int][f as int]));
    }
    face
}

/// A random face of a random die.
pub fn roll_face(rng: &mut StdRng) -> (face: &'static str)
    ensures
        on_a_die(face.spec_bytes()),
{
    let d = below(rng, 16);
    roll_die(d, rng)
}

/// Every tile shows a face of a different die: the sixteen dice, shaken into
/// the sixteen places.
pub open spec fn rolled(grid: Grid) -> bool {
    exists|order: Seq<usize>|
        #![trigger order.to_multiset()]
        order.to_multiset() == Seq::new(16, |i: int| i as usize).to_multiset() && order.len() == 16
            && forall|i: int|
            0 <= i < 16 ==> face_of_die(
                #[trigger] tile(grid, Position { row: (i / 4) as usize, col: (i % 4) as usize }),
                order[i] as int,
            )
}

/// The sixteen dice, shaken: each lands in a random place, face up at random.
pub fn roll_dice(rng: &mut StdRng) -> (grid: Grid)
    ensures
        rolled(grid),
{
    let mut order: Vec<usize> = Vec::new();
    let mut i: usize = 0;
    while i < 16
        invariant
            0 <= i <= 16,
            order@ == Seq::new(i as nat, |k: int| k as usize),
        decreases 16 - i,
    {
        order.push(i);
        proof {
            assert(order@ =~= Seq::new((i + 1) as nat, |k: int| k as usize));
        }
        i += 1;
    }
    let ghost start = order@;
    shuffle(rng, &mut order);
    proof {
        broadcast use vstd::seq_lib::group_to_multiset_ensures;

        assert(start.to_multiset().len() == 16);
        assert forall|k: int| 0 <= k < 16 implies #[trigger] order@[k] < 16 by {
            assert(order@.contains(order@[k]));
            assert(start.to_multiset().count(order@[k]) > 0);
            assert(start.contains(order@[k]));
        }
    }
    let blank = Cell { letters: qu_face() };
    let mut grid: Grid = [[blank; 4]; 4];
    let mut s: usize = 0;
    while s < 16
        invariant
            0 <= s <= 16,
            order@.len() == 16,
            forall|k: int| 0 <= k < 16 ==> #[trigger] order@[k] < 16,
            forall|k: int|
                0 <= k < s ==> face_of_die(
                    #[trigger] tile(grid, Position { row: (k / 4) as usize, col: (k % 4) as usize }),
                    order@[k] as int,
                ),
        decreases 16 - s,
    {
        let face = roll_die(order[s], rng);
        let r = s / 4;
        let c = s % 4;
        let ghost before = grid;
        let mut row = grid[r];
        row[c] = Cell { letters: face };
        grid[r] = row;
        proof {
            assert forall|k: int| 0 <= k < s + 1 implies face_of_die(
                #[trigger] tile(grid, Position { row: (k / 4) as usize, col: (k % 4) as usize }),
                order@[k] as int,
            ) by {
                if k < s {
                    assert(k / 4 != r || k % 4 != c);
                    if k / 4 == r {
                        assert(grid[r as int] == row);
                    }
                    assert(tile(grid, Position { row: (k / 4) as usize, col: (k % 4) as usize }) == tile(
                        before,
                        Position { row: (k / 4) as usize, col: (k % 4) as usize },
                    ));
                }
            }
        }
        s += 1;
    }
    proof {
        assert(order@.to_multiset() == Seq::new(16, |i: int| i as usize).to_multiset());
    }
    grid
}

/// A board in the making: the tiles fixed so far, the rest still open.
pub type Cells = [[Option<&'static str>; SIZE]; SIZE];

/// Every tile shows a face of one of the dice.
pub open spec fn dice_faces(grid: Grid) -> bool {
    forall|p: Position| in_board(p) ==> on_a_die(#[trigger] tile(grid, p))
}

/// `grid` keeps every fixed tile of `cells` and fills each open one with a face
/// of one of the dice.
pub open spec fn fills(cells: Cells, grid: Grid) -> bool {
    forall|p: Position|
        in_board(p) ==> match #[trigger] cells[p.row as int][p.col as int] {
            Some(s) => tile(grid, p) == s.spec_bytes(),
            None => on_a_die(tile(grid, p)),
        }
}

/// Fill the open tiles with rolled faces, row by row.
pub fn fill_grid(cells: Cells, rng: &mut StdRng) -> (grid: Grid)
    ensures
        fills(cells, grid),
{
    let blank = Cell { letters: qu_face() };
    let mut grid: Grid = [[blank; 4]; 4];
    let mut s: usize = 0;
    while s < 16
        invariant
            0 <= s <= 16,
            forall|p: Position|
                in_board(p) && p.row * 4 + p.col < s ==> match #[trigger] cells[p.row as int][p.col as int] {
                    Some(t) => tile(grid, p) == t.spec_bytes(),
                    None => on_a_die(tile(grid, p)),
                },
        decreases 16 - s,
    {
        let r = s / 4;
        let c = s % 4;
        let face = match cells[r][c] {
            Some(t) => t,
            None => roll_face(rng),
        };
        let ghost before = grid;
        let mut row = grid[r];
        row[c] = Cell { letters: face };
        grid[r] = row;
        proof {
            assert forall|p: Position|
                in_board(p) && p.row * 4 + p.col < s + 1 implies match #[trigger] cells[p.row as int][p.col as int] {
                    Some(t) => tile(grid, p) == t.spec_bytes(),
                    None => on_a_die(tile(grid, p)),
                } by {
                if p.row * 4 + p.col == s {
                    assert(p.row == r && p.col == c);
                } else {
                    assert(p.row != r || p.col != c);
                    if p.row == r {
                        assert(grid[r as int] == row);
                    }
                    assert(tile(grid, p) == tile(before, p));
                }
            }
        }
        s += 1;
    }
    grid
}

pub open spec fn is_vowel(b: u8) -> bool {
    b == 97 || b == 101 || b == 105 || b == 111 || b == 117
}

/// The letters that make a board thin: j, q, v, x and z.
pub open spec fn is_awkward(b: u8) -> bool {
    b == 106 || b == 113 || b == 118 || b == 120 || b == 122
}

pub open spec fn vowels_in(s: Seq<u8>) -> nat
    decreases s.len(),
{
    if s.len() == 0 {
        0
    } else {
        vowels_in(s.drop_last()) + if is_vowel(s.last()) {
            1nat
        } else {
            0nat
        }
    }
}

pub open spec fn awkward_in(s: Seq<u8>) -> nat
    decreases s.len(),
{
    if s.len() == 0 {
        0
    } else {
        awkward_in(s.drop_last()) + if is_awkward(s.last()) {
            1nat
        } else {
            0nat
        }
    }
}

proof fn lemma_counts_concat(a: Seq<u8>, b: Seq<u8>)
    ensures
        vowels_in(a + b) == vowels_in(a) + vowels_in(b),
        awkward_in(a + b) == awkward_in(a) + awkward_in(b),
    decreases b.len(),
{
    if b.len() == 0 {
        assert(a + b =~= a);
    } else {
        assert((a + b).drop_last() =~= a + b.drop_last());
        lemma_counts_concat(a, b.drop_last());
    }
}

/// The tiles in reading order: row by row, left to right.
pub open spec fn reading_order() -> Seq<Position> {
    Seq::new(16, |i: int| Position { row: (i / 4) as usize, col: (i % 4) as usize })
}

/// Everything the board shows, row by row.
pub open spec fn board_text(grid: Grid) -> Seq<u8> {
    spelled(grid, reading_order())
}

/// A stand-in for solving the board: boards starved of vowels or stuffed with
/// awkward letters come out thin, and both show in the letters alone.
pub open spec fn playable_letters(grid: Grid) -> bool {
    4 <= vowels_in(board_text(grid)) <= 8 && awkward_in(board_text(grid)) <= 2
}

pub fn looks_playable(grid: &Grid) -> (playable: bool)
    ensures
        playable == playable_letters(*grid),
{
    let ghost g = *grid;
    let mut vowels: u32 = 0;
    let mut awkward: u32 = 0;
    let mut s: usize = 0;
    proof {
        assert(reading_order().take(0) =~= Seq::<Position>::empty());
    }
    while s < 16
        invariant
            g == *grid,
            0 <= s <= 16,
            vowels == if vowels_in(spelled(g, reading_order().take(s as int))) <= 9 {
                vowels_in(spelled(g, reading_order().take(s as int)))
            } else {
                9
            },
            awkward == if awkward_in(spelled(g, reading_order().take(s as int))) <= 3 {
                awkward_in(spelled(g, reading_order().take(s as int)))
            } else {
                3
            },
        decreases 16 - s,
    {
        let ghost done = spelled(g, reading_order().take(s as int));
        let at = Position { row: s / 4, col: s % 4 };
        let letters = grid[s / 4][s % 4].letters.as_bytes();
        proof {
            assert(reading_order().take(s + 1) =~= reading_order().take(s as int).push(at));
            lemma_spelled_push(g, reading_order().take(s as int), at);
            assert(letters@ == tile(g, at));
        }
        let mut k: usize = 0;
        while k < letters.len()
            invariant
                0 <= k <= letters@.len(),
                vowels == if vowels_in(done + letters@.take(k as int)) <= 9 {
                    vowels_in(done + letters@.take(k as int))
                } else {
                    9
                },
                awkward == if awkward_in(done + letters@.take(k as int)) <= 3 {
                    awkward_in(done + letters@.take(k as int))
                } else {
                    3
                },
            decreases letters@.len() - k,
        {
            let b = letters[k];
            proof {
                assert((done + letters@.take(k + 1)).drop_last() =~= done + letters@.take(k as int));
                assert((done + letters@.take(k + 1)).last() == b);
            }
            if b == 97 || b == 101 || b == 105 || b == 111 || b == 117 {
                if vowels < 9 {
                    vowels += 1;
                }
            }
            if b == 106 || b == 113 || b == 118 || b == 120 || b == 122 {
                if awkward < 3 {
                    awkward += 1;
                }
            }
            k += 1;
        }
        proof {
            assert(letters@.take(letters@.len() as int) =~= letters@);
        }
        s += 1;
    }
    proof {
        assert(reading_order().take(16) =~= reading_order());
    }
    4 <= vowels && vowels <= 8 && awkward <= 2
}

/// What `derive_grid` asks its seeded generator for: for each tile of each of
/// its rolls in turn, a die and then one of that die's faces.
pub open spec fn derive_bounds() -> Seq<u64> {
    Seq::new((DERIVE_ATTEMPTS * 32) as nat, |i: int| if i % 2 == 0 { 16u64 } else { 6u64 })
}

/// The face roll `k` of `draws` puts on the tile at reading position `s`: die
/// `draws[32k + 2s]`, face `draws[32k + 2s + 1]`.
pub open spec fn drawn_face(draws: Seq<u64>, k: int, s: int) -> Seq<u8> {
    die_face(DICE[draws[32 * k + 2 * s] as int][draws[32 * k + 2 * s + 1] as int])
}

/// `grid` shows roll `k` of `draws`.
pub open spec fn shows_roll(grid: Grid, draws: Seq<u64>, k: int) -> bool {
    forall|p: Position| in_board(p) ==> #[trigger] tile(grid, p) == drawn_face(draws, k, p.row * 4 + p.col)
}

/// The first `n` tiles of roll `k` of `draws`, read row by row.
pub open spec fn roll_text(draws: Seq<u64>, k: int, n: int) -> Seq<u8>
    decreases n,
{
    if n <= 0 {
        Seq::empty()
    } else {
        roll_text(draws, k, n - 1) + drawn_face(draws, k, n - 1)
    }
}

/// Roll `k` of `draws` looks playable, by its letters alone.
pub open spec fn roll_plays(draws: Seq<u64>, k: int) -> bool {
    4 <= vowels_in(roll_text(draws, k, 16)) <= 8 && awkward_in(roll_text(draws, k, 16)) <= 2
}

/// The roll `derive_grid` settles on, looking from roll `k` on: the first that
/// looks playable, else the first of all.
pub open spec fn first_playing(draws: Seq<u64>, k: int) -> int
    decreases DERIVE_ATTEMPTS - k,
{
    if k < 0 || k >= DERIVE_ATTEMPTS {
        0
    } else if roll_plays(draws, k) {
        k
    } else {
        first_playing(draws, k + 1)
    }
}

/// Each draw is below its bound: a die, then a face.
pub open spec fn draws_in_range(draws: Seq<u64>) -> bool {
    &&& draws.len() == DERIVE_ATTEMPTS * 32
    &&& forall|i: int| 0 <= i < draws.len() ==> #[trigger] draws[i] < derive_bounds()[i]
}

proof fn lemma_roll_prefix(grid: Grid, draws: Seq<u64>, k: int, n: int)
    requires
        shows_roll(grid, draws, k),
        0 <= n <= 16,
    ensures
        spelled(grid, reading_order().take(n)) == roll_text(draws, k, n),
    decreases n,
{
    if n == 0 {
        assert(reading_order().take(0) =~= Seq::<Position>::empty());
    } else {
        lemma_roll_prefix(grid, draws, k, n - 1);
        let at = Position { row: ((n - 1) / 4) as usize, col: ((n - 1) % 4) as usize };
        assert(reading_order().take(n).drop_last() =~= reading_order().take(n - 1));
        assert(reading_order().take(n).last() == at);
        assert(in_board(at));
        assert(tile(grid, at) == drawn_face(draws, k, at.row * 4 + at.col));
        assert(at.row * 4 + at.col == n - 1);
    }
}

proof fn lemma_roll_text(grid: Grid, draws: Seq<u64>, k: int)
    requires
        shows_roll(grid, draws, k),
    ensures
        board_text(grid) == roll_text(draws, k, 16),
        playable_letters(grid) == roll_plays(draws, k),
{
    lemma_roll_prefix(grid, draws, k, 16);
    assert(reading_order().take(16) =~= reading_order());
}

/// The bounds `derive_grid` draws against.
fn derive_bounds_list() -> (bounds: Vec<u64>)
    ensures
        bounds@ == derive_bounds(),
{
    let mut bounds: Vec<u64> = Vec::new();
    let mut i: usize = 0;
    while i < DERIVE_ATTEMPTS * 32
        invariant
            0 <= i <= DERIVE_ATTEMPTS * 32,
            bounds@ == derive_bounds().take(i as int),
        decreases DERIVE_ATTEMPTS * 32 - i,
    {
        bounds.push(if i % 2 == 0 { 16u64 } else { 6u64 });
        proof {
            assert(bounds@ =~= derive_bounds().take(i + 1));
        }
        i += 1;
    }
    proof {
        assert(derive_bounds().take(i as int) =~= derive_bounds());
    }
    bounds
}

/// Lay out roll `k` of `draws`: each tile shows the drawn face of the drawn die.
fn roll_from(draws: &Vec<u64>, k: usize) -> (grid: Grid)
    requires
        draws_in_range(draws@),
        k < DERIVE_ATTEMPTS,
    ensures
        shows_roll(grid, draws@, k as int),
        dice_faces(grid),
{
    let blank = Cell { letters: qu_face() };
    let mut grid: Grid = [[blank; 4]; 4];
    let mut s: usize = 0;
    while s < 16
        invariant
            0 <= s <= 16,
            k < DERIVE_ATTEMPTS,
            draws_in_range(draws@),
            forall|p: Position|
                in_board(p) && p.row * 4 + p.col < s ==> #[trigger] tile(grid, p) == drawn_face(
                    draws@,
                    k as int,
                    p.row * 4 + p.col,
                ) && on_a_die(tile(grid, p)),
        decreases 16 - s,
    {
        let at = 32 * k + 2 * s;
        proof {
            assert(derive_bounds()[at as int] == 16u64);
            assert(derive_bounds()[at + 1] == 6u64);
            assert(draws@[at as int] < derive_bounds()[at as int]);
            assert(draws@[at + 1] < derive_bounds()[at + 1]);
        }
        let d = draws[at] as usize;
        let f = draws[at + 1] as usize;
        proof {
            lemma_dice_letters(d as int, f as int);
        }
        let face = face_tile(DICE[d][f]);
        let r = s / 4;
        let c = s % 4;
        let ghost before = grid;
        let mut row = grid[r];
        row[c] = Cell { letters: face };
        grid[r] = row;
        proof {
            assert(face_of_die(face.spec_bytes(), d as int));
            assert forall|p: Position|
                in_board(p) && p.row * 4 + p.col < s + 1 implies #[trigger] tile(grid, p) == drawn_face(
                    draws@,
                    k as int,
                    p.row * 4 + p.col,
                ) && on_a_die(tile(grid, p)) by {
                if p.row * 4 + p.col == s {
                    assert(p.row == r && p.col == c);
                } else {
                    assert(p.row != r || p.col != c);
                    if p.row == r {
                        assert(grid[r as int] == row);
                    }
                    assert(tile(grid, p) == tile(before, p));
                }
            }
        }
        s += 1;
    }
    grid
}

/// Build the grid for a seed from the dice alone, with no word list: the first
/// of up to a few rolls that looks playable, else the first roll. The rolls
/// come from a generator seeded with `seed`, so the same grid comes back from
/// the same seed, and a server without the word lists can rebuild it to check
/// a score.
pub fn derive_grid(seed: u64) -> (grid: Grid)
    ensures
        dice_faces(grid),
        derived(grid, seed),
{
    reveal(derived);
    let bounds = derive_bounds_list();
    let draws = seeded_ranges(seed, &bounds);
    let ghost all = draws@;
    proof {
        assert(draws_in_range(all));
    }
    let first = roll_from(&draws, 0);
    proof {
        lemma_roll_text(first, all, 0);
    }
    if looks_playable(&first) {
        return first;
    }
    let mut attempt: usize = 1;
    while attempt < DERIVE_ATTEMPTS
        invariant
            1 <= attempt <= DERIVE_ATTEMPTS,
            all == draws@,
            all == seeded_draws(seed, derive_bounds()),
            draws_in_range(all),
            dice_faces(first),
            shows_roll(first, all, 0),
            first_playing(all, 0) == first_playing(all, attempt as int),
        decreases DERIVE_ATTEMPTS - attempt,
    {
        let grid = roll_from(&draws, attempt);
        proof {
            lemma_roll_text(grid, all, attempt as int);
        }
        if looks_playable(&grid) {
            proof {
                reveal(derived);
                assert(first_playing(all, attempt as int) == attempt);
            }
            return grid;
        }
        attempt += 1;
    }
    first
}

/// `n` is one of the first `e` cells around `at`, and on the board.
pub open spec fn around_before(at: Position, n: Position, e: int) -> bool {
    exists|f: int| 0 <= f < e && around_ok(at, f) && n == #[trigger] around(at, f)
}

/// The tiles touching `at`, in reading order.
pub fn neighbours(at: Position) -> (out: Vec<Position>)
    ensures
        forall|n: Position| out@.contains(n) <==> in_board(n) && adjacent(at, n),
        out@.no_duplicates(),
{
    let mut out: Vec<Position> = Vec::new();
    if at.row > SIZE || at.col > SIZE {
        proof {
            assert forall|n: Position| !(in_board(n) && adjacent(at, n)) by {}
        }
        return out;
    }
    let mut e: usize = 0;
    while e < 9
        invariant
            at.row <= 4 && at.col <= 4,
            0 <= e <= 9,
            forall|n: Position|
                out@.contains(n) <==> exists|f: int| 0 <= f < e && around_ok(at, f) && around(at, f) == n,
            forall|i: int| 0 <= i < out@.len() ==> #[trigger] around_before(at, out@[i], e as int),
            out@.no_duplicates(),
        decreases 9 - e,
    {
        let rr = at.row + e / 3;
        let cc = at.col + e % 3;
        if e != 4 && rr >= 1 && rr <= 4 && cc >= 1 && cc <= 4 {
            let n = Position { row: rr - 1, col: cc - 1 };
            proof {
                assert(n == around(at, e as int));
                assert(around_ok(at, e as int));
                assert forall|i: int| 0 <= i < out@.len() implies out@[i] != n by {
                    assert(around_before(at, out@[i], e as int));
                    let f = choose|f: int| 0 <= f < e && around_ok(at, f) && out@[i] == #[trigger] around(at, f);
                    assert(f / 3 != e / 3 || f % 3 != e % 3);
                    if out@[i] == n {
                        assert(at.row + f / 3 - 1 == at.row + e / 3 - 1);
                        assert(at.col + f % 3 - 1 == at.col + e % 3 - 1);
                    }
                }
            }
            let ghost before = out@;
            out.push(n);
            proof {
                assert forall|i: int| 0 <= i < out@.len() implies #[trigger] around_before(at, out@[i], e + 1) by {
                    if i < before.len() {
                        assert(out@[i] == before[i]);
                        assert(around_before(at, before[i], e as int));
                    } else {
                        assert(out@[i] == around(at, e as int));
                    }
                }
                assert forall|m: Position|
                    out@.contains(m) <==> exists|f: int| 0 <= f < e + 1 && around_ok(at, f) && around(at, f) == m by {
                    if out@.contains(m) && m != n {
                        let i = choose|i: int| 0 <= i < out@.len() && out@[i] == m;
                        assert(before.contains(m)) by {
                            assert(out@[i] == m);
                            assert(i < out@.len() - 1);
                        }
                    }
                    if exists|f: int| 0 <= f < e + 1 && around_ok(at, f) && around(at, f) == m {
                        let f = choose|f: int| 0 <= f < e + 1 && around_ok(at, f) && around(at, f) == m;
                        if f < e {
                            assert(before.contains(m));
                            let i = choose|i: int| 0 <= i < before.len() && before[i] == m;
                            assert(out@[i] == m);
                        } else {
                            assert(out@[out@.len() - 1] == m);
                        }
                    }
                }
            }
        } else {
            proof {
                assert forall|i: int| 0 <= i < out@.len() implies #[trigger] around_before(at, out@[i], e + 1) by {
                    assert(around_before(at, out@[i], e as int));
                    let f = choose|f: int| 0 <= f < e && around_ok(at, f) && out@[i] == #[trigger] around(at, f);
                }
            }
        }
        e += 1;
    }
    proof {
        assert forall|n: Position| out@.contains(n) <==> in_board(n) && adjacent(at, n) by {
            if in_board(n) && adjacent(at, n) {
                let f = ((n.row - at.row + 1) * 3 + (n.col - at.col + 1)) as int;
                assert(around(at, f) == n);
                assert(around_ok(at, f));
            }
        }
    }
    out
}

/// The least-used tile on the board: how many common words pass through it.
pub fn worst_tile(words: &BoardWords) -> (worst: u32)
    ensures
        exists|r: int, c: int| 0 <= r < 4 && 0 <= c < 4 && worst == words.coverage[r][c],
        forall|r: int, c: int| 0 <= r < 4 && 0 <= c < 4 ==> worst <= #[trigger] words.coverage[r][c],
{
    let mut worst = words.coverage[0][0];
    let mut s: usize = 1;
    while s < 16
        invariant
            1 <= s <= 16,
            exists|r: int, c: int| 0 <= r < 4 && 0 <= c < 4 && worst == words.coverage[r][c],
            forall|r: int, c: int|
                0 <= r < 4 && 0 <= c < 4 && r * 4 + c < s ==> worst <= #[trigger] words.coverage[r][c],
        decreases 16 - s,
    {
        let here = words.coverage[s / 4][s % 4];
        if here < worst {
            worst = here;
        }
        proof {
            assert forall|r: int, c: int|
                0 <= r < 4 && 0 <= c < 4 && r * 4 + c < s + 1 implies worst <= #[trigger] words.coverage[r][c] by {
                if r * 4 + c == s {
                    assert(r == s / 4 && c == s % 4);
                }
            }
        }
        s += 1;
    }
    worst
}

/// How many of `words` have at least `len` letters.
pub open spec fn count_at_least(words: Seq<Seq<u8>>, len: nat) -> nat
    decreases words.len(),
{
    if words.len() == 0 {
        0
    } else {
        count_at_least(words.drop_last(), len) + if words.last().len() >= len {
            1nat
        } else {
            0nat
        }
    }
}

/// Worth playing: plenty of common words, several long ones, and no tile so
/// little used that it cannot be reused for the bonus.
pub open spec fn good_board(words: BoardWords) -> bool {
    &&& words.common@.len() >= MIN_SOLUTIONS
    &&& count_at_least(bytes_of(words.common@), LONG_WORD_LEN as nat) >= MIN_LONG_SOLUTIONS
    &&& forall|r: int, c: int| 0 <= r < 4 && 0 <= c < 4 ==> #[trigger] words.coverage[r][c] >= MIN_TILE_COVERAGE
}

/// Is this board worth playing?
pub fn board_is_good(words: &BoardWords) -> (good: bool)
    ensures
        good == good_board(*words),
{
    let ghost all = bytes_of(words.common@);
    let mut long: usize = 0;
    let mut i: usize = 0;
    while i < words.common.len()
        invariant
            all == bytes_of(words.common@),
            0 <= i <= words.common@.len(),
            long == count_at_least(all.take(i as int), LONG_WORD_LEN as nat),
            long <= i,
        decreases words.common@.len() - i,
    {
        proof {
            assert(all.take(i + 1).drop_last() =~= all.take(i as int));
        }
        if words.common[i].as_str().as_bytes().len() >= LONG_WORD_LEN {
            long += 1;
        }
        i += 1;
    }
    proof {
        assert(all.take(i as int) =~= all);
    }
    let worst = worst_tile(words);
    words.common.len() >= MIN_SOLUTIONS && long >= MIN_LONG_SOLUTIONS && worst >= MIN_TILE_COVERAGE
}

proof fn lemma_dice_tiles(grid: Grid)
    requires
        dice_faces(grid),
    ensures
        tiles_ok(grid),
{
    assert forall|p: Position| in_board(p) implies (#[trigger] tile(grid, p)).len() > 0 by {
        assert(on_a_die(tile(grid, p)));
        let d = choose|d: int| 0 <= d < 16 && #[trigger] face_of_die(tile(grid, p), d);
        let f = choose|f: int| 0 <= f < 6 && tile(grid, p) == die_face(#[trigger] DICE[d][f]);
    }
}

/// How a board that falls short is ranked against the others: its common
/// words, and twenty for each use of its least-used tile, held at the largest
/// `u64`.
pub open spec fn shortfall(words: BoardWords) -> nat {
    let worst = choose|worst: nat| crate::rotation::least_coverage(words, worst);
    if words.common@.len() + 20 * worst > u64::MAX {
        u64::MAX as nat
    } else {
        (words.common@.len() + 20 * worst) as nat
    }
}

/// A search through `boards` in turn settles on `pick`: it stops at the first
/// that plays well, and when none does, it takes the first of those ranked
/// highest.
pub open spec fn settles_on(boards: Seq<BoardWords>, pick: int) -> bool {
    &&& 0 <= pick < boards.len()
    &&& forall|j: int| 0 <= j < boards.len() - 1 ==> !good_board(#[trigger] boards[j])
    &&& if good_board(boards.last()) {
        pick == boards.len() - 1
    } else {
        &&& forall|j: int| 0 <= j < boards.len() ==> shortfall(#[trigger] boards[j]) <= shortfall(boards[pick])
        &&& forall|j: int| 0 <= j < pick ==> shortfall(#[trigger] boards[j]) < shortfall(boards[pick])
    }
}

/// A search of at most `tries` boards: it went on to the last try unless it
/// stopped at one that plays well.
pub open spec fn searched(boards: Seq<BoardWords>, tries: nat) -> bool {
    &&& 0 < boards.len() <= tries
    &&& boards.len() < tries ==> good_board(boards.last())
}

proof fn lemma_least_coverage_unique(words: BoardWords, a: nat, b: nat)
    requires
        crate::rotation::least_coverage(words, a),
        crate::rotation::least_coverage(words, b),
    ensures
        a == b,
{
    let (ra, ca) = choose|r: int, c: int| 0 <= r < 4 && 0 <= c < 4 && a == words.coverage[r][c];
    let (rb, cb) = choose|r: int, c: int| 0 <= r < 4 && 0 <= c < 4 && b == words.coverage[r][c];
    assert(a <= words.coverage[rb][cb]);
    assert(b <= words.coverage[ra][ca]);
}

/// How a board that falls short is ranked against the others.
fn shortfall_rank(words: &BoardWords) -> (rank: u64)
    ensures
        rank == shortfall(*words),
{
    let worst = worst_tile(words);
    proof {
        assert(crate::rotation::least_coverage(*words, worst as nat));
        let chosen = choose|w: nat| crate::rotation::least_coverage(*words, w);
        lemma_least_coverage_unique(*words, worst as nat, chosen);
    }
    (words.common.len() as u64).saturating_add(worst as u64 * 20)
}

/// The seeds `generate_board_seeded` derives grids from, in turn.
pub open spec fn sub_seed(seed: u64, attempt: int) -> u64 {
    seed.wrapping_mul(0x9E37_79B9_7F4A_7C15).wrapping_add(attempt as u64)
}

/// `grid` is what `derive_grid` builds from `seed`: the roll of the seeded
/// draws it settles on.
#[verifier::opaque]
pub open spec fn derived(grid: Grid, seed: u64) -> bool {
    shows_roll(grid, seeded_draws(seed, derive_bounds()), first_playing(seeded_draws(seed, derive_bounds()), 0))
}

/// `grids` are the grids derived from the first sub-seeds of `seed` in turn,
/// and `boards` their words, as far as a search of them went.
pub open spec fn seeded_search(dict: Dictionary, seed: u64, grids: Seq<Grid>, boards: Seq<BoardWords>) -> bool {
    &&& grids.len() == boards.len()
    &&& searched(boards, SEED_ATTEMPTS as nat)
    &&& forall|j: int|
        0 <= j < boards.len() ==> derived(#[trigger] grids[j], sub_seed(seed, j)) && solves(grids[j], dict, boards[j])
}

/// The board for a seed: the first of a run of sub-seeds whose grid plays
/// well, else the best of them. Every client given the same seed builds the
/// same board without the board itself being sent.
#[verifier::rlimit(40)]
pub fn generate_board_seeded(dict: &Dictionary, seed: u64) -> (board: (Grid, BoardWords, Option<String>))
    requires
        dict.wf(),
    ensures
        dice_faces(board.0),
        solves(board.0, *dict, board.1),
        board.1.theme@.len() == 0,
        board.2 is None,
        exists|grids: Seq<Grid>, boards: Seq<BoardWords>, pick: int|
            #![trigger seeded_search(*dict, seed, grids, boards), settles_on(boards, pick)]
            seeded_search(*dict, seed, grids, boards) && settles_on(boards, pick) && board.0 == grids[pick]
                && board.1 == boards[pick],
{
    let first = derive_grid(seed.wrapping_mul(0x9E37_79B9_7F4A_7C15));
    proof {
        lemma_dice_tiles(first);
        assert(sub_seed(seed, 0) == seed.wrapping_mul(0x9E37_79B9_7F4A_7C15)) by (bit_vector);
    }
    let first_words = solve_board(dict, &first);
    let ghost mut grids = seq![first];
    let ghost mut boards = seq![first_words];
    if board_is_good(&first_words) {
        proof {
            assert(settles_on(boards, 0));
            assert(seeded_search(*dict, seed, grids, boards));
        }
        return (first, first_words, None);
    }
    let mut best_rank = shortfall_rank(&first_words);
    let mut best_grid = first;
    let mut best_words = first_words;
    let ghost mut pick: int = 0;
    let mut attempt: u32 = 1;
    while attempt < SEED_ATTEMPTS
        invariant
            dict.wf(),
            1 <= attempt <= SEED_ATTEMPTS,
            dice_faces(best_grid),
            solves(best_grid, *dict, best_words),
            best_words.theme@.len() == 0,
            grids.len() == attempt,
            boards.len() == attempt,
            forall|j: int|
                0 <= j < boards.len() ==> derived(#[trigger] grids[j], sub_seed(seed, j)) && solves(
                    grids[j],
                    *dict,
                    boards[j],
                ),
            forall|j: int| 0 <= j < boards.len() ==> !good_board(#[trigger] boards[j]),
            0 <= pick < attempt,
            best_grid == grids[pick],
            best_words == boards[pick],
            best_rank == shortfall(boards[pick]),
            forall|j: int| 0 <= j < boards.len() ==> shortfall(#[trigger] boards[j]) <= best_rank,
            forall|j: int| 0 <= j < pick ==> shortfall(#[trigger] boards[j]) < best_rank,
        decreases SEED_ATTEMPTS - attempt,
    {
        let sub = seed.wrapping_mul(0x9E37_79B9_7F4A_7C15).wrapping_add(attempt as u64);
        let grid = derive_grid(sub);
        proof {
            lemma_dice_tiles(grid);
        }
        let words = solve_board(dict, &grid);
        proof {
            grids = grids.push(grid);
            boards = boards.push(words);
        }
        if board_is_good(&words) {
            proof {
                assert(settles_on(boards, attempt as int));
                assert(seeded_search(*dict, seed, grids, boards));
            }
            return (grid, words, None);
        }
        let rank = shortfall_rank(&words);
        if rank > best_rank {
            best_rank = rank;
            best_grid = grid;
            best_words = words;
            proof {
                pick = attempt as int;
            }
        }
        attempt += 1;
    }
    proof {
        assert(settles_on(boards, pick));
        assert(seeded_search(*dict, seed, grids, boards));
    }
    (best_grid, best_words, None)
}

/// The two grids show the same tile everywhere.
pub open spec fn same_tiles(a: Grid, b: Grid) -> bool {
    forall|p: Position| in_board(p) ==> #[trigger] tile(a, p) == tile(b, p)
}

proof fn lemma_spelled_same(a: Grid, b: Grid, path: Seq<Position>)
    requires
        same_tiles(a, b),
        forall|i: int| 0 <= i < path.len() ==> in_board(#[trigger] path[i]),
    ensures
        spelled(a, path) == spelled(b, path),
    decreases path.len(),
{
    if path.len() > 0 {
        let rest = path.drop_last();
        assert forall|i: int| 0 <= i < rest.len() implies in_board(#[trigger] rest[i]) by {
            assert(rest[i] == path[i]);
        }
        lemma_spelled_same(a, b, rest);
        assert(in_board(path[path.len() - 1]));
    }
}

/// Grids that show the same tiles hold the same words, through the same tiles.
proof fn lemma_traced_same(a: Grid, b: Grid, w: Seq<u8>, at: Position)
    requires
        same_tiles(a, b),
    ensures
        crate::solver::passes(a, w, at) == crate::solver::passes(b, w, at),
        traceable(a, w) == traceable(b, w),
{
    assert forall|through: Option<Position>, p: Seq<Position>| #[trigger] traces(a, w, through, p) == traces(
        b,
        w,
        through,
        p,
    ) by {
        if valid_path(p) {
            lemma_spelled_same(a, b, p);
        }
    }
    if crate::solver::passes(a, w, at) {
        let p = choose|p: Seq<Position>| traces(a, w, Some(at), p);
        assert(traces(b, w, Some(at), p));
    }
    if crate::solver::passes(b, w, at) {
        let p = choose|p: Seq<Position>| traces(b, w, Some(at), p);
        assert(traces(a, w, Some(at), p));
    }
    if traceable(a, w) {
        let p = choose|p: Seq<Position>| traces(a, w, None, p);
        assert(traces(b, w, None, p));
    }
    if traceable(b, w) {
        let p = choose|p: Seq<Position>| traces(b, w, None, p);
        assert(traces(a, w, None, p));
    }
}

/// Grids that show the same tiles are walked alike.
proof fn lemma_walked_same(a: Grid, b: Grid, d: Dictionary, w: Seq<u8>, at: Position)
    requires
        same_tiles(a, b),
    ensures
        crate::solver::walk_passes(a, d, w, at) == crate::solver::walk_passes(b, d, w, at),
{
    assert forall|p: Seq<Position>| valid_path(p) implies #[trigger] crate::solver::walked(a, d, p)
        == crate::solver::walked(b, d, p) by {
        assert forall|k: int| 1 <= k < p.len() implies spelled(a, p.take(k)) == spelled(b, p.take(k)) by {
            let q = p.take(k);
            assert forall|i: int| 0 <= i < q.len() implies in_board(#[trigger] q[i]) by {
                assert(q[i] == p[i]);
            }
            lemma_spelled_same(a, b, q);
        }
        if crate::solver::walked(a, d, p) {
            assert forall|k: int| 1 <= k < p.len() implies #[trigger] crate::solver::goes_on(d, spelled(b, p.take(k))) by {
                assert(crate::solver::goes_on(d, spelled(a, p.take(k))));
            }
        }
        if crate::solver::walked(b, d, p) {
            assert forall|k: int| 1 <= k < p.len() implies #[trigger] crate::solver::goes_on(d, spelled(a, p.take(k))) by {
                assert(crate::solver::goes_on(d, spelled(b, p.take(k))));
            }
        }
    }
    assert forall|through: Option<Position>, p: Seq<Position>| #[trigger] traces(a, w, through, p) == traces(
        b,
        w,
        through,
        p,
    ) by {
        if valid_path(p) {
            lemma_spelled_same(a, b, p);
        }
    }
    if crate::solver::walk_passes(a, d, w, at) {
        let p = choose|p: Seq<Position>| traces(a, w, Some(at), p) && crate::solver::walked(a, d, p);
        assert(traces(b, w, Some(at), p) && crate::solver::walked(b, d, p));
    }
    if crate::solver::walk_passes(b, d, w, at) {
        let p = choose|p: Seq<Position>| traces(b, w, Some(at), p) && crate::solver::walked(b, d, p);
        assert(traces(a, w, Some(at), p) && crate::solver::walked(a, d, p));
    }
}

proof fn lemma_through_same(a: Grid, b: Grid, d: Dictionary, words: Seq<Seq<u8>>, at: Position)
    requires
        same_tiles(a, b),
    ensures
        crate::solver::walk_count(a, d, words, at) == crate::solver::walk_count(b, d, words, at),
    decreases words.len(),
{
    if words.len() > 0 {
        lemma_through_same(a, b, d, words.drop_last(), at);
        lemma_walked_same(a, b, d, words.last(), at);
    }
}

/// Two ranked lists of the same words are the same list.
proof fn lemma_ranked_unique(x: Seq<Seq<u8>>, y: Seq<Seq<u8>>)
    requires
        crate::solver::ranked(x),
        crate::solver::ranked(y),
        forall|w: Seq<u8>| x.contains(w) <==> y.contains(w),
    ensures
        x == y,
    decreases x.len(),
{
    if x.len() == 0 {
        if y.len() > 0 {
            assert(y.contains(y[0]));
        }
        assert(x =~= y);
    } else {
        assert(x.contains(x[0]));
        assert(y.contains(x[0]));
        assert(y.contains(y[0]));
        assert(x.contains(y[0]));
        let j = choose|j: int| 0 <= j < y.len() && y[j] == x[0];
        let i = choose|i: int| 0 <= i < x.len() && x[i] == y[0];
        if x[0] != y[0] {
            assert(j > 0 && i > 0);
            assert(crate::solver::ranks_before(y[0], y[j]));
            assert(crate::solver::ranks_before(x[0], x[i]));
            crate::solver::lemma_rank_order(x[0], y[0], x[0]);
        }
        let xs = x.drop_first();
        let ys = y.drop_first();
        assert forall|a: int, b: int| 0 <= a < b < xs.len() implies crate::solver::ranks_before(xs[a], xs[b]) by {
            assert(xs[a] == x[a + 1] && xs[b] == x[b + 1]);
        }
        assert forall|a: int, b: int| 0 <= a < b < ys.len() implies crate::solver::ranks_before(ys[a], ys[b]) by {
            assert(ys[a] == y[a + 1] && ys[b] == y[b + 1]);
        }
        assert forall|w: Seq<u8>| xs.contains(w) <==> ys.contains(w) by {
            if xs.contains(w) {
                let k = choose|k: int| 0 <= k < xs.len() && xs[k] == w;
                assert(x[k + 1] == w);
                assert(crate::solver::ranks_before(x[0], w));
                crate::solver::lemma_rank_order(w, w, w);
                assert(y.contains(w));
                let m = choose|m: int| 0 <= m < y.len() && y[m] == w;
                assert(m != 0);
                assert(ys[m - 1] == w);
            }
            if ys.contains(w) {
                let k = choose|k: int| 0 <= k < ys.len() && ys[k] == w;
                assert(y[k + 1] == w);
                assert(crate::solver::ranks_before(y[0], w));
                crate::solver::lemma_rank_order(w, w, w);
                assert(x.contains(w));
                let m = choose|m: int| 0 <= m < x.len() && x[m] == w;
                assert(m != 0);
                assert(xs[m - 1] == w);
            }
        }
        lemma_ranked_unique(xs, ys);
        assert(x =~= seq![x[0]] + xs);
        assert(y =~= seq![y[0]] + ys);
    }
}

/// Grids that show the same tiles solve alike: the same common and obscure
/// words, in the same order, and the same count through every tile.
proof fn lemma_solves_same(a: Grid, b: Grid, d: Dictionary, wa: BoardWords, wb: BoardWords)
    requires
        same_tiles(a, b),
        solves(a, d, wa),
        solves(b, d, wb),
    ensures
        bytes_of(wa.common@) == bytes_of(wb.common@),
        bytes_of(wa.obscure@) == bytes_of(wb.obscure@),
        forall|r: int, c: int| 0 <= r < 4 && 0 <= c < 4 ==> #[trigger] wa.coverage[r][c] == wb.coverage[r][c],
{
    assert forall|w: Seq<u8>| #[trigger] crate::solver::board_word(a, d, w) == crate::solver::board_word(b, d, w) by {
        lemma_traced_same(a, b, w, Position { row: 0, col: 0 });
    }
    assert forall|w: Seq<u8>| bytes_of(wa.common@).contains(w) <==> bytes_of(wb.common@).contains(w) by {
        assert(crate::solver::board_word(a, d, w) == crate::solver::board_word(b, d, w));
    }
    assert forall|w: Seq<u8>| bytes_of(wa.obscure@).contains(w) <==> bytes_of(wb.obscure@).contains(w) by {
        assert(crate::solver::board_word(a, d, w) == crate::solver::board_word(b, d, w));
    }
    lemma_ranked_unique(bytes_of(wa.common@), bytes_of(wb.common@));
    lemma_ranked_unique(bytes_of(wa.obscure@), bytes_of(wb.obscure@));
    assert forall|r: int, c: int| 0 <= r < 4 && 0 <= c < 4 implies #[trigger] wa.coverage[r][c] == wb.coverage[r][c] by {
        lemma_through_same(a, b, d, bytes_of(wa.common@), Position { row: r as usize, col: c as usize });
    }
}

/// The least of the first `k` tile counts, read row by row.
spec fn least_of(words: BoardWords, k: int) -> nat
    decreases k,
{
    if k <= 1 {
        words.coverage[0][0] as nat
    } else {
        let here = words.coverage[(k - 1) / 4][(k - 1) % 4] as nat;
        let before = least_of(words, k - 1);
        if here < before {
            here
        } else {
            before
        }
    }
}

proof fn lemma_least_of(words: BoardWords, k: int)
    requires
        1 <= k <= 16,
    ensures
        exists|r: int, c: int| 0 <= r < 4 && 0 <= c < 4 && least_of(words, k) == words.coverage[r][c],
        forall|r: int, c: int|
            0 <= r < 4 && 0 <= c < 4 && r * 4 + c < k ==> least_of(words, k) <= #[trigger] words.coverage[r][c],
    decreases k,
{
    if k > 1 {
        lemma_least_of(words, k - 1);
        assert forall|r: int, c: int|
            0 <= r < 4 && 0 <= c < 4 && r * 4 + c < k implies least_of(words, k) <= #[trigger] words.coverage[r][c] by {
            if r * 4 + c == k - 1 {
                assert(r == (k - 1) / 4 && c == (k - 1) % 4);
            }
        }
    } else {
        assert(least_of(words, k) == words.coverage[0][0]);
    }
}

/// Boards with the same number of common words and the same tile counts rank
/// the same.
proof fn lemma_shortfall_same(wa: BoardWords, wb: BoardWords)
    requires
        wa.common@.len() == wb.common@.len(),
        forall|r: int, c: int| 0 <= r < 4 && 0 <= c < 4 ==> #[trigger] wa.coverage[r][c] == wb.coverage[r][c],
    ensures
        shortfall(wa) == shortfall(wb),
{
    lemma_least_of(wa, 16);
    let m = least_of(wa, 16);
    assert(crate::rotation::least_coverage(wa, m));
    let (r0, c0) = choose|r: int, c: int| 0 <= r < 4 && 0 <= c < 4 && m == wa.coverage[r][c];
    assert(wb.coverage[r0][c0] == m);
    assert forall|r: int, c: int| 0 <= r < 4 && 0 <= c < 4 implies m <= #[trigger] wb.coverage[r][c] by {
        assert(wa.coverage[r][c] == wb.coverage[r][c]);
    }
    assert(crate::rotation::least_coverage(wb, m));
    let xa = choose|worst: nat| crate::rotation::least_coverage(wa, worst);
    let xb = choose|worst: nat| crate::rotation::least_coverage(wb, worst);
    lemma_least_coverage_unique(wa, m, xa);
    lemma_least_coverage_unique(wb, m, xb);
}

/// A seed decides its grid: two grids derived from the same seed show the
/// same tiles, so a server can rebuild a client's grid from the seed alone.
pub proof fn lemma_a_seed_decides_its_grid(a: Grid, b: Grid, seed: u64)
    requires
        derived(a, seed),
        derived(b, seed),
    ensures
        same_tiles(a, b),
{
    reveal(derived);
}

/// Two boards' words agree in everything a search judges them by.
spec fn alike(wa: BoardWords, wb: BoardWords) -> bool {
    &&& good_board(wa) == good_board(wb)
    &&& shortfall(wa) == shortfall(wb)
    &&& bytes_of(wa.common@) == bytes_of(wb.common@)
    &&& bytes_of(wa.obscure@) == bytes_of(wb.obscure@)
    &&& forall|r: int, c: int| 0 <= r < 4 && 0 <= c < 4 ==> #[trigger] wa.coverage[r][c] == wb.coverage[r][c]
}

/// The same try of two searches from the same seed builds the same board.
proof fn lemma_same_try(dict: Dictionary, s: u64, ga: Grid, wa: BoardWords, gb: Grid, wb: BoardWords)
    requires
        derived(ga, s),
        derived(gb, s),
        solves(ga, dict, wa),
        solves(gb, dict, wb),
    ensures
        same_tiles(ga, gb),
        alike(wa, wb),
{
    reveal(derived);
    lemma_solves_same(ga, gb, dict, wa, wb);
    assert(wa.common@.len() == bytes_of(wa.common@).len());
    assert(wb.common@.len() == bytes_of(wb.common@).len());
    lemma_shortfall_same(wa, wb);
    if good_board(wa) {
        assert forall|r: int, c: int| 0 <= r < 4 && 0 <= c < 4 implies #[trigger] wb.coverage[r][c] >= MIN_TILE_COVERAGE by {
            assert(wa.coverage[r][c] == wb.coverage[r][c]);
        }
    }
    if good_board(wb) {
        assert forall|r: int, c: int| 0 <= r < 4 && 0 <= c < 4 implies #[trigger] wa.coverage[r][c] >= MIN_TILE_COVERAGE by {
            assert(wa.coverage[r][c] == wb.coverage[r][c]);
        }
    }
}

/// Try `j` of two searches from the same seed built the same board.
proof fn lemma_try_alike(
    dict: Dictionary,
    seed: u64,
    grids1: Seq<Grid>,
    boards1: Seq<BoardWords>,
    grids2: Seq<Grid>,
    boards2: Seq<BoardWords>,
    j: int,
)
    requires
        seeded_search(dict, seed, grids1, boards1),
        seeded_search(dict, seed, grids2, boards2),
        0 <= j < boards1.len(),
        j < boards2.len(),
    ensures
        same_tiles(grids1[j], grids2[j]),
        alike(boards1[j], boards2[j]),
{
    assert(derived(grids1[j], sub_seed(seed, j)) && solves(grids1[j], dict, boards1[j]));
    assert(derived(grids2[j], sub_seed(seed, j)) && solves(grids2[j], dict, boards2[j]));
    lemma_same_try(dict, sub_seed(seed, j), grids1[j], boards1[j], grids2[j], boards2[j]);
}

/// A seed decides its board. Two searches from the same seed, over the same
/// dictionary, settle on boards that show the same tiles, hold the same common
/// and obscure words in the same order, and count the same words through
/// every tile.
pub proof fn lemma_a_seed_decides_its_board(
    dict: Dictionary,
    seed: u64,
    grids1: Seq<Grid>,
    boards1: Seq<BoardWords>,
    pick1: int,
    grids2: Seq<Grid>,
    boards2: Seq<BoardWords>,
    pick2: int,
)
    requires
        seeded_search(dict, seed, grids1, boards1),
        settles_on(boards1, pick1),
        seeded_search(dict, seed, grids2, boards2),
        settles_on(boards2, pick2),
    ensures
        same_tiles(grids1[pick1], grids2[pick2]),
        bytes_of(boards1[pick1].common@) == bytes_of(boards2[pick2].common@),
        bytes_of(boards1[pick1].obscure@) == bytes_of(boards2[pick2].obscure@),
        forall|r: int, c: int|
            0 <= r < 4 && 0 <= c < 4 ==> #[trigger] boards1[pick1].coverage[r][c] == boards2[pick2].coverage[r][c],
{
    let n1 = boards1.len();
    let n2 = boards2.len();
    if n1 < n2 {
        lemma_try_alike(dict, seed, grids1, boards1, grids2, boards2, n1 - 1);
        assert(good_board(boards1[n1 - 1]));
        assert(!good_board(boards2[n1 - 1]));
    }
    if n2 < n1 {
        lemma_try_alike(dict, seed, grids1, boards1, grids2, boards2, n2 - 1);
        assert(good_board(boards2[n2 - 1]));
        assert(!good_board(boards1[n2 - 1]));
    }
    assert(n1 == n2);
    lemma_try_alike(dict, seed, grids1, boards1, grids2, boards2, n1 - 1);
    if !good_board(boards1.last()) {
        lemma_try_alike(dict, seed, grids1, boards1, grids2, boards2, pick1);
        lemma_try_alike(dict, seed, grids1, boards1, grids2, boards2, pick2);
        if pick1 < pick2 {
            assert(shortfall(boards2[pick1]) < shortfall(boards2[pick2]));
            assert(shortfall(boards1[pick2]) <= shortfall(boards1[pick1]));
        }
        if pick2 < pick1 {
            assert(shortfall(boards1[pick2]) < shortfall(boards1[pick1]));
            assert(shortfall(boards2[pick1]) <= shortfall(boards2[pick2]));
        }
    }
    assert(pick1 == pick2);
    lemma_try_alike(dict, seed, grids1, boards1, grids2, boards2, pick1);
}

proof fn lemma_rolled_faces(grid: Grid)
    requires
        rolled(grid),
    ensures
        dice_faces(grid),
{
    let order = choose|order: Seq<usize>|
        #![trigger order.to_multiset()]
        order.to_multiset() == Seq::new(16, |i: int| i as usize).to_multiset() && order.len() == 16
            && forall|i: int|
            0 <= i < 16 ==> face_of_die(
                #[trigger] tile(grid, Position { row: (i / 4) as usize, col: (i % 4) as usize }),
                order[i] as int,
            );
    assert forall|p: Position| in_board(p) implies on_a_die(#[trigger] tile(grid, p)) by {
        let i = p.row * 4 + p.col;
        assert(Position { row: (i / 4) as usize, col: (i % 4) as usize } == p);
        assert(face_of_die(tile(grid, p), order[i] as int));
        broadcast use vstd::seq_lib::group_to_multiset_ensures;
        assert(order.contains(order[i]));
        assert(Seq::new(16, |i: int| i as usize).to_multiset().count(order[i]) > 0);
        assert(Seq::new(16, |i: int| i as usize).contains(order[i]));
    }
}

/// `grids` are boards rolled from the dice in turn, and `boards` their words,
/// as far as a search of them went.
pub open spec fn rolled_search(dict: Dictionary, grids: Seq<Grid>, boards: Seq<BoardWords>) -> bool {
    &&& grids.len() == boards.len()
    &&& searched(boards, MAX_BOARD_ATTEMPTS as nat)
    &&& forall|j: int| 0 <= j < boards.len() ==> rolled(#[trigger] grids[j]) && solves(grids[j], dict, boards[j])
}

/// A plain board rolled from the dice, rerolled until it plays well, else the
/// best of the rolls.
#[verifier::rlimit(40)]
pub fn generate_board_local(dict: &Dictionary, rng: &mut StdRng) -> (board: (Grid, BoardWords, Option<String>))
    requires
        dict.wf(),
    ensures
        rolled(board.0),
        tiles_ok(board.0),
        solves(board.0, *dict, board.1),
        board.1.theme@.len() == 0,
        board.2 is None,
        exists|grids: Seq<Grid>, boards: Seq<BoardWords>, pick: int|
            #![trigger rolled_search(*dict, grids, boards), settles_on(boards, pick)]
            rolled_search(*dict, grids, boards) && settles_on(boards, pick) && board.0 == grids[pick] && board.1
                == boards[pick],
{
    let first = roll_dice(rng);
    proof {
        lemma_rolled_faces(first);
        lemma_dice_tiles(first);
    }
    let first_words = solve_board(dict, &first);
    let ghost mut grids = seq![first];
    let ghost mut boards = seq![first_words];
    if board_is_good(&first_words) {
        proof {
            assert(settles_on(boards, 0));
            assert(rolled_search(*dict, grids, boards));
        }
        return (first, first_words, None);
    }
    let mut best_rank = shortfall_rank(&first_words);
    let mut best_grid = first;
    let mut best_words = first_words;
    let ghost mut pick: int = 0;
    let mut attempt: usize = 1;
    while attempt < MAX_BOARD_ATTEMPTS
        invariant
            dict.wf(),
            1 <= attempt <= MAX_BOARD_ATTEMPTS,
            rolled(best_grid),
            tiles_ok(best_grid),
            solves(best_grid, *dict, best_words),
            best_words.theme@.len() == 0,
            grids.len() == attempt,
            boards.len() == attempt,
            forall|j: int| 0 <= j < boards.len() ==> rolled(#[trigger] grids[j]) && solves(grids[j], *dict, boards[j]),
            forall|j: int| 0 <= j < boards.len() ==> !good_board(#[trigger] boards[j]),
            0 <= pick < attempt,
            best_grid == grids[pick],
            best_words == boards[pick],
            best_rank == shortfall(boards[pick]),
            forall|j: int| 0 <= j < boards.len() ==> shortfall(#[trigger] boards[j]) <= best_rank,
            forall|j: int| 0 <= j < pick ==> shortfall(#[trigger] boards[j]) < best_rank,
        decreases MAX_BOARD_ATTEMPTS - attempt,
    {
        let grid = roll_dice(rng);
        proof {
            lemma_rolled_faces(grid);
            lemma_dice_tiles(grid);
        }
        let words = solve_board(dict, &grid);
        proof {
            grids = grids.push(grid);
            boards = boards.push(words);
        }
        if board_is_good(&words) {
            proof {
                assert(settles_on(boards, attempt as int));
                assert(rolled_search(*dict, grids, boards));
            }
            return (grid, words, None);
        }
        let rank = shortfall_rank(&words);
        if rank > best_rank {
            best_rank = rank;
            best_grid = grid;
            best_words = words;
            proof {
                pick = attempt as int;
            }
        }
        attempt += 1;
    }
    proof {
        assert(settles_on(boards, pick));
        assert(rolled_search(*dict, grids, boards));
    }
    (best_grid, best_words, None)
}

/// The cell at `p`.
pub open spec fn cell_at(cells: Cells, p: Position) -> Option<&'static str> {
    cells[p.row as int][p.col as int]
}

/// The cell shows exactly the letter `b`.
pub open spec fn shows_letter(c: Option<&'static str>, b: u8) -> bool {
    c matches Some(s) && s.spec_bytes() == seq![b]
}

/// `b` can go at `p`: the cell is open, or already shows it.
pub open spec fn can_take(cells: Cells, p: Position, b: u8) -> bool {
    cell_at(cells, p) is None || shows_letter(cell_at(cells, p), b)
}

/// `rest` lays out `word[from..]` along touching tiles, going on from `pre`,
/// each on an open cell or one that already shows its letter.
pub open spec fn lays(cells: Cells, word: Seq<u8>, from: int, pre: Seq<Position>, rest: Seq<Position>) -> bool {
    &&& rest.len() == word.len() - from
    &&& valid_path(pre + rest)
    &&& forall|i: int| 0 <= i < rest.len() ==> can_take(cells, #[trigger] rest[i], word[from + i])
}

/// `after` is `before` with `word[from..]` written along `rest`: each of its
/// tiles shows its letter, a cell that was filled keeps what it showed, and
/// nothing off the path changes.
pub open spec fn laid(before: Cells, after: Cells, word: Seq<u8>, from: int, rest: Seq<Position>) -> bool {
    &&& forall|i: int|
        0 <= i < rest.len() ==> shows_letter(cell_at(after, #[trigger] rest[i]), word[from + i]) && (cell_at(
            before,
            rest[i],
        ) is Some ==> cell_at(after, rest[i]) == cell_at(before, rest[i]))
    &&& forall|p: Position| in_board(p) && !rest.contains(p) ==> #[trigger] cell_at(after, p) == cell_at(before, p)
}

/// Every byte is a letter a-z.
pub open spec fn lower_word(word: Seq<u8>) -> bool {
    forall|i: int| 0 <= i < word.len() ==> is_lower_letter(#[trigger] word[i])
}

/// `cells` with the cell at `p` set to `v`.
fn set_cell(cells: &mut Cells, p: Position, v: Option<&'static str>)
    requires
        in_board(p),
    ensures
        cell_at(*final(cells), p) == v,
        forall|q: Position| in_board(q) && q != p ==> #[trigger] cell_at(*final(cells), q) == cell_at(*old(cells), q),
{
    let mut row = cells[p.row];
    row[p.col] = v;
    cells[p.row] = row;
    proof {
        assert forall|q: Position| in_board(q) && q != p implies #[trigger] cell_at(*cells, q) == cell_at(*old(cells), q) by {
            if q.row == p.row {
                assert(cells[p.row as int] == row);
            }
        }
    }
}

proof fn lemma_cells_equal(a: Cells, b: Cells)
    requires
        forall|p: Position| in_board(p) ==> #[trigger] cell_at(a, p) == cell_at(b, p),
    ensures
        a == b,
{
    assert forall|r: int| 0 <= r < 4 implies a[r] == b[r] by {
        assert forall|c: int| 0 <= c < 4 implies a[r][c] == b[r][c] by {
            assert(cell_at(a, Position { row: r as usize, col: c as usize }) == cell_at(
                b,
                Position { row: r as usize, col: c as usize },
            ));
        }
        assert(a[r] =~= b[r]);
    }
    assert(a =~= b);
}

/// Lay `word[idx..]` from the tile `at` on, after the tiles of `pre`, trying the
/// neighbours in random order. On failure the cells are left as they were.
#[verifier::spinoff_prover]
#[verifier::rlimit(40)]
fn extend_plant(
    grid: &mut Cells,
    word: &[u8],
    idx: usize,
    at: Position,
    visited: u16,
    rng: &mut StdRng,
    Ghost(pre): Ghost<Seq<Position>>,
) -> (found: bool)
    requires
        lower_word(word@),
        idx < word@.len(),
        in_board(at),
        valid_path(pre),
        pre.len() == 0 || adjacent(pre.last(), at),
        mask_of_path(visited, pre),
    ensures
        found ==> exists|rest: Seq<Position>|
            rest.len() >= 1 && rest[0] == at && lays(*old(grid), word@, idx as int, pre, rest) && laid(
                *old(grid),
                *final(grid),
                word@,
                idx as int,
                rest,
            ),
        !found ==> *final(grid) == *old(grid) && forall|rest: Seq<Position>|
            rest.len() >= 1 && rest[0] == at ==> !lays(*old(grid), word@, idx as int, pre, rest),
    decreases free_tiles(visited, 16),
{
    let ghost start = *grid;
    let ghost w = word@;
    let ghost q = pre.push(at);
    let bit: u16 = 1u16 << ((at.row * 4 + at.col) as u16);
    proof {
        lemma_mask_holds(visited, pre, at);
    }
    if visited & bit != 0 {
        proof {
            assert forall|rest: Seq<Position>| rest.len() >= 1 && rest[0] == at implies !lays(
                start,
                w,
                idx as int,
                pre,
                rest,
            ) by {
                let i = choose|i: int| 0 <= i < pre.len() && pre[i] == at;
                assert((pre + rest)[i] == at && (pre + rest)[pre.len() as int] == at);
            }
        }
        return false;
    }
    let b = word[idx];
    let claimed = match grid[at.row][at.col] {
        Some(existing) => {
            let eb = existing.as_bytes();
            let shows = eb.len() == 1 && eb[0] == b;
            if !shows {
                proof {
                    assert(!shows_letter(cell_at(start, at), b)) by {
                        if shows_letter(cell_at(start, at), b) {
                            assert(eb@ == seq![b]);
                        }
                    }
                    assert forall|rest: Seq<Position>| rest.len() >= 1 && rest[0] == at implies !lays(
                        start,
                        w,
                        idx as int,
                        pre,
                        rest,
                    ) by {
                        assert(!can_take(start, rest[0], w[idx as int + 0]));
                    }
                }
                return false;
            }
            proof {
                assert(eb@ =~= seq![b]);
            }
            false
        },
        None => {
            set_cell(grid, at, Some(letter_face(b)));
            true
        },
    };
    let ghost mid = *grid;
    proof {
        lemma_mask_push(visited, pre, at);
        assert(shows_letter(cell_at(mid, at), b));
        assert(forall|p: Position| in_board(p) && p != at ==> #[trigger] cell_at(mid, p) == cell_at(start, p));
        assert(!claimed ==> mid == start);
        assert(claimed ==> cell_at(start, at) is None);
        assert(valid_path(q)) by {
            assert forall|a: int, c: int| 0 <= a < c < q.len() implies q[a] != q[c] by {
                if c == pre.len() && q[a] == at {
                    assert(pre.contains(at));
                }
            }
        }
        assert(pre + seq![at] =~= q);
    }
    proof {
        assert(can_take(start, at, w[idx as int]));
    }
    let next_idx = idx + 1;
    if next_idx == word.len() {
        proof {
            let rest = seq![at];
            assert(pre + rest == q);
            assert(lays(start, w, idx as int, pre, rest)) by {
                assert(rest[0] == at);
                assert(rest.len() == w.len() - idx);
                assert forall|i: int| 0 <= i < rest.len() implies can_take(start, #[trigger] rest[i], w[idx + i]) by {
                    assert(i == 0);
                }
            }
            assert(laid(start, mid, w, idx as int, rest)) by {
                assert forall|i: int| 0 <= i < rest.len() implies shows_letter(
                    cell_at(mid, #[trigger] rest[i]),
                    w[idx + i],
                ) && (cell_at(start, rest[i]) is Some ==> cell_at(mid, rest[i]) == cell_at(start, rest[i])) by {
                    assert(i == 0);
                }
                assert forall|p: Position| in_board(p) && !rest.contains(p) implies #[trigger] cell_at(mid, p)
                    == cell_at(start, p) by {
                    if p == at {
                        assert(rest[0] == at);
                    }
                }
            }
            assert(*grid == mid);
            assert(rest.len() >= 1 && rest[0] == at && lays(start, w, idx as int, pre, rest) && laid(
                start,
                *grid,
                w,
                idx as int,
                rest,
            ));
        }
        return true;
    }
    let seen = visited | bit;
    let mut next = neighbours(at);
    let ghost around_at = next@;
    shuffle(rng, &mut next);
    proof {
        broadcast use group_to_multiset_ensures;

        assert(next@.to_multiset() == around_at.to_multiset());
        assert forall|n: Position| #[trigger] next@.contains(n) <==> in_board(n) && adjacent(at, n) by {
            assert(next@.contains(n) <==> next@.to_multiset().count(n) > 0);
            assert(around_at.contains(n) <==> around_at.to_multiset().count(n) > 0);
            assert(next@.to_multiset().count(n) == around_at.to_multiset().count(n));
        }
    }
    let mut k: usize = 0;
    while k < next.len()
        invariant
            lower_word(word@),
            w == word@,
            idx + 1 < word@.len(),
            next_idx == idx + 1,
            in_board(at),
            q == pre.push(at),
            valid_path(q),
            q.last() == at,
            mask_of_path(seen, q),
            free_tiles(seen, 16) < free_tiles(visited, 16),
            *grid == mid,
            start == *old(grid),
            forall|p: Position| in_board(p) && p != at ==> #[trigger] cell_at(mid, p) == cell_at(start, p),
            shows_letter(cell_at(mid, at), w[idx as int]),
            cell_at(start, at) is Some ==> cell_at(mid, at) == cell_at(start, at),
            can_take(start, at, w[idx as int]),
            claimed ==> cell_at(start, at) is None,
            !claimed ==> mid == start,
            valid_path(pre),
            forall|n: Position| #[trigger] next@.contains(n) <==> in_board(n) && adjacent(at, n),
            0 <= k <= next@.len(),
            forall|j: int, rest: Seq<Position>|
                0 <= j < k && rest.len() >= 1 && rest[0] == #[trigger] next@[j] ==> !#[trigger] lays(
                    mid,
                    w,
                    idx + 1,
                    q,
                    rest,
                ),
        decreases next@.len() - k,
    {
        let n = next[k];
        proof {
            assert(next@.contains(n));
        }
        if extend_plant(grid, word, next_idx, n, seen, rng, Ghost(q)) {
            proof {
                let sub = choose|sub: Seq<Position>|
                    sub.len() >= 1 && sub[0] == n && lays(mid, w, idx + 1, q, sub) && laid(
                        mid,
                        *grid,
                        w,
                        idx + 1,
                        sub,
                    );
                let rest = seq![at] + sub;
                assert(pre + rest =~= q + sub);
                assert forall|i: int| 1 <= i < rest.len() implies rest[i] != at by {
                    assert((q + sub)[pre.len() as int] == at);
                    assert((q + sub)[pre.len() + i] == rest[i]);
                }
                assert(lays(start, w, idx as int, pre, rest)) by {
                    assert forall|i: int| 0 <= i < rest.len() implies can_take(start, #[trigger] rest[i], w[idx + i]) by {
                        if i > 0 {
                            assert(rest[i] == sub[i - 1]);
                            assert(can_take(mid, sub[i - 1], w[idx + 1 + (i - 1)]));
                            assert((q + sub)[pre.len() + i] == sub[i - 1]);
                            assert(in_board(sub[i - 1]));
                            assert(cell_at(mid, sub[i - 1]) == cell_at(start, sub[i - 1]));
                        }
                    }
                }
                assert(laid(start, *grid, w, idx as int, rest)) by {
                    assert(!sub.contains(at)) by {
                        if sub.contains(at) {
                            let i = choose|i: int| 0 <= i < sub.len() && sub[i] == at;
                            assert(rest[i + 1] == at);
                        }
                    }
                    assert forall|i: int| 0 <= i < rest.len() implies shows_letter(
                        cell_at(*grid, #[trigger] rest[i]),
                        w[idx + i],
                    ) && (cell_at(start, rest[i]) is Some ==> cell_at(*grid, rest[i]) == cell_at(start, rest[i])) by {
                        if i > 0 {
                            assert(rest[i] == sub[i - 1]);
                            assert(shows_letter(cell_at(*grid, sub[i - 1]), w[idx + 1 + (i - 1)]));
                            assert((q + sub)[pre.len() + i] == sub[i - 1]);
                            assert(in_board(sub[i - 1]));
                            assert(cell_at(mid, sub[i - 1]) == cell_at(start, sub[i - 1]));
                        } else {
                            assert(rest[0] == at);
                            assert(cell_at(*grid, at) == cell_at(mid, at));
                        }
                    }
                    assert forall|p: Position| in_board(p) && !rest.contains(p) implies #[trigger] cell_at(*grid, p)
                        == cell_at(start, p) by {
                        if sub.contains(p) {
                            let i = choose|i: int| 0 <= i < sub.len() && sub[i] == p;
                            assert(rest[i + 1] == p);
                        }
                        if p == at {
                            assert(rest[0] == at);
                        }
                    }
                }
                assert(rest.len() >= 1 && rest[0] == at);
            }
            return true;
        }
        k += 1;
    }
    if claimed {
        set_cell(grid, at, None);
        proof {
            lemma_cells_equal(*grid, start);
        }
    }
    proof {
        assert forall|rest: Seq<Position>| rest.len() >= 1 && rest[0] == at implies !lays(
            start,
            w,
            idx as int,
            pre,
            rest,
        ) by {
            if lays(start, w, idx as int, pre, rest) {
                let n = rest[1];
                let sub = rest.drop_first();
                assert((pre + rest)[pre.len() as int] == at);
                assert((pre + rest)[pre.len() as int + 1] == n);
                assert(adjacent(at, n));
                assert(in_board(n));
                assert(next@.contains(n));
                let j = choose|j: int| 0 <= j < next@.len() && next@[j] == n;
                assert(q + sub =~= pre + rest);
                assert forall|i: int| 0 <= i < sub.len() implies can_take(mid, #[trigger] sub[i], w[idx + 1 + i]) by {
                    assert(sub[i] == rest[i + 1]);
                    assert((pre + rest)[pre.len() as int] != (pre + rest)[pre.len() + i + 1]);
                    assert(can_take(start, rest[i + 1], w[idx + (i + 1)]));
                }
                assert(lays(mid, w, idx + 1, q, sub));
            }
        }
    }
    false
}

/// Lay `word` across the cells along touching tiles, writing its letters into
/// open cells and reusing any that already show the right letter. Starts are
/// tried in random order, and so are the neighbours at each step. When there is
/// no way to lay the word out, the cells are left untouched.
pub fn plant_word(grid: &mut Cells, word: &str, rng: &mut StdRng) -> (planted: bool)
    requires
        word.spec_bytes().len() >= 1,
        lower_word(word.spec_bytes()),
    ensures
        planted ==> exists|path: Seq<Position>|
            lays(*old(grid), word.spec_bytes(), 0, Seq::empty(), path) && laid(
                *old(grid),
                *final(grid),
                word.spec_bytes(),
                0,
                path,
            ),
        !planted ==> *final(grid) == *old(grid) && forall|path: Seq<Position>|
            !lays(*old(grid), word.spec_bytes(), 0, Seq::empty(), path),
{
    let bytes = word.as_bytes();
    let ghost start = *grid;
    let ghost w = bytes@;
    if bytes.len() > 16 {
        proof {
            assert forall|path: Seq<Position>| !lays(start, w, 0, Seq::<Position>::empty(), path) by {
                if lays(start, w, 0, Seq::<Position>::empty(), path) {
                    assert(Seq::<Position>::empty() + path =~= path);
                    lemma_path_fits(path);
                }
            }
        }
        return false;
    }
    let mut starts: Vec<Position> = Vec::new();
    let mut s: usize = 0;
    while s < 16
        invariant
            0 <= s <= 16,
            forall|p: Position| #[trigger] starts@.contains(p) <==> in_board(p) && p.row * 4 + p.col < s,
        decreases 16 - s,
    {
        let ghost before = starts@;
        let p = Position { row: s / 4, col: s % 4 };
        starts.push(p);
        proof {
            assert forall|x: Position| #[trigger] starts@.contains(x) <==> in_board(x) && x.row * 4 + x.col < s + 1 by {
                if x == p {
                    assert(starts@[starts@.len() - 1] == p);
                }
                if starts@.contains(x) && x != p {
                    let i = choose|i: int| 0 <= i < starts@.len() && starts@[i] == x;
                    assert(before.contains(x)) by {
                        assert(before[i] == x);
                    }
                }
                if in_board(x) && x.row * 4 + x.col < s {
                    assert(before.contains(x));
                    let i = choose|i: int| 0 <= i < before.len() && before[i] == x;
                    assert(starts@[i] == x);
                }
            }
        }
        s += 1;
    }
    let ghost ordered = starts@;
    shuffle(rng, &mut starts);
    proof {
        broadcast use group_to_multiset_ensures;

        assert(starts@.to_multiset() == ordered.to_multiset());
        assert forall|p: Position| #[trigger] starts@.contains(p) <==> in_board(p) by {
            assert(starts@.contains(p) <==> starts@.to_multiset().count(p) > 0);
            assert(ordered.contains(p) <==> ordered.to_multiset().count(p) > 0);
            assert(starts@.to_multiset().count(p) == ordered.to_multiset().count(p));
        }
        lemma_mask_empty();
        assert(valid_path(Seq::<Position>::empty()));
    }
    let mut k: usize = 0;
    while k < starts.len()
        invariant
            lower_word(w),
            w == bytes@,
            w == word.spec_bytes(),
            w.len() >= 1,
            *grid == start,
            start == *old(grid),
            mask_of_path(0, Seq::<Position>::empty()),
            valid_path(Seq::<Position>::empty()),
            forall|p: Position| #[trigger] starts@.contains(p) <==> in_board(p),
            0 <= k <= starts@.len(),
            forall|j: int, rest: Seq<Position>|
                0 <= j < k && rest.len() >= 1 && rest[0] == #[trigger] starts@[j] ==> !#[trigger] lays(
                    start,
                    w,
                    0,
                    Seq::<Position>::empty(),
                    rest,
                ),
        decreases starts@.len() - k,
    {
        let at = starts[k];
        proof {
            assert(starts@.contains(at));
        }
        if extend_plant(grid, bytes, 0, at, 0, rng, Ghost(Seq::empty())) {
            return true;
        }
        k += 1;
    }
    proof {
        assert forall|path: Seq<Position>| !lays(start, w, 0, Seq::<Position>::empty(), path) by {
            if lays(start, w, 0, Seq::<Position>::empty(), path) {
                assert(Seq::<Position>::empty() + path =~= path);
                assert(in_board(path[0]));
                assert(starts@.contains(path[0]));
                let j = choose|j: int| 0 <= j < starts@.len() && starts@[j] == path[0];
            }
        }
    }
    false
}

/// The mask of a path's tiles, with a tile left free for each tile it does
/// not take.
proof fn lemma_path_mask(p: Seq<Position>) -> (mask: u16)
    requires
        valid_path(p),
    ensures
        mask_of_path(mask, p),
        free_tiles(mask, 16) + p.len() == 16,
    decreases p.len(),
{
    if p.len() == 0 {
        lemma_mask_empty();
        0
    } else {
        let q = p.drop_last();
        let at = p.last();
        assert(valid_path(q)) by {
            assert forall|i: int| 0 <= i < q.len() - 1 implies adjacent(#[trigger] q[i], q[i + 1]) by {
                assert(q[i] == p[i] && q[i + 1] == p[i + 1]);
            }
        }
        let m = lemma_path_mask(q);
        assert(in_board(p[p.len() - 1]));
        assert(!q.contains(at)) by {
            if q.contains(at) {
                let i = choose|i: int| 0 <= i < q.len() && q[i] == at;
                assert(p[i] == p[p.len() - 1]);
            }
        }
        lemma_mask_push(m, q, at);
        assert(q.push(at) =~= p);
        m | (1u16 << ((at.row * 4 + at.col) as u16))
    }
}

/// A path over the board takes each tile at most once, so it is at most
/// sixteen tiles long.
pub proof fn lemma_path_fits(p: Seq<Position>)
    requires
        valid_path(p),
    ensures
        p.len() <= 16,
{
    lemma_path_mask(p);
}

/// A path over tiles that each show one letter spells those letters in turn.
proof fn lemma_spells_letters(g: Grid, path: Seq<Position>, word: Seq<u8>)
    requires
        path.len() == word.len(),
        forall|i: int| 0 <= i < path.len() ==> tile(g, #[trigger] path[i]) == seq![word[i]],
    ensures
        spelled(g, path) == word,
    decreases path.len(),
{
    if path.len() > 0 {
        let n = path.len() - 1;
        assert forall|i: int| 0 <= i < n implies tile(g, #[trigger] path.drop_last()[i]) == seq![word.drop_last()[i]] by {
            assert(path.drop_last()[i] == path[i]);
        }
        lemma_spells_letters(g, path.drop_last(), word.drop_last());
        assert(tile(g, path[n]) == seq![word[n]]);
        assert(word.drop_last().push(word[n]) =~= word);
        assert(word.drop_last() + seq![word[n]] =~= word);
    }
}

/// A planted word can be traced: once the open cells are filled, the path it
/// was laid along spells it.
pub proof fn lemma_planted_word_traces(
    before: Cells,
    after: Cells,
    word: Seq<u8>,
    path: Seq<Position>,
    grid: Grid,
)
    requires
        word.len() >= 1,
        lays(before, word, 0, Seq::empty(), path),
        laid(before, after, word, 0, path),
        fills(after, grid),
    ensures
        traces(grid, word, None, path),
{
    assert(Seq::<Position>::empty() + path =~= path);
    assert forall|i: int| 0 <= i < path.len() implies tile(grid, #[trigger] path[i]) == seq![word[i]] by {
        assert(in_board(path[i]));
        assert(shows_letter(cell_at(after, path[i]), word[0 + i]));
        assert(after[path[i].row as int][path[i].col as int] == cell_at(after, path[i]));
    }
    lemma_spells_letters(grid, path, word);
}

/// Add to a ranked list each word of `list` that is one of the theme's.
fn add_theme_words(found: &mut Vec<String>, list: &Vec<String>, theme: &crate::themes::Theme)
    requires
        crate::solver::ranked(bytes_of(old(found)@)),
    ensures
        crate::solver::ranked(bytes_of(final(found)@)),
        forall|w: Seq<u8>|
            #[trigger] bytes_of(final(found)@).contains(w) <==> bytes_of(old(found)@).contains(w) || (bytes_of(
                list@,
            ).contains(w) && bytes_of(theme.all@).contains(w)),
{
    let ghost start = bytes_of(found@);
    let mut i: usize = 0;
    while i < list.len()
        invariant
            0 <= i <= list@.len(),
            start == bytes_of(old(found)@),
            crate::solver::ranked(bytes_of(found@)),
            forall|w: Seq<u8>|
                #[trigger] bytes_of(found@).contains(w) <==> start.contains(w) || (bytes_of(list@).take(
                    i as int,
                ).contains(w) && bytes_of(theme.all@).contains(w)),
        decreases list@.len() - i,
    {
        let w = &list[i];
        let ghost wb = string_bytes(*w);
        let ghost before = bytes_of(found@);
        proof {
            assert(bytes_of(list@)[i as int] == wb);
            assert(bytes_of(list@).take(i + 1) =~= bytes_of(list@).take(i as int).push(wb));
            assert forall|x: Seq<u8>| #[trigger] bytes_of(list@).take(i + 1).contains(x) <==> bytes_of(list@).take(
                i as int,
            ).contains(x) || x == wb by {
                let t = bytes_of(list@).take(i as int);
                if t.push(wb).contains(x) && x != wb {
                    let j = choose|j: int| 0 <= j < t.push(wb).len() && t.push(wb)[j] == x;
                    assert(t[j] == x);
                }
                if t.contains(x) {
                    let j = choose|j: int| 0 <= j < t.len() && t[j] == x;
                    assert(t.push(wb)[j] == x);
                }
                if x == wb {
                    assert(t.push(wb)[t.len() as int] == x);
                }
            }
        }
        let ws = w.as_str();
        proof {
            assert(ws.spec_bytes() == wb);
        }
        if theme.has_word(ws) {
            let k = crate::solver::insert_word(found, w.clone());
            proof {
                assert forall|x: Seq<u8>| #[trigger] bytes_of(found@).contains(x) <==> before.contains(x) || x
                    == wb by {
                    if !before.contains(wb) {
                        assert(bytes_of(found@) =~= before.insert(k as int, wb));
                        if bytes_of(found@).contains(x) {
                            let j = choose|j: int| 0 <= j < bytes_of(found@).len() && bytes_of(found@)[j] == x;
                            if j < k {
                                assert(before[j] == x);
                            } else if j > k {
                                assert(before[j - 1] == x);
                            }
                        }
                        if before.contains(x) {
                            let j = choose|j: int| 0 <= j < before.len() && before[j] == x;
                            if j < k {
                                assert(bytes_of(found@)[j] == x);
                            } else {
                                assert(bytes_of(found@)[j + 1] == x);
                            }
                        }
                        if x == wb {
                            assert(bytes_of(found@)[k as int] == x);
                        }
                    }
                }
            }
        }
        i += 1;
    }
    proof {
        assert(bytes_of(list@).take(list@.len() as int) =~= bytes_of(list@));
    }
}

/// The theme's words on the board, common and obscure alike, longest first
/// and alphabetical within a length, each once.
pub fn collect_theme_words(words: &BoardWords, theme: &crate::themes::Theme) -> (found: Vec<String>)
    ensures
        crate::solver::ranked(bytes_of(found@)),
        forall|w: Seq<u8>|
            #[trigger] bytes_of(found@).contains(w) <==> (bytes_of(words.common@).contains(w) || bytes_of(
                words.obscure@,
            ).contains(w)) && bytes_of(theme.all@).contains(w),
{
    let mut found: Vec<String> = Vec::new();
    proof {
        assert(bytes_of(found@) =~= Seq::<Seq<u8>>::empty());
    }
    add_theme_words(&mut found, &words.common, theme);
    add_theme_words(&mut found, &words.obscure, theme);
    found
}

} // verus!
