//! Playing a round: tracing a trail over the board, handing words in, the
//! score and its letter bonus, and the round's clock.
//!
//! The clock counts milliseconds. Saving is asked for rather than done: the
//! round says what its save slot should hold, and whoever runs the game writes
//! it.

use vstd::prelude::*;
use vstd::string::{StringExecFns, StringSliceAdditionalSpecFns};
use crate::dictionary::{lowered, Dictionary, MIN_WORD_LEN};
use crate::game::{
    adjacent, bonus_for, in_board, points_for_len, is_adjacent, letter_bonus, lemma_spelled_len, lemma_spelled_push,
    score_word, spelled, string_bytes, tile, tiles_ok, valid_path, word_score_for, Grid, Position,
    RESULTS_SECONDS, ROUND_SECONDS, SIZE,
};
use crate::league::{form, mean, step_league, RankChange, Ranking, TOP_LEAGUE};
use crate::rotation::SoloRotation;
use crate::solver::{capped, lemma_encode_concat, BoardWords};
use crate::themes::Themes;
use rand::rngs::StdRng;

verus! {

/// A round, in milliseconds.
pub const ROUND_MILLIS: u32 = ROUND_SECONDS * 1000;
/// The scorecard, in milliseconds.
pub const RESULTS_MILLIS: u32 = RESULTS_SECONDS * 1000;
/// How often a round in play is saved as its clock runs down.
pub const SAVE_EVERY_MILLIS: u32 = 5_000;
/// How long the word just handed in stays on show.
pub const ACCEPTED_MILLIS: u32 = 900;
pub const REJECTED_MILLIS: u32 = 700;

#[derive(Clone, Copy, PartialEq, Eq, Structural, Debug)]
pub enum Phase {
    Ready,
    Playing,
    Over,
}

/// What became of the word just handed in.
#[derive(Clone, Copy, PartialEq, Eq, Structural, Debug)]
pub enum Feedback {
    /// Nothing on show.
    Idle,
    Accepted,
    NotAWord,
    Duplicate,
    TooShort,
}

#[derive(Clone)]
pub struct FoundWord {
    pub word: String,
    pub points: u32,
    /// The tiles traced to spell it. The letter bonus follows the tiles
    /// actually used, and a word can often be traced more than one way.
    pub path: Vec<Position>,
}

/// A round in play, as it is saved.
#[derive(Clone, Debug, PartialEq)]
pub struct SavedRound {
    /// The server's round, or `None` for a solo round.
    pub round: Option<u64>,
    /// Sixteen tiles, row by row.
    pub grid: Vec<String>,
    pub theme: Option<String>,
    /// Milliseconds left on the round's clock.
    pub time_left: u32,
    /// Each found word and the path it was traced along.
    pub found: Vec<(String, Vec<Position>)>,
}

/// What the round's save slot should be made to hold.
pub enum RoundSave {
    /// Nothing to do.
    Unchanged,
    /// The round in play, as it now stands.
    Write(SavedRound),
    /// Nothing: the round is over and banked.
    Clear,
}

pub struct Game {
    pub dictionary: Dictionary,
    pub grid: Grid,
    /// The trail being traced.
    pub path: Vec<Position>,
    /// The words found this round, in the order they were found.
    pub found: Vec<FoundWord>,
    /// Every word hiding on the current board, split by tier.
    pub words: BoardWords,
    /// How many times each tile was used across the words found.
    pub tile_uses: [[u32; SIZE]; SIZE],
    /// The category this board was built around, if any.
    pub theme: Option<String>,
    /// The server's round when this board is the one everyone is playing;
    /// `None` for a board made here for solo play.
    pub round: Option<u64>,
    pub themes: Themes,
    pub score: u32,
    /// Milliseconds left in the round.
    pub time_left: u32,
    /// Milliseconds left on the scorecard before the next round starts.
    pub results_left: u32,
    pub phase: Phase,
    pub ranking: Ranking,
    /// How the round just played moved the player on the ladder.
    pub rank_change: Option<RankChange>,
    pub is_dragging: bool,
    /// What solo play serves next, when there is no server.
    pub solo: SoloRotation,
    /// Where the boards made here get their dice rolls.
    pub rng: StdRng,
    /// A round saved before the game last closed, waiting to be picked back up.
    pub pending_resume: Option<SavedRound>,
    /// Milliseconds of play since the round was last saved.
    pub since_saved: u32,
    /// What the round's save slot should now hold.
    pub round_save: RoundSave,
    /// The ranking has changed and should be stored.
    pub ranking_changed: bool,
    // What the screen animates against: the word just handed in.
    pub feedback: Feedback,
    pub feedback_word: String,
    pub feedback_points: u32,
    pub feedback_timer: u32,
    pub feedback_cells: Vec<Position>,
}

/// The words found, as bytes, in the order they were found.
pub open spec fn found_list(found: Seq<FoundWord>) -> Seq<Seq<u8>> {
    found.map_values(|f: FoundWord| string_bytes(f.word))
}

/// The points of the words found.
pub open spec fn points_total(found: Seq<FoundWord>) -> nat
    decreases found.len(),
{
    if found.len() == 0 {
        0
    } else {
        points_total(found.drop_last()) + found.last().points as nat
    }
}

/// The letters of the words found, all together.
pub open spec fn letters_total(found: Seq<FoundWord>) -> nat
    decreases found.len(),
{
    if found.len() == 0 {
        0
    } else {
        letters_total(found.drop_last()) + string_bytes(found.last().word).len()
    }
}

/// The score for the words found and the tile uses they earned: their points
/// and the letter bonus, held at the largest `u32`.
pub open spec fn round_score(found: Seq<FoundWord>, uses: [[u32; SIZE]; SIZE]) -> u32 {
    capped(points_total(found) + bonus_for(uses))
}

/// The points a word of the board's dictionary scores: obscure ones 10% more.
pub open spec fn points_in(d: Dictionary, word: Seq<u8>) -> nat {
    word_score_for(word, !d.common().contains(lowered(word)))
}

impl Game {
    /// What every method relies on: a sound dictionary, tiles that show
    /// letters, a trail that is a path over the board, found paths on the board,
    /// and no word found twice.
    pub open spec fn wf(&self) -> bool {
        &&& self.dictionary.wf()
        &&& tiles_ok(self.grid)
        &&& valid_path(self.path@)
        &&& forall|i: int| 0 <= i < self.found@.len() ==> valid_path(#[trigger] self.found@[i].path@)
        &&& found_list(self.found@).no_duplicates()
        &&& self.ranking.league <= TOP_LEAGUE
    }

    /// Everything but the trail is as it was.
    pub open spec fn same_but_path(&self, other: &Game) -> bool {
        &&& (Game { path: other.path, ..*self }) == *other
    }

    // --- tracing -----------------------------------------------------------

    /// Start a trail at `pos`, during a round.
    pub fn begin_path(&mut self, pos: Position)
        requires
            old(self).wf(),
            in_board(pos),
        ensures
            final(self).wf(),
            old(self).same_but_path(final(self)),
            old(self).phase == Phase::Playing ==> final(self).path@ == seq![pos],
            old(self).phase != Phase::Playing ==> final(self).path@ == old(self).path@,
    {
        if self.phase != Phase::Playing {
            return;
        }
        self.path.clear();
        self.path.push(pos);
    }

    /// Carry the trail on to `pos`: a touching tile joins it, a tile already
    /// on it rewinds the trail to there, and anything else changes nothing.
    pub fn extend_path(&mut self, pos: Position)
        requires
            old(self).wf(),
            in_board(pos),
        ensures
            final(self).wf(),
            old(self).same_but_path(final(self)),
            old(self).phase != Phase::Playing ==> final(self).path@ == old(self).path@,
            old(self).phase == Phase::Playing && old(self).path@.contains(pos) ==> exists|i: int|
                0 <= i < old(self).path@.len() && old(self).path@[i] == pos && final(self).path@
                    == old(self).path@.take(i + 1),
            !old(self).path@.contains(pos) ==> final(self).path@ == if old(self).phase != Phase::Playing {
                old(self).path@
            } else if old(self).path@.len() == 0 {
                seq![pos]
            } else if adjacent(old(self).path@.last(), pos) {
                old(self).path@.push(pos)
            } else {
                old(self).path@
            },
    {
        if self.phase != Phase::Playing {
            return;
        }
        let n = self.path.len();
        let ghost before = *self;
        let mut i: usize = 0;
        while i < n
            invariant
                *self == before,
                before == *old(self),
                before.wf(),
                before.phase == Phase::Playing,
                n == self.path@.len(),
                0 <= i <= n,
                forall|k: int| 0 <= k < i ==> self.path@[k] != pos,
            decreases n - i,
        {
            if self.path[i].row == pos.row && self.path[i].col == pos.col {
                proof {
                    assert(self.path@[i as int] == pos);
                }
                self.path.truncate(i + 1);
                proof {
                    assert(self.path@ =~= before.path@.take(i + 1));
                    assert(forall|k: int| 0 <= k < self.path@.len() ==> self.path@[k] == before.path@[k]);
                    assert(valid_path(self.path@));
                    assert((Game { path: self.path, ..before }) == *self);
                }
                return;
            }
            i += 1;
        }
        if n == 0 {
            self.path.push(pos);
        } else if is_adjacent(self.path[n - 1], pos) {
            self.path.push(pos);
            proof {
                assert(!before.path@.contains(pos));
                assert forall|a: int, b: int| 0 <= a < b < self.path@.len() implies self.path@[a] != self.path@[b] by {
                    if b == n {
                        assert(before.path@[a] != pos);
                    }
                }
            }
        }
    }

    pub fn clear_path(&mut self)
        requires
            old(self).wf(),
        ensures
            final(self).wf(),
            old(self).same_but_path(final(self)),
            final(self).path@.len() == 0,
    {
        self.path.clear();
    }

    pub fn path_contains(&self, pos: Position) -> (on: bool)
        ensures
            on == self.path@.contains(pos),
    {
        let mut k: usize = 0;
        while k < self.path.len()
            invariant
                0 <= k <= self.path@.len(),
                forall|m: int| 0 <= m < k ==> self.path@[m] != pos,
            decreases self.path@.len() - k,
        {
            if self.path[k].row == pos.row && self.path[k].col == pos.col {
                proof {
                    assert(self.path@[k as int] == pos);
                }
                return true;
            }
            k += 1;
        }
        false
    }

    /// The letters the trail spells.
    pub fn current_word(&self) -> (word: String)
        requires
            self.wf(),
        ensures
            string_bytes(word) == spelled(self.grid, self.path@),
    {
        let mut word = String::new();
        let mut k: usize = 0;
        proof {
            assert(string_bytes(word) =~= Seq::<u8>::empty());
        }
        while k < self.path.len()
            invariant
                self.wf(),
                0 <= k <= self.path@.len(),
                string_bytes(word) == spelled(self.grid, self.path@.take(k as int)),
            decreases self.path@.len() - k,
        {
            let p = self.path[k];
            proof {
                assert(in_board(self.path@[k as int]));
            }
            let letters = self.grid[p.row][p.col].letters;
            let ghost before = word@;
            word = word.concat(letters);
            proof {
                lemma_encode_concat(before, letters@);
                lemma_spelled_push(self.grid, self.path@.take(k as int), p);
                assert(self.path@.take(k + 1) =~= self.path@.take(k as int).push(p));
            }
            k += 1;
        }
        proof {
            assert(self.path@.take(self.path@.len() as int) =~= self.path@);
        }
        word
    }
}


/// The tile in reading order at `i`.
pub open spec fn slot_at(i: int) -> Position {
    Position { row: (i / 4) as usize, col: (i % 4) as usize }
}

/// `s` is the round `g` holds, as it would be saved.
pub open spec fn saves_round(g: Game, s: SavedRound) -> bool {
    &&& s.round == g.round
    &&& s.time_left == g.time_left
    &&& s.theme == g.theme
    &&& s.grid@.len() == 16
    &&& forall|i: int| 0 <= i < 16 ==> string_bytes(#[trigger] s.grid@[i]) == tile(g.grid, slot_at(i))
    &&& s.found@.len() == g.found@.len()
    &&& forall|i: int|
        0 <= i < s.found@.len() ==> string_bytes((#[trigger] s.found@[i]).0) == string_bytes(g.found@[i].word)
            && s.found@[i].1@ == g.found@[i].path@
}

/// Each tile on `path` used once more, held at the largest `u32`; the rest
/// as they were.
pub open spec fn used_along(before: [[u32; SIZE]; SIZE], after: [[u32; SIZE]; SIZE], path: Seq<Position>) -> bool {
    forall|r: int, c: int|
        0 <= r < 4 && 0 <= c < 4 ==> #[trigger] after[r][c] == if path.contains(
            Position { row: r as usize, col: c as usize },
        ) {
            capped((before[r][c] + 1) as nat)
        } else {
            before[r][c]
        }
}

/// What handing in `w` comes to: too short, found already, not a word, or a
/// new find.
pub open spec fn verdict(d: Dictionary, found: Seq<FoundWord>, w: Seq<u8>) -> Feedback {
    if w.len() < MIN_WORD_LEN {
        Feedback::TooShort
    } else if found_list(found).contains(w) {
        Feedback::Duplicate
    } else if !d.accepted().contains(lowered(w)) {
        Feedback::NotAWord
    } else {
        Feedback::Accepted
    }
}

impl Game {
    pub fn has_found(&self, word: &str) -> (found: bool)
        ensures
            found == found_list(self.found@).contains(word.spec_bytes()),
    {
        let w = word.as_bytes();
        let mut i: usize = 0;
        while i < self.found.len()
            invariant
                0 <= i <= self.found@.len(),
                w@ == word.spec_bytes(),
                forall|j: int| 0 <= j < i ==> found_list(self.found@)[j] != w@,
            decreases self.found@.len() - i,
        {
            if crate::themes::same_bytes(self.found[i].word.as_str().as_bytes(), w) {
                proof {
                    assert(found_list(self.found@)[i as int] == w@);
                }
                return true;
            }
            i += 1;
        }
        false
    }

    /// What a word on this board scores, by its length and its tier.
    pub fn word_score(&self, word: &str) -> (points: u32)
        requires
            self.dictionary.wf(),
            word.spec_bytes().len() <= 10_737_420,
            !self.dictionary.common().contains(lowered(word.spec_bytes())) ==> points_for_len(
                word.spec_bytes().len(),
            ) * 11 <= u32::MAX,
        ensures
            points == points_in(self.dictionary, word.spec_bytes()),
    {
        let obscure = !self.dictionary.is_common(word);
        score_word(word, obscure)
    }

    /// The bonus the letters used so far have earned.
    pub fn letter_bonus(&self) -> (bonus: u32)
        ensures
            bonus == bonus_for(self.tile_uses),
    {
        letter_bonus(&self.tile_uses)
    }

    /// The words' points and the letter bonus, held at the largest `u32`.
    fn tally(&self) -> (score: u32)
        ensures
            score == round_score(self.found@, self.tile_uses),
    {
        let cap: u64 = 0x1_0000_0000;
        let mut sum: u64 = 0;
        let mut i: usize = 0;
        while i < self.found.len()
            invariant
                0 <= i <= self.found@.len(),
                cap == 0x1_0000_0000,
                sum == if points_total(self.found@.take(i as int)) < cap {
                    points_total(self.found@.take(i as int))
                } else {
                    cap as nat
                },
            decreases self.found@.len() - i,
        {
            proof {
                assert(self.found@.take(i + 1).drop_last() =~= self.found@.take(i as int));
            }
            sum = sum + self.found[i].points as u64;
            if sum > cap {
                sum = cap;
            }
            i += 1;
        }
        proof {
            assert(self.found@.take(self.found@.len() as int) =~= self.found@);
        }
        let bonus = letter_bonus(&self.tile_uses) as u64;
        let all = sum + bonus;
        if all > u32::MAX as u64 {
            u32::MAX
        } else {
            all as u32
        }
    }

    /// The round as it would be saved.
    fn saved(&self) -> (s: SavedRound)
        ensures
            saves_round(*self, s),
    {
        let mut grid: Vec<String> = Vec::new();
        let mut i: usize = 0;
        while i < 16
            invariant
                0 <= i <= 16,
                grid@.len() == i,
                forall|k: int| 0 <= k < i ==> string_bytes(#[trigger] grid@[k]) == tile(self.grid, slot_at(k)),
            decreases 16 - i,
        {
            grid.push(self.grid[i / 4][i % 4].letters.to_owned());
            i += 1;
        }
        let mut found: Vec<(String, Vec<Position>)> = Vec::new();
        let mut k: usize = 0;
        while k < self.found.len()
            invariant
                0 <= k <= self.found@.len(),
                found@.len() == k,
                forall|m: int|
                    0 <= m < k ==> string_bytes((#[trigger] found@[m]).0) == string_bytes(self.found@[m].word)
                        && found@[m].1@ == self.found@[m].path@,
            decreases self.found@.len() - k,
        {
            let f = &self.found[k];
            found.push((f.word.clone(), copy_path(&f.path)));
            k += 1;
        }
        let theme = match &self.theme {
            Some(t) => Some(t.clone()),
            None => None,
        };
        SavedRound { round: self.round, grid, theme, time_left: self.time_left, found }
    }

    /// Ask for the round in play to be saved, so closing the game does not lose
    /// it.
    fn save_round(&mut self)
        ensures
            *final(self) == (Game { since_saved: 0, round_save: final(self).round_save, ..*old(self) }),
            old(self).phase == Phase::Playing ==> (final(self).round_save matches RoundSave::Write(s)
                && saves_round(*final(self), s)),
            old(self).phase != Phase::Playing ==> final(self).round_save == old(self).round_save,
    {
        self.since_saved = 0;
        if self.phase != Phase::Playing {
            return;
        }
        let s = self.saved();
        self.round_save = RoundSave::Write(s);
    }

    fn set_feedback(&mut self, kind: Feedback, word: String, points: u32, cells: Vec<Position>)
        ensures
            *final(self) == (Game {
                feedback: kind,
                feedback_word: word,
                feedback_points: points,
                feedback_timer: if kind == Feedback::Accepted {
                    ACCEPTED_MILLIS
                } else {
                    REJECTED_MILLIS
                },
                feedback_cells: cells,
                ..*old(self)
            }),
    {
        self.feedback = kind;
        self.feedback_word = word;
        self.feedback_points = points;
        self.feedback_timer = if kind == Feedback::Accepted { ACCEPTED_MILLIS } else { REJECTED_MILLIS };
        self.feedback_cells = cells;
    }

    fn clear_feedback(&mut self)
        ensures
            final(self).feedback == Feedback::Idle,
            final(self).feedback_word@.len() == 0,
            final(self).feedback_points == 0,
            final(self).feedback_timer == 0,
            final(self).feedback_cells@.len() == 0,
            *final(self) == (Game {
                feedback: final(self).feedback,
                feedback_word: final(self).feedback_word,
                feedback_points: final(self).feedback_points,
                feedback_timer: final(self).feedback_timer,
                feedback_cells: final(self).feedback_cells,
                ..*old(self)
            }),
    {
        self.feedback = Feedback::Idle;
        self.feedback_word = String::new();
        self.feedback_points = 0;
        self.feedback_timer = 0;
        self.feedback_cells = Vec::new();
    }
}


/// A copy of a path.
fn copy_path(p: &Vec<Position>) -> (out: Vec<Position>)
    ensures
        out@ == p@,
{
    let mut out: Vec<Position> = Vec::new();
    let mut j: usize = 0;
    while j < p.len()
        invariant
            0 <= j <= p@.len(),
            out@ == p@.take(j as int),
        decreases p@.len() - j,
    {
        out.push(p[j]);
        proof {
            assert(p@.take(j + 1) =~= p@.take(j as int).push(p@[j as int]));
        }
        j += 1;
    }
    proof {
        assert(p@.take(p@.len() as int) =~= p@);
    }
    out
}

/// Each tile of `path` used once more, held at the largest `u32`.
fn use_tiles(uses: &mut [[u32; SIZE]; SIZE], path: &Vec<Position>)
    requires
        valid_path(path@),
    ensures
        used_along(*old(uses), *final(uses), path@),
{
    let ghost before = *uses;
    let mut k: usize = 0;
    while k < path.len()
        invariant
            valid_path(path@),
            0 <= k <= path@.len(),
            used_along(before, *uses, path@.take(k as int)),
        decreases path@.len() - k,
    {
        let at = path[k];
        proof {
            assert(in_board(path@[k as int]));
        }
        let ghost mid = *uses;
        let u = uses[at.row][at.col];
        let v = if u < u32::MAX { u + 1 } else { u };
        let mut row = uses[at.row];
        row[at.col] = v;
        uses[at.row] = row;
        proof {
            let next = path@.take(k + 1);
            assert(next =~= path@.take(k as int).push(at));
            assert(!path@.take(k as int).contains(at)) by {
                if path@.take(k as int).contains(at) {
                    let m = choose|m: int| 0 <= m < k && path@.take(k as int)[m] == at;
                    assert(path@[m] == path@[k as int]);
                }
            }
            assert forall|r: int, c: int| 0 <= r < 4 && 0 <= c < 4 implies #[trigger] uses[r][c] == if next.contains(
                Position { row: r as usize, col: c as usize },
            ) {
                capped((before[r][c] + 1) as nat)
            } else {
                before[r][c]
            } by {
                let q = Position { row: r as usize, col: c as usize };
                if r == at.row && c == at.col {
                    assert(q == at);
                    assert(next.contains(q)) by {
                        assert(next[k as int] == q);
                    }
                    assert(mid[r][c] == before[r][c]);
                } else {
                    assert(uses[r][c] == mid[r][c]);
                    assert(q != at);
                    if next.contains(q) {
                        let m = choose|m: int| 0 <= m < next.len() && next[m] == q;
                        assert(path@.take(k as int).contains(q)) by {
                            assert(path@.take(k as int)[m] == q);
                        }
                    }
                    if path@.take(k as int).contains(q) {
                        let m = choose|m: int| 0 <= m < k && path@.take(k as int)[m] == q;
                        assert(next[m] == q);
                    }
                }
            }
        }
        k += 1;
    }
    proof {
        assert(path@.take(path@.len() as int) =~= path@);
    }
}

impl Game {
    /// Hand in the traced word and clear the trail. A new word of three letters
    /// or more that the list accepts is found: it scores by its length and tier,
    /// its tiles are used once more, and the score takes in both.
    #[verifier::spinoff_prover]
    pub fn submit_path(&mut self)
        requires
            old(self).wf(),
        ensures
            final(self).wf(),
            final(self).path@.len() == 0,
            old(self).phase != Phase::Playing || old(self).path@.len() == 0 ==> old(self).same_but_path(
                final(self),
            ),
            old(self).phase == Phase::Playing && old(self).path@.len() > 0 ==> {
                let w = spelled(old(self).grid, old(self).path@);
                let v = verdict(old(self).dictionary, old(self).found@, w);
                &&& final(self).feedback == v
                &&& string_bytes(final(self).feedback_word) == w
                &&& final(self).feedback_cells@ == old(self).path@
                &&& final(self).feedback_timer == if v == Feedback::Accepted {
                    ACCEPTED_MILLIS
                } else {
                    REJECTED_MILLIS
                }
                &&& v != Feedback::Accepted ==> final(self).feedback_points == 0 && *final(self) == (Game {
                    path: final(self).path,
                    feedback: final(self).feedback,
                    feedback_word: final(self).feedback_word,
                    feedback_points: final(self).feedback_points,
                    feedback_timer: final(self).feedback_timer,
                    feedback_cells: final(self).feedback_cells,
                    ..*old(self)
                })
                &&& v == Feedback::Accepted ==> {
                    &&& final(self).found@.len() == old(self).found@.len() + 1
                    &&& final(self).found@.drop_last() == old(self).found@
                    &&& string_bytes(final(self).found@.last().word) == w
                    &&& final(self).found@.last().points == points_in(old(self).dictionary, w)
                    &&& final(self).found@.last().path@ == old(self).path@
                    &&& used_along(old(self).tile_uses, final(self).tile_uses, old(self).path@)
                    &&& final(self).score == round_score(final(self).found@, final(self).tile_uses)
                    &&& final(self).feedback_points == final(self).found@.last().points
                    &&& final(self).since_saved == 0
                    &&& final(self).round_save matches RoundSave::Write(s) && saves_round(*final(self), s)
                    &&& *final(self) == (Game {
                        path: final(self).path,
                        found: final(self).found,
                        tile_uses: final(self).tile_uses,
                        score: final(self).score,
                        since_saved: final(self).since_saved,
                        round_save: final(self).round_save,
                        feedback: final(self).feedback,
                        feedback_word: final(self).feedback_word,
                        feedback_points: final(self).feedback_points,
                        feedback_timer: final(self).feedback_timer,
                        feedback_cells: final(self).feedback_cells,
                        ..*old(self)
                    })
                }
            },
    {
        if self.phase != Phase::Playing || self.path.len() == 0 {
            self.path.clear();
            return;
        }
        let ghost w = spelled(self.grid, self.path@);
        let word = self.current_word();
        let mut cells: Vec<Position> = Vec::new();
        std::mem::swap(&mut cells, &mut self.path);
        let text = word.as_str();
        proof {
            assert(text.spec_bytes() == w);
        }
        if text.as_bytes().len() < MIN_WORD_LEN {
            self.set_feedback(Feedback::TooShort, word, 0, cells);
            return;
        }
        if self.has_found(word.as_str()) {
            self.set_feedback(Feedback::Duplicate, word, 0, cells);
            return;
        }
        if !self.dictionary.contains(word.as_str()) {
            self.set_feedback(Feedback::NotAWord, word, 0, cells);
            return;
        }
        proof {
            self.dictionary.lemma_common_accepted();
            assert(lowered(w).len() == w.len());
        }
        let points = self.word_score(word.as_str());
        use_tiles(&mut self.tile_uses, &cells);
        let ghost old_found = self.found@;
        self.found.push(FoundWord { word: word.clone(), points, path: copy_path(&cells) });
        proof {
            assert(found_list(self.found@) =~= found_list(old_found).push(w));
            assert(self.found@.drop_last() =~= old_found);
        }
        self.score = self.tally();
        self.set_feedback(Feedback::Accepted, word, points, cells);
        self.save_round();
    }
}


/// `after` is `before` with a round of `score` banked, moving as `change` says.
pub open spec fn banks_round(before: Ranking, after: Ranking, score: u32, change: RankChange) -> bool {
    &&& after.recent@ == form(before.recent@.push(score))
    &&& after.best_score == if score > before.best_score {
        score
    } else {
        before.best_score
    }
    &&& change.average == mean(after.recent@)
    &&& change.from == before.league
    &&& (change.movement, change.to as nat) == step_league(
        before.league as nat,
        after.recent@.len(),
        change.average as nat,
    )
    &&& after.league == change.to
}

/// `after` is `before` with its round ended: on to the scorecard, the trail
/// dropped, the save slot cleared, and the round banked when it scored.
pub open spec fn ended(before: Game, after: Game) -> bool {
    &&& after.phase == Phase::Over
    &&& after.results_left == RESULTS_MILLIS
    &&& after.path@.len() == 0
    &&& !after.is_dragging
    &&& after.round_save == RoundSave::Clear
    &&& before.score > 0 ==> {
        &&& (after.rank_change matches Some(change) && banks_round(before.ranking, after.ranking, before.score, change))
        &&& after.ranking_changed
    }
    &&& before.score == 0 ==> after.rank_change is None && after.ranking == before.ranking
        && after.ranking_changed == before.ranking_changed
    &&& after == (Game {
        phase: after.phase,
        results_left: after.results_left,
        path: after.path,
        is_dragging: after.is_dragging,
        round_save: after.round_save,
        rank_change: after.rank_change,
        ranking: after.ranking,
        ranking_changed: after.ranking_changed,
        ..before
    })
}

impl Game {
    /// End the round: on to the scorecard. A round that scored is banked into
    /// the rank average; one with nothing found was not played, and a zero
    /// would drag the average down for it.
    pub fn end_round(&mut self)
        requires
            old(self).wf(),
        ensures
            final(self).wf(),
            old(self).phase != Phase::Playing ==> *final(self) == *old(self),
            old(self).phase == Phase::Playing ==> ended(*old(self), *final(self)),
    {
        if self.phase != Phase::Playing {
            return;
        }
        self.phase = Phase::Over;
        self.results_left = RESULTS_MILLIS;
        self.path.clear();
        self.is_dragging = false;
        self.round_save = RoundSave::Clear;
        self.rank_change = None;
        if self.counts_toward_rank() {
            let change = self.ranking.record(self.score);
            self.rank_change = Some(change);
            self.ranking_changed = true;
        }
    }

    /// Whether this round is banked into the rank average: only a round in
    /// which the player actually scored is.
    pub fn counts_toward_rank(&self) -> (counts: bool)
        ensures
            counts == (self.score > 0),
    {
        self.score > 0
    }

    /// Leave a round part way through. Whatever was scored is banked now,
    /// exactly as if the round had ended, and the player goes home rather than
    /// on to the scorecard.
    pub fn leave_round(&mut self)
        requires
            old(self).wf(),
        ensures
            final(self).wf(),
            old(self).phase != Phase::Playing ==> *final(self) == *old(self),
            old(self).phase == Phase::Playing ==> final(self).phase == Phase::Ready && ended(
                *old(self),
                (Game { phase: Phase::Over, ..*final(self) }),
            ),
    {
        if self.phase != Phase::Playing {
            return;
        }
        self.end_round();
        self.phase = Phase::Ready;
    }

    /// Put the scorecard away. The round was banked when it ended.
    pub fn close_results(&mut self)
        requires
            old(self).wf(),
        ensures
            final(self).wf(),
            *final(self) == (Game {
                phase: if old(self).phase == Phase::Over {
                    Phase::Ready
                } else {
                    old(self).phase
                },
                ..*old(self)
            }),
    {
        if self.phase == Phase::Over {
            self.phase = Phase::Ready;
        }
    }

    /// Let `dt` milliseconds pass: the word on show fades, the scorecard
    /// counts down, and a round in play runs its clock down, is saved every
    /// five seconds, and ends when its time is up.
    pub fn tick(&mut self, dt: u32)
        requires
            old(self).wf(),
        ensures
            final(self).wf(),
            ({
                let faded = if old(self).feedback_timer == 0 {
                    *old(self)
                } else if dt >= old(self).feedback_timer {
                    Game {
                        feedback: Feedback::Idle,
                        feedback_word: final(self).feedback_word,
                        feedback_points: 0,
                        feedback_timer: 0,
                        feedback_cells: final(self).feedback_cells,
                        ..*old(self)
                    }
                } else {
                    Game { feedback_timer: (old(self).feedback_timer - dt) as u32, ..*old(self) }
                };
                let ran = Game {
                    time_left: if dt >= faded.time_left {
                        0
                    } else {
                        (faded.time_left - dt) as u32
                    },
                    since_saved: if faded.since_saved + dt > u32::MAX {
                        u32::MAX
                    } else {
                        (faded.since_saved + dt) as u32
                    },
                    ..faded
                };
                &&& old(self).feedback_timer > 0 && dt >= old(self).feedback_timer ==> final(self).feedback_word@.len()
                    == 0 && final(self).feedback_cells@.len() == 0
                &&& old(self).phase == Phase::Ready ==> *final(self) == faded
                &&& old(self).phase == Phase::Over ==> *final(self) == (Game {
                    results_left: if dt >= faded.results_left {
                        0
                    } else {
                        (faded.results_left - dt) as u32
                    },
                    ..faded
                })
                &&& old(self).phase == Phase::Playing ==> {
                    let saved = if ran.since_saved >= SAVE_EVERY_MILLIS {
                        Game { since_saved: 0, round_save: final(self).round_save, ..ran }
                    } else {
                        ran
                    };
                    &&& ran.since_saved >= SAVE_EVERY_MILLIS && ran.time_left > 0 ==> (final(self).round_save matches RoundSave::Write(s) && saves_round(saved, s))
                    &&& ran.time_left > 0 ==> *final(self) == saved
                    &&& ran.time_left == 0 ==> ended(saved, *final(self))
                }
            }),
    {
        if self.feedback_timer > 0 {
            if dt >= self.feedback_timer {
                self.clear_feedback();
            } else {
                self.feedback_timer = self.feedback_timer - dt;
            }
        }
        if self.phase == Phase::Over {
            self.results_left = if dt >= self.results_left { 0 } else { self.results_left - dt };
            return;
        }
        if self.phase != Phase::Playing {
            return;
        }
        self.time_left = if dt >= self.time_left { 0 } else { self.time_left - dt };
        self.since_saved = if self.since_saved as u64 + dt as u64 > u32::MAX as u64 {
            u32::MAX
        } else {
            self.since_saved + dt
        };
        if self.since_saved >= SAVE_EVERY_MILLIS {
            self.save_round();
        }
        if self.time_left == 0 {
            self.end_round();
        }
    }
}


/// `after` is `before` with a fresh round under way: no trail, nothing found,
/// no score and no tile used, the clock at `time_left`, and the round saved.
pub open spec fn started(before: Game, after: Game, theme: Option<String>, round: Option<u64>, time_left: u32) -> bool {
    &&& after.theme == theme
    &&& after.round == round
    &&& after.time_left == time_left
    &&& after.path@.len() == 0
    &&& after.found@.len() == 0
    &&& after.score == 0
    &&& forall|r: int, c: int| 0 <= r < 4 && 0 <= c < 4 ==> #[trigger] after.tile_uses[r][c] == 0
    &&& after.results_left == RESULTS_MILLIS
    &&& after.phase == Phase::Playing
    &&& !after.is_dragging
    &&& after.rank_change is None
    &&& after.feedback == Feedback::Idle
    &&& after.feedback_word@.len() == 0
    &&& after.feedback_points == 0
    &&& after.feedback_timer == 0
    &&& after.feedback_cells@.len() == 0
    &&& after.since_saved == 0
    &&& (after.round_save matches RoundSave::Write(s) && saves_round(after, s))
    &&& after == (Game {
        grid: after.grid,
        words: after.words,
        theme: after.theme,
        round: after.round,
        tile_uses: after.tile_uses,
        path: after.path,
        found: after.found,
        score: after.score,
        time_left: after.time_left,
        results_left: after.results_left,
        phase: after.phase,
        is_dragging: after.is_dragging,
        rank_change: after.rank_change,
        feedback: after.feedback,
        feedback_word: after.feedback_word,
        feedback_points: after.feedback_points,
        feedback_timer: after.feedback_timer,
        feedback_cells: after.feedback_cells,
        since_saved: after.since_saved,
        round_save: after.round_save,
        ..before
    })
}

/// The board a server's tiles give, tile by tile.
pub open spec fn shows_tiles(grid: Grid, tiles: Seq<String>) -> bool {
    forall|p: Position| #![trigger tile(grid, p)] in_board(p) ==> crate::game::parsed_tile(
        string_bytes(tiles[p.row * 4 + p.col]),
    ) == Some(tile(grid, p))
}

/// The server's tiles can be read as a board.
pub open spec fn readable(tiles: Seq<String>) -> bool {
    tiles.len() == 16 && forall|i: int| 0 <= i < 16 ==> (#[trigger] crate::game::parsed_tile(string_bytes(tiles[i]))) is Some
}

/// The board's theme words: for a theme the game knows, the words of the
/// board that are the first such theme's; otherwise none.
pub open spec fn theme_words_for(themes: Themes, theme: Option<String>, words: BoardWords) -> bool {
    match theme {
        Some(t) => if exists|i: int| 0 <= i < themes.list@.len() && string_bytes(#[trigger] themes.list@[i].name) == string_bytes(t) {
            exists|i: int|
                0 <= i < themes.list@.len() && string_bytes(#[trigger] themes.list@[i].name) == string_bytes(t) && (forall|j: int|
                    0 <= j < i ==> string_bytes(#[trigger] themes.list@[j].name) != string_bytes(t)) && crate::solver::ranked(
                    crate::solver::bytes_of(words.theme@),
                ) && forall|w: Seq<u8>|
                    #[trigger] crate::solver::bytes_of(words.theme@).contains(w) <==> (crate::solver::bytes_of(
                        words.common@,
                    ).contains(w) || crate::solver::bytes_of(words.obscure@).contains(w)) && crate::solver::bytes_of(
                        themes.list@[i].all@,
                    ).contains(w)
        } else {
            words.theme@.len() == 0
        },
        None => words.theme@.len() == 0,
    }
}

impl Game {
    /// Put a new board in play: nothing found yet and the clock at `time_left`.
    fn begin(&mut self, grid: Grid, words: BoardWords, theme: Option<String>, round: Option<u64>, time_left: u32)
        requires
            old(self).wf(),
            tiles_ok(grid),
        ensures
            final(self).wf(),
            started(*old(self), *final(self), theme, round, time_left),
            final(self).grid == grid,
            final(self).words == words,
    {
        self.rank_change = None;
        self.grid = grid;
        self.words = words;
        self.theme = theme;
        self.round = round;
        self.tile_uses = [[0u32, 0u32, 0u32, 0u32], [0u32, 0u32, 0u32, 0u32], [0u32, 0u32, 0u32, 0u32], [
            0u32,
            0u32,
            0u32,
            0u32,
        ]];
        self.path.clear();
        self.found.clear();
        self.score = 0;
        self.time_left = time_left;
        self.results_left = RESULTS_MILLIS;
        self.phase = Phase::Playing;
        self.is_dragging = false;
        self.clear_feedback();
        proof {
            assert(found_list(self.found@) =~= Seq::<Seq<u8>>::empty());
        }
        self.save_round();
    }

    /// Start a solo round on a board made here.
    pub fn start_round(&mut self)
        requires
            old(self).wf(),
            old(self).solo.played() < u64::MAX,
        ensures
            final(self).wf(),
            started(
                (Game { solo: final(self).solo, rng: final(self).rng, ..*old(self) }),
                *final(self),
                None,
                None,
                ROUND_MILLIS,
            ),
            crate::solver::solves(final(self).grid, final(self).dictionary, final(self).words),
            final(self).solo.played() == old(self).solo.played() + 1,
            final(self).solo.words() == old(self).solo.words(),
    {
        let (grid, words, theme) = self.solo.next_board(&self.dictionary, &mut self.rng);
        self.begin(grid, words, theme, None, ROUND_MILLIS);
    }

    /// Start the round everyone is playing, on the server's board, with however
    /// much of its clock is left. False, with nothing changed, when the board
    /// is not one this game can read, so the caller can fall back.
    pub fn start_shared_round(&mut self, round: u64, board: &crate::net::Board, time_left: u32) -> (ok: bool)
        requires
            old(self).wf(),
        ensures
            final(self).wf(),
            ok == readable(board.grid@),
            !ok ==> *final(self) == *old(self),
            ok ==> {
                &&& started(
                    *old(self),
                    *final(self),
                    board.theme,
                    Some(round),
                    if time_left < ROUND_MILLIS {
                        time_left
                    } else {
                        ROUND_MILLIS
                    },
                )
                &&& shows_tiles(final(self).grid, board.grid@)
                &&& crate::solver::solves(final(self).grid, final(self).dictionary, final(self).words)
                &&& theme_words_for(final(self).themes, board.theme, final(self).words)
            },
    {
        let grid = match crate::game::parse_grid(&board.grid) {
            Some(g) => g,
            None => {
                return false;
            },
        };
        proof {
            assert forall|p: Position| in_board(p) implies (#[trigger] tile(grid, p)).len() > 0 by {
                assert(crate::game::is_face(tile(grid, p)));
            }
        }
        let mut words = crate::solver::solve_board(&self.dictionary, &grid);
        let theme = match &board.theme {
            Some(t) => Some(t.clone()),
            None => None,
        };
        match &theme {
            Some(t) => match self.themes.get(t.as_str()) {
                Some(def) => {
                    words.theme = crate::game::collect_theme_words(&words, def);
                },
                None => {},
            },
            None => {},
        }
        let clock = if time_left < ROUND_MILLIS { time_left } else { ROUND_MILLIS };
        self.begin(grid, words, theme, Some(round), clock);
        true
    }
}


/// A saved word and its path, as bytes and tiles.
pub open spec fn entry_view(e: (String, Vec<Position>)) -> (Seq<u8>, Seq<Position>) {
    (string_bytes(e.0), e.1@)
}

/// The found word `f` is the saved word `e`, with the points it scores.
pub open spec fn matches_entry(d: Dictionary, f: FoundWord, e: (Seq<u8>, Seq<Position>)) -> bool {
    &&& string_bytes(f.word) == e.0
    &&& f.path@ == e.1
    &&& f.points == points_in(d, e.0)
}

/// A saved word is put back when its path is a path over the board that
/// spells it, it is not among the words found already, and the list accepts
/// it.
pub open spec fn restorable(d: Dictionary, g: Grid, have: Seq<Seq<u8>>, e: (Seq<u8>, Seq<Position>)) -> bool {
    &&& valid_path(e.1)
    &&& spelled(g, e.1) == e.0
    &&& !have.contains(e.0)
    &&& d.accepted().contains(lowered(e.0))
}

/// The saved words put back, in order, after the words `have`.
pub open spec fn kept(d: Dictionary, g: Grid, have: Seq<Seq<u8>>, entries: Seq<(Seq<u8>, Seq<Position>)>) -> Seq<
    (Seq<u8>, Seq<Position>),
>
    decreases entries.len(),
{
    if entries.len() == 0 {
        Seq::empty()
    } else {
        let k = kept(d, g, have, entries.drop_last());
        let e = entries.last();
        if restorable(d, g, have + k.map_values(|x: (Seq<u8>, Seq<Position>)| x.0), e) {
            k.push(e)
        } else {
            k
        }
    }
}

/// How many of the paths pass the tile `p`.
pub open spec fn paths_through(k: Seq<(Seq<u8>, Seq<Position>)>, p: Position) -> nat
    decreases k.len(),
{
    if k.len() == 0 {
        0
    } else {
        paths_through(k.drop_last(), p) + if k.last().1.contains(p) {
            1nat
        } else {
            0nat
        }
    }
}

/// Whether `p` is a path over the board: on it, no tile twice, each step to a
/// touching tile.
fn is_valid_path(p: &Vec<Position>) -> (ok: bool)
    ensures
        ok == valid_path(p@),
{
    let n = p.len();
    let mut i: usize = 0;
    while i < n
        invariant
            n == p@.len(),
            0 <= i <= n,
            forall|k: int| 0 <= k < i ==> in_board(#[trigger] p@[k]),
            forall|a: int, b: int| 0 <= a < b < n && a < i ==> p@[a] != p@[b],
            forall|k: int| 0 <= k < i && k < n - 1 ==> adjacent(#[trigger] p@[k], p@[k + 1]),
        decreases n - i,
    {
        let at = p[i];
        if !(at.row < SIZE && at.col < SIZE) {
            return false;
        }
        if i + 1 < n && !is_adjacent(at, p[i + 1]) {
            return false;
        }
        let mut j: usize = i + 1;
        while j < n
            invariant
                n == p@.len(),
                i < n,
                at == p@[i as int],
                i + 1 <= j <= n,
                forall|b: int| i < b < j ==> p@[i as int] != p@[b],
            decreases n - j,
        {
            if p[j].row == at.row && p[j].col == at.col {
                proof {
                    assert(p@[i as int] == p@[j as int]);
                }
                return false;
            }
            j += 1;
        }
        i += 1;
    }
    true
}

/// The letters a path over the board spells.
fn spell(grid: &Grid, path: &Vec<Position>) -> (word: String)
    requires
        valid_path(path@),
    ensures
        string_bytes(word) == spelled(*grid, path@),
{
    let mut word = String::new();
    let mut k: usize = 0;
    proof {
        assert(string_bytes(word) =~= Seq::<u8>::empty());
    }
    while k < path.len()
        invariant
            valid_path(path@),
            0 <= k <= path@.len(),
            string_bytes(word) == spelled(*grid, path@.take(k as int)),
        decreases path@.len() - k,
    {
        let p = path[k];
        proof {
            assert(in_board(path@[k as int]));
        }
        let letters = grid[p.row][p.col].letters;
        let ghost before = word@;
        word = word.concat(letters);
        proof {
            lemma_encode_concat(before, letters@);
            lemma_spelled_push(*grid, path@.take(k as int), p);
            assert(path@.take(k + 1) =~= path@.take(k as int).push(p));
        }
        k += 1;
    }
    proof {
        assert(path@.take(path@.len() as int) =~= path@);
    }
    word
}

impl Game {
    /// Put saved words back on the board: their points, their stars, the
    /// score. A word whose path no longer spells it here is dropped.
    #[verifier::spinoff_prover]
    fn restore_found(&mut self, entries: &Vec<(String, Vec<Position>)>)
        requires
            old(self).wf(),
        ensures
            final(self).wf(),
            ({
                let k = kept(
                    old(self).dictionary,
                    old(self).grid,
                    found_list(old(self).found@),
                    entries@.map_values(|e: (String, Vec<Position>)| entry_view(e)),
                );
                &&& final(self).found@.len() == old(self).found@.len() + k.len()
                &&& final(self).found@.take(old(self).found@.len() as int) == old(self).found@
                &&& forall|i: int|
                    0 <= i < k.len() ==> matches_entry(
                        old(self).dictionary,
                        final(self).found@[old(self).found@.len() + i],
                        #[trigger] k[i],
                    )
                &&& forall|r: int, c: int|
                    0 <= r < 4 && 0 <= c < 4 ==> #[trigger] final(self).tile_uses[r][c] == capped(
                        (old(self).tile_uses[r][c] + paths_through(k, Position { row: r as usize, col: c as usize }))
                            as nat,
                    )
            }),
            final(self).score == round_score(final(self).found@, final(self).tile_uses),
            final(self).since_saved == 0,
            old(self).phase == Phase::Playing ==> (final(self).round_save matches RoundSave::Write(s) && saves_round(
                *final(self),
                s,
            )),
            old(self).phase != Phase::Playing ==> final(self).round_save == old(self).round_save,
            *final(self) == (Game {
                found: final(self).found,
                tile_uses: final(self).tile_uses,
                score: final(self).score,
                since_saved: final(self).since_saved,
                round_save: final(self).round_save,
                ..*old(self)
            }),
    {
        let ghost start = *self;
        let ghost all = entries@.map_values(|e: (String, Vec<Position>)| entry_view(e));
        let ghost have = found_list(start.found@);
        let mut i: usize = 0;
        proof {
            assert(entries@.map_values(|e: (String, Vec<Position>)| entry_view(e)).take(0) =~= Seq::<(Seq<u8>, Seq<Position>)>::empty());
            assert(self.found@.take(start.found@.len() as int) =~= start.found@);
        }
        while i < entries.len()
            invariant
                self.wf(),
                start.wf(),
                all == entries@.map_values(|e: (String, Vec<Position>)| entry_view(e)),
                have == found_list(start.found@),
                0 <= i <= entries@.len(),
                ({
                    let k = kept(start.dictionary, start.grid, have, all.take(i as int));
                    &&& self.found@.len() == start.found@.len() + k.len()
                    &&& self.found@.take(start.found@.len() as int) == start.found@
                    &&& found_list(self.found@) == have + k.map_values(|x: (Seq<u8>, Seq<Position>)| x.0)
                    &&& forall|m: int|
                        0 <= m < k.len() ==> matches_entry(
                            start.dictionary,
                            self.found@[start.found@.len() + m],
                            #[trigger] k[m],
                        )
                    &&& forall|r: int, c: int|
                        0 <= r < 4 && 0 <= c < 4 ==> #[trigger] self.tile_uses[r][c] == capped(
                            (start.tile_uses[r][c] + paths_through(k, Position { row: r as usize, col: c as usize }))
                                as nat,
                        )
                }),
                *self == (Game { found: self.found, tile_uses: self.tile_uses, ..start }),
            decreases entries@.len() - i,
        {
            let ghost k0 = kept(start.dictionary, start.grid, have, all.take(i as int));
            let ghost before = *self;
            proof {
                assert(all.take(i + 1).drop_last() =~= all.take(i as int));
                assert(all.take(i + 1).last() == all[i as int]);
                assert(all[i as int] == entry_view(entries@[i as int]));
            }
            let word = &entries[i].0;
            let path = &entries[i].1;
            let mut keep = is_valid_path(path);
            if keep {
                let spelt = spell(&self.grid, path);
                keep = crate::themes::same_bytes(spelt.as_str().as_bytes(), word.as_str().as_bytes());
            }
            if keep {
                keep = !self.has_found(word.as_str());
            }
            if keep {
                keep = self.dictionary.contains(word.as_str());
            }
            if keep {
                proof {
                    self.dictionary.lemma_common_accepted();
                    assert(lowered(string_bytes(*word)).len() == string_bytes(*word).len());
                }
                let points = self.word_score(word.as_str());
                use_tiles(&mut self.tile_uses, path);
                self.found.push(FoundWord { word: word.clone(), points, path: copy_path(path) });
                proof {
                    let e = all[i as int];
                    let k1 = k0.push(e);
                    assert(kept(start.dictionary, start.grid, have, all.take(i + 1)) == k1);
                    assert(k1.map_values(|x: (Seq<u8>, Seq<Position>)| x.0) =~= k0.map_values(
                        |x: (Seq<u8>, Seq<Position>)| x.0,
                    ).push(e.0));
                    assert(found_list(self.found@) =~= found_list(before.found@).push(e.0));
                    assert(self.found@.take(start.found@.len() as int) =~= before.found@.take(start.found@.len() as int));
                    assert forall|m: int| 0 <= m < k1.len() implies matches_entry(
                        start.dictionary,
                        self.found@[start.found@.len() + m],
                        #[trigger] k1[m],
                    ) by {
                        if m < k0.len() {
                            assert(self.found@[start.found@.len() + m] == before.found@[start.found@.len() + m]);
                            assert(k1[m] == k0[m]);
                        }
                    }
                    assert forall|r: int, c: int| 0 <= r < 4 && 0 <= c < 4 implies #[trigger] self.tile_uses[r][c]
                        == capped(
                        (start.tile_uses[r][c] + paths_through(k1, Position { row: r as usize, col: c as usize })) as nat,
                    ) by {
                        let q = Position { row: r as usize, col: c as usize };
                        assert(k1.drop_last() =~= k0);
                        assert(k1.last() == e);
                    }
                }
            } else {
                proof {
                    let e = all[i as int];
                    assert(!restorable(start.dictionary, start.grid, found_list(before.found@), e));
                    assert(kept(start.dictionary, start.grid, have, all.take(i + 1)) == k0);
                }
            }
            i += 1;
        }
        proof {
            assert(all.take(entries@.len() as int) =~= all);
        }
        self.score = self.tally();
        self.save_round();
    }
}


/// `g` is on the saved round's board with its words put back: the board the
/// saved tiles give and every word on it, and each saved word whose path still
/// spells it here, with its points, its tiles used and the score.
pub open spec fn holds_saved(g: Game, saved: SavedRound) -> bool {
    let k = kept(
        g.dictionary,
        g.grid,
        Seq::empty(),
        saved.found@.map_values(|e: (String, Vec<Position>)| entry_view(e)),
    );
    &&& shows_tiles(g.grid, saved.grid@)
    &&& crate::solver::solves(g.grid, g.dictionary, g.words)
    &&& g.found@.len() == k.len()
    &&& forall|i: int| 0 <= i < k.len() ==> matches_entry(g.dictionary, g.found@[i], #[trigger] k[i])
    &&& forall|r: int, c: int|
        0 <= r < 4 && 0 <= c < 4 ==> #[trigger] g.tile_uses[r][c] == capped(
            paths_through(k, Position { row: r as usize, col: c as usize }),
        )
    &&& g.score == round_score(g.found@, g.tile_uses)
}

/// `after` is `before` playing a round picked back up from `saved`: its board,
/// `round`, the clock at `time_left`, and its words put back.
pub open spec fn resumed(before: Game, after: Game, saved: SavedRound, round: Option<u64>, time_left: u32) -> bool {
    &&& holds_saved(after, saved)
    &&& after.phase == Phase::Playing
    &&& after.round == round
    &&& after.time_left == time_left
    &&& after.path@.len() == 0
    &&& (after.round_save matches RoundSave::Write(s) && saves_round(after, s))
    &&& after.rank_change is None
    &&& after.pending_resume is None
    &&& after.dictionary == before.dictionary
    &&& after.themes == before.themes
    &&& after.ranking == before.ranking
    &&& after.ranking_changed == before.ranking_changed
    &&& after.solo == before.solo
}

/// The two lists of tiles are the same, tile by tile, whatever the case.
pub open spec fn same_tiles(a: Seq<String>, b: Seq<String>) -> bool {
    a.len() == b.len() && forall|i: int| 0 <= i < a.len() ==> lowered(string_bytes(#[trigger] a[i])) == lowered(string_bytes(b[i]))
}

fn tiles_match(a: &Vec<String>, b: &Vec<String>) -> (same: bool)
    ensures
        same == same_tiles(a@, b@),
{
    if a.len() != b.len() {
        return false;
    }
    let mut i: usize = 0;
    while i < a.len()
        invariant
            a@.len() == b@.len(),
            0 <= i <= a@.len(),
            forall|k: int| 0 <= k < i ==> lowered(string_bytes(#[trigger] a@[k])) == lowered(string_bytes(b@[k])),
        decreases a@.len() - i,
    {
        let x = a[i].as_str().as_bytes();
        let y = b[i].as_str().as_bytes();
        proof {
            assert(x@ == string_bytes(a@[i as int]));
            assert(y@ == string_bytes(b@[i as int]));
        }
        if x.len() != y.len() {
            proof {
                assert(lowered(x@).len() != lowered(y@).len());
            }
            return false;
        }
        let mut j: usize = 0;
        while j < x.len()
            invariant
                x@.len() == y@.len(),
                0 <= i < a@.len(),
                a@.len() == b@.len(),
                x@ == string_bytes(a@[i as int]),
                y@ == string_bytes(b@[i as int]),
                0 <= j <= x@.len(),
                forall|m: int| 0 <= m < j ==> crate::dictionary::lower_byte(#[trigger] x@[m]) == crate::dictionary::lower_byte(y@[m]),
            decreases x@.len() - j,
        {
            let p = x[j];
            let q = y[j];
            let lp = if 65 <= p && p <= 90 { p + 32 } else { p };
            let lq = if 65 <= q && q <= 90 { q + 32 } else { q };
            if lp != lq {
                proof {
                    assert(lowered(x@)[j as int] != lowered(y@)[j as int]);
                    assert(lowered(string_bytes(a@[i as int])) != lowered(string_bytes(b@[i as int])));
                }
                return false;
            }
            j += 1;
        }
        proof {
            assert(lowered(x@) =~= lowered(y@));
        }
        i += 1;
    }
    true
}


/// The words put back after none, read from the start.
proof fn lemma_restored_from_start(g: Game, k: Seq<(Seq<u8>, Seq<Position>)>, n: int)
    requires
        n == 0,
        forall|i: int| 0 <= i < k.len() ==> matches_entry(g.dictionary, g.found@[n + i], #[trigger] k[i]),
    ensures
        forall|i: int| 0 <= i < k.len() ==> matches_entry(g.dictionary, g.found@[i], #[trigger] k[i]),
{
    assert forall|i: int| 0 <= i < k.len() implies matches_entry(g.dictionary, g.found@[i], #[trigger] k[i]) by {
        assert(n + i == i);
    }
}

/// What picking up a saved solo round leaves: nothing changed unless a solo
/// round is waiting; a waiting one that cannot be read dropped; otherwise the
/// round under way again with its words, on the time it had, at least a second.
pub open spec fn solo_resumed(before: Game, after: Game, ok: bool) -> bool {
    &&& (ok == (before.pending_resume matches Some(s) && s.round is None && readable(s.grid@)))
    &&& (!(before.pending_resume matches Some(s) && s.round is None) ==> after == before)
    &&& ((before.pending_resume matches Some(s) && s.round is None && !readable(s.grid@)) ==> after
        == (Game { pending_resume: None, ..before }))
    &&& (ok ==> (before.pending_resume matches Some(s) && resumed(
        before,
        after,
        s,
        None,
        if s.time_left < 1000 {
            1000
        } else if s.time_left > ROUND_MILLIS {
            ROUND_MILLIS
        } else {
            s.time_left
        },
    ) && after.theme == s.theme))
}

/// What picking up a saved shared round on the server's board leaves: nothing
/// changed unless that round is waiting; a waiting one whose board does not
/// match dropped; otherwise the round under way again with its words, on the
/// time the round has left.
pub open spec fn shared_resumed(before: Game, after: Game, round: u64, board: crate::net::Board, time_left: u32, ok: bool) -> bool {
    &&& (ok == (before.pending_resume matches Some(s) && s.round == Some(round) && same_tiles(
        s.grid@,
        board.grid@,
    ) && readable(board.grid@)))
    &&& (!(before.pending_resume matches Some(s) && s.round == Some(round)) ==> after == before)
    &&& ((before.pending_resume matches Some(s) && s.round == Some(round)) && !ok ==> after == (Game {
        pending_resume: None,
        ..before
    }))
    &&& (ok ==> (before.pending_resume matches Some(s) && resumed(
        before,
        after,
        crate::round::SavedRound { grid: board.grid, ..s },
        Some(round),
        if time_left < ROUND_MILLIS {
            time_left
        } else {
            ROUND_MILLIS
        },
    ) && after.theme == board.theme && theme_words_for(after.themes, board.theme, after.words)))
}

/// What banking a saved round whose time ran out leaves: the round as it
/// stood, banked, and the player home; the server's round, when it was one, to
/// hand in.
pub open spec fn pending_finished(before: Game, after: Game, banked: Option<u64>) -> bool {
    &&& (after.pending_resume is None)
    &&& (banked == (if before.pending_resume matches Some(s) && readable(s.grid@) {
        before.pending_resume->0.round
    } else {
        None
    }))
    &&& ((before.pending_resume matches Some(s) && readable(s.grid@)) ==> {
        let s = before.pending_resume->0;
        &&& holds_saved(after, s)
        &&& after.phase == Phase::Ready
        &&& after.round == s.round
        &&& after.theme == s.theme
        &&& after.time_left == 0
        &&& after.results_left == RESULTS_MILLIS
        &&& after.path@.len() == 0
        &&& after.round_save == RoundSave::Clear
        &&& after.score > 0 ==> (after.rank_change matches Some(change) && banks_round(
            before.ranking,
            after.ranking,
            after.score,
            change,
        )) && after.ranking_changed
        &&& after.score == 0 ==> after.rank_change is None && after.ranking
            == before.ranking && after.ranking_changed == before.ranking_changed
        &&& after.dictionary == before.dictionary
        &&& after.themes == before.themes
        &&& after.solo == before.solo
    })
    &&& (!(before.pending_resume matches Some(s) && readable(s.grid@)) ==> after == (Game {
        pending_resume: None,
        ..before
    }))
}

impl Game {
    /// Pick up a solo round saved before the game last closed. It resumes with
    /// the time it had, at least a second: a solo clock does not run while the
    /// game is closed. A shared round waits for the server's clock instead.
    pub fn resume_solo(&mut self) -> (ok: bool)
        requires
            old(self).wf(),
        ensures
            final(self).wf(),
            solo_resumed(*old(self), *final(self), ok),
    {
        let solo = match &self.pending_resume {
            Some(s) => s.round.is_none(),
            None => false,
        };
        if !solo {
            return false;
        }
        let saved = match self.pending_resume.take() {
            Some(s) => s,
            None => {
                return false;
            },
        };
        let grid = match crate::game::parse_grid(&saved.grid) {
            Some(g) => g,
            None => {
                return false;
            },
        };
        proof {
            assert forall|p: Position| in_board(p) implies (#[trigger] tile(grid, p)).len() > 0 by {
                assert(crate::game::is_face(tile(grid, p)));
            }
        }
        let words = crate::solver::solve_board(&self.dictionary, &grid);
        let clock = if saved.time_left < 1000 {
            1000
        } else if saved.time_left > ROUND_MILLIS {
            ROUND_MILLIS
        } else {
            saved.time_left
        };
        let theme = match &saved.theme {
            Some(t) => Some(t.clone()),
            None => None,
        };
        self.begin(grid, words, theme, None, clock);
        proof {
            assert(found_list(self.found@) =~= Seq::<Seq<u8>>::empty());
        }
        self.restore_found(&saved.found);
        proof {
            lemma_restored_from_start(
                *self,
                kept(
                    self.dictionary,
                    self.grid,
                    Seq::empty(),
                    saved.found@.map_values(|e: (String, Vec<Position>)| entry_view(e)),
                ),
                0,
            );
            assert forall|r: int, c: int| 0 <= r < 4 && 0 <= c < 4 implies #[trigger] self.tile_uses[r][c] == capped(
                paths_through(
                    kept(
                        self.dictionary,
                        self.grid,
                        Seq::empty(),
                        saved.found@.map_values(|e: (String, Vec<Position>)| entry_view(e)),
                    ),
                    Position { row: r as usize, col: c as usize },
                ),
            ) by {}
        }
        true
    }

    /// Pick up a shared round saved before the game last closed, on the
    /// server's board for it, with whatever time the round has left. Refused
    /// when the saved board is not that round's board.
    pub fn resume_shared(&mut self, round: u64, board: &crate::net::Board, time_left: u32) -> (ok: bool)
        requires
            old(self).wf(),
        ensures
            final(self).wf(),
            shared_resumed(*old(self), *final(self), round, *board, time_left, ok),
    {
        let ours = match &self.pending_resume {
            Some(s) => s.round == Some(round),
            None => false,
        };
        if !ours {
            return false;
        }
        let saved = match self.pending_resume.take() {
            Some(s) => s,
            None => {
                return false;
            },
        };
        if !tiles_match(&saved.grid, &board.grid) {
            return false;
        }
        if !self.start_shared_round(round, board, time_left) {
            return false;
        }
        proof {
            assert(found_list(self.found@) =~= Seq::<Seq<u8>>::empty());
        }
        self.restore_found(&saved.found);
        proof {
            lemma_restored_from_start(
                *self,
                kept(
                    self.dictionary,
                    self.grid,
                    Seq::empty(),
                    saved.found@.map_values(|e: (String, Vec<Position>)| entry_view(e)),
                ),
                0,
            );
        }
        true
    }

    /// A saved round whose time ran out while the game was closed: bank it as
    /// it stood, so the words found are not lost, and go home. Returns the
    /// server's round, for the caller to hand in while the server still
    /// takes it.
    pub fn finish_pending(&mut self) -> (banked: Option<u64>)
        requires
            old(self).wf(),
        ensures
            final(self).wf(),
            pending_finished(*old(self), *final(self), banked),
    {
        let saved = match self.pending_resume.take() {
            Some(s) => s,
            None => {
                return None;
            },
        };
        let grid = match crate::game::parse_grid(&saved.grid) {
            Some(g) => g,
            None => {
                return None;
            },
        };
        proof {
            assert forall|p: Position| in_board(p) implies (#[trigger] tile(grid, p)).len() > 0 by {
                assert(crate::game::is_face(tile(grid, p)));
            }
        }
        let words = crate::solver::solve_board(&self.dictionary, &grid);
        let theme = match &saved.theme {
            Some(t) => Some(t.clone()),
            None => None,
        };
        self.begin(grid, words, theme, saved.round, 0);
        proof {
            assert(found_list(self.found@) =~= Seq::<Seq<u8>>::empty());
        }
        self.restore_found(&saved.found);
        proof {
            lemma_restored_from_start(
                *self,
                kept(
                    self.dictionary,
                    self.grid,
                    Seq::empty(),
                    saved.found@.map_values(|e: (String, Vec<Position>)| entry_view(e)),
                ),
                0,
            );
        }
        let ghost mid = *self;
        self.end_round();
        self.phase = Phase::Ready;
        proof {
            assert(ended(mid, (Game { phase: Phase::Over, ..*self })));
            assert(self.found == mid.found);
            assert(self.grid == mid.grid);
            assert(self.tile_uses == mid.tile_uses);
            assert(self.words == mid.words);
            assert(self.dictionary == mid.dictionary);
            assert(self.score == mid.score);
            assert(holds_saved(mid, saved));
        }
        saved.round
    }
}


/// A word that fills the whole board: sixteen tiles, `qu` being one.
pub open spec fn is_superword(w: Seq<u8>) -> bool {
    crate::rotation::tiles_of(w) matches Some(t) && t.len() >= crate::game::SUPERWORD_TILES
}

/// The superwords among `ws`, in order.
pub open spec fn supers_in(ws: Seq<Seq<u8>>) -> Seq<Seq<u8>>
    decreases ws.len(),
{
    if ws.len() == 0 {
        Seq::empty()
    } else {
        supers_in(ws.drop_last()) + if is_superword(ws.last()) {
            seq![ws.last()]
        } else {
            Seq::empty()
        }
    }
}

/// The words of `ws` at least `len` long, in order.
pub open spec fn at_least(ws: Seq<Seq<u8>>, len: nat) -> Seq<Seq<u8>>
    decreases ws.len(),
{
    if ws.len() == 0 {
        Seq::empty()
    } else {
        at_least(ws.drop_last(), len) + if ws.last().len() >= len {
            seq![ws.last()]
        } else {
            Seq::empty()
        }
    }
}

/// What the common words are worth, each scored as a common word.
pub open spec fn par_points(ws: Seq<Seq<u8>>) -> nat
    decreases ws.len(),
{
    if ws.len() == 0 {
        0
    } else {
        par_points(ws.drop_last()) + word_score_for(ws.last(), false)
    }
}

/// A path's tiles as indices, row by row.
pub open spec fn slot_bytes(path: Seq<Position>) -> Seq<u8> {
    path.map_values(|p: Position| (p.row * 4 + p.col) as u8)
}

/// What the board's type is called: its theme, "Superword" for a board built
/// around one, otherwise a shape read off its common words.
pub open spec fn board_kind(theme: Option<String>, supers: Seq<Seq<u8>>, common: Seq<Seq<u8>>) -> Seq<char> {
    match theme {
        Some(t) => t@,
        None => if supers.len() > 0 {
            "Superword"@
        } else {
            let longest = if common.len() > 0 {
                common[0].len()
            } else {
                0
            };
            if longest >= crate::game::LONG_BOARD_LEN {
                "Long"@
            } else if common.len() >= 120 {
                "Dense"@
            } else if common.len() < 70 {
                "Sparse"@
            } else {
                "Standard"@
            }
        },
    }
}

fn copy_words(v: &Vec<String>) -> (out: Vec<String>)
    ensures
        out@ == v@,
{
    let mut out: Vec<String> = Vec::new();
    let mut i: usize = 0;
    while i < v.len()
        invariant
            0 <= i <= v@.len(),
            out@ == v@.take(i as int),
        decreases v@.len() - i,
    {
        out.push(v[i].clone());
        proof {
            assert(v@.take(i + 1) =~= v@.take(i as int).push(v@[i as int]));
        }
        i += 1;
    }
    proof {
        assert(v@.take(v@.len() as int) =~= v@);
    }
    out
}

/// Add to `out` the words of `list` that pass `keep`: here, superwords.
fn add_supers(out: &mut Vec<String>, list: &Vec<String>)
    ensures
        crate::solver::bytes_of(final(out)@) == crate::solver::bytes_of(old(out)@) + supers_in(
            crate::solver::bytes_of(list@),
        ),
{
    let ghost start = crate::solver::bytes_of(out@);
    let mut i: usize = 0;
    proof {
        assert(crate::solver::bytes_of(list@).take(0) =~= Seq::<Seq<u8>>::empty());
        assert(start + Seq::<Seq<u8>>::empty() =~= start);
    }
    while i < list.len()
        invariant
            0 <= i <= list@.len(),
            crate::solver::bytes_of(out@) == start + supers_in(crate::solver::bytes_of(list@).take(i as int)),
        decreases list@.len() - i,
    {
        let ghost before = out@;
        let ghost ws = crate::solver::bytes_of(list@);
        proof {
            assert(ws.take(i + 1).drop_last() =~= ws.take(i as int));
            assert(ws.take(i + 1).last() == string_bytes(list@[i as int]));
        }
        let fills = match crate::rotation::word_tiles(list[i].as_str()) {
            Some(t) => t.len() >= crate::game::SUPERWORD_TILES,
            None => false,
        };
        if fills {
            out.push(list[i].clone());
            proof {
                assert(crate::solver::bytes_of(out@) =~= crate::solver::bytes_of(before).push(string_bytes(list@[i as int])));
            }
        } else {
            proof {
                assert(supers_in(ws.take(i + 1)) =~= supers_in(ws.take(i as int)));
            }
        }
        i += 1;
    }
    proof {
        assert(crate::solver::bytes_of(list@).take(list@.len() as int) =~= crate::solver::bytes_of(list@));
    }
}

impl Game {
    /// A game ready to play: the backdrop board made here with `rng`'s rolls,
    /// nothing under way, and the pieces it is given.
    pub fn new(
        dictionary: Dictionary,
        themes: Themes,
        ranking: Ranking,
        solo: SoloRotation,
        pending_resume: Option<SavedRound>,
        rng: StdRng,
    ) -> (g: Game)
        requires
            dictionary.wf(),
            ranking.league <= TOP_LEAGUE,
        ensures
            g.wf(),
            g.dictionary == dictionary,
            g.themes == themes,
            g.ranking == ranking,
            g.solo == solo,
            g.pending_resume == pending_resume,
            crate::solver::solves(g.grid, g.dictionary, g.words),
            g.phase == Phase::Ready,
            g.round is None,
            g.theme is None,
            g.path@.len() == 0,
            g.found@.len() == 0,
            g.score == 0,
            forall|r: int, c: int| 0 <= r < 4 && 0 <= c < 4 ==> #[trigger] g.tile_uses[r][c] == 0,
            g.time_left == ROUND_MILLIS,
            g.results_left == RESULTS_MILLIS,
            g.rank_change is None,
            !g.is_dragging,
            g.since_saved == 0,
            g.round_save == RoundSave::Unchanged,
            !g.ranking_changed,
            g.feedback == Feedback::Idle,
            g.feedback_word@.len() == 0,
            g.feedback_points == 0,
            g.feedback_timer == 0,
            g.feedback_cells@.len() == 0,
    {
        let mut rng = rng;
        let (grid, words, theme) = crate::game::generate_board_local(&dictionary, &mut rng);
        let g = Game {
            dictionary,
            grid,
            path: Vec::new(),
            found: Vec::new(),
            words,
            tile_uses: [[0u32, 0u32, 0u32, 0u32], [0u32, 0u32, 0u32, 0u32], [0u32, 0u32, 0u32, 0u32], [
                0u32,
                0u32,
                0u32,
                0u32,
            ]],
            theme,
            round: None,
            themes,
            score: 0,
            time_left: ROUND_MILLIS,
            results_left: RESULTS_MILLIS,
            phase: Phase::Ready,
            ranking,
            rank_change: None,
            is_dragging: false,
            solo,
            rng,
            pending_resume,
            since_saved: 0,
            round_save: RoundSave::Unchanged,
            ranking_changed: false,
            feedback: Feedback::Idle,
            feedback_word: String::new(),
            feedback_points: 0,
            feedback_timer: 0,
            feedback_cells: Vec::new(),
        };
        proof {
            assert(found_list(g.found@) =~= Seq::<Seq<u8>>::empty());
        }
        g
    }

    /// True while the traced letters make a word not yet found: what keeps the
    /// trail lit.
    pub fn current_word_is_valid(&self) -> (valid: bool)
        requires
            self.wf(),
        ensures
            valid == (verdict(self.dictionary, self.found@, spelled(self.grid, self.path@)) == Feedback::Accepted),
    {
        let word = self.current_word();
        let text = word.as_str();
        text.as_bytes().len() >= MIN_WORD_LEN && !self.has_found(text) && self.dictionary.contains(text)
    }

    pub fn found_count(&self) -> (n: usize)
        ensures
            n == self.found@.len(),
    {
        self.found.len()
    }

    /// What "words found" is out of: the common tier, since holding anyone to
    /// the obscure list would be absurd.
    pub fn findable_count(&self) -> (n: usize)
        ensures
            n == self.words.common@.len(),
    {
        self.words.common.len()
    }

    pub fn best_score(&self) -> (best: u32)
        ensures
            best == self.ranking.best_score,
    {
        self.ranking.best_score
    }

    pub fn is_new_best(&self) -> (best: bool)
        ensures
            best == (self.score > 0 && self.score >= self.ranking.best_score),
    {
        self.score > 0 && self.score >= self.ranking.best_score
    }

    /// The points of the words found, without the letter bonus: what the
    /// average points per word is taken over.
    pub fn found_points(&self) -> (total: u128)
        ensures
            total == points_total(self.found@),
    {
        let mut total: u128 = 0;
        let mut i: usize = 0;
        while i < self.found.len()
            invariant
                0 <= i <= self.found@.len(),
                total == points_total(self.found@.take(i as int)),
                total <= i * (u32::MAX as int),
            decreases self.found@.len() - i,
        {
            proof {
                assert(self.found@.take(i + 1).drop_last() =~= self.found@.take(i as int));
            }
            total = total + self.found[i].points as u128;
            i += 1;
        }
        proof {
            assert(self.found@.take(i as int) =~= self.found@);
        }
        total
    }

    /// The letters of the words found, all together: what the average word
    /// length is taken over.
    pub fn found_letters(&self) -> (total: u128)
        ensures
            total == letters_total(self.found@),
    {
        let mut total: u128 = 0;
        let mut i: usize = 0;
        while i < self.found.len()
            invariant
                0 <= i <= self.found@.len(),
                total == letters_total(self.found@.take(i as int)),
                total <= i * (usize::MAX as int),
            decreases self.found@.len() - i,
        {
            proof {
                assert(self.found@.take(i + 1).drop_last() =~= self.found@.take(i as int));
            }
            let len = self.found[i].word.as_str().as_bytes().len();
            proof {
                let m = usize::MAX as int;
                assert(total + len <= (i + 1) * m) by (nonlinear_arith)
                    requires
                        total <= i * m,
                        len <= m,
                ;
                assert((i + 1) * m <= u128::MAX) by (nonlinear_arith)
                    requires
                        i < m,
                        m <= u64::MAX,
                ;
            }
            total = total + len as u128;
            i += 1;
        }
        proof {
            assert(self.found@.take(i as int) =~= self.found@);
        }
        total
    }

    /// The words found this round, in the order they were found.
    pub fn found_words(&self) -> (words: Vec<String>)
        ensures
            crate::solver::bytes_of(words@) == found_list(self.found@),
    {
        let mut out: Vec<String> = Vec::new();
        let mut i: usize = 0;
        while i < self.found.len()
            invariant
                0 <= i <= self.found@.len(),
                crate::solver::bytes_of(out@) == found_list(self.found@).take(i as int),
            decreases self.found@.len() - i,
        {
            out.push(self.found[i].word.clone());
            proof {
                assert(found_list(self.found@).take(i + 1) =~= found_list(self.found@).take(i as int).push(
                    string_bytes(self.found@[i as int].word),
                ));
            }
            i += 1;
        }
        proof {
            assert(found_list(self.found@).take(self.found@.len() as int) =~= found_list(self.found@));
        }
        out
    }

    /// The path traced for each found word, in the same order, as tile indices
    /// (row * 4 + column): what the server checks the letter bonus against.
    pub fn found_paths(&self) -> (paths: Vec<Vec<u8>>)
        requires
            self.wf(),
        ensures
            paths@.len() == self.found@.len(),
            forall|i: int| 0 <= i < paths@.len() ==> (#[trigger] paths@[i])@ == slot_bytes(self.found@[i].path@),
    {
        let mut out: Vec<Vec<u8>> = Vec::new();
        let mut i: usize = 0;
        while i < self.found.len()
            invariant
                self.wf(),
                0 <= i <= self.found@.len(),
                out@.len() == i,
                forall|k: int| 0 <= k < i ==> (#[trigger] out@[k])@ == slot_bytes(self.found@[k].path@),
            decreases self.found@.len() - i,
        {
            let path = &self.found[i].path;
            proof {
                assert(valid_path(self.found@[i as int].path@));
            }
            let mut slots: Vec<u8> = Vec::new();
            let mut j: usize = 0;
            while j < path.len()
                invariant
                    valid_path(path@),
                    0 <= j <= path@.len(),
                    slots@ == slot_bytes(path@).take(j as int),
                decreases path@.len() - j,
            {
                let p = path[j];
                proof {
                    assert(in_board(path@[j as int]));
                }
                slots.push((p.row * 4 + p.col) as u8);
                proof {
                    assert(slot_bytes(path@).take(j + 1) =~= slot_bytes(path@).take(j as int).push(
                        ((p.row * 4 + p.col) as u8),
                    ));
                }
                j += 1;
            }
            proof {
                assert(slot_bytes(path@).take(path@.len() as int) =~= slot_bytes(path@));
            }
            out.push(slots);
            i += 1;
        }
        out
    }

    /// Everything the board was worth: the score if every common word were
    /// found, with the letter bonus they would earn together. Held at the
    /// largest `u32`.
    pub fn board_par(&self) -> (par: u32)
        requires
            forall|i: int| 0 <= i < self.words.common@.len() ==> string_bytes(#[trigger] self.words.common@[i]).len()
                <= 10_737_420,
        ensures
            par == capped(par_points(crate::solver::bytes_of(self.words.common@)) + bonus_for(self.words.coverage)),
    {
        let ghost ws = crate::solver::bytes_of(self.words.common@);
        let cap: u64 = 0x1_0000_0000;
        let mut sum: u64 = 0;
        let mut i: usize = 0;
        while i < self.words.common.len()
            invariant
                ws == crate::solver::bytes_of(self.words.common@),
                forall|i: int| 0 <= i < self.words.common@.len() ==> string_bytes(#[trigger] self.words.common@[i]).len()
                    <= 10_737_420,
                0 <= i <= self.words.common@.len(),
                cap == 0x1_0000_0000,
                sum == if par_points(ws.take(i as int)) < cap {
                    par_points(ws.take(i as int))
                } else {
                    cap as nat
                },
            decreases self.words.common@.len() - i,
        {
            proof {
                assert(ws.take(i + 1).drop_last() =~= ws.take(i as int));
                assert(ws.take(i + 1).last() == ws[i as int]);
                assert(string_bytes(self.words.common@[i as int]).len() <= 10_737_420);
            }
            let points = score_word(self.words.common[i].as_str(), false);
            sum = sum + points as u64;
            if sum > cap {
                sum = cap;
            }
            i += 1;
        }
        proof {
            assert(ws.take(ws.len() as int) =~= ws);
        }
        let bonus = letter_bonus(&self.words.coverage) as u64;
        let all = sum + bonus;
        if all > u32::MAX as u64 {
            u32::MAX
        } else {
            all as u32
        }
    }

    /// Words that fill the whole board, common ones first. A superword board
    /// has one; any other board has none.
    pub fn superwords(&self) -> (supers: Vec<String>)
        ensures
            crate::solver::bytes_of(supers@) == supers_in(
                crate::solver::bytes_of(self.words.common@) + crate::solver::bytes_of(self.words.obscure@),
            ),
    {
        let mut out: Vec<String> = Vec::new();
        proof {
            assert(crate::solver::bytes_of(out@) =~= Seq::<Seq<u8>>::empty());
        }
        add_supers(&mut out, &self.words.common);
        add_supers(&mut out, &self.words.obscure);
        proof {
            lemma_supers_concat(
                crate::solver::bytes_of(self.words.common@),
                crate::solver::bytes_of(self.words.obscure@),
            );
            assert(Seq::<Seq<u8>>::empty() + supers_in(crate::solver::bytes_of(self.words.common@)) =~= supers_in(
                crate::solver::bytes_of(self.words.common@),
            ));
        }
        out
    }
}

proof fn lemma_supers_concat(a: Seq<Seq<u8>>, b: Seq<Seq<u8>>)
    ensures
        supers_in(a + b) == supers_in(a) + supers_in(b),
    decreases b.len(),
{
    if b.len() == 0 {
        assert(a + b =~= a);
        assert(supers_in(a) + supers_in(b) =~= supers_in(a));
    } else {
        assert((a + b).drop_last() =~= a + b.drop_last());
        lemma_supers_concat(a, b.drop_last());
        assert((a + b).last() == b.last());
    }
}


/// The words of word-and-path pairs.
pub open spec fn entry_words(out: Seq<(String, Vec<Position>)>) -> Seq<Seq<u8>> {
    out.map_values(|e: (String, Vec<Position>)| string_bytes(e.0))
}

/// Add to a ranked list each word of `list` that can be traced through `at`.
fn add_through(found: &mut Vec<String>, list: &Vec<String>, grid: &Grid, at: Position)
    requires
        crate::solver::ranked(crate::solver::bytes_of(old(found)@)),
        tiles_ok(*grid),
    ensures
        crate::solver::ranked(crate::solver::bytes_of(final(found)@)),
        forall|w: Seq<u8>|
            #[trigger] crate::solver::bytes_of(final(found)@).contains(w) <==> crate::solver::bytes_of(old(found)@).contains(w)
                || (crate::solver::bytes_of(list@).contains(w) && crate::solver::passes(*grid, w, at)),
{
    let ghost start = crate::solver::bytes_of(found@);
    let mut i: usize = 0;
    while i < list.len()
        invariant
            0 <= i <= list@.len(),
            tiles_ok(*grid),
            start == crate::solver::bytes_of(old(found)@),
            crate::solver::ranked(crate::solver::bytes_of(found@)),
            forall|w: Seq<u8>|
                #[trigger] crate::solver::bytes_of(found@).contains(w) <==> start.contains(w) || (
                crate::solver::bytes_of(list@).take(i as int).contains(w) && crate::solver::passes(*grid, w, at)),
        decreases list@.len() - i,
    {
        let w = &list[i];
        let ghost wb = string_bytes(*w);
        let ghost before = crate::solver::bytes_of(found@);
        proof {
            let all = crate::solver::bytes_of(list@);
            assert(all[i as int] == wb);
            assert(all.take(i + 1) =~= all.take(i as int).push(wb));
            assert forall|x: Seq<u8>| #[trigger] all.take(i + 1).contains(x) <==> all.take(i as int).contains(x) || x == wb by {
                let t = all.take(i as int);
                if t.push(wb).contains(x) && x != wb {
                    let j = choose|j: int| 0 <= j < t.push(wb).len() && t.push(wb)[j] == x;
                    assert(t[j] == x);
                }
                if t.contains(x) {
                    let j = choose|j: int| 0 <= j < t.len() && t[j] == x;
                    assert(t.push(wb)[j] == x);
                }
                if x == wb {
                    assert(t.push(wb)[t.len() as int] == x);
                }
            }
        }
        let ws = w.as_str();
        proof {
            assert(ws.spec_bytes() == wb);
        }
        let through = crate::game::path_through(grid, ws, at);
        if through.is_some() {
            let k = crate::solver::insert_word(found, w.clone());
            proof {
                assert forall|x: Seq<u8>| #[trigger] crate::solver::bytes_of(found@).contains(x) <==> before.contains(x)
                    || x == wb by {
                    let now = crate::solver::bytes_of(found@);
                    if !before.contains(wb) {
                        assert(now =~= before.insert(k as int, wb));
                        if now.contains(x) {
                            let j = choose|j: int| 0 <= j < now.len() && now[j] == x;
                            if j < k {
                                assert(before[j] == x);
                            } else if j > k {
                                assert(before[j - 1] == x);
                            }
                        }
                        if before.contains(x) {
                            let j = choose|j: int| 0 <= j < before.len() && before[j] == x;
                            if j < k {
                                assert(now[j] == x);
                            } else {
                                assert(now[j + 1] == x);
                            }
                        }
                        if x == wb {
                            assert(now[k as int] == x);
                        }
                    }
                }
            }
        }
        i += 1;
    }
    proof {
        assert(crate::solver::bytes_of(list@).take(list@.len() as int) =~= crate::solver::bytes_of(list@));
    }
}

/// The words of `ws` at least `len` bytes long.
fn words_at_least(ws: &Vec<String>, len: usize) -> (out: Vec<String>)
    ensures
        crate::solver::bytes_of(out@) == at_least(crate::solver::bytes_of(ws@), len as nat),
{
    let ghost all = crate::solver::bytes_of(ws@);
    let mut out: Vec<String> = Vec::new();
    let mut i: usize = 0;
    proof {
        assert(all.take(0) =~= Seq::<Seq<u8>>::empty());
        assert(crate::solver::bytes_of(out@) =~= Seq::<Seq<u8>>::empty());
    }
    while i < ws.len()
        invariant
            all == crate::solver::bytes_of(ws@),
            0 <= i <= ws@.len(),
            crate::solver::bytes_of(out@) == at_least(all.take(i as int), len as nat),
        decreases ws@.len() - i,
    {
        let ghost before = out@;
        proof {
            assert(all.take(i + 1).drop_last() =~= all.take(i as int));
            assert(all.take(i + 1).last() == string_bytes(ws@[i as int]));
        }
        let n = ws[i].as_str().as_bytes().len();
        if n >= len {
            out.push(ws[i].clone());
            proof {
                assert(crate::solver::bytes_of(out@) =~= crate::solver::bytes_of(before).push(string_bytes(ws@[i as int])));
            }
        } else {
            proof {
                assert(at_least(all.take(i + 1), len as nat) =~= at_least(all.take(i as int), len as nat));
            }
        }
        i += 1;
    }
    proof {
        assert(all.take(ws@.len() as int) =~= all);
    }
    out
}

impl Game {
    /// The results screen's third tab: the theme's words on a themed board,
    /// the superword on a superword board, otherwise the board's longest words.
    pub fn highlight_tab(&self) -> (tab: (String, Vec<String>))
        ensures
            ({
                let supers = supers_in(
                    crate::solver::bytes_of(self.words.common@) + crate::solver::bytes_of(self.words.obscure@),
                );
                match self.theme {
                    Some(t) => tab.0@ == t@ && tab.1@ == self.words.theme@,
                    None => if supers.len() > 0 {
                        tab.0@ == "Superword"@ && crate::solver::bytes_of(tab.1@) == supers
                    } else {
                        tab.0@ == "Longest"@ && crate::solver::bytes_of(tab.1@) == at_least(
                            crate::solver::bytes_of(self.words.common@),
                            8,
                        )
                    },
                }
            }),
    {
        match &self.theme {
            Some(t) => {
                return (t.clone(), copy_words(&self.words.theme));
            },
            None => {},
        }
        let supers = self.superwords();
        if supers.len() > 0 {
            return (String::from_str("Superword"), supers);
        }
        (String::from_str("Longest"), words_at_least(&self.words.common, 8))
    }

    /// What kind of board this is: its theme, or "Superword" when it was built
    /// around one, otherwise a shape read off its own common words.
    pub fn board_type(&self) -> (kind: String)
        ensures
            kind@ == board_kind(
                self.theme,
                supers_in(crate::solver::bytes_of(self.words.common@) + crate::solver::bytes_of(self.words.obscure@)),
                crate::solver::bytes_of(self.words.common@),
            ),
    {
        match &self.theme {
            Some(t) => {
                return t.clone();
            },
            None => {},
        }
        let supers = self.superwords();
        if supers.len() > 0 {
            return String::from_str("Superword");
        }
        let longest = if self.words.common.len() > 0 {
            self.words.common[0].as_str().as_bytes().len()
        } else {
            0
        };
        let count = self.words.common.len();
        if longest >= crate::game::LONG_BOARD_LEN {
            String::from_str("Long")
        } else if count >= 120 {
            String::from_str("Dense")
        } else if count < 70 {
            String::from_str("Sparse")
        } else {
            String::from_str("Standard")
        }
    }

    /// Every word on the board, common and obscure, that can be traced through
    /// `at`, each with one such path, longest words first and alphabetical
    /// within a length, each once.
    pub fn words_through(&self, at: Position) -> (out: Vec<(String, Vec<Position>)>)
        requires
            self.wf(),
        ensures
            crate::solver::ranked(entry_words(out@)),
            forall|w: Seq<u8>|
                #[trigger] entry_words(out@).contains(w) <==> (
                crate::solver::bytes_of(self.words.common@).contains(w) || crate::solver::bytes_of(
                    self.words.obscure@,
                ).contains(w)) && crate::solver::passes(self.grid, w, at),
            forall|i: int|
                0 <= i < out@.len() ==> crate::game::traces(
                    self.grid,
                    string_bytes((#[trigger] out@[i]).0),
                    Some(at),
                    out@[i].1@,
                ),
    {
        let mut names: Vec<String> = Vec::new();
        proof {
            assert(crate::solver::bytes_of(names@) =~= Seq::<Seq<u8>>::empty());
        }
        add_through(&mut names, &self.words.common, &self.grid, at);
        add_through(&mut names, &self.words.obscure, &self.grid, at);
        let mut out: Vec<(String, Vec<Position>)> = Vec::new();
        let mut i: usize = 0;
        while i < names.len()
            invariant
                self.wf(),
                0 <= i <= names@.len(),
                forall|w: Seq<u8>|
                    #[trigger] crate::solver::bytes_of(names@).contains(w) ==> crate::solver::passes(self.grid, w, at),
                entry_words(out@) == crate::solver::bytes_of(names@).take(
                    i as int,
                ),
                forall|k: int|
                    0 <= k < out@.len() ==> crate::game::traces(
                        self.grid,
                        string_bytes((#[trigger] out@[k]).0),
                        Some(at),
                        out@[k].1@,
                    ),
            decreases names@.len() - i,
        {
            let ghost before = out@;
            let name = &names[i];
            proof {
                assert(crate::solver::bytes_of(names@)[i as int] == string_bytes(*name));
                assert(crate::solver::bytes_of(names@).contains(string_bytes(*name)));
            }
            let text = name.as_str();
            proof {
                assert(text.spec_bytes() == string_bytes(*name));
                assert(crate::solver::passes(self.grid, text.spec_bytes(), at));
            }
            match crate::game::path_through(&self.grid, text, at) {
                Some(p) => {
                    out.push((name.clone(), p));
                    proof {
                        assert(entry_words(out@) =~= entry_words(before).push(string_bytes(*name)));
                        assert(crate::solver::bytes_of(names@).take(i + 1) =~= crate::solver::bytes_of(names@).take(
                            i as int,
                        ).push(string_bytes(*name)));
                    }
                },
                None => {
                    proof {
                        assert(false);
                    }
                },
            }
            i += 1;
        }
        proof {
            assert(crate::solver::bytes_of(names@).take(names@.len() as int) =~= crate::solver::bytes_of(names@));
        }
        out
    }
}

} // verus!
