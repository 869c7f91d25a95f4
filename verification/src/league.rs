//! Ranking: six leagues, and a rolling average that moves you between them.
//!
//! Your rank is the average of your last ten rounds, not your last one. A single
//! terrible board should not cost a league, and a single lucky one should not
//! win it: averaging over ten lets good and bad rounds cancel out.

use vstd::prelude::*;
use vstd::string::StringExecFns;
use vstd::string::StringSliceAdditionalSpecFns;
use std::collections::VecDeque;
use crate::text::{
    decimal, decimal_chars, decimal_digits, fields, find_byte, lemma_decimal_parses, lemma_fields_cons,
    lemma_fields_one, lemma_next_byte, lemma_next_byte_shift, lemma_next_byte_skip, lemma_text_lines_cons, lossy_text,
    next_byte, parse_number, parse_range, push_decimal, text_lines,
};
use crate::dictionary::{leading_space, space_prefix_len, space_suffix_len, trailing_space, trimmed};
use crate::game::string_bytes;
use crate::themes::same_bytes;

verus! {

/// How many recent rounds the rank average is taken over.
pub const FORM_GAMES: usize = 10;

/// Rounds needed before the ladder will promote you, so one good round cannot
/// launch a new player straight to the top. Relegation does not wait.
pub const MIN_GAMES_TO_MOVE: usize = 5;

pub struct LeagueDef {
    pub name: &'static str,
    /// Average score needed to sit in this league.
    pub threshold: u32,
}

/// The leagues' names, bottom to top.
pub const LEAGUE_NAMES: [&'static str; 6] = ["Bronze", "Silver", "Gold", "Platinum", "Diamond", "Hero"];

/// The average each league needs, bottom to top. A starting point, not a
/// measurement: they want retuning once there are real scores to look at.
pub const LEAGUE_THRESHOLDS: [u32; 6] = [0, 4_000, 8_000, 13_000, 20_000, 30_000];

/// The ladder, bottom to top.
pub fn leagues() -> (ladder: [LeagueDef; 6])
    ensures
        forall|i: int|
            0 <= i < 6 ==> (#[trigger] ladder[i]).name == LEAGUE_NAMES[i] && ladder[i].threshold
                == LEAGUE_THRESHOLDS[i],
{
    let ladder = [
        LeagueDef { name: LEAGUE_NAMES[0], threshold: LEAGUE_THRESHOLDS[0] },
        LeagueDef { name: LEAGUE_NAMES[1], threshold: LEAGUE_THRESHOLDS[1] },
        LeagueDef { name: LEAGUE_NAMES[2], threshold: LEAGUE_THRESHOLDS[2] },
        LeagueDef { name: LEAGUE_NAMES[3], threshold: LEAGUE_THRESHOLDS[3] },
        LeagueDef { name: LEAGUE_NAMES[4], threshold: LEAGUE_THRESHOLDS[4] },
        LeagueDef { name: LEAGUE_NAMES[5], threshold: LEAGUE_THRESHOLDS[5] },
    ];
    proof {
        assert forall|i: int| 0 <= i < 6 implies (#[trigger] ladder[i]).name == LEAGUE_NAMES[i]
            && ladder[i].threshold == LEAGUE_THRESHOLDS[i] by {
            assert(i == 0 || i == 1 || i == 2 || i == 3 || i == 4 || i == 5);
        }
    }
    ladder
}

pub const TOP_LEAGUE: usize = 5;

#[derive(Clone, Copy, PartialEq, Eq, Debug)]
pub enum Movement {
    Promoted,
    Held,
    Relegated,
}

#[derive(Clone, Copy)]
pub struct RankChange {
    pub movement: Movement,
    pub from: usize,
    pub to: usize,
    pub average: u32,
}

/// The sum of the scores.
pub open spec fn total(scores: Seq<u32>) -> nat
    decreases scores.len(),
{
    if scores.len() == 0 {
        0
    } else {
        total(scores.drop_last()) + (scores.last() as nat)
    }
}

/// The mean of the scores, rounded down; nothing on record averages 0.
pub open spec fn mean(scores: Seq<u32>) -> nat {
    if scores.len() == 0 {
        0
    } else {
        total(scores) / scores.len()
    }
}

/// The last ten scores of a run.
pub open spec fn form(scores: Seq<u32>) -> Seq<u32> {
    if scores.len() > FORM_GAMES {
        scores.skip(scores.len() - FORM_GAMES)
    } else {
        scores
    }
}

proof fn lemma_total_bound(scores: Seq<u32>)
    ensures
        total(scores) <= scores.len() * (u32::MAX as nat),
    decreases scores.len(),
{
    if scores.len() > 0 {
        lemma_total_bound(scores.drop_last());
        assert((scores.len() - 1) * (u32::MAX as nat) + u32::MAX == scores.len() * (u32::MAX as nat))
            by (nonlinear_arith);
    }
}

proof fn lemma_mean_bound(scores: Seq<u32>)
    ensures
        mean(scores) <= u32::MAX,
{
    if scores.len() > 0 {
        lemma_total_bound(scores);
        let n = scores.len();
        let t = total(scores);
        assert(t / n <= u32::MAX) by (nonlinear_arith)
            requires
                t <= n * (u32::MAX as nat),
                n > 0,
        ;
    }
}

/// What a round does to a ranking: the league it moves to and how. Promotion
/// waits for enough rounds on record; relegation does not.
pub open spec fn step_league(league: nat, games: nat, average: nat) -> (Movement, nat) {
    if games >= MIN_GAMES_TO_MOVE && league < TOP_LEAGUE && average >= LEAGUE_THRESHOLDS[league as int + 1] {
        (Movement::Promoted, league + 1)
    } else if league > 0 && average < LEAGUE_THRESHOLDS[league as int] {
        (Movement::Relegated, (league - 1) as nat)
    } else {
        (Movement::Held, league)
    }
}

proof fn lemma_names_ascii(i: int)
    requires
        0 <= i < 6,
    ensures
        vstd::string::is_ascii(LEAGUE_NAMES[i]),
{
    reveal_strlit("Bronze");
    reveal_strlit("Silver");
    reveal_strlit("Gold");
    reveal_strlit("Platinum");
    reveal_strlit("Diamond");
    reveal_strlit("Hero");
    assert(i == 0 || i == 1 || i == 2 || i == 3 || i == 4 || i == 5);
}

impl RankChange {
    /// The line the scorecard shows for a move: both leagues in capitals and the
    /// new average; nothing when the player held.
    pub fn headline(&self) -> (line: String)
        requires
            self.from <= TOP_LEAGUE,
            self.to <= TOP_LEAGUE,
        ensures
            line@ == match self.movement {
                Movement::Held => Seq::<char>::empty(),
                _ => capitals(LEAGUE_NAMES[self.from as int]@) + " \u{2192} "@ + capitals(
                    LEAGUE_NAMES[self.to as int]@,
                ) + "  \u{b7}  "@ + decimal_chars(self.average as nat) + " avg"@,
            },
    {
        match self.movement {
            Movement::Held => String::new(),
            _ => {
                proof {
                    lemma_names_ascii(self.from as int);
                    lemma_names_ascii(self.to as int);
                }
                let line = upper_case(LEAGUE_NAMES[self.from]).concat(" \u{2192} ").concat(
                    upper_case(LEAGUE_NAMES[self.to]).as_str(),
                ).concat("  \u{b7}  ").concat(decimal(self.average as u64).as_str()).concat(" avg");
                line
            },
        }
    }
}

/// ASCII letters a-z raised to A-Z; every other character unchanged.
pub open spec fn capital(c: char) -> char {
    if 'a' <= c && c <= 'z' {
        ((c as u32) - 32) as char
    } else {
        c
    }
}

pub open spec fn capitals(s: Seq<char>) -> Seq<char> {
    s.map_values(|c: char| capital(c))
}

/// `str::to_uppercase`: the text in capitals. For ASCII text that is each
/// letter a-z raised to A-Z; for other text nothing is stated.
#[verifier::external_body]
fn upper_case(s: &str) -> (out: String)
    ensures
        vstd::string::is_ascii(s) ==> out@ == capitals(s@),
{
    s.to_uppercase()
}

pub struct Ranking {
    pub league: usize,
    /// Recent round scores, oldest first, at most `FORM_GAMES` of them.
    pub recent: VecDeque<u32>,
    pub best_score: u32,
}

impl Ranking {
    pub fn new() -> (r: Self)
        ensures
            r.league == 0,
            r.recent@ == Seq::<u32>::empty(),
            r.best_score == 0,
    {
        Ranking { league: 0, recent: VecDeque::new(), best_score: 0 }
    }

    /// The rank itself: the mean of the rounds on record.
    pub fn average(&self) -> (avg: u32)
        ensures
            avg == mean(self.recent@),
    {
        let n = self.recent.len();
        if n == 0 {
            return 0;
        }
        let mut sum: u128 = 0;
        let mut i: usize = 0;
        while i < n
            invariant
                n == self.recent@.len(),
                0 <= i <= n,
                sum == total(self.recent@.take(i as int)),
                sum <= i * (u32::MAX as nat),
            decreases n - i,
        {
            proof {
                assert(self.recent@.take(i + 1).drop_last() =~= self.recent@.take(i as int));
                assert((i + 1) * (u32::MAX as nat) == i * (u32::MAX as nat) + u32::MAX) by (nonlinear_arith);
                assert(i * (u32::MAX as nat) <= usize::MAX as nat * (u32::MAX as nat)) by (nonlinear_arith)
                    requires
                        i <= usize::MAX,
                ;
            }
            sum = sum + self.recent[i] as u128;
            i += 1;
        }
        proof {
            assert(self.recent@.take(n as int) =~= self.recent@);
            lemma_mean_bound(self.recent@);
        }
        (sum / n as u128) as u32
    }

    pub fn games_on_record(&self) -> (n: usize)
        ensures
            n == self.recent@.len(),
    {
        self.recent.len()
    }

    /// Bank a round: it joins the last ten and the best score keeps up. Once
    /// there are enough rounds to judge, a new average past the next league's
    /// threshold promotes one league; an average under this league's floor
    /// relegates one at once.
    pub fn record(&mut self, score: u32) -> (change: RankChange)
        requires
            old(self).league <= TOP_LEAGUE,
        ensures
            final(self).recent@ == form(old(self).recent@.push(score)),
            final(self).best_score == if score > old(self).best_score {
                score
            } else {
                old(self).best_score
            },
            change.average == mean(final(self).recent@),
            change.from == old(self).league,
            (change.movement, change.to as nat) == step_league(
                old(self).league as nat,
                final(self).recent@.len(),
                change.average as nat,
            ),
            final(self).league == change.to,
            final(self).league <= TOP_LEAGUE,
    {
        let ghost run = self.recent@.push(score);
        self.recent.push_back(score);
        while self.recent.len() > FORM_GAMES
            invariant
                self.recent@.len() >= FORM_GAMES ==> self.recent@ == run.skip(run.len() - self.recent@.len()),
                self.recent@.len() < FORM_GAMES ==> self.recent@ == run,
                run.len() >= self.recent@.len(),
                self.league == old(self).league,
                self.best_score == old(self).best_score,
                self.league <= TOP_LEAGUE,
            decreases self.recent@.len(),
        {
            let ghost before = self.recent@;
            let _ = self.recent.pop_front();
            proof {
                assert(self.recent@ =~= run.skip(run.len() - self.recent@.len()));
            }
        }
        proof {
            if run.len() <= FORM_GAMES {
                if self.recent@.len() == FORM_GAMES {
                    assert(run.skip(0) =~= run);
                }
            }
            assert(self.recent@ =~= form(run));
        }
        if score > self.best_score {
            self.best_score = score;
        }
        let average = self.average();
        let from = self.league;
        if self.recent.len() >= MIN_GAMES_TO_MOVE && self.league < TOP_LEAGUE && average >= LEAGUE_THRESHOLDS[self.league + 1] {
            self.league = self.league + 1;
            return RankChange { movement: Movement::Promoted, from, to: self.league, average };
        }
        if self.league > 0 && average < LEAGUE_THRESHOLDS[self.league] {
            self.league = self.league - 1;
            return RankChange { movement: Movement::Relegated, from, to: self.league, average };
        }
        RankChange { movement: Movement::Held, from, to: from, average }
    }

    /// How far the rank average has climbed from this league's floor toward
    /// the next league's, and how far apart the two are: the progress bar's
    /// fill and length. Nothing at the top, where the bar is full.
    pub fn progress_span(&self) -> (span: Option<(u32, u32)>)
        requires
            self.league <= TOP_LEAGUE,
        ensures
            span == if self.league < TOP_LEAGUE {
                let floor = LEAGUE_THRESHOLDS[self.league as int];
                let next = LEAGUE_THRESHOLDS[self.league + 1];
                let avg = mean(self.recent@);
                Some(((if avg > floor { avg - floor } else { 0 }) as u32, (next - floor) as u32))
            } else {
                None::<(u32, u32)>
            },
    {
        if self.league >= TOP_LEAGUE {
            return None;
        }
        let floor = LEAGUE_THRESHOLDS[self.league];
        let next = LEAGUE_THRESHOLDS[self.league + 1];
        let avg = self.average();
        Some((if avg > floor { avg - floor } else { 0 }, next - floor))
    }

    /// The average the next league up asks for; none at the top.
    pub fn next_threshold(&self) -> (next: Option<u32>)
        requires
            self.league <= TOP_LEAGUE,
        ensures
            next == if self.league < TOP_LEAGUE {
                Some(LEAGUE_THRESHOLDS[self.league + 1])
            } else {
                None::<u32>
            },
    {
        if self.league < TOP_LEAGUE {
            Some(LEAGUE_THRESHOLDS[self.league + 1])
        } else {
            None
        }
    }
}

/// What a ranking's save holds: the best score, the league and the recent
/// scores.
pub type RankText = (nat, nat, Seq<u32>);

pub open spec fn best_key() -> Seq<u8> {
    seq![98u8, 101u8, 115u8, 116u8]
}

pub open spec fn league_key() -> Seq<u8> {
    seq![108u8, 101u8, 97u8, 103u8, 117u8, 101u8]
}

pub open spec fn recent_key() -> Seq<u8> {
    seq![114u8, 101u8, 99u8, 101u8, 110u8, 116u8]
}

/// The scores a comma-separated list holds: each piece trimmed, and those that
/// do not read as a score left out.
pub open spec fn scores_in(pieces: Seq<Seq<u8>>) -> Seq<u32>
    decreases pieces.len(),
{
    if pieces.len() == 0 {
        Seq::empty()
    } else {
        (match parse_number(trimmed(pieces[0]), u32::MAX as nat) {
            Some(v) => seq![v as u32],
            None => Seq::empty(),
        }) + scores_in(pieces.drop_first())
    }
}

/// What one line of a save does: `key=value` sets the best score, the league
/// (held to the top one) or the recent scores; any other line changes nothing.
pub open spec fn rank_step(state: RankText, line: Seq<u8>) -> RankText {
    let eq = next_byte(line, 61, 0);
    if eq >= line.len() {
        state
    } else {
        let key = line.take(eq);
        let value = line.skip(eq + 1);
        if key == best_key() {
            (
                match parse_number(value, u32::MAX as nat) {
                    Some(v) => v,
                    None => 0,
                },
                state.1,
                state.2,
            )
        } else if key == league_key() {
            (
                state.0,
                match parse_number(value, usize::MAX as nat) {
                    Some(v) => if v < TOP_LEAGUE {
                        v
                    } else {
                        TOP_LEAGUE as nat
                    },
                    None => 0,
                },
                state.2,
            )
        } else if key == recent_key() {
            (state.0, state.1, form(scores_in(fields(value, 0))))
        } else {
            state
        }
    }
}

pub open spec fn rank_after(state: RankText, lines: Seq<Seq<u8>>) -> RankText
    decreases lines.len(),
{
    if lines.len() == 0 {
        state
    } else {
        rank_after(rank_step(state, lines[0]), lines.drop_first())
    }
}

/// The ranking a save's text describes, line by line.
pub open spec fn ranking_in(t: Seq<u8>) -> RankText {
    rank_after((0, 0, Seq::empty()), text_lines(t, 0))
}

pub open spec fn rank_text(r: Ranking) -> RankText {
    (r.best_score as nat, r.league as nat, r.recent@)
}


/// The scores of the comma-separated list `t[lo..hi]`.
fn read_scores(t: &[u8], lo: usize, hi: usize) -> (scores: VecDeque<u32>)
    requires
        lo <= hi <= t@.len(),
    ensures
        scores@ == scores_in(fields(t@.subrange(lo as int, hi as int), 0)),
{
    let ghost v = t@.subrange(lo as int, hi as int);
    let mut scores: VecDeque<u32> = VecDeque::new();
    let mut start = lo;
    let mut more = true;
    proof {
        assert(scores@ + scores_in(fields(v, 0)) =~= scores_in(fields(v, 0)));
    }
    while more
        invariant
            lo <= start <= hi <= t@.len(),
            v == t@.subrange(lo as int, hi as int),
            start == lo || t@[start - 1] == 44,
            more ==> scores@ + scores_in(fields(v, start - lo)) == scores_in(fields(v, 0)),
            !more ==> scores@ == scores_in(fields(v, 0)),
        decreases (if more { hi + 2 - start } else { 0 }),
    {
        let ghost done = scores@;
        let end = find_byte(t, 44, start, hi);
        proof {
            lemma_next_byte_shift(t@, 44, lo as int, start as int, hi as int);
            assert(t@.subrange(0, hi as int).subrange(lo as int, hi as int) =~= v);
            lemma_next_byte(v, 44, start - lo);
            assert(v.subrange(start - lo, end - lo) =~= t@.subrange(start as int, end as int));
        }
        let (a, b) = crate::dictionary::trim_bounds(t, start, end);
        let parsed = parse_range(t, a, b, u32::MAX as u64);
        let ghost piece = v.subrange(start - lo, end - lo);
        proof {
            if end < hi {
                assert(fields(v, start - lo) == seq![piece] + fields(v, end - lo + 1));
                assert((seq![piece] + fields(v, end - lo + 1)).drop_first() =~= fields(v, end - lo + 1));
            } else {
                assert(fields(v, start - lo) == seq![piece]);
                assert(seq![piece].drop_first() =~= Seq::<Seq<u8>>::empty());
            }
            assert(fields(v, start - lo)[0] == piece);
        }
        match parsed {
            Some(n) => {
                scores.push_back(n as u32);
                proof {
                    assert(scores_in(fields(v, start - lo)) == seq![n as u32] + scores_in(
                        fields(v, start - lo).drop_first(),
                    ));
                    assert(done + scores_in(fields(v, start - lo)) =~= scores@ + scores_in(
                        fields(v, start - lo).drop_first(),
                    ));
                }
            },
            None => {
                proof {
                    assert(scores_in(fields(v, start - lo)) =~= scores_in(fields(v, start - lo).drop_first()));
                }
            },
        }
        if end < hi {
            start = end + 1;
        } else {
            proof {
                assert(scores_in(Seq::<Seq<u8>>::empty()) =~= Seq::<u32>::empty());
                assert(scores@ + Seq::<u32>::empty() =~= scores@);
            }
            more = false;
        }
    }
    scores
}

/// The last ten of the scores.
fn keep_form(scores: &mut VecDeque<u32>)
    ensures
        final(scores)@ == form(old(scores)@),
{
    let ghost run = scores@;
    while scores.len() > FORM_GAMES
        invariant
            scores@.len() >= FORM_GAMES ==> scores@ == run.skip(run.len() - scores@.len()),
            scores@.len() < FORM_GAMES ==> scores@ == run,
            run.len() >= scores@.len(),
        decreases scores@.len(),
    {
        let _ = scores.pop_front();
        proof {
            assert(scores@ =~= run.skip(run.len() - scores@.len()));
        }
    }
    proof {
        if run.len() <= FORM_GAMES && scores@.len() == FORM_GAMES {
            assert(run.skip(0) =~= run);
        }
        assert(scores@ =~= form(run));
    }
}

/// A best score saved before leagues existed: the number the text holds,
/// surrounding space allowed, else 0.
pub fn legacy_best(saved: Option<&str>) -> (best: u32)
    ensures
        best == match saved {
            Some(s) => match parse_number(trimmed(s.spec_bytes()), u32::MAX as nat) {
                Some(v) => v,
                None => 0,
            },
            None => 0,
        },
{
    match saved {
        None => 0,
        Some(s) => {
            let t = s.as_bytes();
            let (a, b) = crate::dictionary::trim_bounds(t, 0, t.len());
            proof {
                assert(t@.subrange(0, t@.len() as int) =~= t@);
            }
            match parse_range(t, a, b, u32::MAX as u64) {
                Some(v) => v as u32,
                None => 0,
            }
        },
    }
}

impl Ranking {
    /// A ranking from its save. With no save, a fresh one that keeps the best
    /// score from before leagues existed.
    pub fn load(saved: Option<&str>, legacy: Option<&str>) -> (rank: Ranking)
        ensures
            match saved {
                Some(text) => rank_text(rank) == ranking_in(text.spec_bytes()),
                None => rank.league == 0 && rank.recent@.len() == 0 && rank.best_score == legacy_best_value(legacy),
            },
            rank.league <= TOP_LEAGUE,
    {
        let text = match saved {
            None => {
                let mut fresh = Ranking::new();
                fresh.best_score = legacy_best(legacy);
                return fresh;
            },
            Some(text) => text,
        };
        let t = text.as_bytes();
        let ghost tb = t@;
        let len = t.len();
        let mut rank = Ranking::new();
        if len == 0 {
            proof {
                assert(text_lines(tb, 0) =~= Seq::<Seq<u8>>::empty());
            }
            return rank;
        }
        let mut start: usize = 0;
        let mut more = true;
        while more
            invariant
                tb == t@,
                len == tb.len(),
                len > 0,
                0 <= start < len,
                rank.league <= TOP_LEAGUE,
                more ==> rank_after(rank_text(rank), text_lines(tb, start as int)) == ranking_in(tb),
                !more ==> rank_text(rank) == ranking_in(tb),
            decreases (if more { len + 1 - start } else { 0 }),
        {
            let ghost before = rank_text(rank);
            let end = find_byte(t, 10, start, len);
            proof {
                assert(tb.subrange(0, len as int) =~= tb);
                lemma_next_byte(tb, 10, start as int);
            }
            let content_end = if end < len && end > start && t[end - 1] == 13 { end - 1 } else { end };
            let ghost line = tb.subrange(start as int, content_end as int);
            proof {
                assert(text_lines(tb, start as int)[0] == line);
                assert(text_lines(tb, start as int).drop_first() =~= text_lines(tb, end + 1));
                assert(rank_after(before, text_lines(tb, start as int)) == rank_after(
                    rank_step(before, line),
                    text_lines(tb, end + 1),
                ));
            }
            rank.read_line(t, start, content_end);
            proof {
                assert(rank_text(rank) == rank_step(before, line));
            }
            if end < len - 1 {
                start = end + 1;
            } else {
                proof {
                    assert(text_lines(tb, end + 1) =~= Seq::<Seq<u8>>::empty());
                }
                more = false;
            }
        }
        rank
    }
}

impl Ranking {
    /// Take in one line of a save: `t[start..end]`.
    fn read_line(&mut self, t: &[u8], start: usize, end: usize)
        requires
            start <= end <= t@.len(),
            old(self).league <= TOP_LEAGUE,
        ensures
            rank_text(*final(self)) == rank_step(rank_text(*old(self)), t@.subrange(start as int, end as int)),
            final(self).league <= TOP_LEAGUE,
    {
        let ghost tb = t@;
        let ghost line = tb.subrange(start as int, end as int);
        let eq = find_byte(t, 61, start, end);
        proof {
            lemma_next_byte_shift(tb, 61, start as int, start as int, end as int);
            lemma_next_byte(line, 61, 0);
        }
        if eq < end {
            let key = vstd::slice::slice_subrange(t, start, eq);
            proof {
                assert(key@ =~= line.take(eq - start));
                assert(tb.subrange(eq + 1, end as int) =~= line.skip(eq - start + 1));
            }
            let best_name: [u8; 4] = [98, 101, 115, 116];
            let league_name: [u8; 6] = [108, 101, 97, 103, 117, 101];
            let recent_name: [u8; 6] = [114, 101, 99, 101, 110, 116];
            proof {
                assert(best_name@ =~= best_key());
                assert(league_name@ =~= league_key());
                assert(recent_name@ =~= recent_key());
            }
            if same_bytes(key, best_name.as_slice()) {
                self.best_score = match parse_range(t, eq + 1, end, u32::MAX as u64) {
                    Some(v) => v as u32,
                    None => 0,
                };
            } else if same_bytes(key, league_name.as_slice()) {
                self.league = match parse_range(t, eq + 1, end, usize::MAX as u64) {
                    Some(v) => if v < TOP_LEAGUE as u64 {
                        v as usize
                    } else {
                        TOP_LEAGUE
                    },
                    None => 0,
                };
            } else if same_bytes(key, recent_name.as_slice()) {
                let mut scores = read_scores(t, eq + 1, end);
                keep_form(&mut scores);
                self.recent = scores;
            }
        }
    }
}

pub open spec fn legacy_best_value(legacy: Option<&str>) -> u32 {
    match legacy {
        Some(s) => match parse_number(trimmed(s.spec_bytes()), u32::MAX as nat) {
            Some(v) => v as u32,
            None => 0,
        },
        None => 0,
    }
}

pub open spec fn version_line() -> Seq<u8> {
    seq![118u8, 101u8, 114u8, 115u8, 105u8, 111u8, 110u8, 61u8, 50u8]
}

/// Scores in decimal, separated by commas.
pub open spec fn scores_text(r: Seq<u32>) -> Seq<u8>
    decreases r.len(),
{
    if r.len() == 0 {
        Seq::empty()
    } else if r.len() == 1 {
        decimal_digits(r[0] as nat)
    } else {
        decimal_digits(r[0] as nat) + seq![44u8] + scores_text(r.drop_first())
    }
}

/// A ranking's save: a version line, then the best score, the league and the
/// recent scores, one `key=value` line each.
pub open spec fn saved_ranking(best: nat, league: nat, recent: Seq<u32>) -> Seq<u8> {
    version_line() + seq![10u8] + best_key() + seq![61u8] + decimal_digits(best) + seq![10u8] + league_key()
        + seq![61u8] + decimal_digits(league) + seq![10u8] + recent_key() + seq![61u8] + scores_text(recent)
        + seq![10u8]
}

impl Ranking {
    /// The text a ranking is saved as.
    pub fn store(&self) -> (text: String)
        ensures
            string_bytes(text) == saved_ranking(self.best_score as nat, self.league as nat, self.recent@),
    {
        let mut out: Vec<u8> = Vec::new();
        out.push(118);
        out.push(101);
        out.push(114);
        out.push(115);
        out.push(105);
        out.push(111);
        out.push(110);
        out.push(61);
        out.push(50);
        out.push(10);
        out.push(98);
        out.push(101);
        out.push(115);
        out.push(116);
        out.push(61);
        push_decimal(&mut out, self.best_score as u64);
        out.push(10);
        out.push(108);
        out.push(101);
        out.push(97);
        out.push(103);
        out.push(117);
        out.push(101);
        out.push(61);
        push_decimal(&mut out, self.league as u64);
        out.push(10);
        out.push(114);
        out.push(101);
        out.push(99);
        out.push(101);
        out.push(110);
        out.push(116);
        out.push(61);
        let ghost head = out@;
        let n = self.recent.len();
        let mut i: usize = 0;
        while i < n
            invariant
                n == self.recent@.len(),
                0 <= i <= n,
                out@ == head + scores_text(self.recent@.take(i as int)),
            decreases n - i,
        {
            let ghost before = out@;
            if i > 0 {
                out.push(44);
            }
            push_decimal(&mut out, self.recent[i] as u64);
            proof {
                lemma_scores_text_push(self.recent@.take(i as int), self.recent@[i as int]);
                assert(self.recent@.take(i + 1) =~= self.recent@.take(i as int).push(self.recent@[i as int]));
            }
            i += 1;
        }
        out.push(10);
        proof {
            assert(self.recent@.take(n as int) =~= self.recent@);
            assert(out@ =~= saved_ranking(self.best_score as nat, self.league as nat, self.recent@));
            assert forall|k: int| 0 <= k < out@.len() implies #[trigger] out@[k] < 128 by {
                lemma_saved_ascii(self.best_score as nat, self.league as nat, self.recent@, k);
            }
            crate::text::lemma_ascii_valid(out@);
        }
        lossy_text(out.as_slice())
    }
}

proof fn lemma_scores_text_push(r: Seq<u32>, x: u32)
    ensures
        scores_text(r.push(x)) == if r.len() == 0 {
            decimal_digits(x as nat)
        } else {
            scores_text(r) + seq![44u8] + decimal_digits(x as nat)
        },
    decreases r.len(),
{
    if r.len() == 0 {
        assert(r.push(x).len() == 1 && r.push(x)[0] == x);
    } else if r.len() == 1 {
        assert(r.push(x).drop_first() =~= seq![x]);
        assert(scores_text(seq![x]) == decimal_digits(x as nat));
        assert(r.push(x)[0] == r[0]);
    } else {
        lemma_scores_text_push(r.drop_first(), x);
        assert(r.push(x).drop_first() =~= r.drop_first().push(x));
        assert(r.push(x)[0] == r[0]);
        let d0 = decimal_digits(r[0] as nat);
        let rest = scores_text(r.drop_first());
        assert(d0 + seq![44u8] + (rest + seq![44u8] + decimal_digits(x as nat)) =~= d0 + seq![44u8] + rest
            + seq![44u8] + decimal_digits(x as nat));
    }
}

proof fn lemma_digits_ascii(n: nat, k: int)
    requires
        0 <= k < decimal_digits(n).len(),
    ensures
        decimal_digits(n)[k] < 128,
    decreases n,
{
    if n >= 10 && k < decimal_digits(n).len() - 1 {
        lemma_digits_ascii(n / 10, k);
    }
}

proof fn lemma_scores_ascii(r: Seq<u32>, k: int)
    requires
        0 <= k < scores_text(r).len(),
    ensures
        scores_text(r)[k] < 128,
    decreases r.len(),
{
    let d = decimal_digits(r[0] as nat);
    if r.len() == 1 {
        lemma_digits_ascii(r[0] as nat, k);
    } else if k < d.len() {
        lemma_digits_ascii(r[0] as nat, k);
    } else if k > d.len() {
        lemma_scores_ascii(r.drop_first(), k - d.len() - 1);
    }
}

proof fn lemma_saved_ascii(best: nat, league: nat, recent: Seq<u32>, k: int)
    requires
        0 <= k < saved_ranking(best, league, recent).len(),
    ensures
        saved_ranking(best, league, recent)[k] < 128,
{
    let t = saved_ranking(best, league, recent);
    let a = version_line() + seq![10u8] + best_key() + seq![61u8];
    let b = decimal_digits(best);
    let c = seq![10u8] + league_key() + seq![61u8];
    let d = decimal_digits(league);
    let e = seq![10u8] + recent_key() + seq![61u8];
    let f = scores_text(recent);
    assert(t =~= a + b + c + d + e + f + seq![10u8]);
    let ab = a.len() + b.len();
    let abc = ab + c.len();
    let abcd = abc + d.len();
    let abcde = abcd + e.len();
    if k < a.len() {
    } else if k < ab {
        lemma_digits_ascii(best, k - a.len());
    } else if k < abc {
    } else if k < abcd {
        lemma_digits_ascii(league, k - abc);
    } else if k < abcde {
    } else if k < abcde + f.len() {
        lemma_scores_ascii(recent, k - abcde);
    }
}

/// Decimal digits need no trimming.
proof fn lemma_digits_trimmed(n: nat)
    ensures
        trimmed(decimal_digits(n)) == decimal_digits(n),
{
    let d = decimal_digits(n);
    lemma_decimal_parses(n, n);
    assert(crate::text::is_digit(d[0]));
    assert(crate::text::is_digit(d[d.len() - 1]));
    assert(space_prefix_len(d) == 0);
    assert(leading_space(d) == 0);
    assert(d.skip(0) =~= d);
    assert(space_suffix_len(d) == 0);
    assert(trailing_space(d) == 0);
    assert(d.take(d.len() as int) =~= d);
}

/// The recent scores read back from their text.
proof fn lemma_scores_round_trip(r: Seq<u32>)
    ensures
        scores_in(fields(scores_text(r), 0)) == r,
    decreases r.len(),
{
    if r.len() == 0 {
        lemma_fields_one(Seq::<u8>::empty());
        assert(trimmed(Seq::<u8>::empty()) =~= Seq::<u8>::empty()) by {
            assert(leading_space(Seq::<u8>::empty()) == 0);
            assert(trailing_space(Seq::<u8>::empty()) == 0);
        }
        assert(scores_in(seq![Seq::<u8>::empty()]) =~= Seq::<u32>::empty()) by {
            assert(seq![Seq::<u8>::empty()].drop_first() =~= Seq::<Seq<u8>>::empty());
            assert(seq![Seq::<u8>::empty()][0] == Seq::<u8>::empty());
            assert(crate::text::number_digits(Seq::<u8>::empty()) =~= Seq::<u8>::empty());
            assert(parse_number(Seq::<u8>::empty(), u32::MAX as nat) is None);
            assert(scores_in(Seq::<Seq<u8>>::empty()) =~= Seq::<u32>::empty());
        }
    } else {
        let d = decimal_digits(r[0] as nat);
        lemma_decimal_parses(r[0] as nat, u32::MAX as nat);
        lemma_digits_trimmed(r[0] as nat);
        if r.len() == 1 {
            lemma_fields_one(d);
            assert(seq![d].drop_first() =~= Seq::<Seq<u8>>::empty());
            assert(scores_in(Seq::<Seq<u8>>::empty()) =~= Seq::<u32>::empty());
            assert(seq![r[0]] + Seq::<u32>::empty() =~= r);
        } else {
            lemma_fields_cons(d, scores_text(r.drop_first()));
            lemma_scores_round_trip(r.drop_first());
            assert((seq![d] + fields(scores_text(r.drop_first()), 0)).drop_first() =~= fields(
                scores_text(r.drop_first()),
                0,
            ));
            assert(seq![r[0]] + r.drop_first() =~= r);
        }
    }
}

proof fn lemma_scores_text_clean(r: Seq<u32>)
    ensures
        forall|i: int| 0 <= i < scores_text(r).len() ==> #[trigger] scores_text(r)[i] != 10,
        scores_text(r).len() == 0 || scores_text(r).last() != 13,
    decreases r.len(),
{
    if r.len() > 0 {
        let d = decimal_digits(r[0] as nat);
        lemma_decimal_parses(r[0] as nat, r[0] as nat);
        if r.len() > 1 {
            lemma_scores_text_clean(r.drop_first());
            let rest = scores_text(r.drop_first());
            assert forall|i: int| 0 <= i < scores_text(r).len() implies #[trigger] scores_text(r)[i] != 10 by {
                if i < d.len() {
                    assert(scores_text(r)[i] == d[i]);
                } else if i > d.len() {
                    assert(scores_text(r)[i] == rest[i - d.len() - 1]);
                }
            }
            if rest.len() > 0 {
                assert(scores_text(r).last() == rest.last());
            }
        }
    }
}

/// What one `key=value` line does to a ranking, when the key holds no `=`.
proof fn lemma_key_line(state: RankText, key: Seq<u8>, value: Seq<u8>)
    requires
        forall|i: int| 0 <= i < key.len() ==> #[trigger] key[i] != 61,
    ensures
        next_byte(key + seq![61u8] + value, 61, 0) == key.len(),
        (key + seq![61u8] + value).take(key.len() as int) == key,
        (key + seq![61u8] + value).skip(key.len() as int + 1) == value,
{
    lemma_next_byte_skip(key, seq![61u8] + value, 61, 0);
    assert(key + (seq![61u8] + value) =~= key + seq![61u8] + value);
    assert(next_byte(seq![61u8] + value, 61, 0) == 0);
    assert((key + seq![61u8] + value).take(key.len() as int) =~= key);
    assert((key + seq![61u8] + value).skip(key.len() as int + 1) =~= value);
}

proof fn lemma_saved_lines(best: u32, league: nat, recent: Seq<u32>)
    requires
        league <= TOP_LEAGUE,
    ensures
        text_lines(saved_ranking(best as nat, league, recent), 0) == seq![
            version_line(),
            best_key() + seq![61u8] + decimal_digits(best as nat),
            league_key() + seq![61u8] + decimal_digits(league),
            recent_key() + seq![61u8] + scores_text(recent),
        ],
{
    let l1 = version_line();
    let l2 = best_key() + seq![61u8] + decimal_digits(best as nat);
    let l3 = league_key() + seq![61u8] + decimal_digits(league);
    let l4 = recent_key() + seq![61u8] + scores_text(recent);
    let t = saved_ranking(best as nat, league, recent);
    let r4 = l4 + seq![10u8] + Seq::<u8>::empty();
    let r3 = l3 + seq![10u8] + r4;
    let r2 = l2 + seq![10u8] + r3;
    assert(t =~= l1 + seq![10u8] + r2);
    lemma_decimal_parses(best as nat, u32::MAX as nat);
    lemma_decimal_parses(league, usize::MAX as nat);
    lemma_scores_text_clean(recent);
    assert forall|i: int| 0 <= i < l2.len() implies #[trigger] l2[i] != 10 by {
        if i >= 5 {
            assert(l2[i] == decimal_digits(best as nat)[i - 5]);
        }
    }
    assert forall|i: int| 0 <= i < l3.len() implies #[trigger] l3[i] != 10 by {
        if i >= 7 {
            assert(l3[i] == decimal_digits(league)[i - 7]);
        }
    }
    assert forall|i: int| 0 <= i < l4.len() implies #[trigger] l4[i] != 10 by {
        if i >= 7 {
            assert(l4[i] == scores_text(recent)[i - 7]);
        }
    }
    assert(l2.last() == decimal_digits(best as nat).last());
    assert(l3.last() == decimal_digits(league).last());
    if scores_text(recent).len() > 0 {
        assert(l4.last() == scores_text(recent).last());
    }
    lemma_text_lines_cons(l1, r2);
    lemma_text_lines_cons(l2, r3);
    lemma_text_lines_cons(l3, r4);
    lemma_text_lines_cons(l4, Seq::<u8>::empty());
    assert(text_lines(Seq::<u8>::empty(), 0) =~= Seq::<Seq<u8>>::empty());
    assert(text_lines(t, 0) =~= seq![l1, l2, l3, l4]);
}

proof fn lemma_step_version(state: RankText)
    ensures
        rank_step(state, version_line()) == state,
{
    let l1 = version_line();
    crate::text::lemma_next_byte(l1, 61, 0);
    assert(l1[7] == 61);
    if next_byte(l1, 61, 0) < 7 {
        assert(l1[next_byte(l1, 61, 0)] == 61);
    }
    assert(next_byte(l1, 61, 0) == 7);
    assert(l1.take(7).len() == 7);
}

proof fn lemma_step_best(state: RankText, n: u32)
    ensures
        rank_step(state, best_key() + seq![61u8] + decimal_digits(n as nat)) == (n as nat, state.1, state.2),
{
    lemma_key_line(state, best_key(), decimal_digits(n as nat));
    lemma_decimal_parses(n as nat, u32::MAX as nat);
}

proof fn lemma_step_league(state: RankText, n: nat)
    requires
        n <= TOP_LEAGUE,
    ensures
        rank_step(state, league_key() + seq![61u8] + decimal_digits(n)) == (state.0, n, state.2),
{
    lemma_key_line(state, league_key(), decimal_digits(n));
    lemma_decimal_parses(n, usize::MAX as nat);
    assert(league_key() != best_key());
}

proof fn lemma_step_recent(state: RankText, r: Seq<u32>)
    requires
        r.len() <= FORM_GAMES,
    ensures
        rank_step(state, recent_key() + seq![61u8] + scores_text(r)) == (state.0, state.1, r),
{
    lemma_key_line(state, recent_key(), scores_text(r));
    assert(recent_key() != best_key());
    assert(recent_key() != league_key()) by {
        assert(recent_key()[0] != league_key()[0]);
    }
    lemma_scores_round_trip(r);
    assert(form(r) == r);
}

/// A saved ranking reads back as it was: the best score, the league and the
/// recent scores, for any league on the ladder and up to ten recent scores.
pub proof fn lemma_save_round_trip(best: u32, league: nat, recent: Seq<u32>)
    requires
        league <= TOP_LEAGUE,
        recent.len() <= FORM_GAMES,
    ensures
        ranking_in(saved_ranking(best as nat, league, recent)) == (best as nat, league, recent),
{
    let l1 = version_line();
    let l2 = best_key() + seq![61u8] + decimal_digits(best as nat);
    let l3 = league_key() + seq![61u8] + decimal_digits(league);
    let l4 = recent_key() + seq![61u8] + scores_text(recent);
    lemma_saved_lines(best, league, recent);
    let lines = seq![l1, l2, l3, l4];
    let s0: RankText = (0, 0, Seq::empty());
    lemma_step_version(s0);
    lemma_step_best(s0, best);
    let s2: RankText = (best as nat, 0, Seq::empty());
    lemma_step_league(s2, league);
    let s3: RankText = (best as nat, league, Seq::empty());
    lemma_step_recent(s3, recent);
    assert(lines.drop_first() =~= seq![l2, l3, l4]);
    assert(seq![l2, l3, l4].drop_first() =~= seq![l3, l4]);
    assert(seq![l3, l4].drop_first() =~= seq![l4]);
    assert(seq![l4].drop_first() =~= Seq::<Seq<u8>>::empty());
    let s4: RankText = (best as nat, league, recent);
    assert(rank_after(s4, Seq::<Seq<u8>>::empty()) == s4);
    assert(rank_after(s3, seq![l4]) == rank_after(rank_step(s3, l4), Seq::<Seq<u8>>::empty()));
    assert(rank_after(s2, seq![l3, l4]) == rank_after(rank_step(s2, l3), seq![l4]));
    assert(rank_after(s0, seq![l2, l3, l4]) == rank_after(rank_step(s0, l2), seq![l3, l4]));
    assert(rank_after(s0, lines) == rank_after(rank_step(s0, l1), seq![l2, l3, l4]));
}


/// The ladder has ends: Bronze cannot drop and Hero cannot climb, a round moves
/// a player at most one league, promotion waits for enough rounds, and an
/// average under the league's floor relegates whatever the number of rounds.
pub proof fn lemma_ladder_moves_one_step_within_its_ends(league: nat, games: nat, average: nat)
    requires
        league <= TOP_LEAGUE,
    ensures
        ({
            let (movement, to) = step_league(league, games, average);
            &&& to <= TOP_LEAGUE
            &&& league == 0 ==> movement != Movement::Relegated
            &&& league == TOP_LEAGUE ==> movement != Movement::Promoted
            &&& movement == Movement::Promoted ==> to == league + 1
            &&& movement == Movement::Relegated ==> to + 1 == league
            &&& movement == Movement::Held ==> to == league
            &&& games < MIN_GAMES_TO_MOVE ==> movement != Movement::Promoted
            &&& 0 < league && average < LEAGUE_THRESHOLDS[league as int] ==> movement == Movement::Relegated
        }),
{
}

/// The rank is the plain average of the rounds on record, rounded down: the
/// sum of the scores, one score after another, divided by how many there are;
/// a run of equal scores averages that score, and nothing on record averages 0.
pub proof fn lemma_rank_is_the_average(scores: Seq<u32>, score: u32, v: u32)
    ensures
        total(Seq::<u32>::empty()) == 0,
        total(scores.push(score)) == total(scores) + score,
        mean(Seq::<u32>::empty()) == 0,
        scores.len() > 0 ==> mean(scores) * scores.len() <= total(scores) < (mean(scores) + 1) * scores.len(),
        scores.len() > 0 && (forall|i: int| 0 <= i < scores.len() ==> scores[i] == v) ==> mean(scores) == v,
{
    assert(scores.push(score).drop_last() =~= scores);
    if scores.len() > 0 {
        let n = scores.len() as int;
        let t = total(scores) as int;
        vstd::arithmetic::div_mod::lemma_fundamental_div_mod(t, n);
        vstd::arithmetic::div_mod::lemma_mod_pos_bound(t, n);
        assert(mean(scores) == t / n);
        assert((t / n) * n <= t < (t / n + 1) * n) by (nonlinear_arith)
            requires
                t == n * (t / n) + t % n,
                0 <= t % n < n,
        ;
        if forall|i: int| 0 <= i < scores.len() ==> scores[i] == v {
            lemma_total_of_equal(scores, v);
            vstd::arithmetic::div_mod::lemma_fundamental_div_mod_converse(t, n, v as int, 0);
        }
    }
}

proof fn lemma_total_of_equal(scores: Seq<u32>, v: u32)
    requires
        forall|i: int| 0 <= i < scores.len() ==> scores[i] == v,
    ensures
        total(scores) == scores.len() * v,
    decreases scores.len(),
{
    if scores.len() > 0 {
        let rest = scores.drop_last();
        assert forall|i: int| 0 <= i < rest.len() implies rest[i] == v by {
            assert(rest[i] == scores[i]);
        }
        lemma_total_of_equal(rest, v);
        assert(scores.last() == scores[scores.len() - 1]);
        assert(rest.len() * v + v == scores.len() * v) by (nonlinear_arith)
            requires
                rest.len() + 1 == scores.len(),
        ;
    }
}

/// The ladder as the game's table gives it: Bronze from nothing, Silver from
/// an average of 4,000, Gold 8,000, Platinum 13,000, Diamond 20,000 and Hero
/// 30,000; promotion waits for five rounds on record.
pub proof fn lemma_league_table()
    ensures
        LEAGUE_THRESHOLDS[0] == 0,
        LEAGUE_THRESHOLDS[1] == 4_000,
        LEAGUE_THRESHOLDS[2] == 8_000,
        LEAGUE_THRESHOLDS[3] == 13_000,
        LEAGUE_THRESHOLDS[4] == 20_000,
        LEAGUE_THRESHOLDS[5] == 30_000,
        TOP_LEAGUE == 5,
        MIN_GAMES_TO_MOVE == 5,
        FORM_GAMES == 10,
{
}

/// A round moves a player exactly as the ladder's rules say. With enough
/// rounds on record, an average at or past the next league's threshold
/// promotes one league, from any league below the top; an average under the
/// player's league's floor relegates one league, whatever the number of
/// rounds; and otherwise the player holds.
pub proof fn lemma_ladder_rules(league: nat, games: nat, average: nat)
    requires
        league <= TOP_LEAGUE,
    ensures
        games >= MIN_GAMES_TO_MOVE && league < TOP_LEAGUE && average >= LEAGUE_THRESHOLDS[league as int + 1]
            ==> step_league(league, games, average) == (Movement::Promoted, league + 1),
        league > 0 && average < LEAGUE_THRESHOLDS[league as int] ==> step_league(league, games, average) == (
            Movement::Relegated,
            (league - 1) as nat,
        ),
        !(games >= MIN_GAMES_TO_MOVE && league < TOP_LEAGUE && average >= LEAGUE_THRESHOLDS[league as int + 1]) && !(
        league > 0 && average < LEAGUE_THRESHOLDS[league as int]) ==> step_league(league, games, average) == (
            Movement::Held,
            league,
        ),
{
    if league > 0 && average < LEAGUE_THRESHOLDS[league as int] && league < TOP_LEAGUE {
        assert(LEAGUE_THRESHOLDS[league as int] < LEAGUE_THRESHOLDS[league as int + 1]) by {
            assert(league == 1 || league == 2 || league == 3 || league == 4);
        }
    }
}

/// Only the last ten rounds count: two records that end in the same ten rounds
/// rank the same, whatever came before.
pub proof fn lemma_only_the_last_ten_rounds_count(a: Seq<u32>, b: Seq<u32>)
    requires
        a.len() >= FORM_GAMES,
        b.len() >= FORM_GAMES,
        a.skip(a.len() - FORM_GAMES) == b.skip(b.len() - FORM_GAMES),
    ensures
        form(a) == form(b),
        mean(form(a)) == mean(form(b)),
        form(a).len() == FORM_GAMES,
{
    if a.len() == FORM_GAMES {
        assert(a.skip(0) =~= a);
    }
    if b.len() == FORM_GAMES {
        assert(b.skip(0) =~= b);
    }
}

/// A round pulls the rank a tenth of the way toward its own score: after nine
/// rounds that average `m` exactly, a round of `score` at or above it makes the
/// rank `m` plus a tenth of the excess, rounded down.
pub proof fn lemma_one_round_moves_the_rank_by_a_tenth_of_its_excess(recent: Seq<u32>, m: nat, score: u32)
    requires
        recent.len() == FORM_GAMES - 1,
        total(recent) == (FORM_GAMES - 1) * m,
        score >= m,
    ensures
        mean(form(recent.push(score))) == m + (score - m) / (FORM_GAMES as int),
{
    let run = recent.push(score);
    assert(run.drop_last() =~= recent);
    assert(total(run) == total(recent) + score);
    assert(form(run) == run);
    assert(FORM_GAMES == 10);
    assert(total(recent) == 9 * m);
    assert(total(run) == 10 * m + (score - m));
    assert((10 * m + (score - m)) / 10 == m + (score - m) / 10) by (nonlinear_arith)
        requires
            score >= m,
    ;
}

} // verus!
