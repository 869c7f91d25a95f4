//! What the server says, as plain values: a round's board, the leaderboard, the
//! verdict on a handed-in round, and how the link to the server is doing.
//!
//! The network is optional throughout. When the server cannot be reached the
//! game keeps working on boards made here; a dead connection degrades the game
//! to solo play rather than stopping it.

use vstd::prelude::*;
use vstd::string::StringExecFns;
use crate::game::string_bytes;
use crate::round::{RESULTS_MILLIS, ROUND_MILLIS};

verus! {

/// Where the server lives. Empty means solo play with no network at all.
pub const DEFAULT_SERVER: &'static str = "https://word-legend.wordlegend.workers.dev";

/// The board of a shared round.
#[derive(Clone, Debug, PartialEq)]
pub struct Board {
    /// Sixteen tiles, row by row. Usually one letter, "qu" for that die.
    pub grid: Vec<String>,
    pub theme: Option<String>,
}

/// Where the shared cycle stood when the server was last asked.
#[derive(Clone, Debug)]
pub struct RoundInfo {
    pub round: u64,
    /// "play" or "results".
    pub phase: String,
    /// Milliseconds left in the phase.
    pub millis_left: u32,
    /// The server's own clock, as it sent it.
    pub server_time: u64,
    pub board: Option<Board>,
    pub error: Option<String>,
}

/// The bytes of "play".
pub open spec fn play_bytes() -> Seq<u8> {
    seq![112u8, 108u8, 97u8, 121u8]
}

impl RoundInfo {
    /// The phase is the one in which the board is played.
    pub open spec fn playing(&self) -> bool {
        string_bytes(self.phase) == play_bytes()
    }

    pub fn is_playing(&self) -> (playing: bool)
        ensures
            playing == self.playing(),
    {
        let b = self.phase.as_str().as_bytes();
        let playing = b.len() == 4 && b[0] == 112 && b[1] == 108 && b[2] == 97 && b[3] == 121;
        proof {
            if playing {
                assert(b@ =~= play_bytes());
            }
        }
        playing
    }
}

/// The clock carried forward from a reading, `steps` phase boundaries in: while
/// the phase has run out, the playing phase gives way to the scorecard window
/// and the scorecard to the next round, for at most 64 boundaries.
pub open spec fn walk(round: int, left: int, playing: bool, window: int, steps: nat) -> (int, int, bool)
    decreases 64 - steps,
{
    if left > 0 || steps >= 64 {
        (round, left, playing)
    } else if playing {
        walk(round, left + window, false, window, steps + 1)
    } else {
        walk(round + 1, left + ROUND_MILLIS, true, window, steps + 1)
    }
}

/// Which round should be running, how many milliseconds it has left and
/// whether it is being played: the reading `info`, taken at `fetched_at`, carried
/// forward to `now` through a cycle of `cycle` milliseconds.
pub open spec fn projected(info: RoundInfo, fetched_at: u64, now: u64, cycle: u32) -> (u64, u32, bool) {
    let elapsed = if now > fetched_at { now - fetched_at } else { 0 };
    let w = walk(info.round as int, info.millis_left - elapsed, info.playing(), cycle - ROUND_MILLIS, 0);
    (w.0 as u64, if w.1 > 0 { w.1 as u32 } else { 0 }, w.2)
}

/// The clock never runs past a phase's length: from any point within a phase,
/// walking across its boundaries lands within a phase again.
proof fn lemma_walk_within(round: int, left: int, playing: bool, window: int, steps: nat, cycle: int)
    requires
        cycle >= ROUND_MILLIS,
        window == cycle - ROUND_MILLIS,
        left <= cycle,
    ensures
        walk(round, left, playing, window, steps).1 <= cycle,
    decreases 64 - steps,
{
    if left > 0 || steps >= 64 {
    } else if playing {
        lemma_walk_within(round, left + window, false, window, steps + 1, cycle);
    } else {
        lemma_walk_within(round + 1, left + ROUND_MILLIS, true, window, steps + 1, cycle);
    }
}

/// However long the gap since the reading, the projected clock has at most a
/// whole cycle left, as long as the reading itself did.
pub proof fn lemma_projected_within_cycle(info: RoundInfo, fetched_at: u64, now: u64, cycle: u32)
    requires
        cycle >= ROUND_MILLIS,
        info.millis_left <= cycle,
    ensures
        projected(info, fetched_at, now, cycle).1 <= cycle,
{
    let elapsed = if now > fetched_at { now - fetched_at } else { 0 };
    lemma_walk_within(info.round as int, info.millis_left - elapsed, info.playing(), cycle - ROUND_MILLIS, 0, cycle as int);
}

/// How many phase boundaries lie between a point `t` milliseconds after the
/// start of a round's play and the end of the phase a reading was taken in:
/// two a cycle, one more once the point is past the play phase, and one fewer
/// when the reading was taken in the scorecard window.
pub open spec fn boundaries_crossed(t: int, playing: bool, cycle: int) -> int {
    2 * (t / cycle) + (if t % cycle >= ROUND_MILLIS { 1int } else { 0int }) - (if playing {
        0int
    } else {
        1int
    })
}

/// `t` is `cycle` on from `u`: one more cycle, the same point within it.
proof fn lemma_one_cycle_on(t: int, u: int, cycle: int)
    requires
        cycle > 0,
        u >= 0,
        t == u + cycle,
    ensures
        t / cycle == u / cycle + 1,
        t % cycle == u % cycle,
{
    vstd::arithmetic::div_mod::lemma_fundamental_div_mod(u, cycle);
    vstd::arithmetic::div_mod::lemma_mod_pos_bound(u, cycle);
    let q = u / cycle;
    let r = u % cycle;
    assert(t == (q + 1) * cycle + r) by (nonlinear_arith)
        requires
            u == cycle * q + r,
            t == u + cycle,
    ;
    vstd::arithmetic::div_mod::lemma_fundamental_div_mod_converse(t, cycle, q + 1, r);
}

/// Within the first cycle: no whole cycle has passed.
proof fn lemma_first_cycle(t: int, cycle: int)
    requires
        0 <= t < cycle,
    ensures
        t / cycle == 0,
        t % cycle == t,
{
    vstd::arithmetic::div_mod::lemma_fundamental_div_mod_converse(t, cycle, 0, t);
}

/// At least a whole cycle on: at least one cycle has passed.
proof fn lemma_past_a_cycle(t: int, cycle: int)
    requires
        cycle > 0,
        t >= cycle,
    ensures
        t / cycle >= 1,
{
    lemma_one_cycle_on(t, t - cycle, cycle);
    vstd::arithmetic::div_mod::lemma_fundamental_div_mod(t - cycle, cycle);
    vstd::arithmetic::div_mod::lemma_mod_pos_bound(t - cycle, cycle);
    assert((t - cycle) / cycle >= 0) by (nonlinear_arith)
        requires
            t - cycle >= 0,
            cycle > 0,
            t - cycle == cycle * ((t - cycle) / cycle) + (t - cycle) % cycle,
            (t - cycle) % cycle < cycle,
    ;
}

proof fn lemma_walk_lands(round: int, left: int, playing: bool, window: int, steps: nat, cycle: int)
    requires
        cycle >= ROUND_MILLIS,
        window == cycle - ROUND_MILLIS,
        playing ==> left <= ROUND_MILLIS,
        !playing ==> left <= window,
        steps <= 64,
        steps + boundaries_crossed(
            if playing {
                ROUND_MILLIS - left
            } else {
                cycle - left
            },
            playing,
            cycle,
        ) <= 64,
    ensures
        ({
            let t = if playing {
                ROUND_MILLIS - left
            } else {
                cycle - left
            };
            let o = t % cycle;
            walk(round, left, playing, window, steps) == (
                round + t / cycle,
                if o < ROUND_MILLIS {
                    ROUND_MILLIS - o
                } else {
                    cycle - o
                },
                o < ROUND_MILLIS,
            )
        }),
    decreases 64 - steps,
{
    let t = if playing {
        ROUND_MILLIS - left
    } else {
        cycle - left
    };
    if left > 0 {
        lemma_first_cycle(t, cycle);
    } else if playing {
        if t < cycle {
            lemma_first_cycle(t, cycle);
        } else {
            lemma_past_a_cycle(t, cycle);
        }
        lemma_walk_lands(round, left + window, false, window, steps + 1, cycle);
    } else {
        let u = -left;
        lemma_one_cycle_on(t, u, cycle);
        lemma_past_a_cycle(t, cycle);
        lemma_walk_lands(round + 1, left + ROUND_MILLIS, true, window, steps + 1, cycle);
    }
}

/// The clock carried forward follows the shared cycle. A reading taken with
/// time left in its phase, `t` milliseconds after its round's play began once
/// the gap since it is counted in, projects to the round one further on for
/// each whole cycle in `t`, at the same point of the cycle: in play, with the
/// rest of the play phase left, for the first `ROUND_MILLIS` of a cycle, and in
/// the scorecard window with the rest of the cycle left after that. There is
/// always time left. This holds whenever the gap crosses at most 64 phase
/// boundaries, which is where the projection stops.
pub proof fn lemma_projected_follows_the_cycle(info: RoundInfo, fetched_at: u64, now: u64, cycle: u32)
    requires
        cycle >= ROUND_MILLIS,
        info.round <= u64::MAX - 64,
        info.millis_left > 0,
        info.playing() ==> info.millis_left <= ROUND_MILLIS,
        !info.playing() ==> info.millis_left <= cycle - ROUND_MILLIS,
        ({
            let gap = if now > fetched_at { now - fetched_at } else { 0 };
            let t = if info.playing() {
                ROUND_MILLIS - info.millis_left + gap
            } else {
                cycle - info.millis_left + gap
            };
            boundaries_crossed(t, info.playing(), cycle as int) <= 64
        }),
    ensures
        ({
            let gap = if now > fetched_at { now - fetched_at } else { 0 };
            let t = if info.playing() {
                ROUND_MILLIS - info.millis_left + gap
            } else {
                cycle - info.millis_left + gap
            };
            let o = t % (cycle as int);
            projected(info, fetched_at, now, cycle) == (
                (info.round + t / (cycle as int)) as u64,
                (if o < ROUND_MILLIS {
                    ROUND_MILLIS - o
                } else {
                    cycle - o
                }) as u32,
                o < ROUND_MILLIS,
            )
        }),
        projected(info, fetched_at, now, cycle).1 > 0,
        projected(info, fetched_at, now, cycle).0 >= info.round,
{
    let gap: int = if now > fetched_at { now - fetched_at } else { 0 };
    let left = info.millis_left - gap;
    let t = if info.playing() {
        ROUND_MILLIS - left
    } else {
        cycle - left
    };
    lemma_walk_lands(info.round as int, left, info.playing(), cycle - ROUND_MILLIS, 0, cycle as int);
    vstd::arithmetic::div_mod::lemma_mod_pos_bound(t, cycle as int);
    vstd::arithmetic::div_mod::lemma_fundamental_div_mod(t, cycle as int);
    assert(t / (cycle as int) >= 0) by (nonlinear_arith)
        requires
            t >= 0,
            cycle > 0,
            t == (cycle as int) * (t / (cycle as int)) + t % (cycle as int),
            t % (cycle as int) < cycle,
    ;
    assert(t / (cycle as int) <= 32) by (nonlinear_arith)
        requires
            2 * (t / (cycle as int)) - 1 <= 64,
    ;
}

/// Carry the clock forward from the last reading. Readings are occasional, so
/// between them the clock runs on here rather than standing at whatever the
/// server last said; a long gap stops after 64 phase boundaries.
pub fn project(info: &RoundInfo, fetched_at: u64, now: u64, cycle: u32) -> (at: (u64, u32, bool))
    requires
        cycle >= ROUND_MILLIS,
        info.round <= u64::MAX - 64,
    ensures
        at == projected(*info, fetched_at, now, cycle),
{
    let elapsed: u64 = if now > fetched_at { now - fetched_at } else { 0 };
    let window: u32 = cycle - ROUND_MILLIS;
    let mut left: i128 = info.millis_left as i128 - elapsed as i128;
    let mut round: u64 = info.round;
    let mut playing: bool = info.is_playing();
    let mut guard: u32 = 0;
    while left <= 0 && guard < 64
        invariant
            guard <= 64,
            left <= u32::MAX,
            left >= info.millis_left - elapsed,
            info.round <= round <= info.round + guard,
            walk(round as int, left as int, playing, window as int, guard as nat) == walk(
                info.round as int,
                info.millis_left - elapsed,
                info.playing(),
                window as int,
                0,
            ),
            info.round <= u64::MAX - 64,
        decreases 64 - guard,
    {
        if playing {
            left = left + window as i128;
            playing = false;
        } else {
            left = left + ROUND_MILLIS as i128;
            playing = true;
            round = round + 1;
        }
        guard = guard + 1;
    }
    let kept: u32 = if left > 0 { left as u32 } else { 0 };
    (round, kept, playing)
}

/// One row of a leaderboard.
#[derive(Clone, Debug, PartialEq)]
pub struct Entry {
    pub name: String,
    pub score: u32,
    pub words: u32,
    /// False while the player's final score is still to arrive: the row is
    /// progress from the round. A server from before progress sends no flag,
    /// and everything it had was final.
    pub finished: bool,
    /// The player's league, as their game reported it.
    pub league: Option<usize>,
}

#[derive(Clone, Debug)]
pub struct Leaderboard {
    pub round: u64,
    pub entries: Vec<Entry>,
}

/// The server's verdict on a handed-in round.
#[derive(Clone, Debug)]
pub struct Submitted {
    pub score: u32,
    pub accepted: u32,
    pub rejected: Vec<String>,
    pub average: u32,
}

/// How the game is currently getting its boards.
#[derive(Clone, Debug, PartialEq)]
pub enum Link {
    /// No server configured: purely local play.
    Solo,
    /// Trying to reach the server.
    Connecting,
    /// Live, and in step with everyone else.
    Online,
    /// Configured but unreachable; playing locally until it returns.
    Down(String),
}

impl Link {
    /// What the status line says about the link.
    pub fn label(&self) -> (text: String)
        ensures
            text@ == match self {
                Link::Solo => "Solo"@,
                Link::Connecting => "Connecting…"@,
                Link::Online => "Live"@,
                Link::Down(_) => "Offline — playing solo"@,
            },
    {
        match self {
            Link::Solo => String::from_str("Solo"),
            Link::Connecting => String::from_str("Connecting…"),
            Link::Online => String::from_str("Live"),
            Link::Down(_) => String::from_str("Offline — playing solo"),
        }
    }
}

/// How a name claim went. "Taken" and "could not ask" need different handling:
/// the first means pick another name, the second means play on and ask later.
#[derive(Clone, Debug, PartialEq)]
pub enum Claim {
    /// The server has this name down as ours.
    Accepted(String),
    /// The server answered and said no, with its reason.
    Refused(String),
    /// The server could not be asked.
    Unreachable(String),
}

} // verus!
