//! What the screen says about the clock and the link: the countdowns, the
//! status badge, and the prompt on the start card.

use vstd::prelude::*;
use vstd::string::StringExecFns;
use crate::live::{Live, MIN_JOIN_MILLIS};
use crate::net::Link;
use crate::round::{Game, RESULTS_MILLIS};
use crate::text::{decimal, decimal_chars};

verus! {

/// The colour a piece of status text takes.
#[derive(Clone, Copy, Debug, PartialEq, Eq, Structural)]
pub enum Tone {
    /// All is well, or the player is in.
    Good,
    /// Worth noticing: playing solo against the player's wishes, or a wait.
    Warning,
    /// Nothing to act on.
    Quiet,
}

/// Whole seconds on the clock; a part second is dropped.
pub open spec fn clock_seconds(millis: nat) -> nat {
    millis / 1000
}

/// `m:ss`.
pub open spec fn clock_chars(millis: nat) -> Seq<char> {
    let s = clock_seconds(millis);
    decimal_chars(s / 60) + ":"@ + if s % 60 < 10 {
        "0"@ + decimal_chars(s % 60)
    } else {
        decimal_chars(s % 60)
    }
}

/// The clock as the screen shows it: `133400` milliseconds is `2:13`.
pub fn clock_text(millis: u64) -> (text: String)
    ensures
        text@ == clock_chars(millis as nat),
{
    let s: u64 = millis / 1000;
    let minutes = decimal(s / 60);
    let seconds = decimal(s % 60);
    let text = if s % 60 < 10 {
        minutes.concat(":").concat("0").concat(seconds.as_str())
    } else {
        minutes.concat(":").concat(seconds.as_str())
    };
    proof {
        reveal_strlit(":");
        reveal_strlit("0");
        if s % 60 < 10 {
            assert(text@ =~= clock_chars(millis as nat));
        } else {
            assert(text@ =~= clock_chars(millis as nat));
        }
    }
    text
}

/// Milliseconds until the next shared round starts, when there is a server to
/// follow and its clock is known: the rest of the round in play and its
/// scorecard, or the rest of the scorecard.
pub open spec fn shared_wait(live: Live, now: u64) -> Option<u64> {
    if live.away(now) || live.boardless {
        None
    } else {
        match live.clock {
            Some(c) => Some(
                if c.playing {
                    (c.left + RESULTS_MILLIS) as u64
                } else {
                    c.left as u64
                },
            ),
            None => None,
        }
    }
}

pub fn next_shared_round_in(live: &Live, now: u64) -> (wait: Option<u64>)
    ensures
        wait == shared_wait(*live, now),
{
    if !live.is_live(now) {
        return None;
    }
    match live.clock {
        Some(c) => Some(
            if c.playing {
                c.left as u64 + RESULTS_MILLIS as u64
            } else {
                c.left as u64
            },
        ),
        None => None,
    }
}

/// Milliseconds until the next round starts, as the scorecard counts down: the
/// shared scorecard's own time; for a solo one, its time or the wait for the
/// next shared round, whichever is longer.
pub fn next_round_in(game: &Game, live: &Live, now: u64) -> (wait: u64)
    ensures
        wait == if game.round is Some {
            game.results_left as u64
        } else {
            match shared_wait(*live, now) {
                Some(w) => if w > game.results_left {
                    w
                } else {
                    game.results_left as u64
                },
                None => game.results_left as u64,
            }
        },
{
    if game.round.is_some() {
        return game.results_left as u64;
    }
    match next_shared_round_in(live, now) {
        Some(w) => if w > game.results_left as u64 {
            w
        } else {
            game.results_left as u64
        },
        None => game.results_left as u64,
    }
}

/// The status badge: live, connecting, or which kind of solo play.
pub fn link_status(live: &Live, now: u64) -> (status: (String, Tone))
    ensures
        status.0@ == match live.link {
            Link::Online => if !live.away(now) && !live.boardless {
                "LIVE"@
            } else {
                "SOLO · NO ROUNDS"@
            },
            Link::Connecting => if !live.away(now) && !live.boardless {
                "CONNECTING…"@
            } else {
                "OFFLINE · SOLO"@
            },
            Link::Solo => "SOLO"@,
            Link::Down(_) => "OFFLINE · SOLO"@,
        },
        status.1 == match live.link {
            Link::Online => if !live.away(now) && !live.boardless {
                Tone::Good
            } else {
                Tone::Warning
            },
            Link::Connecting => if !live.away(now) && !live.boardless {
                Tone::Quiet
            } else {
                Tone::Warning
            },
            Link::Solo => Tone::Quiet,
            Link::Down(_) => Tone::Warning,
        },
{
    let live_now = live.is_live(now);
    match live.link() {
        Link::Online => if live_now {
            (String::from_str("LIVE"), Tone::Good)
        } else {
            (String::from_str("SOLO · NO ROUNDS"), Tone::Warning)
        },
        Link::Connecting => if live_now {
            (String::from_str("CONNECTING…"), Tone::Quiet)
        } else {
            (String::from_str("OFFLINE · SOLO"), Tone::Warning)
        },
        Link::Solo => (String::from_str("SOLO"), Tone::Quiet),
        Link::Down(_) => (String::from_str("OFFLINE · SOLO"), Tone::Warning),
    }
}

/// The start card's button, the line under it, and its tone: join the round in
/// play while it is worth joining; otherwise wait for the next, queued once the
/// player has asked to play; or start a solo round, saying why.
pub open spec fn prompt(live: Live, now: u64) -> (Seq<char>, Seq<char>, Tone) {
    let following = !live.away(now) && !live.boardless;
    if following && live.clock is Some {
        let c = live.clock.unwrap();
        if c.playing && c.left >= MIN_JOIN_MILLIS && !live.joined {
            (
                "JOIN ROUND"@,
                "Everyone is on this board · "@ + clock_chars(c.left as nat) + " left · or press Enter"@,
                Tone::Good,
            )
        } else {
            let next = shared_wait(live, now).unwrap();
            if live.joined {
                (
                    "QUEUED"@,
                    "You're queued for the next round · starts in "@ + clock_chars(next as nat),
                    Tone::Good,
                )
            } else {
                ("JOIN NEXT ROUND"@, "Next round starts in "@ + clock_chars(next as nat), Tone::Warning)
            }
        }
    } else {
        match live.link {
            Link::Connecting => if following {
                ("START ROUND"@, "Connecting to the live round…"@, Tone::Quiet)
            } else {
                ("START ROUND"@, "Can't reach the server · playing solo boards"@, Tone::Warning)
            },
            Link::Solo => ("START ROUND"@, "or press Enter"@, Tone::Quiet),
            _ => ("START ROUND"@, "Can't reach the server · playing solo boards"@, Tone::Warning),
        }
    }
}

pub fn join_prompt(live: &Live, now: u64) -> (shown: (String, String, Tone))
    ensures
        (shown.0@, shown.1@, shown.2) == prompt(*live, now),
{
    let following = live.is_live(now);
    if following && live.clock.is_some() {
        let c = live.clock.unwrap();
        if c.playing && c.left >= MIN_JOIN_MILLIS && !live.joined {
            let line = String::from_str("Everyone is on this board · ").concat(clock_text(c.left as u64).as_str()).concat(
                " left · or press Enter",
            );
            return (String::from_str("JOIN ROUND"), line, Tone::Good);
        }
        let next = match next_shared_round_in(live, now) {
            Some(w) => w,
            None => 0,
        };
        if live.joined {
            let line = String::from_str("You're queued for the next round · starts in ").concat(
                clock_text(next).as_str(),
            );
            return (String::from_str("QUEUED"), line, Tone::Good);
        }
        let line = String::from_str("Next round starts in ").concat(clock_text(next).as_str());
        return (String::from_str("JOIN NEXT ROUND"), line, Tone::Warning);
    }
    match live.link() {
        Link::Connecting => if following {
            (String::from_str("START ROUND"), String::from_str("Connecting to the live round…"), Tone::Quiet)
        } else {
            (
                String::from_str("START ROUND"),
                String::from_str("Can't reach the server · playing solo boards"),
                Tone::Warning,
            )
        },
        Link::Solo => (String::from_str("START ROUND"), String::from_str("or press Enter"), Tone::Quiet),
        _ => (
            String::from_str("START ROUND"),
            String::from_str("Can't reach the server · playing solo boards"),
            Tone::Warning,
        ),
    }
}


// --- the PLAY swipe ---------------------------------------------------------------

/// A swipe across the home screen's P-L-A-Y tiles, traced like a word on the
/// board: starting a game the way a word is played teaches the gesture before
/// the first round.
pub struct PlaySwipe {
    /// The tiles traced so far, by their place in P-L-A-Y.
    pub trail: Vec<usize>,
    /// The player tapped, or swiped something other than PLAY: say how it works.
    pub show_hint: bool,
}

/// `a` and `b` sit side by side in the band.
pub open spec fn beside(a: usize, b: usize) -> bool {
    a + 1 == b || b + 1 == a
}

/// A trail as a swipe can leave it: tiles of the band, none twice, each beside
/// the one before.
pub open spec fn swipe_trail(trail: Seq<usize>) -> bool {
    &&& forall|i: int| 0 <= i < trail.len() ==> #[trigger] trail[i] < 4
    &&& trail.no_duplicates()
    &&& forall|i: int| 0 < i < trail.len() ==> beside(#[trigger] trail[i - 1], trail[i])
}

/// Where `t` first stands in the trail, if it is on it.
pub open spec fn trail_index(trail: Seq<usize>, t: usize) -> Option<int> {
    if trail.contains(t) {
        Some(trail.index_of(t))
    } else {
        None
    }
}

/// The trail once the swipe reaches `t`: back over a tile rewinds to it; the
/// tile beside the last one, or any first tile, extends it; any other is passed
/// over.
pub open spec fn touched(trail: Seq<usize>, t: usize) -> Seq<usize> {
    match trail_index(trail, t) {
        Some(i) => trail.take(i + 1),
        None => if trail.len() == 0 || beside(trail.last(), t) {
            trail.push(t)
        } else {
            trail
        },
    }
}

/// P-L-A-Y, in order.
pub open spec fn spells_play(trail: Seq<usize>) -> bool {
    trail == seq![0usize, 1usize, 2usize, 3usize]
}

impl PlaySwipe {
    pub fn new() -> (swipe: PlaySwipe)
        ensures
            swipe.trail@.len() == 0,
            !swipe.show_hint,
    {
        PlaySwipe { trail: Vec::new(), show_hint: false }
    }

    /// A new swipe begins.
    pub fn start(&mut self)
        ensures
            final(self).trail@.len() == 0,
            final(self).show_hint == old(self).show_hint,
    {
        self.trail.clear();
    }

    /// The swipe reaches tile `t` of the band.
    pub fn touch(&mut self, t: usize)
        requires
            t < 4,
            swipe_trail(old(self).trail@),
        ensures
            final(self).trail@ == touched(old(self).trail@, t),
            swipe_trail(final(self).trail@),
            final(self).show_hint == old(self).show_hint,
    {
        let ghost before = self.trail@;
        let mut i: usize = 0;
        while i < self.trail.len()
            invariant
                self.trail@ == before,
                before == old(self).trail@,
                self.show_hint == old(self).show_hint,
                swipe_trail(before),
                t < 4,
                0 <= i <= before.len(),
                forall|j: int| 0 <= j < i ==> before[j] != t,
            decreases before.len() - i,
        {
            if self.trail[i] == t {
                proof {
                    assert(before.contains(t));
                    let k = before.index_of(t);
                    assert(0 <= k < before.len() && before[k] == t);
                    assert(k == i as int);
                }
                self.trail.truncate(i + 1);
                proof {
                    assert(self.trail@ =~= before.take(i + 1));
                }
                return;
            }
            i += 1;
        }
        proof {
            assert(!before.contains(t));
        }
        let n = self.trail.len();
        if n == 0 || self.trail[n - 1] + 1 == t || t + 1 == self.trail[n - 1] {
            self.trail.push(t);
            proof {
                let after = self.trail@;
                assert(after =~= before.push(t));
                assert forall|a: int, b: int| 0 <= a < b < after.len() implies after[a] != after[b] by {
                    if b == after.len() - 1 {
                        assert(before.contains(after[a]));
                    }
                }
            }
        }
    }

    /// The swipe ends: it plays when it spelled P-L-A-Y; anything else shows
    /// how it works.
    pub fn release(&mut self) -> (played: bool)
        ensures
            played == spells_play(old(self).trail@),
            final(self).trail@.len() == 0,
            final(self).show_hint == (old(self).show_hint || !played),
    {
        let played = self.trail.len() == 4 && self.trail[0] == 0 && self.trail[1] == 1 && self.trail[2] == 2
            && self.trail[3] == 3;
        proof {
            if played {
                assert(old(self).trail@ =~= seq![0usize, 1usize, 2usize, 3usize]);
            }
        }
        if !played {
            self.show_hint = true;
        }
        self.trail.clear();
        played
    }

    /// A tap, which plays nothing: say how the swipe works.
    pub fn tap(&mut self)
        ensures
            final(self).trail@ == old(self).trail@,
            final(self).show_hint,
    {
        self.show_hint = true;
    }

    /// The trail spells P-L-A-Y.
    pub fn complete(&self) -> (done: bool)
        ensures
            done == spells_play(self.trail@),
    {
        let done = self.trail.len() == 4 && self.trail[0] == 0 && self.trail[1] == 1 && self.trail[2] == 2
            && self.trail[3] == 3;
        proof {
            if done {
                assert(self.trail@ =~= seq![0usize, 1usize, 2usize, 3usize]);
            }
        }
        done
    }
}

/// Only P-L-A-Y in order plays: a swipe that plays has touched every tile of
/// the band once, left to right.
pub proof fn lemma_only_play_plays(trail: Seq<usize>)
    requires
        spells_play(trail),
    ensures
        trail.len() == 4,
        forall|i: int| 0 <= i < 4 ==> #[trigger] trail[i] == i,
{
}

} // verus!
