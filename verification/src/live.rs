//! Following the shared round.
//!
//! Everyone online plays the same board on the same clock. This keeps the local
//! game in step with the server: it reads the clock, starts the board when its
//! round comes up, ends it when the server's clock does, hands the words in and
//! asks for the table.
//!
//! When the server cannot be reached it steps aside and the game runs solo
//! boards on its own clock, then picks the shared cycle back up once the server
//! answers again. The round in progress is never interrupted in either
//! direction.
//!
//! Nothing here talks to the network. Each frame the caller hands over what the
//! network has said since, as a [`Heard`], and gets back the [`Request`]s to
//! send; all times are milliseconds on the caller's clock.

use vstd::prelude::*;
use crate::identity::Identity;
use crate::net::{projected, Board, Claim, Leaderboard, Link, RoundInfo};
use crate::round::{readable, shows_tiles, started, Game, Phase, RESULTS_MILLIS, ROUND_MILLIS};

verus! {

/// One whole round: the board, then the scorecard.
pub const CYCLE_MILLIS: u32 = ROUND_MILLIS + RESULTS_MILLIS;

/// How often to re-read the clock while all is well. The clock is projected
/// forward between reads, so this only has to catch drift and a sleeping tab.
pub const POLL_ONLINE_MILLIS: u64 = 30_000;

/// Retry cadence while the server is not answering.
pub const POLL_DOWN_MILLIS: u64 = 15_000;

/// Minimum gap between reads made because a new board is needed right now.
pub const POLL_URGENT_MILLIS: u64 = 2_000;

/// How long to wait for a first answer before giving up and playing solo.
pub const CONNECT_GRACE_MILLIS: u64 = 6_000;

/// Scorecard refresh, so late submissions show up while it is still open.
pub const LEADERBOARD_EVERY_MILLIS: u64 = 5_000;

/// First table read after handing in, giving the server a moment to file it.
pub const LEADERBOARD_FIRST_MILLIS: u64 = 1_500;

/// Joining a round with less than this left is not worth it; wait for the next.
pub const MIN_JOIN_SECONDS: u32 = 15;

pub const MIN_JOIN_MILLIS: u32 = MIN_JOIN_SECONDS * 1000;

/// Where the shared cycle stands, carried forward from the last reading.
#[derive(Clone, Copy, Debug, PartialEq, Eq, Structural)]
pub struct Clock {
    pub round: u64,
    /// Milliseconds left in the current phase.
    pub left: u32,
    pub playing: bool,
}

/// Whether the server has our display name down as ours.
#[derive(Clone, Debug, PartialEq)]
pub enum NameStatus {
    Unclaimed,
    Pending,
    Claimed,
    /// The server said no -- almost always because someone else has the name.
    Refused(String),
    /// The server could not be asked. Playing on; it is asked again later.
    Unreachable,
}

/// What the network has said, as the caller last saw it.
#[derive(Clone)]
pub struct Heard {
    /// The latest reading of the shared clock.
    pub round: Option<RoundInfo>,
    /// When that reading arrived, on the caller's clock.
    pub fetched_at: u64,
    pub leaderboard: Option<Leaderboard>,
    /// The answer to the latest name claim, once it has come.
    pub claim: Option<Claim>,
    pub link: Option<Link>,
}

/// What the game asks of the server.
#[derive(Clone, Debug)]
pub enum Request {
    /// Read the shared clock and the current board.
    PollRound,
    /// Ask for a display name.
    ClaimName { id: String, name: String },
    /// Hand in a round's words, the tiles traced for each, and the league.
    Submit { id: String, round: u64, words: Vec<String>, paths: Vec<Vec<u8>>, league: usize },
    /// Read a round's table.
    PollLeaderboard(u64),
    /// Report the round so far, while it is played, so the player is on the
    /// table from the moment they join. Nothing is banked by it.
    Progress { id: String, round: u64, words: Vec<String>, paths: Vec<Vec<u8>>, league: usize },
}

/// The game's side of the shared round: what it last heard, whether the player
/// has joined, the name claim, and what has been handed in.
pub struct Live {
    /// There is a server to follow at all.
    pub configured: bool,
    pub link: Link,
    pub clock: Option<Clock>,
    /// The board from the latest reading, and the round it belongs to.
    pub board: Option<(u64, Board)>,
    /// The latest reading came back without a board: the server is up but has
    /// no rounds to serve, which for playing purposes is the same as being down.
    pub boardless: bool,
    pub leaderboard: Option<Leaderboard>,
    /// When the clock was first asked for, to give the server a grace period.
    pub first_poll: Option<u64>,
    /// When the clock was last asked for.
    pub last_poll: Option<u64>,
    /// The player has asked to play. From then on rounds follow one another.
    pub joined: bool,
    pub name: NameStatus,
    /// Who the current claim is for, so a new name starts a new claim.
    pub claim_for: Option<Identity>,
    /// When the name was last asked for.
    pub last_claim: Option<u64>,
    /// The last round whose words were handed in.
    pub submitted: Option<u64>,
    /// When the table is next read, once the words are in.
    pub next_leaderboard: u64,
    /// How many words of the shared round in play the server has been told of.
    pub reported: usize,
}

/// The same account: the same id and the same name.
pub open spec fn same_identity(a: Identity, b: Identity) -> bool {
    a.id@ == b.id@ && a.name@ == b.name@
}

/// `t` plus `d`, held at the largest `u64`.
pub open spec fn later(t: u64, d: u64) -> u64 {
    if t + d > u64::MAX {
        u64::MAX
    } else {
        (t + d) as u64
    }
}

/// At least `gap` has passed since `last`, or nothing was done yet.
pub open spec fn due(last: Option<u64>, now: u64, gap: u64) -> bool {
    match last {
        None => true,
        Some(t) => now >= t && now - t >= gap,
    }
}

/// How a round can be put in front of the player.
pub enum Start {
    /// A board made here, on its own clock.
    Solo,
    /// The shared round on the server's board.
    Shared,
    /// Nothing yet: the shared round is between boards, already played, too far
    /// gone, or its board has not arrived.
    Wait,
}

impl Live {
    /// No server to follow: none configured, it is not answering, or it has not
    /// answered at all within the grace period.
    pub open spec fn away(&self, now: u64) -> bool {
        match self.link {
            Link::Solo | Link::Down(_) => true,
            Link::Online => false,
            Link::Connecting => self.first_poll matches Some(t) && now - t > CONNECT_GRACE_MILLIS,
        }
    }

    /// The board held is the one for `round`.
    pub open spec fn has_board(&self, round: u64) -> bool {
        self.board matches Some(b) && b.0 == round
    }

    /// How the next round would start for a game last on `game_round`.
    pub open spec fn start_for(&self, game_round: Option<u64>, now: u64) -> Start {
        if self.away(now) || self.boardless {
            Start::Solo
        } else {
            match self.clock {
                Some(c) => if c.playing && game_round != Some(c.round) && c.left >= MIN_JOIN_MILLIS
                    && self.has_board(c.round) {
                    Start::Shared
                } else {
                    Start::Wait
                },
                None => Start::Wait,
            }
        }
    }

    /// What `game` becomes when the next round is put in front of it: a solo
    /// round, the shared board (or a solo round when that board cannot be read),
    /// or nothing at all.
    pub open spec fn next_round(&self, before: Game, after: Game, now: u64) -> bool {
        match self.start_for(before.round, now) {
            Start::Solo => solo_started(before, after),
            Start::Shared => {
                let c = self.clock.unwrap();
                let b = self.board.unwrap().1;
                if readable(b.grid@) {
                    &&& started(before, after, b.theme, Some(c.round), if c.left < ROUND_MILLIS {
                        c.left
                    } else {
                        ROUND_MILLIS
                    })
                    &&& shows_tiles(after.grid, b.grid@)
                    &&& crate::solver::solves(after.grid, after.dictionary, after.words)
                } else {
                    solo_started(before, after)
                }
            },
            Start::Wait => after == before,
        }
    }

    /// The game as following the clock leaves it. A solo round in play keeps
    /// its own time; a shared one runs on the server's clock and ends when that
    /// clock says so; a shared scorecard runs on the server's clock too, and once
    /// it is done the next round comes up.
    pub open spec fn driven(&self, before: Game, after: Game, now: u64) -> bool {
        match before.phase {
            Phase::Ready => if self.joined {
                self.next_round(before, after, now)
            } else {
                after == before
            },
            Phase::Playing => match (before.round, self.clock) {
                (Some(r), Some(c)) => if c.round == r && c.playing {
                    after == (Game { time_left: c.left, ..before })
                } else if c.round == r {
                    crate::round::ended(before, Game { results_left: RESULTS_MILLIS, ..after })
                        && after.results_left == c.left
                } else {
                    crate::round::ended(before, after)
                },
                _ => after == before,
            },
            Phase::Over => match (before.round, self.clock) {
                (Some(r), Some(c)) => if c.round == r && !c.playing {
                    after == (Game { results_left: c.left, ..before })
                } else {
                    self.next_round(Game { results_left: 0, ..before }, after, now)
                },
                (Some(r), None) => self.next_round(Game { results_left: 0, ..before }, after, now),
                (None, _) => if before.results_left == 0 {
                    self.next_round(before, after, now)
                } else {
                    after == before
                },
            },
        }
    }
}

/// `after` is `before` with a solo round under way on a board made here.
pub open spec fn solo_started(before: Game, after: Game) -> bool {
    &&& started(
        (Game { solo: after.solo, rng: after.rng, ..before }),
        after,
        None,
        None,
        ROUND_MILLIS,
    )
    &&& crate::solver::solves(after.grid, after.dictionary, after.words)
    &&& after.solo.played() == before.solo.played() + 1
    &&& after.solo.words() == before.solo.words()
}

/// A copy of an account.
fn copy_identity(me: &Identity) -> (out: Identity)
    ensures
        out == *me,
{
    Identity { id: me.id.clone(), name: me.name.clone() }
}

/// `t` plus `d`, held at the largest `u64`.
fn later_by(t: u64, d: u64) -> (out: u64)
    ensures
        out == later(t, d),
{
    if t > u64::MAX - d {
        u64::MAX
    } else {
        t + d
    }
}

/// At least `gap` has passed since `last`, or nothing was done yet.
fn is_due(last: Option<u64>, now: u64, gap: u64) -> (yes: bool)
    ensures
        yes == due(last, now, gap),
{
    match last {
        None => true,
        Some(t) => now >= t && now - t >= gap,
    }
}

impl Live {
    /// Ready to follow a server when `configured`, and to play solo otherwise.
    pub fn new(configured: bool) -> (live: Live)
        ensures
            live.configured == configured,
            live.link == (if configured {
                Link::Connecting
            } else {
                Link::Solo
            }),
            live.clock is None,
            live.board is None,
            !live.boardless,
            live.leaderboard is None,
            live.first_poll is None,
            live.last_poll is None,
            !live.joined,
            live.name == NameStatus::Unclaimed,
            live.claim_for is None,
            live.last_claim is None,
            live.submitted is None,
            live.next_leaderboard == 0,
            live.reported == 0,
    {
        Live {
            configured,
            link: if configured {
                Link::Connecting
            } else {
                Link::Solo
            },
            clock: None,
            board: None,
            boardless: false,
            leaderboard: None,
            first_poll: None,
            last_poll: None,
            joined: false,
            name: NameStatus::Unclaimed,
            claim_for: None,
            last_claim: None,
            submitted: None,
            next_leaderboard: 0,
            reported: 0,
        }
    }

    // --- what the screen reads ----------------------------------------------

    pub fn link(&self) -> (link: &Link)
        ensures
            *link == self.link,
    {
        &self.link
    }

    pub fn clock(&self) -> (clock: Option<Clock>)
        ensures
            clock == self.clock,
    {
        self.clock
    }

    pub fn joined(&self) -> (joined: bool)
        ensures
            joined == self.joined,
    {
        self.joined
    }

    /// No server to follow at `now`: see [`Live::away`].
    pub fn server_away(&self, now: u64) -> (away: bool)
        ensures
            away == self.away(now),
    {
        match &self.link {
            Link::Solo => true,
            Link::Down(_) => true,
            Link::Online => false,
            Link::Connecting => match self.first_poll {
                Some(t) => now > t && now - t > CONNECT_GRACE_MILLIS,
                None => false,
            },
        }
    }

    /// Following the server, as opposed to playing solo boards.
    pub fn is_live(&self, now: u64) -> (live: bool)
        ensures
            live == (!self.away(now) && !self.boardless),
    {
        !self.server_away(now) && !self.boardless
    }

    /// The table held, when it is the one for `round`.
    pub fn leaderboard_for(&self, round: u64) -> (table: Option<&Leaderboard>)
        ensures
            table == (if self.leaderboard matches Some(t) && t.round == round {
                Some(&self.leaderboard.unwrap())
            } else {
                None
            }),
    {
        match &self.leaderboard {
            Some(t) => if t.round == round {
                Some(t)
            } else {
                None
            },
            None => None,
        }
    }

    /// Put a table in place as if the server had sent it.
    pub fn show_leaderboard(&mut self, table: Leaderboard)
        ensures
            *final(self) == (Live { leaderboard: Some(table), ..*old(self) }),
    {
        self.leaderboard = Some(table);
    }
}

impl Live {
    // --- the round cycle -----------------------------------------------------

    /// Put the next round in front of the player: the shared one when there is
    /// a server, a solo one when there is not, and nothing while a shared round
    /// is merely between boards.
    pub fn start_next(&self, game: &mut Game, now: u64)
        requires
            old(game).wf(),
            old(game).solo.played() < u64::MAX,
        ensures
            final(game).wf(),
            self.next_round(*old(game), *final(game), now),
    {
        if self.server_away(now) || self.boardless {
            game.start_round();
            return;
        }
        let clock = match self.clock {
            Some(c) => c,
            None => {
                return;
            },
        };
        if !clock.playing {
            return;
        }
        // Already played this one -- the local clock can run out a hair before
        // the server's does, and the round must not start over.
        let already = match game.round {
            Some(r) => r == clock.round,
            None => false,
        };
        if already || clock.left < MIN_JOIN_MILLIS {
            return;
        }
        match &self.board {
            Some(held) => {
                if held.0 != clock.round {
                    return;  // The read that brings this board is on its way.
                }
                if !game.start_shared_round(clock.round, &held.1, clock.left) {
                    // A board this client cannot read is a bug somewhere, but the
                    // player should still get to play something.
                    game.start_round();
                }
            },
            None => {},
        }
    }

    /// Keep the game in step with the clock.
    pub fn drive(&self, game: &mut Game, now: u64)
        requires
            old(game).wf(),
            old(game).solo.played() < u64::MAX,
        ensures
            final(game).wf(),
            self.driven(*old(game), *final(game), now),
    {
        match game.phase {
            Phase::Ready => {
                if self.joined {
                    self.start_next(game, now);
                }
            },
            Phase::Playing => {
                // Solo rounds keep their own time.
                let round = match game.round {
                    Some(r) => r,
                    None => {
                        return;
                    },
                };
                let clock = match self.clock {
                    Some(c) => c,
                    None => {
                        return;
                    },
                };
                if clock.round == round && clock.playing {
                    game.time_left = clock.left;
                } else {
                    game.end_round();
                    if clock.round == round {
                        game.results_left = clock.left;
                    }
                }
            },
            Phase::Over => {
                match game.round {
                    Some(round) => {
                        match self.clock {
                            Some(clock) => {
                                if clock.round == round && !clock.playing {
                                    game.results_left = clock.left;
                                    return;
                                }
                            },
                            None => {},
                        }
                        game.results_left = 0;
                        self.start_next(game, now);
                    },
                    None => {
                        if game.results_left == 0 {
                            self.start_next(game, now);
                        }
                    },
                }
            },
        }
    }
}

impl Live {
    // --- what each step makes of the state -----------------------------------

    /// The state once what the network said has been taken in: the link as
    /// last reported, the clock carried forward from the latest reading, its
    /// board kept when it is for a round not yet held, the table as last read,
    /// and the answer to a pending name claim.
    pub open spec fn after_hearing(self, heard: Heard, now: u64) -> Live {
        let link = match heard.link {
            Some(l) => l,
            None => self.link,
        };
        let (clock, boardless, board) = match heard.round {
            Some(info) => {
                let clock = if info.round <= u64::MAX - 64 {
                    let at = projected(info, heard.fetched_at, now, CYCLE_MILLIS);
                    Some(Clock { round: at.0, left: at.1, playing: at.2 })
                } else {
                    self.clock
                };
                let board = match info.board {
                    Some(b) => if self.has_board(info.round) {
                        self.board
                    } else {
                        Some((info.round, b))
                    },
                    None => self.board,
                };
                (clock, info.board is None, board)
            },
            None => (self.clock, self.boardless, self.board),
        };
        let name = if self.name == NameStatus::Pending {
            match heard.claim {
                Some(Claim::Accepted(_)) => NameStatus::Claimed,
                Some(Claim::Refused(why)) => NameStatus::Refused(why),
                Some(Claim::Unreachable(_)) => NameStatus::Unreachable,
                None => NameStatus::Pending,
            }
        } else {
            self.name
        };
        Live { link, clock, boardless, board, leaderboard: heard.leaderboard, name, ..self }
    }

    /// How long to leave between reads of the clock: the retry cadence while the
    /// server is down, quickly when a board is wanted right now, and slowly
    /// while all is well.
    pub open spec fn poll_gap(self, game: Game) -> u64 {
        // A board is wanted when a round is running that there is no board for,
        // and it is about to be needed: waiting to join, or on a scorecard.
        let stale = match self.clock {
            None => true,
            Some(c) => c.playing && !self.has_board(c.round),
        };
        let waiting = game.phase != Phase::Playing && (self.joined || game.phase == Phase::Ready);
        match self.link {
            Link::Down(_) => POLL_DOWN_MILLIS,
            Link::Online => if stale && waiting {
                POLL_URGENT_MILLIS
            } else {
                POLL_ONLINE_MILLIS
            },
            _ => POLL_URGENT_MILLIS,
        }
    }

    /// The clock is read now.
    pub open spec fn poll_due(self, game: Game, now: u64) -> bool {
        self.configured && due(self.last_poll, now, self.poll_gap(game))
    }

    pub open spec fn after_poll(self, game: Game, now: u64) -> Live {
        if self.poll_due(game, now) {
            Live {
                last_poll: Some(now),
                first_poll: if self.first_poll is None {
                    Some(now)
                } else {
                    self.first_poll
                },
                ..self
            }
        } else {
            self
        }
    }

    /// The claim tracked is for `me`: a new name starts a new claim.
    pub open spec fn for_me(self, me: Identity) -> Live {
        if self.claim_for matches Some(c) && same_identity(c, me) {
            self
        } else {
            Live { claim_for: Some(me), name: NameStatus::Unclaimed, ..self }
        }
    }

    /// A name is asked for now: one never asked for, or one the server could
    /// not be asked about, again once it answers and the retry gap has passed;
    /// never a refused one, and never while the server is known to be away.
    pub open spec fn claim_due(self, me: Identity, now: u64) -> bool {
        let s = self.for_me(me);
        let retry = match s.name {
            NameStatus::Unclaimed => true,
            NameStatus::Unreachable => s.link == Link::Online && due(s.last_claim, now, POLL_DOWN_MILLIS),
            _ => false,
        };
        retry && !(s.link is Down)
    }

    /// The state once a claim for `me` has gone out.
    pub open spec fn claimed(self, me: Identity, now: u64) -> Live {
        Live { claim_for: Some(me), name: NameStatus::Pending, last_claim: Some(now), ..self }
    }

    pub open spec fn after_naming(self, me: Identity, now: u64) -> Live {
        if self.claim_due(me, now) {
            self.for_me(me).claimed(me, now)
        } else {
            self.for_me(me)
        }
    }

    /// The server's scorecard window for the shared round `game` played is open.
    pub open spec fn window_open(self, game: Game) -> bool {
        &&& game.round is Some
        &&& game.phase == Phase::Over
        &&& self.clock matches Some(c) && c.round == game.round.unwrap() && !c.playing
    }

    /// The round's words go in now: the window is open, they have not gone in
    /// yet, and the server has the name down as ours.
    pub open spec fn submit_due(self, game: Game) -> bool {
        &&& self.window_open(game)
        &&& self.submitted != game.round
        &&& self.name == NameStatus::Claimed
    }

    pub open spec fn after_submit(self, game: Game, now: u64) -> Live {
        if self.submit_due(game) {
            Live { submitted: game.round, next_leaderboard: later(now, LEADERBOARD_FIRST_MILLIS), ..self }
        } else {
            self
        }
    }

    /// The table is read now: the words went in and the refresh time has come.
    pub open spec fn table_due(self, game: Game, now: u64) -> bool {
        let s = self.after_submit(game, now);
        &&& self.window_open(game)
        &&& s.submitted == game.round
        &&& now >= s.next_leaderboard
    }

    pub open spec fn after_hand_in(self, game: Game, now: u64) -> Live {
        let s = self.after_submit(game, now);
        if self.table_due(game, now) {
            Live { next_leaderboard: later(now, LEADERBOARD_EVERY_MILLIS), ..s }
        } else {
            s
        }
    }
}

/// `req` asks for `me`'s name.
pub open spec fn asks_name(req: Request, me: Identity) -> bool {
    req matches Request::ClaimName { id, name } && id == me.id && name == me.name
}

/// `req` hands in what `game` found in `round` for `me`: every word in the
/// order found, the tiles traced for each, and the league.
pub open spec fn hands_in(req: Request, game: Game, me: Identity, round: u64) -> bool {
    &&& req matches Request::Submit { id, round: r, words, paths, league } && {
        &&& id == me.id
        &&& r == round
        &&& crate::solver::bytes_of(words@) == crate::round::found_list(game.found@)
        &&& paths@.len() == game.found@.len()
        &&& forall|i: int| 0 <= i < paths@.len() ==> (#[trigger] paths@[i])@ == crate::round::slot_bytes(game.found@[i].path@)
        &&& league == game.ranking.league
    }
}

impl Live {
    /// Take in what the network has said.
    pub fn hear(&mut self, heard: Heard, now: u64)
        ensures
            *final(self) == old(self).after_hearing(heard, now),
    {
        let Heard { round, fetched_at, leaderboard, claim, link } = heard;
        match link {
            Some(l) => {
                self.link = l;
            },
            None => {},
        }
        match round {
            Some(info) => {
                if info.round <= u64::MAX - 64 {
                    let at = crate::net::project(&info, fetched_at, now, CYCLE_MILLIS);
                    self.clock = Some(Clock { round: at.0, left: at.1, playing: at.2 });
                }
                let RoundInfo { round: number, board, .. } = info;
                self.boardless = board.is_none();
                match board {
                    Some(b) => {
                        let held = match &self.board {
                            Some(x) => x.0 == number,
                            None => false,
                        };
                        if !held {
                            self.board = Some((number, b));
                        }
                    },
                    None => {},
                }
            },
            None => {},
        }
        self.leaderboard = leaderboard;
        if matches!(self.name, NameStatus::Pending) {
            match claim {
                Some(Claim::Accepted(_)) => {
                    self.name = NameStatus::Claimed;
                },
                Some(Claim::Refused(why)) => {
                    self.name = NameStatus::Refused(why);
                },
                Some(Claim::Unreachable(_)) => {
                    self.name = NameStatus::Unreachable;
                },
                None => {},
            }
        }
    }

    /// Read the clock when it is due.
    pub fn poll_if_due(&mut self, game: &Game, now: u64) -> (poll: bool)
        ensures
            poll == old(self).poll_due(*game, now),
            *final(self) == old(self).after_poll(*game, now),
    {
        if !self.configured {
            return false;
        }
        let stale = match self.clock {
            None => true,
            Some(c) => c.playing && match &self.board {
                Some(x) => x.0 != c.round,
                None => true,
            },
        };
        let waiting = game.phase != Phase::Playing && (self.joined || game.phase == Phase::Ready);
        let gap = match &self.link {
            Link::Down(_) => POLL_DOWN_MILLIS,
            Link::Online => if stale && waiting {
                POLL_URGENT_MILLIS
            } else {
                POLL_ONLINE_MILLIS
            },
            _ => POLL_URGENT_MILLIS,
        };
        if is_due(self.last_poll, now, gap) {
            self.last_poll = Some(now);
            if self.first_poll.is_none() {
                self.first_poll = Some(now);
            }
            true
        } else {
            false
        }
    }

    /// Ask for `me`'s name now, rather than waiting for the next frame's
    /// housekeeping. The signup screen wants an answer before it lets you in.
    pub fn claim(&mut self, me: &Identity, now: u64) -> (req: Request)
        ensures
            *final(self) == old(self).claimed(*me, now),
            asks_name(req, *me),
    {
        self.claim_for = Some(copy_identity(me));
        self.name = NameStatus::Pending;
        self.last_claim = Some(now);
        Request::ClaimName { id: me.id.clone(), name: me.name.clone() }
    }

    /// Keep a claim going for `me`'s name.
    pub fn keep_name(&mut self, me: &Identity, now: u64) -> (req: Option<Request>)
        ensures
            *final(self) == old(self).after_naming(*me, now),
            req is Some == old(self).claim_due(*me, now),
            req matches Some(r) ==> asks_name(r, *me),
    {
        let same = match &self.claim_for {
            Some(c) => c.id == me.id && c.name == me.name,
            None => false,
        };
        if !same {
            self.claim_for = Some(copy_identity(me));
            self.name = NameStatus::Unclaimed;
        }
        let retry = match &self.name {
            NameStatus::Unclaimed => true,
            NameStatus::Unreachable => matches!(self.link, Link::Online) && is_due(
                self.last_claim,
                now,
                POLL_DOWN_MILLIS,
            ),
            _ => false,
        };
        // No point asking a server that is known to be away; the next good
        // poll flips the link and the claim goes out then.
        if retry && !matches!(self.link, Link::Down(_)) {
            Some(self.claim(me, now))
        } else {
            None
        }
    }
}

impl Live {
    /// Hand the words in once the shared round is over, then keep the table
    /// fresh. Solo rounds are never handed in, a round is handed in once, and
    /// only under a name the server has down as ours.
    pub fn hand_in(&mut self, game: &Game, me: &Identity, now: u64) -> (sent: Vec<Request>)
        requires
            game.wf(),
        ensures
            *final(self) == old(self).after_hand_in(*game, now),
            sent@.len() == (if old(self).submit_due(*game) { 1int } else { 0 }) + (if old(self).table_due(
                *game,
                now,
            ) {
                1int
            } else {
                0
            }),
            old(self).submit_due(*game) ==> hands_in(sent@[0], *game, *me, game.round.unwrap()),
            old(self).table_due(*game, now) ==> sent@.last() == Request::PollLeaderboard(game.round.unwrap()),
    {
        let mut sent: Vec<Request> = Vec::new();
        let round = match game.round {
            Some(r) => r,
            None => {
                return sent;
            },
        };
        // The server only takes a round during its own scorecard window.
        let open = game.phase == Phase::Over && match self.clock {
            Some(c) => c.round == round && !c.playing,
            None => false,
        };
        if !open {
            return sent;
        }
        let handed = match self.submitted {
            Some(r) => r == round,
            None => false,
        };
        if !handed && matches!(self.name, NameStatus::Claimed) {
            sent.push(
                Request::Submit {
                    id: me.id.clone(),
                    round,
                    words: game.found_words(),
                    paths: game.found_paths(),
                    league: game.ranking.league,
                },
            );
            self.submitted = Some(round);
            self.next_leaderboard = later_by(now, LEADERBOARD_FIRST_MILLIS);
        }
        if self.submitted == Some(round) && now >= self.next_leaderboard {
            sent.push(Request::PollLeaderboard(round));
            self.next_leaderboard = later_by(now, LEADERBOARD_EVERY_MILLIS);
        }
        sent
    }

    /// The player pressed play. Joins the live round if one can be joined;
    /// otherwise skips a solo scorecard, or waits for the next round. The round
    /// in play, and the shared scorecard, which runs on everyone's clock, are
    /// left as they are.
    pub fn play_now(&mut self, game: &mut Game, now: u64)
        requires
            old(game).wf(),
            old(game).solo.played() < u64::MAX,
        ensures
            final(game).wf(),
            *final(self) == (Live { joined: true, ..*old(self) }),
            old(game).phase == Phase::Playing || (old(game).phase == Phase::Over && old(game).round is Some)
                ==> *final(game) == *old(game),
            old(game).phase == Phase::Ready || (old(game).phase == Phase::Over && old(game).round is None)
                ==> final(self).next_round(*old(game), *final(game), now),
    {
        self.joined = true;
        match game.phase {
            Phase::Playing => {},
            Phase::Over => {
                if game.round.is_none() {
                    self.start_next(game, now);
                }
            },
            Phase::Ready => {
                self.start_next(game, now);
            },
        }
    }

    /// Once a frame: take in what the network said, then act on it. Returns
    /// what to send, in order: a read of the clock, a name claim, the round's
    /// words, a read of the table, each when it is due.
    pub fn update(&mut self, game: &mut Game, identity: Option<&Identity>, heard: Heard, now: u64) -> (sent: Vec<
        Request,
    >)
        requires
            old(game).wf(),
            old(game).solo.played() < u64::MAX,
        ensures
            final(game).wf(),
            ({
                let heard_state = old(self).after_hearing(heard, now);
                let polled = heard_state.after_poll(*old(game), now);
                let poll = heard_state.poll_due(*old(game), now);
                let named = match identity {
                    Some(me) => polled.after_naming(*me, now),
                    None => polled,
                };
                let ask = match identity {
                    Some(me) => polled.claim_due(*me, now),
                    None => false,
                };
                let submit = identity is Some && named.submit_due(*final(game));
                let table = identity is Some && named.table_due(*final(game), now);
                let p: int = if poll { 1 } else { 0 };
                let a: int = if ask { 1 } else { 0 };
                let s: int = if submit { 1 } else { 0 };
                &&& named.driven(*old(game), *final(game), now)
                &&& *final(self) == match identity {
                    Some(me) => named.after_hand_in(*final(game), now),
                    None => named,
                }
                &&& sent@.len() == p + a + s + (if table { 1int } else { 0 })
                &&& poll ==> sent@[0] == Request::PollRound
                &&& ask ==> asks_name(sent@[p], *identity.unwrap())
                &&& submit ==> hands_in(sent@[p + a], *final(game), *identity.unwrap(), final(game).round.unwrap())
                &&& table ==> sent@[p + a + s] == Request::PollLeaderboard(final(game).round.unwrap())
            }),
    {
        let mut sent: Vec<Request> = Vec::new();
        self.hear(heard, now);
        if self.poll_if_due(game, now) {
            sent.push(Request::PollRound);
        }
        match identity {
            Some(me) => match self.keep_name(me, now) {
                Some(req) => sent.push(req),
                None => {},
            },
            None => {},
        }
        self.drive(game, now);
        match identity {
            Some(me) => {
                let mut more = self.hand_in(game, me, now);
                sent.append(&mut more);
            },
            None => {},
        }
        sent
    }
}

/// A round that has ended is never started over: whatever following the clock
/// puts in front of a player on the scorecard of shared round `r`, it is not
/// round `r` again.
pub proof fn lemma_finished_round_never_restarts(live: Live, before: Game, after: Game, now: u64, r: u64)
    requires
        before.phase == Phase::Over,
        before.round == Some(r),
        live.driven(before, after, now),
    ensures
        after.phase == Phase::Playing ==> after.round != Some(r),
{
    let b = Game { results_left: 0, ..before };
    if !(live.clock matches Some(c) && c.round == r && !c.playing) {
        match live.start_for(b.round, now) {
            Start::Shared => {
                assert(live.clock.unwrap().round != r);
            },
            _ => {},
        }
    }
}

/// A solo round in play keeps its own time: following the clock leaves it as
/// it is.
pub proof fn lemma_solo_round_keeps_its_time(live: Live, before: Game, after: Game, now: u64)
    requires
        before.phase == Phase::Playing,
        before.round is None,
        live.driven(before, after, now),
    ensures
        after == before,
{
}

/// A shared round in play is never ended early: while the server's clock is
/// playing that round, it goes on, on the server's time.
pub proof fn lemma_shared_round_runs_to_the_servers_clock(live: Live, before: Game, after: Game, now: u64)
    requires
        before.phase == Phase::Playing,
        before.round is Some,
        live.clock matches Some(c) && c.round == before.round.unwrap() && c.playing,
        live.driven(before, after, now),
    ensures
        after == (Game { time_left: live.clock.unwrap().left, ..before }),
{
}

/// Solo rounds are never handed in, nor is their table asked for.
pub proof fn lemma_solo_rounds_are_never_handed_in(live: Live, game: Game, now: u64)
    requires
        game.round is None,
    ensures
        !live.submit_due(game),
        !live.table_due(game, now),
        live.after_hand_in(game, now) == live,
{
}

/// A round is handed in once: once its words have gone in, they do not go in
/// again.
pub proof fn lemma_handed_in_once(live: Live, game: Game, now: u64)
    requires
        live.submit_due(game),
    ensures
        !live.after_hand_in(game, now).submit_due(game),
{
}

/// Only a player the server has down by name is handed in.
pub proof fn lemma_unclaimed_players_are_not_handed_in(live: Live, game: Game)
    requires
        live.name != NameStatus::Claimed,
    ensures
        !live.submit_due(game),
{
}

/// A refused name is reported, not asked for again: nothing the network says
/// changes a refusal, and no claim for the same account goes out while it
/// stands.
pub proof fn lemma_refusal_is_not_retried(live: Live, me: Identity, heard: Heard, now: u64)
    requires
        live.name is Refused,
        live.claim_for matches Some(c) && same_identity(c, me),
    ensures
        live.after_hearing(heard, now).name == live.name,
        !live.claim_due(me, now),
        live.after_naming(me, now) == live,
{
}


impl Live {
    /// The player is waiting on the shared cycle for the next round to come up.
    pub open spec fn is_queued(&self, game: Game, now: u64) -> bool {
        self.joined && game.phase == Phase::Ready && !self.away(now) && !self.boardless
    }

    pub fn queued(&self, game: &Game, now: u64) -> (queued: bool)
        ensures
            queued == self.is_queued(*game, now),
    {
        self.joined && game.phase == Phase::Ready && self.is_live(now)
    }

    /// Step out of the queue: no round starts until the player asks again.
    pub fn leave_queue(&mut self)
        ensures
            *final(self) == (Live { joined: false, ..*old(self) }),
    {
        self.joined = false;
    }

    /// Back to the home screen from the scorecard, out of the cycle of rounds.
    /// Nothing is lost: the round was banked, and handed in, when it ended.
    pub fn go_home(&mut self, game: &mut Game)
        requires
            old(game).wf(),
        ensures
            final(game).wf(),
            *final(self) == (Live { joined: false, ..*old(self) }),
            *final(game) == (Game {
                phase: if old(game).phase == Phase::Over {
                    Phase::Ready
                } else {
                    old(game).phase
                },
                ..*old(game)
            }),
    {
        game.close_results();
        self.joined = false;
    }

    /// Leaving hands the round in now: it was played in a shared round, it
    /// scored, there is an account whose name the server has down, and it has
    /// not gone in already.
    pub open spec fn leave_hands_in(&self, game: Game, me: Option<Identity>) -> bool {
        &&& game.phase == Phase::Playing
        &&& game.score > 0
        &&& game.round is Some
        &&& me is Some
        &&& self.name == NameStatus::Claimed
        &&& self.submitted != game.round
    }

    /// Leave the round being played, after the player has confirmed it. What
    /// was scored is banked into the average and handed in straight away, and
    /// the player goes home rather than into the next round; a round with
    /// nothing found records nothing.
    pub fn leave(&mut self, game: &mut Game, me: Option<&Identity>, now: u64) -> (sent: Vec<Request>)
        requires
            old(game).wf(),
        ensures
            final(game).wf(),
            old(game).phase != Phase::Playing ==> *final(game) == *old(game),
            old(game).phase == Phase::Playing ==> final(game).phase == Phase::Ready && crate::round::ended(
                *old(game),
                (Game { phase: Phase::Over, ..*final(game) }),
            ),
            ({
                let hand = old(self).leave_hands_in(
                    *old(game),
                    match me {
                        Some(i) => Some(*i),
                        None => None,
                    },
                );
                &&& *final(self) == (Live {
                    joined: false,
                    submitted: if hand {
                        old(game).round
                    } else {
                        old(self).submitted
                    },
                    next_leaderboard: if hand {
                        later(now, LEADERBOARD_FIRST_MILLIS)
                    } else {
                        old(self).next_leaderboard
                    },
                    ..*old(self)
                })
                &&& sent@.len() == if hand {
                    1int
                } else {
                    0
                }
                &&& hand ==> hands_in(sent@[0], *old(game), *me.unwrap(), old(game).round.unwrap())
            }),
    {
        let mut sent: Vec<Request> = Vec::new();
        self.joined = false;
        if game.phase != Phase::Playing {
            return sent;
        }
        let handed = match self.submitted {
            Some(r) => game.round == Some(r),
            None => false,
        };
        match (game.round, me) {
            (Some(round), Some(me)) => {
                if game.score > 0 && matches!(self.name, NameStatus::Claimed) && !handed {
                    sent.push(
                        Request::Submit {
                            id: me.id.clone(),
                            round,
                            words: game.found_words(),
                            paths: game.found_paths(),
                            league: game.ranking.league,
                        },
                    );
                    self.submitted = Some(round);
                    self.next_leaderboard = later_by(now, LEADERBOARD_FIRST_MILLIS);
                }
            },
            _ => {},
        }
        game.leave_round();
        sent
    }
}

/// Home stays home: once out of the cycle of rounds, following the clock never
/// starts a round on the home screen until the player asks again.
pub proof fn lemma_home_stays_home(live: Live, before: Game, after: Game, now: u64)
    requires
        !live.joined,
        before.phase == Phase::Ready,
        live.driven(before, after, now),
    ensures
        after == before,
{
}


/// How a round saved before the game last closed is picked up.
pub enum Resume {
    /// Nothing to pick up yet: none is waiting, a round is on screen, or the
    /// clock or the board the shared round needs is still on its way.
    Wait,
    /// A solo round, on its own clock.
    Solo,
    /// The shared round, still being played, on the server's board and time.
    Shared,
    /// A shared round that is over, or that cannot be followed: banked as it
    /// stood and handed in.
    Finish,
}

impl Live {
    /// What picking up a saved round does now.
    pub open spec fn resume_choice(&self, game: Game, now: u64) -> Resume {
        match game.pending_resume {
            None => Resume::Wait,
            Some(s) => if game.phase != Phase::Ready {
                Resume::Wait
            } else {
                match s.round {
                    None => Resume::Solo,
                    Some(r) => if !self.away(now) && !self.boardless {
                        match self.clock {
                            None => Resume::Wait,
                            Some(c) => if c.round == r && c.playing {
                                if self.has_board(r) {
                                    Resume::Shared
                                } else {
                                    Resume::Wait
                                }
                            } else {
                                Resume::Finish
                            },
                        }
                    } else {
                        Resume::Finish
                    },
                }
            },
        }
    }

    /// Pick up a round saved before the game last closed, from the home screen:
    /// a solo round where it was; a shared round the server is still playing,
    /// with whatever time it has left; and one that ended while the game was
    /// closed, banked as it stood and handed in.
    pub fn resume(&mut self, game: &mut Game, me: Option<&Identity>, now: u64) -> (sent: Vec<Request>)
        requires
            old(game).wf(),
        ensures
            final(game).wf(),
            match old(self).resume_choice(*old(game), now) {
                Resume::Wait => *final(game) == *old(game) && *final(self) == *old(self) && sent@.len() == 0,
                Resume::Solo => crate::round::solo_resumed(
                    *old(game),
                    *final(game),
                    old(game).pending_resume matches Some(s) && s.round is None && readable(s.grid@),
                ) && *final(self) == *old(self) && sent@.len() == 0,
                Resume::Shared => {
                    let c = old(self).clock.unwrap();
                    let b = old(self).board.unwrap().1;
                    &&& crate::round::shared_resumed(
                        *old(game),
                        *final(game),
                        c.round,
                        b,
                        c.left,
                        old(game).pending_resume matches Some(s) && s.round == Some(c.round)
                            && crate::round::same_tiles(s.grid@, b.grid@) && readable(b.grid@),
                    )
                    &&& *final(self) == *old(self)
                    &&& sent@.len() == 0
                },
                Resume::Finish => {
                    let s = old(game).pending_resume.unwrap();
                    let banked = if readable(s.grid@) {
                        s.round
                    } else {
                        None
                    };
                    let hand = banked is Some && final(game).score > 0 && me is Some && old(self).name
                        == NameStatus::Claimed && old(self).submitted != banked;
                    &&& crate::round::pending_finished(*old(game), *final(game), banked)
                    &&& *final(self) == if hand {
                        Live {
                            submitted: banked,
                            next_leaderboard: later(now, LEADERBOARD_FIRST_MILLIS),
                            ..*old(self)
                        }
                    } else {
                        *old(self)
                    }
                    &&& sent@.len() == if hand {
                        1int
                    } else {
                        0
                    }
                    &&& hand ==> hands_in(sent@[0], *final(game), *me.unwrap(), banked.unwrap())
                },
            },
    {
        let mut sent: Vec<Request> = Vec::new();
        let saved_round = match &game.pending_resume {
            Some(saved) => saved.round,
            None => {
                return sent;
            },
        };
        if game.phase != Phase::Ready {
            return sent;
        }
        let round = match saved_round {
            None => {
                game.resume_solo();
                return sent;
            },
            Some(r) => r,
        };
        if self.is_live(now) {
            let clock = match self.clock {
                Some(c) => c,
                None => {
                    return sent;
                },
            };
            if clock.round == round && clock.playing {
                match &self.board {
                    Some(held) => {
                        if held.0 == round {
                            game.resume_shared(round, &held.1, clock.left);
                        }
                    },
                    None => {},
                }
                return sent;
            }
        }
        let banked = game.finish_pending();
        match (banked, me) {
            (Some(r), Some(me)) => {
                let handed = match self.submitted {
                    Some(x) => x == r,
                    None => false,
                };
                if game.score > 0 && matches!(self.name, NameStatus::Claimed) && !handed {
                    sent.push(
                        Request::Submit {
                            id: me.id.clone(),
                            round: r,
                            words: game.found_words(),
                            paths: game.found_paths(),
                            league: game.ranking.league,
                        },
                    );
                    self.submitted = Some(r);
                    self.next_leaderboard = later_by(now, LEADERBOARD_FIRST_MILLIS);
                }
            },
            _ => {},
        }
        sent
    }
}


/// `req` reports what `game` has found so far in `round` for `me`.
pub open spec fn reports_progress(req: Request, game: Game, me: Identity, round: u64) -> bool {
    &&& req matches Request::Progress { id, round: r, words, paths, league } && {
        &&& id == me.id
        &&& r == round
        &&& crate::solver::bytes_of(words@) == crate::round::found_list(game.found@)
        &&& paths@.len() == game.found@.len()
        &&& forall|i: int| 0 <= i < paths@.len() ==> (#[trigger] paths@[i])@ == crate::round::slot_bytes(game.found@[i].path@)
        &&& league == game.ranking.league
    }
}

impl Live {
    /// Progress is reported now: a shared round is being played under a name
    /// the server has down, and words have been found since the last report.
    pub open spec fn progress_due(&self, game: Game, me: Option<Identity>) -> bool {
        &&& game.phase == Phase::Playing
        &&& game.round is Some
        &&& me is Some
        &&& self.name == NameStatus::Claimed
        &&& game.found@.len() != self.reported
    }

    /// Tell the server how the shared round in play is going, whenever a word
    /// has been found since it was last told. Off the board the count starts
    /// again for the next round.
    pub fn report_progress(&mut self, game: &Game, me: Option<&Identity>) -> (req: Option<Request>)
        requires
            game.wf(),
        ensures
            ({
                let who = match me {
                    Some(i) => Some(*i),
                    None => None,
                };
                &&& req is Some == old(self).progress_due(*game, who)
                &&& req matches Some(r) ==> reports_progress(r, *game, *me.unwrap(), game.round.unwrap())
                &&& *final(self) == if game.phase != Phase::Playing {
                    Live { reported: 0, ..*old(self) }
                } else if old(self).progress_due(*game, who) {
                    Live { reported: game.found@.len() as usize, ..*old(self) }
                } else {
                    *old(self)
                }
            }),
    {
        if game.phase != Phase::Playing {
            self.reported = 0;
            return None;
        }
        let round = match game.round {
            Some(r) => r,
            None => {
                return None;
            },
        };
        let me = match me {
            Some(i) => i,
            None => {
                return None;
            },
        };
        if !matches!(self.name, NameStatus::Claimed) || game.found.len() == self.reported {
            return None;
        }
        self.reported = game.found.len();
        Some(
            Request::Progress {
                id: me.id.clone(),
                round,
                words: game.found_words(),
                paths: game.found_paths(),
                league: game.ranking.league,
            },
        )
    }
}

} // verus!
