//! Word Legend: a shared-clock word game on a 4x4 board.
//!
//! The library holds the game's rules: the two-tier word list and its trie,
//! tracing and scoring, the solver, board building and its schedule, the league
//! ladder, accounts, the round's save format, following the shared round on the
//! server's clock, the round packs the server is fed, and what the screen says
//! about the clock.

pub mod dictionary;
pub mod game;
pub mod identity;
pub mod league;
pub mod live;
pub mod net;
pub mod packs;
pub mod random;
pub mod rotation;
pub mod round;
pub mod save;
pub mod screen;
pub mod solver;
pub mod text;
pub mod themes;
