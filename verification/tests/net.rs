use word_legend_app::net::{Claim, Link, DEFAULT_SERVER};

#[test]
fn the_link_says_how_boards_are_coming() {
    assert_eq!(Link::Solo.label(), "Solo");
    assert_eq!(Link::Connecting.label(), "Connecting…");
    assert_eq!(Link::Online.label(), "Live");
    assert_eq!(Link::Down("timeout".to_string()).label(), "Offline — playing solo");
}

#[test]
fn a_claim_keeps_its_reason() {
    let refused = Claim::Refused("That name is taken".to_string());
    assert_eq!(refused.clone(), refused);
    assert_ne!(refused, Claim::Unreachable("That name is taken".to_string()));
    assert!(DEFAULT_SERVER.starts_with("https://"));
}

use word_legend_app::net::{project, RoundInfo};
use word_legend_app::round::{RESULTS_MILLIS, ROUND_MILLIS};

const CYCLE: u32 = ROUND_MILLIS + RESULTS_MILLIS;

fn info(round: u64, phase: &str, left: u32) -> RoundInfo {
    RoundInfo { round, phase: phase.to_string(), millis_left: left, server_time: 0, board: None, error: None }
}

#[test]
fn the_clock_runs_on_between_polls() {
    // Ten seconds after a reading, ten fewer seconds remain.
    let (round, left, playing) = project(&info(5, "play", 100_000), 1_000_000, 1_010_000, CYCLE);
    assert_eq!(round, 5);
    assert_eq!(left, 90_000);
    assert!(playing);
}

#[test]
fn the_clock_crosses_into_the_results_window() {
    let (round, left, playing) = project(&info(5, "play", 10_000), 1_000_000, 1_015_000, CYCLE);
    assert_eq!(round, 5, "results belong to the round just played");
    assert!(!playing);
    assert_eq!(left, RESULTS_MILLIS - 5_000);
}

#[test]
fn the_clock_rolls_into_the_next_round() {
    // A reading with 5s of results left, read 10s later: the next round is up.
    let (round, left, playing) = project(&info(5, "results", 5_000), 1_000_000, 1_010_000, CYCLE);
    assert_eq!(round, 6);
    assert!(playing);
    assert_eq!(left, ROUND_MILLIS - 5_000);
}

#[test]
fn a_long_gap_does_not_spin_forever() {
    // Tab asleep for a day: the projection must terminate, not hang.
    let (round, left, _) = project(&info(5, "play", 100_000), 0, 86_400_000, CYCLE);
    assert!(round > 5);
    assert!(left <= CYCLE);
}

#[test]
fn a_reading_from_the_future_is_taken_as_it_stands() {
    // A clock that went backwards counts no time as passed.
    assert_eq!(project(&info(9, "play", 42_000), 5_000, 1_000, CYCLE), (9, 42_000, true));
}

#[test]
fn only_the_play_phase_is_played() {
    assert!(info(1, "play", 0).is_playing());
    assert!(!info(1, "results", 0).is_playing());
    assert!(!info(1, "Play", 0).is_playing());
    assert!(!info(1, "", 0).is_playing());
}

#[test]
fn exactly_at_a_boundary_the_next_phase_has_begun() {
    // No time left in the round is the start of its scorecard.
    assert_eq!(project(&info(3, "play", 0), 0, 0, CYCLE), (3, RESULTS_MILLIS, false));
}
