use std::collections::VecDeque;
use word_legend_app::league::{
    leagues, Movement, RankChange, Ranking, FORM_GAMES, LEAGUE_THRESHOLDS, MIN_GAMES_TO_MOVE, TOP_LEAGUE,
};

fn ranked(league: usize, scores: &[u32]) -> Ranking {
    let mut r = Ranking::new();
    r.league = league;
    r.recent = scores.iter().copied().collect::<VecDeque<u32>>();
    r
}

#[test]
fn rank_is_the_mean_of_recent_rounds() {
    let r = ranked(0, &[1_000, 2_000, 3_000]);
    assert_eq!(r.average(), 2_000);
}

#[test]
fn only_the_last_ten_rounds_count() {
    let mut r = Ranking::new();
    for i in 1..=15 {
        r.record(i * 1_000);
    }
    assert_eq!(r.games_on_record(), FORM_GAMES);
    // Rounds 6..15 survive; 1..5 have aged out.
    assert_eq!(r.average(), (6..=15).map(|i| i * 1_000).sum::<u32>() / 10);
}

#[test]
fn a_single_bad_round_does_not_cost_a_league() {
    // Gold starts at 8000: nine rounds of 9500 and a zero still average 8550.
    let mut r = ranked(2, &[9_500; 9]);
    let change = r.record(0);
    assert_eq!(change.movement, Movement::Held);
    assert_eq!(r.league, 2);
}

#[test]
fn one_round_moves_the_rank_by_a_tenth_of_its_excess() {
    let mut r = ranked(0, &[1_000; 9]);
    assert_eq!(r.average(), 1_000);
    let change = r.record(11_000);
    assert_eq!(change.average, 2_000, "a 10k excess should lift the rank by 1k");
}

#[test]
fn a_good_round_alone_does_not_win_a_league() {
    let mut r = ranked(0, &[500; 9]);
    let change = r.record(5_000);
    assert_eq!(change.average, 950);
    assert_eq!(change.movement, Movement::Held);
    assert_eq!(r.league, 0);
}

#[test]
fn a_sustained_run_promotes() {
    let mut r = Ranking::new();
    let mut change = r.record(9_000);
    for _ in 0..5 {
        change = r.record(9_000);
    }
    // 9000 clears Silver (4000) and Gold (8000) but not Platinum (13000).
    assert_eq!(change.movement, Movement::Promoted);
    assert!(r.league >= 1);
    assert!(leagues()[r.league].threshold <= 9_000);
}

#[test]
fn falling_below_the_floor_relegates() {
    let mut r = ranked(3, &[1_000; 9]);
    let change = r.record(1_000);
    assert_eq!(change.movement, Movement::Relegated);
    assert_eq!(r.league, 2);
}

#[test]
fn the_ladder_waits_for_enough_rounds() {
    let mut r = Ranking::new();
    for _ in 0..MIN_GAMES_TO_MOVE - 1 {
        assert_eq!(r.record(50_000).movement, Movement::Held);
        assert_eq!(r.league, 0, "moved before there was enough to judge");
    }
    assert_eq!(r.record(50_000).movement, Movement::Promoted);
}

#[test]
fn relegation_does_not_wait_for_enough_rounds() {
    let mut r = Ranking::new();
    r.league = 3;
    let change = r.record(0);
    assert_eq!(change.average, 0);
    assert_eq!(change.movement, Movement::Relegated);
    assert_eq!((change.from, change.to), (3, 2));
    assert_eq!(r.league, 2);
}

#[test]
fn bronze_cannot_drop_and_hero_cannot_climb() {
    let mut bottom = ranked(0, &[0; 9]);
    assert_eq!(bottom.record(0).movement, Movement::Held);
    assert_eq!(bottom.league, 0);

    let mut top = ranked(TOP_LEAGUE, &[99_000; 9]);
    assert_eq!(top.record(99_000).movement, Movement::Held);
    assert_eq!(top.league, TOP_LEAGUE);
}

#[test]
fn a_ranking_saved_and_loaded_is_the_same_ranking() {
    let mut r = ranked(3, &[4_000, 0, 12_345]);
    r.best_score = 23_456;
    let back = Ranking::load(Some(&r.store()), None);
    assert_eq!(back.league, 3);
    assert_eq!(back.best_score, 23_456);
    assert_eq!(back.recent, VecDeque::from(vec![4_000, 0, 12_345]));
}

#[test]
fn a_save_is_versioned_key_value_lines() {
    let r = ranked(1, &[10, 20]);
    assert_eq!(r.store(), "version=2\nbest=0\nleague=1\nrecent=10,20\n");
}

#[test]
fn no_save_keeps_the_best_score_from_before_leagues() {
    let fresh = Ranking::load(None, Some(" 4200\n"));
    assert_eq!(fresh.best_score, 4_200);
    assert_eq!(fresh.league, 0);
    assert!(fresh.recent.is_empty());
    assert_eq!(Ranking::load(None, Some("junk")).best_score, 0);
}

#[test]
fn a_damaged_save_reads_what_it_can() {
    let r = Ranking::load(Some("league=99\nrecent= 5, x ,7\nbest=oops\n"), None);
    assert_eq!(r.league, TOP_LEAGUE);
    assert_eq!(r.recent, VecDeque::from(vec![5, 7]));
    assert_eq!(r.best_score, 0);
}

#[test]
fn a_promotion_is_announced() {
    let up = RankChange { movement: Movement::Promoted, from: 0, to: 1, average: 3_000 };
    assert_eq!(up.headline(), "BRONZE \u{2192} SILVER  \u{b7}  3000 avg");
    let down = RankChange { movement: Movement::Relegated, from: 2, to: 1, average: 100 };
    assert_eq!(down.headline(), "GOLD \u{2192} SILVER  \u{b7}  100 avg");
    let held = RankChange { movement: Movement::Held, from: 4, to: 4, average: 100 };
    assert_eq!(held.headline(), "");
}

#[test]
fn the_next_threshold_is_the_league_above() {
    assert_eq!(ranked(0, &[]).next_threshold(), Some(4_000));
    assert_eq!(ranked(1, &[]).next_threshold(), Some(8_000));
    assert_eq!(ranked(2, &[]).next_threshold(), Some(13_000));
    assert_eq!(ranked(3, &[]).next_threshold(), Some(20_000));
    assert_eq!(ranked(4, &[]).next_threshold(), Some(30_000));
    assert_eq!(ranked(TOP_LEAGUE, &[]).next_threshold(), None);
}

#[test]
fn progress_runs_from_this_floor_to_the_next() {
    let thresholds = LEAGUE_THRESHOLDS;
    // Exactly on the Silver floor: nothing climbed yet.
    let r = ranked(1, &[thresholds[1]]);
    assert_eq!(r.progress_span(), Some((0, thresholds[2] - thresholds[1])));
    // At the Gold line: the whole span.
    let r = ranked(1, &[thresholds[2]]);
    assert_eq!(r.progress_span(), Some((thresholds[2] - thresholds[1], thresholds[2] - thresholds[1])));
    // Below the floor counts as nothing climbed, not a negative.
    let r = ranked(1, &[100]);
    assert_eq!(r.progress_span(), Some((0, thresholds[2] - thresholds[1])));
    let top = ranked(TOP_LEAGUE, &[1_000]);
    assert_eq!(top.progress_span(), None, "the bar is full at the top");
}
