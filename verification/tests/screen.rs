use rand::rngs::StdRng;
use rand::SeedableRng;
use word_legend_app::dictionary::Dictionary;
use word_legend_app::league::Ranking;
use word_legend_app::live::{Clock, Live, MIN_JOIN_MILLIS};
use word_legend_app::net::{Board, Link};
use word_legend_app::rotation::SoloRotation;
use word_legend_app::round::{Game, RESULTS_MILLIS};
use word_legend_app::screen::{clock_text, join_prompt, link_status, next_round_in, next_shared_round_in, PlaySwipe, Tone};
use word_legend_app::themes::Themes;

fn online(round: u64, left: u32, playing: bool) -> Live {
    let mut live = Live::new(true);
    live.link = Link::Online;
    live.clock = Some(Clock { round, left, playing });
    live.board = Some((round, Board { grid: vec!["a".to_string(); 16], theme: None }));
    live
}

fn new_game() -> Game {
    let dict = Dictionary::from_lists("cat\n", "cat\n", "");
    Game::new(dict, Themes::load(""), Ranking::new(), SoloRotation::new(Vec::new()), None, StdRng::seed_from_u64(7))
}

#[test]
fn the_clock_reads_minutes_and_seconds() {
    assert_eq!(clock_text(133_400), "2:13");
    assert_eq!(clock_text(180_000), "3:00");
    assert_eq!(clock_text(59_999), "0:59");
    assert_eq!(clock_text(9_000), "0:09");
    assert_eq!(clock_text(0), "0:00");
    assert_eq!(clock_text(600_000), "10:00");
}

#[test]
fn the_badge_says_how_boards_are_coming() {
    assert_eq!(link_status(&online(3, 1_000, true), 0), ("LIVE".to_string(), Tone::Good));
    let solo = Live::new(false);
    assert_eq!(link_status(&solo, 0), ("SOLO".to_string(), Tone::Quiet));
    let mut down = Live::new(true);
    down.link = Link::Down("timeout".into());
    assert_eq!(link_status(&down, 0), ("OFFLINE · SOLO".to_string(), Tone::Warning));
    let connecting = Live::new(true);
    assert_eq!(link_status(&connecting, 0), ("CONNECTING…".to_string(), Tone::Quiet));
    let mut empty = online(3, 1_000, true);
    empty.boardless = true;
    assert_eq!(link_status(&empty, 0), ("SOLO · NO ROUNDS".to_string(), Tone::Warning));
}

#[test]
fn the_start_card_offers_the_round_in_play_while_it_is_worth_joining() {
    let live = online(7, 100_000, true);
    let (button, line, tone) = join_prompt(&live, 0);
    assert_eq!(button, "JOIN ROUND");
    assert_eq!(line, "Everyone is on this board · 1:40 left · or press Enter");
    assert_eq!(tone, Tone::Good);

    let late = online(7, MIN_JOIN_MILLIS - 1, true);
    let (button, line, tone) = join_prompt(&late, 0);
    assert_eq!(button, "JOIN NEXT ROUND");
    assert_eq!(line, format!("Next round starts in {}", clock_text((MIN_JOIN_MILLIS - 1 + RESULTS_MILLIS) as u64)));
    assert_eq!(tone, Tone::Warning);

    let mut queued = online(7, 10_000, false);
    queued.joined = true;
    let (button, line, _) = join_prompt(&queued, 0);
    assert_eq!(button, "QUEUED");
    assert_eq!(line, "You're queued for the next round · starts in 0:10");
}

#[test]
fn without_a_server_the_start_card_says_why() {
    assert_eq!(join_prompt(&Live::new(false), 0), ("START ROUND".to_string(), "or press Enter".to_string(), Tone::Quiet));
    assert_eq!(join_prompt(&Live::new(true), 0).1, "Connecting to the live round…");
    let mut down = Live::new(true);
    down.link = Link::Down("timeout".into());
    assert_eq!(join_prompt(&down, 0).1, "Can't reach the server · playing solo boards");
}

#[test]
fn the_scorecard_counts_down_to_whichever_round_comes_next() {
    let mut game = new_game();
    game.results_left = 4_000;
    let live = online(7, 20_000, true);
    assert_eq!(next_shared_round_in(&live, 0), Some(20_000 + RESULTS_MILLIS as u64));
    // A solo scorecard waits for the shared round when that is further off.
    assert_eq!(next_round_in(&game, &live, 0), 20_000 + RESULTS_MILLIS as u64);
    // A shared scorecard runs on its own time.
    game.round = Some(7);
    assert_eq!(next_round_in(&game, &live, 0), 4_000);
    game.round = None;
    assert_eq!(next_round_in(&game, &Live::new(false), 0), 4_000);
}

#[test]
fn only_play_in_order_plays() {
    let mut swipe = PlaySwipe::new();
    swipe.start();
    for t in [0, 1, 2, 3] {
        swipe.touch(t);
    }
    assert!(swipe.complete());
    assert!(swipe.release());
    assert!(!swipe.show_hint);
    assert!(swipe.trail.is_empty());

    swipe.start();
    for t in [3, 2, 1, 0] {
        swipe.touch(t);
    }
    assert!(!swipe.release(), "YALP is not PLAY");
    assert!(swipe.show_hint, "a wrong swipe explains itself");
}

#[test]
fn a_swipe_rewinds_when_it_goes_back_and_skips_what_is_not_beside_it() {
    let mut swipe = PlaySwipe::new();
    swipe.touch(0);
    swipe.touch(2);
    assert_eq!(swipe.trail, vec![0], "A is not beside P");
    swipe.touch(1);
    swipe.touch(2);
    swipe.touch(1);
    assert_eq!(swipe.trail, vec![0, 1], "back over L rewinds to it");
    swipe.tap();
    assert!(swipe.show_hint);
    assert_eq!(swipe.trail, vec![0, 1]);
}
