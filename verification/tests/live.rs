// The round cycle against a server that is only ever pretended: each frame the
// test hands over what the network would have said, and reads back what the
// game asked for.

use rand::rngs::StdRng;
use rand::SeedableRng;
use word_legend_app::dictionary::Dictionary;
use word_legend_app::game::Position;
use word_legend_app::identity::Identity;
use word_legend_app::league::Ranking;
use word_legend_app::live::{Heard, Live, NameStatus, Request, CONNECT_GRACE_MILLIS, MIN_JOIN_MILLIS};
use word_legend_app::net::{Board, Claim, Link, RoundInfo};
use word_legend_app::rotation::SoloRotation;
use word_legend_app::round::{Game, Phase, SavedRound, RESULTS_MILLIS};
use word_legend_app::themes::Themes;

/// A real board from the deployed server.
const GRID: [&str; 16] = ["c", "a", "m", "e", "e", "r", "s", "w", "a", "h", "m", "o", "l", "i", "e", "r"];

fn new_game() -> Game {
    let dictionary = Dictionary::from_lists(
        "came\ncream\nsame\nhero\nherd\nmole\nlime\n",
        "came\ncream\nsame\nhero\nherd\nmole\nlime\n",
        "",
    );
    let themes = Themes::load("[Colors]\ncream\nlime\nred\ntan\n");
    Game::new(dictionary, themes, Ranking::new(), SoloRotation::new(Vec::new()), None, StdRng::seed_from_u64(7))
}

fn me() -> Identity {
    Identity { id: "0123456789ABCDEF".into(), name: "wordfan".into() }
}

fn online() -> (Live, Heard) {
    let heard = Heard { round: None, fetched_at: 0, leaderboard: None, claim: None, link: None };
    (Live::new(true), heard)
}

/// Pretend the server just answered a round read.
fn serve(heard: &mut Heard, round: u64, phase: &str, left: u32, at: u64) {
    heard.link = Some(Link::Online);
    heard.fetched_at = at;
    heard.round = Some(RoundInfo {
        round,
        phase: phase.into(),
        millis_left: left,
        server_time: 0,
        board: Some(Board { grid: GRID.iter().map(|s| s.to_string()).collect(), theme: Some("Colors".into()) }),
        error: None,
    });
}

/// One frame, with everything asked for written down in `sent`. A claim that
/// goes out clears the last answer, as a real one does.
fn frame(live: &mut Live, game: &mut Game, heard: &mut Heard, now: u64, sent: &mut Vec<Request>) {
    let asked = live.update(game, Some(&me()), heard.clone(), now);
    for request in asked {
        if matches!(request, Request::ClaimName { .. }) {
            heard.claim = None;
        }
        sent.push(request);
    }
}

fn submits(sent: &[Request]) -> Vec<&Request> {
    sent.iter().filter(|r| matches!(r, Request::Submit { .. })).collect()
}

fn round_reads(sent: &[Request]) -> usize {
    sent.iter().filter(|r| matches!(r, Request::PollRound)).count()
}

fn claims(sent: &[Request]) -> usize {
    sent.iter().filter(|r| matches!(r, Request::ClaimName { .. })).count()
}

#[test]
fn joining_mid_round_plays_the_shared_board_on_the_shared_clock() {
    let mut game = new_game();
    let (mut live, mut heard) = online();
    let mut sent = Vec::new();
    serve(&mut heard, 40, "play", 120_000, 0);

    frame(&mut live, &mut game, &mut heard, 10_000, &mut sent);
    assert_eq!(game.phase, Phase::Ready, "nothing starts until the player asks");

    live.play_now(&mut game, 10_000);
    assert_eq!(game.phase, Phase::Playing);
    assert_eq!(game.round, Some(40));
    assert_eq!(game.grid[0][0].letters, "c");
    assert_eq!(game.theme.as_deref(), Some("Colors"));
    assert_eq!(game.time_left, 110_000, "a late joiner gets what is left, not a full round");
}

#[test]
fn the_round_ends_on_the_servers_clock_and_is_handed_in_once() {
    let mut game = new_game();
    let (mut live, mut heard) = online();
    let mut sent = Vec::new();
    serve(&mut heard, 40, "play", 100_000, 0);
    frame(&mut live, &mut game, &mut heard, 0, &mut sent);
    heard.claim = Some(Claim::Accepted("wordfan".into()));
    live.play_now(&mut game, 0);

    // Find a word on the real board: C-A-M-E across the top row.
    for col in 0..4 {
        game.extend_path(Position { row: 0, col });
    }
    game.submit_path();
    assert_eq!(game.found_words(), vec!["came".to_string()]);

    frame(&mut live, &mut game, &mut heard, 50_000, &mut sent);
    assert_eq!(game.phase, Phase::Playing);
    assert_eq!(game.time_left, 50_000);

    // The server's clock runs out; the scorecard opens on everyone's timer.
    frame(&mut live, &mut game, &mut heard, 101_000, &mut sent);
    assert_eq!(game.phase, Phase::Over);
    assert_eq!(game.results_left, RESULTS_MILLIS - 1_000);

    for t in [102_000, 103_000, 110_000] {
        frame(&mut live, &mut game, &mut heard, t, &mut sent);
    }
    let scores = submits(&sent);
    assert_eq!(scores.len(), 1, "handed in {scores:?}");
    match scores[0] {
        Request::Submit { id, round, words, paths, .. } => {
            assert_eq!(id, "0123456789ABCDEF");
            assert_eq!(*round, 40);
            assert_eq!(words, &vec!["came".to_string()]);
            assert_eq!(paths, &vec![vec![0u8, 1, 2, 3]]);
        }
        _ => unreachable!(),
    }
    assert!(sent.iter().any(|r| matches!(r, Request::PollLeaderboard(40))));
}

#[test]
fn the_next_shared_round_follows_the_scorecard_without_a_click() {
    let mut game = new_game();
    let (mut live, mut heard) = online();
    let mut sent = Vec::new();
    serve(&mut heard, 40, "play", 20_000, 0);
    frame(&mut live, &mut game, &mut heard, 0, &mut sent);
    live.play_now(&mut game, 0);
    frame(&mut live, &mut game, &mut heard, 30_000, &mut sent);
    assert_eq!(game.phase, Phase::Over);

    // Round 41 starts, but until its board arrives the scorecard just waits.
    let reads = round_reads(&sent);
    frame(&mut live, &mut game, &mut heard, 81_000, &mut sent);
    assert_eq!(game.phase, Phase::Over);
    assert!(round_reads(&sent) > reads, "should be asking for the new board");

    serve(&mut heard, 41, "play", 179_000, 81_500);
    frame(&mut live, &mut game, &mut heard, 82_000, &mut sent);
    assert_eq!(game.phase, Phase::Playing);
    assert_eq!(game.round, Some(41));
}

#[test]
fn a_round_is_never_restarted_when_the_local_clock_runs_out_first() {
    let mut game = new_game();
    let (mut live, mut heard) = online();
    let mut sent = Vec::new();
    serve(&mut heard, 40, "play", 60_000, 0);
    frame(&mut live, &mut game, &mut heard, 0, &mut sent);
    live.play_now(&mut game, 0);

    // Local tick ends the round a moment before the server's clock does.
    game.time_left = 0;
    game.tick(16);
    assert_eq!(game.phase, Phase::Over);
    frame(&mut live, &mut game, &mut heard, 59_900, &mut sent);
    assert_eq!(game.phase, Phase::Over, "the finished round came back");
}

#[test]
fn between_rounds_an_online_player_waits_for_the_board() {
    let mut game = new_game();
    let (mut live, mut heard) = online();
    let mut sent = Vec::new();
    serve(&mut heard, 40, "results", 30_000, 0);
    frame(&mut live, &mut game, &mut heard, 1_000, &mut sent);
    live.play_now(&mut game, 1_000);
    assert_eq!(game.phase, Phase::Ready, "no solo board while the server is fine");
    assert!(live.joined());
}

#[test]
fn too_little_time_left_waits_for_the_next_round() {
    let mut game = new_game();
    let (mut live, mut heard) = online();
    let mut sent = Vec::new();
    serve(&mut heard, 40, "play", MIN_JOIN_MILLIS - 1_000, 0);
    frame(&mut live, &mut game, &mut heard, 0, &mut sent);
    live.play_now(&mut game, 0);
    assert_eq!(game.phase, Phase::Ready);
}

#[test]
fn an_unreachable_server_falls_back_to_solo() {
    let mut game = new_game();
    let (mut live, mut heard) = online();
    let mut sent = Vec::new();
    frame(&mut live, &mut game, &mut heard, 0, &mut sent);
    live.play_now(&mut game, 0);
    assert_eq!(game.phase, Phase::Ready, "gives the server a moment to answer");

    frame(&mut live, &mut game, &mut heard, CONNECT_GRACE_MILLIS + 1_000, &mut sent);
    assert_eq!(game.phase, Phase::Playing, "no answer should mean solo play, not a hang");
    assert_eq!(game.round, None);
    assert!(!live.is_live(CONNECT_GRACE_MILLIS + 1_000));
}

#[test]
fn a_solo_scorecard_rejoins_the_shared_cycle_when_the_server_returns() {
    let mut game = new_game();
    let (mut live, mut heard) = online();
    let mut sent = Vec::new();
    heard.link = Some(Link::Down("offline".into()));
    frame(&mut live, &mut game, &mut heard, 0, &mut sent);
    live.play_now(&mut game, 0);
    assert_eq!(game.round, None);
    game.time_left = 0;
    game.tick(16);
    assert_eq!(game.phase, Phase::Over);

    serve(&mut heard, 40, "play", 150_000, 5_000);
    game.results_left = 0;
    frame(&mut live, &mut game, &mut heard, 5_000, &mut sent);
    assert_eq!(game.round, Some(40), "should be back on the shared board");
    assert!(submits(&sent).is_empty(), "solo rounds are never handed in");
}

#[test]
fn a_taken_name_is_reported_not_swallowed() {
    let mut game = new_game();
    let (mut live, mut heard) = online();
    let mut sent = Vec::new();
    serve(&mut heard, 40, "play", 100_000, 0);
    frame(&mut live, &mut game, &mut heard, 0, &mut sent);
    assert_eq!(live.name, NameStatus::Pending);
    assert_eq!(claims(&sent), 1);

    heard.claim = Some(Claim::Refused("That name is taken".into()));
    frame(&mut live, &mut game, &mut heard, 1_000, &mut sent);
    assert_eq!(live.name, NameStatus::Refused("That name is taken".into()));
    frame(&mut live, &mut game, &mut heard, 2_000, &mut sent);
    assert_eq!(claims(&sent), 1, "a refusal is not retried");
}

#[test]
fn an_unclaimed_player_is_not_handed_in() {
    let mut game = new_game();
    let (mut live, mut heard) = online();
    let mut sent = Vec::new();
    serve(&mut heard, 40, "play", 20_000, 0);
    frame(&mut live, &mut game, &mut heard, 0, &mut sent);
    live.play_now(&mut game, 0);
    frame(&mut live, &mut game, &mut heard, 30_000, &mut sent);
    assert_eq!(game.phase, Phase::Over);
    assert!(submits(&sent).is_empty(), "the server would refuse it anyway");

    heard.claim = Some(Claim::Accepted("wordfan".into()));
    frame(&mut live, &mut game, &mut heard, 31_000, &mut sent);
    assert_eq!(submits(&sent).len(), 1, "handed in once the name lands");
}

#[test]
fn a_solo_client_never_reads_the_clock() {
    let mut game = new_game();
    let mut live = Live::new(false);
    let heard = Heard { round: None, fetched_at: 0, leaderboard: None, claim: None, link: None };
    assert_eq!(live.link(), &Link::Solo);
    let sent = live.update(&mut game, None, heard.clone(), 0);
    assert!(sent.is_empty());
    live.play_now(&mut game, 0);
    assert_eq!(game.phase, Phase::Playing);
    assert_eq!(game.round, None);
    assert!(!live.is_live(0));
}

#[test]
fn an_unreachable_claim_is_asked_again_once_the_server_answers() {
    let mut game = new_game();
    let (mut live, mut heard) = online();
    let mut sent = Vec::new();
    serve(&mut heard, 40, "play", 100_000, 0);
    frame(&mut live, &mut game, &mut heard, 0, &mut sent);
    heard.claim = Some(Claim::Unreachable("timeout".into()));
    frame(&mut live, &mut game, &mut heard, 1_000, &mut sent);
    assert_eq!(live.name, NameStatus::Unreachable);
    assert_eq!(claims(&sent), 1, "not before the retry gap");
    frame(&mut live, &mut game, &mut heard, 15_000, &mut sent);
    assert_eq!(claims(&sent), 2, "asked again once the gap has passed");
    assert_eq!(live.name, NameStatus::Pending);
}

#[test]
fn the_table_is_kept_only_for_its_round() {
    let mut live = Live::new(true);
    live.show_leaderboard(word_legend_app::net::Leaderboard { round: 7, entries: Vec::new() });
    assert!(live.leaderboard_for(7).is_some());
    assert!(live.leaderboard_for(8).is_none());
}

#[test]
fn leaving_a_round_banks_it_hands_it_in_and_goes_home() {
    let mut game = new_game();
    let (mut live, mut heard) = online();
    let mut sent = Vec::new();
    serve(&mut heard, 40, "play", 100_000, 0);
    frame(&mut live, &mut game, &mut heard, 0, &mut sent);
    heard.claim = Some(Claim::Accepted("wordfan".into()));
    live.play_now(&mut game, 0);
    frame(&mut live, &mut game, &mut heard, 1_000, &mut sent);
    assert_eq!(live.name, NameStatus::Claimed);
    for col in 0..4 {
        game.extend_path(Position { row: 0, col });
    }
    game.submit_path();
    assert!(game.score > 0);

    let left = live.leave(&mut game, Some(&me()), 2_000);
    assert_eq!(game.phase, Phase::Ready, "leaving goes home");
    assert_eq!(game.ranking.recent.len(), 1, "the round was banked");
    assert_eq!(left.len(), 1);
    assert!(matches!(&left[0], Request::Submit { round: 40, words, .. } if words == &vec!["came".to_string()]));
    assert!(!live.joined());

    // Home stays home, and the round is not handed in a second time.
    let mut later = Vec::new();
    frame(&mut live, &mut game, &mut heard, 3_000, &mut later);
    assert_eq!(game.phase, Phase::Ready);
    assert!(submits(&later).is_empty());
}

#[test]
fn leaving_with_nothing_found_records_nothing() {
    let mut game = new_game();
    let (mut live, mut heard) = online();
    let mut sent = Vec::new();
    serve(&mut heard, 40, "play", 100_000, 0);
    frame(&mut live, &mut game, &mut heard, 0, &mut sent);
    heard.claim = Some(Claim::Accepted("wordfan".into()));
    live.play_now(&mut game, 0);
    frame(&mut live, &mut game, &mut heard, 1_000, &mut sent);
    let left = live.leave(&mut game, Some(&me()), 2_000);
    assert!(left.is_empty());
    assert_eq!(game.phase, Phase::Ready);
    assert!(game.ranking.recent.is_empty(), "an empty round is not banked");
}

#[test]
fn going_home_from_the_scorecard_leaves_the_cycle() {
    let mut game = new_game();
    let (mut live, mut heard) = online();
    let mut sent = Vec::new();
    serve(&mut heard, 40, "play", 20_000, 0);
    frame(&mut live, &mut game, &mut heard, 0, &mut sent);
    live.play_now(&mut game, 0);
    frame(&mut live, &mut game, &mut heard, 30_000, &mut sent);
    assert_eq!(game.phase, Phase::Over);
    live.go_home(&mut game);
    assert_eq!(game.phase, Phase::Ready);
    assert!(!live.joined(), "going home should leave the cycle of rounds");
    serve(&mut heard, 41, "play", 179_000, 81_000);
    frame(&mut live, &mut game, &mut heard, 81_500, &mut sent);
    assert_eq!(game.phase, Phase::Ready, "no round starts until the player asks");
}

#[test]
fn a_player_can_step_out_of_the_queue() {
    let mut game = new_game();
    let (mut live, mut heard) = online();
    let mut sent = Vec::new();
    serve(&mut heard, 40, "results", 20_000, 0);
    frame(&mut live, &mut game, &mut heard, 0, &mut sent);
    live.play_now(&mut game, 0);
    assert!(live.queued(&game, 0), "between rounds a player who asked is queued");
    live.leave_queue();
    assert!(!live.queued(&game, 0));
    serve(&mut heard, 41, "play", 179_000, 21_000);
    frame(&mut live, &mut game, &mut heard, 21_500, &mut sent);
    assert_eq!(game.phase, Phase::Ready);
}

fn saved(round: Option<u64>, time_left: u32) -> SavedRound {
    SavedRound {
        round,
        grid: GRID.iter().map(|s| s.to_string()).collect(),
        theme: None,
        time_left,
        found: vec![(
            "came".to_string(),
            (0..4).map(|col| Position { row: 0, col }).collect(),
        )],
    }
}

fn game_with(pending: SavedRound) -> Game {
    let mut game = new_game();
    game.pending_resume = Some(pending);
    game
}

#[test]
fn a_solo_round_picks_up_where_it_was() {
    let mut game = game_with(saved(None, 50_000));
    let mut live = Live::new(false);
    let sent = live.resume(&mut game, Some(&me()), 0);
    assert!(sent.is_empty());
    assert_eq!(game.phase, Phase::Playing);
    assert_eq!(game.round, None);
    assert_eq!(game.time_left, 50_000);
    assert_eq!(game.found_words(), vec!["came".to_string()]);
    assert!(game.pending_resume.is_none());
}

#[test]
fn a_shared_round_still_in_play_is_rejoined_with_the_time_it_has_left() {
    let mut game = game_with(saved(Some(40), 150_000));
    let (mut live, mut heard) = online();
    let mut sent = Vec::new();
    serve(&mut heard, 40, "play", 90_000, 0);
    live.hear(heard.clone(), 0);
    let asked = live.resume(&mut game, Some(&me()), 0);
    assert!(asked.is_empty());
    assert_eq!(game.phase, Phase::Playing);
    assert_eq!(game.round, Some(40));
    assert_eq!(game.time_left, 90_000, "the server's time, not the saved one");
    assert_eq!(game.found_words(), vec!["came".to_string()]);
    frame(&mut live, &mut game, &mut heard, 1_000, &mut sent);
    assert_eq!(game.phase, Phase::Playing);
}

#[test]
fn a_shared_round_waits_for_the_clock_before_it_is_judged() {
    let mut game = game_with(saved(Some(40), 150_000));
    let mut live = Live::new(true);
    let sent = live.resume(&mut game, Some(&me()), 0);
    assert!(sent.is_empty());
    assert!(game.pending_resume.is_some(), "nothing is decided before the clock is read");
    assert_eq!(game.phase, Phase::Ready);
}

#[test]
fn a_shared_round_that_ended_while_closed_is_banked_and_handed_in() {
    let mut game = game_with(saved(Some(40), 150_000));
    let (mut live, mut heard) = online();
    let mut sent = Vec::new();
    serve(&mut heard, 41, "play", 170_000, 0);
    frame(&mut live, &mut game, &mut heard, 0, &mut sent);
    heard.claim = Some(Claim::Accepted("wordfan".into()));
    live.hear(heard.clone(), 500);
    assert_eq!(live.name, NameStatus::Claimed);
    let asked = live.resume(&mut game, Some(&me()), 500);
    assert_eq!(game.phase, Phase::Ready);
    assert!(game.pending_resume.is_none());
    assert_eq!(game.ranking.recent.len(), 1, "the words found were banked");
    assert_eq!(asked.len(), 1);
    assert!(matches!(&asked[0], Request::Submit { round: 40, words, .. } if words == &vec!["came".to_string()]));
}

#[test]
fn progress_is_reported_once_for_each_new_word_of_a_shared_round() {
    let mut game = new_game();
    let (mut live, mut heard) = online();
    let mut sent = Vec::new();
    serve(&mut heard, 40, "play", 100_000, 0);
    frame(&mut live, &mut game, &mut heard, 0, &mut sent);
    heard.claim = Some(Claim::Accepted("wordfan".into()));
    live.play_now(&mut game, 0);
    frame(&mut live, &mut game, &mut heard, 1_000, &mut sent);
    assert!(live.report_progress(&game, Some(&me())).is_none(), "nothing found yet");
    for col in 0..4 {
        game.extend_path(Position { row: 0, col });
    }
    game.submit_path();
    let report = live.report_progress(&game, Some(&me()));
    assert!(matches!(&report, Some(Request::Progress { round: 40, words, .. }) if words == &vec!["came".to_string()]));
    assert!(live.report_progress(&game, Some(&me())).is_none(), "the same word is not reported twice");
}

#[test]
fn solo_rounds_report_no_progress() {
    let mut game = new_game();
    let mut live = Live::new(false);
    live.play_now(&mut game, 0);
    assert_eq!(game.round, None);
    assert!(live.report_progress(&game, Some(&me())).is_none());
}
