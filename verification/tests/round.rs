// The word lists the game ships with are not part of this repository, so the
// tests build the game's dictionary from a list of their own.

use rand::rngs::StdRng;
use rand::SeedableRng;
use word_legend_app::dictionary::Dictionary;
use word_legend_app::solver::solve_board;
use word_legend_app::game::{letter_bonus, score_word, word_points, Cell, Grid, Position, SIZE, SUPERWORD_POINTS};
use word_legend_app::league::Ranking;
use word_legend_app::net::Board;
use word_legend_app::rotation::SoloRotation;
use word_legend_app::round::{Feedback, Game, Phase, RoundSave, SavedRound, RESULTS_MILLIS, ROUND_MILLIS};
use word_legend_app::themes::Themes;

fn board(rows: [&'static str; 4]) -> Grid {
    std::array::from_fn(|row| std::array::from_fn(|col| Cell { letters: &rows[row][col..col + 1] }))
}

fn dictionary() -> Dictionary {
    Dictionary::from_lists(
        "adit\nherd\nhero\nher\nwars\ncat\ncats\nact\nsat\n",
        "herd\nhero\nher\nwars\ncat\ncats\nact\nsat\ncharacterization\naeroplane\n",
        "",
    )
}

fn new_game() -> Game {
    let themes = Themes::load("[Animals]\ncat\nherd\nant\nbee\ncow\ndog\neel\nfox\ngnu\nhen\nowl\npig\n");
    Game::new(dictionary(), themes, Ranking::new(), SoloRotation::new(Vec::new()), None, StdRng::seed_from_u64(7))
}

fn trace(game: &mut Game, cells: &[(usize, usize)]) {
    for &(row, col) in cells {
        game.extend_path(Position { row, col });
    }
    game.submit_path();
}

#[test]
fn tile_use_is_counted_per_letter() {
    let mut game = new_game();
    game.grid = board(["herd", "zzzz", "zzzz", "zzzz"]);
    game.words = solve_board(&game.dictionary, &game.grid);
    game.tile_uses = [[0; SIZE]; SIZE];
    game.phase = Phase::Playing;

    trace(&mut game, &[(0, 0), (0, 1), (0, 2), (0, 3)]);
    assert_eq!(game.tile_uses[0], [1, 1, 1, 1]);
    assert_eq!(game.tile_uses[1], [0, 0, 0, 0]);

    trace(&mut game, &[(0, 0), (0, 1), (0, 2)]);
    assert_eq!(game.tile_uses[0], [2, 2, 2, 1]);
}

#[test]
fn a_rejected_word_leaves_tile_use_alone() {
    let mut game = new_game();
    game.grid = board(["zqxj", "zzzz", "zzzz", "zzzz"]);
    game.words = solve_board(&game.dictionary, &game.grid);
    game.tile_uses = [[0; SIZE]; SIZE];
    game.phase = Phase::Playing;

    trace(&mut game, &[(0, 0), (0, 1), (0, 2)]);
    assert_eq!(game.feedback, Feedback::NotAWord);
    assert_eq!(game.tile_uses[0], [0, 0, 0, 0]);
}

#[test]
fn obscure_words_score_ten_percent_more_and_superwords_a_flat_bonus() {
    assert_eq!(score_word("cat", false), 100);
    assert_eq!(score_word("adit", true), 440);
    assert_eq!(score_word("oxen", false), 400);
    for len in 3..=12 {
        let word = "a".repeat(len);
        assert_eq!(score_word(&word, true), word_points(len) * 11 / 10, "{len} letters");
        assert_eq!(word_points(len) * 11 % 10, 0, "10% more is not a whole number at {len} letters");
    }
    assert_eq!(score_word("characterization", false), SUPERWORD_POINTS);
    assert_eq!(score_word("characterization", true), SUPERWORD_POINTS);
    assert!(SUPERWORD_POINTS > word_points(16) * 3, "a superword should be worth far more than its length");

    let mut game = new_game();
    game.grid = board(["adit", "zzzz", "zzzz", "zzzz"]);
    game.words = solve_board(&game.dictionary, &game.grid);
    game.phase = Phase::Playing;
    trace(&mut game, &[(0, 0), (0, 1), (0, 2), (0, 3)]);
    assert_eq!(game.found[0].points, 440, "an obscure word did not score 10% more");
    assert_eq!(game.score, 440 + game.letter_bonus());
}

#[test]
fn the_letter_bonus_pays_for_used_letters_reused_ones_and_the_whole_board() {
    let mut uses = [[0u32; SIZE]; SIZE];
    assert_eq!(letter_bonus(&uses), 0);
    uses[0][0] = 1;
    assert_eq!(letter_bonus(&uses), 25, "a yellow star is 25");
    uses[0][0] = 2;
    assert_eq!(letter_bonus(&uses), 125, "a green star adds 100");
    uses[0][0] = 7;
    assert_eq!(letter_bonus(&uses), 125, "more uses earn nothing further");
    let all_once = [[1u32; SIZE]; SIZE];
    assert_eq!(letter_bonus(&all_once), 16 * 25 + 500, "every letter used adds 500");
    let all_twice = [[2u32; SIZE]; SIZE];
    assert_eq!(letter_bonus(&all_twice), 16 * 125 + 500);

    let mut game = new_game();
    game.grid = board(["herd", "zzzz", "zzzz", "zzzz"]);
    game.words = solve_board(&game.dictionary, &game.grid);
    game.tile_uses = [[0; SIZE]; SIZE];
    game.phase = Phase::Playing;
    trace(&mut game, &[(0, 0), (0, 1), (0, 2), (0, 3)]);
    assert_eq!(game.score, word_points(4) + 4 * 25);
    assert_eq!(game.found_paths(), vec![vec![0u8, 1, 2, 3]]);
    trace(&mut game, &[(0, 0), (0, 1), (0, 2)]);
    assert_eq!(game.score, word_points(4) + word_points(3) + 4 * 25 + 3 * 100);
}

#[test]
fn a_saved_round_reads_back_and_resumes_with_its_words_and_stars() {
    let mut game = new_game();
    game.start_round();
    game.grid = board(["herd", "zzzz", "zzzz", "zzzz"]);
    game.words = solve_board(&game.dictionary, &game.grid);
    game.round = Some(42);
    trace(&mut game, &[(0, 0), (0, 1), (0, 2), (0, 3)]);
    let saved = SavedRound {
        round: game.round,
        grid: game.grid.iter().flatten().map(|c| c.letters.to_string()).collect(),
        theme: Some("Animals".into()),
        time_left: 90_000,
        found: game.found.iter().map(|w| (w.word.clone(), w.path.clone())).collect(),
    };
    let back = SavedRound::from_text(&saved.to_text()).expect("reads back");
    assert_eq!(back, saved);
    assert!(SavedRound::from_text("").is_none(), "an empty save is no round");

    // The game comes back: the server says round 42 has 60 seconds left.
    let score = game.score;
    let mut fresh = new_game();
    fresh.pending_resume = Some(back.clone());
    let board_msg = Board { grid: back.grid.clone(), theme: Some("Animals".into()) };
    assert!(fresh.resume_shared(42, &board_msg, 60_000));
    assert_eq!((fresh.phase, fresh.round, fresh.time_left), (Phase::Playing, Some(42), 60_000));
    assert_eq!(fresh.found_words(), vec!["herd".to_string()]);
    assert_eq!(fresh.score, score, "the resumed score differs");
    assert_eq!(fresh.tile_uses[0][..4], [1, 1, 1, 1], "the stars were not restored");

    // A different board for that round is not resumed onto.
    let mut other = new_game();
    other.pending_resume = Some(back.clone());
    let wrong = Board { grid: vec!["a".into(); 16], theme: None };
    assert!(!other.resume_shared(42, &wrong, 60_000));

    // The round ran out while the game was closed: banked as it stood.
    let mut late = new_game();
    late.pending_resume = Some(back);
    let games = late.ranking.recent.len();
    assert_eq!(late.finish_pending(), Some(42));
    assert_eq!(late.phase, Phase::Ready);
    assert_eq!(late.ranking.recent.len(), games + 1, "the saved round was not banked");
}

#[test]
fn leaving_a_round_banks_it_and_goes_home() {
    let mut game = new_game();
    game.start_round();
    game.score = 3_000;
    let games = game.ranking.recent.len();
    game.leave_round();
    assert_eq!(game.phase, Phase::Ready, "leaving should go home, not to the scorecard");
    assert_eq!(game.ranking.recent.len(), games + 1, "the score was not banked");
    assert_eq!(game.ranking.recent.back().copied(), Some(3_000));

    game.start_round();
    game.time_left = 0;
    game.tick(200);
    assert_eq!(game.phase, Phase::Over);
    game.close_results();
    assert_eq!(game.phase, Phase::Ready);
}

#[test]
fn a_letter_lists_exactly_the_words_that_run_through_it() {
    let mut game = new_game();
    game.grid = board(["cats", "zazz", "zzzz", "zzzz"]);
    game.words = solve_board(&game.dictionary, &game.grid);

    let t = Position { row: 0, col: 2 };
    let through_t = game.words_through(t);
    let words: Vec<&str> = through_t.iter().map(|(w, _)| w.as_str()).collect();
    assert!(words.contains(&"cats") && words.contains(&"cat"), "missing words through T: {words:?}");

    for (word, path) in &through_t {
        assert!(path.contains(&t), "{word}'s path skips the tapped letter");
        let spelled: String = path.iter().map(|p| game.grid[p.row][p.col].letters).collect();
        assert_eq!(&spelled, word, "the path does not spell the word");
        assert!(path.windows(2).all(|w| word_legend_app::game::is_adjacent(w[0], w[1])), "{word}'s path jumps");
    }
    assert!(game.words_through(Position { row: 3, col: 3 }).is_empty());
}

#[test]
fn board_type_names_the_theme_when_there_is_one() {
    let mut game = new_game();
    game.grid = board(["herd", "zzzz", "zzzz", "zzzz"]);
    game.words = solve_board(&game.dictionary, &game.grid);

    game.theme = None;
    assert!(
        ["Superword", "Long", "Dense", "Sparse", "Standard"].contains(&game.board_type().as_str()),
        "unexpected board type {}",
        game.board_type()
    );

    game.theme = Some("Animals".to_string());
    assert_eq!(game.board_type(), "Animals");
    assert_eq!(game.highlight_tab().0, "Animals");

    game.theme = None;
    game.words.common.insert(0, "aeroplane".to_string());
    assert_ne!(game.board_type(), "Superword");
    game.words.common.insert(0, "characterization".to_string());
    assert_eq!(game.board_type(), "Superword");
    assert_eq!(game.highlight_tab().0, "Superword");
}

#[test]
fn duplicate_words_do_not_score_twice() {
    let mut game = new_game();
    game.grid = board(["herd", "zzzz", "zzzz", "zzzz"]);
    game.phase = Phase::Playing;

    for _ in 0..2 {
        trace(&mut game, &[(0, 0), (0, 1), (0, 2), (0, 3)]);
    }
    assert_eq!(game.found.len(), 1);
    assert_eq!(game.score, word_points(4) + letter_bonus(&game.tile_uses));
    assert_eq!(game.feedback, Feedback::Duplicate);
}

#[test]
fn a_trail_rewinds_and_skips_tiles_that_do_not_touch() {
    let mut game = new_game();
    game.phase = Phase::Playing;
    game.extend_path(Position { row: 0, col: 0 });
    game.extend_path(Position { row: 2, col: 2 });
    assert_eq!(game.path, vec![Position { row: 0, col: 0 }]);
    game.extend_path(Position { row: 1, col: 1 });
    game.extend_path(Position { row: 2, col: 2 });
    game.extend_path(Position { row: 1, col: 1 });
    assert_eq!(game.path, vec![Position { row: 0, col: 0 }, Position { row: 1, col: 1 }]);
    assert!(game.path_contains(Position { row: 1, col: 1 }));
    game.clear_path();
    assert!(game.path.is_empty());
}

#[test]
fn a_short_trail_is_too_short_and_scores_nothing() {
    let mut game = new_game();
    game.grid = board(["herd", "zzzz", "zzzz", "zzzz"]);
    game.phase = Phase::Playing;
    trace(&mut game, &[(0, 0), (0, 1)]);
    assert_eq!(game.feedback, Feedback::TooShort);
    assert_eq!(game.feedback_word, "he");
    assert!(game.found.is_empty());
    assert_eq!(game.score, 0);
}

#[test]
fn nothing_is_traced_outside_a_round() {
    let mut game = new_game();
    assert_eq!(game.phase, Phase::Ready);
    game.begin_path(Position { row: 0, col: 0 });
    game.extend_path(Position { row: 0, col: 1 });
    assert!(game.path.is_empty());
}

#[test]
fn the_clock_runs_down_and_the_round_ends() {
    let mut game = new_game();
    game.start_round();
    assert_eq!(game.time_left, ROUND_MILLIS);
    assert!(matches!(game.round_save, RoundSave::Write(_)));
    game.round_save = RoundSave::Unchanged;
    game.tick(4_000);
    assert_eq!(game.time_left, ROUND_MILLIS - 4_000);
    assert!(matches!(game.round_save, RoundSave::Unchanged));
    game.tick(1_000);
    assert!(matches!(game.round_save, RoundSave::Write(_)), "five seconds of play should save");
    game.tick(ROUND_MILLIS);
    assert_eq!(game.phase, Phase::Over);
    assert_eq!(game.results_left, RESULTS_MILLIS);
    assert!(matches!(game.round_save, RoundSave::Clear));
    assert!(game.rank_change.is_none(), "a round with nothing found is not banked");
    game.tick(10_000);
    assert_eq!(game.results_left, RESULTS_MILLIS - 10_000);
}

#[test]
fn a_shared_round_starts_on_the_servers_board() {
    let mut game = new_game();
    let tiles: Vec<String> = ["c", "a", "t", "s", "z", "z", "z", "z", "z", "z", "z", "z", "h", "e", "r", "d"]
        .iter()
        .map(|s| s.to_string())
        .collect();
    let msg = Board { grid: tiles, theme: Some("Animals".to_string()) };
    assert!(game.start_shared_round(7, &msg, 500_000));
    assert_eq!(game.round, Some(7));
    assert_eq!(game.time_left, ROUND_MILLIS);
    assert_eq!(game.theme.as_deref(), Some("Animals"));
    assert!(game.words.theme.contains(&"cat".to_string()) && game.words.theme.contains(&"herd".to_string()));
    assert_eq!(game.findable_count(), game.words.common.len());
    assert!(game.board_par() >= word_points(4));
    let bad = Board { grid: vec!["ab".to_string(); 16], theme: None };
    assert!(!game.start_shared_round(8, &bad, 1_000));
    assert_eq!(game.round, Some(7));
}

#[test]
fn a_new_best_needs_a_score() {
    let mut game = new_game();
    assert!(!game.is_new_best());
    game.score = 10;
    assert!(game.is_new_best());
    game.ranking.best_score = 11;
    assert!(!game.is_new_best());
    assert_eq!(game.best_score(), 11);
    assert!(game.counts_toward_rank());
}

#[test]
fn the_round_keeps_the_totals_its_statistics_are_worked_from() {
    let mut game = new_game();
    assert_eq!(game.found_points(), 0, "a blank round has nothing to divide");
    assert_eq!(game.found_letters(), 0);
    game.grid = board(["herd", "zzzz", "zzzz", "zzzz"]);
    game.words = solve_board(&game.dictionary, &game.grid);
    game.tile_uses = [[0; SIZE]; SIZE];
    game.phase = Phase::Playing;

    trace(&mut game, &[(0, 0), (0, 1), (0, 2), (0, 3)]);
    assert_eq!(game.found_count(), 1);
    assert_eq!(game.found_points(), word_points(4) as u128);
    assert_eq!(game.found_letters(), 4);
    trace(&mut game, &[(0, 0), (0, 1), (0, 2)]);
    assert_eq!(game.found_points(), (word_points(4) + word_points(3)) as u128);
    assert_eq!(game.found_letters(), 7);
    assert!(game.board_par() >= game.score);
}
