// The word lists the game ships with are not part of this repository, so the
// rounds written out here are built on a small list of the tests' own.

use word_legend_app::dictionary::Dictionary;
use word_legend_app::game::{generate_board_seeded, Cell, Grid, SIZE};
use word_legend_app::packs::{lex_before, pack_json, pack_runs, round_json, valid_words, PACK_SIZE};
use word_legend_app::solver::solve_board;

fn dictionary() -> Dictionary {
    Dictionary::from_lists(
        "adit\nherd\nhero\nher\nwars\ncat\ncats\nact\nsat\ntea\neat\nate\nrate\ntear\n",
        "herd\nhero\nher\ncat\ncats\nact\nsat\ntea\neat\n",
        "",
    )
}

fn board(rows: [&'static str; 4]) -> Grid {
    std::array::from_fn(|row| std::array::from_fn(|col| Cell { letters: &rows[row][col..col + 1] }))
}

fn tiles_json(grid: &Grid) -> String {
    (0..SIZE)
        .flat_map(|r| (0..SIZE).map(move |c| (r, c)))
        .map(|(r, c)| format!("\"{}\"", grid[r][c].letters))
        .collect::<Vec<_>>()
        .join(",")
}

#[test]
fn a_pack_holds_playable_rounds() {
    let dict = dictionary();
    let rounds: Vec<String> = (0..3u64)
        .map(|round| {
            let (grid, words, theme) = generate_board_seeded(&dict, round);
            round_json(round, &grid, &theme, &valid_words(&words))
        })
        .collect();
    let runs = pack_runs(0, 3);
    assert_eq!(runs, vec![(0, 0, 3)]);
    let json = pack_json(&rounds);

    assert!(json.starts_with('['), "a pack is a JSON array");
    assert!(json.ends_with(']'));
    assert!(json.contains("\"round\":0"));
    assert!(json.contains("\"round\":2"));
    assert!(json.contains("\"grid\":["));
    assert!(json.contains("\"words\":["));
    // Sixteen tiles, quoted and comma separated.
    let grid_start = json.find("\"grid\":[").unwrap() + 8;
    let grid_end = json[grid_start..].find(']').unwrap() + grid_start;
    assert_eq!(json[grid_start..grid_end].split(',').count(), 16);
}

#[test]
fn packs_split_on_the_pack_size() {
    let packs = pack_runs(PACK_SIZE - 1, 2);
    assert_eq!(packs.len(), 2, "a run straddling a boundary makes two packs");
    assert_eq!(packs[0], (0, PACK_SIZE - 1, PACK_SIZE));
    assert_eq!(packs[1], (1, PACK_SIZE, PACK_SIZE + 1));
}

#[test]
fn a_rounds_words_match_its_board() {
    // What the server validates against has to be what the client can find.
    let dict = dictionary();
    let grid = board(["herd", "cats", "teaz", "zzzz"]);
    let words = solve_board(&dict, &grid);
    let json = round_json(5, &grid, &None, &valid_words(&words));

    for word in words.common.iter().chain(words.obscure.iter()) {
        assert!(json.contains(&format!("\"{word}\"")), "{word} missing from the pack");
    }
    assert!(json.contains(&tiles_json(&grid)), "grid in the pack does not match the board");
}

#[test]
fn a_round_is_written_exactly() {
    let dict = dictionary();
    let grid = board(["catz", "zzzz", "zzzz", "zzzz"]);
    let words = solve_board(&dict, &grid);
    let json = round_json(42, &grid, &Some("Animals".to_string()), &valid_words(&words));
    assert_eq!(
        json,
        "{\"round\":42,\"grid\":[\"c\",\"a\",\"t\",\"z\",\"z\",\"z\",\"z\",\"z\",\"z\",\"z\",\"z\",\"z\",\"z\",\"z\",\"z\",\"z\"],\"theme\":\"Animals\",\"words\":[\"cat\"]}"
    );
    let plain = round_json(7, &grid, &None, &Vec::new());
    assert!(plain.contains("\"theme\":null,\"words\":[]}"));
}

#[test]
fn valid_words_are_in_byte_order_across_both_tiers() {
    let dict = dictionary();
    let grid = board(["herd", "cats", "teaz", "zzzz"]);
    let words = solve_board(&dict, &grid);
    let valid = valid_words(&words);
    let mut expected: Vec<String> = words.common.iter().chain(words.obscure.iter()).cloned().collect();
    expected.sort();
    assert_eq!(valid, expected);
    assert!(!words.obscure.is_empty(), "the fixture should hold an obscure word");
}

#[test]
fn byte_order_is_strs_order() {
    for (a, b) in [("a", "b"), ("a", "ab"), ("", "a"), ("ab", "b"), ("cat", "cats"), ("Z", "a"), ("same", "same")] {
        assert_eq!(lex_before(a.as_bytes(), b.as_bytes()), a < b, "{a} {b}");
        assert_eq!(lex_before(b.as_bytes(), a.as_bytes()), b < a, "{b} {a}");
    }
}

#[test]
fn an_empty_run_makes_no_packs_and_a_long_one_fills_whole_packs() {
    assert!(pack_runs(10, 0).is_empty());
    let runs = pack_runs(0, 250);
    assert_eq!(runs, vec![(0, 0, 100), (1, 100, 200), (2, 200, 250)]);
    assert_eq!(pack_json(&Vec::new()), "[]");
    assert_eq!(pack_json(&vec!["{}".to_string(), "{}".to_string()]), "[{},{}]");
}
