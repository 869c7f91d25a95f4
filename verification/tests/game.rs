// The word lists the game ships with are not part of this repository, so the
// tests build their dictionaries from lists of their own.

use rand::rngs::StdRng;
use rand::{Rng, SeedableRng};
use std::collections::HashSet;
use word_legend_app::dictionary::Dictionary;
use word_legend_app::solver::solve_board;
use word_legend_app::game::{
    board_is_good, derive_grid, find_path, generate_board_local, generate_board_seeded, is_adjacent, letter_bonus,
    neighbours, parse_grid, path_through, plant_word, word_points, worst_tile, Cell, Grid,
    Position, DERIVE_ATTEMPTS, DICE, MIN_SOLUTIONS, MIN_TILE_COVERAGE, RESULTS_SECONDS, ROUND_SECONDS, SIZE,
};

fn board(rows: [&'static str; 4]) -> Grid {
    std::array::from_fn(|row| std::array::from_fn(|col| Cell { letters: &rows[row][col..col + 1] }))
}

fn fixture() -> Dictionary {
    Dictionary::from_lists(
        "adit\nherd\nhero\nher\nhe\nwars\nwar\ncat\ncats\nact\nsat\ntac\ncharacterization\n",
        "herd\nhero\nher\nwars\nwar\ncat\ncats\nact\nsat\ntac\ncharacterization\n",
        "",
    )
}

/// Every word of three letters.
fn every_three_letters() -> Dictionary {
    let mut list = String::new();
    for a in b'a'..=b'z' {
        for b in b'a'..=b'z' {
            for c in b'a'..=b'z' {
                list.push(a as char);
                list.push(b as char);
                list.push(c as char);
                list.push('\n');
            }
        }
    }
    Dictionary::from_lists("", &list, "")
}

/// Walk a word's letters over the grid and confirm it can be traced: adjacent
/// steps, no tile used twice.
fn is_traceable(grid: &Grid, word: &str) -> bool {
    fn step(grid: &Grid, rest: &str, at: Position, used: u16) -> bool {
        let bit = 1u16 << (at.row * SIZE + at.col);
        if used & bit != 0 {
            return false;
        }
        let letters = grid[at.row][at.col].letters;
        let Some(tail) = rest.strip_prefix(letters) else { return false };
        if tail.is_empty() {
            return true;
        }
        neighbours(at).into_iter().any(|n| step(grid, tail, n, used | bit))
    }
    (0..SIZE).flat_map(|r| (0..SIZE).map(move |c| Position { row: r, col: c })).any(|start| step(grid, word, start, 0))
}

fn letters(g: &Grid) -> Vec<String> {
    (0..SIZE).map(|r| (0..SIZE).map(|c| g[r][c].letters).collect::<String>()).collect()
}

#[test]
fn scoring_rewards_length() {
    assert_eq!(word_points(2), 0);
    assert_eq!(word_points(3), 100);
    assert_eq!(word_points(7), 1_800);
    assert_eq!(word_points(9), 2_600);
    assert!(word_points(7) > word_points(3) * 4);
}

#[test]
fn adjacency_includes_diagonals_but_not_self() {
    let a = Position { row: 1, col: 1 };
    assert!(is_adjacent(a, Position { row: 0, col: 0 }));
    assert!(is_adjacent(a, Position { row: 2, col: 1 }));
    assert!(!is_adjacent(a, a));
    assert!(!is_adjacent(a, Position { row: 3, col: 1 }));
}

#[test]
fn solver_reports_only_common_words() {
    let dict = fixture();

    let common = board(["wars", "zzzz", "zzzz", "zzzz"]);
    assert!(solve_board(&dict, &common).common.iter().any(|w| w == "wars"));

    let grid = board(["adit", "zzzz", "zzzz", "zzzz"]);
    let words = solve_board(&dict, &grid);
    assert!(dict.contains("adit"));
    assert!(!words.common.iter().any(|w| w == "adit"));
    assert!(words.obscure.iter().any(|w| w == "adit"));
}

#[test]
fn solver_finds_traceable_words_only() {
    let dict = fixture();
    // "herd" traces across the top row; "hero" would need a non-adjacent jump.
    let grid = board(["herd", "zzzz", "zzzo", "zzzz"]);
    let words = solve_board(&dict, &grid).common;
    assert!(words.iter().any(|w| w == "herd"));
    assert!(!words.iter().any(|w| w == "hero"));
}

#[test]
fn solver_returns_longest_first() {
    let dict = fixture();
    let grid = board(["herd", "zzzz", "zzzz", "zzzz"]);
    let words = solve_board(&dict, &grid).common;
    assert!(words.windows(2).all(|w| w[0].len() >= w[1].len()));
}

#[test]
fn solver_counts_the_words_through_each_tile() {
    let dict = fixture();
    let grid = board(["herd", "zzzz", "zzzz", "zzzz"]);
    let words = solve_board(&dict, &grid);
    assert_eq!(words.common, vec!["herd".to_string(), "her".to_string()]);
    assert_eq!(words.coverage[0], [2, 2, 2, 1]);
    assert_eq!(words.coverage[1], [0, 0, 0, 0]);
    assert!(words.obscure.is_empty() && words.theme.is_empty());
}

#[test]
fn generated_boards_are_word_rich() {
    let dict = every_three_letters();
    let (_, words, _) = generate_board_local(&dict, &mut StdRng::seed_from_u64(5));
    assert!(words.common.len() >= MIN_SOLUTIONS, "got {} words", words.common.len());
}

#[test]
fn any_word_on_the_board_has_a_path() {
    let grid = board(["cats", "zazz", "zzzz", "zzzz"]);
    let path = find_path(&grid, "cats").expect("cats is on the board");
    let spelled: String = path.iter().map(|p| grid[p.row][p.col].letters).collect();
    assert_eq!(spelled, "cats");
    assert!(find_path(&grid, "dogs").is_none());
}

#[test]
fn a_path_through_a_tile_passes_it() {
    let grid = board(["cats", "zazz", "zzzz", "zzzz"]);
    let through = Position { row: 1, col: 1 };
    let path = path_through(&grid, "cat", through).expect("the second a makes another cat");
    assert!(path.contains(&through));
    assert!(path_through(&grid, "cat", Position { row: 3, col: 3 }).is_none());
}

#[test]
fn a_planted_word_can_actually_be_traced() {
    let mut rng = StdRng::seed_from_u64(17);
    for word in ["otter", "cuba", "violin", "battle", "sun"] {
        let mut cells: [[Option<&'static str>; SIZE]; SIZE] = Default::default();
        assert!(plant_word(&mut cells, word, &mut rng), "could not plant {word}");

        let grid: Grid = std::array::from_fn(|row| {
            std::array::from_fn(|col| Cell { letters: cells[row][col].unwrap_or("z") })
        });
        assert!(is_traceable(&grid, word), "{word} was planted but cannot be traced");
    }
}

#[test]
fn planting_leaves_the_grid_clean_when_it_fails() {
    let mut rng = StdRng::seed_from_u64(17);
    let mut cells: [[Option<&'static str>; SIZE]; SIZE] = Default::default();
    // Seventeen letters cannot fit on sixteen tiles without reuse.
    assert!(!plant_word(&mut cells, "abcdefghijklmnopq", &mut rng));
    assert!(cells.iter().flatten().all(|c| c.is_none()), "a failed planting left letters behind");
}

#[test]
fn a_seed_always_builds_the_same_board() {
    let dict = fixture();
    for seed in [0u64, 1, 42, 9_999, u64::MAX] {
        let (grid_a, words_a, theme_a) = generate_board_seeded(&dict, seed);
        let (grid_b, words_b, theme_b) = generate_board_seeded(&dict, seed);
        assert_eq!(letters(&grid_a), letters(&grid_b), "seed {seed} drifted");
        assert_eq!(theme_a, theme_b, "seed {seed} changed theme");
        assert_eq!(words_a.common, words_b.common, "seed {seed} changed solutions");
    }
}

#[test]
fn every_tile_appears_in_at_least_two_words() {
    let dict = every_three_letters();
    for seed in 0..25u64 {
        let (grid, words, _) = generate_board_seeded(&dict, seed);
        let worst = worst_tile(&words);
        assert!(worst >= MIN_TILE_COVERAGE, "seed {seed}: a tile appears in only {worst} words\n{:?}", letters(&grid));
    }
}

#[test]
fn a_dead_tile_fails_the_quality_bar() {
    let dict = fixture();
    let grid = board(["zzzz", "zzzz", "zzzz", "zzzz"]);
    let words = solve_board(&dict, &grid);
    assert_eq!(worst_tile(&words), 0);
    assert!(!board_is_good(&words));
}

#[test]
fn different_seeds_build_different_boards() {
    let dict = fixture();
    let boards: HashSet<String> = (0..20).map(|seed| letters(&generate_board_seeded(&dict, seed).0).join("/")).collect();
    assert!(boards.len() >= 19, "only {} distinct boards from 20 seeds", boards.len());
}

#[test]
fn a_round_is_three_minutes_then_half_a_minute_of_results() {
    assert_eq!(ROUND_SECONDS, 180);
    assert_eq!(RESULTS_SECONDS, 30);
    assert_eq!(ROUND_SECONDS + RESULTS_SECONDS, 210);
}

#[test]
fn a_server_board_is_read_in_either_case() {
    let tiles: Vec<String> = ["C", "a", "m", "e", "e", "r", "s", "w", "a", "h", "m", "o", "l", "i", "e", "QU"]
        .iter()
        .map(|s| s.to_string())
        .collect();
    let grid = parse_grid(&tiles).expect("sixteen readable tiles");
    assert_eq!(letters(&grid), ["came", "ersw", "ahmo", "liequ"]);
    let mut short = tiles.clone();
    short.pop();
    assert!(parse_grid(&short).is_none());
    let mut odd = tiles;
    odd[3] = "ab".to_string();
    assert!(parse_grid(&odd).is_none());
}

#[test]
fn a_tile_has_up_to_eight_neighbours() {
    assert_eq!(neighbours(Position { row: 0, col: 0 }).len(), 3);
    assert_eq!(neighbours(Position { row: 1, col: 2 }).len(), 8);
    assert_eq!(neighbours(Position { row: 3, col: 1 }).len(), 5);
}

#[test]
fn the_letter_bonus_tops_out_at_2500() {
    assert_eq!(letter_bonus(&[[2; SIZE]; SIZE]), 2_500);
    assert_eq!(letter_bonus(&[[9; SIZE]; SIZE]), 2_500, "a third use earns nothing more");
    assert_eq!(letter_bonus(&[[1; SIZE]; SIZE]), 16 * 25 + 500);
    assert_eq!(letter_bonus(&[[0; SIZE]; SIZE]), 0);
}

#[test]
fn each_letter_past_eight_adds_400() {
    for len in 9..=16 {
        assert_eq!(word_points(len), word_points(len - 1) + 400, "{len} letters");
    }
    assert!(word_points(7) > 4 * word_points(3));
}

/// The grid a seed derives, worked out here straight from `rand`: roll after
/// roll of a die and a face for each tile, the first that has 4 to 8 vowels
/// and at most 2 of j, q, v, x and z, else the first roll.
fn derived_by_hand(seed: u64) -> Vec<String> {
    let mut rng = StdRng::seed_from_u64(seed);
    let mut first: Option<Vec<String>> = None;
    for _ in 0..DERIVE_ATTEMPTS {
        let tiles: Vec<String> = (0..16)
            .map(|_| {
                let die = rng.gen_range(0..16usize);
                let face = DICE[die][rng.gen_range(0..6usize)];
                if face == b'q' { "qu".to_string() } else { (face as char).to_string() }
            })
            .collect();
        let text = tiles.concat();
        let vowels = text.bytes().filter(|b| b"aeiou".contains(b)).count();
        let awkward = text.bytes().filter(|b| b"jqvxz".contains(b)).count();
        if (4..=8).contains(&vowels) && awkward <= 2 {
            return tiles;
        }
        first.get_or_insert(tiles);
    }
    first.unwrap()
}

#[test]
fn a_derived_grid_is_the_seeded_generators_roll() {
    for seed in [0u64, 1, 7, 42, 1234, 9_999, u64::MAX] {
        let grid = derive_grid(seed);
        let shown: Vec<String> = grid.iter().flatten().map(|cell| cell.letters.to_string()).collect();
        assert_eq!(shown, derived_by_hand(seed), "seed {seed}");
        assert_eq!(letters(&derive_grid(seed)), letters(&grid), "seed {seed} drifted");
    }
    assert_ne!(letters(&derive_grid(1)), letters(&derive_grid(2)));
}

#[test]
fn a_path_may_cross_a_tile_that_shows_nothing() {
    let mut grid = board(["cxat", "zzzz", "zzzz", "zzzz"]);
    grid[0][1] = Cell { letters: "" };
    let path = find_path(&grid, "cat").expect("c, the blank tile, a, t spells cat");
    assert_eq!(path.len(), 4);
    assert_eq!(path[1], Position { row: 0, col: 1 });
    assert!(find_path(&grid, "cab").is_none());
}

#[test]
fn a_blank_tile_adds_no_letters_to_the_words_through_it() {
    let dict = Dictionary::from_lists("cat\ncats\nact\n", "cat\ncats\nact\n", "");
    let mut grid = board(["cxat", "zzzz", "zzzz", "zzzz"]);
    grid[0][1] = Cell { letters: "" };
    let words = solve_board(&dict, &grid);
    assert_eq!(words.common, vec!["cat".to_string()]);
    assert!(words.obscure.is_empty());
    assert!(words.theme.is_empty());
    for col in 0..4 {
        assert_eq!(words.coverage[0][col], 1, "tile (0, {col}) lies on c, blank, a, t");
    }
    assert_eq!(words.coverage[1][0], 0);
}

#[test]
fn the_walk_stops_where_no_word_goes_on() {
    // "cat" is spelled on the first three tiles; nothing goes on past it, so
    // the blank tile after it is never walked onto.
    let dict = Dictionary::from_lists("cat\n", "cat\n", "");
    let mut grid = board(["catx", "zzzz", "zzzz", "zzzz"]);
    grid[0][3] = Cell { letters: "" };
    let words = solve_board(&dict, &grid);
    assert_eq!(words.common, vec!["cat".to_string()]);
    assert_eq!(words.coverage[0][2], 1);
    assert_eq!(words.coverage[0][3], 0);
    assert!(path_through(&grid, "cat", Position { row: 0, col: 3 }).is_none());
}
