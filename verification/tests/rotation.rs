// The superword and theme lists the game ships with are not part of this
// repository, so the tests write lists of their own: a hundred made-up words
// of sixteen letters each, and every scheduled theme.

use rand::rngs::StdRng;
use rand::SeedableRng;
use std::collections::HashSet;
use word_legend_app::dictionary::Dictionary;
use word_legend_app::game::{board_is_good, SIZE};
use word_legend_app::rotation::{
    build_superword_board, kind_for_slot, season_for_month, superwords, word_tiles, RoundKind, SoloRotation,
    ROTATION_THEMES, SEASONAL_THEMES, SUPERWORD_EVERY,
};
use word_legend_app::themes::Themes;
use word_legend_app::game::{Cell, Grid};
use word_legend_app::rotation::{
    letter_for_pick, rotation_start, theme_try, ThemeTry, score_theme_board, tiles_filled, weighted_letter, LETTER_WEIGHTS, TOTAL_WEIGHT,
    WEIGHTED_LETTERS,
};

fn superword_list() -> String {
    let mut text = String::from("# Words that fill the whole board.\n\n");
    for k in 0..100u32 {
        let a = (b'a' + (k / 26) as u8) as char;
        let b = (b'a' + (k % 26) as u8) as char;
        text.push_str(&format!("  ABCDEFGHIJKLMN{a}{b}\n"));
    }
    text
}

fn themes_text() -> String {
    let mut text = String::new();
    for (i, name) in ROTATION_THEMES.iter().chain(SEASONAL_THEMES.iter()).enumerate() {
        text.push_str(&format!("[{name}]\n"));
        for j in 0..12u8 {
            let a = (b'a' + (i as u8 % 26)) as char;
            let b = (b'a' + j) as char;
            text.push_str(&format!("{a}{b}q\n"));
        }
    }
    text
}

/// Every word of three letters, and the long pieces of one superword.
fn rich_dictionary(superword: &str) -> Dictionary {
    let mut list = String::new();
    for a in b'a'..=b'z' {
        for b in b'a'..=b'z' {
            for c in b'a'..=b'z' {
                list.push(a as char);
                list.push(b as char);
                list.push(c as char);
                list.push('\n');
            }
        }
    }
    for len in 6..=superword.len() {
        for start in 0..=superword.len() - len {
            list.push_str(&superword[start..start + len]);
            list.push('\n');
        }
    }
    Dictionary::from_lists("", &list, "")
}

#[test]
fn every_superword_fills_the_board_and_is_a_common_word() {
    let list = superword_list();
    let dict = Dictionary::from_lists("", &list, "");
    let words = superwords(&list);
    assert!(words.len() >= 100, "only {} superwords: fewer than one per 1000 rounds' blocks", words.len());
    let mut seen = HashSet::new();
    for word in &words {
        assert_eq!(word_tiles(word).map(|t| t.len()), Some(SIZE * SIZE), "{word} does not fill 16 tiles");
        assert!(dict.contains(word), "{word} is not accepted");
        assert!(seen.insert(word.clone()), "{word} is listed twice");
    }
}

#[test]
fn every_fifth_round_is_a_superword_board() {
    let words = superwords(&superword_list());
    for slot in 0..3_000u64 {
        let superword = matches!(kind_for_slot(slot, &words, None), RoundKind::Superword(_));
        assert_eq!(superword, slot % 5 == 4, "slot {slot}: superword board {superword}");
    }
    assert_eq!(1_000 % SUPERWORD_EVERY, 0);
}

#[test]
fn solo_play_serves_a_superword_board_every_fifth_round() {
    let list = superword_list();
    let dict = Dictionary::from_lists("", &list, "");
    let mut rng = StdRng::seed_from_u64(1);
    let mut solo = SoloRotation::new(superwords(&list));
    let supers: Vec<bool> = (0..10)
        .map(|_| {
            let (_, words, _) = solo.next_board(&dict, &mut rng);
            words.common.iter().any(|w| word_tiles(w).is_some_and(|t| t.len() == SIZE * SIZE))
        })
        .collect();
    assert_eq!(supers, [false, false, false, false, true, false, false, false, false, true]);
}

#[test]
fn superwords_do_not_repeat_until_the_list_runs_out() {
    let words = superwords(&superword_list());
    let dealt: Vec<String> = (0..words.len() as u64)
        .map(|b| match kind_for_slot(b * SUPERWORD_EVERY + 4, &words, None) {
            RoundKind::Superword(w) => w,
            RoundKind::Themed(t) => panic!("a themed round {t} where a superword belongs"),
        })
        .collect();
    let distinct: HashSet<&String> = dealt.iter().collect();
    assert_eq!(distinct.len(), words.len());
}

#[test]
fn themes_rotate_evenly_and_never_back_to_back() {
    let words = superwords(&superword_list());
    let themed: Vec<String> = (0..2_000u64)
        .filter_map(|slot| match kind_for_slot(slot, &words, None) {
            RoundKind::Themed(t) => Some(t),
            RoundKind::Superword(_) => None,
        })
        .collect();
    assert_eq!(themed.len(), 1_600);
    for pair in themed.windows(2) {
        assert_ne!(pair[0], pair[1], "the same theme twice in a row");
    }
    for name in ROTATION_THEMES {
        let count = themed.iter().filter(|t| *t == name).count();
        assert_eq!(count, 160, "{name} came up {count} times in 1600 themed rounds");
    }
}

#[test]
fn a_superword_board_spells_its_word_across_every_tile() {
    let dict = rich_dictionary("characterization");
    let mut rng = StdRng::seed_from_u64(3);
    let (grid, words) = build_superword_board(&dict, "characterization", &mut rng).expect("a board");
    assert!(words.common.iter().any(|w| w == "characterization"), "the superword is not findable");
    assert!(board_is_good(&words), "the superword board does not clear the quality bar");
    let letters: usize = grid.iter().flatten().map(|c| c.letters.len()).sum();
    assert_eq!(letters, 16);
}

#[test]
fn a_word_that_cannot_fill_the_board_builds_no_superword_board() {
    let dict = Dictionary::from_lists("", "short\n", "");
    let mut rng = StdRng::seed_from_u64(3);
    assert!(build_superword_board(&dict, "short", &mut rng).is_none());
    assert!(build_superword_board(&dict, "quixotically-odd", &mut rng).is_none());
}

#[test]
fn every_rotation_and_seasonal_theme_exists() {
    let themes = Themes::load(&themes_text());
    for name in ROTATION_THEMES.iter().chain(SEASONAL_THEMES.iter()) {
        assert!(themes.list.iter().any(|t| t.name == *name), "{name} is scheduled but not in the themes");
    }
    for name in SEASONAL_THEMES {
        assert!(!ROTATION_THEMES.contains(&name), "{name} is seasonal; it must not also rotate year-round");
    }
}

#[test]
fn each_month_favours_its_season() {
    assert_eq!(season_for_month(9), Some("Fall"));
    assert_eq!(season_for_month(10), Some("Halloween"));
    assert_eq!(season_for_month(11), Some("Thanksgiving"));
    assert_eq!(season_for_month(12), Some("Christmas"));
    assert_eq!(season_for_month(1), Some("Winter"));
    assert_eq!(season_for_month(2), Some("Valentine's Day"));
    assert_eq!(season_for_month(3), Some("St. Patrick's Day"));
    assert_eq!(season_for_month(4), Some("Easter"));
    assert_eq!(season_for_month(5), Some("Spring"));
    assert_eq!(season_for_month(6), Some("Summer"));
    assert_eq!(season_for_month(7), Some("Fourth of July"));
    assert_eq!(season_for_month(8), Some("School"));
    assert_eq!(season_for_month(0), None);
    assert_eq!(season_for_month(13), None);

    let words = superwords(&superword_list());
    let kinds: Vec<RoundKind> = (0..2_000u64).map(|slot| kind_for_slot(slot, &words, Some("Halloween"))).collect();
    let themed: Vec<&str> = kinds
        .iter()
        .filter_map(|k| match k {
            RoundKind::Themed(t) => Some(t.as_str()),
            RoundKind::Superword(_) => None,
        })
        .collect();
    let halloween = themed.iter().filter(|t| **t == "Halloween").count();
    assert_eq!(halloween, 400, "the season should be one round in five");
    for name in ROTATION_THEMES {
        let count = themed.iter().filter(|t| **t == name).count();
        assert_eq!(count, 120, "{name} came up {count} times");
        assert!(halloween >= 3 * count);
    }
    for (slot, pair) in kinds.windows(2).enumerate() {
        assert_ne!(pair[0], pair[1], "rounds {slot} and {} repeat", slot + 1);
    }
    for (slot, kind) in kinds.iter().enumerate() {
        assert_eq!(matches!(kind, RoundKind::Superword(_)), slot % 5 == 4);
    }
}

#[test]
fn the_superword_list_skips_blanks_and_comments() {
    let words = superwords("# a comment\n\n  CharacteriZation \nmisunderstanding\n");
    assert_eq!(words, vec!["characterization".to_string(), "misunderstanding".to_string()]);
}

#[test]
fn a_qu_is_one_tile() {
    assert_eq!(word_tiles("quest").map(|t| t.len()), Some(4));
    assert_eq!(word_tiles("quest").unwrap()[0], "qu");
    assert_eq!(word_tiles("q").map(|t| t.len()), Some(1));
    assert!(word_tiles("don't").is_none());
}

#[test]
fn letters_are_drawn_in_runs_as_long_as_their_weights() {
    assert_eq!(LETTER_WEIGHTS.iter().sum::<u32>(), TOTAL_WEIGHT);
    assert_eq!(letter_for_pick(0), "a");
    assert_eq!(letter_for_pick(81), "a");
    assert_eq!(letter_for_pick(82), "b");
    assert_eq!(letter_for_pick(295 - 1), "e");
    assert_eq!(letter_for_pick(1000), "y");
    assert_eq!(letter_for_pick(1001), "z");
    assert!(!WEIGHTED_LETTERS.contains(&"q"), "a lone q would strand the board");
    let mut counts = std::collections::HashMap::new();
    for pick in 0..TOTAL_WEIGHT {
        *counts.entry(letter_for_pick(pick)).or_insert(0u32) += 1;
    }
    for (letter, weight) in WEIGHTED_LETTERS.iter().zip(LETTER_WEIGHTS.iter()) {
        assert_eq!(counts[letter], *weight, "{letter}");
    }
    let mut rng = StdRng::seed_from_u64(7);
    for _ in 0..200 {
        assert!(WEIGHTED_LETTERS.contains(&weighted_letter(&mut rng)));
    }
}

#[test]
fn a_themed_board_is_scored_by_its_theme_words_first() {
    let rows = ["catx", "xxxx", "xxxx", "xxxx"];
    let grid: Grid = std::array::from_fn(|r| std::array::from_fn(|c| Cell { letters: &rows[r][c..c + 1] }));
    assert!(tiles_filled(&grid));
    let dict = Dictionary::from_lists("cat\nact\n", "cat\nact\n", "");
    let themes = Themes::load("[Animals]\ncat\ncow\nant\nbee\ndog\neel\nfox\ngnu\nhen\nowl\npig\nyak\n");
    let scored = score_theme_board(&dict, &themes.list[0], &grid);
    assert_eq!(scored.words.theme, vec!["cat".to_string()]);
    // One theme word, one common word, nothing long, and an unused tile.
    assert_eq!(scored.score, 100 + 1);
    assert!(!scored.done);

    let mut blank = grid;
    blank[3][3] = Cell { letters: "" };
    assert!(!tiles_filled(&blank));
}

#[test]
fn a_themed_round_falls_back_along_the_rotation_from_its_own_theme() {
    assert_eq!(rotation_start("Animals"), Some(0));
    assert_eq!(rotation_start("Adjectives"), Some(9));
    assert_eq!(rotation_start("Math"), Some(6));
    assert_eq!(rotation_start("Winter"), None, "a seasonal theme is not in the rotation");
    assert_eq!(rotation_start("animals"), None);
}

#[test]
fn a_rotation_theme_falls_back_round_the_rotation_from_itself() {
    assert_eq!(theme_try("Math", 0), Some(ThemeTry::Rotation(6)));
    assert_eq!(theme_try("Math", 3), Some(ThemeTry::Rotation(9)));
    assert_eq!(theme_try("Math", 4), Some(ThemeTry::Rotation(0)), "the rotation wraps round");
    assert_eq!(theme_try("Math", 9), Some(ThemeTry::Rotation(5)));
    assert_eq!(theme_try("Math", 10), None, "then a plain board");
}

#[test]
fn a_seasonal_theme_is_tried_first_then_the_whole_rotation() {
    assert_eq!(theme_try("Winter", 0), Some(ThemeTry::Own));
    assert_eq!(theme_try("Winter", 1), Some(ThemeTry::Rotation(0)));
    assert_eq!(theme_try("Winter", 10), Some(ThemeTry::Rotation(9)));
    assert_eq!(theme_try("Winter", 11), None);
}
