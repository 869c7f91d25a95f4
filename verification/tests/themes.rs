// The themes file the game ships with is not part of this repository, so the
// tests write one of their own with every scheduled theme in it.

use word_legend_app::dictionary::Dictionary;
use word_legend_app::rotation::{ROTATION_THEMES, SEASONAL_THEMES};
use word_legend_app::themes::{Themes, MAX_THEME_WORD, MIN_THEME_WORD};

fn themes_text() -> String {
    let mut names: Vec<&str> = ROTATION_THEMES.iter().chain(SEASONAL_THEMES.iter()).copied().collect();
    names.push("Countries");
    let mut text = String::from("# Categories a board can be built around.\n");
    for (i, name) in names.iter().enumerate() {
        text.push_str(&format!("[{name}]\n"));
        for j in 0..12u8 {
            let a = (b'a' + (i as u8 % 26)) as char;
            let b = (b'a' + j) as char;
            text.push_str(&format!("{a}{b}q\n"));
        }
        if *name == "Animals" {
            text.push_str("Otter\nelephant\n");
        }
        if *name == "Countries" {
            text.push_str("cuba\n");
        }
        text.push('\n');
    }
    text.push_str("[Tiny]\ncat\ndog\n");
    text
}

#[test]
fn categories_load_with_plantable_words() {
    let themes = Themes::load(&themes_text());
    assert!(themes.list.len() >= 15, "only {} themes", themes.list.len());

    for theme in &themes.list {
        assert!(!theme.name.is_empty());
        assert!(theme.plantable.len() >= 12, "{} is too small", theme.name);
        for word in &theme.plantable {
            assert!((MIN_THEME_WORD..=MAX_THEME_WORD).contains(&word.len()));
            assert!(theme.all.contains(word));
        }
    }
}

#[test]
fn the_named_categories_are_present() {
    let themes = Themes::load(&themes_text());
    for name in ["Animals", "Food", "Countries", "Verbs", "Science"] {
        assert!(themes.get(name).is_some(), "missing {name}");
    }
    assert!(themes.get("Animals").unwrap().all.iter().any(|w| w == "otter"));
    assert!(themes.get("Countries").unwrap().all.iter().any(|w| w == "cuba"));
}

#[test]
fn theme_words_are_playable() {
    let text = themes_text();
    let dict = Dictionary::from_lists("", "", &text);
    let themes = Themes::load(&text);
    for theme in &themes.list {
        for word in &theme.plantable {
            assert!(dict.contains(word), "{}: {word} is not accepted", theme.name);
        }
    }
}

#[test]
fn a_small_category_is_dropped_and_long_words_are_not_planted() {
    let themes = Themes::load(&themes_text());
    assert!(themes.get("Tiny").is_none());
    let animals = themes.get("Animals").unwrap();
    assert!(animals.all.iter().any(|w| w == "elephant"));
    assert!(!animals.plantable.iter().any(|w| w == "elephant"));
    assert!(animals.has_word("otter"));
    assert!(!animals.has_word("zebra"));
}
