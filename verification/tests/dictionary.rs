// The word lists the game ships with are not part of this repository, so the
// tests build their dictionaries from small lists of their own.

use word_legend_app::dictionary::Dictionary;

const ACCEPTED: &str = "an\nhero\nherd\nher\nquest\nusninic\naeolist\nwars\nadit\n";
const COMMON: &str = "herd\nhero\nher\nquest\nwars\n";

fn fixture() -> Dictionary {
    Dictionary::from_lists(ACCEPTED, COMMON, "")
}

#[test]
fn finds_real_words_and_rejects_junk() {
    let dict = fixture();
    assert!(dict.contains("hero"));
    assert!(dict.contains("herd"));
    assert!(dict.contains("QUEST"));
    assert!(!dict.contains("zzzzq"));
}

#[test]
fn short_words_are_excluded() {
    let dict = fixture();
    assert!(!dict.contains("an"));
}

#[test]
fn common_tier_excludes_obscurities() {
    let dict = fixture();
    let common = |w: &str| match dict.step_str(dict.root(), w) {
        Some(n) => dict.is_common_node(n),
        None => false,
    };
    // Accepted when traced, but never shown on a scorecard.
    assert!(dict.contains("usninic") && !common("usninic"));
    assert!(dict.contains("aeolist") && !common("aeolist"));
    assert!(common("herd") && common("quest"));
    assert!(dict.common_count() < dict.word_count());
}

#[test]
fn prefix_walk_prunes() {
    let dict = fixture();
    let node = dict.step_str(dict.root(), "her").unwrap();
    assert!(dict.is_word_node(node));
    assert!(dict.step_str(dict.root(), "xqz").is_none());
}

#[test]
fn the_common_tier_is_asked_by_word_in_any_case() {
    let dict = fixture();
    assert!(dict.is_common("HERD"));
    assert!(!dict.is_common("adit"));
    assert!(dict.contains("adit"));
    assert!(!dict.is_common("nothing"));
}

#[test]
fn a_list_line_is_trimmed_and_lowered() {
    let dict = Dictionary::from_lists("  Otter \r\nx\n", "", "");
    assert!(dict.contains("otter"));
    assert_eq!(dict.word_count(), 1);
    assert!(!dict.contains("x"));
}

#[test]
fn a_dead_end_has_no_word_past_it() {
    let dict = fixture();
    let quest = dict.step_str(dict.root(), "quest").unwrap();
    assert!(dict.is_dead_end(quest));
    let he = dict.step_str(dict.root(), "he").unwrap();
    assert!(!dict.is_dead_end(he));
    assert!(!dict.is_word_node(he));
}
