use std::collections::HashSet;
use word_legend_app::identity::{check_name, Identity, NameError, ALPHABET};

#[test]
fn generated_ids_are_unique_and_well_formed() {
    let ids: HashSet<String> = (0..2_000).map(|_| Identity::generate(rand::random::<[u8; 10]>()).id).collect();
    assert_eq!(ids.len(), 2_000, "ids collided");
    for id in &ids {
        assert_eq!(id.len(), 16);
        assert!(id.bytes().all(|b| ALPHABET.contains(&b)), "{id} has a stray character");
    }
}

#[test]
fn a_code_survives_being_written_down_and_typed_back() {
    let me = Identity::generate(rand::random::<[u8; 10]>());
    let code = me.recovery_code();
    assert_eq!(code.len(), 19, "expected four groups of four: {code}");

    for variant in [
        code.clone(),
        code.to_lowercase(),
        code.replace('-', " "),
        code.replace('-', ""),
        format!("  {code}  "),
    ] {
        let back = Identity::from_recovery(&variant).expect("should parse");
        assert_eq!(back.id, me.id, "{variant} did not round-trip");
    }
}

#[test]
fn confusable_characters_are_folded() {
    let me = Identity { id: "0123456789ABCDEF".to_string(), name: String::new() };
    let typed = "O123-456789-ABCDEF".replace('-', "");
    assert_eq!(Identity::from_recovery(&typed).unwrap().id, me.id);
}

#[test]
fn a_wrong_length_code_is_refused() {
    assert!(Identity::from_recovery("").is_none());
    assert!(Identity::from_recovery("ABCD-EFGH").is_none());
    assert!(Identity::from_recovery("0123456789ABCDEF0").is_none());
}

#[test]
fn names_are_checked_before_they_are_claimed() {
    assert_eq!(check_name("  tanner  ").unwrap(), "tanner");
    assert_eq!(check_name("word_legend-1").unwrap(), "word_legend-1");
    assert_eq!(check_name("ab"), Err(NameError::TooShort));
    assert_eq!(check_name(&"x".repeat(17)), Err(NameError::TooLong));
    assert_eq!(check_name("hey there"), Err(NameError::BadCharacter));
    assert_eq!(check_name("drop table"), Err(NameError::BadCharacter));
}

#[test]
fn ten_bytes_are_sixteen_characters_of_base32() {
    let id = word_legend_app::identity::encode(&[0u8; 10]);
    assert_eq!(id, "0000000000000000");
    let id = word_legend_app::identity::encode(&[255u8; 10]);
    assert_eq!(id, "ZZZZZZZZZZZZZZZZ");
    assert_eq!(word_legend_app::identity::encode(&[0x08]), "10");
}

#[test]
fn stray_characters_are_dropped_and_u_reads_as_v() {
    assert!(Identity::from_recovery("0123456789ABCDE!").is_none());
    assert_eq!(Identity::from_recovery("0123456789abcdeu").unwrap().id, "0123456789ABCDEV");
    assert_eq!(Identity::from_recovery("il0123456789ABCD").unwrap().id, "110123456789ABCD");
}

#[test]
fn an_identity_saved_and_loaded_is_the_same_identity() {
    let me = Identity { id: "0123456789ABCDEF".to_string(), name: "wordfan".to_string() };
    let text = me.store();
    assert_eq!(text, "id=0123456789ABCDEF\nname=wordfan\n");
    assert_eq!(Identity::load(Some(&text)), Some(me));
}

#[test]
fn a_save_without_an_id_is_no_account() {
    assert_eq!(Identity::load(None), None);
    assert_eq!(Identity::load(Some("name=someone\n")), None);
    assert_eq!(Identity::load(Some("id=   \nname=x\n")), None);
    let loaded = Identity::load(Some("junk\r\nid= ABC \r\n")).unwrap();
    assert_eq!(loaded.id, "ABC");
    assert_eq!(loaded.name, "");
}

#[test]
fn each_refusal_says_why() {
    assert_eq!(NameError::TooShort.message(), "At least 3 characters");
    assert_eq!(NameError::TooLong.message(), "At most 16 characters");
    assert_eq!(NameError::BadCharacter.message(), "Letters, numbers, - and _ only");
}

#[test]
fn an_id_spells_its_bytes_five_bits_at_a_time() {
    assert_eq!(Identity::generate([0; 10]).id, "0000000000000000");
    assert_eq!(Identity::generate([255; 10]).id, "ZZZZZZZZZZZZZZZZ");
    assert_eq!(Identity::generate([0, 0, 0, 0, 1, 0, 0, 0, 0, 0]).id, "0000000100000000");
    assert_eq!(Identity::generate([0; 10]).name, "");
}
