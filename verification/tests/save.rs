use word_legend_app::game::Position;
use word_legend_app::round::SavedRound;

fn sample() -> SavedRound {
    SavedRound {
        round: None,
        grid: ["c", "a", "t", "s", "z", "z", "z", "z", "z", "z", "z", "z", "h", "e", "r", "qu"]
            .iter()
            .map(|s| s.to_string())
            .collect(),
        theme: None,
        time_left: 59_250,
        found: vec![
            ("cats".to_string(), vec![Position { row: 0, col: 0 }, Position { row: 0, col: 1 }, Position { row: 0, col: 2 }, Position { row: 0, col: 3 }]),
            ("her".to_string(), vec![Position { row: 3, col: 0 }, Position { row: 3, col: 1 }, Position { row: 3, col: 2 }]),
        ],
    }
}

#[test]
fn a_round_is_saved_as_key_value_lines() {
    let text = sample().to_text();
    assert_eq!(
        text,
        "round=solo\ngrid=c,a,t,s,z,z,z,z,z,z,z,z,h,e,r,qu\ntheme=\ntime_left=59.25\nfound=cats:0.1.2.3;her:12.13.14\n"
    );
}

#[test]
fn a_saved_round_reads_back_as_itself() {
    let s = sample();
    assert_eq!(SavedRound::from_text(&s.to_text()), Some(s));
    let mut shared = sample();
    shared.round = Some(123);
    shared.theme = Some("Animals".to_string());
    shared.time_left = 180_000;
    assert_eq!(SavedRound::from_text(&shared.to_text()), Some(shared));
}

#[test]
fn the_clock_is_read_in_seconds() {
    let base = "round=1\ngrid=a,a,a,a,a,a,a,a,a,a,a,a,a,a,a,a\n";
    let read = |t: &str| SavedRound::from_text(&format!("{base}time_left={t}\n")).unwrap().time_left;
    assert_eq!(read("90"), 90_000);
    assert_eq!(read("59.98333"), 59_983);
    assert_eq!(read(".5"), 500);
    assert_eq!(read("+2."), 2_000);
    assert_eq!(read("soon"), 0);
}

#[test]
fn a_damaged_save_is_no_round() {
    assert!(SavedRound::from_text("").is_none());
    assert!(SavedRound::from_text("grid=a,a,a,a,a,a,a,a,a,a,a,a,a,a,a,a\n").is_none(), "no round line");
    assert!(SavedRound::from_text("round=x\ngrid=a,a,a,a,a,a,a,a,a,a,a,a,a,a,a,a\n").is_none(), "a round that does not read");
    assert!(SavedRound::from_text("round=3\ngrid=a,b\n").is_none(), "too few tiles");
}

#[test]
fn words_that_do_not_read_are_left_out() {
    let text = "round=2\r\ngrid=a,a,a,a,a,a,a,a,a,a,a,a,a,a,a,a\r\nfound=cat:0.1.x;;dog;sun:5.6\r\n";
    let saved = SavedRound::from_text(text).unwrap();
    assert_eq!(saved.round, Some(2));
    assert_eq!(saved.found, vec![("sun".to_string(), vec![Position { row: 1, col: 1 }, Position { row: 1, col: 2 }])]);
    assert_eq!(saved.time_left, 0);
    assert_eq!(saved.theme, None);
}

#[test]
fn a_carriage_return_inside_a_line_reads_back() {
    let mut s = sample();
    s.grid[0] = "c\r".to_string();
    s.theme = Some("An\rimals".to_string());
    s.found[0].0 = "ca\rts".to_string();
    assert_eq!(SavedRound::from_text(&s.to_text()), Some(s));
    // One at the end of a line is taken for part of the line break.
    let mut t = sample();
    t.theme = Some("Animals\r".to_string());
    assert_eq!(SavedRound::from_text(&t.to_text()).unwrap().theme, Some("Animals".to_string()));
}
