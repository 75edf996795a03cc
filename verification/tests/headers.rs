use zstdchess::headers::{can_parse_header, parse_header, GameHeaders};

#[test]
fn reads_a_tag_pair() {
    assert_eq!(parse_header("[Event \"Rated Rapid game\"]"), Some(("Event", "Rated Rapid game")));
    assert_eq!(parse_header("[White \"\"]"), Some(("White", "")));
    assert_eq!(parse_header("[ \"\"]"), Some(("", "")));
    assert_eq!(parse_header("[White \"é\"]"), Some(("White", "é")));
    assert_eq!(parse_header("[a \"b\"c\"]"), Some(("a", "b\"c")));
    assert_eq!(parse_header("xA \"b\"]"), Some(("A", "b")));
}

#[test]
fn refuses_what_is_no_tag_pair() {
    assert_eq!(parse_header(""), None);
    assert_eq!(parse_header("[]"), None);
    assert_eq!(parse_header("[ab]"), None);
    assert_eq!(parse_header("[Event \"x\""), None);
    assert_eq!(parse_header("[Event x]"), None);
    assert_eq!(parse_header("[Event \"x]"), None);
    assert_eq!(parse_header("[Event x\"]"), None);
    assert_eq!(parse_header("[Event  \"x\"]"), None);
    assert_eq!(parse_header("[Event ]"), None);
    assert_eq!(parse_header("é]"), None);
}

#[test]
fn tells_lines_that_cannot_be_read() {
    assert!(!can_parse_header("[a \"]"));
    assert!(!can_parse_header("[ \"]"));
    assert!(!can_parse_header("éa \"b\"]"));
    assert!(!can_parse_header("éa]"));
    assert!(can_parse_header("é]"));
    assert!(can_parse_header("éa \"b\""));
    assert!(can_parse_header("[a \"\"]"));
    assert!(can_parse_header("[a \"b]"));
}

#[test]
fn every_value_reads_back() {
    for value in ["", "600+0", "a \"quoted\" b", "\"", "]", "ü ♞"] {
        let line = format!("[Key \"{}\"]", value);
        assert!(can_parse_header(&line));
        assert_eq!(parse_header(&line), Some(("Key", value)));
    }
}

#[test]
fn headers_take_over_eight_keys() {
    let mut h = GameHeaders::new();
    assert_eq!(h.event, "");
    h.set("Event", "e");
    h.set("TimeControl", "t");
    h.set("WhiteTitle", "wt");
    h.set("BlackTitle", "bt");
    h.set("White", "w");
    h.set("Black", "b");
    h.set("WhiteElo", "1");
    h.set("BlackElo", "2");
    h.set("Site", "s");
    h.set("event", "x");
    assert_eq!(h.event, "e");
    assert_eq!(h.time_control, "t");
    assert_eq!(h.white_title, "wt");
    assert_eq!(h.black_title, "bt");
    assert_eq!(h.white, "w");
    assert_eq!(h.black, "b");
    assert_eq!(h.white_elo, "1");
    assert_eq!(h.black_elo, "2");
    h.set("Event", "again");
    assert_eq!(h.event, "again");
    h.clear();
    for value in [
        &h.event,
        &h.time_control,
        &h.white_title,
        &h.black_title,
        &h.white,
        &h.black,
        &h.white_elo,
        &h.black_elo,
    ] {
        assert_eq!(value, "");
    }
}

#[test]
fn headers_are_read_off_lines() {
    let mut h = GameHeaders::new();
    h.read_line("[White \"Alice\"]");
    h.read_line("[Round \"1\"]");
    h.read_line("no header");
    assert_eq!(h.white, "Alice");
    assert_eq!(h.black, "");
}
