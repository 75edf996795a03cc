use zstdchess::decimal::{number, parse_i32, push_left, push_number, push_right, push_signed};
use zstdchess::text::{ends_with, join, same, starts_with, trim_end, white_space};

#[test]
fn white_space_is_that_of_unicode() {
    for c in '\0'..=char::MAX {
        assert_eq!(white_space(c), c.is_whitespace(), "{:?}", c);
    }
}

#[test]
fn trims_line_ends() {
    for s in ["", " ", "a", "a\n", "a\r\n", " a b \t\n", "é\u{3000}\n", "\n\n", "a\u{200b}"] {
        assert_eq!(trim_end(s), s.trim_end());
    }
    assert_eq!(trim_end("[Event \"x\"]\r\n"), "[Event \"x\"]");
}

#[test]
fn compares_prefixes_and_suffixes() {
    for s in ["", "a", "ab", "é", "éa", "aé", "bracket_600_799.pgn", "è"] {
        for p in ["", "a", "b", "é", "aé", "bracket_", ".pgn", "\u{e8}"] {
            assert_eq!(starts_with(s, p), s.starts_with(p));
            assert_eq!(ends_with(s, p), s.ends_with(p));
            assert_eq!(same(s, p), s == p);
        }
    }
}

#[test]
fn joins_with_a_separator() {
    let none: Vec<String> = vec![];
    assert_eq!(join(&none, ", "), "");
    assert_eq!(join(&vec!["a".to_string()], ", "), "a");
    assert_eq!(
        join(&vec!["a".to_string(), "".to_string(), "b".to_string()], ", "),
        "a, , b"
    );
}

#[test]
fn reads_numbers_as_std_does() {
    for s in [
        "", "+", "-", "0", "-0", "+7", "1500", "-1500", "007", "2147483647", "2147483648",
        "-2147483648", "-2147483649", "99999999999999999999999999", " 1", "1 ", "1_000", "?", "12a",
        "--1", "+-1", "é", "1é", "\u{663}",
    ] {
        assert_eq!(parse_i32(s), s.parse::<i32>().ok(), "{:?}", s);
    }
    assert_eq!(parse_i32("1832"), Some(1832));
}

#[test]
fn writes_numbers_as_std_does() {
    for n in [0, 9, 10, 99, 100, 12345, 4294967295, u64::MAX] {
        assert_eq!(number(n), n.to_string());
        let mut s = "n=".to_string();
        push_number(&mut s, n);
        assert_eq!(s, format!("n={}", n));
    }
    for n in [0, 1, -1, i32::MAX, i32::MIN] {
        let mut s = String::new();
        push_signed(&mut s, n);
        assert_eq!(s, n.to_string());
    }
}

#[test]
fn pads_columns_as_std_does() {
    for t in ["", "a", "é", "abcdef", "abcdefg"] {
        let mut l = "|".to_string();
        push_left(&mut l, t, 6);
        assert_eq!(l, format!("|{:<6}", t));
        let mut r = "|".to_string();
        push_right(&mut r, t, 6);
        assert_eq!(r, format!("|{:>6}", t));
    }
}
