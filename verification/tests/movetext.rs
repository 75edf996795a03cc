use zstdchess::movetext::{can_count, count_plies, scan_plies};

#[test]
fn counts_lichess_movetext_with_clocks() {
    let mt = "1. e4 { [%clk 0:10:00] } 1... e5 { [%clk 0:10:00] } 2. Nf3 { [%clk 0:09:58] } 1-0";
    assert_eq!(count_plies(mt, u32::MAX), 3);
}

#[test]
fn ignores_variations_nags_and_results() {
    let mt = "1.e4 $1 e5 (1... c5 2. Nf3) 2. Nf3 $2 Nc6 ; comment 3. Bb5\n3. Bb5 a6 1/2-1/2";
    assert_eq!(count_plies(mt, u32::MAX), 6);
}

#[test]
fn empty_and_result_only() {
    assert_eq!(count_plies("", u32::MAX), 0);
    assert_eq!(count_plies("0-1", u32::MAX), 0);
    assert_eq!(count_plies("*", u32::MAX), 0);
}

#[test]
fn stops_at_limit() {
    assert_eq!(count_plies("1. e4 e5 2. Nf3 Nc6", 2), 2);
}

#[test]
fn limit_of_zero_counts_nothing() {
    assert_eq!(count_plies("1. e4 e5", 0), 0);
}

#[test]
fn every_result_is_ignored() {
    for result in ["1-0", "0-1", "1/2-1/2", "*"] {
        let mt = format!("1. e4 e5 {}", result);
        assert_eq!(count_plies(&mt, u32::MAX), 2);
    }
    assert_eq!(count_plies("1-1", u32::MAX), 1);
}

#[test]
fn move_numbers_are_ignored_alone_and_glued() {
    assert_eq!(count_plies("12. e4", u32::MAX), 1);
    assert_eq!(count_plies("12.e4", u32::MAX), 1);
    assert_eq!(count_plies("12...e5", u32::MAX), 1);
    assert_eq!(count_plies("12...", u32::MAX), 0);
    assert_eq!(count_plies("12", u32::MAX), 1);
    assert_eq!(count_plies("...", u32::MAX), 1);
}

#[test]
fn comment_without_end_takes_the_rest() {
    assert_eq!(count_plies("e4 { e5 Nf3", u32::MAX), 1);
    assert_eq!(count_plies("e4 ; e5 Nf3", u32::MAX), 1);
}

#[test]
fn comments_may_touch_words_and_hold_parentheses() {
    assert_eq!(count_plies("e4{ ( } e5 Nf3", u32::MAX), 3);
    assert_eq!(count_plies("(e4 { ) } e5) Nf3", u32::MAX), 1);
}

#[test]
fn variations_nest() {
    assert_eq!(count_plies("e4 (d4 (c4 c5) d5) e5", u32::MAX), 2);
    assert_eq!(count_plies("e4 ) e5", u32::MAX), 2);
    assert_eq!(count_plies("e4 ( e5", u32::MAX), 1);
}

#[test]
fn words_may_hold_any_character() {
    assert_eq!(count_plies("é4 ♞f3 {é}", u32::MAX), 2);
}

#[test]
fn stray_brace_is_found_unless_the_limit_comes_first() {
    assert!(!can_count("e4 } e5", u32::MAX));
    assert!(!can_count("e4 } e5", 2));
    assert!(can_count("e4 } e5", 1));
    assert!(can_count("e4 {}} e5", 1));
    assert!(!can_count("(e4 } e5)", 1));
    assert!(can_count("e4 {}e5", u32::MAX));
    assert_eq!(count_plies("e4 } e5", 1), 1);
}

#[test]
fn scan_can_start_anywhere() {
    assert_eq!(scan_plies(b"e4 e5 Nf3", 3, 9), Some(2));
    assert_eq!(scan_plies(b"e4 e5 }", 3, 9), None);
    assert_eq!(scan_plies(b"e4 e5 }", 7, 9), Some(0));
}

#[test]
fn plies_of_parts_add_up() {
    let a = "1. e4 (1. d4 d5) e5 {!} ";
    let b = "2. Nf3 Nc6 1-0";
    let whole = format!("{}{}", a, b);
    assert_eq!(
        count_plies(&whole, u32::MAX),
        count_plies(a, u32::MAX) + count_plies(b, u32::MAX)
    );
    assert_eq!(count_plies(&whole, u32::MAX), 4);
}
