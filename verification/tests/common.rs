use ruclifs::common::{color, color_matches, color_substring, highlight_string, RESET};
use ruclifs::pattern::compile_pattern;

#[test]
fn colors_by_name() {
    assert_eq!(color("grey"), Some("\x1b[90m"));
    assert_eq!(color("red"), Some("\x1b[32m"));
    assert_eq!(color("cyan"), Some("\x1b[96m"));
    assert_eq!(color("default"), Some("\x1b[0m"));
    assert_eq!(color("gray"), None);
    assert_eq!(RESET, "\x1b[0m");
}

#[test]
fn highlight_wraps_the_text() {
    assert_eq!(highlight_string("text", "\x1b[96m", false), "\x1b[96mtext\x1b[0m");
}

#[test]
fn highlight_with_underline() {
    assert_eq!(highlight_string("text", "\x1b[96m", true), "\x1b[96;4mtext\x1b[0m");
    assert_eq!(highlight_string("text", "", true), ";4mtext\x1b[0m");
}

#[test]
fn color_substring_marks_every_match() {
    let out = color_substring("some_file some", "some", "\x1b[96m", false).ok().unwrap();
    assert_eq!(out, "\x1b[96msome\x1b[0m_file \x1b[96msome\x1b[0m");
    let out = color_substring("abc", "x|y", "\x1b[90m", true).ok().unwrap();
    assert_eq!(out, "abc");
}

#[test]
fn color_substring_reports_the_pattern() {
    let e = color_substring("abc", "a(", "\x1b[96m", false).err().unwrap();
    assert_eq!(e.pattern, "(a()");
}

#[test]
fn color_matches_uses_the_first_group() {
    let re = compile_pattern("(b+)").ok().unwrap();
    assert_eq!(color_matches(&re, "abba", "\x1b[96m", true), "a\x1b[96;4mbb\x1b[0ma");
}

#[test]
fn pattern_errors_name_the_pattern() {
    let e = compile_pattern("[a").err().unwrap();
    assert_eq!(e.pattern, "[a");
    assert!(!e.reason.is_empty());
    assert!(compile_pattern("[a]").is_ok());
}
