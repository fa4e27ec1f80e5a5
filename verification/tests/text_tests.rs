use hegemon::text::{
    contains_str, ellipsize, format_u64, is_closed, is_style_only, pad_left, pad_right,
    printed_width,
};
use termion::color::{Bg, Fg, Green, Red};
use termion::style::Bold;

#[test]
fn test_printed_width() {
    assert_eq!(printed_width(""), 0);
    assert_eq!(printed_width(" "), 1);
    assert_eq!(printed_width("\u{21}\u{2190}\u{1F800}"), 3);
    assert_eq!(printed_width(&format!("{}{}{}", Fg(Red), Bg(Green), Bold)), 0);
    assert_eq!(
        printed_width(&format!("ab{}cd{}ef{}gh", Fg(Red), Bg(Green), Bold)),
        8
    );
    assert_eq!(
        printed_width(&format!(
            "ab\u{21}{}cd\u{2190}{}ef\u{1F800}{}",
            Fg(Red),
            Bg(Green),
            Bold
        )),
        9
    );
}

#[test]
fn test_printed_width_unterminated_marker() {
    // An escape that never closes is counted as ordinary characters.
    assert_eq!(printed_width("\u{1B}[31"), 4);
}

#[test]
fn test_pad_left() {
    assert_eq!(pad_left("ab", 5), "   ab");
    assert_eq!(pad_left("ab", 2), "ab");
    let styled = format!("{}ab", Fg(Red));
    assert_eq!(printed_width(&pad_left(&styled, 4)), 4);
}

#[test]
fn test_pad_right() {
    assert_eq!(pad_right("ab", 5), "ab   ");
    assert_eq!(pad_right("", 3), "   ");
}

#[test]
fn test_ellipsize() {
    assert_eq!(ellipsize("hello", 3), "he\u{2026}");
    assert_eq!(ellipsize("hello", 5), "hello");
    assert_eq!(ellipsize("hi", 5), "hi");
    assert_eq!(ellipsize("hello", 1), "\u{2026}");
}

#[test]
fn test_contains_str() {
    assert!(contains_str("package id 0", "package id"));
    assert!(contains_str("core", "core"));
    assert!(contains_str("anything", ""));
    assert!(!contains_str("cor", "core"));
    assert!(!contains_str("package", "package id"));
}

#[test]
fn test_format_u64() {
    assert_eq!(format_u64(0), "0");
    assert_eq!(format_u64(7), "7");
    assert_eq!(format_u64(105), "105");
    assert_eq!(format_u64(18446744073709551615), "18446744073709551615");
}

#[test]
fn test_is_closed_and_style_only() {
    assert!(is_closed(""));
    assert!(is_closed(&format!("{}", Fg(Red))));
    assert!(!is_closed("\u{1B}[31"));
    assert!(is_style_only(&format!("{}{}", Fg(Red), Bg(Green))));
    assert!(!is_style_only("x"));
}
