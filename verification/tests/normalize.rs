//! Tests of the content normalizer: CDATA-marker cleanup and title
//! trailing-terminator stripping.

use fead::reader::clean_content;
use fead::FormatText;

#[test]
fn cleanup_removes_every_marker_occurrence() {
    let cleaned = clean_content("Hello]]>World<![CDATA[Test".to_string());
    assert_eq!(cleaned, "HelloWorldTest");
}

#[test]
fn cleanup_is_idempotent_on_marker_free_results() {
    let once = clean_content("Hello]]>World<![CDATA[Test".to_string());
    let twice = clean_content(once.clone());
    assert_eq!(once, twice);
}

#[test]
fn cleanup_can_uncover_a_marker() {
    // Removing the inner occurrence splices the surrounding characters into
    // a new delimiter; this is why idempotence holds only for results that
    // are free of both markers.
    let once = clean_content("]]]]>>".to_string());
    assert_eq!(once, "]]>");
    assert_eq!(clean_content(once), "");
}

#[test]
fn cleanup_leaves_plain_text_alone() {
    assert_eq!(clean_content("plain text".to_string()), "plain text");
    assert_eq!(clean_content(String::new()), "");
}

#[test]
fn title_trim_strips_exactly_one_terminator() {
    assert_eq!("abc\n".to_string().strip_trailing_newline(), "abc");
    assert_eq!("abc\r\n".to_string().strip_trailing_newline(), "abc");
    assert_eq!("abc".to_string().strip_trailing_newline(), "abc");
    assert_eq!("abc\r".to_string().strip_trailing_newline(), "abc\r");
    assert_eq!("\n".to_string().strip_trailing_newline(), "");
    assert_eq!("a\nb".to_string().strip_trailing_newline(), "a\nb");
}

#[test]
fn title_trim_twice_equals_once_without_second_terminator() {
    let once = "abc\r\n".to_string().strip_trailing_newline();
    let twice = once.clone().strip_trailing_newline();
    assert_eq!(once, twice);
}

#[test]
fn title_trim_takes_one_terminator_per_application() {
    // A title ending in two terminators loses one per pass: the idempotence
    // proviso excludes exactly these inputs.
    let once = "x\n\n".to_string().strip_trailing_newline();
    assert_eq!(once, "x\n");
    assert_eq!(once.strip_trailing_newline(), "x");
}
