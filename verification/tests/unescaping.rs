use decondenser::unescape;
use std::borrow::Cow;

#[test]
fn unescape_replaces_escape_sequences() {
    assert_eq!(unescape("a\\nb\\x41\\u{1F600}"), "a\nbA😀");
}

#[test]
fn unescape_borrows_text_without_escapes() {
    assert!(matches!(unescape("plain text"), Cow::Borrowed("plain text")));
    assert!(matches!(unescape(""), Cow::Borrowed("")));
    assert!(matches!(unescape("a\\tb"), Cow::Owned(_)));
}

#[test]
fn simple_escapes_stand_for_their_characters() {
    assert_eq!(unescape("\\n\\t\\r"), "\n\t\r");
    assert_eq!(unescape("\\\\"), "\\");
    assert_eq!(unescape("\\\"\\'"), "\"'");
    assert_eq!(unescape("\\#\\$"), "#$");
    assert_eq!(unescape("\\0\\a\\b\\v\\f\\e"), "\0\x07\x08\x0B\x0C\x1B");
    assert_eq!(unescape("a\\sb"), "a b");
}

#[test]
fn an_escaped_line_break_stands_for_nothing() {
    assert_eq!(unescape("a\\\nb"), "ab");
}

#[test]
fn hex_escapes_take_one_or_two_digits() {
    assert_eq!(unescape("\\x41"), "A");
    assert_eq!(unescape("\\x4"), "\x04");
    assert_eq!(unescape("\\x414"), "A4");
    assert_eq!(unescape("\\xe9"), "é");
    assert_eq!(unescape("\\xFF"), "ÿ");
    assert_eq!(unescape("\\xg1"), "\\xg1");
    assert_eq!(unescape("\\x"), "\\x");
}

#[test]
fn unicode_escapes_take_up_to_eight_digits() {
    assert_eq!(unescape("\\u0041"), "A");
    assert_eq!(unescape("\\U0001F600"), "😀");
    assert_eq!(unescape("\\u{41}"), "A");
    assert_eq!(unescape("\\u{1F600}!"), "😀!");
    assert_eq!(unescape("\\u00e9t\\u00e9"), "\u{e9}t\u{e9}");
    assert_eq!(unescape("\\u41z"), "Az");
}

#[test]
fn invalid_unicode_escapes_stay() {
    assert_eq!(unescape("\\u{41"), "\\u{41");
    assert_eq!(unescape("\\u{}"), "\\u{}");
    assert_eq!(unescape("\\uzz"), "\\uzz");
    assert_eq!(unescape("\\u{D800}"), "\\u{D800}");
    assert_eq!(unescape("\\UFFFFFFFF"), "\\UFFFFFFFF");
    assert_eq!(unescape("\\u{110000}"), "\\u{110000}");
}

#[test]
fn unknown_escapes_stay() {
    assert_eq!(unescape("a\\qb"), "a\\qb");
    assert_eq!(unescape("end\\"), "end\\");
    assert_eq!(unescape("\\N{name}"), "\\N{name}");
}
