use html_splitter::ext::SplitPosExt;

#[test]
fn test_split_with_respect_to_whitespace() {
    let s = "hello world";
    let trimmed = s.split_with_respect_to_whitespace(7);
    assert_eq!(trimmed, Some("hello "));

    let trimmed = s.split_with_respect_to_whitespace(100500);
    assert_eq!(trimmed, Some("hello world"));

    let s = "long_word_with_no_whitespace";
    let trimmed = s.split_with_respect_to_whitespace(5);
    assert_eq!(trimmed, Some("long_"));

    let s = "italic bold strikethrough ";
    let trimmed = s.split_with_respect_to_whitespace(16);
    assert_eq!(trimmed, Some("italic bold "));
}

#[test]
fn test_empty_string() {
    assert_eq!("".utf8_substring(5), Some(""));
}

#[test]
fn test_max_len_zero() {
    assert_eq!("hello".utf8_substring(0), Some(""));
}

#[test]
fn test_ascii_string() {
    assert_eq!("hello world".utf8_substring(5), Some("hello"));
}

#[test]
fn test_partial_ascii_string() {
    assert_eq!("hello".utf8_substring(2), Some("he"));
}

#[test]
fn test_non_ascii_string() {
    let s = "naïve";
    assert_eq!(s.utf8_substring(4), Some("naï"));
}

#[test]
fn test_emoji_string() {
    let s = "👍👍👍";
    assert_eq!(s.utf8_substring(5), Some("👍"));
    assert_eq!(s.utf8_substring(8), Some("👍👍"));
    assert_eq!(s.utf8_substring(12), Some("👍👍👍"));
}

#[test]
fn test_insufficient_max_len() {
    let s = "👍";
    assert_eq!(s.utf8_substring(3), None);
}

#[test]
fn test_max_len_equals_char_len() {
    let s = "👍";
    assert_eq!(s.utf8_substring(4), Some("👍"));
}

#[test]
fn test_german_umlaut() {
    let s = "über";
    assert_eq!(s.utf8_substring(1), None); // 'ü' is 2 bytes
    assert_eq!(s.utf8_substring(2), Some("ü"));
    assert_eq!(s.utf8_substring(3), Some("üb"));
}

#[test]
fn test_full_string() {
    let s = "こんにちは";
    assert_eq!(s.utf8_substring(15), Some(s));
}

#[test]
fn test_partial_multibyte_char() {
    let s = "こんにちは";
    assert_eq!(s.utf8_substring(2), None); // No character fits in 2 bytes
    assert_eq!(s.utf8_substring(3), Some("こ")); // First character is 3 bytes
    assert_eq!(s.utf8_substring(4), Some("こ")); // "こ" fits within 4 bytes
}

#[test]
fn test_max_len_longer_than_string() {
    let s = "hello";
    assert_eq!(s.utf8_substring(10), Some("hello"));
}

#[test]
fn test_utf8_substring_boundaries() {
    assert_eq!("".utf8_substring(0), Some(""));
    assert_eq!("👍".utf8_substring(0), Some(""));
    assert_eq!("👍".utf8_substring(1), None);
    assert_eq!("👍".utf8_substring(2), None);
    assert_eq!("a👍".utf8_substring(4), Some("a"));
    assert_eq!("a👍".utf8_substring(5), Some("a👍"));
    assert_eq!("a👍".utf8_substring(usize::MAX), Some("a👍"));
}

#[test]
fn test_split_whole_when_it_fits() {
    assert_eq!("".split_with_respect_to_whitespace(0), Some(""));
    assert_eq!("".split_with_respect_to_whitespace(3), Some(""));
    assert_eq!("abc".split_with_respect_to_whitespace(3), Some("abc"));
    assert_eq!("a b".split_with_respect_to_whitespace(3), Some("a b"));
    assert_eq!("👍 👍".split_with_respect_to_whitespace(9), Some("👍 👍"));
}

#[test]
fn test_split_zero_budget() {
    assert_eq!("abc".split_with_respect_to_whitespace(0), Some(""));
}

#[test]
fn test_split_after_last_whitespace() {
    assert_eq!("a b c d".split_with_respect_to_whitespace(6), Some("a b c "));
    assert_eq!("a b c d".split_with_respect_to_whitespace(5), Some("a b "));
    assert_eq!("ab\ncd".split_with_respect_to_whitespace(4), Some("ab\n"));
    assert_eq!("ab\tcd".split_with_respect_to_whitespace(4), Some("ab\t"));
    assert_eq!("  ab".split_with_respect_to_whitespace(3), Some("  "));
}

#[test]
fn test_split_at_unicode_whitespace() {
    // U+00A0 and U+3000 are whitespace of two and three bytes
    assert_eq!("ab\u{a0}cd".split_with_respect_to_whitespace(5), Some("ab\u{a0}"));
    assert_eq!("ab\u{3000}cd".split_with_respect_to_whitespace(6), Some("ab\u{3000}"));
    // the whitespace itself does not fit: the cut is the whole budget
    assert_eq!("ab\u{3000}cd".split_with_respect_to_whitespace(2), Some("ab"));
}

#[test]
fn test_split_is_not_fooled_by_other_characters() {
    // 'é' is no whitespace, and neither is '_'
    assert_eq!("é_é_é".split_with_respect_to_whitespace(3), Some("é_"));
    assert_eq!("x-y-z".split_with_respect_to_whitespace(4), Some("x-y-"));
}

#[test]
fn test_split_first_character_too_large() {
    assert_eq!("👍 a".split_with_respect_to_whitespace(3), None);
    assert_eq!("über".split_with_respect_to_whitespace(1), None);
}

#[test]
fn test_split_never_cuts_a_character() {
    // no whitespace within the budget, and the budget ends inside '👍'
    assert_eq!("ab👍cd".split_with_respect_to_whitespace(3), None);
    assert_eq!("ab👍cd".split_with_respect_to_whitespace(5), None);
    assert_eq!("ab👍cd".split_with_respect_to_whitespace(6), Some("ab👍"));
    // with whitespace before it the cut falls there
    assert_eq!("a b👍cd".split_with_respect_to_whitespace(5), Some("a "));
}

#[test]
fn test_split_result_fits_and_is_a_prefix() {
    let s = "The quick brown fox jumps over the lazy dog";
    for budget in 1..s.len() + 3 {
        let piece = s.split_with_respect_to_whitespace(budget).unwrap();
        assert!(piece.len() <= budget);
        assert!(!piece.is_empty());
        assert!(s.starts_with(piece));
    }
}
