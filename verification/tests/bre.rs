use ved::bre::Regex;

// Helper: compile and check for any match.
fn has_match(pattern: &[u8], text: &[u8]) -> bool {
    Regex::compile(pattern).find(text).is_some()
}

// ── Step 1 tests ─────────────────────────────────────────

// Literal matching

#[test]
fn literal_exact_match() {
    assert!(has_match(b"abc", b"abc"));
}

#[test]
fn literal_match_in_middle() {
    assert!(has_match(b"abc", b"xabcy"));
}

#[test]
fn literal_no_match() {
    assert!(!has_match(b"abc", b"xyz"));
}

#[test]
fn literal_pattern_longer_than_text() {
    assert!(!has_match(b"abc", b"ab"));
}

#[test]
fn empty_pattern_always_matches() {
    assert!(has_match(b"", b"hello"));
}

// Dot wildcard

#[test]
fn dot_matches_letter() {
    assert!(has_match(b"a.c", b"abc"));
}

#[test]
fn dot_matches_underscore() {
    assert!(has_match(b"a.c", b"a_c"));
}

#[test]
fn dot_requires_a_character() {
    assert!(!has_match(b"a.c", b"ac"));
}

// Star repetition

#[test]
fn star_zero_matches() {
    assert!(has_match(b"a*b", b"b"));
}

#[test]
fn star_many_matches() {
    assert!(has_match(b"a*b", b"aaab"));
}

#[test]
fn star_combined_with_slide() {
    assert!(has_match(b"a*b", b"xb"));
}

#[test]
fn dot_star_matches_anything() {
    assert!(has_match(b".*", b"anything"));
}

// Anchors

#[test]
fn caret_anchors_at_start() {
    assert!(has_match(b"^abc", b"abc"));
}

#[test]
fn caret_refuses_to_slide() {
    assert!(!has_match(b"^abc", b"xabc"));
}

#[test]
fn dollar_anchors_at_end() {
    assert!(has_match(b"abc$", b"abc"));
}

#[test]
fn dollar_refuses_tail() {
    assert!(!has_match(b"abc$", b"abcx"));
}

#[test]
fn both_anchors() {
    assert!(has_match(b"^abc$", b"abc"));
}

#[test]
fn empty_anchored_matches_empty() {
    assert!(has_match(b"^$", b""));
}

#[test]
fn empty_anchored_rejects_nonempty() {
    assert!(!has_match(b"^$", b"x"));
}

// Tricky edge cases

#[test]
fn dollar_alone_finds_end() {
    assert!(has_match(b"$", b"anything"));
}

#[test]
fn anchored_star_on_empty() {
    assert!(has_match(b"^a*$", b""));
}

#[test]
fn anchored_star_many() {
    assert!(has_match(b"^a*$", b"aaa"));
}

#[test]
fn anchored_star_rejects_wrong_char() {
    assert!(!has_match(b"^a*$", b"aab"));
}

// ── Step 2 tests: bracket expressions ────────────────────

// Basic membership

#[test]
fn class_matches_member() {
    assert!(has_match(b"[abc]", b"b"));
}

#[test]
fn class_rejects_nonmember() {
    assert!(!has_match(b"[abc]", b"d"));
}

#[test]
fn class_in_context() {
    assert!(has_match(b"x[abc]y", b"xby"));
}

// Ranges

#[test]
fn range_matches_inside() {
    assert!(has_match(b"[a-z]", b"m"));
}

#[test]
fn range_rejects_outside() {
    assert!(!has_match(b"[a-z]", b"M"));
}

#[test]
fn multiple_ranges() {
    assert!(has_match(b"[a-zA-Z]", b"M"));
}

// Negation

#[test]
fn negated_class_matches_nonmember() {
    assert!(has_match(b"[^abc]", b"d"));
}

#[test]
fn negated_class_rejects_member() {
    assert!(!has_match(b"^[^abc]$", b"a"));
}

#[test]
fn negated_range_matches_outside() {
    assert!(has_match(b"[^0-9]", b"x"));
}

#[test]
fn negated_range_rejects_inside() {
    assert!(!has_match(b"^[^0-9]$", b"5"));
}

// Edge cases: literal ] and -

#[test]
fn literal_close_bracket_first() {
    assert!(has_match(b"[]abc]", b"]"));
}

#[test]
fn literal_dash_at_end() {
    assert!(has_match(b"[abc-]", b"-"));
}

#[test]
fn literal_dash_at_start() {
    assert!(has_match(b"[-abc]", b"-"));
}

// Bracket + star

#[test]
fn class_star_zero() {
    assert!(has_match(b"^[a-z]*$", b""));
}

#[test]
fn class_star_many() {
    assert!(has_match(b"^[a-z]*$", b"hello"));
}

#[test]
fn class_star_rejects() {
    assert!(!has_match(b"^[a-z]*$", b"hello!"));
}

#[test]
fn one_or_more_digits() {
    assert!(has_match(b"[0-9][0-9]*", b"abc123def"));
}

// ── Step 3 tests: match positions ────────────────────────

#[test]
fn position_at_start() {
    let m = Regex::compile(b"abc").find(b"abcdef").unwrap();
    assert_eq!(m.start, 0);
    assert_eq!(m.end, 3);
}

#[test]
fn position_in_middle() {
    let m = Regex::compile(b"abc").find(b"xabcy").unwrap();
    assert_eq!(m.start, 1);
    assert_eq!(m.end, 4);
}

#[test]
fn position_dot_star() {
    let m = Regex::compile(b".*").find(b"hello").unwrap();
    assert_eq!(m.start, 0);
    assert_eq!(m.end, 0);
}

#[test]
fn position_anchored_dot_star() {
    let m = Regex::compile(b"^.*$").find(b"hello").unwrap();
    assert_eq!(m.start, 0);
    assert_eq!(m.end, 5);
}

#[test]
fn position_digits() {
    let m = Regex::compile(b"[0-9][0-9]*").find(b"abc123def").unwrap();
    assert_eq!(m.start, 3);
    assert_eq!(m.end, 4);
}

#[test]
fn position_no_match() {
    assert!(Regex::compile(b"xyz").find(b"hello").is_none());
}

#[test]
fn position_empty_match() {
    let m = Regex::compile(b"").find(b"hello").unwrap();
    assert_eq!(m.start, 0);
    assert_eq!(m.end, 0);
}

#[test]
fn position_dollar() {
    let m = Regex::compile(b"abc$").find(b"xabc").unwrap();
    assert_eq!(m.start, 1);
    assert_eq!(m.end, 4);
}

// ── Step 4 tests: capturing groups ───────────────────────

#[test]
fn group_simple() {
    let m = Regex::compile(b"^\\(abc\\)$").find(b"abc").unwrap();
    assert_eq!(m.start, 0);
    assert_eq!(m.end, 3);
    assert_eq!(m.group(1), Some((0, 3)));
}

#[test]
fn group_in_context() {
    let m = Regex::compile(b"^x\\(abc\\)y$").find(b"xabcy").unwrap();
    assert_eq!(m.group(1), Some((1, 4)));
}

#[test]
fn group_two_groups() {
    let m = Regex::compile(b"^\\(ab\\)\\(cd\\)$").find(b"abcd").unwrap();
    assert_eq!(m.group(1), Some((0, 2)));
    assert_eq!(m.group(2), Some((2, 4)));
}

#[test]
fn group_nested() {
    let m = Regex::compile(b"^\\(\\(ab\\)cd\\)$").find(b"abcd").unwrap();
    assert_eq!(m.group(1), Some((0, 4)));
    assert_eq!(m.group(2), Some((0, 2)));
}

#[test]
fn group_with_dot() {
    let m = Regex::compile(b"^\\(.\\)$").find(b"x").unwrap();
    assert_eq!(m.group(1), Some((0, 1)));
}

#[test]
fn group_with_class() {
    let m = Regex::compile(b"^\\([a-z][a-z]*\\)$").find(b"hello").unwrap();
    assert_eq!(m.group(1), Some((0, 5)));
}

#[test]
fn group_no_match_returns_none() {
    assert!(Regex::compile(b"\\(abc\\)").find(b"xyz").is_none());
}

#[test]
fn group_uncaptured_returns_none() {
    let m = Regex::compile(b"^\\(abc\\)$").find(b"abc").unwrap();
    assert_eq!(m.group(2), None);
}

#[test]
fn group_zero_returns_none() {
    let m = Regex::compile(b"^\\(abc\\)$").find(b"abc").unwrap();
    assert_eq!(m.group(0), None);
}

#[test]
fn group_ten_returns_none() {
    let m = Regex::compile(b"^\\(abc\\)$").find(b"abc").unwrap();
    assert_eq!(m.group(10), None);
}

// Backslash escaping

#[test]
fn escaped_dot_is_literal() {
    assert!(has_match(b"a\\.c", b"a.c"));
    assert!(!has_match(b"a\\.c", b"abc"));
}

#[test]
fn escaped_star_is_literal() {
    assert!(has_match(b"a\\*", b"a*"));
    assert!(!has_match(b"a\\*", b"aaa"));
}

#[test]
fn escaped_backslash_is_literal() {
    assert!(has_match(b"a\\\\b", b"a\\b"));
}

// ── Step 5 tests: backreferences ─────────────────────────

#[test]
fn backref_simple() {
    // \(abc\)\1 matches "abcabc"
    assert!(has_match(b"^\\(abc\\)\\1$", b"abcabc"));
}

#[test]
fn backref_rejects_mismatch() {
    assert!(!has_match(b"^\\(abc\\)\\1$", b"abcdef"));
}

#[test]
fn backref_with_dot() {
    // \(.\)\1 matches any repeated character
    assert!(has_match(b"^\\(.\\)\\1$", b"aa"));
    assert!(!has_match(b"^\\(.\\)\\1$", b"ab"));
}

#[test]
fn backref_two_groups() {
    // \(a\)\(b\)\2\1 matches "abba"
    let m = Regex::compile(b"^\\(a\\)\\(b\\)\\2\\1$")
        .find(b"abba")
        .unwrap();
    assert_eq!(m.group(1), Some((0, 1)));
    assert_eq!(m.group(2), Some((1, 2)));
}

#[test]
fn backref_to_uncaptured_fails() {
    // \1 with no group should fail to match
    assert!(!has_match(b"^\\1$", b"anything"));
}

#[test]
fn backref_multi_char() {
    // \(hello\).*\1 matches "hello world hello"
    assert!(has_match(
        b"^\\(hello\\).*\\1$",
        b"hello world hello"
    ));
}

#[test]
fn backref_multi_char_rejects() {
    assert!(!has_match(
        b"^\\(hello\\).*\\1$",
        b"hello world help"
    ));
}

#[test]
fn backref_with_class() {
    // \([a-z]\)\1 finds a repeated lowercase letter
    assert!(has_match(b"\\([a-z]\\)\\1", b"xaabbx"));
    assert!(!has_match(b"^\\([a-z]\\)\\1$", b"ab"));
}
