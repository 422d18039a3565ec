use fff_grep_core::{
    build_pattern_set, build_regex, has_regex_metacharacters, AhoCorasickMatcher, LineMatcher,
    Match, PlainTextMatcher, RegexMatcher,
};

#[test]
fn metacharacters_are_recognised() {
    assert!(has_regex_metacharacters("a.b"));
    assert!(has_regex_metacharacters("fn main()"));
    assert!(has_regex_metacharacters("C:\\dir"));
    assert!(has_regex_metacharacters("a-b"));
    assert!(!has_regex_metacharacters("plain_text 42"));
    assert!(!has_regex_metacharacters(""));
    assert!(!has_regex_metacharacters("größe"));
}

#[test]
fn a_regex_finds_its_matches() {
    let regex = build_regex("fo+", true).unwrap();
    assert_eq!(regex.find_at(b"a foo b fo", 0), Some((2, 5)));
    assert_eq!(regex.find_at(b"a foo b fo", 3), Some((8, 10)));
    assert_eq!(regex.find_at(b"bar", 0), None);
    assert_eq!(regex.find_all(b"fo foo FOO"), vec![(0, 2), (3, 6), (7, 10)]);
    assert_eq!(regex.find_all(b"bar"), vec![]);
}

#[test]
fn smart_case_of_a_regex() {
    assert_eq!(build_regex("foo", true).unwrap().find_at(b"FOO", 0), Some((0, 3)));
    assert_eq!(build_regex("Foo", true).unwrap().find_at(b"FOO", 0), None);
    assert_eq!(build_regex("foo", false).unwrap().find_at(b"FOO", 0), None);
    assert_eq!(build_regex("é|x", true).unwrap().find_at("X".as_bytes(), 0), Some((0, 1)));
}

#[test]
fn anchors_match_at_line_ends() {
    let regex = build_regex("^b$", true).unwrap();
    assert_eq!(regex.find_at(b"a\nb\nc", 0), Some((2, 3)));
}

#[test]
fn newline_escapes_match_line_feeds() {
    let regex = build_regex("a\\nb", true).unwrap();
    assert_eq!(regex.find_at(b"xa\nb", 0), Some((1, 4)));
}

#[test]
fn an_escaped_backslash_before_n_is_literal_in_a_regex() {
    let regex = build_regex("\\\\nvim-data", true).unwrap();
    assert_eq!(regex.find_at(b"\\nvim-data", 0), Some((0, 10)));
    assert_eq!(regex.find_at(b"\nvim-data", 0), None);
}

#[test]
fn an_empty_regex_is_refused() {
    assert_eq!(build_regex("", true).unwrap_err(), "empty pattern");
}

#[test]
fn a_broken_regex_is_refused_with_a_message() {
    let message = build_regex("(unclosed", true).unwrap_err();
    assert!(message.contains("unclosed group"), "{}", message);
}

#[test]
fn a_pattern_set_finds_any_of_its_patterns() {
    let set = build_pattern_set(&["foo", "bar"], true).unwrap();
    assert_eq!(set.find(b"a bar and foo"), Some((2, 5)));
    assert_eq!(set.find(b"nothing"), None);
    assert_eq!(set.find_all(b"FOO bar"), vec![(0, 3), (4, 7)]);
    assert_eq!(set.find_all(b"baz"), vec![]);
}

#[test]
fn a_pattern_set_finds_overlapping_matches() {
    let set = build_pattern_set(&["ab", "bc", "abc", "ab"], true).unwrap();
    assert_eq!(set.find_all(b"xabc"), vec![(1, 3), (1, 4), (2, 4)]);
    assert_eq!(set.find_first_start(b"xabc"), Some(1));
    assert_eq!(set.find_first_start(b"xyz"), None);
    let nested = build_pattern_set(&["bc", "abcd"], true).unwrap();
    assert_eq!(nested.find_all(b"zabcd"), vec![(1, 5), (2, 4)]);
    assert_eq!(nested.find_first_start(b"zabcd"), Some(1));
    let empty = build_pattern_set(&["", "b"], true).unwrap();
    assert_eq!(empty.find_all(b"ab"), vec![(0, 0), (1, 1), (1, 2), (2, 2)]);
}

#[test]
fn smart_case_of_a_pattern_set_looks_at_all_patterns() {
    let set = build_pattern_set(&["foo", "Bar"], true).unwrap();
    assert_eq!(set.find(b"FOO"), None);
    assert_eq!(set.find(b"foo"), Some((0, 3)));
    let exact = build_pattern_set(&["foo"], false).unwrap();
    assert_eq!(exact.find(b"FOO"), None);
}

#[test]
fn a_plain_text_matcher_reports_absolute_positions() {
    let matcher = PlainTextMatcher { needle: b"ab", case_insensitive: true };
    assert_eq!(matcher.find_at(b"AB ab", 0), Some(Match { start: 0, end: 2 }));
    assert_eq!(matcher.find_at(b"AB ab", 1), Some(Match { start: 3, end: 5 }));
    assert_eq!(matcher.find_at(b"AB ab", 4), None);
    assert_eq!(matcher.find_at(b"AB ab", 5), None);
    assert_eq!(matcher.line_terminator(), Some(b'\n'));
}

#[test]
fn a_regex_matcher_reports_matches_and_its_terminator() {
    let regex = build_regex("b.", true).unwrap();
    let single = RegexMatcher { regex: &regex, is_multiline: false };
    assert_eq!(single.find_at(b"abcbd", 2), Some(Match { start: 3, end: 5 }));
    assert_eq!(single.find_at(b"abcbd", 4), None);
    assert_eq!(single.line_terminator(), Some(b'\n'));
    let multi = RegexMatcher { regex: &regex, is_multiline: true };
    assert_eq!(multi.line_terminator(), None);
    assert_eq!(LineMatcher::Regex(multi).line_terminator(), None);
}

#[test]
fn a_set_matcher_reports_absolute_positions() {
    let set = build_pattern_set(&["one", "two"], true).unwrap();
    let matcher = AhoCorasickMatcher { ac: &set };
    assert_eq!(matcher.find_at(b"one two", 1), Some(Match { start: 4, end: 7 }));
    assert_eq!(matcher.find_at(b"one two", 5), None);
    assert_eq!(matcher.line_terminator(), Some(b'\n'));
    let line = LineMatcher::AnyOf(matcher);
    assert_eq!(line.find_at(b"one two", 0), Some(Match { start: 0, end: 3 }));
    assert_eq!(line.line_terminator(), Some(b'\n'));
}

#[test]
fn a_set_matcher_reports_the_pattern_that_is_complete_first() {
    let set = build_pattern_set(&["abcd", "bc", "abc"], true).unwrap();
    let matcher = AhoCorasickMatcher { ac: &set };
    // Two patterns end with the "c"; the longer one is reported.
    assert_eq!(matcher.find_at(b"xabcd", 0), Some(Match { start: 1, end: 4 }));
    assert_eq!(matcher.find_at(b"xabcd", 2), Some(Match { start: 2, end: 4 }));
    let set = build_pattern_set(&["abcd", "bc"], true).unwrap();
    assert_eq!(set.find(b"abcd"), Some((1, 3)));
    let set = build_pattern_set(&["aab", "b", "ab"], true).unwrap();
    assert_eq!(set.find(b"AAB"), Some((0, 3)));
    let set = build_pattern_set(&["ba", ""], true).unwrap();
    assert_eq!(set.find(b"ba"), Some((0, 0)));
}
