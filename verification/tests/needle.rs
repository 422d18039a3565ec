use fff_grep_core::needle::{find_lowered, find_needle, to_ascii_lowercase};

#[test]
fn the_first_occurrence_is_found() {
    assert_eq!(find_needle(b"one two one", b"one", false), Some(0));
    assert_eq!(find_needle(b"one two one", b"two", false), Some(4));
    assert_eq!(find_needle(b"one two one", b"three", false), None);
    assert_eq!(find_needle(b"One", b"one", false), None);
}

#[test]
fn case_is_ignored_on_request() {
    assert_eq!(find_needle(b"The QUICK fox", b"quick", true), Some(4));
    assert_eq!(find_lowered(b"aBcABC", b"abc"), Some(0));
    assert_eq!(find_lowered(b"xxABC", b"abc"), Some(2));
    assert_eq!(find_lowered(b"ab", b"abc"), None);
    assert_eq!(find_lowered(b"xyz", b"abc"), None);
}

#[test]
fn only_ascii_case_is_folded() {
    assert_eq!(find_needle("É".as_bytes(), "é".as_bytes(), true), None);
    assert_eq!(to_ascii_lowercase("ÀBC-z".as_bytes()), "Àbc-z".as_bytes());
}

#[test]
fn an_empty_needle_is_found_at_the_start() {
    assert_eq!(find_needle(b"abc", b"", false), Some(0));
    assert_eq!(find_needle(b"", b"", true), Some(0));
}
