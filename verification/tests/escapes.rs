use fff_grep_core::{has_unescaped_newline_escape, replace_unescaped_newline_escapes};

#[test]
fn newline_escapes_are_recognised() {
    assert!(has_unescaped_newline_escape("\\n"));
    assert!(has_unescaped_newline_escape("foo\\nbar"));
    assert!(!has_unescaped_newline_escape("\\\\nvim-data"));
    assert!(has_unescaped_newline_escape("\\\\\\n"));
    assert!(!has_unescaped_newline_escape("plain"));
    assert!(!has_unescaped_newline_escape("n\\"));
    assert!(!has_unescaped_newline_escape(""));
    assert!(!has_unescaped_newline_escape("real\nnewline"));
}

#[test]
fn unescaped_newline_escapes_become_line_feeds() {
    assert_eq!(replace_unescaped_newline_escapes("foo\\nbar"), "foo\nbar");
    assert_eq!(replace_unescaped_newline_escapes("\\n\\n"), "\n\n");
    assert_eq!(replace_unescaped_newline_escapes("é\\nü"), "é\nü");
}

#[test]
fn escaped_backslashes_are_left_alone() {
    assert_eq!(replace_unescaped_newline_escapes("\\\\nvim-data"), "\\\\nvim-data");
    assert_eq!(replace_unescaped_newline_escapes("\\\\\\n"), "\\\\\n");
    assert_eq!(replace_unescaped_newline_escapes("no escape"), "no escape");
    assert_eq!(replace_unescaped_newline_escapes("tail\\"), "tail\\");
}

#[test]
fn replacing_twice_changes_nothing_more() {
    for text in ["foo\\nbar", "\\\\nvim", "\\\\\\n\\n", "plain", "\\n\\\\n"] {
        let once = replace_unescaped_newline_escapes(text);
        assert!(!has_unescaped_newline_escape(&once));
        assert_eq!(replace_unescaped_newline_escapes(&once), once);
    }
}
