use fff_grep_core::{
    is_utf8_char_boundary, strip_line_terminators, truncate_display_bytes, MAX_LINE_DISPLAY_LEN,
};

#[test]
fn terminators_are_stripped() {
    assert_eq!(strip_line_terminators(b"abc\r\n"), b"abc");
    assert_eq!(strip_line_terminators(b"abc\n\r\r\n"), b"abc");
    assert_eq!(strip_line_terminators(b"\n\r\n"), b"");
    assert_eq!(strip_line_terminators(b""), b"");
    assert_eq!(strip_line_terminators(b"a\nb"), b"a\nb");
}

#[test]
fn truncation_keeps_characters_whole() {
    assert_eq!(MAX_LINE_DISPLAY_LEN, 512);
    let mut line: Vec<u8> = vec![b'a'; 511];
    line.extend_from_slice("é".as_bytes());
    line.push(b'z');
    assert_eq!(truncate_display_bytes(&line), &line[..511]);
    let long: Vec<u8> = vec![b'a'; 600];
    assert_eq!(truncate_display_bytes(&long).len(), 512);
    let fitting: Vec<u8> = vec![b'a'; 512];
    assert_eq!(truncate_display_bytes(&fitting).len(), 512);
    assert_eq!(truncate_display_bytes(b"short"), b"short");
}

#[test]
fn truncation_of_a_four_byte_character() {
    let mut line: Vec<u8> = vec![b'x'; 510];
    line.extend_from_slice("😀".as_bytes());
    assert_eq!(line.len(), 514);
    assert_eq!(truncate_display_bytes(&line).len(), 510);
}

#[test]
fn a_line_of_continuation_bytes_shows_nothing() {
    let line: Vec<u8> = vec![0x80; 600];
    assert_eq!(truncate_display_bytes(&line), b"");
}

#[test]
fn char_boundaries_are_told_from_continuation_bytes() {
    assert!(is_utf8_char_boundary(b'a'));
    assert!(is_utf8_char_boundary(0xc3));
    assert!(is_utf8_char_boundary(0xf0));
    assert!(!is_utf8_char_boundary(0x80));
    assert!(!is_utf8_char_boundary(0xbf));
}
