use fff_grep_core::{char_indices_to_byte_offsets, GrepMatch, MatchSpans};

fn sample(line: &str, col: usize, spans: Vec<(u32, u32)>) -> GrepMatch {
    GrepMatch {
        file_index: 0,
        line_number: 7,
        col,
        byte_offset: 100,
        line_content: line.to_string(),
        match_byte_offsets: MatchSpans::from_vec(&spans),
        fuzzy_score: None,
        is_definition: false,
        context_before: vec!["  before".to_string(), "flush".to_string()],
        context_after: vec!["\t\tafter".to_string(), String::new()],
    }
}

#[test]
fn spans_hold_what_was_pushed() {
    let mut spans = MatchSpans::new();
    assert_eq!(spans.len(), 0);
    let mut i: u32 = 0;
    while i < 6 {
        spans.push((i, i + 1));
        i += 1;
    }
    assert_eq!(spans.len(), 6);
    assert_eq!(spans.get(5), (5, 6));
    spans.set(2, (20, 21));
    assert_eq!(spans.to_vec(), vec![(0, 1), (1, 2), (20, 21), (3, 4), (4, 5), (5, 6)]);
    assert_eq!(spans.clone().to_vec(), spans.to_vec());
}

#[test]
fn leading_whitespace_is_trimmed_with_its_offsets() {
    let mut m = sample("    let x = 1;", 8, vec![(8, 9), (2, 6)]);
    m.trim_leading_whitespace();
    assert_eq!(m.line_content, "let x = 1;");
    assert_eq!(m.col, 4);
    assert_eq!(m.match_byte_offsets.to_vec(), vec![(4, 5), (0, 2)]);
    assert_eq!(m.context_before, vec!["before", "flush"]);
    assert_eq!(m.context_after, vec!["after", ""]);
    assert_eq!(m.line_number, 7);
    assert_eq!(m.byte_offset, 100);
}

#[test]
fn unicode_whitespace_counts_in_bytes() {
    let mut m = sample("\u{3000}x", 3, vec![(3, 4)]);
    m.trim_leading_whitespace();
    assert_eq!(m.line_content, "x");
    assert_eq!(m.col, 0);
    assert_eq!(m.match_byte_offsets.to_vec(), vec![(0, 1)]);
}

#[test]
fn trimming_twice_changes_nothing_more() {
    let mut m = sample("\t x y ", 2, vec![(2, 3)]);
    m.trim_leading_whitespace();
    let once = (m.line_content.clone(), m.col, m.match_byte_offsets.to_vec());
    m.trim_leading_whitespace();
    assert_eq!((m.line_content.clone(), m.col, m.match_byte_offsets.to_vec()), once);
    assert_eq!(once, ("x y ".to_string(), 0, vec![(0, 1)]));
}

#[test]
fn a_column_within_the_indent_moves_to_the_start() {
    let mut m = sample("    x", 2, vec![]);
    m.trim_leading_whitespace();
    assert_eq!(m.col, 0);
}

#[test]
fn character_positions_become_byte_ranges() {
    assert_eq!(char_indices_to_byte_offsets("hello", &[0, 1, 3]).to_vec(), vec![(0, 2), (3, 4)]);
    assert_eq!(char_indices_to_byte_offsets("aéz", &[1, 2]).to_vec(), vec![(1, 4)]);
    assert_eq!(char_indices_to_byte_offsets("aéz", &[1]).to_vec(), vec![(1, 3)]);
    assert_eq!(char_indices_to_byte_offsets("abc", &[]).to_vec(), vec![]);
    assert_eq!(char_indices_to_byte_offsets("abc", &[9, 2]).to_vec(), vec![(2, 3)]);
    assert_eq!(char_indices_to_byte_offsets("abc", &[2, 0]).to_vec(), vec![(2, 3), (0, 1)]);
    assert_eq!(char_indices_to_byte_offsets("😀b", &[0, 1]).to_vec(), vec![(0, 5)]);
}

#[test]
fn ascending_positions_give_separate_ranges() {
    let spans = char_indices_to_byte_offsets("añb cd", &[0, 1, 3, 5]).to_vec();
    assert_eq!(spans, vec![(0, 3), (4, 5), (6, 7)]);
    let mut k: usize = 1;
    while k < spans.len() {
        assert!(spans[k - 1].1 < spans[k].0);
        k += 1;
    }
}
