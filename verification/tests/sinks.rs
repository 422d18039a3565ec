use fff_grep_core::context::{lines_after, lines_before};
use fff_grep_core::{
    build_pattern_set, build_regex, AhoCorasickSink, LineSink, PlainTextSink, RegexSink,
    SinkMatch, SinkState,
};

const TEXT: &[u8] = b"first\r\nsecond abab ab\nthird\nfourth";

fn second_line(number: Option<u64>) -> SinkMatch<'static> {
    SinkMatch { buffer: TEXT, start: 7, end: 22, absolute_byte_offset: 7, line_number: number }
}

fn no_definitions(_: &str) -> bool {
    false
}

#[test]
fn context_lines_come_in_order() {
    let text = b"one\ntwo\r\nthree\nfour\n";
    assert_eq!(lines_before(text, 15, 2), vec!["two", "three"]);
    assert_eq!(lines_before(text, 15, 9), vec!["one", "two", "three"]);
    assert_eq!(lines_before(text, 15, 0), Vec::<String>::new());
    assert_eq!(lines_before(text, 0, 3), Vec::<String>::new());
    assert_eq!(lines_after(text, 4, 1), vec!["two"]);
    assert_eq!(lines_after(text, 4, 9), vec!["two", "three", "four"]);
    assert_eq!(lines_after(text, 20, 3), Vec::<String>::new());
}

#[test]
fn blank_context_lines_are_kept() {
    let text = b"a\n\nb\n\nc";
    assert_eq!(lines_before(text, 6, 3), vec!["", "b", ""]);
    assert_eq!(lines_after(text, 2, 3), vec!["", "b", ""]);
}

#[test]
fn long_context_lines_are_cut() {
    let mut text: Vec<u8> = vec![b'x'; 600];
    text.push(b'\n');
    let lines = lines_before(&text, 601, 1);
    assert_eq!(lines.len(), 1);
    assert_eq!(lines[0].len(), 512);
}

#[test]
fn a_plain_text_sink_highlights_every_occurrence() {
    let mut sink = PlainTextSink {
        state: SinkState::new(10, 1, 1, false),
        needle: b"ab",
        case_insensitive: false,
    };
    assert!(sink.matched(&second_line(Some(2)), &no_definitions));
    let m = &sink.state.matches[0];
    assert_eq!(m.line_content, "second abab ab");
    assert_eq!(m.line_number, 2);
    assert_eq!(m.byte_offset, 7);
    assert_eq!(m.col, 7);
    assert_eq!(m.match_byte_offsets.to_vec(), vec![(7, 9), (9, 11), (12, 14)]);
    assert_eq!(m.context_before, vec!["first"]);
    assert_eq!(m.context_after, vec!["third"]);
    assert_eq!(m.file_index, 0);
    assert_eq!(m.fuzzy_score, None);
    assert!(!m.is_definition);
}

#[test]
fn overlapping_occurrences_are_all_highlighted() {
    let text: &[u8] = b"AaAa\n";
    let mut sink = PlainTextSink {
        state: SinkState::new(0, 0, 0, true),
        needle: b"aa",
        case_insensitive: true,
    };
    let mat = SinkMatch {
        buffer: text,
        start: 0,
        end: 5,
        absolute_byte_offset: 0,
        line_number: None,
    };
    assert!(sink.matched(&mat, &no_definitions));
    let m = &sink.state.matches[0];
    assert_eq!(m.match_byte_offsets.to_vec(), vec![(0, 2), (1, 3), (2, 4)]);
    assert_eq!(m.line_number, 0);
    assert!(m.context_before.is_empty());
    assert!(m.context_after.is_empty());
}

#[test]
fn a_sink_stops_at_its_limit() {
    let mut sink = PlainTextSink {
        state: SinkState::new(1, 0, 0, false),
        needle: b"ab",
        case_insensitive: false,
    };
    assert!(sink.matched(&second_line(Some(2)), &no_definitions));
    assert!(!sink.matched(&second_line(Some(2)), &no_definitions));
    assert_eq!(sink.state.matches.len(), 1);
    let mut unlimited = LineSink::PlainText(PlainTextSink {
        state: SinkState::new(0, 0, 0, false),
        needle: b"ab",
        case_insensitive: false,
    });
    let mut i: usize = 0;
    while i < 300 {
        assert!(unlimited.matched(&second_line(Some(2)), &no_definitions));
        i += 1;
    }
    assert_eq!(unlimited.into_matches().len(), 300);
}

#[test]
fn a_regex_sink_highlights_its_matches() {
    let re = build_regex("(ab)+", true).unwrap();
    let mut sink = RegexSink { state: SinkState::new(10, 0, 2, false), re: &re };
    assert!(sink.matched(&second_line(Some(2)), &no_definitions));
    let m = &sink.state.matches[0];
    assert_eq!(m.match_byte_offsets.to_vec(), vec![(7, 11), (12, 14)]);
    assert_eq!(m.col, 7);
    assert_eq!(m.context_after, vec!["third", "fourth"]);
}

#[test]
fn a_set_sink_highlights_all_patterns() {
    let set = build_pattern_set(&["SECOND", "ab"], false).unwrap();
    let mut sink = AhoCorasickSink { state: SinkState::new(1, 0, 0, false), ac: &set };
    assert!(sink.matched(&second_line(Some(2)), &no_definitions));
    assert!(!sink.matched(&second_line(Some(2)), &no_definitions));
    let m = &sink.state.matches[0];
    assert_eq!(m.match_byte_offsets.to_vec(), vec![(7, 9), (9, 11), (12, 14)]);
}

#[test]
fn a_match_behind_the_cut_is_not_highlighted() {
    let mut text: Vec<u8> = vec![b'.'; 520];
    text.extend_from_slice(b"needle\n");
    let end = text.len();
    let mut sink = PlainTextSink {
        state: SinkState::new(0, 0, 0, false),
        needle: b"needle",
        case_insensitive: false,
    };
    let mat = SinkMatch {
        buffer: &text,
        start: 0,
        end,
        absolute_byte_offset: 0,
        line_number: Some(1),
    };
    assert!(sink.matched(&mat, &no_definitions));
    let m = &sink.state.matches[0];
    assert_eq!(m.line_content.len(), 512);
    assert_eq!(m.match_byte_offsets.len(), 0);
    assert_eq!(m.col, 520);
}

#[test]
fn columns_behind_the_cut_are_found_in_every_mode() {
    let mut text: Vec<u8> = vec![b'a'; 600];
    text.extend_from_slice(b"foobar\n");
    let mat = SinkMatch {
        buffer: &text,
        start: 0,
        end: text.len(),
        absolute_byte_offset: 0,
        line_number: Some(1),
    };
    let re = build_regex("o+b", true).unwrap();
    let mut sink = RegexSink { state: SinkState::new(0, 0, 0, false), re: &re };
    assert!(sink.matched(&mat, &no_definitions));
    assert_eq!(sink.state.matches[0].col, 601);
    let set = build_pattern_set(&["oba", "foobar"], true).unwrap();
    let mut sink = AhoCorasickSink { state: SinkState::new(0, 0, 0, false), ac: &set };
    assert!(sink.matched(&mat, &no_definitions));
    assert_eq!(sink.state.matches[0].col, 600);
    assert_eq!(sink.state.matches[0].match_byte_offsets.len(), 0);
}

#[test]
fn invalid_utf8_is_shown_with_replacement_characters() {
    let text: &[u8] = b"ab\xff\n";
    let mut sink = PlainTextSink {
        state: SinkState::new(0, 0, 0, false),
        needle: b"ab",
        case_insensitive: false,
    };
    let mat = SinkMatch {
        buffer: text,
        start: 0,
        end: 4,
        absolute_byte_offset: 0,
        line_number: Some(1),
    };
    assert!(sink.matched(&mat, &no_definitions));
    assert_eq!(sink.state.matches[0].line_content, "ab\u{fffd}");
}

#[test]
fn highlights_lie_within_the_displayed_text() {
    let text: &[u8] = b"\xfffoo\n";
    let mat = SinkMatch {
        buffer: text,
        start: 0,
        end: 5,
        absolute_byte_offset: 0,
        line_number: Some(1),
    };
    let mut sink = PlainTextSink {
        state: SinkState::new(0, 0, 0, false),
        needle: b"foo",
        case_insensitive: false,
    };
    assert!(sink.matched(&mat, &no_definitions));
    let m = &sink.state.matches[0];
    assert_eq!(m.line_content, "\u{fffd}foo");
    assert_eq!(m.match_byte_offsets.to_vec(), vec![(3, 6)]);
    assert_eq!(m.col, 1);
}

#[test]
fn a_displayed_text_never_exceeds_the_limit() {
    let mut text: Vec<u8> = vec![0xff; 400];
    text.push(b'\n');
    let mut sink = PlainTextSink {
        state: SinkState::new(0, 0, 0, false),
        needle: b"x",
        case_insensitive: false,
    };
    let mat = SinkMatch {
        buffer: &text,
        start: 0,
        end: 401,
        absolute_byte_offset: 0,
        line_number: Some(1),
    };
    assert!(sink.matched(&mat, &no_definitions));
    assert_eq!(sink.state.matches[0].line_content, "\u{fffd}".repeat(170));
}

#[test]
fn overlapping_patterns_are_all_highlighted() {
    let set = build_pattern_set(&["ab", "bc"], true).unwrap();
    let mut sink = AhoCorasickSink { state: SinkState::new(0, 0, 0, false), ac: &set };
    let mat = SinkMatch {
        buffer: b"abc\n",
        start: 0,
        end: 4,
        absolute_byte_offset: 0,
        line_number: Some(1),
    };
    assert!(sink.matched(&mat, &no_definitions));
    let m = &sink.state.matches[0];
    assert_eq!(m.line_content, "abc");
    assert_eq!(m.match_byte_offsets.to_vec(), vec![(0, 2), (1, 3)]);
    assert_eq!(m.col, 0);
}

#[test]
fn definitions_are_marked_on_request() {
    let text: &[u8] = b"fn ab() {}\nab();\n";
    let lines = [(0usize, 11usize), (11, 17)];
    let starts_with_fn = |line: &str| line.starts_with("fn ");
    let mut marks: Vec<Vec<bool>> = Vec::new();
    for wanted in [true, false] {
        let mut sink = LineSink::PlainText(PlainTextSink {
            state: SinkState::new(0, 0, 0, wanted),
            needle: b"ab",
            case_insensitive: false,
        });
        for (start, end) in lines {
            let mat = SinkMatch {
                buffer: text,
                start,
                end,
                absolute_byte_offset: start as u64,
                line_number: None,
            };
            assert!(sink.matched(&mat, &starts_with_fn));
        }
        marks.push(sink.into_matches().iter().map(|m| m.is_definition).collect());
    }
    assert_eq!(marks, vec![vec![true, false], vec![false, false]]);
}

#[test]
fn the_classifier_is_asked_only_where_definitions_are_wanted() {
    let never = |_: &str| -> bool { panic!("the classifier was asked") };
    let re = build_regex("ab", true).unwrap();
    let mut sink = RegexSink { state: SinkState::new(0, 0, 0, false), re: &re };
    assert!(sink.matched(&second_line(None), &never));
    let set = build_pattern_set(&["ab"], true).unwrap();
    let always = |_: &str| true;
    let mut sink = AhoCorasickSink { state: SinkState::new(0, 0, 0, true), ac: &set };
    assert!(sink.matched(&second_line(None), &always));
    assert!(sink.state.matches[0].is_definition);
}

#[test]
fn the_column_is_where_the_first_highlight_starts() {
    let re = build_regex("ab+a|a$|b", true).unwrap();
    let mut by_regex = RegexSink { state: SinkState::new(0, 0, 0, false), re: &re };
    assert!(by_regex.matched(&second_line(None), &no_definitions));
    let m = &by_regex.state.matches[0];
    assert_eq!(m.match_byte_offsets.to_vec(), vec![(7, 10), (10, 11), (13, 14)]);
    assert_eq!(m.col, 7);
    let set = build_pattern_set(&["b", "nd a"], true).unwrap();
    let mut by_set = AhoCorasickSink { state: SinkState::new(0, 0, 0, false), ac: &set };
    assert!(by_set.matched(&second_line(None), &no_definitions));
    let m = &by_set.state.matches[0];
    assert_eq!(m.match_byte_offsets.to_vec(), vec![(4, 8), (8, 9), (10, 11), (13, 14)]);
    assert_eq!(m.col, 4);
}
