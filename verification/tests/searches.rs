use fff_grep_core::{
    bigram_boundary, choose_files, grep_search, multi_grep_search, multi_matcher, multi_sink,
    patterns_are_blank, resolve_text, BigramQuery, ChunkMatches, Constraint, ContentPlan, FileItem,
    GrepContext, GrepMatch, GrepMode, GrepQuery, GrepResult, GrepSearchOptions, IndexAnswer, LineMatcher,
    LineSink, MultiIndexAnswer, OverlayChanges, PatternSet, SearchPlan, SinkMatch,
    FUZZY_BIGRAM_PROBES, MAX_FFFILE_SIZE,
};
use std::cell::RefCell;

const CONTENTS: [&[u8]; 4] = [
    b"fn alpha() {}\n    let beta = 1;\n",
    b"nothing here\n",
    b"BETA\nbeta beta\n",
    b"a.b\nalpha\\nvim\n",
];

fn files() -> Vec<FileItem> {
    let mut all: Vec<FileItem> = Vec::new();
    let mut id: usize = 0;
    while id < CONTENTS.len() {
        all.push(FileItem {
            id,
            size: CONTENTS[id].len() as u64,
            modified: 0,
            total_frecency_score: 0,
            is_deleted: false,
            is_binary: false,
            is_overflow: false,
            is_git_changed: false,
        });
        id += 1;
    }
    all
}

fn query(text: &str) -> GrepQuery {
    GrepQuery {
        raw_query: text.to_string(),
        text: Some(text.to_string()),
        constraints: vec![],
    }
}

fn no_definitions(_: &str) -> bool {
    false
}

fn chunk_matches(found: Vec<Vec<GrepMatch>>) -> ChunkMatches {
    let mut found = found.into_iter();
    ChunkMatches { first: found.next().unwrap(), rest: found.collect() }
}

/// A line searcher: reports every line that holds a match.
fn search_lines(matcher: &LineMatcher, content: &[u8], sink: &mut LineSink) {
    let mut start: usize = 0;
    let mut number: u64 = 1;
    while start < content.len() {
        let end = match content[start..].iter().position(|b| *b == b'\n') {
            Some(at) => start + at + 1,
            None => content.len(),
        };
        let line = &content[start..end];
        if matcher.find_at(line, 0).is_some() {
            let mat = SinkMatch {
                buffer: content,
                start,
                end,
                absolute_byte_offset: start as u64,
                line_number: Some(number),
            };
            if !sink.matched(&mat, &no_definitions) {
                return;
            }
        }
        start = end;
        number += 1;
    }
}

fn no_index(_: &BigramQuery) -> IndexAnswer {
    IndexAnswer { raw: None, overlay: None }
}

fn no_fuzzy<'a>(_: &str, _: &[&'a FileItem], _: usize, _: usize, _: bool) -> GrepResult<'a> {
    panic!("no fuzzy search was asked for")
}

fn run<'a>(
    files: &'a [FileItem],
    query: &GrepQuery,
    options: &GrepSearchOptions,
) -> GrepResult<'a> {
    run_asking(files, query, options, &no_index)
}

fn run_asking<'a, I: Fn(&BigramQuery) -> IndexAnswer>(
    files: &'a [FileItem],
    query: &GrepQuery,
    options: &GrepSearchOptions,
    ask_index: &I,
) -> GrepResult<'a> {
    let search_chunk = |ctx: &GrepContext<u8>,
                        plan: &ContentPlan,
                        chunk: &[&'a FileItem]| {
        let search = |plan: &ContentPlan, content: &[u8]| {
            let mut sink = plan.sink(options.max_matches_per_file, options);
            search_lines(&plan.matcher(), content, &mut sink);
            sink.into_matches()
        };
        let found: Vec<Vec<GrepMatch>> =
            chunk.iter().map(|f| ctx.search_file(plan, CONTENTS[f.id], &search)).collect();
        chunk_matches(found)
    };
    grep_search(
        files,
        query,
        options,
        None,
        (0u8, 1u8),
        2,
        &|suffix: &str| suffix == "*.rs",
        ask_index,
        &|_: &[Constraint]| vec![true; 4],
        &no_fuzzy,
        &search_chunk,
    )
}

fn found(result: &GrepResult) -> Vec<(usize, u64, String)> {
    result
        .matches
        .iter()
        .map(|m| (result.files[m.file_index].id, m.line_number, m.line_content.clone()))
        .collect()
}

#[test]
fn default_options() {
    let options = GrepSearchOptions::default();
    assert_eq!(options.max_file_size, MAX_FFFILE_SIZE);
    assert_eq!(options.max_matches_per_file, 200);
    assert!(options.smart_case);
    assert_eq!((options.file_offset, options.page_limit), (0, 50));
    assert_eq!(options.mode, GrepMode::PlainText);
    assert_eq!(GrepMode::default(), GrepMode::PlainText);
    assert_eq!(options.time_budget_ms, 0);
    assert_eq!((options.before_context, options.after_context), (0, 0));
    assert!(!options.classify_definitions && !options.trim_whitespace);
    assert!(options.abort_signal.is_none());
}

#[test]
fn a_plain_search_ignores_case_for_small_letters() {
    let files = files();
    let result = run(&files, &query("beta"), &GrepSearchOptions::default());
    assert_eq!(
        found(&result),
        vec![
            (0, 2, "    let beta = 1;".to_string()),
            (2, 1, "BETA".to_string()),
            (2, 2, "beta beta".to_string()),
        ]
    );
    assert_eq!(result.matches[2].match_byte_offsets.to_vec(), vec![(0, 4), (5, 9)]);
    assert_eq!(result.matches[0].col, 8);
    assert_eq!(result.total_files_searched, 4);
    assert_eq!(result.next_file_offset, 0);
    assert_eq!((result.total_files, result.filtered_file_count), (4, 4));
}

#[test]
fn a_capital_letter_makes_a_search_exact() {
    let files = files();
    let result = run(&files, &query("BETA"), &GrepSearchOptions::default());
    assert_eq!(found(&result), vec![(2, 1, "BETA".to_string())]);
}

#[test]
fn a_page_names_the_next_one() {
    let files = files();
    let first = GrepSearchOptions { page_limit: 1, ..GrepSearchOptions::default() };
    let result = run(&files, &query("beta"), &first);
    assert_eq!(found(&result).len(), 1);
    assert_eq!(result.next_file_offset, 1);
    let second = GrepSearchOptions { file_offset: 1, ..first };
    let result = run(&files, &query("beta"), &second);
    assert_eq!(found(&result).len(), 2);
    assert_eq!(result.next_file_offset, 3);
    assert_eq!(result.filtered_file_count, 4);
    let last = GrepSearchOptions { file_offset: 3, ..second };
    let result = run(&files, &query("beta"), &last);
    assert_eq!(found(&result).len(), 0);
    assert_eq!(result.next_file_offset, 0);
}

#[test]
fn a_regex_search_matches_the_regex() {
    let files = files();
    let options = GrepSearchOptions { mode: GrepMode::Regex, ..GrepSearchOptions::default() };
    let result = run(&files, &query("^a.b$|lph"), &options);
    assert_eq!(
        found(&result),
        vec![
            (0, 1, "fn alpha() {}".to_string()),
            (3, 1, "a.b".to_string()),
            (3, 2, "alpha\\nvim".to_string()),
        ]
    );
    assert_eq!(result.matches[0].match_byte_offsets.to_vec(), vec![(4, 7)]);
    assert_eq!(result.regex_fallback_error, None);
}

#[test]
fn a_broken_regex_is_searched_for_literally() {
    let files = files();
    let options = GrepSearchOptions { mode: GrepMode::Regex, ..GrepSearchOptions::default() };
    let result = run(&files, &query("alpha("), &options);
    assert_eq!(found(&result), vec![(0, 1, "fn alpha() {}".to_string())]);
    assert!(result.regex_fallback_error.unwrap().contains("unclosed group"));
    let behind = GrepSearchOptions { file_offset: 9, ..options };
    let result = run(&files, &query("alpha("), &behind);
    assert!(result.matches.is_empty());
    assert!(result.regex_fallback_error.unwrap().contains("unclosed group"));
    assert_eq!((result.total_files, result.filtered_file_count), (4, 4));
}

#[test]
fn an_empty_query_lists_the_files_changed_in_git() {
    let mut files = files();
    files[1].is_git_changed = true;
    files[2].is_git_changed = true;
    files[2].total_frecency_score = 5;
    files[3].is_git_changed = true;
    files[3].is_deleted = true;
    let empty = GrepQuery { raw_query: "  ".to_string(), text: None, constraints: vec![] };
    let result = run(&files, &empty, &GrepSearchOptions::default());
    assert!(result.matches.is_empty());
    assert_eq!(result.files.iter().map(|f| f.id).collect::<Vec<_>>(), vec![2, 1]);
    assert_eq!(result.files_with_matches, 0);
    assert_eq!((result.total_files, result.filtered_file_count), (3, 3));
    assert_eq!((result.total_files_searched, result.next_file_offset), (0, 0));
}

#[test]
fn an_escaped_constraint_is_text() {
    let escaped = GrepQuery {
        raw_query: " \\*.rs ".to_string(),
        text: None,
        constraints: vec![],
    };
    assert_eq!(escaped.suffix_to_parse(), Some("*.rs".to_string()));
    let parse = |suffix: &str| suffix == "*.rs";
    assert_eq!(resolve_text(&escaped, &parse), "*.rs");
    assert_eq!(resolve_text(&escaped, &|_: &str| false), "\\*.rs");
    assert_eq!(escaped.grep_text(true), "*.rs");
    assert_eq!(escaped.grep_text(false), "\\*.rs");
}

#[test]
fn a_query_without_an_escape_is_its_own_text() {
    let bare = GrepQuery { raw_query: "\u{a0}\\ ".to_string(), text: None, constraints: vec![] };
    assert_eq!(bare.suffix_to_parse(), None);
    assert_eq!(bare.grep_text(true), "\\");
    let tokens = GrepQuery {
        raw_query: "\\x *.rs".to_string(),
        text: Some("\\x".to_string()),
        constraints: vec![Constraint::Other(0)],
    };
    assert_eq!(tokens.suffix_to_parse(), None);
    assert_eq!(tokens.grep_text(true), "\\x");
}

#[test]
fn a_plan_unescapes_newlines() {
    let plan = ContentPlan::new("Foo\\nBar", true, None);
    assert!(plan.is_multiline && !plan.case_insensitive);
    assert_eq!(plan.effective_pattern, "Foo\nBar");
    assert_eq!(plan.finder_pattern, b"Foo\nBar");
    assert_eq!(plan.prefilter(), Some(&b"Foo\nBar"[..]));
    let lower = ContentPlan::new("foo", true, None);
    assert!(!lower.is_multiline && lower.case_insensitive);
    match lower.bigram_query() {
        BigramQuery::Literal(bytes) => assert_eq!(bytes, b"foo"),
        _ => panic!("expected a literal"),
    }
}

#[test]
fn a_case_insensitive_plan_lowers_its_pattern() {
    // The letter is not uppercase by itself, so the search ignores case and lowers ASCII only.
    let plan = ContentPlan::new("\u{1f88}x", true, None);
    assert!(plan.case_insensitive);
    assert_eq!(plan.finder_pattern, "\u{1f88}x".as_bytes());
    let exact = ContentPlan::new("abc", false, None);
    assert!(!exact.case_insensitive);
}

#[test]
fn a_plan_for_each_mode() {
    let mut options = GrepSearchOptions::default();
    assert!(matches!(SearchPlan::new(String::new(), &options), SearchPlan::Nothing));
    assert!(matches!(SearchPlan::new("x".to_string(), &options), SearchPlan::Content(_)));
    options.mode = GrepMode::Fuzzy;
    match SearchPlan::new("schema".to_string(), &options) {
        SearchPlan::Fuzzy { grep_text, case_insensitive } => {
            assert_eq!(grep_text, "schema");
            assert!(case_insensitive);
        }
        _ => panic!("expected a fuzzy search"),
    }
    options.mode = GrepMode::Regex;
    match SearchPlan::new("a|b".to_string(), &options) {
        SearchPlan::Content(plan) => {
            assert!(plan.regex.is_some());
            assert_eq!(plan.prefilter(), None);
            match plan.bigram_query() {
                BigramQuery::Regex(pattern) => assert_eq!(pattern, "a|b"),
                _ => panic!("expected a regex"),
            }
        }
        _ => panic!("expected a content search"),
    }
}

#[test]
fn a_fuzzy_search_is_handed_on() {
    let files = files();
    let options = GrepSearchOptions { mode: GrepMode::Fuzzy, ..GrepSearchOptions::default() };
    let asked: RefCell<Vec<String>> = RefCell::new(Vec::new());
    let ask_index = |question: &BigramQuery| {
        match question {
            BigramQuery::Fuzzy { text, probes } => {
                assert_eq!(*probes, FUZZY_BIGRAM_PROBES);
                asked.borrow_mut().push(text.to_string());
            }
            _ => panic!("expected a fuzzy question"),
        }
        IndexAnswer {
            raw: Some(vec![0b0001]),
            overlay: Some(OverlayChanges { tombstones: vec![], modified: vec![2] }),
        }
    };
    fn fuzzy<'a>(
        text: &str,
        chosen: &[&'a FileItem],
        total: usize,
        filtered: usize,
        case_insensitive: bool,
    ) -> GrepResult<'a> {
        assert_eq!(text, "alhpa");
        assert_eq!(chosen.iter().map(|f| f.id).collect::<Vec<_>>(), vec![0, 2]);
        assert!(case_insensitive);
        GrepResult::empty(total, filtered)
    }
    let search_chunk = |_: &GrepContext<u8>, _: &ContentPlan, _: &[&FileItem]| -> ChunkMatches {
        panic!("no content search was asked for")
    };
    let result = grep_search(
        &files,
        &query("alhpa"),
        &options,
        None,
        (0u8, 1u8),
        1,
        &|_: &str| false,
        &ask_index,
        &|_: &[Constraint]| vec![true; 4],
        &fuzzy,
        &search_chunk,
    );
    assert_eq!(asked.into_inner(), vec!["alhpa"]);
    assert_eq!((result.total_files, result.filtered_file_count), (4, 2));
}

#[test]
fn choosing_files_retries_without_paths() {
    let files = files();
    let asked: RefCell<Vec<Vec<Constraint>>> = RefCell::new(Vec::new());
    let meets = |constraints: &[Constraint]| {
        asked.borrow_mut().push(constraints.to_vec());
        if constraints.len() == 2 {
            vec![false; 4]
        } else {
            vec![true, false, true, false]
        }
    };
    let constraints = [Constraint::FilePath(0), Constraint::Other(1)];
    let options = GrepSearchOptions::default();
    let (chosen, count) = choose_files(&files, &constraints, &None, 4, &options, &meets);
    assert_eq!(chosen.iter().map(|f| f.id).collect::<Vec<_>>(), vec![0, 2]);
    assert_eq!(count, 2);
    assert_eq!(asked.borrow().len(), 2);
    let only_path = [Constraint::FilePath(0)];
    let (chosen, _) =
        choose_files(&files, &only_path, &None, 4, &options, &|_: &[Constraint]| vec![false; 4]);
    assert_eq!(chosen.len(), 4);
    let (chosen, count) = choose_files(
        &files,
        &[Constraint::Other(0)],
        &None,
        4,
        &options,
        &|_: &[Constraint]| vec![false; 4],
    );
    assert_eq!((chosen.len(), count), (0, 0));
}

/// Searches for a letter page by page, with `allowed` files of each chunk searched before time is
/// up. Tells which files had matches.
fn walk_cut_short(allowed: usize) -> Vec<usize> {
    let files = files();
    let mut seen: Vec<usize> = Vec::new();
    let mut offset: usize = 0;
    loop {
        let options = GrepSearchOptions { file_offset: offset, ..GrepSearchOptions::default() };
        let search_chunk =
            |ctx: &GrepContext<u8>, plan: &ContentPlan, chunk: &[&FileItem]| {
                let search = |plan: &ContentPlan, content: &[u8]| {
                    let mut sink = plan.sink(options.max_matches_per_file, &options);
                    search_lines(&plan.matcher(), content, &mut sink);
                    sink.into_matches()
                };
                let found: Vec<Vec<GrepMatch>> = chunk
                    .iter()
                    .take(allowed)
                    .map(|f| ctx.search_file(plan, CONTENTS[f.id], &search))
                    .collect();
                chunk_matches(found)
            };
        let result = grep_search(
            &files,
            &query("a"),
            &options,
            None,
            (0u8, 1u8),
            1,
            &|_: &str| false,
            &no_index,
            &|_: &[Constraint]| vec![true; 4],
            &no_fuzzy,
            &search_chunk,
        );
        assert_eq!(result.total_files_searched, allowed);
        seen.extend(result.files.iter().map(|f| f.id));
        if result.next_file_offset == 0 {
            assert_eq!(offset + allowed, 4);
            return seen;
        }
        assert_eq!(result.next_file_offset, offset + allowed);
        offset = result.next_file_offset;
    }
}

#[test]
fn a_search_cut_short_resumes_where_it_stopped() {
    assert_eq!(walk_cut_short(2), vec![0, 2, 3]);
}

#[test]
fn a_search_without_time_gets_through_one_file() {
    assert_eq!(walk_cut_short(1), vec![0, 2, 3]);
}

#[test]
fn a_sound_index_changes_no_match_and_leaves_fewer_files() {
    let files = files();
    let options = GrepSearchOptions::default();
    let sound = |_: &BigramQuery| IndexAnswer { raw: Some(vec![0b1101]), overlay: None };
    let plain = run(&files, &query("alpha"), &options);
    let indexed = run_asking(&files, &query("alpha"), &options, &sound);
    assert!(!plain.matches.is_empty());
    assert_eq!(found(&indexed), found(&plain));
    assert_eq!((plain.filtered_file_count, indexed.filtered_file_count), (4, 3));
}

#[test]
fn a_search_repeated_gives_the_same() {
    let files = files();
    let options = GrepSearchOptions { mode: GrepMode::Regex, ..GrepSearchOptions::default() };
    let first = run(&files, &query("b[e]ta|alpha"), &options);
    let second = run(&files, &query("b[e]ta|alpha"), &options);
    assert_eq!(found(&first).len(), 5);
    assert_eq!(found(&first), found(&second));
    assert_eq!(first.next_file_offset, second.next_file_offset);
}

#[test]
fn the_index_covers_the_files_it_was_built_for() {
    assert_eq!(bigram_boundary(Some(3), 10), 3);
    assert_eq!(bigram_boundary(None, 10), 10);
}

fn run_multi<'a>(
    files: &'a [FileItem],
    patterns: &[&str],
    ask_index: &dyn Fn(&[&str]) -> MultiIndexAnswer,
) -> GrepResult<'a> {
    let options = GrepSearchOptions::default();
    let search_chunk =
        |ctx: &GrepContext<u8>, set: &PatternSet, chunk: &[&'a FileItem]| {
            assert!(ctx.prefilter.is_none());
            let found: Vec<Vec<GrepMatch>> = chunk
                .iter()
                .map(|f| {
                    let mut sink = multi_sink(set, 200, &options);
                    search_lines(&multi_matcher(set), CONTENTS[f.id], &mut sink);
                    sink.into_matches()
                })
                .collect();
            chunk_matches(found)
        };
    multi_grep_search(
        files,
        patterns,
        &[],
        &options,
        None,
        (0u8, 1u8),
        1,
        &ask_index,
        &|_: &[Constraint]| vec![true; 4],
        &search_chunk,
    )
    .unwrap()
}

#[test]
fn several_patterns_are_searched_for_at_once() {
    let files = files();
    let silent = |patterns: &[&str]| MultiIndexAnswer {
        per_pattern: vec![None; patterns.len()],
        modified: None,
    };
    let result = run_multi(&files, &["alpha", "beta"], &silent);
    assert_eq!(
        found(&result),
        vec![
            (0, 1, "fn alpha() {}".to_string()),
            (0, 2, "    let beta = 1;".to_string()),
            (2, 1, "BETA".to_string()),
            (2, 2, "beta beta".to_string()),
            (3, 2, "alpha\\nvim".to_string()),
        ]
    );
    let indexed = |_: &[&str]| MultiIndexAnswer {
        per_pattern: vec![Some(vec![0b0001]), Some(vec![0b0000])],
        modified: Some(vec![vec![], vec![3]]),
    };
    let result = run_multi(&files, &["alpha", "beta"], &indexed);
    assert_eq!(result.filtered_file_count, 2);
    assert_eq!(found(&result).len(), 3);
    let partial = |_: &[&str]| MultiIndexAnswer {
        per_pattern: vec![Some(vec![0b0001]), None],
        modified: None,
    };
    let result = run_multi(&files, &["alpha", "beta"], &partial);
    assert_eq!(result.filtered_file_count, 4);
    assert_eq!(found(&result).len(), 5);
}

#[test]
fn blank_patterns_search_nothing() {
    assert!(patterns_are_blank(&[]));
    assert!(patterns_are_blank(&["", ""]));
    assert!(!patterns_are_blank(&["", "x"]));
    let files = files();
    let never = |_: &[&str]| -> MultiIndexAnswer { panic!("the index was asked") };
    let result = run_multi(&files, &["", ""], &never);
    assert!(result.matches.is_empty());
    assert_eq!((result.total_files, result.filtered_file_count), (4, 4));
}
