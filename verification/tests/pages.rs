use fff_grep_core::{
    file_outcome, must_stop, polls_stop, FileItem, FileMatches, GrepContext, GrepMatch, GrepResult,
    GrepRun, GrepSearchOptions, MatchSpans,
};

fn file(id: usize) -> FileItem {
    FileItem {
        id,
        size: 10,
        modified: 0,
        total_frecency_score: 0,
        is_deleted: false,
        is_binary: false,
        is_overflow: id % 2 == 1,
        is_git_changed: false,
    }
}

fn line(text: &str) -> GrepMatch {
    GrepMatch {
        file_index: 99,
        line_number: 1,
        col: 2,
        byte_offset: 0,
        line_content: text.to_string(),
        match_byte_offsets: MatchSpans::from_vec(&vec![(2, 3)]),
        fuzzy_score: None,
        is_definition: false,
        context_before: vec![],
        context_after: vec![],
    }
}

fn lines(count: usize) -> Vec<GrepMatch> {
    let mut all: Vec<GrepMatch> = Vec::new();
    let mut i: usize = 0;
    while i < count {
        all.push(line("  x"));
        i += 1;
    }
    all
}

fn options(page_limit: usize, file_offset: usize) -> GrepSearchOptions {
    GrepSearchOptions { page_limit, file_offset, ..GrepSearchOptions::default() }
}

fn summary(result: &GrepResult) -> (Vec<usize>, Vec<usize>, usize, usize) {
    (
        result.files.iter().map(|f| f.id).collect(),
        result.matches.iter().map(|m| m.file_index).collect(),
        result.total_files_searched,
        result.next_file_offset,
    )
}

#[test]
fn an_empty_result_carries_the_counts() {
    let result = GrepResult::empty(7, 3);
    assert_eq!(summary(&result), (vec![], vec![], 0, 0));
    assert_eq!((result.total_files, result.filtered_file_count), (7, 3));
    assert_eq!(result.files_with_matches, 0);
    assert_eq!(result.regex_fallback_error, None);
    let blank = GrepResult::default();
    assert_eq!((blank.total_files, blank.filtered_file_count), (0, 0));
}

#[test]
fn a_page_finishes_the_file_that_fills_it() {
    let (a, b, c) = (file(0), file(1), file(2));
    let found: Vec<FileMatches> = vec![(1, &a, lines(2)), (3, &b, lines(5)), (4, &c, lines(1))];
    let result = GrepResult::collect(found, 10, &options(3, 20), 50, 30, 10);
    assert_eq!(summary(&result), (vec![0, 1], vec![0, 0, 1, 1, 1, 1, 1], 4, 24));
    assert_eq!(result.files_with_matches, 2);
    assert_eq!((result.total_files, result.filtered_file_count), (50, 30));
}

#[test]
fn the_last_page_names_no_next_one() {
    let a = file(0);
    let found: Vec<FileMatches> = vec![(1, &a, lines(2))];
    let result = GrepResult::collect(found, 10, &options(3, 20), 50, 30, 10);
    assert_eq!(summary(&result), (vec![0], vec![0, 0], 2, 0));
    let found: Vec<FileMatches> = vec![(9, &a, lines(3))];
    let full = GrepResult::collect(found, 10, &options(3, 20), 50, 30, 10);
    assert_eq!(summary(&full), (vec![0], vec![0, 0, 0], 10, 0));
    let nothing = GrepResult::collect(vec![], 10, &options(3, 20), 50, 30, 10);
    assert_eq!(summary(&nothing), (vec![], vec![], 10, 0));
}

#[test]
fn a_search_cut_short_always_names_a_next_page() {
    let a = file(0);
    let found: Vec<FileMatches> = vec![(1, &a, lines(1))];
    let result = GrepResult::collect(found, 10, &options(3, 20), 50, 30, 6);
    assert_eq!(summary(&result), (vec![0], vec![0], 2, 22));
    let nothing = GrepResult::collect(vec![], 10, &options(3, 20), 50, 30, 6);
    assert_eq!(summary(&nothing), (vec![], vec![], 6, 26));
    let unread = GrepResult::collect(vec![], 10, &options(3, 20), 50, 30, 0);
    assert_eq!(summary(&unread), (vec![], vec![], 0, 20));
    let unstarted = GrepResult::collect(vec![], 10, &options(3, 0), 50, 30, 0);
    assert_eq!(summary(&unstarted), (vec![], vec![], 0, 10));
}

#[test]
fn a_page_limit_of_zero_takes_one_file() {
    let (a, b) = (file(0), file(1));
    let found: Vec<FileMatches> = vec![(0, &a, lines(2)), (1, &b, lines(1))];
    let result = GrepResult::collect(found, 2, &options(0, 0), 2, 2, 2);
    assert_eq!(summary(&result), (vec![0], vec![0, 0], 1, 1));
}

#[test]
fn matches_are_trimmed_on_request() {
    let a = file(0);
    let trimming = GrepSearchOptions { trim_whitespace: true, ..options(50, 0) };
    let result = GrepResult::collect(vec![(0, &a, lines(1))], 1, &trimming, 1, 1, 1);
    assert_eq!(result.matches[0].line_content, "x");
    assert_eq!(result.matches[0].col, 0);
    assert_eq!(result.matches[0].match_byte_offsets.to_vec(), vec![(0, 1)]);
    let kept = GrepResult::collect(vec![(0, &a, lines(1))], 1, &options(50, 0), 1, 1, 1);
    assert_eq!(kept.matches[0].line_content, "  x");
}

#[test]
fn all_pages_together_yield_every_file_once() {
    let items: Vec<FileItem> = vec![file(0), file(1), file(2), file(3), file(4), file(5)];
    let counts: Vec<usize> = vec![1, 0, 4, 2, 0, 3];
    let mut seen: Vec<usize> = Vec::new();
    let mut total: usize = 0;
    let mut offset: usize = 0;
    loop {
        let mut found: Vec<FileMatches> = Vec::new();
        let mut i: usize = offset;
        while i < items.len() {
            if counts[i] > 0 {
                found.push((i - offset, &items[i], lines(counts[i])));
            }
            i += 1;
        }
        let left: usize = items.len() - offset;
        let page = GrepResult::collect(found, left, &options(2, offset), 6, 6, left);
        seen.extend(page.files.iter().map(|f| f.id));
        total += page.matches.len();
        assert!(page.matches.len() <= 2 + 4 - 1);
        if page.next_file_offset == 0 {
            break;
        }
        assert!(page.next_file_offset > offset);
        offset = page.next_file_offset;
    }
    assert_eq!(seen, vec![0, 2, 3, 5]);
    assert_eq!(total, 10);
}

#[test]
fn chunks_grow_while_the_prefilter_is_weak() {
    let mut run = GrepRun::new(100, 100, &options(50, 0), 1);
    assert_eq!(run.next_chunk(), Some((0, 4)));
    run.absorb(vec![], 4);
    assert_eq!(run.next_chunk(), Some((4, 12)));
    run.absorb(vec![], 12);
    assert_eq!(run.next_chunk(), Some((12, 28)));
    run.absorb(vec![], 28);
    assert_eq!(run.next_chunk(), Some((28, 60)));
    run.absorb(vec![], 60);
    assert_eq!(run.next_chunk(), Some((60, 100)));
    run.absorb(vec![], 100);
    assert_eq!(run.next_chunk(), None);
    assert_eq!(summary(&run.finish(100, 100)), (vec![], vec![], 100, 0));
}

#[test]
fn chunks_stay_small_behind_a_strong_prefilter() {
    let mut run = GrepRun::new(10, 21, &options(50, 0), 1);
    assert_eq!(run.next_chunk(), Some((0, 4)));
    assert_eq!(run.next_chunk(), Some((4, 8)));
    assert_eq!(run.next_chunk(), Some((8, 10)));
    assert_eq!(run.next_chunk(), None);
    let mut half = GrepRun::new(10, 20, &options(50, 0), 1);
    assert_eq!(half.next_chunk(), Some((0, 4)));
    assert_eq!(half.next_chunk(), Some((4, 10)));
}

#[test]
fn a_run_ends_when_its_page_is_filled() {
    let (a, b) = (file(0), file(1));
    let mut run = GrepRun::new(100, 100, &options(2, 5), 1);
    assert_eq!(run.next_chunk(), Some((0, 4)));
    run.absorb(vec![(1, &a, lines(1))], 4);
    assert_eq!(run.next_chunk(), Some((4, 12)));
    run.absorb(vec![(6, &b, lines(3)), (7, &a, lines(1))], 12);
    assert_eq!(run.next_chunk(), None);
    assert_eq!(summary(&run.finish(100, 100)), (vec![0, 1], vec![0, 1, 1, 1], 7, 12));
}

#[test]
fn a_run_that_was_cut_short_resumes_at_the_first_unread_file() {
    let a = file(0);
    let mut run = GrepRun::new(100, 100, &options(9, 5), 1);
    assert_eq!(run.next_chunk(), Some((0, 4)));
    run.absorb(vec![(1, &a, lines(1))], 3);
    assert_eq!(run.next_chunk(), None);
    assert_eq!(summary(&run.finish(100, 100)), (vec![0], vec![0], 3, 8));
    let mut unread = GrepRun::new(1, 1, &options(9, 0), 1);
    assert_eq!(unread.next_chunk(), Some((0, 1)));
    unread.absorb(vec![], 0);
    assert_eq!(unread.next_chunk(), None);
    assert_eq!(summary(&unread.finish(1, 1)), (vec![], vec![], 0, 1));
}

#[test]
fn stop_conditions_are_polled_on_every_eighth_file() {
    assert!(polls_stop(0));
    assert!(!polls_stop(1));
    assert!(!polls_stop(7));
    assert!(polls_stop(8));
}

#[test]
fn a_search_stops_when_aborted_or_out_of_time() {
    assert!(must_stop(true, 0, 0));
    assert!(!must_stop(false, 0, u128::MAX));
    assert!(!must_stop(false, 5, 5_000_000));
    assert!(must_stop(false, 5, 5_000_001));
}

#[test]
fn a_file_without_matches_contributes_nothing() {
    let a = file(0);
    assert!(file_outcome(8, 2, &a, vec![]).is_none());
    let (position, found, matches) = file_outcome(8, 2, &a, lines(2)).unwrap();
    assert_eq!((position, found.id, matches.len()), (10, 0, 2));
}

#[test]
fn a_context_knows_arenas_and_contents_worth_a_search() {
    let context = GrepContext {
        total_files: 1,
        filtered_file_count: 1,
        arena: "base",
        overflow_arena: "overflow",
        prefilter: Some(b"needle"),
        prefilter_case_insensitive: true,
    };
    assert_eq!(context.arena_for_file(&file(0)), "base");
    assert_eq!(context.arena_for_file(&file(1)), "overflow");
    assert!(context.may_match(b"a NEEDLE here"));
    assert!(!context.may_match(b"hay"));
    let exact = GrepContext { prefilter_case_insensitive: false, ..context };
    assert!(!exact.may_match(b"a NEEDLE here"));
    let open = GrepContext { prefilter: None, ..context };
    assert!(open.may_match(b""));
    let search = |_: &(), _: &[u8]| lines(1);
    assert_eq!(context.search_file(&(), b"needle", &search).len(), 1);
    assert_eq!(context.search_file(&(), b"hay", &search).len(), 0);
}

#[test]
fn chunks_do_not_show_in_the_page() {
    let (a, b, c) = (file(0), file(1), file(2));
    let mut run = GrepRun::new(12, 12, &options(3, 0), 1);
    assert_eq!(run.next_chunk(), Some((0, 4)));
    run.absorb(vec![(2, &a, lines(1))], 4);
    assert_eq!(run.next_chunk(), Some((4, 12)));
    run.absorb(vec![(5, &b, lines(2)), (9, &c, lines(1))], 12);
    assert_eq!(run.next_chunk(), None);
    let chunked = run.finish(12, 12);
    let whole: Vec<FileMatches> = vec![(2, &a, lines(1)), (5, &b, lines(2)), (9, &c, lines(1))];
    let at_once = GrepResult::collect(whole, 12, &options(3, 0), 12, 12, 12);
    assert_eq!(summary(&chunked), summary(&at_once));
    assert_eq!(summary(&chunked), (vec![0, 1], vec![0, 1, 1], 6, 6));
}
