//! What searches give while nothing around them changes.
use crate::agreement::{
    files_of_results, finds_the_truth, is_search_of, is_whole_search,
    law_sound_index_loses_no_match, law_successive_searches_report_everything_once,
    lemma_found_is_true, lemma_true_hits_split, matches_of_results, same_hits, true_hits,
};
use crate::candidates::{bit_set, IndexAnswer};
use crate::constraints::{has_file_path, without_file_path, Constraint};
use crate::files::{file_values, live_files, FileItem};
use crate::grep::{
    all_matched, are_candidates_for, are_files_for, chosen_by, chunk_searched, found_by,
    is_content_result, is_filter_for, is_page_of_search, is_result_for, is_result_of_plan,
};
use crate::matches::{match_views, MatchView};
use crate::options::{GrepMode, GrepSearchOptions};
use crate::page::{
    consumed_by_run, lemma_page_files, page_of, positions_below, FileHits, GrepResult, PageView,
};
use crate::paging::{detached, law_page_does_not_depend_on_chunks, positions_ascend};
use crate::patterns::{is_compiled_from, regex_built, regex_source, CompiledRegex};
use crate::prefilter::{is_searchable, law_index_leaves_no_more_files, FileFilter};
use crate::run::{ChunkMatches, GrepContext};
use crate::search::{BigramQuery, ContentPlan, SearchPlan};
use crate::text::smart_case_insensitive;
use regex::bytes::Regex;
use vstd::prelude::*;
use vstd::utf8::encode_utf8_decode_utf8;

verus! {

/// The search of a chunk is never cut short: neither an abort nor a time budget stops it.
pub open spec fn never_cut_short<'a, C, P, F: Fn(&C, &P, &[&'a FileItem]) -> ChunkMatches>(
    search_chunk: F,
    plan: &P,
) -> bool {
    forall|ctx: &C, chunk: &[&'a FileItem], found: ChunkMatches| #[trigger]
        call_ensures(search_chunk, (ctx, plan, chunk), found) ==> found.per_file().len()
            >= chunk@.len()
}

/// A filled page takes no further file.
proof fn lemma_filled_page_stays(
    page: PageView,
    more: Seq<FileHits>,
    limit: int,
    trim_whitespace: bool,
)
    requires
        page.filled,
    ensures
        page.offered_all(more, limit, trim_whitespace) == page,
    decreases more.len(),
{
    if more.len() > 0 {
        lemma_filled_page_stays(page, more.drop_last(), limit, trim_whitespace);
    }
}

/// `result` is the page made from all that the files hold.
pub open spec fn is_the_page_of(
    result: GrepResult,
    files: Seq<FileItem>,
    truth: spec_fn(FileItem) -> Seq<MatchView>,
    options: &GrepSearchOptions,
    total_files: int,
    filtered_file_count: int,
) -> bool {
    let count = files.len() as int;
    let hits = true_hits(files, truth, 0, count);
    let page = page_of(hits, options.page_limit as int, options.trim_whitespace);
    result.reports(
        page,
        consumed_by_run(hits, page, count),
        count,
        options.file_offset as int,
        false,
        total_files,
        filtered_file_count,
    )
}

/// A search that is never cut short gives the page made from what the files hold. How they were
/// cut into chunks does not show.
pub proof fn law_undisturbed_search_gives_the_page<
    'a,
    C,
    P,
    F: Fn(&C, &P, &[&'a FileItem]) -> ChunkMatches,
>(
    result: GrepResult<'a>,
    search_chunk: F,
    ctx: &C,
    plan: &P,
    options: &GrepSearchOptions,
    chosen: Seq<&'a FileItem>,
    total_files: usize,
    filtered_file_count: usize,
    truth: spec_fn(FileItem) -> Seq<MatchView>,
)
    requires
        is_page_of_search(
            result,
            search_chunk,
            ctx,
            plan,
            options,
            chosen,
            total_files,
            filtered_file_count,
        ),
        finds_the_truth::<C, P, F>(search_chunk, plan, truth),
        never_cut_short::<C, P, F>(search_chunk, plan),
    ensures
        is_the_page_of(
            result,
            file_values(chosen),
            truth,
            options,
            total_files as int,
            filtered_file_count as int,
        ),
{
    let (limit, trim) = (options.page_limit as int, options.trim_whitespace);
    let (end, hits, stopped) = choose|end: int, hits: Seq<FileHits>, stopped: bool|
        {
            let page = page_of(hits, limit, trim);
            &&& #[trigger] found_by(search_chunk, ctx, plan, chosen, end, hits, stopped)
            &&& positions_ascend(hits)
            &&& positions_below(hits, end)
            &&& all_matched(hits)
            &&& if stopped {
                end < chosen.len()
            } else {
                end == chosen.len() || page.filled
            }
            &&& result.reports(
                page,
                consumed_by_run(hits, page, end),
                chosen.len() as int,
                options.file_offset as int,
                stopped,
                total_files as int,
                filtered_file_count as int,
            )
        };
    let files = file_values(chosen);
    let count = files.len() as int;
    assert(count == chosen.len());
    lemma_found_is_true(search_chunk, ctx, plan, chosen, end, hits, stopped, truth);
    if stopped {
        let (start, before, chunk, found) = choose|
            start: int,
            before: Seq<FileHits>,
            chunk: &[&'a FileItem],
            found: ChunkMatches,
        |
            {
                &&& #[trigger] chunk_searched(
                    search_chunk,
                    ctx,
                    plan,
                    chosen,
                    start,
                    end,
                    before,
                    hits,
                    chunk,
                    found,
                    stopped,
                )
                &&& found_by(search_chunk, ctx, plan, chosen, start, before, false)
            };
        assert(call_ensures(search_chunk, (ctx, plan, chunk), found));
        assert(false);
    }
    let more = true_hits(files, truth, end, count);
    lemma_true_hits_split(files, truth, 0, end, count);
    let page = page_of(hits, limit, trim);
    lemma_page_files(hits, limit, trim);
    if page.filled {
        law_page_does_not_depend_on_chunks(PageView::blank(), hits, more, limit, trim);
        lemma_filled_page_stays(page, more, limit, trim);
        let n = page.files.len() as int;
        assert((hits + more)[n - 1] == hits[n - 1]);
    } else {
        assert(more =~= Seq::<FileHits>::empty());
        assert(hits + more =~= hits);
    }
}

/// Two filters that hold the same values.
spec fn same_filter(a: FileFilter, b: FileFilter) -> bool {
    &&& a.files@ == b.files@
    &&& a.base_count == b.base_count
    &&& a.max_file_size == b.max_file_size
    &&& match (a.admitted, b.admitted) {
        (None, None) => true,
        (Some(x), Some(y)) => x@ == y@,
        _ => false,
    }
    &&& match (a.candidates, b.candidates) {
        (None, None) => true,
        (Some(x), Some(y)) => x@ == y@,
        _ => false,
    }
}

proof fn lemma_same_kept(a: FileFilter, b: FileFilter, end: int)
    requires
        same_filter(a, b),
    ensures
        a.kept_before(end) == b.kept_before(end),
    decreases end,
{
    if end > 0 {
        lemma_same_kept(a, b, end - 1);
        assert(a.keeps(end - 1) == b.keeps(end - 1));
    }
}

/// Filters that hold the same values leave the same files.
proof fn lemma_same_filter(a: FileFilter, b: FileFilter, offset: int)
    requires
        same_filter(a, b),
    ensures
        a.ranked() == b.ranked(),
        0 <= offset ==> a.page(offset) == b.page(offset),
{
    lemma_same_kept(a, b, a.files@.len() as int);
    if 0 <= offset {
        assert(a.page(offset) =~= b.page(offset));
    }
}

/// Whether files meet some constraints does not change.
pub open spec fn meets_is_steady<C: Fn(&[Constraint]) -> Vec<bool>>(meets: C) -> bool {
    forall|a: &[Constraint], b: &[Constraint], x: Vec<bool>, y: Vec<bool>|
        #![trigger call_ensures(meets, (a,), x), call_ensures(meets, (b,), y)]
        call_ensures(meets, (a,), x) && call_ensures(meets, (b,), y) && a@ == b@ ==> x@ == y@
}

/// Two bitsets with the same words, or none at all.
pub open spec fn same_words(a: Option<Vec<u64>>, b: Option<Vec<u64>>) -> bool {
    match (a, b) {
        (None, None) => true,
        (Some(x), Some(y)) => x@ == y@,
        _ => false,
    }
}

/// Two questions that ask an index the same.
pub open spec fn same_question(a: BigramQuery, b: BigramQuery) -> bool {
    match (a, b) {
        (BigramQuery::Literal(x), BigramQuery::Literal(y)) => x@ == y@,
        (BigramQuery::Regex(x), BigramQuery::Regex(y)) => x@ == y@,
        (BigramQuery::Fuzzy { text: x, probes: m }, BigramQuery::Fuzzy { text: y, probes: n }) => {
            x@ == y@ && m == n
        },
        _ => false,
    }
}

/// What an index makes of a question does not change.
pub open spec fn index_is_steady<I: Fn(&BigramQuery) -> IndexAnswer>(ask_index: I) -> bool {
    forall|
        a: &BigramQuery,
        b: &BigramQuery,
        x: Option<Vec<u64>>,
        y: Option<Vec<u64>>,
    |
        #![trigger are_candidates_for(x, a, ask_index), are_candidates_for(y, b, ask_index)]
        are_candidates_for(x, a, ask_index) && are_candidates_for(y, b, ask_index)
            && same_question(*a, *b) ==> same_words(x, y)
}

/// Filters under the same constraints hold the same values.
proof fn lemma_filters_agree<'f, 'g, C: Fn(&[Constraint]) -> Vec<bool>>(
    a: FileFilter<'f>,
    b: FileFilter<'g>,
    files: Seq<FileItem>,
    constraints: Seq<Constraint>,
    meets: C,
    x: Option<Vec<u64>>,
    y: Option<Vec<u64>>,
    base_count: usize,
    max_file_size: u64,
)
    requires
        is_filter_for(a, files, constraints, meets, x, base_count, max_file_size),
        is_filter_for(b, files, constraints, meets, y, base_count, max_file_size),
        same_words(x, y),
        meets_is_steady(meets),
    ensures
        same_filter(a, b),
{
    if constraints.len() > 0 {
        let (list, answer) = choose|list: &[Constraint], answer: Vec<bool>|
            {
                &&& list@ == constraints
                &&& #[trigger] call_ensures(meets, (list,), answer)
                &&& a.admitted matches Some(admitted) && admitted@ == answer@
            };
        let (other, reply) = choose|list: &[Constraint], answer: Vec<bool>|
            {
                &&& list@ == constraints
                &&& #[trigger] call_ensures(meets, (list,), answer)
                &&& b.admitted matches Some(admitted) && admitted@ == answer@
            };
        assert(answer@ == reply@);
    }
}

/// The files to be searched do not change.
proof fn lemma_files_agree<'f, 'g, C: Fn(&[Constraint]) -> Vec<bool>>(
    chosen: Seq<&FileItem>,
    count: usize,
    x: Option<Vec<u64>>,
    other: Seq<&FileItem>,
    number: usize,
    y: Option<Vec<u64>>,
    files: Seq<FileItem>,
    constraints: Seq<Constraint>,
    meets: C,
    base_count: usize,
    max_file_size: u64,
    file_offset: usize,
)
    requires
        are_files_for(
            chosen,
            count,
            files,
            constraints,
            meets,
            x,
            base_count,
            max_file_size,
            file_offset,
        ),
        are_files_for(
            other,
            number,
            files,
            constraints,
            meets,
            y,
            base_count,
            max_file_size,
            file_offset,
        ),
        same_words(x, y),
        meets_is_steady(meets),
    ensures
        file_values(chosen) == file_values(other),
        count == number,
{
    let stripped = without_file_path(constraints);
    let a = choose|a: FileFilter|
        {
            &&& #[trigger] is_filter_for(a, files, constraints, meets, x, base_count, max_file_size)
            &&& if a.ranked().len() > 0 || !has_file_path(constraints) {
                chosen_by(a, file_offset, chosen, count)
            } else {
                exists|retry: FileFilter|
                    {
                        &&& #[trigger] is_filter_for(
                            retry,
                            files,
                            stripped,
                            meets,
                            x,
                            base_count,
                            max_file_size,
                        )
                        &&& chosen_by(retry, file_offset, chosen, count)
                    }
            }
        };
    let b = choose|b: FileFilter|
        {
            &&& #[trigger] is_filter_for(b, files, constraints, meets, y, base_count, max_file_size)
            &&& if b.ranked().len() > 0 || !has_file_path(constraints) {
                chosen_by(b, file_offset, other, number)
            } else {
                exists|retry: FileFilter|
                    {
                        &&& #[trigger] is_filter_for(
                            retry,
                            files,
                            stripped,
                            meets,
                            y,
                            base_count,
                            max_file_size,
                        )
                        &&& chosen_by(retry, file_offset, other, number)
                    }
            }
        };
    lemma_filters_agree(a, b, files, constraints, meets, x, y, base_count, max_file_size);
    lemma_same_filter(a, b, file_offset as int);
    if !(a.ranked().len() > 0 || !has_file_path(constraints)) {
        let c = choose|retry: FileFilter|
            {
                &&& #[trigger] is_filter_for(
                    retry,
                    files,
                    stripped,
                    meets,
                    x,
                    base_count,
                    max_file_size,
                )
                &&& chosen_by(retry, file_offset, chosen, count)
            };
        let d = choose|retry: FileFilter|
            {
                &&& #[trigger] is_filter_for(
                    retry,
                    files,
                    stripped,
                    meets,
                    y,
                    base_count,
                    max_file_size,
                )
                &&& chosen_by(retry, file_offset, other, number)
            };
        lemma_filters_agree(c, d, files, stripped, meets, x, y, base_count, max_file_size);
        lemma_same_filter(c, d, file_offset as int);
    }
}

/// Two results that say the same.
pub open spec fn same_result(a: GrepResult, b: GrepResult) -> bool {
    &&& same_page(a, b)
    &&& match (a.regex_fallback_error, b.regex_fallback_error) {
        (None, None) => true,
        (Some(x), Some(y)) => x@ == y@,
        _ => false,
    }
}

/// Two results that say the same, but for why a text was not searched for as a regex.
pub open spec fn same_page(a: GrepResult, b: GrepResult) -> bool {
    &&& match_views(a.matches@) == match_views(b.matches@)
    &&& file_values(a.files@) == file_values(b.files@)
    &&& a.total_files_searched == b.total_files_searched
    &&& a.total_files == b.total_files
    &&& a.filtered_file_count == b.filtered_file_count
    &&& a.files_with_matches == b.files_with_matches
    &&& a.next_file_offset == b.next_file_offset
}

/// What `is_content_result` says, with the page that the files make in place of how it was found.
pub open spec fn is_true_content_result<'a, C: Fn(&[Constraint]) -> Vec<bool>>(
    result: GrepResult<'a>,
    files: Seq<FileItem>,
    constraints: Seq<Constraint>,
    candidates: Option<Vec<u64>>,
    base_count: usize,
    options: &GrepSearchOptions,
    meets: C,
    truth: spec_fn(FileItem) -> Seq<MatchView>,
) -> bool {
    exists|chosen: Seq<&'a FileItem>, count: usize|
        {
            &&& #[trigger] are_files_for(
                chosen,
                count,
                files,
                constraints,
                meets,
                candidates,
                base_count,
                options.max_file_size,
                options.file_offset,
            )
            &&& if chosen.len() == 0 {
                result.is_empty(live_files(files) as int, count as int)
            } else {
                is_the_page_of(
                    result,
                    file_values(chosen),
                    truth,
                    options,
                    live_files(files) as int,
                    count as int,
                )
            }
        }
}

/// A search of the files that are left to be searched, never cut short, gives the page that the
/// files make.
proof fn lemma_content_result_is_true<
    'a,
    'p,
    A: Copy,
    C: Fn(&[Constraint]) -> Vec<bool>,
    P,
    S: Fn(&GrepContext<'p, A>, &P, &[&'a FileItem]) -> ChunkMatches,
>(
    result: GrepResult<'a>,
    searched: bool,
    files: Seq<FileItem>,
    constraints: Seq<Constraint>,
    candidates: Option<Vec<u64>>,
    base_count: usize,
    options: &GrepSearchOptions,
    arenas: (A, A),
    literal: Option<Seq<u8>>,
    case_insensitive: bool,
    plan: &P,
    meets: C,
    search_chunk: S,
    truth: spec_fn(FileItem) -> Seq<MatchView>,
)
    requires
        is_content_result(
            result,
            searched,
            files,
            constraints,
            candidates,
            base_count,
            options,
            arenas,
            literal,
            case_insensitive,
            plan,
            meets,
            search_chunk,
        ),
        finds_the_truth::<GrepContext<'p, A>, P, S>(search_chunk, plan, truth),
        never_cut_short::<GrepContext<'p, A>, P, S>(search_chunk, plan),
    ensures
        is_true_content_result(
            result,
            files,
            constraints,
            candidates,
            base_count,
            options,
            meets,
            truth,
        ),
{
    let (chosen, count) = choose|chosen: Seq<&'a FileItem>, count: usize|
        {
            &&& #[trigger] are_files_for(
                chosen,
                count,
                files,
                constraints,
                meets,
                candidates,
                base_count,
                options.max_file_size,
                options.file_offset,
            )
            &&& searched == (chosen.len() > 0)
            &&& if !searched {
                result.is_empty(live_files(files) as int, count as int)
            } else {
                exists|ctx: &GrepContext<'p, A>|
                    {
                        &&& ctx.holds(
                            live_files(files) as int,
                            count as int,
                            arenas.0,
                            arenas.1,
                            literal,
                            case_insensitive,
                        )
                        &&& #[trigger] is_page_of_search(
                            result,
                            search_chunk,
                            ctx,
                            plan,
                            options,
                            chosen,
                            ctx.total_files,
                            ctx.filtered_file_count,
                        )
                    }
            }
        };
    if searched {
        let ctx = choose|ctx: &GrepContext<'p, A>|
            {
                &&& ctx.holds(
                    live_files(files) as int,
                    count as int,
                    arenas.0,
                    arenas.1,
                    literal,
                    case_insensitive,
                )
                &&& #[trigger] is_page_of_search(
                    result,
                    search_chunk,
                    ctx,
                    plan,
                    options,
                    chosen,
                    ctx.total_files,
                    ctx.filtered_file_count,
                )
            };
        law_undisturbed_search_gives_the_page(
            result,
            search_chunk,
            ctx,
            plan,
            options,
            chosen,
            ctx.total_files,
            ctx.filtered_file_count,
            truth,
        );
    }
}

/// Two such results say the same.
proof fn lemma_content_results_agree<'a, C: Fn(&[Constraint]) -> Vec<bool>>(
    a: GrepResult<'a>,
    b: GrepResult<'a>,
    files: Seq<FileItem>,
    constraints: Seq<Constraint>,
    x: Option<Vec<u64>>,
    y: Option<Vec<u64>>,
    base_count: usize,
    options: &GrepSearchOptions,
    meets: C,
    truth: spec_fn(FileItem) -> Seq<MatchView>,
)
    requires
        is_true_content_result(a, files, constraints, x, base_count, options, meets, truth),
        is_true_content_result(b, files, constraints, y, base_count, options, meets, truth),
        same_words(x, y),
        meets_is_steady(meets),
    ensures
        same_page(a, b),
        a.regex_fallback_error is None,
        b.regex_fallback_error is None,
{
    let (chosen, count) = choose|chosen: Seq<&'a FileItem>, count: usize|
        {
            &&& #[trigger] are_files_for(
                chosen,
                count,
                files,
                constraints,
                meets,
                x,
                base_count,
                options.max_file_size,
                options.file_offset,
            )
            &&& if chosen.len() == 0 {
                a.is_empty(live_files(files) as int, count as int)
            } else {
                is_the_page_of(
                    a,
                    file_values(chosen),
                    truth,
                    options,
                    live_files(files) as int,
                    count as int,
                )
            }
        };
    let (other, number) = choose|chosen: Seq<&'a FileItem>, count: usize|
        {
            &&& #[trigger] are_files_for(
                chosen,
                count,
                files,
                constraints,
                meets,
                y,
                base_count,
                options.max_file_size,
                options.file_offset,
            )
            &&& if chosen.len() == 0 {
                b.is_empty(live_files(files) as int, count as int)
            } else {
                is_the_page_of(
                    b,
                    file_values(chosen),
                    truth,
                    options,
                    live_files(files) as int,
                    count as int,
                )
            }
        };
    lemma_files_agree(
        chosen,
        count,
        x,
        other,
        number,
        y,
        files,
        constraints,
        meets,
        base_count,
        options.max_file_size,
        options.file_offset,
    );
    assert(file_values(chosen).len() == chosen.len());
    assert(file_values(other).len() == other.len());
}

/// Each file yields `truth` of it by every plan for a text, and no search is cut short.
pub open spec fn finds_the_truth_of<
    'a,
    'p,
    A: Copy,
    S: Fn(&GrepContext<'p, A>, &ContentPlan, &[&'a FileItem]) -> ChunkMatches,
>(
    search_chunk: S,
    text: Seq<char>,
    options: &GrepSearchOptions,
    truth: spec_fn(FileItem) -> Seq<MatchView>,
) -> bool {
    forall|plan: ContentPlan| #[trigger]
        SearchPlan::Content(plan).is_for(text, options) ==> finds_the_truth::<
            GrepContext<'p, A>,
            ContentPlan,
            S,
        >(search_chunk, &plan, truth) && never_cut_short::<GrepContext<'p, A>, ContentPlan, S>(
            search_chunk,
            &plan,
        )
}

/// What is left of a result for a text, once its plan is known: the page that the files make, and
/// why the text was not searched for as a regex.
proof fn lemma_result_is_true<
    'a,
    A: Copy,
    I: Fn(&BigramQuery) -> IndexAnswer,
    C: Fn(&[Constraint]) -> Vec<bool>,
    Z: Fn(&str, &[&'a FileItem], usize, usize, bool) -> GrepResult<'a>,
    S: Fn(&GrepContext<A>, &ContentPlan, &[&'a FileItem]) -> ChunkMatches,
>(
    result: GrepResult<'a>,
    text: Seq<char>,
    files: Seq<FileItem>,
    constraints: Seq<Constraint>,
    base_count: usize,
    options: &GrepSearchOptions,
    arenas: (A, A),
    ask_index: I,
    meets: C,
    search_fuzzy: Z,
    search_chunk: S,
    truth: spec_fn(FileItem) -> Seq<MatchView>,
) -> (outcome: (ContentPlan, BigramQuery<'static>, Option<Vec<u64>>, GrepResult<'a>))
    requires
        text.len() > 0,
        options.mode != GrepMode::Fuzzy,
        is_result_for(
            result,
            text,
            files,
            constraints,
            base_count,
            options,
            arenas,
            ask_index,
            meets,
            search_fuzzy,
            search_chunk,
        ),
        finds_the_truth_of(search_chunk, text, options, truth),
    ensures
        SearchPlan::Content(outcome.0).is_for(text, options),
        outcome.0.asks(outcome.1),
        are_candidates_for(outcome.2, &outcome.1, ask_index),
        is_true_content_result(
            outcome.3,
            files,
            constraints,
            outcome.2,
            base_count,
            options,
            meets,
            truth,
        ),
        result == outcome.0.concluded(outcome.3),
{
    let plan = choose|plan: SearchPlan| #[trigger]
        plan.is_for(text, options) && is_result_of_plan(
            result,
            plan,
            text,
            files,
            constraints,
            base_count,
            options,
            arenas,
            ask_index,
            meets,
            search_fuzzy,
            search_chunk,
        );
    let content = plan->Content_0;
    assert(plan == SearchPlan::Content(content));
    let (question, candidates, page, searched) = choose|
        question: &BigramQuery,
        candidates: Option<Vec<u64>>,
        page: GrepResult<'a>,
        searched: bool,
    |
        {
            &&& plan.asks(*question)
            &&& #[trigger] are_candidates_for(candidates, question, ask_index)
            &&& #[trigger] is_content_result(
                page,
                searched,
                files,
                constraints,
                candidates,
                base_count,
                options,
                arenas,
                content.literal(),
                content.case_insensitive,
                &content,
                meets,
                search_chunk,
            )
            &&& result == content.concluded(page)
        };
    lemma_content_result_is_true(
        page,
        searched,
        files,
        constraints,
        candidates,
        base_count,
        options,
        arenas,
        content.literal(),
        content.case_insensitive,
        &content,
        meets,
        search_chunk,
        truth,
    );
    (content, *question, candidates, page)
}

/// Plans for the same text ask an index the same, and name the same reason not to search for it as
/// a regex.
proof fn lemma_plans_agree(
    a: ContentPlan,
    b: ContentPlan,
    text: Seq<char>,
    options: &GrepSearchOptions,
    x: BigramQuery,
    y: BigramQuery,
)
    requires
        text.len() > 0,
        SearchPlan::Content(a).is_for(text, options),
        SearchPlan::Content(b).is_for(text, options),
        a.asks(x),
        b.asks(y),
    ensures
        same_question(x, y),
        match (a.regex_fallback_error, b.regex_fallback_error) {
            (None, None) => true,
            (Some(m), Some(n)) => m@ == n@,
            _ => false,
        },
{
    encode_utf8_decode_utf8(a.effective_pattern@);
    encode_utf8_decode_utf8(b.effective_pattern@);
    if options.mode == GrepMode::Regex {
        let built = choose|built: Result<CompiledRegex, String>| #[trigger]
            is_compiled_from(built, text, options.smart_case) && a.is_for(
                text,
                options.smart_case,
                Some(built),
            );
        let other = choose|built: Result<CompiledRegex, String>| #[trigger]
            is_compiled_from(built, text, options.smart_case) && b.is_for(
                text,
                options.smart_case,
                Some(built),
            );
        assert(built is Ok <==> other is Ok);
    }
}

/// A search gives the same result again, as long as nothing around it changes: the files hold what
/// they held, the index and the constraints answer as they did, and no search is cut short.
pub proof fn law_a_search_repeated_gives_the_same<
    'a,
    A: Copy,
    I: Fn(&BigramQuery) -> IndexAnswer,
    C: Fn(&[Constraint]) -> Vec<bool>,
    Z: Fn(&str, &[&'a FileItem], usize, usize, bool) -> GrepResult<'a>,
    S: Fn(&GrepContext<A>, &ContentPlan, &[&'a FileItem]) -> ChunkMatches,
>(
    a: GrepResult<'a>,
    b: GrepResult<'a>,
    text: Seq<char>,
    files: Seq<FileItem>,
    constraints: Seq<Constraint>,
    base_count: usize,
    options: &GrepSearchOptions,
    arenas: (A, A),
    ask_index: I,
    meets: C,
    search_fuzzy: Z,
    search_chunk: S,
    truth: spec_fn(FileItem) -> Seq<MatchView>,
)
    requires
        options.mode != GrepMode::Fuzzy,
        is_result_for(
            a,
            text,
            files,
            constraints,
            base_count,
            options,
            arenas,
            ask_index,
            meets,
            search_fuzzy,
            search_chunk,
        ),
        is_result_for(
            b,
            text,
            files,
            constraints,
            base_count,
            options,
            arenas,
            ask_index,
            meets,
            search_fuzzy,
            search_chunk,
        ),
        index_is_steady(ask_index),
        meets_is_steady(meets),
        finds_the_truth_of(search_chunk, text, options, truth),
    ensures
        same_result(a, b),
{
    if text.len() == 0 {
        assert(a.lists_changed(files) && b.lists_changed(files));
        assert(match_views(a.matches@) =~= match_views(b.matches@));
    } else {
        let (plan, question, x, page) = lemma_result_is_true(
            a,
            text,
            files,
            constraints,
            base_count,
            options,
            arenas,
            ask_index,
            meets,
            search_fuzzy,
            search_chunk,
            truth,
        );
        let (twin, asked, y, other) = lemma_result_is_true(
            b,
            text,
            files,
            constraints,
            base_count,
            options,
            arenas,
            ask_index,
            meets,
            search_fuzzy,
            search_chunk,
            truth,
        );
        lemma_plans_agree(plan, twin, text, options, question, asked);
        assert(same_words(x, y));
        lemma_content_results_agree(
            page,
            other,
            files,
            constraints,
            x,
            y,
            base_count,
            options,
            meets,
            truth,
        );
    }
}

/// A search in regex mode for a text that does not compile gives what a search in plain text mode
/// gives, together with the reason, as long as nothing around the two changes.
pub proof fn law_bad_regex_result_is_the_plain_result<
    'a,
    A: Copy,
    I: Fn(&BigramQuery) -> IndexAnswer,
    C: Fn(&[Constraint]) -> Vec<bool>,
    Z: Fn(&str, &[&'a FileItem], usize, usize, bool) -> GrepResult<'a>,
    S: Fn(&GrepContext<A>, &ContentPlan, &[&'a FileItem]) -> ChunkMatches,
>(
    result: GrepResult<'a>,
    plain_result: GrepResult<'a>,
    text: Seq<char>,
    message: Seq<char>,
    files: Seq<FileItem>,
    constraints: Seq<Constraint>,
    base_count: usize,
    options: &GrepSearchOptions,
    plain_options: &GrepSearchOptions,
    arenas: (A, A),
    ask_index: I,
    meets: C,
    search_fuzzy: Z,
    search_chunk: S,
    truth: spec_fn(FileItem) -> Seq<MatchView>,
)
    requires
        text.len() > 0,
        options.mode == GrepMode::Regex,
        *plain_options == (GrepSearchOptions { mode: GrepMode::PlainText, ..*options }),
        regex_built(
            regex_source(text),
            smart_case_insensitive(options.smart_case, text),
            true,
            false,
        ) == Err::<Regex, Seq<char>>(message),
        is_result_for(
            result,
            text,
            files,
            constraints,
            base_count,
            options,
            arenas,
            ask_index,
            meets,
            search_fuzzy,
            search_chunk,
        ),
        is_result_for(
            plain_result,
            text,
            files,
            constraints,
            base_count,
            plain_options,
            arenas,
            ask_index,
            meets,
            search_fuzzy,
            search_chunk,
        ),
        index_is_steady(ask_index),
        meets_is_steady(meets),
        finds_the_truth_of(search_chunk, text, options, truth),
        finds_the_truth_of(search_chunk, text, plain_options, truth),
    ensures
        result.regex_fallback_error matches Some(reason) && reason@ == message,
        plain_result.regex_fallback_error is None,
        same_page(result, plain_result),
{
    let (plan, question, x, page) = lemma_result_is_true(
        result,
        text,
        files,
        constraints,
        base_count,
        options,
        arenas,
        ask_index,
        meets,
        search_fuzzy,
        search_chunk,
        truth,
    );
    let (twin, asked, y, other) = lemma_result_is_true(
        plain_result,
        text,
        files,
        constraints,
        base_count,
        plain_options,
        arenas,
        ask_index,
        meets,
        search_fuzzy,
        search_chunk,
        truth,
    );
    let built = choose|built: Result<CompiledRegex, String>| #[trigger]
        is_compiled_from(built, text, options.smart_case) && plan.is_for(
            text,
            options.smart_case,
            Some(built),
        );
    assert(built is Err);
    assert(same_question(question, asked));
    assert(same_words(x, y));
    lemma_content_results_agree(
        page,
        other,
        files,
        constraints,
        x,
        y,
        base_count,
        options,
        meets,
        truth,
    );
}

/// An answer of an index rules out no file that holds a match.
pub open spec fn rules_out_no_match(
    candidates: Option<Vec<u64>>,
    files: Seq<FileItem>,
    base_count: usize,
    max_file_size: u64,
    truth: spec_fn(FileItem) -> Seq<MatchView>,
) -> bool {
    candidates matches Some(words) ==> forall|i: int|
        0 <= i < files.len() && i < base_count && is_searchable(
            #[trigger] files[i],
            max_file_size,
        ) && truth(files[i]).len() > 0 ==> bit_set(words@, i)
}

/// A page depends on which files have which matches, not on where among the files they lie.
proof fn lemma_same_hits_same_page(
    a: Seq<FileHits>,
    b: Seq<FileHits>,
    limit: int,
    trim_whitespace: bool,
)
    requires
        same_hits(a, b),
    ensures
        page_of(a, limit, trim_whitespace) == page_of(b, limit, trim_whitespace),
    decreases a.len(),
{
    if a.len() > 0 {
        assert forall|i: int| 0 <= i < a.drop_last().len() implies (
        #[trigger] a.drop_last()[i]).file == (#[trigger] b.drop_last()[i]).file
            && a.drop_last()[i].matches == b.drop_last()[i].matches by {
            assert(a[i].file == b[i].file);
        }
        lemma_same_hits_same_page(a.drop_last(), b.drop_last(), limit, trim_whitespace);
        assert(a.last().file == b.last().file && a.last().matches == b.last().matches);
    }
}

/// The files that the index left, in terms of the filter that left them.
proof fn lemma_first_page<'a, C: Fn(&[Constraint]) -> Vec<bool>>(
    result: GrepResult<'a>,
    files: Seq<FileItem>,
    constraints: Seq<Constraint>,
    candidates: Option<Vec<u64>>,
    base_count: usize,
    options: &GrepSearchOptions,
    meets: C,
    truth: spec_fn(FileItem) -> Seq<MatchView>,
) -> (filter: FileFilter<'static>)
    requires
        is_true_content_result(
            result,
            files,
            constraints,
            candidates,
            base_count,
            options,
            meets,
            truth,
        ),
        !has_file_path(constraints),
        options.file_offset == 0,
    ensures
        is_filter_for(
            filter,
            files,
            constraints,
            meets,
            candidates,
            base_count,
            options.max_file_size,
        ),
        result.filtered_file_count == filter.ranked().len(),
        result.holds(
            page_of(
                true_hits(filter.page(0), truth, 0, filter.page(0).len() as int),
                options.page_limit as int,
                options.trim_whitespace,
            ),
        ),
{
    let (chosen, count) = choose|chosen: Seq<&'a FileItem>, count: usize|
        {
            &&& #[trigger] are_files_for(
                chosen,
                count,
                files,
                constraints,
                meets,
                candidates,
                base_count,
                options.max_file_size,
                options.file_offset,
            )
            &&& if chosen.len() == 0 {
                result.is_empty(live_files(files) as int, count as int)
            } else {
                is_the_page_of(
                    result,
                    file_values(chosen),
                    truth,
                    options,
                    live_files(files) as int,
                    count as int,
                )
            }
        };
    let filter = choose|filter: FileFilter<'static>|
        {
            &&& #[trigger] is_filter_for(
                filter,
                files,
                constraints,
                meets,
                candidates,
                base_count,
                options.max_file_size,
            )
            &&& chosen_by(filter, options.file_offset, chosen, count)
        };
    assert(file_values(chosen).len() == chosen.len());
    filter
}

/// An index that rules out no match changes nothing of the first page: a search with it reports the
/// same files and the same matches as one without, and has no more files to search. The paths of
/// files must not be constrained: where a constraint on them leaves no file, it does not count, and
/// whether it leaves any is for the index to say.
pub proof fn law_sound_index_gives_the_same_first_page<
    'a,
    A: Copy,
    I: Fn(&BigramQuery) -> IndexAnswer,
    N: Fn(&BigramQuery) -> IndexAnswer,
    C: Fn(&[Constraint]) -> Vec<bool>,
    Z: Fn(&str, &[&'a FileItem], usize, usize, bool) -> GrepResult<'a>,
    S: Fn(&GrepContext<A>, &ContentPlan, &[&'a FileItem]) -> ChunkMatches,
>(
    indexed: GrepResult<'a>,
    plain: GrepResult<'a>,
    text: Seq<char>,
    files: Seq<FileItem>,
    constraints: Seq<Constraint>,
    base_count: usize,
    options: &GrepSearchOptions,
    arenas: (A, A),
    ask_index: I,
    no_index: N,
    meets: C,
    search_fuzzy: Z,
    search_chunk: S,
    truth: spec_fn(FileItem) -> Seq<MatchView>,
)
    requires
        text.len() > 0,
        options.mode != GrepMode::Fuzzy,
        options.file_offset == 0,
        !has_file_path(constraints),
        is_result_for(
            indexed,
            text,
            files,
            constraints,
            base_count,
            options,
            arenas,
            ask_index,
            meets,
            search_fuzzy,
            search_chunk,
        ),
        is_result_for(
            plain,
            text,
            files,
            constraints,
            base_count,
            options,
            arenas,
            no_index,
            meets,
            search_fuzzy,
            search_chunk,
        ),
        forall|question: &BigramQuery, candidates: Option<Vec<u64>>| #[trigger]
            are_candidates_for(candidates, question, ask_index) ==> rules_out_no_match(
                candidates,
                files,
                base_count,
                options.max_file_size,
                truth,
            ),
        forall|question: &BigramQuery, candidates: Option<Vec<u64>>| #[trigger]
            are_candidates_for(candidates, question, no_index) ==> candidates is None,
        meets_is_steady(meets),
        finds_the_truth_of(search_chunk, text, options, truth),
    ensures
        match_views(indexed.matches@) == match_views(plain.matches@),
        file_values(indexed.files@) == file_values(plain.files@),
        indexed.files_with_matches == plain.files_with_matches,
        indexed.filtered_file_count <= plain.filtered_file_count,
{
    let (plan, question, x, page) = lemma_result_is_true(
        indexed,
        text,
        files,
        constraints,
        base_count,
        options,
        arenas,
        ask_index,
        meets,
        search_fuzzy,
        search_chunk,
        truth,
    );
    let (twin, asked, y, other) = lemma_result_is_true(
        plain,
        text,
        files,
        constraints,
        base_count,
        options,
        arenas,
        no_index,
        meets,
        search_fuzzy,
        search_chunk,
        truth,
    );
    assert(rules_out_no_match(x, files, base_count, options.max_file_size, truth));
    assert(y is None);
    let a = lemma_first_page(
        page,
        files,
        constraints,
        x,
        base_count,
        options,
        meets,
        truth,
    );
    let b = lemma_first_page(
        other,
        files,
        constraints,
        y,
        base_count,
        options,
        meets,
        truth,
    );
    let without = FileFilter { candidates: None, ..a };
    let size = options.max_file_size;
    assert(is_filter_for(without, files, constraints, meets, y, base_count, size)) by {
        assert(is_filter_for(a, files, constraints, meets, x, base_count, size));
    }
    lemma_filters_agree(without, b, files, constraints, meets, y, y, base_count, size);
    lemma_same_filter(without, b, 0);
    assert forall|i: int|
        0 <= i < a.files@.len() && truth(#[trigger] a.files@[i]).len() > 0
            && without.keeps(i) implies a.index_passes(i) by {
        assert(is_searchable(files[i], size));
    }
    law_sound_index_loses_no_match(a, without, truth);
    law_index_leaves_no_more_files(a, without);
    lemma_same_hits_same_page(
        true_hits(a.page(0), truth, 0, a.page(0).len() as int),
        true_hits(without.page(0), truth, 0, without.page(0).len() as int),
        options.page_limit as int,
        options.trim_whitespace,
    );
}

/// The pages of a search, each asked for where the one before it ended, together hold what a
/// search with room for everything puts on one page.
pub proof fn law_pages_together_are_one_page<
    'a,
    C,
    P,
    F: Fn(&C, &P, &[&'a FileItem]) -> ChunkMatches,
>(
    results: Seq<GrepResult<'a>>,
    options: Seq<GrepSearchOptions>,
    single: GrepResult<'a>,
    single_options: GrepSearchOptions,
    search_chunk: F,
    plan: &P,
    all: Seq<FileItem>,
    truth: spec_fn(FileItem) -> Seq<MatchView>,
    trim_whitespace: bool,
)
    requires
        finds_the_truth::<C, P, F>(search_chunk, plan, truth),
        is_whole_search::<C, P, F>(results, search_chunk, plan, options, all, trim_whitespace),
        is_search_of::<C, P, F>(single, search_chunk, plan, single_options, all),
        single_options.file_offset == 0,
        single_options.trim_whitespace == trim_whitespace,
        single.next_file_offset == 0,
    ensures
        files_of_results(results) == file_values(single.files@),
        matches_of_results(results) == detached(match_views(single.matches@)),
{
    let (one, with) = (seq![single], seq![single_options]);
    assert(one.drop_last() =~= Seq::<GrepResult>::empty());
    assert(files_of_results(one.drop_last()) =~= Seq::<FileItem>::empty());
    assert(matches_of_results(one.drop_last()) =~= Seq::<MatchView>::empty());
    assert(files_of_results(one) =~= file_values(single.files@));
    assert(matches_of_results(one) =~= detached(match_views(single.matches@)));
    law_successive_searches_report_everything_once::<C, P, F>(
        results,
        search_chunk,
        plan,
        options,
        all,
        truth,
        trim_whitespace,
    );
    law_successive_searches_report_everything_once::<C, P, F>(
        one,
        search_chunk,
        plan,
        with,
        all,
        truth,
        trim_whitespace,
    );
}

} // verus!
