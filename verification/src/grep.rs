//! Whole searches: from a query to a page of results.
//!
//! What needs files, an index or a parser is handed in as functions. Nothing is taken for granted
//! of what they return, except that an answer about files covers the files.
use crate::candidates::{
    combined_candidates, overlaid_candidates, IndexAnswer, MultiIndexAnswer,
};
use crate::constraints::{
    has_file_path, select_files, without_file_path, Constraint, Selection,
};
use crate::files::{file_values, live_count, live_files, FileItem};
use crate::matches::{match_views, GrepMatch};
use crate::options::GrepSearchOptions;
use crate::page::{
    consumed_by_run, file_hits, lemma_page_files, page_of, positions_below, FileHits, FileMatches,
    GrepResult,
};
use crate::paging::positions_ascend;
use crate::patterns::{
    any_has_upper, automaton_built, build_pattern_set, slice_texts, PatternSet, PatternSetError,
};
use crate::prefilter::{prefilter_files, FileFilter};
use crate::run::{file_outcome, ChunkMatches, GrepContext, GrepRun};
use crate::search::{
    all_blank, bigram_boundary, indexed_files, patterns_are_blank, BigramQuery, ContentPlan,
    GrepQuery, SearchPlan, FUZZY_BIGRAM_PROBES,
};
use crate::text::without_outer_space;
use vstd::prelude::*;

verus! {

/// The files with matches of a chunk that starts at position `start`, given the matches of each
/// of its files.
pub open spec fn chunk_hits(
    chunk: Seq<&FileItem>,
    start: int,
    found: Seq<Vec<GrepMatch>>,
) -> Seq<FileHits>
    decreases found.len(),
{
    if found.len() == 0 {
        Seq::empty()
    } else {
        let before = chunk_hits(chunk, start, found.drop_last());
        let at = found.len() - 1;
        if at < chunk.len() && found.last()@.len() > 0 {
            before.push(
                FileHits {
                    position: start + at,
                    file: *chunk[at],
                    matches: match_views(found.last()@),
                },
            )
        } else {
            before
        }
    }
}

/// The files from `start` up to `end` were searched; `found` are the matches of each of them. They
/// are the first ones of a chunk, and all of it unless the search was cut short. `hits` are the
/// files with matches known then.
pub open spec fn chunk_searched<'a, C, P, F: Fn(&C, &P, &[&'a FileItem]) -> ChunkMatches>(
    search_chunk: F,
    ctx: &C,
    plan: &P,
    files: Seq<&'a FileItem>,
    start: int,
    end: int,
    before: Seq<FileHits>,
    hits: Seq<FileHits>,
    chunk: &[&'a FileItem],
    found: ChunkMatches,
    stopped: bool,
) -> bool {
    &&& 0 <= start < start + chunk@.len() <= files.len()
    &&& chunk@ == files.subrange(start, start + chunk@.len())
    &&& call_ensures(search_chunk, (ctx, plan, chunk), found)
    &&& stopped == (found.per_file().len() < chunk@.len())
    &&& end == if stopped {
        start + found.per_file().len()
    } else {
        start + chunk@.len()
    }
    &&& hits == before + chunk_hits(chunk@, start, found.per_file())
}

/// `hits` are the files with matches among the first `end` files, found chunk by chunk, and
/// `stopped` says whether the search of the last chunk was cut short.
pub open spec fn found_by<'a, C, P, F: Fn(&C, &P, &[&'a FileItem]) -> ChunkMatches>(
    search_chunk: F,
    ctx: &C,
    plan: &P,
    files: Seq<&'a FileItem>,
    end: int,
    hits: Seq<FileHits>,
    stopped: bool,
) -> bool
    decreases end,
{
    ||| end == 0 && hits.len() == 0 && !stopped
    ||| exists|
        start: int,
        before: Seq<FileHits>,
        chunk: &[&'a FileItem],
        found: ChunkMatches,
    |
        {
            &&& #[trigger] chunk_searched(
                search_chunk,
                ctx,
                plan,
                files,
                start,
                end,
                before,
                hits,
                chunk,
                found,
                stopped,
            )
            &&& found_by(search_chunk, ctx, plan, files, start, before, false)
        }
}

/// The files with matches of a chunk.
fn collect_chunk<'a>(chunk: &[&'a FileItem], start: usize, found: Vec<Vec<GrepMatch>>) -> (results:
    Vec<FileMatches<'a>>)
    requires
        start + chunk@.len() <= usize::MAX,
    ensures
        file_hits(results@) == chunk_hits(chunk@, start as int, found@),
        positions_below(
            file_hits(results@),
            if found@.len() < chunk@.len() {
                start + found@.len()
            } else {
                start + chunk@.len()
            },
        ),
        positions_from(file_hits(results@), start as int),
        positions_ascend(file_hits(results@)),
        all_matched(file_hits(results@)),
{
    let mut results: Vec<FileMatches<'a>> = Vec::new();
    let ghost source = found@;
    let mut local_idx: usize = 0;
    assert(source.take(0) =~= Seq::<Vec<GrepMatch>>::empty());
    assert(file_hits(results@) =~= Seq::<FileHits>::empty());
    for file_matches in it: found
        invariant
            it.seq() == source,
            start + chunk@.len() <= usize::MAX,
            local_idx == if it.index() < chunk@.len() {
                it.index()
            } else {
                chunk@.len() as int
            },
            file_hits(results@) == chunk_hits(chunk@, start as int, source.take(it.index())),
            positions_below(file_hits(results@), start + local_idx),
            positions_from(file_hits(results@), start as int),
            positions_ascend(file_hits(results@)),
            all_matched(file_hits(results@)),
    {
        let ghost at = it.index();
        let ghost before = file_hits(results@);
        let ghost views = match_views(file_matches@);
        assert(source.take(at + 1).drop_last() =~= source.take(at));
        assert(source.take(at + 1).last() == file_matches);
        if local_idx < chunk.len() {
            let file: &'a FileItem = chunk[local_idx];
            if let Some(outcome) = file_outcome(start, local_idx, file, file_matches) {
                let ghost hit = FileHits {
                    position: start + local_idx,
                    file: *file,
                    matches: views,
                };
                results.push(outcome);
                assert(file_hits(results@) =~= before.push(hit));
            }
            local_idx += 1;
        }
    }
    assert(source.take(source.len() as int) =~= source);
    results
}

/// Every file with matches lies at position `start` or behind it.
pub open spec fn positions_from(hits: Seq<FileHits>, start: int) -> bool {
    forall|i: int| 0 <= i < hits.len() ==> (#[trigger] hits[i]).position >= start
}

/// Every file with matches has at least one.
pub open spec fn all_matched(hits: Seq<FileHits>) -> bool {
    forall|i: int| 0 <= i < hits.len() ==> (#[trigger] hits[i]).matches.len() > 0
}

/// `result` is the page made of the files with matches that a chunk by chunk search of `files`
/// found.
pub open spec fn is_page_of_search<'a, C, P, F: Fn(&C, &P, &[&'a FileItem]) -> ChunkMatches>(
    result: GrepResult<'a>,
    search_chunk: F,
    ctx: &C,
    plan: &P,
    options: &GrepSearchOptions,
    files: Seq<&'a FileItem>,
    total_files: usize,
    filtered_file_count: usize,
) -> bool {
    exists|end: int, hits: Seq<FileHits>, stopped: bool|
        {
            let page = page_of(hits, options.page_limit as int, options.trim_whitespace);
            &&& #[trigger] found_by(
                search_chunk,
                ctx,
                plan,
                files,
                end,
                hits,
                stopped,
            )
            &&& positions_ascend(hits)
            &&& positions_below(hits, end)
            &&& all_matched(hits)
            &&& if stopped {
                end < files.len()
            } else {
                end == files.len() || page.filled
            }
            &&& result.reports(
                page,
                consumed_by_run(hits, page, end),
                files.len() as int,
                options.file_offset as int,
                stopped,
                total_files as int,
                filtered_file_count as int,
            )
        }
}

/// Searches files chunk by chunk until a page is filled. `search_chunk` returns the matches of
/// each file of a chunk, in their order; where it is cut short, those of the files that it had
/// searched by then, up to the first one that it had not. It is never cut short before the first
/// file, so that each search gets on.
pub fn perform_grep<'a, 'p, A, P, F>(
    files_to_search: &[&'a FileItem],
    options: &GrepSearchOptions,
    ctx: &GrepContext<'p, A>,
    plan: &P,
    num_threads: usize,
    search_chunk: &F,
) -> (result: GrepResult<'a>) where
    A: Copy,
    F: Fn(&GrepContext<'p, A>, &P, &[&'a FileItem]) -> ChunkMatches,

    requires
        options.file_offset + files_to_search@.len() <= usize::MAX,
        1 <= num_threads,
        num_threads * 4 * 256 * 2 <= usize::MAX,
        forall|chunk: &[&'a FileItem]| #[trigger]
            call_requires(*search_chunk, (ctx, plan, chunk)),
    ensures
        is_page_of_search(
            result,
            *search_chunk,
            ctx,
            plan,
            options,
            files_to_search@,
            ctx.total_files,
            ctx.filtered_file_count,
        ),
        files_to_search@.len() > 0 ==> result.total_files_searched > 0,
        result.next_file_offset != 0 <==> result.total_files_searched < files_to_search@.len(),
{
    let mut run: GrepRun<'a> = GrepRun::new(
        files_to_search.len(),
        ctx.total_files,
        options,
        num_threads,
    );
    loop
        invariant
            run.well_formed(),
            run.count() == files_to_search@.len(),
            run.offset() == options.file_offset,
            run.limit() == options.page_limit,
            run.trims() == options.trim_whitespace,
            positions_ascend(run.hits()),
            all_matched(run.hits()),
            positions_below(run.hits(), run.handed_out()),
            0 <= run.handed_out() <= run.count(),
            run.stopped() ==> 0 < run.handed_out() < run.count(),
            found_by(
                *search_chunk,
                ctx,
                plan,
                files_to_search@,
                run.handed_out(),
                run.hits(),
                run.stopped(),
            ),
            forall|chunk: &[&'a FileItem]| #[trigger]
                call_requires(*search_chunk, (ctx, plan, chunk)),
        decreases run.count() - run.handed_out(),
    {
        let ghost before = run.hits();
        match run.next_chunk() {
            None => {
                proof {
                    lemma_page_files(run.hits(), run.limit(), run.trims());
                    if run.page().filled {
                        assert(run.hits()[run.page().files.len() - 1].position
                            < run.handed_out());
                    }
                }
                return run.finish(ctx.total_files, ctx.filtered_file_count);
            },
            Some((start, end)) => {
                let chunk: &[&'a FileItem] = &files_to_search[start..end];
                let answer: ChunkMatches = search_chunk(ctx, plan, chunk);
                let ghost given = answer;
                let found: Vec<Vec<GrepMatch>> = answer.into_list();
                let searched: usize = if found.len() < chunk.len() {
                    start + found.len()
                } else {
                    end
                };
                assert(chunk_searched(
                    *search_chunk,
                    ctx,
                    plan,
                    files_to_search@,
                    start as int,
                    searched as int,
                    before,
                    before + chunk_hits(chunk@, start as int, found@),
                    chunk,
                    given,
                    searched < end,
                ));
                let results: Vec<FileMatches<'a>> = collect_chunk(chunk, start, found);
                let ghost added = file_hits(results@);
                run.absorb(results, searched);
                proof {
                    assert forall|i: int, j: int| 0 <= i < j < run.hits().len() implies (
                    #[trigger] run.hits()[i]).position < (#[trigger] run.hits()[j]).position by {
                        if j >= before.len() {
                            assert(added[j - before.len()].position >= start);
                            if i < before.len() {
                                assert(before[i].position < start);
                            }
                        }
                    }
                }
            },
        }
    }
}

/// `text` is what a query asks for, where `parse` says whether a text parses to any constraint.
pub open spec fn is_text_of<P: Fn(&str) -> bool>(
    text: Seq<char>,
    query: &GrepQuery,
    parse: P,
) -> bool {
    match query.suffix() {
        None => text == query.searched_text(false),
        Some(suffix) => exists|arg: &str, answer: bool|
            {
                &&& arg@ == suffix
                &&& #[trigger] call_ensures(parse, (arg,), answer)
                &&& text == query.searched_text(answer)
            },
    }
}

/// The text that a query asks for. `parse` says whether a text parses to any constraint.
pub fn resolve_text<P>(query: &GrepQuery, parse: &P) -> (text: String) where P: Fn(&str) -> bool
    requires
        forall|arg: &str| #[trigger] call_requires(*parse, (arg,)),
    ensures
        is_text_of(text@, query, *parse),
        query.text matches Some(tokens) ==> text@ == tokens@,
{
    match query.suffix_to_parse() {
        None => query.grep_text(false),
        Some(suffix) => {
            let arg: &str = suffix.as_str();
            let answer: bool = parse(arg);
            assert(call_ensures(*parse, (arg,), answer));
            query.grep_text(answer)
        },
    }
}

/// An answer of the index reaches as far as files are looked up in it.
pub open spec fn reaches(words: Option<Vec<u64>>, base_count: usize, file_count: int) -> bool {
    let boundary = if base_count < file_count {
        base_count as int
    } else {
        file_count
    };
    words is Some && boundary % 64 != 0 ==> boundary / 64 < words->0@.len()
}

/// `filter` is the one under some constraints, where `meets` says of each file whether it meets
/// them.
pub open spec fn is_filter_for<'f, C: Fn(&[Constraint]) -> Vec<bool>>(
    filter: FileFilter<'f>,
    files: Seq<FileItem>,
    constraints: Seq<Constraint>,
    meets: C,
    candidates: Option<Vec<u64>>,
    base_count: usize,
    max_file_size: u64,
) -> bool {
    &&& filter.files@ == files
    &&& filter.base_count == base_count
    &&& filter.max_file_size == max_file_size
    &&& match candidates {
        None => filter.candidates is None,
        Some(words) => filter.candidates matches Some(bits) && bits@ == words@,
    }
    &&& if constraints.len() == 0 {
        filter.admitted is None
    } else {
        exists|list: &[Constraint], answer: Vec<bool>|
            {
                &&& list@ == constraints
                &&& #[trigger] call_ensures(meets, (list,), answer)
                &&& filter.admitted matches Some(admitted) && admitted@ == answer@
            }
    }
}

/// `chosen` are the files to be searched under a filter, and `count` is their number over all
/// pages.
pub open spec fn chosen_by<'f>(
    filter: FileFilter<'f>,
    file_offset: usize,
    chosen: Seq<&FileItem>,
    count: usize,
) -> bool {
    file_values(chosen) == filter.page(file_offset as int) && count == filter.ranked().len()
}

/// `chosen` are the files to be searched under some constraints, and `count` is their number over
/// all pages. Where the constraints leave none, those on the path of the file do not count.
pub open spec fn are_files_for<'f, C: Fn(&[Constraint]) -> Vec<bool>>(
    chosen: Seq<&FileItem>,
    count: usize,
    files: Seq<FileItem>,
    constraints: Seq<Constraint>,
    meets: C,
    candidates: Option<Vec<u64>>,
    base_count: usize,
    max_file_size: u64,
    file_offset: usize,
) -> bool {
    exists|filter: FileFilter<'f>|
        {
            &&& #[trigger] is_filter_for(
                filter,
                files,
                constraints,
                meets,
                candidates,
                base_count,
                max_file_size,
            )
            &&& if filter.ranked().len() > 0 || !has_file_path(constraints) {
                chosen_by(filter, file_offset, chosen, count)
            } else {
                exists|retry: FileFilter<'f>|
                    {
                        &&& #[trigger] is_filter_for(
                            retry,
                            files,
                            without_file_path(constraints),
                            meets,
                            candidates,
                            base_count,
                            max_file_size,
                        )
                        &&& chosen_by(retry, file_offset, chosen, count)
                    }
            }
        }
}

/// Which files meet the constraints; nothing needs to be known without constraints.
fn ask_admitted<C>(files: &[FileItem], constraints: &[Constraint], meets: &C) -> (admitted: Option<
    Vec<bool>,
>) where C: Fn(&[Constraint]) -> Vec<bool>
    requires
        forall|list: &[Constraint]| #[trigger] call_requires(*meets, (list,)),
        forall|list: &[Constraint], answer: Vec<bool>| #[trigger]
            call_ensures(*meets, (list,), answer) ==> answer@.len() == files@.len(),
    ensures
        match admitted {
            None => constraints@.len() == 0,
            Some(answer) => constraints@.len() > 0 && call_ensures(*meets, (constraints,), answer)
                && answer@.len() == files@.len(),
        },
{
    if constraints.len() == 0 {
        None
    } else {
        Some(meets(constraints))
    }
}

/// A list of answers as a slice.
fn as_deref<T>(list: &Option<Vec<T>>) -> (slice: Option<&[T]>)
    ensures
        match list {
            None => slice is None,
            Some(items) => slice matches Some(s) && s@ == items@,
        },
{
    match list {
        None => None,
        Some(items) => Some(items.as_slice()),
    }
}

/// Chooses the files to be searched, and counts them over all pages. `meets` says of each file
/// whether it meets some constraints. Where the constraints leave no file to be searched, the
/// choice is made without those on the path of the file.
pub fn choose_files<'a, C>(
    files: &'a [FileItem],
    constraints: &[Constraint],
    candidates: &Option<Vec<u64>>,
    base_count: usize,
    options: &GrepSearchOptions,
    meets: &C,
) -> (choice: (Vec<&'a FileItem>, usize)) where C: Fn(&[Constraint]) -> Vec<bool>
    requires
        reaches(*candidates, base_count, files@.len() as int),
        forall|list: &[Constraint]| #[trigger] call_requires(*meets, (list,)),
        forall|list: &[Constraint], answer: Vec<bool>| #[trigger]
            call_ensures(*meets, (list,), answer) ==> answer@.len() == files@.len(),
    ensures
        are_files_for(
            choice.0@,
            choice.1,
            files@,
            constraints@,
            *meets,
            *candidates,
            base_count,
            options.max_file_size,
            options.file_offset,
        ),
{
    let bits: Option<&[u64]> = as_deref(candidates);
    let answer: Option<Vec<bool>> = ask_admitted(files, constraints, meets);
    let admitted: Option<&[bool]> = as_deref(&answer);
    let ghost filter = FileFilter {
        files,
        admitted,
        candidates: bits,
        base_count,
        max_file_size: options.max_file_size,
    };
    assert(is_filter_for(
        filter,
        files@,
        constraints@,
        *meets,
        *candidates,
        base_count,
        options.max_file_size,
    ));
    match select_files(files, constraints, admitted, bits, base_count, options) {
        Selection::Files { files: chosen, filtered_file_count } => {
            assert(chosen_by(filter, options.file_offset, chosen@, filtered_file_count));
            (chosen, filtered_file_count)
        },
        Selection::Retry { constraints: stripped } => {
            let second_answer: Option<Vec<bool>> = ask_admitted(files, stripped.as_slice(), meets);
            let second: Option<&[bool]> = as_deref(&second_answer);
            let ghost retry = FileFilter {
                files,
                admitted: second,
                candidates: bits,
                base_count,
                max_file_size: options.max_file_size,
            };
            assert(is_filter_for(
                retry,
                files@,
                without_file_path(constraints@),
                *meets,
                *candidates,
                base_count,
                options.max_file_size,
            ));
            let choice = prefilter_files(files, second, bits, base_count, options);
            assert(chosen_by(retry, options.file_offset, choice.0@, choice.1));
            choice
        },
    }
}

/// The number of files of a page fits behind its offset.
proof fn lemma_page_fits<'f, C: Fn(&[Constraint]) -> Vec<bool>>(
    chosen: Seq<&FileItem>,
    count: usize,
    files: Seq<FileItem>,
    constraints: Seq<Constraint>,
    meets: C,
    candidates: Option<Vec<u64>>,
    base_count: usize,
    options: &GrepSearchOptions,
)
    requires
        are_files_for(
            chosen,
            count,
            files,
            constraints,
            meets,
            candidates,
            base_count,
            options.max_file_size,
            options.file_offset,
        ),
        chosen.len() > 0,
    ensures
        options.file_offset + chosen.len() == count,
{
    assert(file_values(chosen).len() == chosen.len());
}

/// `result` is that of a search of the files that are left to be searched, and `searched` says
/// whether there is any. `literal` is one without which a file cannot match, if any is known.
pub open spec fn is_content_result<
    'a,
    'p,
    A: Copy,
    C: Fn(&[Constraint]) -> Vec<bool>,
    P,
    S: Fn(&GrepContext<'p, A>, &P, &[&'a FileItem]) -> ChunkMatches,
>(
    result: GrepResult<'a>,
    searched: bool,
    files: Seq<FileItem>,
    constraints: Seq<Constraint>,
    candidates: Option<Vec<u64>>,
    base_count: usize,
    options: &GrepSearchOptions,
    arenas: (A, A),
    literal: Option<Seq<u8>>,
    case_insensitive: bool,
    plan: &P,
    meets: C,
    search_chunk: S,
) -> bool {
    exists|chosen: Seq<&'a FileItem>, count: usize|
        {
            &&& #[trigger] are_files_for(
                chosen,
                count,
                files,
                constraints,
                meets,
                candidates,
                base_count,
                options.max_file_size,
                options.file_offset,
            )
            &&& searched == (chosen.len() > 0)
            &&& if !searched {
                result.is_empty(live_files(files) as int, count as int)
            } else {
                exists|ctx: &GrepContext<'p, A>|
                    {
                        &&& ctx.holds(
                            live_files(files) as int,
                            count as int,
                            arenas.0,
                            arenas.1,
                            literal,
                            case_insensitive,
                        )
                        &&& #[trigger] is_page_of_search(
                            result,
                            search_chunk,
                            ctx,
                            plan,
                            options,
                            chosen,
                            ctx.total_files,
                            ctx.filtered_file_count,
                        )
                    }
            }
        }
}

/// Searches the files that are left to be searched. Tells whether there is any.
fn search_content<'a, 'p, A, C, P, S>(
    files: &'a [FileItem],
    constraints: &[Constraint],
    candidates: &Option<Vec<u64>>,
    base_count: usize,
    options: &GrepSearchOptions,
    arenas: (A, A),
    literal: Option<&'p [u8]>,
    case_insensitive: bool,
    plan: &P,
    num_threads: usize,
    meets: &C,
    search_chunk: &S,
) -> (outcome: (GrepResult<'a>, bool)) where
    A: Copy,
    C: Fn(&[Constraint]) -> Vec<bool>,
    S: Fn(&GrepContext<'p, A>, &P, &[&'a FileItem]) -> ChunkMatches,

    requires
        reaches(*candidates, base_count, files@.len() as int),
        1 <= num_threads,
        num_threads * 4 * 256 * 2 <= usize::MAX,
        forall|list: &[Constraint]| #[trigger] call_requires(*meets, (list,)),
        forall|list: &[Constraint], answer: Vec<bool>| #[trigger]
            call_ensures(*meets, (list,), answer) ==> answer@.len() == files@.len(),
        forall|ctx: &GrepContext<'p, A>, chunk: &[&'a FileItem]| #[trigger]
            call_requires(*search_chunk, (ctx, plan, chunk)),
    ensures
        is_content_result(
            outcome.0,
            outcome.1,
            files@,
            constraints@,
            *candidates,
            base_count,
            options,
            arenas,
            match literal {
                Some(needle) => Some(needle@),
                None => None,
            },
            case_insensitive,
            plan,
            *meets,
            *search_chunk,
        ),
{
    let total_files: usize = live_count(files);
    let (chosen, filtered_file_count) = choose_files(
        files,
        constraints,
        candidates,
        base_count,
        options,
        meets,
    );
    if chosen.is_empty() {
        return (GrepResult::empty(total_files, filtered_file_count), false);
    }
    proof {
        lemma_page_fits(
            chosen@,
            filtered_file_count,
            files@,
            constraints@,
            *meets,
            *candidates,
            base_count,
            options,
        );
    }
    let ctx: GrepContext<'p, A> = GrepContext {
        total_files,
        filtered_file_count,
        arena: arenas.0,
        overflow_arena: arenas.1,
        prefilter: literal,
        prefilter_case_insensitive: case_insensitive,
    };
    (perform_grep(chosen.as_slice(), options, &ctx, plan, num_threads, search_chunk), true)
}

/// What an index is asked, and what is made of its answer.
pub open spec fn are_candidates_for<I: Fn(&BigramQuery) -> IndexAnswer>(
    candidates: Option<Vec<u64>>,
    question: &BigramQuery,
    ask_index: I,
) -> bool {
    exists|answer: IndexAnswer| #[trigger]
        call_ensures(ask_index, (question,), answer) && answer.gives(candidates)
}

/// The files that an index cannot rule out.
fn find_candidates<I>(
    question: &BigramQuery,
    base_count: usize,
    file_count: usize,
    ask_index: &I,
) -> (candidates: Option<Vec<u64>>) where I: Fn(&BigramQuery) -> IndexAnswer
    requires
        call_requires(*ask_index, (question,)),
        forall|answer: IndexAnswer| #[trigger]
            call_ensures(*ask_index, (question,), answer) ==> reaches(
                answer.raw,
                base_count,
                file_count as int,
            ),
    ensures
        are_candidates_for(candidates, question, *ask_index),
        reaches(candidates, base_count, file_count as int),
{
    let answer: IndexAnswer = ask_index(question);
    assert(call_ensures(*ask_index, (question,), answer));
    overlaid_candidates(answer)
}

/// `result` is that of a fuzzy search for a text in the files that are left to be searched.
pub open spec fn is_fuzzy_result<
    'a,
    C: Fn(&[Constraint]) -> Vec<bool>,
    Z: Fn(&str, &[&'a FileItem], usize, usize, bool) -> GrepResult<'a>,
>(
    result: GrepResult<'a>,
    files: Seq<FileItem>,
    constraints: Seq<Constraint>,
    candidates: Option<Vec<u64>>,
    base_count: usize,
    options: &GrepSearchOptions,
    text: Seq<char>,
    case_insensitive: bool,
    meets: C,
    search_fuzzy: Z,
) -> bool {
    exists|chosen: &[&'a FileItem], count: usize|
        {
            &&& #[trigger] are_files_for(
                chosen@,
                count,
                files,
                constraints,
                meets,
                candidates,
                base_count,
                options.max_file_size,
                options.file_offset,
            )
            &&& if chosen@.len() == 0 {
                result.is_empty(live_files(files) as int, count as int)
            } else {
                exists|arg: &str, total_files: usize|
                    {
                        &&& arg@ == text
                        &&& total_files == live_files(files)
                        &&& #[trigger] call_ensures(
                            search_fuzzy,
                            (arg, chosen, total_files, count, case_insensitive),
                            result,
                        )
                    }
            }
        }
}

/// `result` is what a search by a plan gives.
pub open spec fn is_result_of_plan<
    'a,
    A: Copy,
    I: Fn(&BigramQuery) -> IndexAnswer,
    C: Fn(&[Constraint]) -> Vec<bool>,
    Z: Fn(&str, &[&'a FileItem], usize, usize, bool) -> GrepResult<'a>,
    S: Fn(&GrepContext<A>, &ContentPlan, &[&'a FileItem]) -> ChunkMatches,
>(
    result: GrepResult<'a>,
    plan: SearchPlan,
    text: Seq<char>,
    files: Seq<FileItem>,
    constraints: Seq<Constraint>,
    base_count: usize,
    options: &GrepSearchOptions,
    arenas: (A, A),
    ask_index: I,
    meets: C,
    search_fuzzy: Z,
    search_chunk: S,
) -> bool {
    match plan {
        SearchPlan::Nothing => result.lists_changed(files),
        SearchPlan::Fuzzy { case_insensitive, .. } => exists|
            question: &BigramQuery,
            candidates: Option<Vec<u64>>,
        |
            {
                &&& plan.asks(*question)
                &&& #[trigger] are_candidates_for(candidates, question, ask_index)
                &&& is_fuzzy_result(
                    result,
                    files,
                    constraints,
                    candidates,
                    base_count,
                    options,
                    text,
                    case_insensitive,
                    meets,
                    search_fuzzy,
                )
            },
        SearchPlan::Content(content) => exists|
            question: &BigramQuery,
            candidates: Option<Vec<u64>>,
            page: GrepResult<'a>,
            searched: bool,
        |
            {
                &&& plan.asks(*question)
                &&& #[trigger] are_candidates_for(candidates, question, ask_index)
                &&& #[trigger] is_content_result(
                    page,
                    searched,
                    files,
                    constraints,
                    candidates,
                    base_count,
                    options,
                    arenas,
                    content.literal(),
                    content.case_insensitive,
                    &content,
                    meets,
                    search_chunk,
                )
                &&& result == content.concluded(page)
            },
    }
}

/// `result` is what a search for a text gives.
pub open spec fn is_result_for<
    'a,
    A: Copy,
    I: Fn(&BigramQuery) -> IndexAnswer,
    C: Fn(&[Constraint]) -> Vec<bool>,
    Z: Fn(&str, &[&'a FileItem], usize, usize, bool) -> GrepResult<'a>,
    S: Fn(&GrepContext<A>, &ContentPlan, &[&'a FileItem]) -> ChunkMatches,
>(
    result: GrepResult<'a>,
    text: Seq<char>,
    files: Seq<FileItem>,
    constraints: Seq<Constraint>,
    base_count: usize,
    options: &GrepSearchOptions,
    arenas: (A, A),
    ask_index: I,
    meets: C,
    search_fuzzy: Z,
    search_chunk: S,
) -> bool {
    exists|plan: SearchPlan| #[trigger]
        plan.is_for(text, options) && is_result_of_plan(
            result,
            plan,
            text,
            files,
            constraints,
            base_count,
            options,
            arenas,
            ask_index,
            meets,
            search_fuzzy,
            search_chunk,
        )
}

/// Searches the files for what a query asks for, and gives one page of results. For a query
/// without text the files that have changed in git are listed.
///
/// `parse` says whether a text parses to any constraint, `ask_index` which files may match at
/// all, and `meets` which files meet some constraints. `search_chunk` searches the lines of some
/// files, and `search_fuzzy` does a whole search that allows for typos.
pub fn grep_search<'a, A, P, I, C, Z, S>(
    files: &'a [FileItem],
    query: &GrepQuery,
    options: &GrepSearchOptions,
    overlay_base_count: Option<usize>,
    arenas: (A, A),
    num_threads: usize,
    parse: &P,
    ask_index: &I,
    meets: &C,
    search_fuzzy: &Z,
    search_chunk: &S,
) -> (result: GrepResult<'a>) where
    A: Copy,
    P: Fn(&str) -> bool,
    I: Fn(&BigramQuery) -> IndexAnswer,
    C: Fn(&[Constraint]) -> Vec<bool>,
    Z: Fn(&str, &[&'a FileItem], usize, usize, bool) -> GrepResult<'a>,
    S: Fn(&GrepContext<A>, &ContentPlan, &[&'a FileItem]) -> ChunkMatches,

    requires
        1 <= num_threads,
        num_threads * 4 * 256 * 2 <= usize::MAX,
        forall|arg: &str| #[trigger] call_requires(*parse, (arg,)),
        forall|question: &BigramQuery| #[trigger] call_requires(*ask_index, (question,)),
        forall|question: &BigramQuery, answer: IndexAnswer| #[trigger]
            call_ensures(*ask_index, (question,), answer) ==> reaches(
                answer.raw,
                indexed_files(overlay_base_count, files@.len() as usize),
                files@.len() as int,
            ),
        forall|list: &[Constraint]| #[trigger] call_requires(*meets, (list,)),
        forall|list: &[Constraint], answer: Vec<bool>| #[trigger]
            call_ensures(*meets, (list,), answer) ==> answer@.len() == files@.len(),
        forall|
            text: &str,
            chosen: &[&'a FileItem],
            total: usize,
            filtered: usize,
            case_insensitive: bool,
        | #[trigger]
            call_requires(*search_fuzzy, (text, chosen, total, filtered, case_insensitive)),
        forall|ctx: &GrepContext<A>, plan: &ContentPlan, chunk: &[&'a FileItem]|
         #[trigger]
            call_requires(*search_chunk, (ctx, plan, chunk)),
    ensures
        exists|text: Seq<char>| #[trigger]
            is_text_of(text, query, *parse) && is_result_for(
                result,
                text,
                files@,
                query.constraints@,
                indexed_files(overlay_base_count, files@.len() as usize),
                options,
                arenas,
                *ask_index,
                *meets,
                *search_fuzzy,
                *search_chunk,
            ),
        query.text matches Some(tokens) ==> is_result_for(
            result,
            tokens@,
            files@,
            query.constraints@,
            indexed_files(overlay_base_count, files@.len() as usize),
            options,
            arenas,
            *ask_index,
            *meets,
            *search_fuzzy,
            *search_chunk,
        ),
{
    let total_files: usize = live_count(files);
    let base_count: usize = bigram_boundary(overlay_base_count, files.len());
    let text: String = resolve_text(query, parse);
    let constraints: &[Constraint] = query.constraints.as_slice();
    let ghost wanted = text@;
    let plan = SearchPlan::new(text, options);
    assert(is_text_of(wanted, query, *parse) && plan.is_for(wanted, options));
    match plan {
        SearchPlan::Nothing => GrepResult::welcome(files),
        SearchPlan::Fuzzy { grep_text, case_insensitive } => {
            let question: BigramQuery = BigramQuery::Fuzzy {
                text: grep_text.as_str(),
                probes: FUZZY_BIGRAM_PROBES,
            };
            let candidates: Option<Vec<u64>> = find_candidates(
                &question,
                base_count,
                files.len(),
                ask_index,
            );
            let (chosen, filtered_file_count) = choose_files(
                files,
                constraints,
                &candidates,
                base_count,
                options,
                meets,
            );
            let listed: &[&'a FileItem] = chosen.as_slice();
            let result: GrepResult<'a> = if listed.len() == 0 {
                GrepResult::empty(total_files, filtered_file_count)
            } else {
                let arg: &str = grep_text.as_str();
                let found: GrepResult<'a> = search_fuzzy(
                    arg,
                    listed,
                    total_files,
                    filtered_file_count,
                    case_insensitive,
                );
                assert(call_ensures(
                    *search_fuzzy,
                    (arg, listed, total_files, filtered_file_count, case_insensitive),
                    found,
                ));
                found
            };
            assert(is_fuzzy_result(
                result,
                files@,
                query.constraints@,
                candidates,
                base_count,
                options,
                wanted,
                case_insensitive,
                *meets,
                *search_fuzzy,
            ));
            assert(plan.asks(question));
            result
        },
        SearchPlan::Content(content) => {
            let question: BigramQuery = content.bigram_query();
            let candidates: Option<Vec<u64>> = find_candidates(
                &question,
                base_count,
                files.len(),
                ask_index,
            );
            let (page, _searched): (GrepResult<'a>, bool) = search_content(
                files,
                constraints,
                &candidates,
                base_count,
                options,
                arenas,
                content.prefilter(),
                content.case_insensitive,
                &content,
                num_threads,
                meets,
                search_chunk,
            );
            assert(plan.asks(question));
            content.conclude(page)
        },
    }
}

/// Every answer of the index reaches as far as files are looked up in it.
pub open spec fn all_reach(answer: MultiIndexAnswer, base_count: usize, file_count: int) -> bool {
    forall|k: int|
        0 <= k < answer.per_pattern@.len() ==> reaches(
            #[trigger] answer.per_pattern@[k],
            base_count,
            file_count,
        )
}

/// The set of patterns, with case ignored as smart case says, compiles.
pub open spec fn patterns_compile(patterns: Seq<&str>, smart_case: bool) -> bool {
    automaton_built(
        slice_texts(patterns),
        smart_case && !any_has_upper(slice_texts(patterns)),
    ) is Ok
}

/// `result` is what a search for any of several patterns gives.
pub open spec fn is_multi_result<
    'a,
    'p,
    A: Copy,
    C: Fn(&[Constraint]) -> Vec<bool>,
    S: Fn(&GrepContext<'p, A>, &PatternSet, &[&'a FileItem]) -> ChunkMatches,
>(
    result: Result<GrepResult<'a>, PatternSetError>,
    patterns: Seq<&str>,
    files: Seq<FileItem>,
    constraints: Seq<Constraint>,
    candidates: Option<Vec<u64>>,
    base_count: usize,
    options: &GrepSearchOptions,
    arenas: (A, A),
    meets: C,
    search_chunk: S,
) -> bool {
    match result {
        Ok(page) => exists|set: PatternSet, searched: bool|
            {
                &&& #[trigger] is_content_result(
                    page,
                    searched,
                    files,
                    constraints,
                    candidates,
                    base_count,
                    options,
                    arenas,
                    None,
                    false,
                    &set,
                    meets,
                    search_chunk,
                )
                &&& searched ==> {
                    &&& patterns_compile(patterns, options.smart_case)
                    &&& set.literals() == slice_texts(patterns)
                    &&& set.ignores_case() == (options.smart_case && !any_has_upper(
                        slice_texts(patterns),
                    ))
                }
            },
        Err(_) => {
            &&& !patterns_compile(patterns, options.smart_case)
            &&& exists|chosen: Seq<&'a FileItem>, count: usize|
                chosen.len() > 0 && #[trigger] are_files_for(
                    chosen,
                    count,
                    files,
                    constraints,
                    meets,
                    candidates,
                    base_count,
                    options.max_file_size,
                    options.file_offset,
                )
        },
    }
}

/// Searches the files for any of several patterns, in one pass over each file, and gives one page
/// of results. The error is that the patterns could not be compiled.
///
/// `ask_index` says for each pattern which files may match at all, and `meets` which files meet
/// some constraints. `search_chunk` searches the lines of some files.
pub fn multi_grep_search<'a, A, I, C, S>(
    files: &'a [FileItem],
    patterns: &[&str],
    constraints: &[Constraint],
    options: &GrepSearchOptions,
    overlay_base_count: Option<usize>,
    arenas: (A, A),
    num_threads: usize,
    ask_index: &I,
    meets: &C,
    search_chunk: &S,
) -> (result: Result<GrepResult<'a>, PatternSetError>) where
    A: Copy,
    I: Fn(&[&str]) -> MultiIndexAnswer,
    C: Fn(&[Constraint]) -> Vec<bool>,
    S: Fn(&GrepContext<A>, &PatternSet, &[&'a FileItem]) -> ChunkMatches,

    requires
        1 <= num_threads,
        num_threads * 4 * 256 * 2 <= usize::MAX,
        call_requires(*ask_index, (patterns,)),
        forall|answer: MultiIndexAnswer| #[trigger]
            call_ensures(*ask_index, (patterns,), answer) ==> all_reach(
                answer,
                indexed_files(overlay_base_count, files@.len() as usize),
                files@.len() as int,
            ),
        forall|list: &[Constraint]| #[trigger] call_requires(*meets, (list,)),
        forall|list: &[Constraint], answer: Vec<bool>| #[trigger]
            call_ensures(*meets, (list,), answer) ==> answer@.len() == files@.len(),
        forall|ctx: &GrepContext<A>, set: &PatternSet, chunk: &[&'a FileItem]|
         #[trigger]
            call_requires(*search_chunk, (ctx, set, chunk)),
    ensures
        if all_blank(slice_texts(patterns@)) {
            result matches Ok(page) && page.is_empty(
                live_files(files@) as int,
                live_files(files@) as int,
            )
        } else {
            exists|answer: MultiIndexAnswer, candidates: Option<Vec<u64>>|
                {
                    &&& #[trigger] call_ensures(*ask_index, (patterns,), answer)
                    &&& #[trigger] answer.gives(candidates)
                    &&& is_multi_result(
                        result,
                        patterns@,
                        files@,
                        constraints@,
                        candidates,
                        indexed_files(overlay_base_count, files@.len() as usize),
                        options,
                        arenas,
                        *meets,
                        *search_chunk,
                    )
                }
        },
{
    let total_files: usize = live_count(files);
    if patterns_are_blank(patterns) {
        return Ok(GrepResult::empty(total_files, total_files));
    }
    let base_count: usize = bigram_boundary(overlay_base_count, files.len());
    let answer: MultiIndexAnswer = ask_index(patterns);
    let candidates: Option<Vec<u64>> = combined_candidates(&answer);
    assert(call_ensures(*ask_index, (patterns,), answer) && answer.gives(candidates));
    let (chosen, filtered_file_count) = choose_files(
        files,
        constraints,
        &candidates,
        base_count,
        options,
        meets,
    );
    if chosen.is_empty() {
        let page: GrepResult<'a> = GrepResult::empty(total_files, filtered_file_count);
        let ghost any_set: PatternSet = arbitrary();
        assert(is_content_result(
            page,
            false,
            files@,
            constraints@,
            candidates,
            base_count,
            options,
            arenas,
            None,
            false,
            &any_set,
            *meets,
            *search_chunk,
        ));
        return Ok(page);
    }
    proof {
        lemma_page_fits(
            chosen@,
            filtered_file_count,
            files@,
            constraints@,
            *meets,
            candidates,
            base_count,
            options,
        );
    }
    match build_pattern_set(patterns, options.smart_case) {
        Err(error) => Err(error),
        Ok(set) => {
            let ctx: GrepContext<'_, A> = GrepContext {
                total_files,
                filtered_file_count,
                arena: arenas.0,
                overflow_arena: arenas.1,
                prefilter: None,
                prefilter_case_insensitive: false,
            };
            let page: GrepResult<'a> = perform_grep(
                chosen.as_slice(),
                options,
                &ctx,
                &set,
                num_threads,
                search_chunk,
            );
            assert(is_content_result(
                page,
                true,
                files@,
                constraints@,
                candidates,
                base_count,
                options,
                arenas,
                None,
                false,
                &set,
                *meets,
                *search_chunk,
            ));
            Ok(page)
        },
    }
}

/// A query with text tokens is searched for by them, whatever constraints it holds and whatever the
/// parser says of any text.
pub proof fn law_text_tokens_are_searched_for<P: Fn(&str) -> bool>(
    text: Seq<char>,
    query: GrepQuery,
    parse: P,
)
    requires
        is_text_of(text, &query, parse),
    ensures
        query.text matches Some(tokens) ==> text == tokens@,
{
}

/// A query without text tokens is searched for as it was typed, white space around it aside. A
/// backslash before what would be a constraint is removed, and no other is: the parser is asked
/// about what follows it.
pub proof fn law_query_without_tokens_is_searched_for_as_typed<P: Fn(&str) -> bool>(
    text: Seq<char>,
    query: GrepQuery,
    parse: P,
)
    requires
        is_text_of(text, &query, parse),
        query.text is None,
    ensures
        ({
            let typed = without_outer_space(query.raw_query@);
            if typed.len() > 1 && typed[0] == '\\' {
                exists|arg: &str, answer: bool|
                    {
                        &&& arg@ == typed.skip(1)
                        &&& #[trigger] call_ensures(parse, (arg,), answer)
                        &&& text == if answer {
                            typed.skip(1)
                        } else {
                            typed
                        }
                    }
            } else {
                text == typed
            }
        }),
{
    let typed = without_outer_space(query.raw_query@);
    if typed.len() > 1 && typed[0] == '\\' {
        assert(query.suffix() == Some(typed.skip(1)));
        let (arg, answer) = choose|arg: &str, answer: bool|
            {
                &&& arg@ == typed.skip(1)
                &&& #[trigger] call_ensures(parse, (arg,), answer)
                &&& text == query.searched_text(answer)
            };
        assert(call_ensures(parse, (arg,), answer));
    }
}

} // verus!
