//! What comes of a search, said of what was asked and of what was found.
use crate::candidates::{bit_set, law_candidates_are_the_corrected_answer, IndexAnswer};
use crate::constraints::{
    has_file_path, law_other_constraints_stay, without_file_path, Constraint,
};
use crate::files::{
    file_values, git_changed_files, law_live_files_are_those_not_deleted, live_files, FileItem,
};
use crate::grep::{
    are_candidates_for, are_files_for, chosen_by, is_content_result, is_filter_for,
    is_fuzzy_result, is_multi_result, is_page_of_search, is_result_for, is_result_of_plan,
};
use crate::matches::match_views;
use crate::options::{GrepMode, GrepSearchOptions};
use crate::page::GrepResult;
use crate::patterns::{
    any_has_upper, law_any_upper_looks_at_every_character, slice_texts, PatternSet,
    PatternSetError,
};
use crate::prefilter::{
    law_kept_files_are_listed_once, law_page_holds_the_files_from_its_offset_on,
    law_search_order_is_by_frecency_then_time, law_searchable_files_are_chosen, FileFilter,
};
use crate::run::{ChunkMatches, GrepContext};
use crate::search::{
    law_search_ignores_case_unless_a_character_is_upper, BigramQuery, ContentPlan, SearchPlan,
};
use crate::sink::SinkState;
use crate::text::is_upper;
use vstd::prelude::*;

verus! {

/// The positions are those of the files that are there, hold text, and are neither empty nor too
/// large, that are admitted, and that the index, where it covers them, did not rule out.
pub open spec fn are_positions_left(
    positions: Seq<usize>,
    files: Seq<FileItem>,
    admitted: Option<Seq<bool>>,
    candidates: Option<Vec<u64>>,
    base_count: usize,
    max_file_size: u64,
) -> bool {
    &&& positions.no_duplicates()
    &&& forall|p: usize| #[trigger]
        positions.contains(p) <==> {
            &&& p < files.len()
            &&& !files[p as int].is_deleted
            &&& !files[p as int].is_binary
            &&& files[p as int].size > 0
            &&& files[p as int].size <= max_file_size
            &&& admitted matches Some(list) ==> list[p as int]
            &&& candidates matches Some(words) ==> p >= base_count || bit_set(words@, p as int)
        }
    &&& forall|a: int, b: int|
        0 <= a < b < positions.len() ==> {
            let (x, y) = (
                files[#[trigger] positions[a] as int],
                files[#[trigger] positions[b] as int],
            );
            ||| x.total_frecency_score > y.total_frecency_score
            ||| x.total_frecency_score == y.total_frecency_score && x.modified >= y.modified
        }
}

/// The positions are those of the files left under some constraints: all of them that can be
/// searched without a constraint, and otherwise those of which it was said that they meet them all.
pub open spec fn are_left_under<C: Fn(&[Constraint]) -> Vec<bool>>(
    positions: Seq<usize>,
    files: Seq<FileItem>,
    constraints: Seq<Constraint>,
    meets: C,
    candidates: Option<Vec<u64>>,
    base_count: usize,
    max_file_size: u64,
) -> bool {
    if constraints.len() == 0 {
        are_positions_left(positions, files, None, candidates, base_count, max_file_size)
    } else {
        exists|list: &[Constraint], answer: Vec<bool>|
            {
                &&& list@ == constraints
                &&& #[trigger] call_ensures(meets, (list,), answer)
                &&& are_positions_left(
                    positions,
                    files,
                    Some(answer@),
                    candidates,
                    base_count,
                    max_file_size,
                )
            }
    }
}

/// `chosen` are the files at these positions from `offset` on, and `count` is the number of all of
/// them.
pub open spec fn are_listed_from(
    chosen: Seq<&FileItem>,
    count: usize,
    files: Seq<FileItem>,
    positions: Seq<usize>,
    offset: usize,
) -> bool {
    &&& count == positions.len()
    &&& chosen.len() == if offset < positions.len() {
        positions.len() - offset
    } else {
        0
    }
    &&& forall|k: int|
        0 <= k < chosen.len() ==> *(#[trigger] chosen[k]) == files[positions[offset + k] as int]
}

proof fn lemma_filter_leaves<'f, C: Fn(&[Constraint]) -> Vec<bool>>(
    filter: FileFilter<'f>,
    files: Seq<FileItem>,
    constraints: Seq<Constraint>,
    meets: C,
    candidates: Option<Vec<u64>>,
    base_count: usize,
    max_file_size: u64,
)
    requires
        is_filter_for(filter, files, constraints, meets, candidates, base_count, max_file_size),
    ensures
        are_left_under(
            filter.ranked(),
            files,
            constraints,
            meets,
            candidates,
            base_count,
            max_file_size,
        ),
{
    let positions = filter.ranked();
    let admitted = match filter.admitted {
        None => None,
        Some(list) => Some(list@),
    };
    law_kept_files_are_listed_once(filter);
    assert forall|a: int, b: int| 0 <= a < b < positions.len() implies {
        let (x, y) = (files[#[trigger] positions[a] as int], files[#[trigger] positions[b] as int]);
        ||| x.total_frecency_score > y.total_frecency_score
        ||| x.total_frecency_score == y.total_frecency_score && x.modified >= y.modified
    } by {
        law_search_order_is_by_frecency_then_time(filter, a, b);
    }
    assert forall|p: usize| #[trigger] positions.contains(p) <==> {
        &&& p < files.len()
        &&& !files[p as int].is_deleted
        &&& !files[p as int].is_binary
        &&& files[p as int].size > 0
        &&& files[p as int].size <= max_file_size
        &&& admitted matches Some(list) ==> list[p as int]
        &&& candidates matches Some(words) ==> p >= base_count || bit_set(words@, p as int)
    } by {
        law_searchable_files_are_chosen(filter, p);
    }
    assert(are_positions_left(
        positions,
        files,
        admitted,
        candidates,
        base_count,
        max_file_size,
    ));
}

proof fn lemma_chosen_are_listed<'f>(
    filter: FileFilter<'f>,
    chosen: Seq<&FileItem>,
    count: usize,
    offset: usize,
)
    requires
        chosen_by(filter, offset, chosen, count),
    ensures
        are_listed_from(chosen, count, filter.files@, filter.ranked(), offset),
{
    law_page_holds_the_files_from_its_offset_on(filter, offset as int);
    assert(file_values(chosen).len() == chosen.len());
    assert forall|k: int| 0 <= k < chosen.len() implies *(#[trigger] chosen[k])
        == filter.files@[filter.ranked()[offset + k] as int] by {
        assert(file_values(chosen)[k] == filter.page(offset as int)[k]);
    }
}

/// The files chosen for a page are those that can be searched, that meet the constraints and that
/// the index left, from the offset on, by frecency and then by time. Where the constraints leave no
/// file at all, and only there, those on the path of the file do not count.
pub proof fn law_chosen_files_are_those_left<C: Fn(&[Constraint]) -> Vec<bool>>(
    chosen: Seq<&FileItem>,
    count: usize,
    files: Seq<FileItem>,
    constraints: Seq<Constraint>,
    meets: C,
    candidates: Option<Vec<u64>>,
    base_count: usize,
    max_file_size: u64,
    file_offset: usize,
)
    requires
        are_files_for(
            chosen,
            count,
            files,
            constraints,
            meets,
            candidates,
            base_count,
            max_file_size,
            file_offset,
        ),
    ensures
        exists|positions: Seq<usize>|
            {
                &&& #[trigger] are_left_under(
                    positions,
                    files,
                    constraints,
                    meets,
                    candidates,
                    base_count,
                    max_file_size,
                )
                &&& if positions.len() > 0 || (forall|i: int|
                    0 <= i < constraints.len() ==> (#[trigger] constraints[i]) is Other) {
                    are_listed_from(chosen, count, files, positions, file_offset)
                } else {
                    exists|others: Seq<usize>, kept: Seq<Constraint>|
                        {
                            &&& kept == constraints.filter(
                                |c: Constraint| c matches Constraint::Other(_),
                            )
                            &&& #[trigger] are_left_under(
                                others,
                                files,
                                kept,
                                meets,
                                candidates,
                                base_count,
                                max_file_size,
                            )
                            &&& are_listed_from(chosen, count, files, others, file_offset)
                        }
                }
            },
{
    let stripped = without_file_path(constraints);
    law_other_constraints_stay(constraints, Constraint::Other(0));
    let filter = choose|filter: FileFilter|
        {
            &&& #[trigger] is_filter_for(
                filter,
                files,
                constraints,
                meets,
                candidates,
                base_count,
                max_file_size,
            )
            &&& if filter.ranked().len() > 0 || !has_file_path(constraints) {
                chosen_by(filter, file_offset, chosen, count)
            } else {
                exists|retry: FileFilter|
                    {
                        &&& #[trigger] is_filter_for(
                            retry,
                            files,
                            stripped,
                            meets,
                            candidates,
                            base_count,
                            max_file_size,
                        )
                        &&& chosen_by(retry, file_offset, chosen, count)
                    }
            }
        };
    lemma_filter_leaves(
        filter,
        files,
        constraints,
        meets,
        candidates,
        base_count,
        max_file_size,
    );
    if filter.ranked().len() > 0 || !has_file_path(constraints) {
        lemma_chosen_are_listed(filter, chosen, count, file_offset);
    } else {
        let retry = choose|retry: FileFilter|
            {
                &&& #[trigger] is_filter_for(
                    retry,
                    files,
                    stripped,
                    meets,
                    candidates,
                    base_count,
                    max_file_size,
                )
                &&& chosen_by(retry, file_offset, chosen, count)
            };
        lemma_filter_leaves(
            retry,
            files,
            stripped,
            meets,
            candidates,
            base_count,
            max_file_size,
        );
        lemma_chosen_are_listed(retry, chosen, count, file_offset);
    }
}

/// A search of the chosen files tells whoever reads them where the names of files are stored, what
/// counts are known, and what literal a file cannot match without.
pub proof fn law_search_is_told_what_it_needs<
    'a,
    'p,
    A: Copy,
    C: Fn(&[Constraint]) -> Vec<bool>,
    P,
    S: Fn(&GrepContext<'p, A>, &P, &[&'a FileItem]) -> ChunkMatches,
>(
    result: GrepResult<'a>,
    files: Seq<FileItem>,
    constraints: Seq<Constraint>,
    candidates: Option<Vec<u64>>,
    base_count: usize,
    options: &GrepSearchOptions,
    arenas: (A, A),
    literal: Option<Seq<u8>>,
    case_insensitive: bool,
    plan: &P,
    meets: C,
    search_chunk: S,
)
    requires
        is_content_result(
            result,
            true,
            files,
            constraints,
            candidates,
            base_count,
            options,
            arenas,
            literal,
            case_insensitive,
            plan,
            meets,
            search_chunk,
        ),
    ensures
        exists|ctx: &GrepContext<'p, A>, chosen: Seq<&'a FileItem>|
            {
                &&& ctx.arena == arenas.0
                &&& ctx.overflow_arena == arenas.1
                &&& ctx.total_files == files.filter(|file: FileItem| !file.is_deleted).len()
                &&& ctx.prefilter is Some <==> literal is Some
                &&& ctx.prefilter is Some ==> ctx.prefilter->0@ == literal->0
                &&& ctx.prefilter_case_insensitive == case_insensitive
                &&& are_files_for(
                    chosen,
                    ctx.filtered_file_count,
                    files,
                    constraints,
                    meets,
                    candidates,
                    base_count,
                    options.max_file_size,
                    options.file_offset,
                )
                &&& chosen.len() > 0
                &&& #[trigger] is_page_of_search(
                    result,
                    search_chunk,
                    ctx,
                    plan,
                    options,
                    chosen,
                    ctx.total_files,
                    ctx.filtered_file_count,
                )
            },
{
    law_live_files_are_those_not_deleted(files);
    let (chosen, count) = choose|chosen: Seq<&'a FileItem>, count: usize|
        {
            &&& #[trigger] are_files_for(
                chosen,
                count,
                files,
                constraints,
                meets,
                candidates,
                base_count,
                options.max_file_size,
                options.file_offset,
            )
            &&& true == (chosen.len() > 0)
            &&& exists|ctx: &GrepContext<'p, A>|
                {
                    &&& ctx.holds(
                        live_files(files) as int,
                        count as int,
                        arenas.0,
                        arenas.1,
                        literal,
                        case_insensitive,
                    )
                    &&& #[trigger] is_page_of_search(
                        result,
                        search_chunk,
                        ctx,
                        plan,
                        options,
                        chosen,
                        ctx.total_files,
                        ctx.filtered_file_count,
                    )
                }
        };
    let ctx = choose|ctx: &GrepContext<'p, A>|
        {
            &&& ctx.holds(
                live_files(files) as int,
                count as int,
                arenas.0,
                arenas.1,
                literal,
                case_insensitive,
            )
            &&& #[trigger] is_page_of_search(
                result,
                search_chunk,
                ctx,
                plan,
                options,
                chosen,
                ctx.total_files,
                ctx.filtered_file_count,
            )
        };
    assert(is_page_of_search(
        result,
        search_chunk,
        ctx,
        plan,
        options,
        chosen,
        ctx.total_files,
        ctx.filtered_file_count,
    ));
}

/// A search without a text finds nothing: it lists the files that have changed in git, and counts
/// the files that have not been deleted.
pub proof fn law_empty_text_lists_the_changed_files<
    'a,
    A: Copy,
    I: Fn(&BigramQuery) -> IndexAnswer,
    C: Fn(&[Constraint]) -> Vec<bool>,
    Z: Fn(&str, &[&'a FileItem], usize, usize, bool) -> GrepResult<'a>,
    S: Fn(&GrepContext<A>, &ContentPlan, &[&'a FileItem]) -> ChunkMatches,
>(
    result: GrepResult<'a>,
    text: Seq<char>,
    files: Seq<FileItem>,
    constraints: Seq<Constraint>,
    base_count: usize,
    options: &GrepSearchOptions,
    arenas: (A, A),
    ask_index: I,
    meets: C,
    search_fuzzy: Z,
    search_chunk: S,
)
    requires
        text.len() == 0,
        is_result_for(
            result,
            text,
            files,
            constraints,
            base_count,
            options,
            arenas,
            ask_index,
            meets,
            search_fuzzy,
            search_chunk,
        ),
    ensures
        result.matches@.len() == 0,
        result.files@.len() == git_changed_files(files).len(),
        forall|k: int|
            0 <= k < result.files@.len() ==> *(#[trigger] result.files@[k]) == git_changed_files(
                files,
            )[k],
        result.files_with_matches == 0,
        result.total_files_searched == 0,
        result.next_file_offset == 0,
        result.regex_fallback_error is None,
        result.total_files == files.filter(|file: FileItem| !file.is_deleted).len(),
        result.filtered_file_count == result.total_files,
{
    law_live_files_are_those_not_deleted(files);
    assert(result.lists_changed(files));
    assert(file_values(result.files@).len() == result.files@.len());
    assert forall|k: int| 0 <= k < result.files@.len() implies *(#[trigger] result.files@[k])
        == git_changed_files(files)[k] by {
        assert(file_values(result.files@)[k] == *result.files@[k]);
    }
}

/// A search that allows for typos is made for the text, in the files chosen for the page, with
/// regard to case as smart case says; with no file chosen it is not made, and nothing is found.
pub proof fn law_fuzzy_search_gets_the_text_and_the_files<
    'a,
    A: Copy,
    I: Fn(&BigramQuery) -> IndexAnswer,
    C: Fn(&[Constraint]) -> Vec<bool>,
    Z: Fn(&str, &[&'a FileItem], usize, usize, bool) -> GrepResult<'a>,
    S: Fn(&GrepContext<A>, &ContentPlan, &[&'a FileItem]) -> ChunkMatches,
>(
    result: GrepResult<'a>,
    text: Seq<char>,
    files: Seq<FileItem>,
    constraints: Seq<Constraint>,
    base_count: usize,
    options: &GrepSearchOptions,
    arenas: (A, A),
    ask_index: I,
    meets: C,
    search_fuzzy: Z,
    search_chunk: S,
)
    requires
        text.len() > 0,
        options.mode == GrepMode::Fuzzy,
        is_result_for(
            result,
            text,
            files,
            constraints,
            base_count,
            options,
            arenas,
            ask_index,
            meets,
            search_fuzzy,
            search_chunk,
        ),
    ensures
        exists|
            question: &BigramQuery,
            candidates: Option<Vec<u64>>,
            chosen: &[&'a FileItem],
            count: usize,
        |
            {
                &&& question matches BigramQuery::Fuzzy { text: asked, probes } && asked@ == text
                    && probes == 7
                &&& #[trigger] are_candidates_for(candidates, question, ask_index)
                &&& #[trigger] are_files_for(
                    chosen@,
                    count,
                    files,
                    constraints,
                    meets,
                    candidates,
                    base_count,
                    options.max_file_size,
                    options.file_offset,
                )
                &&& if chosen@.len() == 0 {
                    &&& result.matches@.len() == 0
                    &&& result.files@.len() == 0
                    &&& result.next_file_offset == 0
                    &&& result.filtered_file_count == count
                } else {
                    exists|arg: &str, total: usize, case_insensitive: bool|
                        {
                            &&& arg@ == text
                            &&& total == files.filter(|file: FileItem| !file.is_deleted).len()
                            &&& case_insensitive <==> {
                                &&& options.smart_case
                                &&& forall|i: int|
                                    0 <= i < text.len() ==> !is_upper(#[trigger] text[i])
                            }
                            &&& #[trigger] call_ensures(
                                search_fuzzy,
                                (arg, chosen, total, count, case_insensitive),
                                result,
                            )
                        }
                }
            },
{
    law_live_files_are_those_not_deleted(files);
    let plan = choose|plan: SearchPlan| #[trigger]
        plan.is_for(text, options) && is_result_of_plan(
            result,
            plan,
            text,
            files,
            constraints,
            base_count,
            options,
            arenas,
            ask_index,
            meets,
            search_fuzzy,
            search_chunk,
        );
    law_search_ignores_case_unless_a_character_is_upper(plan, text, options);
    let case_insensitive = plan->case_insensitive;
    let (question, candidates) = choose|
        question: &BigramQuery,
        candidates: Option<Vec<u64>>,
    |
        {
            &&& plan.asks(*question)
            &&& #[trigger] are_candidates_for(candidates, question, ask_index)
            &&& is_fuzzy_result(
                result,
                files,
                constraints,
                candidates,
                base_count,
                options,
                text,
                case_insensitive,
                meets,
                search_fuzzy,
            )
        };
    let (chosen, count) = choose|chosen: &[&'a FileItem], count: usize|
        {
            &&& #[trigger] are_files_for(
                chosen@,
                count,
                files,
                constraints,
                meets,
                candidates,
                base_count,
                options.max_file_size,
                options.file_offset,
            )
            &&& if chosen@.len() == 0 {
                result.is_empty(live_files(files) as int, count as int)
            } else {
                exists|arg: &str, total_files: usize|
                    {
                        &&& arg@ == text
                        &&& total_files == live_files(files)
                        &&& #[trigger] call_ensures(
                            search_fuzzy,
                            (arg, chosen, total_files, count, case_insensitive),
                            result,
                        )
                    }
            }
        };
    assert(are_candidates_for(candidates, question, ask_index));
    if chosen@.len() == 0 {
        assert(match_views(result.matches@).len() == result.matches@.len());
        assert(file_values(result.files@).len() == result.files@.len());
    } else {
        let (arg, total) = choose|arg: &str, total_files: usize|
            {
                &&& arg@ == text
                &&& total_files == live_files(files)
                &&& #[trigger] call_ensures(
                    search_fuzzy,
                    (arg, chosen, total_files, count, case_insensitive),
                    result,
                )
            };
        assert(call_ensures(search_fuzzy, (arg, chosen, total, count, case_insensitive), result));
    }
}

/// A search for any of several patterns is one for each of them, with regard to case if and only if
/// some character of some pattern is uppercase or smart case is off, and no file is skipped unread
/// for want of a literal.
pub proof fn law_multi_search_is_for_every_pattern<
    'a,
    'p,
    A: Copy,
    C: Fn(&[Constraint]) -> Vec<bool>,
    S: Fn(&GrepContext<'p, A>, &PatternSet, &[&'a FileItem]) -> ChunkMatches,
>(
    page: GrepResult<'a>,
    patterns: Seq<&str>,
    files: Seq<FileItem>,
    constraints: Seq<Constraint>,
    candidates: Option<Vec<u64>>,
    base_count: usize,
    options: &GrepSearchOptions,
    arenas: (A, A),
    meets: C,
    search_chunk: S,
)
    requires
        is_multi_result(
            Ok::<GrepResult<'a>, PatternSetError>(page),
            patterns,
            files,
            constraints,
            candidates,
            base_count,
            options,
            arenas,
            meets,
            search_chunk,
        ),
    ensures
        exists|set: PatternSet, searched: bool|
            {
                &&& #[trigger] is_content_result(
                    page,
                    searched,
                    files,
                    constraints,
                    candidates,
                    base_count,
                    options,
                    arenas,
                    None,
                    false,
                    &set,
                    meets,
                    search_chunk,
                )
                &&& searched ==> {
                    &&& set.literals().len() == patterns.len()
                    &&& forall|k: int|
                        0 <= k < patterns.len() ==> #[trigger] set.literals()[k] == patterns[k]@
                    &&& set.ignores_case() <==> {
                        &&& options.smart_case
                        &&& forall|k: int, i: int|
                            0 <= k < patterns.len() && 0 <= i < patterns[k]@.len() ==> !is_upper(
                                #[trigger] patterns[k]@[i],
                            )
                    }
                }
            },
{
    let (set, searched) = choose|set: PatternSet, searched: bool|
        {
            &&& #[trigger] is_content_result(
                page,
                searched,
                files,
                constraints,
                candidates,
                base_count,
                options,
                arenas,
                None,
                false,
                &set,
                meets,
                search_chunk,
            )
            &&& searched ==> {
                &&& set.literals() == slice_texts(patterns)
                &&& set.ignores_case() == (options.smart_case && !any_has_upper(
                    slice_texts(patterns),
                ))
            }
        };
    let all = slice_texts(patterns);
    law_any_upper_looks_at_every_character(all);
    if any_has_upper(all) {
        let (k, i) = choose|k: int, i: int|
            0 <= k < all.len() && 0 <= i < all[k].len() && is_upper(#[trigger] all[k][i]);
        assert(is_upper(patterns[k]@[i]));
    } else {
        assert forall|k: int, i: int|
            0 <= k < patterns.len() && 0 <= i < patterns[k]@.len() implies !is_upper(
            #[trigger] patterns[k]@[i],
        ) by {
            assert(!is_upper(all[k][i]));
        }
    }
    assert(is_content_result(
        page,
        searched,
        files,
        constraints,
        candidates,
        base_count,
        options,
        arenas,
        None,
        false,
        &set,
        meets,
        search_chunk,
    ));
}

/// A sink starts without a match and with the settings that were asked for, each in its place.
pub proof fn law_fresh_sink_has_the_settings_asked_for(
    state: SinkState,
    max_matches: usize,
    options: &GrepSearchOptions,
)
    requires
        state.is_fresh(max_matches, options),
    ensures
        state.matches@.len() == 0,
        state.max_matches == max_matches,
        state.before_context == options.before_context,
        state.after_context == options.after_context,
        state.classify_definitions == options.classify_definitions,
{
}

/// A search of contents is one for the text, by a plan for it, in the files chosen under the
/// query's constraints among those that the index, asked for what is searched for, left. What the
/// files hold is reported as it was found, with the reason why a text is not searched for as a
/// regex; with no file chosen nothing is found.
pub proof fn law_content_search_is_of_the_chosen_files<
    'a,
    A: Copy,
    I: Fn(&BigramQuery) -> IndexAnswer,
    C: Fn(&[Constraint]) -> Vec<bool>,
    Z: Fn(&str, &[&'a FileItem], usize, usize, bool) -> GrepResult<'a>,
    S: Fn(&GrepContext<A>, &ContentPlan, &[&'a FileItem]) -> ChunkMatches,
>(
    result: GrepResult<'a>,
    text: Seq<char>,
    files: Seq<FileItem>,
    constraints: Seq<Constraint>,
    base_count: usize,
    options: &GrepSearchOptions,
    arenas: (A, A),
    ask_index: I,
    meets: C,
    search_fuzzy: Z,
    search_chunk: S,
)
    requires
        text.len() > 0,
        options.mode != GrepMode::Fuzzy,
        is_result_for(
            result,
            text,
            files,
            constraints,
            base_count,
            options,
            arenas,
            ask_index,
            meets,
            search_fuzzy,
            search_chunk,
        ),
    ensures
        exists|
            plan: ContentPlan,
            question: &BigramQuery,
            candidates: Option<Vec<u64>>,
            chosen: Seq<&'a FileItem>,
        |
            {
                &&& SearchPlan::Content(plan).is_for(text, options)
                &&& #[trigger] plan.asks(*question)
                &&& #[trigger] are_candidates_for(candidates, question, ask_index)
                &&& #[trigger] are_files_for(
                    chosen,
                    result.filtered_file_count,
                    files,
                    constraints,
                    meets,
                    candidates,
                    base_count,
                    options.max_file_size,
                    options.file_offset,
                )
                &&& result.total_files == files.filter(|file: FileItem| !file.is_deleted).len()
                &&& result.regex_fallback_error == plan.regex_fallback_error
                &&& if chosen.len() == 0 {
                    &&& result.matches@.len() == 0
                    &&& result.files@.len() == 0
                    &&& result.total_files_searched == 0
                    &&& result.next_file_offset == 0
                } else {
                    exists|ctx: &GrepContext<A>|
                        {
                            &&& ctx.arena == arenas.0
                            &&& ctx.overflow_arena == arenas.1
                            &&& ctx.prefilter is Some <==> plan.regex is None
                            &&& ctx.prefilter is Some ==> ctx.prefilter->0@ == plan.finder_pattern@
                            &&& ctx.prefilter_case_insensitive == plan.case_insensitive
                            &&& #[trigger] is_page_of_search(
                                (GrepResult { regex_fallback_error: None, ..result }),
                                search_chunk,
                                ctx,
                                &plan,
                                options,
                                chosen,
                                result.total_files,
                                result.filtered_file_count,
                            )
                        }
                }
            },
{
    law_live_files_are_those_not_deleted(files);
    let plan = choose|plan: SearchPlan| #[trigger]
        plan.is_for(text, options) && is_result_of_plan(
            result,
            plan,
            text,
            files,
            constraints,
            base_count,
            options,
            arenas,
            ask_index,
            meets,
            search_fuzzy,
            search_chunk,
        );
    let content = plan->Content_0;
    assert(plan == SearchPlan::Content(content));
    let (question, candidates, page, searched) = choose|
        question: &BigramQuery,
        candidates: Option<Vec<u64>>,
        page: GrepResult<'a>,
        searched: bool,
    |
        {
            &&& plan.asks(*question)
            &&& #[trigger] are_candidates_for(candidates, question, ask_index)
            &&& #[trigger] is_content_result(
                page,
                searched,
                files,
                constraints,
                candidates,
                base_count,
                options,
                arenas,
                content.literal(),
                content.case_insensitive,
                &content,
                meets,
                search_chunk,
            )
            &&& result == content.concluded(page)
        };
    assert(content.asks(*question));
    if searched {
        law_search_is_told_what_it_needs(
            page,
            files,
            constraints,
            candidates,
            base_count,
            options,
            arenas,
            content.literal(),
            content.case_insensitive,
            &content,
            meets,
            search_chunk,
        );
        let (ctx, chosen) = choose|ctx: &GrepContext<A>, chosen: Seq<&'a FileItem>|
            {
                &&& ctx.arena == arenas.0
                &&& ctx.overflow_arena == arenas.1
                &&& ctx.total_files == files.filter(|file: FileItem| !file.is_deleted).len()
                &&& ctx.prefilter is Some <==> content.literal() is Some
                &&& ctx.prefilter is Some ==> ctx.prefilter->0@ == content.literal()->0
                &&& ctx.prefilter_case_insensitive == content.case_insensitive
                &&& are_files_for(
                    chosen,
                    ctx.filtered_file_count,
                    files,
                    constraints,
                    meets,
                    candidates,
                    base_count,
                    options.max_file_size,
                    options.file_offset,
                )
                &&& chosen.len() > 0
                &&& #[trigger] is_page_of_search(
                    page,
                    search_chunk,
                    ctx,
                    &content,
                    options,
                    chosen,
                    ctx.total_files,
                    ctx.filtered_file_count,
                )
            };
        assert(page.total_files == ctx.total_files && page.filtered_file_count
            == ctx.filtered_file_count && page.regex_fallback_error is None);
        assert((GrepResult { regex_fallback_error: None, ..result }) == page);
        assert(is_page_of_search(
            (GrepResult { regex_fallback_error: None, ..result }),
            search_chunk,
            ctx,
            &content,
            options,
            chosen,
            result.total_files,
            result.filtered_file_count,
        ));
        assert(are_files_for(
            chosen,
            result.filtered_file_count,
            files,
            constraints,
            meets,
            candidates,
            base_count,
            options.max_file_size,
            options.file_offset,
        ));
    } else {
        let (chosen, count) = choose|chosen: Seq<&'a FileItem>, count: usize|
            {
                &&& #[trigger] are_files_for(
                    chosen,
                    count,
                    files,
                    constraints,
                    meets,
                    candidates,
                    base_count,
                    options.max_file_size,
                    options.file_offset,
                )
                &&& chosen.len() == 0
                &&& page.is_empty(live_files(files) as int, count as int)
            };
        assert(match_views(page.matches@).len() == page.matches@.len());
        assert(file_values(page.files@).len() == page.files@.len());
        assert(are_files_for(
            chosen,
            result.filtered_file_count,
            files,
            constraints,
            meets,
            candidates,
            base_count,
            options.max_file_size,
            options.file_offset,
        ));
    }
}

/// Which files an index leaves is what it answered when it was asked, corrected by the changes since
/// it was built: as far as its answer reaches, a file is left if it has changed and may match, or
/// if the index named it and it has not been deleted. Without an answer it leaves all.
pub proof fn law_candidates_come_from_the_index<I: Fn(&BigramQuery) -> IndexAnswer>(
    candidates: Option<Vec<u64>>,
    question: &BigramQuery,
    ask_index: I,
)
    requires
        are_candidates_for(candidates, question, ask_index),
    ensures
        exists|answer: IndexAnswer|
            {
                &&& #[trigger] call_ensures(ask_index, (question,), answer)
                &&& candidates is None <==> answer.raw is None
                &&& candidates matches Some(result) ==> forall|i: int| #[trigger]
                    bit_set(result@, i) <==> {
                        let words = answer.raw->0@;
                        match answer.overlay {
                            None => bit_set(words, i),
                            Some(changes) => {
                                ||| bit_set(words, i) && !bit_set(changes.tombstones@, i)
                                ||| i / 64 < words.len() && exists|k: int|
                                    0 <= k < changes.modified@.len()
                                        && #[trigger] changes.modified@[k] == i
                            },
                        }
                    }
            },
{
    let answer = choose|answer: IndexAnswer| #[trigger]
        call_ensures(ask_index, (question,), answer) && answer.gives(candidates);
    law_candidates_are_the_corrected_answer(answer, candidates, 0);
    if let Some(result) = candidates {
        assert forall|i: int| #[trigger] bit_set(result@, i) <==> {
            let words = answer.raw->0@;
            match answer.overlay {
                None => bit_set(words, i),
                Some(changes) => {
                    ||| bit_set(words, i) && !bit_set(changes.tombstones@, i)
                    ||| i / 64 < words.len() && exists|k: int|
                        0 <= k < changes.modified@.len() && #[trigger] changes.modified@[k] == i
                },
            }
        } by {
            law_candidates_are_the_corrected_answer(answer, candidates, i);
        }
    }
}

} // verus!
