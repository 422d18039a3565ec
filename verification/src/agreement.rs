//! How whole searches agree with one another.
use crate::candidates::IndexAnswer;
use crate::constraints::Constraint;
use crate::files::{
    file_values, lemma_ranking, live_files, rank_order, ranks_first, FileItem,
};
use crate::grep::{
    all_matched, are_candidates_for, are_files_for, chunk_hits, chunk_searched, found_by,
    is_content_result, is_page_of_search, is_result_for, is_result_of_plan,
};
use crate::matches::{match_views, GrepMatch, MatchView};
use crate::options::{GrepMode, GrepSearchOptions};
use crate::page::{
    consumed_by_run, lemma_page_files, page_of, positions_below, FileHits, GrepResult,
};
use crate::paging::{
    all_reported, detached, hit_files, law_page_drops_no_match, lemma_detached_reported,
    lemma_reported_concat, positions_ascend,
};
use crate::patterns::{is_compiled_from, regex_built, regex_source, CompiledRegex};
use crate::prefilter::{law_kept_files_are_listed_once, FileFilter};
use crate::run::{ChunkMatches, GrepContext};
use crate::search::{BigramQuery, ContentPlan, SearchPlan};
use crate::text::smart_case_insensitive;
use regex::bytes::Regex;
use vstd::prelude::*;

verus! {

/// Each file that is searched yields the same matches whenever it is: `truth` of it.
pub open spec fn finds_the_truth<'a, C, P, F: Fn(&C, &P, &[&'a FileItem]) -> ChunkMatches>(
    search_chunk: F,
    plan: &P,
    truth: spec_fn(FileItem) -> Seq<MatchView>,
) -> bool {
    forall|ctx: &C, chunk: &[&'a FileItem], found: ChunkMatches, k: int|
        #![trigger call_ensures(search_chunk, (ctx, plan, chunk), found), found.per_file()[k]]
        call_ensures(search_chunk, (ctx, plan, chunk), found) && 0 <= k < found.per_file().len()
            && k < chunk@.len() ==> match_views(found.per_file()[k]@) == truth(*chunk@[k])
}

/// The files with matches among those from `from` up to `to`, given the matches of each file.
pub open spec fn true_hits(
    files: Seq<FileItem>,
    truth: spec_fn(FileItem) -> Seq<MatchView>,
    from: int,
    to: int,
) -> Seq<FileHits>
    decreases to - from,
{
    if to <= from {
        Seq::empty()
    } else {
        let before = true_hits(files, truth, from, to - 1);
        if truth(files[to - 1]).len() > 0 {
            before.push(
                FileHits {
                    position: to - 1,
                    file: files[to - 1],
                    matches: truth(files[to - 1]),
                },
            )
        } else {
            before
        }
    }
}

/// The matches in two stretches are those of the one and those of the other.
pub proof fn lemma_true_hits_split(
    files: Seq<FileItem>,
    truth: spec_fn(FileItem) -> Seq<MatchView>,
    from: int,
    mid: int,
    to: int,
)
    requires
        from <= mid <= to,
    ensures
        true_hits(files, truth, from, to) == true_hits(files, truth, from, mid) + true_hits(
            files,
            truth,
            mid,
            to,
        ),
    decreases to - mid,
{
    let (a, b) = (true_hits(files, truth, from, mid), true_hits(files, truth, mid, to));
    if mid == to {
        assert(a + b =~= a);
    } else {
        lemma_true_hits_split(files, truth, from, mid, to - 1);
        assert(true_hits(files, truth, from, to) =~= a + b);
    }
}

/// Where the files with matches of a stretch lie.
proof fn lemma_true_positions(
    files: Seq<FileItem>,
    truth: spec_fn(FileItem) -> Seq<MatchView>,
    from: int,
    to: int,
)
    ensures
        forall|i: int|
            0 <= i < true_hits(files, truth, from, to).len() ==> from <= (#[trigger] true_hits(
                files,
                truth,
                from,
                to,
            )[i]).position < to,
    decreases to - from,
{
    if from < to {
        lemma_true_positions(files, truth, from, to - 1);
        let before = true_hits(files, truth, from, to - 1);
        assert forall|i: int| 0 <= i < true_hits(files, truth, from, to).len() implies from <= (
        #[trigger] true_hits(files, truth, from, to)[i]).position < to by {
            if i < before.len() {
                assert(from <= before[i].position < to - 1);
            }
        }
    }
}

/// Counting files from a later one on moves positions and nothing else.
proof fn lemma_true_hits_moved(
    files: Seq<FileItem>,
    truth: spec_fn(FileItem) -> Seq<MatchView>,
    offset: int,
    from: int,
    to: int,
)
    requires
        0 <= offset,
        0 <= from,
        offset + to <= files.len(),
    ensures
        ({
            let moved = true_hits(files.skip(offset), truth, from, to);
            let all = true_hits(files, truth, offset + from, offset + to);
            &&& moved.len() == all.len()
            &&& forall|i: int|
                0 <= i < all.len() ==> (#[trigger] moved[i]).file == (#[trigger] all[i]).file
                    && moved[i].matches == all[i].matches
        }),
    decreases to - from,
{
    if from < to {
        lemma_true_hits_moved(files, truth, offset, from, to - 1);
        assert(files.skip(offset)[to - 1] == files[offset + to - 1]);
        let moved = true_hits(files.skip(offset), truth, from, to);
        let all = true_hits(files, truth, offset + from, offset + to);
        let (m, a) = (
            true_hits(files.skip(offset), truth, from, to - 1),
            true_hits(files, truth, offset + from, offset + to - 1),
        );
        assert forall|i: int| 0 <= i < all.len() implies (#[trigger] moved[i]).file == (
        #[trigger] all[i]).file && moved[i].matches == all[i].matches by {
            if i < a.len() {
                assert(m[i].file == a[i].file);
            }
        }
    }
}

/// What a chunk yields is what its files hold.
proof fn lemma_chunk_hits_are_true(
    files: Seq<&FileItem>,
    chunk: Seq<&FileItem>,
    start: int,
    found: Seq<Vec<GrepMatch>>,
    truth: spec_fn(FileItem) -> Seq<MatchView>,
)
    requires
        0 <= start,
        start + chunk.len() <= files.len(),
        chunk == files.subrange(start, start + chunk.len()),
        forall|k: int|
            0 <= k < found.len() && k < chunk.len() ==> match_views((#[trigger] found[k])@)
                == truth(*chunk[k]),
    ensures
        chunk_hits(chunk, start, found) == true_hits(
            file_values(files),
            truth,
            start,
            if found.len() < chunk.len() {
                start + found.len()
            } else {
                start + chunk.len()
            },
        ),
    decreases found.len(),
{
    if found.len() > 0 {
        let fewer = found.drop_last();
        assert forall|k: int| 0 <= k < fewer.len() && k < chunk.len() implies match_views(
            (#[trigger] fewer[k])@,
        ) == truth(*chunk[k]) by {
            assert(fewer[k] == found[k]);
        }
        lemma_chunk_hits_are_true(files, chunk, start, fewer, truth);
        let at = found.len() - 1;
        if at < chunk.len() {
            assert(match_views(found[at]@) == truth(*chunk[at]));
            assert(match_views(found[at]@).len() == found[at]@.len());
            assert(file_values(files)[start + at] == *chunk[at]);
        }
    }
}

/// What a search of some files finds is what they hold.
pub proof fn lemma_found_is_true<'a, C, P, F: Fn(&C, &P, &[&'a FileItem]) -> ChunkMatches>(
    search_chunk: F,
    ctx: &C,
    plan: &P,
    files: Seq<&'a FileItem>,
    end: int,
    hits: Seq<FileHits>,
    stopped: bool,
    truth: spec_fn(FileItem) -> Seq<MatchView>,
)
    requires
        found_by(search_chunk, ctx, plan, files, end, hits, stopped),
        finds_the_truth::<C, P, F>(search_chunk, plan, truth),
    ensures
        0 <= end <= files.len(),
        hits == true_hits(file_values(files), truth, 0, end),
    decreases end,
{
    if end == 0 && hits.len() == 0 && !stopped {
        assert(hits =~= true_hits(file_values(files), truth, 0, end));
    } else {
        let (start, before, chunk, found) = choose|
            start: int,
            before: Seq<FileHits>,
            chunk: &[&'a FileItem],
            found: ChunkMatches,
        |
            {
                &&& #[trigger] chunk_searched(
                    search_chunk,
                    ctx,
                    plan,
                    files,
                    start,
                    end,
                    before,
                    hits,
                    chunk,
                    found,
                    stopped,
                )
                &&& found_by(search_chunk, ctx, plan, files, start, before, false)
            };
        lemma_found_is_true(search_chunk, ctx, plan, files, start, before, false, truth);
        let list = found.per_file();
        assert forall|k: int| 0 <= k < list.len() && k < chunk@.len() implies match_views(
            (#[trigger] list[k])@,
        ) == truth(*chunk@[k]) by {
            assert(call_ensures(search_chunk, (ctx, plan, chunk), found));
        }
        lemma_chunk_hits_are_true(files, chunk@, start, list, truth);
        lemma_true_hits_split(file_values(files), truth, 0, start, end);
    }
}

/// `result` reports what the files `all` hold, from the offset on up to the file that it accounts
/// for last, and names that as the start of the next page if any file is left. It accounts for one
/// file at least.
pub open spec fn reports_the_truth(
    result: GrepResult,
    all: Seq<FileItem>,
    truth: spec_fn(FileItem) -> Seq<MatchView>,
    options: &GrepSearchOptions,
) -> bool {
    let from = options.file_offset as int;
    let to = from + result.total_files_searched;
    let taken = true_hits(all, truth, from, to);
    &&& to <= all.len()
    &&& from < all.len() ==> from < to
    &&& file_values(result.files@) == hit_files(taken)
    &&& detached(match_views(result.matches@)) == detached(
        all_reported(taken, options.trim_whitespace),
    )
    &&& result.next_file_offset == if to < all.len() {
        to
    } else {
        0
    }
}

/// A search reports exactly the matches of the files that it accounts for, whether it was cut
/// short or not.
pub proof fn law_search_reports_what_is_there<
    'a,
    C,
    P,
    F: Fn(&C, &P, &[&'a FileItem]) -> ChunkMatches,
>(
    result: GrepResult<'a>,
    search_chunk: F,
    ctx: &C,
    plan: &P,
    options: &GrepSearchOptions,
    chosen: Seq<&'a FileItem>,
    total_files: usize,
    filtered_file_count: usize,
    all: Seq<FileItem>,
    truth: spec_fn(FileItem) -> Seq<MatchView>,
)
    requires
        is_page_of_search(
            result,
            search_chunk,
            ctx,
            plan,
            options,
            chosen,
            total_files,
            filtered_file_count,
        ),
        finds_the_truth::<C, P, F>(search_chunk, plan, truth),
        options.file_offset <= all.len(),
        file_values(chosen) == all.skip(options.file_offset as int),
    ensures
        reports_the_truth(result, all, truth, options),
{
    let (limit, trim) = (options.page_limit as int, options.trim_whitespace);
    let (end, hits, stopped) = choose|end: int, hits: Seq<FileHits>, stopped: bool|
        {
            let page = page_of(hits, limit, trim);
            &&& #[trigger] found_by(search_chunk, ctx, plan, chosen, end, hits, stopped)
            &&& positions_ascend(hits)
            &&& positions_below(hits, end)
            &&& all_matched(hits)
            &&& if stopped {
                end < chosen.len()
            } else {
                end == chosen.len() || page.filled
            }
            &&& result.reports(
                page,
                consumed_by_run(hits, page, end),
                chosen.len() as int,
                options.file_offset as int,
                stopped,
                total_files as int,
                filtered_file_count as int,
            )
        };
    let page = page_of(hits, limit, trim);
    let consumed = consumed_by_run(hits, page, end);
    let offset = options.file_offset as int;
    let files = file_values(chosen);
    assert(files.len() == chosen.len());
    lemma_found_is_true(search_chunk, ctx, plan, chosen, end, hits, stopped, truth);
    lemma_page_files(hits, limit, trim);
    law_page_drops_no_match(hits, limit, trim);
    let n = page.files.len() as int;
    if page.filled {
        assert(hits[n - 1].position < end);
    }
    lemma_true_hits_split(files, truth, 0, consumed, end);
    let (taken, left) = (
        true_hits(files, truth, 0, consumed),
        true_hits(files, truth, consumed, end),
    );
    lemma_true_positions(files, truth, 0, consumed);
    lemma_true_positions(files, truth, consumed, end);
    assert(hits == taken + left);
    assert(taken.len() == n) by {
        if page.filled {
            if n - 1 >= taken.len() {
                assert(hits[n - 1] == left[n - 1 - taken.len()]);
            }
            if n < taken.len() {
                assert(hits[n] == taken[n]);
                assert(hits[n - 1].position < hits[n].position);
            }
        } else {
            assert(left.len() == 0);
        }
    }
    assert(hits.take(n) =~= taken);
    lemma_true_hits_moved(all, truth, offset, 0, consumed);
    let reported = true_hits(all, truth, offset, offset + consumed);
    assert(hit_files(taken) =~= hit_files(reported));
    lemma_detached_reported(taken, reported, trim);
}

/// `result` is that of a search of the files `all` from the offset on.
pub open spec fn is_search_of<'a, C, P, F: Fn(&C, &P, &[&'a FileItem]) -> ChunkMatches>(
    result: GrepResult<'a>,
    search_chunk: F,
    plan: &P,
    options: GrepSearchOptions,
    all: Seq<FileItem>,
) -> bool {
    exists|ctx: &C, chosen: Seq<&'a FileItem>, total_files: usize, filtered_file_count: usize|
        {
            &&& options.file_offset <= all.len()
            &&& file_values(chosen) == all.skip(options.file_offset as int)
            &&& #[trigger] is_page_of_search(
                result,
                search_chunk,
                ctx,
                plan,
                &options,
                chosen,
                total_files,
                filtered_file_count,
            )
        }
}

/// The files of several results, one result behind the other.
pub open spec fn files_of_results(results: Seq<GrepResult>) -> Seq<FileItem>
    decreases results.len(),
{
    if results.len() == 0 {
        Seq::empty()
    } else {
        files_of_results(results.drop_last()) + file_values(results.last().files@)
    }
}

/// The matches of several results, one result behind the other, without the file they point to,
/// which is counted anew in each result.
pub open spec fn matches_of_results(results: Seq<GrepResult>) -> Seq<MatchView>
    decreases results.len(),
{
    if results.len() == 0 {
        Seq::empty()
    } else {
        matches_of_results(results.drop_last()) + detached(
            match_views(results.last().matches@),
        )
    }
}

/// The searches are made one after the other: the first one from the first file on, each other
/// one from the offset that the one before it named.
pub open spec fn follow_one_another(
    results: Seq<GrepResult>,
    options: Seq<GrepSearchOptions>,
) -> bool {
    &&& results.len() == options.len()
    &&& results.len() > 0
    &&& options[0].file_offset == 0
    &&& forall|k: int|
        0 <= k < results.len() - 1 ==> (#[trigger] results[k]).next_file_offset != 0
            && results[k].next_file_offset == options[k + 1].file_offset
}

/// Searches that are made one after the other, until one names no next page, report every match
/// of every file once and in the order of the files: whatever the page limits are, and whichever
/// of the searches were cut short.
pub proof fn law_successive_searches_report_everything_once<
    'a,
    C,
    P,
    F: Fn(&C, &P, &[&'a FileItem]) -> ChunkMatches,
>(
    results: Seq<GrepResult<'a>>,
    search_chunk: F,
    plan: &P,
    options: Seq<GrepSearchOptions>,
    all: Seq<FileItem>,
    truth: spec_fn(FileItem) -> Seq<MatchView>,
    trim_whitespace: bool,
)
    requires
        follow_one_another(results, options),
        results.last().next_file_offset == 0,
        finds_the_truth::<C, P, F>(search_chunk, plan, truth),
        forall|k: int|
            0 <= k < results.len() ==> (#[trigger] options[k]).trim_whitespace == trim_whitespace
                && is_search_of::<C, P, F>(results[k], search_chunk, plan, options[k], all),
    ensures
        ({
            let hits = true_hits(all, truth, 0, all.len() as int);
            &&& files_of_results(results) == hit_files(hits)
            &&& matches_of_results(results) == detached(all_reported(hits, trim_whitespace))
        }),
{
    assert forall|k: int| 0 <= k < results.len() implies reports_the_truth(
        #[trigger] results[k],
        all,
        truth,
        &options[k],
    ) by {
        assert(options[k].trim_whitespace == trim_whitespace);
        let (ctx, chosen, total_files, filtered_file_count) = choose|
            ctx: &C,
            chosen: Seq<&'a FileItem>,
            total_files: usize,
            filtered_file_count: usize,
        |
            {
                &&& options[k].file_offset <= all.len()
                &&& file_values(chosen) == all.skip(options[k].file_offset as int)
                &&& #[trigger] is_page_of_search(
                    results[k],
                    search_chunk,
                    ctx,
                    plan,
                    &options[k],
                    chosen,
                    total_files,
                    filtered_file_count,
                )
            };
        law_search_reports_what_is_there(
            results[k],
            search_chunk,
            ctx,
            plan,
            &options[k],
            chosen,
            total_files,
            filtered_file_count,
            all,
            truth,
        );
    }
    let last = results.len() - 1;
    lemma_results_so_far(results, options, all, truth, trim_whitespace, results.len() as int);
    assert(results.take(results.len() as int) =~= results);
    assert(reports_the_truth(results[last], all, truth, &options[last]));
}

/// The first `k` results report everything up to the file that the last of them accounts for.
proof fn lemma_results_so_far(
    results: Seq<GrepResult>,
    options: Seq<GrepSearchOptions>,
    all: Seq<FileItem>,
    truth: spec_fn(FileItem) -> Seq<MatchView>,
    trim_whitespace: bool,
    k: int,
)
    requires
        follow_one_another(results, options),
        1 <= k <= results.len(),
        forall|j: int|
            0 <= j < results.len() ==> (#[trigger] options[j]).trim_whitespace
                == trim_whitespace,
        forall|j: int|
            0 <= j < results.len() ==> reports_the_truth(
                #[trigger] results[j],
                all,
                truth,
                &options[j],
            ),
    ensures
        ({
            let to = options[k - 1].file_offset + results[k - 1].total_files_searched;
            let hits = true_hits(all, truth, 0, to);
            &&& files_of_results(results.take(k)) == hit_files(hits)
            &&& matches_of_results(results.take(k)) == detached(
                all_reported(hits, trim_whitespace),
            )
        }),
    decreases k,
{
    let from = options[k - 1].file_offset as int;
    let to = from + results[k - 1].total_files_searched;
    let (before, taken) = (true_hits(all, truth, 0, from), true_hits(all, truth, from, to));
    assert(options[k - 1].trim_whitespace == trim_whitespace);
    assert(reports_the_truth(results[k - 1], all, truth, &options[k - 1]));
    assert(results.take(k).drop_last() =~= results.take(k - 1));
    assert(results.take(k).last() == results[k - 1]);
    lemma_true_hits_split(all, truth, 0, from, to);
    assert(hit_files(before + taken) =~= hit_files(before) + hit_files(taken));
    lemma_reported_concat(before, taken, trim_whitespace);
    if k == 1 {
        assert(results.take(0) =~= Seq::<GrepResult>::empty());
        assert(before =~= Seq::<FileHits>::empty());
        assert(hit_files(before) =~= Seq::<FileItem>::empty());
        assert(detached(all_reported(before, trim_whitespace)) =~= Seq::<MatchView>::empty());
        assert(files_of_results(results.take(0)) =~= Seq::<FileItem>::empty());
        assert(matches_of_results(results.take(0)) =~= Seq::<MatchView>::empty());
    } else {
        assert(reports_the_truth(results[k - 2], all, truth, &options[k - 2]));
        assert(results[k - 2].next_file_offset == options[k - 1].file_offset);
        assert(options[k - 2].file_offset + results[k - 2].total_files_searched == from);
        lemma_results_so_far(results, options, all, truth, trim_whitespace, k - 1);
    }
    assert(files_of_results(results.take(k)) =~= hit_files(before) + hit_files(taken));
    assert(matches_of_results(results.take(k)) =~= detached(
        all_reported(before, trim_whitespace),
    ) + detached(all_reported(taken, trim_whitespace)));
}

/// Of the first `end` of some positions, those of files with matches.
spec fn matched_positions(
    files: Seq<FileItem>,
    ranked: Seq<usize>,
    truth: spec_fn(FileItem) -> Seq<MatchView>,
    end: int,
) -> Seq<usize>
    decreases end,
{
    if end <= 0 {
        Seq::empty()
    } else {
        let before = matched_positions(files, ranked, truth, end - 1);
        if truth(files[ranked[end - 1] as int]).len() > 0 {
            before.push(ranked[end - 1])
        } else {
            before
        }
    }
}

/// Each position comes before the next in the search order.
spec fn strictly_ranked(files: Seq<FileItem>, positions: Seq<usize>) -> bool {
    forall|a: int, b: int|
        0 <= a < b < positions.len() ==> #[trigger] positions[a] != #[trigger] positions[b]
            && ranks_first(files, positions[a], positions[b])
}

proof fn lemma_matched_positions(
    files: Seq<FileItem>,
    ranked: Seq<usize>,
    truth: spec_fn(FileItem) -> Seq<MatchView>,
    end: int,
)
    requires
        0 <= end <= ranked.len(),
        strictly_ranked(files, ranked),
    ensures
        ({
            let kept = matched_positions(files, ranked, truth, end);
            let hits = true_hits(ranked.map_values(|i: usize| files[i as int]), truth, 0, end);
            &&& strictly_ranked(files, kept)
            &&& forall|p: usize| #[trigger]
                kept.contains(p) <==> ranked.take(end).contains(p) && truth(
                    files[p as int],
                ).len() > 0
            &&& hits.len() == kept.len()
            &&& forall|i: int|
                0 <= i < kept.len() ==> (#[trigger] hits[i]).file == files[(
                #[trigger] kept[i]) as int] && hits[i].matches == truth(files[kept[i] as int])
        }),
    decreases end,
{
    let mapped = ranked.map_values(|i: usize| files[i as int]);
    let kept = matched_positions(files, ranked, truth, end);
    if end > 0 {
        lemma_matched_positions(files, ranked, truth, end - 1);
        let before = matched_positions(files, ranked, truth, end - 1);
        let (hits, fewer) = (
            true_hits(mapped, truth, 0, end),
            true_hits(mapped, truth, 0, end - 1),
        );
        let last = ranked[end - 1];
        let (shorter, longer) = (ranked.take(end - 1), ranked.take(end));
        assert(mapped[end - 1] == files[last as int]);
        assert(longer =~= shorter.push(last));
        assert forall|p: usize| #[trigger] longer.contains(p) <==> shorter.contains(p) || p
            == last by {
            lemma_pushed_contains(shorter, last, p);
        }
        assert forall|a: int| 0 <= a < before.len() implies (#[trigger] before[a]) != last
            && ranks_first(files, before[a], last) by {
            assert(before.contains(before[a]));
            let k = choose|k: int| 0 <= k < shorter.len() && shorter[k] == before[a];
            assert(ranked[k] == before[a]);
        }
        assert forall|p: usize| #[trigger] kept.contains(p) <==> longer.contains(p) && truth(
            files[p as int],
        ).len() > 0 by {
            assert(before.contains(p) <==> shorter.contains(p) && truth(files[p as int]).len()
                > 0);
            lemma_pushed_contains(before, last, p);
        }
        assert forall|i: int| 0 <= i < kept.len() implies (#[trigger] hits[i]).file == files[(
        #[trigger] kept[i]) as int] && hits[i].matches == truth(files[kept[i] as int]) by {
            if i < before.len() {
                assert(fewer[i].file == files[before[i] as int]);
            }
        }
    }
}

proof fn lemma_pushed_contains(positions: Seq<usize>, added: usize, p: usize)
    ensures
        positions.push(added).contains(p) <==> positions.contains(p) || p == added,
{
    let all = positions.push(added);
    assert(all[positions.len() as int] == added);
    if positions.contains(p) {
        let k = choose|k: int| 0 <= k < positions.len() && positions[k] == p;
        assert(all[k] == p);
    }
    if all.contains(p) {
        let k = choose|k: int| 0 <= k < all.len() && all[k] == p;
        if k < positions.len() {
            assert(positions[k] == p);
        }
    }
}

/// Lists of the same positions in search order are the same list.
proof fn lemma_ranked_is_unique(files: Seq<FileItem>, a: Seq<usize>, b: Seq<usize>)
    requires
        strictly_ranked(files, a),
        strictly_ranked(files, b),
        forall|p: usize| #[trigger] a.contains(p) <==> b.contains(p),
    ensures
        a == b,
    decreases a.len(),
{
    if a.len() == 0 {
        if b.len() > 0 {
            assert(b.contains(b[0]));
            assert(a.contains(b[0]));
        }
        assert(a =~= b);
    } else {
        let x = a.last();
        assert(a.contains(x));
        let y = b.last();
        assert(b.contains(y));
        assert(a.contains(y));
        let i = choose|i: int| 0 <= i < b.len() && b[i] == x;
        let j = choose|j: int| 0 <= j < a.len() && a[j] == y;
        assert(x == y) by {
            if i < b.len() - 1 && j < a.len() - 1 {
                assert(b[i] != b[b.len() - 1] && ranks_first(files, b[i], b[b.len() - 1]));
                assert(a[j] != a[a.len() - 1] && ranks_first(files, a[j], a[a.len() - 1]));
            }
        }
        let (c, d) = (a.drop_last(), b.drop_last());
        assert(c.push(x) =~= a && d.push(y) =~= b);
        assert forall|p: usize| #[trigger] c.contains(p) <==> d.contains(p) by {
            lemma_pushed_contains(c, x, p);
            lemma_pushed_contains(d, y, p);
            assert(a.contains(p) <==> b.contains(p));
            if c.contains(x) {
                let n = choose|n: int| 0 <= n < c.len() && c[n] == x;
                assert(a[n] != a[a.len() - 1]);
            }
            if d.contains(y) {
                let n = choose|n: int| 0 <= n < d.len() && d[n] == y;
                assert(b[n] != b[b.len() - 1]);
            }
        }
        lemma_ranked_is_unique(files, c, d);
    }
}

proof fn lemma_filter_is_strictly_ranked(filter: FileFilter)
    ensures
        strictly_ranked(filter.files@, filter.ranked()),
{
    law_kept_files_are_listed_once(filter);
    lemma_ranking(filter.files@, filter.kept_before(filter.files@.len() as int));
    let order = rank_order(filter.files@);
    let ranked = filter.ranked();
    assert forall|a: int, b: int| 0 <= a < b < ranked.len() implies #[trigger] ranked[a]
        != #[trigger] ranked[b] && ranks_first(filter.files@, ranked[a], ranked[b]) by {
        assert(order(ranked[a], ranked[b]));
    }
}

/// The same files with matches, wherever among the files to be searched they lie.
pub open spec fn same_hits(a: Seq<FileHits>, b: Seq<FileHits>) -> bool {
    &&& a.len() == b.len()
    &&& forall|i: int|
        0 <= i < a.len() ==> (#[trigger] a[i]).file == (#[trigger] b[i]).file && a[i].matches
            == b[i].matches
}

/// An index that rules out no file with a match changes nothing: the files with matches among
/// those left to be searched are the same as without an index, in the same order.
pub proof fn law_sound_index_loses_no_match(
    indexed: FileFilter,
    plain: FileFilter,
    truth: spec_fn(FileItem) -> Seq<MatchView>,
)
    requires
        plain == (FileFilter { candidates: None, ..indexed }),
        forall|i: int|
            0 <= i < indexed.files@.len() && truth(#[trigger] indexed.files@[i]).len() > 0
                && plain.keeps(i) ==> indexed.index_passes(i),
    ensures
        same_hits(
            true_hits(indexed.page(0), truth, 0, indexed.page(0).len() as int),
            true_hits(plain.page(0), truth, 0, plain.page(0).len() as int),
        ),
{
    let files = indexed.files@;
    let (a, b) = (indexed.ranked(), plain.ranked());
    let (m, n) = (a.len() as int, b.len() as int);
    lemma_filter_is_strictly_ranked(indexed);
    lemma_filter_is_strictly_ranked(plain);
    law_kept_files_are_listed_once(indexed);
    law_kept_files_are_listed_once(plain);
    lemma_matched_positions(files, a, truth, m);
    lemma_matched_positions(files, b, truth, n);
    assert(a.take(m) =~= a && b.take(n) =~= b);
    let (p, q) = (matched_positions(files, a, truth, m), matched_positions(files, b, truth, n));
    assert forall|i: usize| #[trigger] p.contains(i) <==> q.contains(i) by {
        assert(a.contains(i) <==> indexed.keeps(i as int));
        assert(b.contains(i) <==> plain.keeps(i as int));
        if plain.keeps(i as int) && truth(files[i as int]).len() > 0 {
            assert(indexed.index_passes(i as int));
        }
    }
    lemma_ranked_is_unique(files, p, q);
    assert(a.skip(0) =~= a && b.skip(0) =~= b);
    assert(indexed.page(0) =~= a.map_values(|i: usize| files[i as int]));
    assert(plain.page(0) =~= b.map_values(|i: usize| files[i as int]));
    let x = true_hits(indexed.page(0), truth, 0, m);
    let y = true_hits(plain.page(0), truth, 0, n);
    assert(x.len() == p.len() && y.len() == q.len());
    assert forall|i: int| 0 <= i < x.len() implies (#[trigger] x[i]).file == (
    #[trigger] y[i]).file && x[i].matches == y[i].matches by {
        assert(x[i].file == files[p[i] as int] && x[i].matches == truth(files[p[i] as int]));
        assert(y[i].file == files[q[i] as int] && y[i].matches == truth(files[q[i] as int]));
    }
}

/// All pages of a search together: each is asked for at the offset that the one before it named,
/// until one names no next page.
pub open spec fn is_whole_search<'a, C, P, F: Fn(&C, &P, &[&'a FileItem]) -> ChunkMatches>(
    results: Seq<GrepResult<'a>>,
    search_chunk: F,
    plan: &P,
    options: Seq<GrepSearchOptions>,
    all: Seq<FileItem>,
    trim_whitespace: bool,
) -> bool {
    &&& follow_one_another(results, options)
    &&& results.last().next_file_offset == 0
    &&& forall|k: int|
        0 <= k < results.len() ==> (#[trigger] options[k]).trim_whitespace == trim_whitespace
            && is_search_of::<C, P, F>(results[k], search_chunk, plan, options[k], all)
}

/// An index that rules out no file with a match changes no reported match: all pages together
/// report the same files and the same matches as without an index.
pub proof fn law_sound_index_changes_no_reported_match<
    'a,
    C,
    P,
    F: Fn(&C, &P, &[&'a FileItem]) -> ChunkMatches,
>(
    indexed: FileFilter,
    indexed_results: Seq<GrepResult<'a>>,
    indexed_options: Seq<GrepSearchOptions>,
    plain: FileFilter,
    plain_results: Seq<GrepResult<'a>>,
    plain_options: Seq<GrepSearchOptions>,
    search_chunk: F,
    plan: &P,
    truth: spec_fn(FileItem) -> Seq<MatchView>,
    trim_whitespace: bool,
)
    requires
        plain == (FileFilter { candidates: None, ..indexed }),
        forall|i: int|
            0 <= i < indexed.files@.len() && truth(#[trigger] indexed.files@[i]).len() > 0
                && plain.keeps(i) ==> indexed.index_passes(i),
        finds_the_truth::<C, P, F>(search_chunk, plan, truth),
        is_whole_search::<C, P, F>(
            indexed_results,
            search_chunk,
            plan,
            indexed_options,
            indexed.page(0),
            trim_whitespace,
        ),
        is_whole_search::<C, P, F>(
            plain_results,
            search_chunk,
            plan,
            plain_options,
            plain.page(0),
            trim_whitespace,
        ),
    ensures
        files_of_results(indexed_results) == files_of_results(plain_results),
        matches_of_results(indexed_results) == matches_of_results(plain_results),
{
    let a = true_hits(indexed.page(0), truth, 0, indexed.page(0).len() as int);
    let b = true_hits(plain.page(0), truth, 0, plain.page(0).len() as int);
    law_successive_searches_report_everything_once::<C, P, F>(
        indexed_results,
        search_chunk,
        plan,
        indexed_options,
        indexed.page(0),
        truth,
        trim_whitespace,
    );
    law_successive_searches_report_everything_once::<C, P, F>(
        plain_results,
        search_chunk,
        plan,
        plain_options,
        plain.page(0),
        truth,
        trim_whitespace,
    );
    law_sound_index_loses_no_match(indexed, plain, truth);
    assert(hit_files(a) =~= hit_files(b));
    lemma_detached_reported(a, b, trim_whitespace);
}

/// The plan without the reason why its text is not searched for as a regex.
pub open spec fn without_reason(plan: ContentPlan) -> ContentPlan {
    ContentPlan { regex_fallback_error: None, ..plan }
}

/// A search of the lines of some files does not look at why a text is not searched for as a
/// regex.
pub open spec fn ignores_the_reason<'a, 'p, A: Copy, S: Fn(
    &GrepContext<'p, A>,
    &ContentPlan,
    &[&'a FileItem],
) -> ChunkMatches>(search_chunk: S) -> bool {
    forall|
        ctx: &GrepContext<'p, A>,
        plan: ContentPlan,
        chunk: &[&'a FileItem],
        found: ChunkMatches,
    | #[trigger]
        call_ensures(search_chunk, (ctx, &plan, chunk), found) ==> call_ensures(
            search_chunk,
            (ctx, &without_reason(plan), chunk),
            found,
        )
}

/// What is found does not depend on the reason either.
proof fn lemma_found_without_reason<'a, 'p, A: Copy, S: Fn(
    &GrepContext<'p, A>,
    &ContentPlan,
    &[&'a FileItem],
) -> ChunkMatches>(
    search_chunk: S,
    ctx: &GrepContext<'p, A>,
    plan: ContentPlan,
    files: Seq<&'a FileItem>,
    end: int,
    hits: Seq<FileHits>,
    stopped: bool,
)
    requires
        found_by(search_chunk, ctx, &plan, files, end, hits, stopped),
        ignores_the_reason(search_chunk),
    ensures
        found_by(search_chunk, ctx, &without_reason(plan), files, end, hits, stopped),
    decreases end,
{
    if !(end == 0 && hits.len() == 0 && !stopped) {
        let (start, before, chunk, found) = choose|
            start: int,
            before: Seq<FileHits>,
            chunk: &[&'a FileItem],
            found: ChunkMatches,
        |
            {
                &&& #[trigger] chunk_searched(
                    search_chunk,
                    ctx,
                    &plan,
                    files,
                    start,
                    end,
                    before,
                    hits,
                    chunk,
                    found,
                    stopped,
                )
                &&& found_by(search_chunk, ctx, &plan, files, start, before, false)
            };
        assert(call_ensures(search_chunk, (ctx, &plan, chunk), found));
        lemma_found_without_reason(search_chunk, ctx, plan, files, start, before, false);
        assert(chunk_searched(
            search_chunk,
            ctx,
            &without_reason(plan),
            files,
            start,
            end,
            before,
            hits,
            chunk,
            found,
            stopped,
        ));
    }
}

/// A page is the same for a plan without the reason, and does not depend on the mode.
proof fn lemma_page_without_reason<'a, 'p, A: Copy, S: Fn(
    &GrepContext<'p, A>,
    &ContentPlan,
    &[&'a FileItem],
) -> ChunkMatches>(
    page: GrepResult<'a>,
    search_chunk: S,
    ctx: &GrepContext<'p, A>,
    plan: ContentPlan,
    options: &GrepSearchOptions,
    plain_options: &GrepSearchOptions,
    files: Seq<&'a FileItem>,
    total_files: usize,
    filtered_file_count: usize,
)
    requires
        ignores_the_reason(search_chunk),
        *plain_options == (GrepSearchOptions { mode: GrepMode::PlainText, ..*options }),
        is_page_of_search(
            page,
            search_chunk,
            ctx,
            &plan,
            options,
            files,
            total_files,
            filtered_file_count,
        ),
    ensures
        page.regex_fallback_error is None,
        is_page_of_search(
            page,
            search_chunk,
            ctx,
            &without_reason(plan),
            plain_options,
            files,
            total_files,
            filtered_file_count,
        ),
{
    let (limit, trim) = (options.page_limit as int, options.trim_whitespace);
    let (end, hits, stopped) = choose|end: int, hits: Seq<FileHits>, stopped: bool|
        {
            let made = page_of(hits, limit, trim);
            &&& #[trigger] found_by(search_chunk, ctx, &plan, files, end, hits, stopped)
            &&& positions_ascend(hits)
            &&& positions_below(hits, end)
            &&& all_matched(hits)
            &&& if stopped {
                end < files.len()
            } else {
                end == files.len() || made.filled
            }
            &&& page.reports(
                made,
                consumed_by_run(hits, made, end),
                files.len() as int,
                options.file_offset as int,
                stopped,
                total_files as int,
                filtered_file_count as int,
            )
        };
    lemma_found_without_reason(search_chunk, ctx, plan, files, end, hits, stopped);
}

/// A search in regex mode for a text that does not compile is the search in plain text mode: it
/// gives the same page, together with the reason. That holds of whatever the files, the index and
/// the parser answer, as long as the search of the lines does not look at the reason.
pub proof fn law_bad_regex_search_is_the_plain_search<
    'a,
    A: Copy,
    I: Fn(&BigramQuery) -> IndexAnswer,
    C: Fn(&[Constraint]) -> Vec<bool>,
    Z: Fn(&str, &[&'a FileItem], usize, usize, bool) -> GrepResult<'a>,
    S: Fn(&GrepContext<A>, &ContentPlan, &[&'a FileItem]) -> ChunkMatches,
>(
    result: GrepResult<'a>,
    text: Seq<char>,
    message: Seq<char>,
    files: Seq<FileItem>,
    constraints: Seq<Constraint>,
    base_count: usize,
    options: &GrepSearchOptions,
    plain_options: &GrepSearchOptions,
    arenas: (A, A),
    ask_index: I,
    meets: C,
    search_fuzzy: Z,
    search_chunk: S,
)
    requires
        text.len() > 0,
        options.mode == GrepMode::Regex,
        *plain_options == (GrepSearchOptions { mode: GrepMode::PlainText, ..*options }),
        regex_built(
            regex_source(text),
            smart_case_insensitive(options.smart_case, text),
            true,
            false,
        ) == Err::<Regex, Seq<char>>(message),
        ignores_the_reason(search_chunk),
        is_result_for(
            result,
            text,
            files,
            constraints,
            base_count,
            options,
            arenas,
            ask_index,
            meets,
            search_fuzzy,
            search_chunk,
        ),
    ensures
        result.regex_fallback_error matches Some(reason) && reason@ == message,
        is_result_for(
            (GrepResult { regex_fallback_error: None, ..result }),
            text,
            files,
            constraints,
            base_count,
            plain_options,
            arenas,
            ask_index,
            meets,
            search_fuzzy,
            search_chunk,
        ),
{
    let plan = choose|plan: SearchPlan| #[trigger]
        plan.is_for(text, options) && is_result_of_plan(
            result,
            plan,
            text,
            files,
            constraints,
            base_count,
            options,
            arenas,
            ask_index,
            meets,
            search_fuzzy,
            search_chunk,
        );
    let content = plan->Content_0;
    let built = choose|built: Result<CompiledRegex, String>| #[trigger]
        is_compiled_from(built, text, options.smart_case) && content.is_for(
            text,
            options.smart_case,
            Some(built),
        );
    assert(built is Err);
    let plain = without_reason(content);
    let plain_plan = SearchPlan::Content(plain);
    let (question, candidates, page, searched) = choose|
        question: &BigramQuery,
        candidates: Option<Vec<u64>>,
        page: GrepResult<'a>,
        searched: bool,
    |
        {
            &&& plan.asks(*question)
            &&& #[trigger] are_candidates_for(candidates, question, ask_index)
            &&& #[trigger] is_content_result(
                page,
                searched,
                files,
                constraints,
                candidates,
                base_count,
                options,
                arenas,
                content.literal(),
                content.case_insensitive,
                &content,
                meets,
                search_chunk,
            )
            &&& result == content.concluded(page)
        };
    let (chosen, count) = choose|chosen: Seq<&'a FileItem>, count: usize|
        {
            &&& #[trigger] are_files_for(
                chosen,
                count,
                files,
                constraints,
                meets,
                candidates,
                base_count,
                options.max_file_size,
                options.file_offset,
            )
            &&& searched == (chosen.len() > 0)
            &&& if !searched {
                page.is_empty(live_files(files) as int, count as int)
            } else {
                exists|ctx: &GrepContext<A>|
                    {
                        &&& ctx.holds(
                            live_files(files) as int,
                            count as int,
                            arenas.0,
                            arenas.1,
                            content.literal(),
                            content.case_insensitive,
                        )
                        &&& #[trigger] is_page_of_search(
                            page,
                            search_chunk,
                            ctx,
                            &content,
                            options,
                            chosen,
                            ctx.total_files,
                            ctx.filtered_file_count,
                        )
                    }
            }
        };
    assert(plain.literal() == content.literal());
    assert(are_files_for(
        chosen,
        count,
        files,
        constraints,
        meets,
        candidates,
        base_count,
        plain_options.max_file_size,
        plain_options.file_offset,
    ));
    if searched {
        let ctx = choose|ctx: &GrepContext<A>|
            {
                &&& ctx.holds(
                    live_files(files) as int,
                    count as int,
                    arenas.0,
                    arenas.1,
                    content.literal(),
                    content.case_insensitive,
                )
                &&& #[trigger] is_page_of_search(
                    page,
                    search_chunk,
                    ctx,
                    &content,
                    options,
                    chosen,
                    ctx.total_files,
                    ctx.filtered_file_count,
                )
            };
        lemma_page_without_reason(
            page,
            search_chunk,
            ctx,
            content,
            options,
            plain_options,
            chosen,
            ctx.total_files,
            ctx.filtered_file_count,
        );
        assert(ctx.holds(
            live_files(files) as int,
            count as int,
            arenas.0,
            arenas.1,
            plain.literal(),
            plain.case_insensitive,
        ));
    }
    assert(is_content_result(
        page,
        searched,
        files,
        constraints,
        candidates,
        base_count,
        plain_options,
        arenas,
        plain.literal(),
        plain.case_insensitive,
        &plain,
        meets,
        search_chunk,
    ));
    assert((GrepResult { regex_fallback_error: None, ..result }) == plain.concluded(page));
    assert(plain_plan.is_for(text, plain_options));
    assert(plain_plan.asks(*question));
    assert(is_result_of_plan(
        (GrepResult { regex_fallback_error: None, ..result }),
        plain_plan,
        text,
        files,
        constraints,
        base_count,
        plain_options,
        arenas,
        ask_index,
        meets,
        search_fuzzy,
        search_chunk,
    ));
}

} // verus!
