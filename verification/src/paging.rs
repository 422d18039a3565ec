//! What pages hold, and what a walk through all of them yields.
use crate::files::FileItem;
use crate::matches::MatchView;
use crate::page::{
    consumed_by_page, consumed_by_run, lemma_page_files, page_of, positions_below,
    reported_matches, FileHits, PageView,
};
use vstd::prelude::*;

verus! {

/// The matches of a list of files as they are reported when these are the result files, one file
/// behind the other.
pub open spec fn all_reported(hits: Seq<FileHits>, trim_whitespace: bool) -> Seq<MatchView>
    decreases hits.len(),
{
    if hits.len() == 0 {
        Seq::empty()
    } else {
        all_reported(hits.drop_last(), trim_whitespace) + reported_matches(
            hits.last().matches,
            hits.len() - 1,
            trim_whitespace,
        )
    }
}

/// The files of a list of files with matches.
pub open spec fn hit_files(hits: Seq<FileHits>) -> Seq<FileItem> {
    hits.map_values(|h: FileHits| h.file)
}

/// The files with matches stand in the order in which they are searched, each once.
pub open spec fn positions_ascend(hits: Seq<FileHits>) -> bool {
    forall|i: int, j: int|
        0 <= i < j < hits.len() ==> (#[trigger] hits[i]).position < (#[trigger] hits[j]).position
}

/// A page does not depend on how the files were cut into chunks: files offered in two goes make
/// the same page as files offered in one.
pub proof fn law_page_does_not_depend_on_chunks(
    page: PageView,
    first: Seq<FileHits>,
    second: Seq<FileHits>,
    limit: int,
    trim_whitespace: bool,
)
    ensures
        page.offered_all(first + second, limit, trim_whitespace) == page.offered_all(
            first,
            limit,
            trim_whitespace,
        ).offered_all(second, limit, trim_whitespace),
    decreases second.len(),
{
    if second.len() == 0 {
        assert(first + second =~= first);
    } else {
        assert((first + second).drop_last() =~= first + second.drop_last());
        law_page_does_not_depend_on_chunks(
            page,
            first,
            second.drop_last(),
            limit,
            trim_whitespace,
        );
    }
}

/// No match is dropped: a page takes files from the front, and of each file that it takes it
/// holds all matches.
pub proof fn law_page_drops_no_match(hits: Seq<FileHits>, limit: int, trim_whitespace: bool)
    ensures
        ({
            let page = page_of(hits, limit, trim_whitespace);
            let taken = hits.take(page.files.len() as int);
            &&& page.files.len() <= hits.len()
            &&& page.files == hit_files(taken)
            &&& page.matches == all_reported(taken, trim_whitespace)
        }),
    decreases hits.len(),
{
    let page = page_of(hits, limit, trim_whitespace);
    let taken = hits.take(page.files.len() as int);
    lemma_page_files(hits, limit, trim_whitespace);
    if hits.len() == 0 {
        assert(page.files =~= hit_files(taken));
    } else {
        let fewer = hits.drop_last();
        let before = page_of(fewer, limit, trim_whitespace);
        law_page_drops_no_match(fewer, limit, trim_whitespace);
        lemma_page_files(fewer, limit, trim_whitespace);
        if before.filled {
            assert(taken =~= fewer.take(before.files.len() as int));
        } else {
            assert(fewer.take(before.files.len() as int) =~= fewer);
            assert(taken =~= hits);
            assert(page.files =~= hit_files(taken));
        }
    }
}

/// The page limit is a soft cap: a page stops at the first file that reaches it, so it holds
/// fewer matches than the limit and one file's matches together.
pub proof fn law_page_limit_is_soft(
    hits: Seq<FileHits>,
    limit: int,
    max_matches_per_file: int,
    trim_whitespace: bool,
)
    requires
        limit >= 1,
        max_matches_per_file >= 1,
        forall|i: int|
            0 <= i < hits.len() ==> (#[trigger] hits[i]).matches.len() <= max_matches_per_file,
    ensures
        page_of(hits, limit, trim_whitespace).matches.len() <= limit + max_matches_per_file - 1,
        !page_of(hits, limit, trim_whitespace).filled ==> page_of(
            hits,
            limit,
            trim_whitespace,
        ).matches.len() < limit,
    decreases hits.len(),
{
    if hits.len() > 0 {
        law_page_limit_is_soft(hits.drop_last(), limit, max_matches_per_file, trim_whitespace);
        assert(hits.last().matches.len() <= max_matches_per_file);
    }
}

/// A match is the reported form of a match of the file that it points to.
pub open spec fn is_reported_from(
    m: MatchView,
    hits: Seq<FileHits>,
    trim_whitespace: bool,
) -> bool {
    &&& m.file_index < hits.len()
    &&& exists|j: int|
        0 <= j < hits[m.file_index as int].matches.len() && m == (
        #[trigger] hits[m.file_index as int].matches[j]).reported(m.file_index, trim_whitespace)
}

/// Every match on a page points to the file of the page that it was found in.
pub proof fn law_matches_point_to_their_file(
    hits: Seq<FileHits>,
    limit: int,
    trim_whitespace: bool,
    i: int,
)
    requires
        hits.len() <= usize::MAX,
        0 <= i < page_of(hits, limit, trim_whitespace).matches.len(),
    ensures
        ({
            let page = page_of(hits, limit, trim_whitespace);
            let m = page.matches[i];
            &&& is_reported_from(m, hits, trim_whitespace)
            &&& m.file_index < page.files.len()
            &&& page.files[m.file_index as int] == hits[m.file_index as int].file
        }),
{
    law_page_drops_no_match(hits, limit, trim_whitespace);
    let taken = hits.take(page_of(hits, limit, trim_whitespace).files.len() as int);
    lemma_reported_from(taken, trim_whitespace, i);
    let m = all_reported(taken, trim_whitespace)[i];
    assert(hits[m.file_index as int] == taken[m.file_index as int]);
}

proof fn lemma_reported_from(hits: Seq<FileHits>, trim_whitespace: bool, i: int)
    requires
        hits.len() <= usize::MAX,
        0 <= i < all_reported(hits, trim_whitespace).len(),
    ensures
        is_reported_from(all_reported(hits, trim_whitespace)[i], hits, trim_whitespace),
    decreases hits.len(),
{
    let before = all_reported(hits.drop_last(), trim_whitespace);
    let m = all_reported(hits, trim_whitespace)[i];
    if i < before.len() {
        lemma_reported_from(hits.drop_last(), trim_whitespace, i);
        assert(hits[m.file_index as int] == hits.drop_last()[m.file_index as int]);
    } else {
        let j = i - before.len();
        assert(m == hits.last().matches[j].reported((hits.len() - 1) as usize, trim_whitespace));
        assert(m.file_index == hits.len() - 1);
    }
}

/// The next page resumes right behind this one: of the files with matches, those on a page are
/// exactly those among the files that it accounts for; the rest lie behind them. A page that is
/// not filled holds all of them.
pub proof fn law_next_page_resumes_behind(
    hits: Seq<FileHits>,
    file_count: int,
    limit: int,
    trim_whitespace: bool,
)
    requires
        positions_ascend(hits),
        positions_below(hits, file_count),
    ensures
        ({
            let page = page_of(hits, limit, trim_whitespace);
            let consumed = consumed_by_page(hits, page, file_count);
            &&& consumed <= file_count
            &&& file_count > 0 ==> consumed > 0
            &&& forall|i: int|
                0 <= i < hits.len() ==> (i < page.files.len() <==> (#[trigger] hits[i]).position
                    < consumed)
            &&& !page.filled || consumed == file_count ==> page.files == hit_files(hits)
        }),
{
    let page = page_of(hits, limit, trim_whitespace);
    let consumed = consumed_by_page(hits, page, file_count);
    lemma_page_files(hits, limit, trim_whitespace);
    law_page_drops_no_match(hits, limit, trim_whitespace);
    let n = page.files.len() as int;
    if n > 0 {
        assert(hits[n - 1].position < file_count);
    } else if hits.len() > 0 {
        assert(page.filled);
    }
    if !page.filled || consumed == file_count {
        if n < hits.len() {
            assert(hits[n].position < file_count);
        }
        assert(hits.take(n) =~= hits);
    }
}

/// The files with matches from file number `offset` on, with positions counted from there.
pub open spec fn hits_from(hits: Seq<FileHits>, offset: int) -> Seq<FileHits> {
    hits.filter(|h: FileHits| h.position >= offset).map_values(
        |h: FileHits| FileHits { position: h.position - offset, ..h },
    )
}

/// The page at an offset, and the offset that it names for the next one: 0 on the last page.
pub open spec fn page_at(
    hits: Seq<FileHits>,
    file_count: int,
    offset: int,
    limit: int,
    trim_whitespace: bool,
) -> (PageView, int) {
    let rest = hits_from(hits, offset);
    let page = page_of(rest, limit, trim_whitespace);
    let consumed = consumed_by_page(rest, page, file_count - offset);
    (
        page,
        if page.filled && consumed < file_count - offset {
            offset + consumed
        } else {
            0
        },
    )
}

/// All pages from an offset on: each is asked for at the offset that the one before it named.
pub open spec fn pages_from(
    hits: Seq<FileHits>,
    file_count: int,
    offset: int,
    limit: int,
    trim_whitespace: bool,
) -> Seq<PageView>
    decreases file_count - offset,
{
    let (page, next) = page_at(hits, file_count, offset, limit, trim_whitespace);
    if offset < next <= file_count {
        seq![page] + pages_from(hits, file_count, next, limit, trim_whitespace)
    } else {
        seq![page]
    }
}

/// The files of several pages, one page behind the other.
pub open spec fn files_of_pages(pages: Seq<PageView>) -> Seq<FileItem>
    decreases pages.len(),
{
    if pages.len() == 0 {
        Seq::empty()
    } else {
        pages[0].files + files_of_pages(pages.drop_first())
    }
}

/// The matches of a page without the file they point to, which is counted anew on each page.
pub open spec fn detached(matches: Seq<MatchView>) -> Seq<MatchView> {
    matches.map_values(|m: MatchView| MatchView { file_index: 0, ..m })
}

/// The matches of several pages, one page behind the other.
pub open spec fn matches_of_pages(pages: Seq<PageView>) -> Seq<MatchView>
    decreases pages.len(),
{
    if pages.len() == 0 {
        Seq::empty()
    } else {
        detached(pages[0].matches) + matches_of_pages(pages.drop_first())
    }
}

proof fn lemma_filter_none(hits: Seq<FileHits>, offset: int)
    requires
        forall|i: int| 0 <= i < hits.len() ==> (#[trigger] hits[i]).position < offset,
    ensures
        hits.filter(|h: FileHits| h.position >= offset) == Seq::<FileHits>::empty(),
    decreases hits.len(),
{
    reveal(Seq::filter);
    if hits.len() > 0 {
        lemma_filter_none(hits.drop_last(), offset);
        assert(hits.last().position < offset);
    }
}

proof fn lemma_filter_all(hits: Seq<FileHits>, offset: int)
    requires
        forall|i: int| 0 <= i < hits.len() ==> (#[trigger] hits[i]).position >= offset,
    ensures
        hits.filter(|h: FileHits| h.position >= offset) == hits,
    decreases hits.len(),
{
    reveal(Seq::filter);
    if hits.len() > 0 {
        lemma_filter_all(hits.drop_last(), offset);
        assert(hits.last().position >= offset);
        assert(hits.drop_last().push(hits.last()) =~= hits);
    }
}

/// Where the first `k` files with matches lie before `offset` and the others do not, the others
/// are those from `offset` on.
proof fn lemma_hits_from(hits: Seq<FileHits>, k: int, offset: int)
    requires
        0 <= k <= hits.len(),
        forall|i: int| 0 <= i < hits.len() ==> (i < k <==> (#[trigger] hits[i]).position < offset),
    ensures
        hits_from(hits, offset) == hits.skip(k).map_values(
            |h: FileHits| FileHits { position: h.position - offset, ..h },
        ),
{
    let pred = |h: FileHits| h.position >= offset;
    assert(hits =~= hits.take(k) + hits.skip(k));
    Seq::filter_distributes_over_add(hits.take(k), hits.skip(k), pred);
    lemma_filter_none(hits.take(k), offset);
    lemma_filter_all(hits.skip(k), offset);
    assert(hits.filter(pred) =~= hits.skip(k));
}

/// Reporting matches and forgetting the file they point to: the positions do not matter.
pub proof fn lemma_detached_reported(
    hits: Seq<FileHits>,
    moved: Seq<FileHits>,
    trim_whitespace: bool,
)
    requires
        hits.len() == moved.len(),
        forall|i: int|
            0 <= i < hits.len() ==> (#[trigger] hits[i]).matches == (#[trigger] moved[i]).matches,
    ensures
        detached(all_reported(hits, trim_whitespace)) == detached(
            all_reported(moved, trim_whitespace),
        ),
    decreases hits.len(),
{
    if hits.len() > 0 {
        lemma_detached_reported(hits.drop_last(), moved.drop_last(), trim_whitespace);
        assert(hits.last().matches == moved.last().matches);
        lemma_detached_concat(
            all_reported(hits.drop_last(), trim_whitespace),
            reported_matches(hits.last().matches, hits.len() - 1, trim_whitespace),
        );
        lemma_detached_concat(
            all_reported(moved.drop_last(), trim_whitespace),
            reported_matches(moved.last().matches, moved.len() - 1, trim_whitespace),
        );
    }
}

proof fn lemma_detached_concat(a: Seq<MatchView>, b: Seq<MatchView>)
    ensures
        detached(a + b) == detached(a) + detached(b),
{
    assert(detached(a + b) =~= detached(a) + detached(b));
}

/// Without regard to the files pointed to, the matches of a list of files are those of its first
/// part followed by those of its second.
pub proof fn lemma_reported_concat(a: Seq<FileHits>, b: Seq<FileHits>, trim_whitespace: bool)
    ensures
        detached(all_reported(a + b, trim_whitespace)) == detached(
            all_reported(a, trim_whitespace),
        ) + detached(all_reported(b, trim_whitespace)),
    decreases b.len(),
{
    if b.len() == 0 {
        assert(a + b =~= a);
        assert(detached(all_reported(b, trim_whitespace)) =~= Seq::<MatchView>::empty());
        assert(detached(all_reported(a, trim_whitespace)) =~= detached(
            all_reported(a, trim_whitespace),
        ) + detached(all_reported(b, trim_whitespace)));
    } else {
        let ab = a + b;
        assert(ab.drop_last() =~= a + b.drop_last());
        lemma_reported_concat(a, b.drop_last(), trim_whitespace);
        let of_ab = reported_matches(ab.last().matches, ab.len() - 1, trim_whitespace);
        let of_b = reported_matches(b.last().matches, b.len() - 1, trim_whitespace);
        lemma_detached_concat(all_reported(ab.drop_last(), trim_whitespace), of_ab);
        lemma_detached_concat(all_reported(b.drop_last(), trim_whitespace), of_b);
        assert(detached(of_ab) =~= detached(of_b));
        assert(detached(all_reported(ab, trim_whitespace)) =~= detached(
            all_reported(a, trim_whitespace),
        ) + detached(all_reported(b, trim_whitespace)));
    }
}

/// Walking through all pages yields every file with matches, and every match, exactly once and in
/// the order of the search, whatever the page limit is.
pub proof fn law_all_pages_yield_everything_once(
    hits: Seq<FileHits>,
    file_count: int,
    limit: int,
    trim_whitespace: bool,
)
    requires
        0 <= file_count,
        positions_ascend(hits),
        positions_below(hits, file_count),
    ensures
        ({
            let pages = pages_from(hits, file_count, 0, limit, trim_whitespace);
            &&& files_of_pages(pages) == hit_files(hits)
            &&& matches_of_pages(pages) == detached(all_reported(hits, trim_whitespace))
        }),
{
    lemma_pages_from(hits, file_count, 0, 0, limit, trim_whitespace);
    assert(hits.skip(0) =~= hits);
}

proof fn lemma_pages_from(
    hits: Seq<FileHits>,
    file_count: int,
    k: int,
    offset: int,
    limit: int,
    trim_whitespace: bool,
)
    requires
        positions_ascend(hits),
        positions_below(hits, file_count),
        0 <= k <= hits.len(),
        0 <= offset <= file_count,
        forall|i: int| 0 <= i < hits.len() ==> (i < k <==> (#[trigger] hits[i]).position < offset),
    ensures
        ({
            let pages = pages_from(hits, file_count, offset, limit, trim_whitespace);
            &&& files_of_pages(pages) == hit_files(hits.skip(k))
            &&& matches_of_pages(pages) == detached(all_reported(hits.skip(k), trim_whitespace))
        }),
    decreases file_count - offset,
{
    let rest = hits_from(hits, offset);
    let page = page_of(rest, limit, trim_whitespace);
    let consumed = consumed_by_page(rest, page, file_count - offset);
    let (same_page, next) = page_at(hits, file_count, offset, limit, trim_whitespace);
    let pages = pages_from(hits, file_count, offset, limit, trim_whitespace);
    lemma_hits_from(hits, k, offset);
    assert(positions_ascend(rest)) by {
        assert forall|i: int, j: int| 0 <= i < j < rest.len() implies (
        #[trigger] rest[i]).position < (#[trigger] rest[j]).position by {
            assert(hits[k + i].position < hits[k + j].position);
        }
    }
    assert(positions_below(rest, file_count - offset)) by {
        assert forall|i: int| 0 <= i < rest.len() implies 0 <= (#[trigger] rest[i]).position
            < file_count - offset by {
            assert(hits[k + i].position >= offset);
        }
    }
    law_next_page_resumes_behind(rest, file_count - offset, limit, trim_whitespace);
    law_page_drops_no_match(rest, limit, trim_whitespace);
    let n = page.files.len() as int;
    let taken = hits.subrange(k, k + n);
    assert(page.files =~= hit_files(taken));
    lemma_detached_reported(taken, rest.take(n), trim_whitespace);
    assert(detached(page.matches) == detached(all_reported(taken, trim_whitespace)));
    if offset < next <= file_count {
        assert forall|i: int| 0 <= i < hits.len() implies (i < k + n <==> (
        #[trigger] hits[i]).position < next) by {
            if i >= k {
                assert(rest[i - k].position == hits[i].position - offset);
            }
        }
        lemma_pages_from(hits, file_count, k + n, next, limit, trim_whitespace);
        let later = pages_from(hits, file_count, next, limit, trim_whitespace);
        assert(pages.drop_first() =~= later);
        assert(hits.skip(k) =~= taken + hits.skip(k + n));
        assert(hit_files(hits.skip(k)) =~= hit_files(taken) + hit_files(hits.skip(k + n)));
        lemma_reported_concat(taken, hits.skip(k + n), trim_whitespace);
    } else {
        assert(pages.drop_first() =~= Seq::<PageView>::empty());
        assert(files_of_pages(pages.drop_first()) =~= Seq::<FileItem>::empty());
        assert(matches_of_pages(pages.drop_first()) =~= Seq::<MatchView>::empty());
        assert(page.files == hit_files(rest));
        assert(hit_files(rest).len() == rest.len());
        assert(taken =~= hits.skip(k));
        assert(files_of_pages(pages) =~= page.files);
        assert(matches_of_pages(pages) =~= detached(page.matches));
    }
}

/// The number of matches of the first `end` files with matches.
pub open spec fn matches_before(hits: Seq<FileHits>, end: int) -> int
    decreases end,
{
    if end <= 0 {
        0
    } else {
        matches_before(hits, end - 1) + hits[end - 1].matches.len()
    }
}

proof fn lemma_matches_before_grows(hits: Seq<FileHits>, a: int, b: int)
    requires
        0 <= a <= b <= hits.len(),
    ensures
        0 <= matches_before(hits, a) <= matches_before(hits, b),
    decreases b,
{
    if a < b {
        lemma_matches_before_grows(hits, a, b - 1);
    } else if b > 0 {
        lemma_matches_before_grows(hits, a - 1, b - 1);
    }
}

proof fn lemma_matches_before_prefix(hits: Seq<FileHits>, shorter: Seq<FileHits>, end: int)
    requires
        end <= shorter.len() <= hits.len(),
        forall|i: int| 0 <= i < shorter.len() ==> #[trigger] shorter[i] == hits[i],
    ensures
        matches_before(hits, end) == matches_before(shorter, end),
    decreases end,
{
    if end > 0 {
        lemma_matches_before_prefix(hits, shorter, end - 1);
        assert(shorter[end - 1] == hits[end - 1]);
    }
}

proof fn lemma_reported_in_place(hits: Seq<FileHits>, trim_whitespace: bool, k: int, j: int)
    requires
        0 <= k < hits.len(),
        0 <= j < hits[k].matches.len(),
    ensures
        all_reported(hits, trim_whitespace).len() == matches_before(hits, hits.len() as int),
        0 <= matches_before(hits, k),
        matches_before(hits, k) + j < all_reported(hits, trim_whitespace).len(),
        all_reported(hits, trim_whitespace)[matches_before(hits, k) + j]
            == hits[k].matches[j].reported(k as usize, trim_whitespace),
    decreases hits.len(),
{
    lemma_reported_len(hits, trim_whitespace);
    let head = hits.drop_last();
    let last = hits.len() - 1;
    lemma_matches_before_prefix(hits, head, last);
    lemma_matches_before_prefix(hits, head, k);
    lemma_matches_before_grows(hits, k, last);
    lemma_reported_len(head, trim_whitespace);
    if k < last {
        lemma_reported_in_place(head, trim_whitespace, k, j);
        assert(head[k] == hits[k]);
    } else {
        assert(reported_matches(hits.last().matches, last, trim_whitespace)[j]
            == hits[k].matches[j].reported(k as usize, trim_whitespace));
    }
}

proof fn lemma_reported_len(hits: Seq<FileHits>, trim_whitespace: bool)
    ensures
        all_reported(hits, trim_whitespace).len() == matches_before(hits, hits.len() as int),
    decreases hits.len(),
{
    if hits.len() > 0 {
        let head = hits.drop_last();
        lemma_reported_len(head, trim_whitespace);
        lemma_matches_before_prefix(hits, head, hits.len() - 1);
    }
}

/// A page holds every match of every file on it, each in its place: the matches of the first file
/// in their order, then those of the second, and so on. Each is reported as one of its own file.
pub proof fn law_page_holds_each_match_in_its_place(
    hits: Seq<FileHits>,
    limit: int,
    trim_whitespace: bool,
    k: int,
    j: int,
)
    ensures
        ({
            let page = page_of(hits, limit, trim_whitespace);
            &&& page.files.len() <= hits.len()
            &&& page.matches.len() == matches_before(hits, page.files.len() as int)
            &&& 0 <= k < page.files.len() ==> page.files[k] == hits[k].file
            &&& 0 <= k < page.files.len() && 0 <= j < hits[k].matches.len() ==> {
                let at = matches_before(hits, k) + j;
                &&& 0 <= at < page.matches.len()
                &&& page.matches[at] == hits[k].matches[j].reported(k as usize, trim_whitespace)
            }
        }),
{
    let page = page_of(hits, limit, trim_whitespace);
    let taken = hits.take(page.files.len() as int);
    law_page_drops_no_match(hits, limit, trim_whitespace);
    lemma_reported_len(taken, trim_whitespace);
    lemma_matches_before_prefix(hits, taken, page.files.len() as int);
    if 0 <= k < page.files.len() {
        assert(hit_files(taken)[k] == hits[k].file);
        lemma_matches_before_prefix(hits, taken, k);
        if 0 <= j < hits[k].matches.len() {
            lemma_reported_in_place(taken, trim_whitespace, k, j);
        }
    }
}

/// A page takes files until it holds as many matches as were asked for, and not one file more: with
/// any file less it would hold too few. Where all files together hold too few it takes them all.
pub proof fn law_page_stops_once_it_holds_enough(
    hits: Seq<FileHits>,
    limit: int,
    trim_whitespace: bool,
)
    ensures
        ({
            let page = page_of(hits, limit, trim_whitespace);
            let taken = page.files.len() as int;
            &&& forall|n: int| 0 < n < taken ==> #[trigger] matches_before(hits, n) < limit
            &&& page.filled <==> taken > 0 && matches_before(hits, taken) >= limit
            &&& !page.filled ==> taken == hits.len()
        }),
    decreases hits.len(),
{
    let page = page_of(hits, limit, trim_whitespace);
    lemma_page_files(hits, limit, trim_whitespace);
    law_page_holds_each_match_in_its_place(hits, limit, trim_whitespace, 0, 0);
    if hits.len() > 0 {
        let head = hits.drop_last();
        let before = page_of(head, limit, trim_whitespace);
        law_page_stops_once_it_holds_enough(head, limit, trim_whitespace);
        lemma_page_files(head, limit, trim_whitespace);
        assert forall|n: int| 0 < n < page.files.len() implies #[trigger] matches_before(hits, n)
            < limit by {
            lemma_matches_before_prefix(hits, head, n);
            assert(matches_before(head, n) < limit) by {
                if !before.filled && n == head.len() {
                    assert(!(matches_before(head, before.files.len() as int) >= limit));
                }
            }
        }
    }
}

/// What a page accounts for of the files searched chunk by chunk: up to the file that filled it, or
/// all that were searched.
pub proof fn law_filled_page_ends_with_its_last_file(
    hits: Seq<FileHits>,
    limit: int,
    trim_whitespace: bool,
    searched: int,
)
    requires
        positions_ascend(hits),
        positions_below(hits, searched),
    ensures
        ({
            let page = page_of(hits, limit, trim_whitespace);
            let consumed = consumed_by_run(hits, page, searched);
            &&& consumed <= searched
            &&& !page.filled ==> consumed == searched
            &&& page.filled ==> consumed == hits[page.files.len() - 1].position + 1
            &&& forall|i: int|
                0 <= i < hits.len() ==> (i < page.files.len() <==> (#[trigger] hits[i]).position
                    < consumed)
        }),
{
    let page = page_of(hits, limit, trim_whitespace);
    lemma_page_files(hits, limit, trim_whitespace);
    let n = page.files.len() as int;
    if page.filled {
        assert(hits[n - 1].position < searched);
    }
}

} // verus!
