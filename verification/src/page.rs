//! One page of results.
use crate::files::{
    file_values, git_changed_files, list_git_changed, live_count, live_files, FileItem,
};
use crate::matches::{match_views, GrepMatch, MatchView};
use crate::options::GrepSearchOptions;
use vstd::prelude::*;

verus! {

/// Result of a grep search with a list of matches, list of matched files, and metadata.
#[derive(Debug, Clone)]
pub struct GrepResult<'a> {
    pub matches: Vec<GrepMatch>,
    /// Deduplicated file references for the returned matches; for a query without text, the files
    /// that have changed in git.
    pub files: Vec<&'a FileItem>,
    /// Number of files actually searched in this call.
    pub total_files_searched: usize,
    /// Total number of indexed files (before filtering).
    pub total_files: usize,
    /// Total number of searchable files (after filtering out binary, too-large, etc.).
    pub filtered_file_count: usize,
    /// Number of files that contained at least one match.
    pub files_with_matches: usize,
    /// The file offset to pass for the next page. `0` if there are no more files.
    /// Callers should store this and pass it as `file_offset` in the next call.
    pub next_file_offset: usize,
    /// When regex mode fails to compile the pattern, the search falls back to
    /// literal matching and this field contains the compilation error message.
    pub regex_fallback_error: Option<String>,
}

/// The matches of one file: its position among the files to be searched, the file itself, and
/// the matches in the order in which they stand in it.
pub type FileMatches<'a> = (usize, &'a FileItem, Vec<GrepMatch>);

/// What a [`FileMatches`] says.
#[verifier::ext_equal]
pub struct FileHits {
    pub position: int,
    pub file: FileItem,
    pub matches: Seq<MatchView>,
}

/// What a list of [`FileMatches`] says.
pub open spec fn file_hits(results: Seq<FileMatches>) -> Seq<FileHits> {
    results.map_values(
        |r: FileMatches| FileHits { position: r.0 as int, file: *r.1, matches: match_views(r.2@) },
    )
}

/// The matches of a file as they are reported when it is result file number `file_index`.
pub open spec fn reported_matches(
    matches: Seq<MatchView>,
    file_index: int,
    trim_whitespace: bool,
) -> Seq<MatchView> {
    matches.map_values(|m: MatchView| m.reported(file_index as usize, trim_whitespace))
}

/// A page that is being filled.
#[verifier::ext_equal]
pub struct PageView {
    pub files: Seq<FileItem>,
    pub matches: Seq<MatchView>,
    /// The page holds as many matches as were asked for and takes no further file.
    pub filled: bool,
}

impl PageView {
    /// A page without any matches.
    pub open spec fn blank() -> PageView {
        PageView { files: Seq::empty(), matches: Seq::empty(), filled: false }
    }

    /// The page once a file with matches has been offered to it: unless it is filled, it takes
    /// all the matches of the file.
    pub open spec fn offered(self, hits: FileHits, limit: int, trim_whitespace: bool) -> PageView {
        if self.filled {
            self
        } else {
            let matches = self.matches + reported_matches(
                hits.matches,
                self.files.len() as int,
                trim_whitespace,
            );
            PageView {
                files: self.files.push(hits.file),
                matches,
                filled: matches.len() >= limit,
            }
        }
    }

    /// The page once several files with matches have been offered to it, one after the other.
    pub open spec fn offered_all(
        self,
        hits: Seq<FileHits>,
        limit: int,
        trim_whitespace: bool,
    ) -> PageView
        decreases hits.len(),
    {
        if hits.len() == 0 {
            self
        } else {
            self.offered_all(hits.drop_last(), limit, trim_whitespace).offered(
                hits.last(),
                limit,
                trim_whitespace,
            )
        }
    }
}

/// The page that is filled from a list of files with matches.
pub open spec fn page_of(hits: Seq<FileHits>, limit: int, trim_whitespace: bool) -> PageView {
    PageView::blank().offered_all(hits, limit, trim_whitespace)
}

/// Where the next page starts once a search of `file_count` files from `offset` on has accounted
/// for the first `consumed` of them. 0 would say that no file is left: where not even the first
/// file was searched, the next page starts behind the files.
pub open spec fn next_offset(offset: int, consumed: int, file_count: int) -> int {
    if offset + consumed > 0 {
        offset + consumed
    } else {
        file_count
    }
}

impl<'a> Default for GrepResult<'a> {
    fn default() -> (result: Self)
        ensures
            result.is_empty(0, 0),
    {
        GrepResult::empty(0, 0)
    }
}

impl<'a> GrepResult<'a> {
    /// What the result holds of matches and files.
    pub open spec fn holds(&self, page: PageView) -> bool {
        &&& match_views(self.matches@) == page.matches
        &&& file_values(self.files@) == page.files
        &&& self.files_with_matches == page.files.len()
    }

    /// The result of a search of `file_count` files from `offset` on that made `page` and accounts
    /// for the first `consumed` of them. A next page is named where the search was cut short, or
    /// where the page was filled before all files were accounted for.
    pub open spec fn reports(
        &self,
        page: PageView,
        consumed: int,
        file_count: int,
        offset: int,
        cut_short: bool,
        total_files: int,
        filtered_file_count: int,
    ) -> bool {
        &&& self.holds(page)
        &&& self.total_files_searched == consumed
        &&& self.total_files == total_files
        &&& self.filtered_file_count == filtered_file_count
        &&& self.next_file_offset == if cut_short || (page.filled && consumed < file_count) {
            next_offset(offset, consumed, file_count)
        } else {
            0
        }
        &&& self.regex_fallback_error is None
    }

    /// Nothing was searched; only the file counts are known.
    pub open spec fn is_empty(&self, total_files: int, filtered_file_count: int) -> bool {
        &&& self.holds(PageView::blank())
        &&& self.total_files_searched == 0
        &&& self.total_files == total_files
        &&& self.filtered_file_count == filtered_file_count
        &&& self.next_file_offset == 0
        &&& self.regex_fallback_error is None
    }

    /// No text was searched for: the files that have changed in git are listed instead, and the
    /// file counts are known.
    pub open spec fn lists_changed(&self, files: Seq<FileItem>) -> bool {
        &&& self.matches@.len() == 0
        &&& file_values(self.files@) == git_changed_files(files)
        &&& self.files_with_matches == 0
        &&& self.total_files_searched == 0
        &&& self.total_files == live_files(files)
        &&& self.filtered_file_count == live_files(files)
        &&& self.next_file_offset == 0
        &&& self.regex_fallback_error is None
    }

    /// What is listed before anything is searched for.
    pub fn welcome(files: &'a [FileItem]) -> (result: Self)
        ensures
            result.lists_changed(files@),
    {
        let live: usize = live_count(files);
        let mut result: GrepResult<'a> = GrepResult::empty(live, live);
        assert(match_views(result.matches@).len() == result.matches@.len());
        result.files = list_git_changed(files);
        result
    }

    /// Empty result carrying only the file counts (blank patterns / prefilter miss)
    pub fn empty(total_files: usize, filtered_file_count: usize) -> (result: Self)
        ensures
            result.is_empty(total_files as int, filtered_file_count as int),
    {
        let result = GrepResult {
            matches: Vec::new(),
            files: Vec::new(),
            total_files_searched: 0,
            total_files,
            filtered_file_count,
            files_with_matches: 0,
            next_file_offset: 0,
            regex_fallback_error: None,
        };
        assert(match_views(result.matches@) =~= Seq::<MatchView>::empty());
        assert(file_values(result.files@) =~= Seq::<FileItem>::empty());
        result
    }
}

/// A result names a next page if and only if the search was cut short or its page was filled before
/// all files were accounted for: 0 always says that there are no more files.
pub proof fn law_no_next_page_means_no_more_files(
    result: GrepResult,
    page: PageView,
    consumed: int,
    file_count: int,
    offset: int,
    cut_short: bool,
    total_files: int,
    filtered_file_count: int,
)
    requires
        result.reports(
            page,
            consumed,
            file_count,
            offset,
            cut_short,
            total_files,
            filtered_file_count,
        ),
        0 <= offset,
        0 <= consumed,
        cut_short ==> 0 < file_count,
    ensures
        result.next_file_offset != 0 <==> cut_short || (page.filled && consumed < file_count),
{
}

/// The number of files that a page made from `hits` accounts for, of the first `searched` files:
/// those up to the last file on it, or all that were searched where no file had a match.
pub open spec fn consumed_by_page(hits: Seq<FileHits>, page: PageView, searched: int) -> int {
    if page.files.len() == 0 {
        searched
    } else {
        hits[page.files.len() - 1].position + 1
    }
}

/// The number of files that a page filled chunk by chunk accounts for, of the first `searched`
/// files: those up to the file that filled it, or all that were searched.
pub open spec fn consumed_by_run(hits: Seq<FileHits>, page: PageView, searched: int) -> int {
    if page.filled {
        hits[page.files.len() - 1].position + 1
    } else {
        searched
    }
}

/// Every file with matches is one of the first `file_count` files.
pub open spec fn positions_below(hits: Seq<FileHits>, file_count: int) -> bool {
    forall|i: int| 0 <= i < hits.len() ==> 0 <= (#[trigger] hits[i]).position < file_count
}

/// Adds a file's matches, as they are reported, behind those already there.
pub(crate) fn append_file_matches(
    all_matches: &mut Vec<GrepMatch>,
    file_matches: Vec<GrepMatch>,
    file_index: usize,
    trim_whitespace: bool,
)
    ensures
        match_views(final(all_matches)@) == match_views(old(all_matches)@) + reported_matches(
            match_views(file_matches@),
            file_index as int,
            trim_whitespace,
        ),
{
    let ghost before = match_views(all_matches@);
    let ghost given = match_views(file_matches@);
    let ghost source = file_matches@;
    assert(before + reported_matches(given.take(0), file_index as int, trim_whitespace)
        =~= before);
    for m in it: file_matches
        invariant
            it.seq() == source,
            given == match_views(source),
            match_views(all_matches@) == before + reported_matches(
                given.take(it.index()),
                file_index as int,
                trim_whitespace,
            ),
    {
        let ghost so_far = match_views(all_matches@);
        let ghost at = it.index();
        let mut m = m;
        m.file_index = file_index;
        assert(m@ =~= (MatchView { file_index, ..given[at] }));
        if trim_whitespace {
            m.trim_leading_whitespace();
        }
        let ghost added = m@;
        all_matches.push(m);
        assert(match_views(all_matches@) =~= so_far.push(added));
        assert(reported_matches(given.take(at + 1), file_index as int, trim_whitespace)
            =~= reported_matches(given.take(at), file_index as int, trim_whitespace).push(added));
    }
    assert(given.take(given.len() as int) =~= given);
}

/// A page holds one file for each file with matches that it took, and took them from the front.
pub proof fn lemma_page_files(hits: Seq<FileHits>, limit: int, trim_whitespace: bool)
    ensures
        page_of(hits, limit, trim_whitespace).files.len() <= hits.len(),
        !page_of(hits, limit, trim_whitespace).filled ==> page_of(
            hits,
            limit,
            trim_whitespace,
        ).files.len() == hits.len(),
        page_of(hits, limit, trim_whitespace).filled ==> page_of(
            hits,
            limit,
            trim_whitespace,
        ).files.len() > 0,
        page_of(hits, limit, trim_whitespace).filled ==> page_of(
            hits,
            limit,
            trim_whitespace,
        ).matches.len() >= limit,
        !page_of(hits, limit, trim_whitespace).filled && hits.len() > 0 ==> page_of(
            hits,
            limit,
            trim_whitespace,
        ).matches.len() < limit,
    decreases hits.len(),
{
    if hits.len() > 0 {
        lemma_page_files(hits.drop_last(), limit, trim_whitespace);
    }
}

impl<'a> GrepResult<'a> {
    /// The page made from the matches of files that were searched in one go. Of
    /// `files_to_search_len` files the first `files_searched` were searched; where that is not
    /// all of them, the search was cut short.
    pub fn collect(
        per_file_results: Vec<FileMatches<'a>>,
        files_to_search_len: usize,
        options: &GrepSearchOptions,
        total_files: usize,
        filtered_file_count: usize,
        files_searched: usize,
    ) -> (result: Self)
        requires
            files_searched <= files_to_search_len,
            positions_below(file_hits(per_file_results@), files_searched as int),
            options.file_offset + files_to_search_len <= usize::MAX,
        ensures
            ({
                let hits = file_hits(per_file_results@);
                let page = page_of(hits, options.page_limit as int, options.trim_whitespace);
                let consumed = consumed_by_page(hits, page, files_searched as int);
                result.reports(
                    page,
                    consumed,
                    files_to_search_len as int,
                    options.file_offset as int,
                    files_searched < files_to_search_len,
                    total_files as int,
                    filtered_file_count as int,
                )
            }),
    {
        let page_limit: usize = options.page_limit;
        let trim_whitespace: bool = options.trim_whitespace;
        let ghost source = per_file_results@;
        let ghost hits = file_hits(source);
        let ghost page = page_of(hits, page_limit as int, trim_whitespace);
        let mut result_files: Vec<&'a FileItem> = Vec::new();
        let mut all_matches: Vec<GrepMatch> = Vec::new();
        // How far the page has advanced into the files: files without matches between those that
        // are listed were searched too and can be skipped on the next page.
        let mut files_consumed: usize = 0;
        let mut page_filled: bool = false;
        assert(hits.take(0) =~= Seq::<FileHits>::empty());
        assert(match_views(all_matches@) =~= Seq::<MatchView>::empty());
        assert(file_values(result_files@) =~= Seq::<FileItem>::empty());
        for item in it: per_file_results
            invariant
                it.seq() == source,
                hits == file_hits(source),
                positions_below(hits, files_searched as int),
                files_searched <= files_to_search_len,
                ({
                    let so_far = page_of(
                        hits.take(it.index()),
                        page_limit as int,
                        trim_whitespace,
                    );
                    &&& match_views(all_matches@) == so_far.matches
                    &&& file_values(result_files@) == so_far.files
                    &&& page_filled == so_far.filled
                    &&& so_far.files.len() <= it.index()
                    &&& so_far.files.len() > 0 ==> files_consumed == hits[so_far.files.len()
                        - 1].position + 1
                }),
        {
            let ghost at = it.index();
            let ghost matches_before = match_views(all_matches@);
            let ghost files_before = file_values(result_files@);
            proof {
                assert(hits.take(at + 1).drop_last() =~= hits.take(at));
                lemma_page_files(hits.take(at), page_limit as int, trim_whitespace);
            }
            // A filled page takes no further file. The limit is a soft one: the file that fills
            // the page is always finished, so that no match is dropped.
            if !page_filled {
                let (batch_idx, file, file_matches) = item;
                assert(hits[at].position == batch_idx);
                files_consumed = batch_idx + 1;
                let file_result_idx: usize = result_files.len();
                result_files.push(file);
                append_file_matches(
                    &mut all_matches,
                    file_matches,
                    file_result_idx,
                    trim_whitespace,
                );
                assert(file_values(result_files@) =~= files_before.push(*file));
                assert(match_views(all_matches@).len() == all_matches@.len());
                if all_matches.len() >= page_limit {
                    page_filled = true;
                }
            }
        }
        assert(hits.take(hits.len() as int) =~= hits);
        proof {
            lemma_page_files(hits, page_limit as int, trim_whitespace);
        }
        if result_files.is_empty() {
            files_consumed = files_searched;
        }
        assert(file_values(result_files@).len() == result_files@.len());
        let has_more: bool = files_searched < files_to_search_len || (page_filled && files_consumed
            < files_to_search_len);
        let next_file_offset: usize = if !has_more {
            0
        } else if options.file_offset + files_consumed > 0 {
            options.file_offset + files_consumed
        } else {
            files_to_search_len
        };
        GrepResult {
            files_with_matches: result_files.len(),
            matches: all_matches,
            files: result_files,
            total_files_searched: files_consumed,
            total_files,
            filtered_file_count,
            next_file_offset,
            regex_fallback_error: None,
        }
    }
}

/// A result says what its page holds: its matches, its files and their number. It says how many
/// files the page accounts for, and passes the file counts on.
pub proof fn law_result_says_what_its_page_holds(
    result: GrepResult,
    page: PageView,
    consumed: int,
    file_count: int,
    offset: int,
    cut_short: bool,
    total_files: int,
    filtered_file_count: int,
)
    requires
        result.reports(
            page,
            consumed,
            file_count,
            offset,
            cut_short,
            total_files,
            filtered_file_count,
        ),
    ensures
        result.matches@.len() == page.matches.len(),
        forall|i: int|
            0 <= i < page.matches.len() ==> (#[trigger] result.matches@[i])@ == page.matches[i],
        result.files@.len() == page.files.len(),
        forall|i: int|
            0 <= i < page.files.len() ==> *(#[trigger] result.files@[i]) == page.files[i],
        result.files_with_matches == result.files@.len(),
        result.total_files_searched == consumed,
        result.total_files == total_files,
        result.filtered_file_count == filtered_file_count,
        cut_short && offset + consumed > 0 ==> result.next_file_offset == offset + consumed,
        page.filled && 0 < consumed < file_count && 0 <= offset ==> result.next_file_offset
            == offset + consumed,
        !cut_short && (!page.filled || consumed >= file_count) ==> result.next_file_offset == 0,
        result.regex_fallback_error is None,
{
    assert(match_views(result.matches@).len() == result.matches@.len());
    assert(file_values(result.files@).len() == result.files@.len());
    assert forall|i: int| 0 <= i < page.matches.len() implies (#[trigger] result.matches@[i])@
        == page.matches[i] by {
        assert(match_views(result.matches@)[i] == result.matches@[i]@);
    }
    assert forall|i: int| 0 <= i < page.files.len() implies *(#[trigger] result.files@[i])
        == page.files[i] by {
        assert(file_values(result.files@)[i] == *result.files@[i]);
    }
}

/// An empty result holds no match and no file, and names no next page; the file counts are passed
/// on.
pub proof fn law_empty_result_holds_nothing(
    result: GrepResult,
    total_files: int,
    filtered_file_count: int,
)
    requires
        result.is_empty(total_files, filtered_file_count),
    ensures
        result.matches@.len() == 0,
        result.files@.len() == 0,
        result.files_with_matches == 0,
        result.total_files_searched == 0,
        result.next_file_offset == 0,
        result.total_files == total_files,
        result.filtered_file_count == filtered_file_count,
        result.regex_fallback_error is None,
{
    assert(match_views(result.matches@).len() == result.matches@.len());
    assert(file_values(result.files@).len() == result.files@.len());
}

/// What is known of the files with matches is what was handed in: where each lies, which file it is,
/// and its matches in their order.
pub proof fn law_hits_are_what_was_handed_in(results: Seq<FileMatches>, i: int)
    requires
        0 <= i < results.len(),
    ensures
        file_hits(results).len() == results.len(),
        file_hits(results)[i].position == results[i].0,
        file_hits(results)[i].file == *results[i].1,
        file_hits(results)[i].matches.len() == results[i].2@.len(),
        forall|j: int|
            0 <= j < results[i].2@.len() ==> #[trigger] file_hits(results)[i].matches[j]
                == results[i].2@[j]@,
{
}

/// A page made in one go accounts for the files up to the last one on it, and where no file had a
/// match for all that were searched.
pub proof fn law_page_accounts_for_its_files(
    hits: Seq<FileHits>,
    limit: int,
    trim_whitespace: bool,
    searched: int,
)
    ensures
        ({
            let page = page_of(hits, limit, trim_whitespace);
            let consumed = consumed_by_page(hits, page, searched);
            &&& hits.len() == 0 ==> consumed == searched
            &&& hits.len() > 0 ==> page.files.len() > 0 && consumed == hits[page.files.len()
                - 1].position + 1
        }),
{
    lemma_page_files(hits, limit, trim_whitespace);
    if hits.len() > 0 {
        let page = page_of(hits, limit, trim_whitespace);
        if !page.filled {
            assert(page.files.len() == hits.len());
        }
    }
}

} // verus!
