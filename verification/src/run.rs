//! Searching files chunk by chunk until a page is filled.
use crate::files::{file_values, FileItem};
use crate::matcher::{Match, PlainTextMatcher};
use crate::matches::{match_views, GrepMatch, MatchView};
use crate::needle::{
    find_needle, folded, law_occurrence_is_where_the_needle_stands, lemma_folded_subrange,
    occurs_at, stands_at,
};
use crate::options::GrepSearchOptions;
use crate::page::{
    append_file_matches, consumed_by_run, file_hits, lemma_page_files, page_of, positions_below,
    FileHits, FileMatches, GrepResult, PageView,
};
use crate::paging::{hits_from, page_at};
use vstd::prelude::*;

verus! {

/// What the search of every file has in common. `A` tells where file names are stored.
#[derive(Clone, Copy)]
pub struct GrepContext<'a, A> {
    pub total_files: usize,
    pub filtered_file_count: usize,
    pub arena: A,
    pub overflow_arena: A,
    /// A literal without which a file cannot match, lowered when case is ignored.
    pub prefilter: Option<&'a [u8]>,
    pub prefilter_case_insensitive: bool,
}

impl<'a, A: Copy> GrepContext<'a, A> {
    /// The context holds these values.
    pub open spec fn holds(
        &self,
        total_files: int,
        filtered_file_count: int,
        arena: A,
        overflow_arena: A,
        literal: Option<Seq<u8>>,
        case_insensitive: bool,
    ) -> bool {
        &&& self.total_files == total_files
        &&& self.filtered_file_count == filtered_file_count
        &&& self.arena == arena
        &&& self.overflow_arena == overflow_arena
        &&& match self.prefilter {
            None => literal is None,
            Some(needle) => literal == Some(needle@),
        }
        &&& self.prefilter_case_insensitive == case_insensitive
    }

    /// Where the name of a file is stored.
    pub fn arena_for_file(&self, file: &FileItem) -> (arena: A)
        ensures
            arena == if file.is_overflow {
                self.overflow_arena
            } else {
                self.arena
            },
    {
        if file.is_overflow {
            self.overflow_arena
        } else {
            self.arena
        }
    }

    /// A content is worth a search: the literal, where one is known, stands somewhere in it.
    pub open spec fn admits_content(&self, content: Seq<u8>) -> bool {
        self.prefilter is Some ==> exists|at: int|
            occurs_at(
                folded(content, self.prefilter_case_insensitive),
                self.prefilter->0@,
                at,
            )
    }

    /// Fast whole-file check before the content is searched line by line. Skips files that
    /// can't match.
    pub fn may_match(&self, content: &[u8]) -> (worth_it: bool)
        ensures
            worth_it == self.admits_content(content@),
    {
        match self.prefilter {
            Some(needle) => match find_needle(content, needle, self.prefilter_case_insensitive) {
                Some(at) => {
                    assert(occurs_at(
                        folded(content@, self.prefilter_case_insensitive),
                        needle@,
                        at as int,
                    ));
                    true
                },
                None => false,
            },
            None => true,
        }
    }

    /// The matches of one file. `search_lines` searches its content line by line; it is not
    /// called for a content that cannot match.
    pub fn search_file<P, L>(&self, plan: &P, content: &[u8], search_lines: &L) -> (matches: Vec<
        GrepMatch,
    >) where L: Fn(&P, &[u8]) -> Vec<GrepMatch>
        requires
            call_requires(*search_lines, (plan, content)),
        ensures
            if self.admits_content(content@) {
                call_ensures(*search_lines, (plan, content), matches)
            } else {
                matches@.len() == 0
            },
    {
        if self.may_match(content) {
            search_lines(plan, content)
        } else {
            Vec::new()
        }
    }
}

/// Whether the stop conditions are looked at before file number `local_idx` of a chunk: they are
/// on every eighth file.
pub fn polls_stop(local_idx: usize) -> (poll: bool)
    ensures
        poll == (local_idx % 8 == 0),
{
    local_idx % 8 == 0
}

/// The search must stop: it was aborted, or its time is up.
pub open spec fn stops(aborted: bool, time_budget_ms: u64, elapsed_nanos: u128) -> bool {
    aborted || (time_budget_ms > 0 && elapsed_nanos > time_budget_ms * 1_000_000)
}

/// An abort stops a search at any time. A time budget does so once more time has gone by than it
/// allows, not before, and from then on; a budget of 0 never does.
pub proof fn law_search_stops_when_told_or_out_of_time(
    aborted: bool,
    time_budget_ms: u64,
    elapsed_nanos: u128,
    later: u128,
)
    ensures
        stops(true, time_budget_ms, elapsed_nanos),
        !stops(false, 0, elapsed_nanos),
        elapsed_nanos <= time_budget_ms * 1_000_000 ==> !stops(
            false,
            time_budget_ms,
            elapsed_nanos,
        ),
        time_budget_ms > 0 && elapsed_nanos == time_budget_ms * 1_000_000 + 1 ==> stops(
            aborted,
            time_budget_ms,
            elapsed_nanos,
        ),
        elapsed_nanos <= later && stops(aborted, time_budget_ms, elapsed_nanos) ==> stops(
            aborted,
            time_budget_ms,
            later,
        ),
{
}

/// Whether the search must stop: it was aborted, or its time is up. A budget of 0 milliseconds is
/// no limit.
pub fn must_stop(aborted: bool, time_budget_ms: u64, elapsed_nanos: u128) -> (stop: bool)
    ensures
        stop == stops(aborted, time_budget_ms, elapsed_nanos),
        stop == (aborted || (time_budget_ms > 0 && elapsed_nanos > time_budget_ms * 1_000_000)),
{
    aborted || (time_budget_ms > 0 && elapsed_nanos > (time_budget_ms as u128) * 1_000_000)
}

/// What a searched file contributes to the results of its chunk, which starts at position
/// `chunk_offset`: nothing without a match.
pub fn file_outcome<'a>(
    chunk_offset: usize,
    local_idx: usize,
    file: &'a FileItem,
    file_matches: Vec<GrepMatch>,
) -> (outcome: Option<FileMatches<'a>>)
    requires
        chunk_offset + local_idx <= usize::MAX,
    ensures
        outcome is None <==> file_matches@.len() == 0,
        outcome matches Some(found) ==> found.0 == chunk_offset + local_idx && found.1 == file
            && found.2 == file_matches,
{
    if file_matches.is_empty() {
        None
    } else {
        Some((chunk_offset + local_idx, file, file_matches))
    }
}

/// What the search of a chunk of files found: the matches of its first file, and those of each file
/// behind it, up to the first one that was not searched because the search had to stop. The first
/// file is always searched.
#[derive(Debug, Clone)]
pub struct ChunkMatches {
    pub first: Vec<GrepMatch>,
    pub rest: Vec<Vec<GrepMatch>>,
}

impl ChunkMatches {
    /// The matches of each file that was searched.
    pub open spec fn per_file(&self) -> Seq<Vec<GrepMatch>> {
        seq![self.first] + self.rest@
    }

    /// The matches of each file that was searched.
    pub fn into_list(self) -> (list: Vec<Vec<GrepMatch>>)
        ensures
            list@ == self.per_file(),
    {
        let ghost behind = self.rest@;
        let ghost first = self.first;
        let mut list: Vec<Vec<GrepMatch>> = self.rest;
        list.insert(0, self.first);
        assert(list@ =~= seq![first] + behind);
        list
    }
}

/// The size of the first chunk for a number of worker threads.
pub open spec fn base_chunk(num_threads: int) -> int {
    num_threads * 4
}

/// Few enough of all files are left to be searched that chunks stay small: a page is then
/// filled without searching far too much.
pub open spec fn prefilter_is_strong(file_count: int, total_files: int) -> bool {
    total_files > 0 && file_count * 2 < total_files
}

/// The size that chunks grow to.
pub open spec fn max_chunk(file_count: int, total_files: int, num_threads: int) -> int {
    if prefilter_is_strong(file_count, total_files) {
        base_chunk(num_threads)
    } else if base_chunk(num_threads) * 256 > 8192 {
        base_chunk(num_threads) * 256
    } else {
        8192
    }
}

/// A search over a list of files that is under way.
///
/// Chunks of the list are handed out by [`GrepRun::next_chunk`]; whoever searches them hands the
/// matches back to [`GrepRun::absorb`].
pub struct GrepRun<'a> {
    file_count: usize,
    file_offset: usize,
    page_limit: usize,
    trim_whitespace: bool,
    growth: usize,
    max_chunk: usize,
    chunk_size: usize,
    chunk_start: usize,
    result_files: Vec<&'a FileItem>,
    all_matches: Vec<GrepMatch>,
    files_consumed: usize,
    page_filled: bool,
    budget_exceeded: bool,
    seen: Ghost<Seq<FileHits>>,
}

impl<'a> GrepRun<'a> {
    /// Number of files to be searched.
    pub closed spec fn count(&self) -> int {
        self.file_count as int
    }

    /// The offset of the page.
    pub closed spec fn offset(&self) -> int {
        self.file_offset as int
    }

    /// The number of matches that fill the page.
    pub closed spec fn limit(&self) -> int {
        self.page_limit as int
    }

    /// Whether indents are removed from reported lines.
    pub closed spec fn trims(&self) -> bool {
        self.trim_whitespace
    }

    /// Number of files that have been searched or handed out for it, which are the first ones.
    pub closed spec fn handed_out(&self) -> int {
        self.chunk_start as int
    }

    /// The size of the next chunk, unless fewer files are left.
    pub closed spec fn next_size(&self) -> int {
        self.chunk_size as int
    }

    /// The size that chunks grow to.
    pub closed spec fn largest_size(&self) -> int {
        self.max_chunk as int
    }

    /// The files with matches that have been handed back so far.
    pub closed spec fn hits(&self) -> Seq<FileHits> {
        self.seen@
    }

    /// A search of a file was cut short.
    pub closed spec fn stopped(&self) -> bool {
        self.budget_exceeded
    }

    /// The page so far.
    pub open spec fn page(&self) -> PageView {
        page_of(self.hits(), self.limit(), self.trims())
    }

    /// The number of files that the page accounts for.
    pub open spec fn consumed(&self) -> int {
        consumed_by_run(self.hits(), self.page(), self.handed_out())
    }

    /// Nothing is handed out any more.
    pub open spec fn done(&self) -> bool {
        self.handed_out() >= self.count() || self.page().filled || self.stopped()
    }

    /// Nothing has been searched yet of a run over `file_count` files.
    pub open spec fn is_fresh(
        &self,
        file_count: usize,
        total_files: usize,
        options: &GrepSearchOptions,
        num_threads: usize,
    ) -> bool {
        &&& self.count() == file_count
        &&& self.offset() == options.file_offset
        &&& self.limit() == options.page_limit
        &&& self.trims() == options.trim_whitespace
        &&& self.handed_out() == 0
        &&& self.next_size() == base_chunk(num_threads as int)
        &&& self.largest_size() == max_chunk(
            file_count as int,
            total_files as int,
            num_threads as int,
        )
        &&& self.hits() == Seq::<FileHits>::empty()
        &&& !self.stopped()
    }

    /// What holds of every run.
    pub closed spec fn well_formed(&self) -> bool {
        &&& self.chunk_start <= self.file_count
        &&& self.file_offset + self.file_count <= usize::MAX
        &&& 1 <= self.chunk_size <= self.max_chunk
        &&& self.max_chunk * 2 <= usize::MAX
        &&& self.growth == 1 || self.growth == 2
        &&& self.growth == 1 ==> self.chunk_size == self.max_chunk
        &&& positions_below(self.seen@, self.chunk_start as int)
        &&& match_views(self.all_matches@) == self.page().matches
        &&& file_values(self.result_files@) == self.page().files
        &&& self.page_filled == self.page().filled
        &&& self.files_consumed == if self.page_filled {
            self.seen@[self.page().files.len() - 1].position + 1
        } else {
            self.chunk_start as int
        }
    }

    /// A run over `file_count` files, of which nothing has been searched yet.
    pub fn new(
        file_count: usize,
        total_files: usize,
        options: &GrepSearchOptions,
        num_threads: usize,
    ) -> (run: Self)
        requires
            options.file_offset + file_count <= usize::MAX,
            1 <= num_threads,
            num_threads * 4 * 256 * 2 <= usize::MAX,
        ensures
            run.well_formed(),
            run.is_fresh(file_count, total_files, options, num_threads),
    {
        let base: usize = num_threads * 4;
        let prefilter_strong: bool = file_count < total_files && file_count < total_files
            - file_count;
        let largest: usize = if prefilter_strong {
            base
        } else if base * 256 > 8192 {
            base * 256
        } else {
            8192
        };
        let run = GrepRun {
            file_count,
            file_offset: options.file_offset,
            page_limit: options.page_limit,
            trim_whitespace: options.trim_whitespace,
            growth: if prefilter_strong {
                1
            } else {
                2
            },
            max_chunk: largest,
            chunk_size: base,
            chunk_start: 0,
            result_files: Vec::new(),
            all_matches: Vec::new(),
            files_consumed: 0,
            page_filled: false,
            budget_exceeded: false,
            seen: Ghost(Seq::empty()),
        };
        assert(match_views(run.all_matches@) =~= Seq::<MatchView>::empty());
        assert(file_values(run.result_files@) =~= Seq::<FileItem>::empty());
        run
    }

    /// The next files to be searched, as the positions of the first one and behind the last one.
    /// `None` once the page is filled, the search was cut short, or no file is left.
    pub fn next_chunk(&mut self) -> (chunk: Option<(usize, usize)>)
        requires
            old(self).well_formed(),
        ensures
            final(self).well_formed(),
            final(self).count() == old(self).count(),
            final(self).offset() == old(self).offset(),
            final(self).limit() == old(self).limit(),
            final(self).trims() == old(self).trims(),
            final(self).largest_size() == old(self).largest_size(),
            final(self).hits() == old(self).hits(),
            final(self).stopped() == old(self).stopped(),
            chunk is None <==> old(self).done(),
            chunk is None ==> *final(self) == *old(self),
            chunk matches Some((start, end)) ==> {
                &&& start < end <= old(self).count()
                &&& start == old(self).handed_out()
                &&& end == final(self).handed_out()
                &&& end == if start + old(self).next_size() < old(self).count() {
                    start + old(self).next_size()
                } else {
                    old(self).count()
                }
                &&& final(self).next_size() == if old(self).next_size() * 2
                    < old(self).largest_size() {
                    old(self).next_size() * 2
                } else {
                    old(self).largest_size()
                }
            },
    {
        if self.page_filled || self.budget_exceeded || self.chunk_start >= self.file_count {
            return None;
        }
        let start: usize = self.chunk_start;
        let end: usize = if self.file_count - start <= self.chunk_size {
            self.file_count
        } else {
            start + self.chunk_size
        };
        let grown: usize = self.chunk_size * self.growth;
        self.chunk_size = if grown < self.max_chunk {
            grown
        } else {
            self.max_chunk
        };
        self.chunk_start = end;
        self.files_consumed = end;
        Some((start, end))
    }

    /// Takes the matches found in the chunk that was handed out last, by position. `searched` is
    /// the number of files searched since the start of the run; where that is less than were
    /// handed out, the search was cut short.
    pub fn absorb(&mut self, chunk_results: Vec<FileMatches<'a>>, searched: usize)
        requires
            old(self).well_formed(),
            searched <= old(self).handed_out(),
            positions_below(old(self).hits(), searched as int),
            positions_below(file_hits(chunk_results@), searched as int),
            !old(self).page().filled,
        ensures
            final(self).well_formed(),
            final(self).count() == old(self).count(),
            final(self).offset() == old(self).offset(),
            final(self).limit() == old(self).limit(),
            final(self).trims() == old(self).trims(),
            final(self).largest_size() == old(self).largest_size(),
            final(self).next_size() == old(self).next_size(),
            final(self).handed_out() == searched,
            final(self).hits() == old(self).hits() + file_hits(chunk_results@),
            final(self).stopped() == (old(self).stopped() || searched < old(self).handed_out()),
    {
        if searched < self.chunk_start {
            self.budget_exceeded = true;
        }
        self.chunk_start = searched;
        self.files_consumed = searched;
        let ghost before = self.seen@;
        let ghost source = chunk_results@;
        let ghost new_hits = file_hits(source);
        let ghost start = *self;
        assert(before + new_hits.take(0) =~= before);
        for item in it: chunk_results
            invariant
                it.seq() == source,
                new_hits == file_hits(source),
                positions_below(new_hits, start.chunk_start as int),
                self.well_formed(),
                self.file_count == start.file_count,
                self.file_offset == start.file_offset,
                self.page_limit == start.page_limit,
                self.trim_whitespace == start.trim_whitespace,
                self.max_chunk == start.max_chunk,
                self.growth == start.growth,
                self.chunk_size == start.chunk_size,
                self.chunk_start == start.chunk_start,
                self.budget_exceeded == start.budget_exceeded,
                self.seen@ == before + new_hits.take(it.index()),
        {
            let ghost at = it.index();
            let ghost seen_before = self.seen@;
            let ghost page_before = self.page();
            let ghost one = new_hits[at];
            proof {
                assert(before + new_hits.take(at + 1) =~= seen_before.push(one));
                assert(seen_before.push(one).drop_last() =~= seen_before);
                lemma_page_files(seen_before, self.page_limit as int, self.trim_whitespace);
            }
            if !self.page_filled {
                let (batch_idx, file, file_matches) = item;
                let file_result_idx: usize = self.result_files.len();
                self.result_files.push(file);
                append_file_matches(
                    &mut self.all_matches,
                    file_matches,
                    file_result_idx,
                    self.trim_whitespace,
                );
                assert(file_values(self.result_files@) =~= page_before.files.push(*file));
                assert(match_views(self.all_matches@).len() == self.all_matches@.len());
                if self.all_matches.len() >= self.page_limit {
                    // The next page resumes right behind the file that filled this one.
                    self.files_consumed = batch_idx + 1;
                    self.page_filled = true;
                }
            }
            self.seen = Ghost(seen_before.push(one));
        }
        assert(new_hits.take(new_hits.len() as int) =~= new_hits);
    }

    /// The page that was filled.
    pub fn finish(self, total_files: usize, filtered_file_count: usize) -> (result: GrepResult<'a>)
        requires
            self.well_formed(),
        ensures
            result.reports(
                self.page(),
                self.consumed(),
                self.count(),
                self.offset(),
                self.stopped(),
                total_files as int,
                filtered_file_count as int,
            ),
    {
        proof {
            lemma_page_files(self.seen@, self.page_limit as int, self.trim_whitespace);
            assert(file_values(self.result_files@).len() == self.result_files@.len());
        }
        let files_consumed: usize = self.files_consumed;
        let has_more: bool = self.budget_exceeded || (self.page_filled && files_consumed
            < self.file_count);
        let next_file_offset: usize = if !has_more {
            0
        } else if self.file_offset + files_consumed > 0 {
            self.file_offset + files_consumed
        } else {
            self.file_count
        };
        GrepResult {
            files_with_matches: self.result_files.len(),
            matches: self.all_matches,
            files: self.result_files,
            total_files_searched: files_consumed,
            total_files,
            filtered_file_count,
            next_file_offset,
            regex_fallback_error: None,
        }
    }
}

/// A run that was not cut short gives the page at its offset, and names the offset of the page
/// behind it: how the files were cut into chunks does not show.
pub proof fn law_finished_run_is_the_page_at_its_offset(run: GrepRun, all_hits: Seq<FileHits>)
    requires
        run.well_formed(),
        run.done(),
        !run.stopped(),
        run.hits() == hits_from(all_hits, run.offset()),
    ensures
        page_at(
            all_hits,
            run.offset() + run.count(),
            run.offset(),
            run.limit(),
            run.trims(),
        ) == (
            run.page(),
            if run.page().filled && run.consumed() < run.count() {
                run.offset() + run.consumed()
            } else {
                0
            },
        ),
{
    lemma_page_files(run.hits(), run.limit(), run.trims());
}

/// A run that handed out any file accounts for at least one file and for no more than there are,
/// so that the next page starts behind this one.
pub proof fn law_next_page_starts_behind(run: GrepRun)
    requires
        run.well_formed(),
        run.handed_out() > 0,
    ensures
        0 < run.consumed() <= run.count(),
{
    lemma_page_files(run.hits(), run.limit(), run.trims());
    if run.page().filled {
        assert(run.hits()[run.page().files.len() - 1].position < run.handed_out());
    }
}

/// What the whole-file check sees, the search of the lines can rely on: a literal that stands in
/// any part of a content stands in the content.
pub proof fn law_prefilter_is_sound<'a, A: Copy>(
    context: GrepContext<'a, A>,
    content: Seq<u8>,
    start: int,
    end: int,
    at: int,
)
    requires
        context.prefilter is Some,
        0 <= start <= end <= content.len(),
        occurs_at(
            folded(content.subrange(start, end), context.prefilter_case_insensitive),
            context.prefilter->0@,
            at,
        ),
    ensures
        context.admits_content(content),
{
    let fold = context.prefilter_case_insensitive;
    let needle = context.prefilter->0@;
    lemma_folded_subrange(content, fold, start, end);
    let part = folded(content.subrange(start, end), fold);
    let whole = folded(content, fold);
    assert(whole.subrange(start + at, start + at + needle.len()) =~= part.subrange(
        at,
        at + needle.len(),
    ));
    assert(occurs_at(whole, needle, start + at));
}

/// A file that the whole-file check skips has no match: in no part of its content does a plain
/// text search for the literal find anything.
pub proof fn law_skipped_files_have_no_match<'a, 'm, A: Copy>(
    context: GrepContext<'a, A>,
    matcher: PlainTextMatcher<'m>,
    content: Seq<u8>,
    start: int,
    end: int,
    at: int,
    found: Option<Match>,
)
    requires
        context.prefilter matches Some(needle) && needle@ == matcher.needle@,
        context.prefilter_case_insensitive == matcher.case_insensitive,
        !context.admits_content(content),
        0 <= start <= end <= content.len(),
        matcher.finds(content.subrange(start, end), at, found),
    ensures
        found is None,
{
    if let Some(m) = found {
        law_prefilter_is_sound(context, content, start, end, m.start as int);
    }
}

/// A content is searched unless the literal that every match holds stands nowhere in it.
pub proof fn law_content_is_searched_where_the_literal_stands<'a, A: Copy>(
    context: GrepContext<'a, A>,
    content: Seq<u8>,
)
    requires
        context.prefilter is Some && context.prefilter_case_insensitive ==> forall|i: int|
            0 <= i < context.prefilter->0@.len() ==> !(0x41
                <= #[trigger] context.prefilter->0@[i] <= 0x5a),
    ensures
        context.admits_content(content) <==> context.prefilter is None || exists|at: int|
            #[trigger] stands_at(
                content,
                context.prefilter->0@,
                context.prefilter_case_insensitive,
                at,
            ),
{
    if context.prefilter is Some {
        let needle = context.prefilter->0@;
        let fold = context.prefilter_case_insensitive;
        assert forall|at: int| #[trigger] stands_at(content, needle, fold, at) <==> occurs_at(
            folded(content, fold),
            needle,
            at,
        ) by {
            law_occurrence_is_where_the_needle_stands(content, needle, fold, at);
        }
        if context.admits_content(content) {
            let at = choose|at: int| occurs_at(folded(content, fold), needle, at);
            assert(stands_at(content, needle, fold, at));
        }
    }
}

} // verus!
