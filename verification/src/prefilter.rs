//! Choosing the files to open, without opening any.
use crate::candidates::{bit_set, lists_file, OverlayChanges};
use crate::files::{
    file_values, lemma_ranking, positions_fit, rank_files, rank_order, ranking, ranks_first,
    FileItem,
};
use crate::options::GrepSearchOptions;
use vstd::prelude::*;
use vstd::relations::sorted_by;
use vstd::std_specs::bits::{axiom_u64_trailing_zeros, u64_trailing_zeros};

verus! {

/// A file whose content can be searched at all: there, text, and neither empty nor larger than
/// `max_size` bytes.
pub open spec fn is_searchable(file: FileItem, max_size: u64) -> bool {
    !file.is_deleted && !file.is_binary && 0 < file.size <= max_size
}

/// Whether a file's content can be searched at all.
pub fn basic_prefilter(file: &FileItem, max: u64) -> (searchable: bool)
    ensures
        searchable == is_searchable(*file, max),
        searchable <==> !file.is_deleted && !file.is_binary && file.size > 0 && file.size <= max,
{
    !file.is_deleted && !file.is_binary && file.size > 0 && file.size <= max
}

/// What the files of one search are filtered by.
pub struct FileFilter<'a> {
    pub files: &'a [FileItem],
    /// For each file, whether the constraints of the query admit it. `None` without constraints.
    pub admitted: Option<&'a [bool]>,
    /// Bitset of the indexed files that the index could not rule out. `None` without an index.
    pub candidates: Option<&'a [u64]>,
    /// Number of files, from the start of `files`, that the index covers.
    pub base_count: usize,
    pub max_file_size: u64,
}

impl<'a> FileFilter<'a> {
    /// The number of files that the index speaks of.
    pub open spec fn boundary(&self) -> int {
        if self.base_count < self.files@.len() {
            self.base_count as int
        } else {
            self.files@.len() as int
        }
    }

    /// There is an answer for each file that is asked about.
    pub open spec fn complete(&self) -> bool {
        &&& self.admitted is Some ==> self.admitted->0@.len() == self.files@.len()
        &&& self.candidates is Some && self.boundary() % 64 != 0 ==> self.boundary() / 64
            < self.candidates->0@.len()
    }

    /// The index does not rule file number `i` out. It says nothing of files it does not cover.
    pub open spec fn index_passes(&self, i: int) -> bool {
        self.candidates is None || i >= self.boundary() || bit_set(self.candidates->0@, i)
    }

    /// File number `i` is to be searched.
    pub open spec fn keeps(&self, i: int) -> bool {
        &&& 0 <= i < self.files@.len()
        &&& is_searchable(self.files@[i], self.max_file_size)
        &&& self.admitted is Some ==> self.admitted->0@[i]
        &&& self.index_passes(i)
    }

    /// The positions before `end` of the files to be searched, ascending.
    pub open spec fn kept_before(&self, end: int) -> Seq<usize>
        decreases end,
    {
        if end <= 0 {
            Seq::empty()
        } else if self.keeps(end - 1) {
            self.kept_before(end - 1).push((end - 1) as usize)
        } else {
            self.kept_before(end - 1)
        }
    }

    /// The positions of the files to be searched, in the order of the search.
    pub open spec fn ranked(&self) -> Seq<usize> {
        ranking(self.files@, self.kept_before(self.files@.len() as int))
    }

    /// The files to be searched from file number `offset` of the search order on.
    pub open spec fn page(&self, offset: int) -> Seq<FileItem> {
        if offset >= self.ranked().len() {
            Seq::empty()
        } else {
            self.ranked().skip(offset).map_values(|i: usize| self.files@[i as int])
        }
    }

    /// A stretch without a file to be searched adds nothing.
    proof fn lemma_kept_gap(&self, from: int, to: int)
        requires
            0 <= from <= to,
            forall|i: int| from <= i < to ==> !self.keeps(i),
        ensures
            self.kept_before(to) == self.kept_before(from),
        decreases to - from,
    {
        if from < to {
            self.lemma_kept_gap(from, to - 1);
            assert(!self.keeps(to - 1));
        }
    }

    /// The list of files to be searched is ascending and holds exactly those that are kept.
    pub proof fn lemma_kept_before(&self, end: int)
        requires
            0 <= end <= self.files@.len(),
        ensures
            self.kept_before(end).len() <= end,
            forall|a: int, b: int|
                0 <= a < b < self.kept_before(end).len() ==> (#[trigger] self.kept_before(end)[a])
                    < (#[trigger] self.kept_before(end)[b]),
            forall|i: usize| #[trigger]
                self.kept_before(end).contains(i) <==> i < end && self.keeps(i as int),
            positions_fit(self.kept_before(end), self.files@.len() as int),
        decreases end,
    {
        if end > 0 {
            self.lemma_kept_before(end - 1);
            let before = self.kept_before(end - 1);
            let all = self.kept_before(end);
            assert(self.files.len() == self.files@.len());
            assert forall|k: int| 0 <= k < before.len() implies (#[trigger] before[k]) < end
                - 1 by {
                assert(before.contains(before[k]));
            }
            assert forall|i: usize| #[trigger] all.contains(i) <==> i < end && self.keeps(
                i as int,
            ) by {
                if self.keeps(end - 1) {
                    assert(all[before.len() as int] == end - 1);
                    if before.contains(i) {
                        let k = choose|k: int| 0 <= k < before.len() && before[k] == i;
                        assert(all[k] == i);
                    }
                    if all.contains(i) {
                        let k = choose|k: int| 0 <= k < all.len() && all[k] == i;
                        if k < before.len() {
                            assert(before[k] == i);
                        }
                    }
                }
            }
        }
    }

    /// Whether a file that the index does not rule out is to be searched.
    fn passes(&self, i: usize) -> (kept: bool)
        requires
            self.complete(),
            i < self.files@.len(),
        ensures
            kept == (is_searchable(self.files@[i as int], self.max_file_size) && (
            self.admitted is Some ==> self.admitted->0@[i as int])),
    {
        if !basic_prefilter(&self.files[i], self.max_file_size) {
            return false;
        }
        match self.admitted {
            Some(admitted) => admitted[i],
            None => true,
        }
    }

    /// Adds the files to be searched among those that a word of the bitset speaks of.
    fn scan_word(&self, word: u64, base: usize, out: &mut Vec<usize>)
        requires
            self.complete(),
            self.candidates is Some,
            base % 64 == 0,
            base <= self.boundary(),
            old(out)@ == self.kept_before(base as int),
            forall|k: u64|
                k < 64 ==> ((#[trigger] (word >> k)) & 1 == 1 <==> base + k < self.boundary()
                    && bit_set(self.candidates->0@, base + k)),
        ensures
            final(out)@ == self.kept_before(
                if base + 64 < self.boundary() {
                    base + 64
                } else {
                    self.boundary()
                },
            ),
    {
        let ghost limit: int = if base + 64 < self.boundary() {
            base + 64
        } else {
            self.boundary()
        };
        let mut bits: u64 = word;
        let ghost mut next: int = 0;
        while bits != 0
            invariant
                self.complete(),
                self.candidates is Some,
                self.boundary() <= self.files.len(),
                base <= limit <= self.boundary(),
                limit == (if base + 64 < self.boundary() {
                    base + 64
                } else {
                    self.boundary()
                }),
                0 <= next <= 64,
                base + next <= limit,
                out@ == self.kept_before(base + next),
                forall|k: u64|
                    k < 64 ==> ((#[trigger] (word >> k)) & 1 == 1 <==> base + k < self.boundary()
                        && bit_set(self.candidates->0@, base + k)),
                forall|k: u64|
                    k < 64 ==> ((#[trigger] (bits >> k)) & 1 == 1 <==> next <= k && (word >> k) & 1
                        == 1),
            decreases 64 - next,
        {
            let zeros: u32 = bits.trailing_zeros();
            let ghost tz: u64 = zeros as u64;
            proof {
                axiom_u64_trailing_zeros(bits);
                assert((bits >> tz) & 1 == 1);
                assert((word >> tz) & 1 == 1);
                assert forall|i: int| base + next <= i < base + tz implies !self.keeps(i) by {
                    let k = (i - base) as u64;
                    assert((bits >> k) & 1 == 0);
                    assert((word >> k) & 1 != 1);
                }
                self.lemma_kept_gap(base + next, base + tz);
            }
            let file_idx: usize = base + zeros as usize;
            let ghost prev = bits;
            bits = bits & (bits - 1);
            proof {
                assert forall|k: u64| k < 64 implies ((#[trigger] (bits >> k)) & 1 == 1 <==> tz + 1
                    <= k && (word >> k) & 1 == 1) by {
                    lemma_lowest_bit_cleared(prev, tz, k);
                    assert((prev >> k) & 1 == 1 <==> next <= k && (word >> k) & 1 == 1);
                    if k < tz {
                        assert((prev >> k) & 1 == 0);
                    }
                }
                next = tz + 1;
            }
            if self.passes(file_idx) {
                out.push(file_idx);
            }
        }
        proof {
            assert forall|i: int| base + next <= i < limit implies !self.keeps(i) by {
                let k = (i - base) as u64;
                assert((0u64 >> k) & 1 != 1) by (bit_vector);
                assert((word >> k) & 1 != 1);
            }
            self.lemma_kept_gap(base + next, limit);
        }
    }

    /// The positions of the files to be searched, ascending.
    pub fn collect(&self) -> (kept: Vec<usize>)
        requires
            self.complete(),
        ensures
            kept@ == self.kept_before(self.files@.len() as int),
    {
        let count: usize = self.files.len();
        let mut out: Vec<usize> = Vec::new();
        let mut idx: usize = 0;
        if let Some(candidates) = self.candidates {
            let boundary: usize = if self.base_count < count {
                self.base_count
            } else {
                count
            };
            let full_words: usize = boundary / 64;
            let last_word_bits: usize = boundary % 64;
            let mut word_idx: usize = 0;
            // Full words: every set bit lies before the boundary.
            while word_idx < full_words && word_idx < candidates.len()
                invariant
                    self.complete(),
                    self.candidates == Some(candidates),
                    boundary == self.boundary(),
                    boundary <= count,
                    full_words == boundary / 64,
                    word_idx <= full_words,
                    word_idx <= candidates.len(),
                    out@ == self.kept_before(word_idx * 64),
                decreases full_words - word_idx,
            {
                let base: usize = word_idx * 64;
                let word: u64 = candidates[word_idx];
                proof {
                    assert forall|k: u64| k < 64 implies ((#[trigger] (word >> k)) & 1 == 1 <==> base
                        + k < self.boundary() && bit_set(self.candidates->0@, base + k)) by {
                        assert((base + k) / 64 == word_idx && (base + k) % 64 == k);
                    }
                }
                self.scan_word(word, base, &mut out);
                word_idx += 1;
            }
            if word_idx < full_words {
                // A bitset that ends early names no file behind its end.
                proof {
                    assert forall|i: int| word_idx * 64 <= i < full_words * 64 implies !self.keeps(
                        i,
                    ) by {
                        assert(i / 64 >= word_idx);
                    }
                    self.lemma_kept_gap(word_idx * 64, full_words * 64);
                }
            }
            // Last partial word: mask the bits behind the boundary.
            if last_word_bits != 0 {
                let base: usize = full_words * 64;
                proof {
                    lemma_low_bits_masked(0, last_word_bits as u64, 0);
                }
                let last_mask: u64 = (1u64 << (last_word_bits as u64)) - 1;
                let word: u64 = candidates[full_words] & last_mask;
                proof {
                    let bits = last_word_bits as u64;
                    let raw = candidates@[full_words as int];
                    assert forall|k: u64| k < 64 implies ((#[trigger] (word >> k)) & 1 == 1 <==> base
                        + k < self.boundary() && bit_set(self.candidates->0@, base + k)) by {
                        lemma_low_bits_masked(raw, bits, k);
                        assert((base + k) / 64 == full_words && (base + k) % 64 == k);
                    }
                }
                self.scan_word(word, base, &mut out);
            }
            idx = boundary;
        }
        // Files that the index does not cover.
        while idx < count
            invariant
                self.complete(),
                count == self.files@.len(),
                idx <= count,
                self.candidates is Some ==> self.boundary() <= idx,
                out@ == self.kept_before(idx as int),
            decreases count - idx,
        {
            if self.passes(idx) {
                out.push(idx);
            }
            idx += 1;
        }
        out
    }
}

/// `x & (x - 1)` clears the lowest set bit of `x` and no other.
proof fn lemma_lowest_bit_cleared(x: u64, lowest: u64, k: u64)
    requires
        x != 0,
        lowest == u64_trailing_zeros(x),
        k < 64,
    ensures
        ((x & (x - 1) as u64) >> k) & 1 == 1 <==> k != lowest && (x >> k) & 1 == 1,
{
    axiom_u64_trailing_zeros(x);
    let shift: u64 = (64 - lowest) as u64;
    assert(((x & (x - 1) as u64) >> k) & 1 == 1 <==> k != lowest && (x >> k) & 1 == 1)
        by (bit_vector)
        requires
            x != 0,
            lowest < 64,
            k < 64,
            shift == 64 - lowest,
            (x >> lowest) & 1 == 1,
            x << shift == 0,
    ;
}

/// Masking with `2^bits - 1` keeps the bits below number `bits`.
proof fn lemma_low_bits_masked(raw: u64, bits: u64, k: u64)
    requires
        0 < bits < 64,
        k < 64,
    ensures
        (1u64 << bits) >= 1,
        ((raw & ((1u64 << bits) - 1) as u64) >> k) & 1 == 1 <==> k < bits && (raw >> k) & 1 == 1,
{
    assert((1u64 << bits) >= 1) by (bit_vector)
        requires
            0 < bits < 64,
    ;
    assert(((raw & ((1u64 << bits) - 1) as u64) >> k) & 1 == 1 <==> k < bits && (raw >> k) & 1
        == 1) by (bit_vector)
        requires
            0 < bits < 64,
            k < 64,
    ;
}

/// The files to be searched from `options.file_offset` of the search order on, and the number of
/// files to be searched over all pages.
pub fn prefilter_files<'a>(
    files: &'a [FileItem],
    admitted: Option<&[bool]>,
    bigram_candidates: Option<&[u64]>,
    base_count: usize,
    options: &GrepSearchOptions,
) -> (selected: (Vec<&'a FileItem>, usize))
    requires
        (FileFilter {
            files,
            admitted,
            candidates: bigram_candidates,
            base_count,
            max_file_size: options.max_file_size,
        }).complete(),
    ensures
        ({
            let filter = FileFilter {
                files,
                admitted,
                candidates: bigram_candidates,
                base_count,
                max_file_size: options.max_file_size,
            };
            &&& selected.1 == filter.ranked().len()
            &&& file_values(selected.0@) == filter.page(options.file_offset as int)
        }),
        options.file_offset == 0 ==> forall|i: int|
            {
                &&& 0 <= i < files@.len()
                &&& !files@[i].is_deleted
                &&& !files@[i].is_binary
                &&& files@[i].size > 0
                &&& files@[i].size <= options.max_file_size
                &&& admitted matches Some(list) ==> list@[i]
                &&& bigram_candidates matches Some(words) ==> i >= base_count || bit_set(words@, i)
            } ==> file_values(selected.0@).contains(#[trigger] files@[i]),
{
    let filter = FileFilter {
        files,
        admitted,
        candidates: bigram_candidates,
        base_count,
        max_file_size: options.max_file_size,
    };
    let kept: Vec<usize> = filter.collect();
    proof {
        filter.lemma_kept_before(files@.len() as int);
    }
    let ranked: Vec<usize> = rank_files(files, kept);
    let total_count: usize = ranked.len();
    let mut selected: Vec<&'a FileItem> = Vec::new();
    if options.file_offset >= total_count {
        assert(file_values(selected@) =~= filter.page(options.file_offset as int));
        proof {
            lemma_searchable_files_are_on_the_first_page(filter);
        }
        return (selected, total_count);
    }
    let mut i: usize = options.file_offset;
    while i < total_count
        invariant
            options.file_offset <= i <= total_count,
            total_count == ranked@.len(),
            positions_fit(ranked@, files@.len() as int),
            selected@.len() == i - options.file_offset,
            forall|k: int|
                0 <= k < selected@.len() ==> *(#[trigger] selected@[k])
                    == files@[ranked@[options.file_offset + k] as int],
        decreases total_count - i,
    {
        selected.push(&files[ranked[i]]);
        i += 1;
    }
    assert(file_values(selected@) =~= filter.page(options.file_offset as int));
    proof {
        lemma_searchable_files_are_on_the_first_page(filter);
    }
    (selected, total_count)
}

/// The page from the first file on holds every file that is to be searched.
proof fn lemma_searchable_files_are_on_the_first_page(filter: FileFilter)
    ensures
        forall|i: int|
            {
                &&& 0 <= i < filter.files@.len()
                &&& !filter.files@[i].is_deleted
                &&& !filter.files@[i].is_binary
                &&& filter.files@[i].size > 0
                &&& filter.files@[i].size <= filter.max_file_size
                &&& filter.admitted matches Some(list) ==> list@[i]
                &&& filter.candidates matches Some(words) ==> i >= filter.base_count || bit_set(
                    words@,
                    i,
                )
            } ==> filter.page(0).contains(#[trigger] filter.files@[i]),
{
    assert(filter.files.len() == filter.files@.len());
    assert forall|i: int|
        {
            &&& 0 <= i < filter.files@.len()
            &&& !filter.files@[i].is_deleted
            &&& !filter.files@[i].is_binary
            &&& filter.files@[i].size > 0
            &&& filter.files@[i].size <= filter.max_file_size
            &&& filter.admitted matches Some(list) ==> list@[i]
            &&& filter.candidates matches Some(words) ==> i >= filter.base_count || bit_set(
                words@,
                i,
            )
        } implies filter.page(0).contains(#[trigger] filter.files@[i]) by {
        law_searchable_files_are_chosen(filter, i as usize);
        let ranked = filter.ranked();
        let k = choose|k: int| 0 <= k < ranked.len() && ranked[k] == i as usize;
        law_page_holds_the_files_from_its_offset_on(filter, 0);
        assert(filter.page(0)[k] == filter.files@[i]);
    }
}

/// Files are searched in order: by frecency score, then by time of modification, latest first.
pub proof fn law_files_come_in_order(filter: FileFilter, offset: int, i: int, j: int)
    requires
        0 <= offset,
        0 <= i < j < filter.page(offset).len(),
    ensures
        ({
            let (a, b) = (filter.page(offset)[i], filter.page(offset)[j]);
            ||| a.total_frecency_score > b.total_frecency_score
            ||| a.total_frecency_score == b.total_frecency_score && a.modified >= b.modified
        }),
{
    lemma_ranking(filter.files@, filter.kept_before(filter.files@.len() as int));
    let ranked = filter.ranked();
    let order = rank_order(filter.files@);
    assert(sorted_by(ranked, order));
    assert(order(ranked[offset + i], ranked[offset + j]));
    assert(ranks_first(filter.files@, ranked[offset + i], ranked[offset + j]));
}

/// A file is among the files to be searched if and only if it is kept, and then once.
pub proof fn law_kept_files_are_listed_once(filter: FileFilter)
    ensures
        filter.ranked().no_duplicates(),
        forall|p: usize| #[trigger] filter.ranked().contains(p) <==> filter.keeps(p as int),
{
    broadcast use vstd::seq_lib::group_to_multiset_ensures;

    let kept = filter.kept_before(filter.files@.len() as int);
    filter.lemma_kept_before(filter.files@.len() as int);
    lemma_ranking(filter.files@, kept);
    let ranked = filter.ranked();
    assert(kept.no_duplicates());
    kept.lemma_multiset_has_no_duplicates();
    assert forall|p: usize| ranked.to_multiset().contains(p) implies ranked.to_multiset().count(p)
        == 1 by {
        assert(kept.to_multiset().contains(p));
    }
    ranked.lemma_multiset_has_no_duplicates_conv();
    assert forall|p: usize| #[trigger] ranked.contains(p) <==> filter.keeps(p as int) by {
        assert(ranked.contains(p) <==> kept.contains(p));
    }
}

/// Pages of files follow one another without a gap or an overlap: the files at a later offset are
/// those at an earlier one without the files in between.
pub proof fn law_file_pages_follow_one_another(filter: FileFilter, offset: int, consumed: int)
    requires
        0 <= offset,
        0 <= consumed <= filter.page(offset).len(),
    ensures
        filter.page(offset + consumed) == filter.page(offset).skip(consumed),
{
    assert(filter.page(offset + consumed) =~= filter.page(offset).skip(consumed));
}

/// A file that has changed since the index was built is not ruled out by the index where it may
/// match, and a deleted one that has not is.
pub proof fn law_index_is_corrected(
    filter: FileFilter,
    words: Seq<u64>,
    changes: OverlayChanges,
    i: int,
)
    requires
        filter.candidates matches Some(candidates) && changes.overlay(words, candidates@),
        0 <= i < filter.boundary(),
        i / 64 < words.len(),
    ensures
        lists_file(changes.modified@, i) ==> filter.index_passes(i),
        bit_set(changes.tombstones@, i) && !lists_file(changes.modified@, i)
            ==> !filter.index_passes(i),
{
}

/// An index only rules files out: it leaves no more files to be searched than there are without it.
pub proof fn law_index_leaves_no_more_files(indexed: FileFilter, plain: FileFilter)
    requires
        plain == (FileFilter { candidates: None, ..indexed }),
    ensures
        indexed.ranked().len() <= plain.ranked().len(),
        forall|p: usize| #[trigger]
            indexed.ranked().contains(p) ==> plain.ranked().contains(p),
{
    let end = indexed.files@.len() as int;
    lemma_fewer_kept(indexed, plain, end);
    lemma_ranking(indexed.files@, indexed.kept_before(end));
    lemma_ranking(plain.files@, plain.kept_before(end));
    law_kept_files_are_listed_once(indexed);
    law_kept_files_are_listed_once(plain);
}

proof fn lemma_fewer_kept(indexed: FileFilter, plain: FileFilter, end: int)
    requires
        plain == (FileFilter { candidates: None, ..indexed }),
    ensures
        indexed.kept_before(end).len() <= plain.kept_before(end).len(),
    decreases end,
{
    if end > 0 {
        lemma_fewer_kept(indexed, plain, end - 1);
    }
}

/// The index has no say in files that it does not cover.
pub proof fn law_new_files_are_always_searched(filter: FileFilter, i: int)
    requires
        filter.base_count <= i < filter.files@.len(),
        !filter.files@[i].is_deleted,
        !filter.files@[i].is_binary,
        0 < filter.files@[i].size <= filter.max_file_size,
        filter.admitted is Some ==> filter.admitted->0@[i],
    ensures
        filter.keeps(i),
        filter.ranked().contains(i as usize),
{
    assert(filter.files.len() == filter.files@.len());
    law_kept_files_are_listed_once(filter);
    assert(filter.ranked().contains(i as usize) <==> filter.keeps(i as usize as int));
}

/// The files to be searched are exactly those that are there, hold text, and are neither empty nor
/// too large, that the constraints admit, and that the index, where it covers them, did not rule
/// out. Nothing else about a file matters.
pub proof fn law_searchable_files_are_chosen(filter: FileFilter, i: usize)
    ensures
        filter.ranked().contains(i) <==> {
            &&& i < filter.files@.len()
            &&& !filter.files@[i as int].is_deleted
            &&& !filter.files@[i as int].is_binary
            &&& filter.files@[i as int].size > 0
            &&& filter.files@[i as int].size <= filter.max_file_size
            &&& filter.admitted matches Some(admitted) ==> admitted@[i as int]
            &&& filter.candidates matches Some(words) ==> i >= filter.base_count || bit_set(
                words@,
                i as int,
            )
        },
{
    law_kept_files_are_listed_once(filter);
    assert(filter.ranked().contains(i) <==> filter.keeps(i as int));
}

/// A page of files holds all files to be searched from its offset on, in the order of the search.
pub proof fn law_page_holds_the_files_from_its_offset_on(filter: FileFilter, offset: int)
    requires
        0 <= offset,
    ensures
        filter.page(offset).len() == if offset < filter.ranked().len() {
            filter.ranked().len() - offset
        } else {
            0
        },
        forall|k: int|
            0 <= k < filter.page(offset).len() ==> #[trigger] filter.page(offset)[k]
                == filter.files@[filter.ranked()[offset + k] as int],
{
}

/// Where file number `a` stands in the search order before file number `b`, it has the higher
/// frecency score, or the same and was modified no earlier.
pub proof fn law_search_order_is_by_frecency_then_time(filter: FileFilter, a: int, b: int)
    requires
        0 <= a < b < filter.ranked().len(),
    ensures
        ({
            let (x, y) = (
                filter.files@[filter.ranked()[a] as int],
                filter.files@[filter.ranked()[b] as int],
            );
            ||| x.total_frecency_score > y.total_frecency_score
            ||| x.total_frecency_score == y.total_frecency_score && x.modified >= y.modified
        }),
{
    lemma_ranking(filter.files@, filter.kept_before(filter.files@.len() as int));
    let order = rank_order(filter.files@);
    assert(order(filter.ranked()[a], filter.ranked()[b]));
    assert(ranks_first(filter.files@, filter.ranked()[a], filter.ranked()[b]));
}

} // verus!
