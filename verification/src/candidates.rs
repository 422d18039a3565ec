//! Bitsets of files that an index could not rule out.
use vstd::prelude::*;

verus! {

/// Bit number `i` of a bitset of 64-bit words is set.
pub open spec fn bit_set(words: Seq<u64>, i: int) -> bool {
    0 <= i && i / 64 < words.len() && (words[i / 64] >> ((i % 64) as u64)) & 1 == 1
}

/// The list of file positions holds `i`.
pub open spec fn lists_file(files: Seq<usize>, i: int) -> bool {
    exists|k: int| 0 <= k < files.len() && #[trigger] files[k] == i
}

/// One of the lists of file positions holds `i`.
pub open spec fn any_lists_file(lists: Seq<Vec<usize>>, i: int) -> bool {
    exists|k: int| 0 <= k < lists.len() && lists_file((#[trigger] lists[k])@, i)
}

/// One of the bitsets that are there has bit number `i` set.
pub open spec fn any_bit_set(bitsets: Seq<Option<Vec<u64>>>, i: int) -> bool {
    exists|k: int|
        0 <= k < bitsets.len() && (#[trigger] bitsets[k]) is Some && bit_set(bitsets[k]->0@, i)
}

/// What has changed since the index was built.
#[derive(Debug, Clone)]
pub struct OverlayChanges {
    /// Bitset of the indexed files that have been deleted.
    pub tombstones: Vec<u64>,
    /// Positions of the changed files that may match.
    pub modified: Vec<usize>,
}

impl OverlayChanges {
    /// `result` is the bitset `words` with these changes made: deleted files are out, changed
    /// files that may match are in, as far as the bitset reaches.
    pub open spec fn overlay(&self, words: Seq<u64>, result: Seq<u64>) -> bool {
        &&& result.len() == words.len()
        &&& forall|i: int| #[trigger]
            bit_set(result, i) <==> (bit_set(words, i) && !bit_set(self.tombstones@, i)) || (i / 64
                < words.len() && lists_file(self.modified@, i))
    }
}

proof fn lemma_or_bit(a: u64, b: u64, k: u64)
    ensures
        ((a | b) >> k) & 1 == 1 <==> (a >> k) & 1 == 1 || (b >> k) & 1 == 1,
{
    assert(((a | b) >> k) & 1 == 1 <==> (a >> k) & 1 == 1 || (b >> k) & 1 == 1) by (bit_vector);
}

proof fn lemma_no_bit_of_zero(k: u64)
    ensures
        (0u64 >> k) & 1 != 1,
{
    assert((0u64 >> k) & 1 != 1) by (bit_vector);
}

proof fn lemma_and_not_bit(a: u64, b: u64, k: u64)
    requires
        k < 64,
    ensures
        ((a & !b) >> k) & 1 == 1 <==> (a >> k) & 1 == 1 && (b >> k) & 1 != 1,
{
    assert(((a & !b) >> k) & 1 == 1 <==> (a >> k) & 1 == 1 && (b >> k) & 1 != 1) by (bit_vector)
        requires
            k < 64,
    ;
}

proof fn lemma_set_bit(a: u64, j: u64, k: u64)
    requires
        j < 64,
        k < 64,
    ensures
        ((a | (1u64 << j)) >> k) & 1 == 1 <==> (a >> k) & 1 == 1 || j == k,
{
    assert(((a | (1u64 << j)) >> k) & 1 == 1 <==> (a >> k) & 1 == 1 || j == k) by (bit_vector)
        requires
            j < 64,
            k < 64,
    ;
}

/// Sets the bits of `acc` that are set in `other`. The bitset reaches as far as the longer one.
pub fn unite_bits(acc: &mut Vec<u64>, other: &[u64])
    ensures
        final(acc)@.len() == if old(acc)@.len() < other@.len() {
            other@.len()
        } else {
            old(acc)@.len()
        },
        forall|i: int| #[trigger]
            bit_set(final(acc)@, i) <==> bit_set(old(acc)@, i) || bit_set(other@, i),
{
    let ghost before = acc@;
    while acc.len() < other.len()
        invariant
            before.len() <= acc@.len(),
            acc@.len() <= before.len() || acc@.len() <= other@.len(),
            forall|v: int| 0 <= v < before.len() ==> #[trigger] acc@[v] == before[v],
            forall|v: int| before.len() <= v < acc@.len() ==> #[trigger] acc@[v] == 0,
        decreases other.len() - acc.len(),
    {
        acc.push(0);
    }
    let ghost longer = acc@;
    let mut w: usize = 0;
    while w < other.len()
        invariant
            acc@.len() == longer.len(),
            other@.len() <= acc@.len(),
            w <= other.len(),
            forall|v: int| 0 <= v < w ==> #[trigger] acc@[v] == longer[v] | other@[v],
            forall|v: int| w <= v < acc@.len() ==> #[trigger] acc@[v] == longer[v],
        decreases other.len() - w,
    {
        let word: u64 = acc[w] | other[w];
        acc[w] = word;
        w += 1;
    }
    assert forall|i: int| #[trigger] bit_set(acc@, i) <==> bit_set(before, i) || bit_set(
        other@,
        i,
    ) by {
        assert(bit_set(longer, i) <==> bit_set(before, i)) by {
            if 0 <= i && before.len() <= i / 64 && i / 64 < longer.len() {
                lemma_no_bit_of_zero((i % 64) as u64);
            }
        }
        if 0 <= i && i / 64 < other@.len() {
            lemma_or_bit(longer[i / 64], other@[i / 64], (i % 64) as u64);
        }
    }
}

/// Clears the bits of `acc` that are set in `cleared`.
pub fn remove_bits(acc: &mut Vec<u64>, cleared: &[u64])
    ensures
        final(acc)@.len() == old(acc)@.len(),
        forall|i: int| #[trigger]
            bit_set(final(acc)@, i) <==> bit_set(old(acc)@, i) && !bit_set(cleared@, i),
{
    let ghost before = acc@;
    let mut w: usize = 0;
    while w < acc.len() && w < cleared.len()
        invariant
            acc@.len() == before.len(),
            w <= acc.len(),
            w <= cleared.len(),
            forall|v: int| 0 <= v < w ==> #[trigger] acc@[v] == before[v] & !cleared@[v],
            forall|v: int| w <= v < acc.len() ==> #[trigger] acc@[v] == before[v],
        decreases acc.len() - w,
    {
        let word: u64 = acc[w] & !cleared[w];
        acc[w] = word;
        w += 1;
    }
    assert forall|i: int| #[trigger] bit_set(acc@, i) <==> bit_set(before, i) && !bit_set(
        cleared@,
        i,
    ) by {
        if 0 <= i && i / 64 < before.len() && i / 64 < cleared@.len() {
            lemma_and_not_bit(before[i / 64], cleared@[i / 64], (i % 64) as u64);
        }
    }
}

/// Sets the bits of the listed files, as far as `acc` reaches.
pub fn add_files(acc: &mut Vec<u64>, files: &[usize])
    ensures
        final(acc)@.len() == old(acc)@.len(),
        forall|i: int| #[trigger]
            bit_set(final(acc)@, i) <==> bit_set(old(acc)@, i) || (i / 64 < old(acc)@.len()
                && lists_file(files@, i)),
{
    let ghost before = acc@;
    let mut k: usize = 0;
    while k < files.len()
        invariant
            acc@.len() == before.len(),
            k <= files.len(),
            forall|i: int| #[trigger]
                bit_set(acc@, i) <==> bit_set(before, i) || (i / 64 < before.len() && lists_file(
                    files@.take(k as int),
                    i,
                )),
        decreases files.len() - k,
    {
        let ghost so_far = acc@;
        let file_idx: usize = files[k];
        let word: usize = file_idx / 64;
        if word < acc.len() {
            let bits: u64 = acc[word] | (1u64 << ((file_idx % 64) as u64));
            acc[word] = bits;
        }
        proof {
            let fewer = files@.take(k as int);
            let more = files@.take(k + 1);
            assert forall|i: int| #[trigger] lists_file(more, i) <==> lists_file(fewer, i) || i
                == file_idx by {
                if lists_file(fewer, i) {
                    let n = choose|n: int| 0 <= n < fewer.len() && #[trigger] fewer[n] == i;
                    assert(more[n] == i);
                }
                if lists_file(more, i) {
                    let n = choose|n: int| 0 <= n < more.len() && #[trigger] more[n] == i;
                    if n < k {
                        assert(fewer[n] == i);
                    }
                }
                assert(more[k as int] == file_idx);
            }
            assert forall|i: int| #[trigger] bit_set(acc@, i) <==> bit_set(before, i) || (i / 64
                < before.len() && lists_file(more, i)) by {
                assert(bit_set(so_far, i) <==> bit_set(before, i) || (i / 64 < before.len()
                    && lists_file(fewer, i)));
                if 0 <= i && i / 64 == word && word < acc@.len() {
                    lemma_set_bit(
                        so_far[word as int],
                        (file_idx % 64) as u64,
                        (i % 64) as u64,
                    );
                }
            }
        }
        k += 1;
    }
    assert(files@.take(k as int) =~= files@);
}

/// What an index answers.
#[derive(Debug, Clone)]
pub struct IndexAnswer {
    /// Bitset of the files that the index cannot rule out. `None` where there is no index, or
    /// where it cannot rule out any file.
    pub raw: Option<Vec<u64>>,
    /// What has changed since the index was built, if that is recorded.
    pub overlay: Option<OverlayChanges>,
}

impl IndexAnswer {
    /// `candidates` is what the answer comes to once the changes since the index was built are
    /// taken into account.
    pub open spec fn gives(&self, candidates: Option<Vec<u64>>) -> bool {
        match (self.raw, self.overlay) {
            (None, _) => candidates is None,
            (Some(_), None) => candidates == self.raw,
            (Some(words), Some(changes)) => candidates matches Some(result) && changes.overlay(
                words@,
                result@,
            ),
        }
    }
}

/// The candidates of one pattern once the changes since the index was built are taken into
/// account: deleted files are out, changed files that may match are in.
pub fn overlaid_candidates(answer: IndexAnswer) -> (candidates: Option<Vec<u64>>)
    ensures
        answer.gives(candidates),
{
    match answer.raw {
        None => None,
        Some(words) => match answer.overlay {
            None => Some(words),
            Some(changes) => {
                let mut words = words;
                remove_bits(&mut words, changes.tombstones.as_slice());
                add_files(&mut words, changes.modified.as_slice());
                Some(words)
            },
        },
    }
}

/// What an index answers for each of several patterns.
#[derive(Debug, Clone)]
pub struct MultiIndexAnswer {
    /// For each pattern, a bitset of the files that the index cannot rule out; `None` for a
    /// pattern of which it can say nothing. Empty where there is no index.
    pub per_pattern: Vec<Option<Vec<u64>>>,
    /// For each pattern, the positions of the files that have changed since the index was built
    /// and may match, if that is recorded.
    pub modified: Option<Vec<Vec<usize>>>,
}

/// The index has an answer for each of the patterns.
pub open spec fn all_answered(bitsets: Seq<Option<Vec<u64>>>) -> bool {
    bitsets.len() > 0 && forall|k: int|
        0 <= k < bitsets.len() ==> (#[trigger] bitsets[k]) is Some
}

/// `len` is the length of the longest bitset.
pub open spec fn is_longest(bitsets: Seq<Option<Vec<u64>>>, len: nat) -> bool {
    &&& forall|k: int|
        0 <= k < bitsets.len() && (#[trigger] bitsets[k]) is Some ==> bitsets[k]->0@.len() <= len
    &&& exists|k: int|
        0 <= k < bitsets.len() && (#[trigger] bitsets[k]) is Some && bitsets[k]->0@.len() == len
}

impl MultiIndexAnswer {
    /// `candidates` is what the answer comes to: a file is a candidate if it is one for any of
    /// the patterns, or has changed in a way that may match. Where the index can say nothing of
    /// one of the patterns, no file is ruled out.
    pub open spec fn gives(&self, candidates: Option<Vec<u64>>) -> bool {
        match candidates {
            None => !all_answered(self.per_pattern@),
            Some(words) => {
                &&& all_answered(self.per_pattern@)
                &&& is_longest(self.per_pattern@, words@.len())
                &&& forall|i: int| #[trigger]
                    bit_set(words@, i) <==> any_bit_set(self.per_pattern@, i) || (0 <= i && i / 64
                        < words@.len() && self.modified is Some && any_lists_file(
                        self.modified->0@,
                        i,
                    ))
            },
        }
    }
}

/// The union of the bitsets that are there, if each of them is.
fn united_bitsets(bitsets: &[Option<Vec<u64>>]) -> (united: Option<Vec<u64>>)
    ensures
        match united {
            None => !all_answered(bitsets@),
            Some(words) => {
                &&& all_answered(bitsets@)
                &&& is_longest(bitsets@, words@.len())
                &&& forall|i: int| #[trigger] bit_set(words@, i) <==> any_bit_set(bitsets@, i)
            },
        },
{
    if bitsets.len() == 0 {
        return None;
    }
    let mut united: Vec<u64> = Vec::new();
    let mut k: usize = 0;
    while k < bitsets.len()
        invariant
            k <= bitsets.len(),
            forall|j: int| 0 <= j < k ==> (#[trigger] bitsets@[j]) is Some,
            forall|j: int| 0 <= j < k ==> (#[trigger] bitsets@[j])->0@.len() <= united@.len(),
            k > 0 ==> exists|j: int|
                0 <= j < k && (#[trigger] bitsets@[j])->0@.len() == united@.len(),
            k == 0 ==> united@.len() == 0,
            forall|i: int| #[trigger]
                bit_set(united@, i) <==> any_bit_set(bitsets@.take(k as int), i),
        decreases bitsets.len() - k,
    {
        let ghost fewer = bitsets@.take(k as int);
        let ghost more = bitsets@.take(k + 1);
        let ghost so_far = united@;
        match &bitsets[k] {
            None => {
                assert(bitsets@[k as int] is None);
                return None;
            },
            Some(words) => {
                unite_bits(&mut united, words.as_slice());
                proof {
                    assert(bitsets@[k as int] == Some(*words));
                    assert forall|i: int| #[trigger] bit_set(united@, i) <==> any_bit_set(
                        more,
                        i,
                    ) by {
                        assert(bit_set(so_far, i) <==> any_bit_set(fewer, i));
                        if any_bit_set(fewer, i) {
                            let n = choose|n: int|
                                0 <= n < fewer.len() && (#[trigger] fewer[n]) is Some && bit_set(
                                    fewer[n]->0@,
                                    i,
                                );
                            assert(more[n] == fewer[n]);
                        }
                        if any_bit_set(more, i) {
                            let n = choose|n: int|
                                0 <= n < more.len() && (#[trigger] more[n]) is Some && bit_set(
                                    more[n]->0@,
                                    i,
                                );
                            if n < k {
                                assert(fewer[n] == more[n]);
                            }
                        }
                        assert(more[k as int] == bitsets@[k as int]);
                    }
                    if united@.len() == words@.len() {
                        assert(bitsets@[k as int]->0@.len() == united@.len());
                    } else {
                        let j = choose|j: int|
                            0 <= j < k && (#[trigger] bitsets@[j])->0@.len() == so_far.len();
                        assert(bitsets@[j]->0@.len() == united@.len());
                    }
                }
            },
        }
        k += 1;
    }
    assert(bitsets@.take(k as int) =~= bitsets@);
    Some(united)
}

/// The candidates of several patterns: a file is one if it is one for any of the patterns, or
/// has changed in a way that may match. Where the index can say nothing of one of the patterns,
/// nothing is ruled out.
pub fn combined_candidates(answer: &MultiIndexAnswer) -> (candidates: Option<Vec<u64>>)
    ensures
        answer.gives(candidates),
{
    match (united_bitsets(answer.per_pattern.as_slice()), &answer.modified) {
        (Some(words), Some(lists)) => {
            let mut words = words;
            let ghost before = words@;
            let mut n: usize = 0;
            while n < lists.len()
                invariant
                    n <= lists.len(),
                    words@.len() == before.len(),
                    forall|i: int| #[trigger]
                        bit_set(words@, i) <==> bit_set(before, i) || (i / 64 < before.len()
                            && any_lists_file(lists@.take(n as int), i)),
                decreases lists.len() - n,
            {
                let ghost so_far = words@;
                add_files(&mut words, lists[n].as_slice());
                proof {
                    let fewer = lists@.take(n as int);
                    let more = lists@.take(n + 1);
                    assert forall|i: int| #[trigger] bit_set(words@, i) <==> bit_set(before, i) || (
                    i / 64 < before.len() && any_lists_file(more, i)) by {
                        assert(bit_set(so_far, i) <==> bit_set(before, i) || (i / 64
                            < before.len() && any_lists_file(fewer, i)));
                        if any_lists_file(fewer, i) {
                            let m = choose|m: int|
                                0 <= m < fewer.len() && lists_file((#[trigger] fewer[m])@, i);
                            assert(more[m] == fewer[m]);
                        }
                        if any_lists_file(more, i) {
                            let m = choose|m: int|
                                0 <= m < more.len() && lists_file((#[trigger] more[m])@, i);
                            if m < n {
                                assert(fewer[m] == more[m]);
                            }
                        }
                        assert(more[n as int] == lists@[n as int]);
                    }
                }
                n += 1;
            }
            assert(lists@.take(n as int) =~= lists@);
            assert forall|i: int| #[trigger] bit_set(words@, i) <==> bit_set(before, i) || (0 <= i
                && i / 64 < words@.len() && any_lists_file(lists@, i)) by {
                if any_lists_file(lists@, i) {
                    let m = choose|m: int|
                        0 <= m < lists@.len() && lists_file((#[trigger] lists@[m])@, i);
                    assert(0 <= i);
                }
            }
            Some(words)
        },
        (united, _) => united,
    }
}

/// A search for any of several patterns keeps every file that one of them may match: neither the
/// answer for another pattern nor the lack of one rules it out.
pub proof fn law_no_pattern_rules_out_for_another(
    answer: MultiIndexAnswer,
    candidates: Option<Vec<u64>>,
    k: int,
    i: int,
)
    requires
        answer.gives(candidates),
        0 <= k < answer.per_pattern@.len(),
        answer.per_pattern@[k] matches Some(words) ==> bit_set(words@, i),
    ensures
        candidates matches Some(united) ==> bit_set(united@, i),
{
}

/// Bit number `i` is the one with weight `2^(i % 64)` of word number `i / 64`.
pub proof fn law_bits_are_numbered_from_the_lowest(words: Seq<u64>, i: int)
    requires
        0 <= i,
    ensures
        bit_set(words, i) <==> i / 64 < words.len() && words[i / 64] & (1u64 << ((i % 64) as u64))
            != 0,
{
    if i / 64 < words.len() {
        let word = words[i / 64];
        let k = (i % 64) as u64;
        assert((word >> k) & 1 == 1 <==> word & (1u64 << k) != 0) by (bit_vector)
            requires
                k < 64,
        ;
    }
}

/// What an index comes to once the changes since it was built are taken into account: without an
/// answer no file is ruled out; otherwise, as far as the answer reaches, a file is a candidate if
/// it has changed and may match, or if the index named it and it has not been deleted.
pub proof fn law_candidates_are_the_corrected_answer(
    answer: IndexAnswer,
    candidates: Option<Vec<u64>>,
    i: int,
)
    requires
        answer.gives(candidates),
    ensures
        candidates is None <==> answer.raw is None,
        candidates matches Some(result) ==> {
            let words = answer.raw->0@;
            &&& result@.len() == words.len()
            &&& bit_set(result@, i) <==> match answer.overlay {
                None => bit_set(words, i),
                Some(changes) => {
                    ||| bit_set(words, i) && !bit_set(changes.tombstones@, i)
                    ||| i / 64 < words.len() && exists|k: int|
                        0 <= k < changes.modified@.len() && #[trigger] changes.modified@[k] == i
                },
            }
        },
{
    if let Some(result) = candidates {
        assert(bit_set(result@, i) == bit_set(result@, i));
    }
}

/// What an index comes to for any of several patterns: nothing is ruled out unless it has an answer
/// for each of them; otherwise a file is a candidate if the index named it for some pattern, or if
/// it has changed and may match some pattern, as far as the longest answer reaches.
pub proof fn law_candidates_of_several_patterns_are_united(
    answer: MultiIndexAnswer,
    candidates: Option<Vec<u64>>,
    i: int,
)
    requires
        answer.gives(candidates),
    ensures
        candidates is None <==> answer.per_pattern@.len() == 0 || exists|k: int|
            0 <= k < answer.per_pattern@.len() && (#[trigger] answer.per_pattern@[k]) is None,
        candidates matches Some(words) ==> {
            &&& forall|k: int|
                0 <= k < answer.per_pattern@.len() ==> (
                #[trigger] answer.per_pattern@[k])->0@.len() <= words@.len()
            &&& exists|k: int|
                0 <= k < answer.per_pattern@.len() && (
                #[trigger] answer.per_pattern@[k])->0@.len() == words@.len()
            &&& bit_set(words@, i) <==> {
                ||| exists|k: int|
                    0 <= k < answer.per_pattern@.len() && bit_set(
                        (#[trigger] answer.per_pattern@[k])->0@,
                        i,
                    )
                ||| 0 <= i && i / 64 < words@.len() && answer.modified is Some && exists|
                    k: int,
                    n: int,
                |
                    0 <= k < answer.modified->0@.len() && 0 <= n
                        < answer.modified->0@[k]@.len() && #[trigger] answer.modified->0@[k]@[n] == i
            }
        },
{
    if let Some(words) = candidates {
        let lists = answer.modified->0@;
        assert(bit_set(words@, i) == bit_set(words@, i));
        if any_lists_file(lists, i) {
            let k = choose|k: int| 0 <= k < lists.len() && lists_file((#[trigger] lists[k])@, i);
            let n = choose|n: int| 0 <= n < lists[k]@.len() && #[trigger] lists[k]@[n] == i;
            assert(lists[k]@[n] == i);
        }
        if exists|k: int, n: int|
            0 <= k < lists.len() && 0 <= n < lists[k]@.len() && #[trigger] lists[k]@[n] == i {
            let (k, n) = choose|k: int, n: int|
                0 <= k < lists.len() && 0 <= n < lists[k]@.len() && #[trigger] lists[k]@[n] == i;
            assert(lists_file(lists[k]@, i));
        }
    }
}

} // verus!
