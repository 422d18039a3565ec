//! Literal substring search, with and without regard to ASCII case.
use vstd::prelude::*;

verus! {

/// An ASCII capital letter's small letter; any other byte itself.
pub open spec fn ascii_lower(byte: u8) -> u8 {
    if 0x41 <= byte <= 0x5a {
        (byte + 0x20) as u8
    } else {
        byte
    }
}

/// `bytes` with every ASCII capital letter made small.
pub open spec fn lowered(bytes: Seq<u8>) -> Seq<u8> {
    bytes.map_values(|b: u8| ascii_lower(b))
}

/// The bytes that a needle is compared with: the haystack itself, or, for a search without
/// regard to case, its lowered form.
pub open spec fn folded(haystack: Seq<u8>, case_insensitive: bool) -> Seq<u8> {
    if case_insensitive {
        lowered(haystack)
    } else {
        haystack
    }
}

/// `needle` stands in `haystack` at position `at`.
pub open spec fn occurs_at(haystack: Seq<u8>, needle: Seq<u8>, at: int) -> bool {
    0 <= at && at + needle.len() <= haystack.len() && haystack.subrange(at, at + needle.len())
        == needle
}

/// `found` is the first position at which `needle` stands in `haystack`, or `None` where it
/// stands nowhere.
pub open spec fn is_first_occurrence(
    haystack: Seq<u8>,
    needle: Seq<u8>,
    found: Option<usize>,
) -> bool {
    match found {
        Some(at) => occurs_at(haystack, needle, at as int) && forall|i: int|
            0 <= i < at ==> !occurs_at(haystack, needle, i),
        None => forall|i: int| !occurs_at(haystack, needle, i),
    }
}

/// `memchr::memchr`: the first position that holds the byte.
pub assume_specification[ memchr::memchr ](needle: u8, haystack: &[u8]) -> (found: Option<usize>)
    ensures
        match found {
            Some(at) => at < haystack@.len() && haystack@[at as int] == needle && forall|i: int|
                0 <= i < at ==> haystack@[i] != needle,
            None => forall|i: int| 0 <= i < haystack@.len() ==> haystack@[i] != needle,
        },
;

/// `memchr::memrchr`: the last position that holds the byte.
pub assume_specification[ memchr::memrchr ](needle: u8, haystack: &[u8]) -> (found: Option<usize>)
    ensures
        match found {
            Some(at) => at < haystack@.len() && haystack@[at as int] == needle && forall|i: int|
                at < i < haystack@.len() ==> haystack@[i] != needle,
            None => forall|i: int| 0 <= i < haystack@.len() ==> haystack@[i] != needle,
        },
;

/// `memchr::memmem::find`: the first position at which the needle stands; an empty needle
/// stands at the start.
pub assume_specification[ memchr::memmem::find ](haystack: &[u8], needle: &[u8]) -> (found: Option<
    usize,
>)
    ensures
        is_first_occurrence(haystack@, needle@, found),
;

/// An ASCII capital letter's small letter; any other byte unchanged.
pub fn to_ascii_lower(byte: u8) -> (low: u8)
    ensures
        low == ascii_lower(byte),
{
    if 0x41 <= byte && byte <= 0x5a {
        byte + 0x20
    } else {
        byte
    }
}

/// A copy of `bytes` with every ASCII capital letter made small.
pub fn to_ascii_lowercase(bytes: &[u8]) -> (low: Vec<u8>)
    ensures
        low@ == lowered(bytes@),
{
    let mut low: Vec<u8> = Vec::with_capacity(bytes.len());
    let mut i: usize = 0;
    while i < bytes.len()
        invariant
            i <= bytes.len(),
            low@ == lowered(bytes@.take(i as int)),
        decreases bytes.len() - i,
    {
        low.push(to_ascii_lower(bytes[i]));
        assert(low@ =~= lowered(bytes@.take(i + 1)));
        i += 1;
    }
    assert(bytes@.take(i as int) == bytes@);
    low
}

/// Whether the lowered haystack holds `needle` at position `at`.
fn lowered_window_equals(haystack: &[u8], at: usize, needle: &[u8]) -> (equal: bool)
    requires
        at + needle@.len() <= haystack@.len(),
    ensures
        equal == occurs_at(lowered(haystack@), needle@, at as int),
{
    let ghost low = lowered(haystack@);
    let mut i: usize = 0;
    while i < needle.len()
        invariant
            i <= needle.len(),
            at + needle.len() <= haystack.len(),
            low == lowered(haystack@),
            forall|j: int| 0 <= j < i ==> low[at + j] == needle@[j],
        decreases needle.len() - i,
    {
        if to_ascii_lower(haystack[at + i]) != needle[i] {
            assert(low[at + i] != needle@[i as int]);
            assert(low.subrange(at as int, at + needle@.len())[i as int] == low[at + i]);
            return false;
        }
        i += 1;
    }
    assert(low.subrange(at as int, at + needle@.len()) =~= needle@);
    true
}

/// The first position at which the lowered haystack holds `needle_lower`.
pub fn find_lowered(haystack: &[u8], needle_lower: &[u8]) -> (found: Option<usize>)
    ensures
        is_first_occurrence(lowered(haystack@), needle_lower@, found),
{
    if needle_lower.len() > haystack.len() {
        return None;
    }
    let last: usize = haystack.len() - needle_lower.len();
    let mut at: usize = 0;
    while at <= last
        invariant
            last + needle_lower@.len() == haystack@.len(),
            at <= last + 1,
            forall|i: int| 0 <= i < at ==> !occurs_at(lowered(haystack@), needle_lower@, i),
        decreases last + 1 - at,
    {
        if lowered_window_equals(haystack, at, needle_lower) {
            return Some(at);
        }
        if at == last {
            return None;
        }
        at += 1;
    }
    None
}

/// The first position at which `needle` stands in the haystack, or, for a search without regard
/// to case, in its lowered form.
pub fn find_needle(haystack: &[u8], needle: &[u8], case_insensitive: bool) -> (found: Option<usize>)
    ensures
        is_first_occurrence(folded(haystack@, case_insensitive), needle@, found),
{
    if case_insensitive {
        find_lowered(haystack, needle)
    } else {
        memchr::memmem::find(haystack, needle)
    }
}

/// Every position before `end` at which `needle` stands in `haystack`, in ascending order.
/// Occurrences that overlap are all listed.
pub open spec fn occurrences_before(haystack: Seq<u8>, needle: Seq<u8>, end: int) -> Seq<int>
    decreases end,
{
    if end <= 0 {
        Seq::empty()
    } else if occurs_at(haystack, needle, end - 1) {
        occurrences_before(haystack, needle, end - 1).push(end - 1)
    } else {
        occurrences_before(haystack, needle, end - 1)
    }
}

/// Every position at which `needle` stands in `haystack`, in ascending order.
pub open spec fn occurrences(haystack: Seq<u8>, needle: Seq<u8>) -> Seq<int> {
    occurrences_before(haystack, needle, haystack.len() as int)
}

/// A stretch without an occurrence adds nothing to the list of occurrences.
pub proof fn lemma_occurrences_gap(haystack: Seq<u8>, needle: Seq<u8>, from: int, to: int)
    requires
        0 <= from <= to,
        forall|i: int| from <= i < to ==> !occurs_at(haystack, needle, i),
    ensures
        occurrences_before(haystack, needle, to) == occurrences_before(haystack, needle, from),
    decreases to - from,
{
    if from < to {
        lemma_occurrences_gap(haystack, needle, from, to - 1);
        assert(!occurs_at(haystack, needle, to - 1));
    }
}

/// A search that starts at `from` sees an occurrence exactly where the whole haystack has one.
pub proof fn lemma_occurs_in_suffix(haystack: Seq<u8>, needle: Seq<u8>, from: int, at: int)
    requires
        0 <= from <= haystack.len(),
        0 <= at,
    ensures
        occurs_at(haystack.skip(from), needle, at) == occurs_at(haystack, needle, from + at),
{
    if from + at + needle.len() <= haystack.len() {
        assert(haystack.skip(from).subrange(at, at + needle.len()) =~= haystack.subrange(
            from + at,
            from + at + needle.len(),
        ));
    }
}

/// Taking a part of a haystack and lowering it commute.
pub proof fn lemma_folded_subrange(haystack: Seq<u8>, case_insensitive: bool, from: int, to: int)
    requires
        0 <= from <= to <= haystack.len(),
    ensures
        folded(haystack.subrange(from, to), case_insensitive) == folded(
            haystack,
            case_insensitive,
        ).subrange(from, to),
{
    assert(folded(haystack.subrange(from, to), case_insensitive) =~= folded(
        haystack,
        case_insensitive,
    ).subrange(from, to));
}

/// The list of occurrences is ascending and holds a position if and only if the needle stands
/// there.
pub proof fn law_occurrences_are_complete(haystack: Seq<u8>, needle: Seq<u8>, end: int)
    requires
        0 <= end,
    ensures
        forall|i: int, j: int|
            0 <= i < j < occurrences_before(haystack, needle, end).len() ==> occurrences_before(
                haystack,
                needle,
                end,
            )[i] < occurrences_before(haystack, needle, end)[j],
        forall|at: int|
            #[trigger] occurrences_before(haystack, needle, end).contains(at) <==> (0 <= at < end
                && occurs_at(haystack, needle, at)),
    decreases end,
{
    if end > 0 {
        law_occurrences_are_complete(haystack, needle, end - 1);
        let before = occurrences_before(haystack, needle, end - 1);
        let all = occurrences_before(haystack, needle, end);
        assert forall|i: int| 0 <= i < before.len() implies #[trigger] before[i] < end - 1 by {
            assert(before.contains(before[i]));
        }
        assert forall|at: int| #[trigger] all.contains(at) <==> (0 <= at < end && occurs_at(
            haystack,
            needle,
            at,
        )) by {
            if occurs_at(haystack, needle, end - 1) {
                assert(all == before.push(end - 1));
                assert(all[before.len() as int] == end - 1);
                if before.contains(at) {
                    let k = choose|k: int| 0 <= k < before.len() && before[k] == at;
                    assert(all[k] == at);
                }
                if all.contains(at) {
                    let k = choose|k: int| 0 <= k < all.len() && all[k] == at;
                    if k < before.len() {
                        assert(before[k] == at);
                    }
                }
                assert(all.contains(at) <==> before.contains(at) || at == end - 1);
            }
        }
    }
}

/// A search without regard to case for a lowered pattern finds exactly the places where the
/// haystack equals the pattern but for the case of ASCII letters.
pub proof fn law_lowered_search_ignores_ascii_case(haystack: Seq<u8>, pattern: Seq<u8>, at: int)
    ensures
        occurs_at(folded(haystack, true), lowered(pattern), at) <==> (0 <= at && at + pattern.len()
            <= haystack.len() && forall|i: int|
            0 <= i < pattern.len() ==> ascii_lower(#[trigger] haystack[at + i]) == ascii_lower(
                pattern[i],
            )),
{
    if 0 <= at && at + pattern.len() <= haystack.len() {
        let window = folded(haystack, true).subrange(at, at + pattern.len());
        if window == lowered(pattern) {
            assert forall|i: int| 0 <= i < pattern.len() implies ascii_lower(
                #[trigger] haystack[at + i],
            ) == ascii_lower(pattern[i]) by {
                assert(window[i] == lowered(pattern)[i]);
            }
        }
        if forall|i: int|
            0 <= i < pattern.len() ==> ascii_lower(#[trigger] haystack[at + i]) == ascii_lower(
                pattern[i],
            ) {
            assert forall|i: int| 0 <= i < pattern.len() implies window[i] == lowered(
                pattern,
            )[i] by {
                assert(ascii_lower(haystack[at + i]) == ascii_lower(pattern[i]));
            }
            assert(window =~= lowered(pattern));
        }
    }
}

/// Two bytes are the same letter in either case, or the same byte.
pub open spec fn same_but_for_case(a: u8, b: u8) -> bool {
    ||| a == b
    ||| 0x41 <= a <= 0x5a && b == a + 0x20
    ||| 0x41 <= b <= 0x5a && a == b + 0x20
}

/// Lowering tells bytes apart but for the case of the 26 ASCII letters, and leaves every byte that
/// is not a capital letter alone.
pub proof fn law_lowering_joins_the_cases_of_a_letter(a: u8, b: u8)
    ensures
        ascii_lower(a) == ascii_lower(b) <==> same_but_for_case(a, b),
        ascii_lower(a) == a <==> !(0x41 <= a <= 0x5a),
{
}

/// What a needle is compared with is the haystack, byte for byte, with its capital letters made
/// small where case is ignored.
pub proof fn law_folding_is_bytewise(haystack: Seq<u8>, case_insensitive: bool)
    ensures
        folded(haystack, case_insensitive).len() == haystack.len(),
        forall|i: int|
            0 <= i < haystack.len() ==> #[trigger] folded(haystack, case_insensitive)[i]
                == if case_insensitive && 0x41 <= haystack[i] <= 0x5a {
                haystack[i] + 0x20
            } else {
                haystack[i] as int
            },
{
}

/// `needle` stands in `haystack` from position `at` on: every byte of it does, letter case aside
/// where that is ignored.
pub open spec fn stands_at(
    haystack: Seq<u8>,
    needle: Seq<u8>,
    case_insensitive: bool,
    at: int,
) -> bool {
    &&& 0 <= at && at + needle.len() <= haystack.len()
    &&& forall|i: int|
        0 <= i < needle.len() ==> if case_insensitive {
            same_but_for_case(haystack[at + i], #[trigger] needle[i])
        } else {
            haystack[at + i] == #[trigger] needle[i]
        }
}

/// A needle without capital letters, where case is ignored, occurs exactly where it stands.
pub proof fn law_occurrence_is_where_the_needle_stands(
    haystack: Seq<u8>,
    needle: Seq<u8>,
    case_insensitive: bool,
    at: int,
)
    requires
        case_insensitive ==> forall|i: int|
            0 <= i < needle.len() ==> !(0x41 <= #[trigger] needle[i] <= 0x5a),
    ensures
        occurs_at(folded(haystack, case_insensitive), needle, at) <==> stands_at(
            haystack,
            needle,
            case_insensitive,
            at,
        ),
{
    let hay = folded(haystack, case_insensitive);
    if 0 <= at && at + needle.len() <= haystack.len() {
        let window = hay.subrange(at, at + needle.len());
        assert forall|i: int| 0 <= i < needle.len() implies (window[i] == #[trigger] needle[i]
            <==> if case_insensitive {
            same_but_for_case(haystack[at + i], needle[i])
        } else {
            haystack[at + i] == needle[i]
        }) by {
            assert(window[i] == hay[at + i]);
        }
        if window == needle {
            assert(stands_at(haystack, needle, case_insensitive, at));
        }
        if stands_at(haystack, needle, case_insensitive, at) {
            assert(window =~= needle);
        }
    }
}

} // verus!
