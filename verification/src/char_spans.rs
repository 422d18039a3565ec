//! From character positions to byte ranges.
use crate::spans::MatchSpans;
use crate::text::lemma_encode_concat;
use vstd::prelude::*;
use vstd::utf8::{encode_scalar, encode_utf8};

verus! {

/// Where character number `index` of a line starts in its UTF-8 form.
pub open spec fn char_start(line: Seq<char>, index: int) -> int {
    encode_utf8(line.take(index)).len() as int
}

/// The byte range of character number `index`, as it is stored.
pub open spec fn char_span(line: Seq<char>, index: int) -> (u32, u32) {
    (char_start(line, index) as u32, char_start(line, index + 1) as u32)
}

/// Adds a range behind the others, or, where the last of them ends at its start, makes that one
/// longer.
pub open spec fn span_added(spans: Seq<(u32, u32)>, span: (u32, u32)) -> Seq<(u32, u32)> {
    if spans.len() > 0 && spans.last().1 == span.0 {
        spans.drop_last().push((spans.last().0, span.1))
    } else {
        spans.push(span)
    }
}

/// The ranges for a list of character positions: those of the characters in the order of the
/// list, adjacent ones merged. Positions behind the end of the line are left out.
pub open spec fn spans_of_chars(line: Seq<char>, indices: Seq<usize>) -> Seq<(u32, u32)>
    decreases indices.len(),
{
    if indices.len() == 0 {
        Seq::empty()
    } else {
        let before = spans_of_chars(line, indices.drop_last());
        if indices.last() >= line.len() {
            before
        } else {
            span_added(before, char_span(line, indices.last() as int))
        }
    }
}

/// The number of bytes of a character in UTF-8.
fn utf8_len(c: char) -> (len: usize)
    ensures
        len == encode_scalar(c as u32).len(),
        1 <= len <= 4,
{
    let code: u32 = c as u32;
    if code < 0x80 {
        1
    } else if code < 0x800 {
        2
    } else if code < 0x10000 {
        3
    } else {
        4
    }
}

/// A character starts where the one before it ends, within the line.
proof fn lemma_char_start(line: Seq<char>, index: int)
    requires
        0 <= index < line.len(),
    ensures
        char_start(line, index + 1) == char_start(line, index) + encode_scalar(
            line[index] as u32,
        ).len(),
        char_start(line, index + 1) <= encode_utf8(line).len(),
{
    let head = line.take(index);
    let one = seq![line[index]];
    assert(line.take(index + 1) =~= head + one);
    lemma_encode_concat(head, one);
    assert(one.drop_first() =~= Seq::<char>::empty());
    assert(encode_utf8(one) =~= encode_scalar(one[0] as u32)) by {
        reveal_with_fuel(encode_utf8, 2);
    }
    assert(line =~= line.take(index + 1) + line.skip(index + 1));
    lemma_encode_concat(line.take(index + 1), line.skip(index + 1));
}

/// The start of each character of a line, and the end of the last one.
fn char_starts(line: &str) -> (starts: Vec<usize>)
    ensures
        starts@.len() == line@.len() + 1,
        forall|i: int| 0 <= i <= line@.len() ==> #[trigger] starts@[i] == char_start(line@, i),
{
    let total: usize = line.as_bytes().len();
    let mut starts: Vec<usize> = Vec::new();
    let mut byte_pos: usize = 0;
    starts.push(0);
    let ghost text = line@;
    assert(text.take(0) =~= Seq::<char>::empty());
    for c in it: line.chars()
        invariant
            it.seq() == text,
            text == line@,
            total == encode_utf8(text).len(),
            byte_pos == char_start(text, it.index()),
            starts@.len() == it.index() + 1,
            forall|i: int| 0 <= i <= it.index() ==> #[trigger] starts@[i] == char_start(text, i),
    {
        proof {
            lemma_char_start(text, it.index());
        }
        byte_pos = byte_pos + utf8_len(c);
        starts.push(byte_pos);
    }
    starts
}

/// Convert character positions into byte-offset pairs (start, end) suitable for
/// `match_byte_offsets`.
///
/// Each matched character becomes its own (byte_start, byte_end) pair.
/// Adjacent characters are merged into a single contiguous range.
pub fn char_indices_to_byte_offsets(line: &str, char_indices: &[usize]) -> (spans: MatchSpans)
    ensures
        spans@ == spans_of_chars(line@, char_indices@),
{
    let mut result = MatchSpans::new();
    if char_indices.is_empty() {
        return result;
    }
    let starts: Vec<usize> = char_starts(line);
    let char_count: usize = starts.len() - 1;
    let mut i: usize = 0;
    assert(char_indices@.take(0) =~= Seq::<usize>::empty());
    while i < char_indices.len()
        invariant
            i <= char_indices.len(),
            char_count == line@.len(),
            starts@.len() == line@.len() + 1,
            forall|i: int| 0 <= i <= line@.len() ==> #[trigger] starts@[i] == char_start(line@, i),
            result@ == spans_of_chars(line@, char_indices@.take(i as int)),
        decreases char_indices.len() - i,
    {
        let ghost so_far = char_indices@.take(i + 1);
        assert(so_far.drop_last() =~= char_indices@.take(i as int));
        let ci: usize = char_indices[i];
        if ci < char_count {
            let start: u32 = starts[ci] as u32;
            let end: u32 = starts[ci + 1] as u32;
            let count: usize = result.len();
            let ghost before = result@;
            if count > 0 && result.get(count - 1).1 == start {
                let last: (u32, u32) = result.get(count - 1);
                result.set(count - 1, (last.0, end));
                assert(result@ =~= before.drop_last().push((last.0, end)));
            } else {
                result.push((start, end));
            }
        }
        i += 1;
    }
    assert(char_indices@.take(i as int) =~= char_indices@);
    result
}

/// Byte number `byte` belongs to character number `index`.
pub open spec fn byte_of_char(line: Seq<char>, index: int, byte: int) -> bool {
    0 <= index < line.len() && char_start(line, index) <= byte < char_start(line, index + 1)
}

/// Byte number `byte` lies in range number `k`.
pub open spec fn byte_in_span(spans: Seq<(u32, u32)>, k: int, byte: int) -> bool {
    0 <= k < spans.len() && spans[k].0 <= byte < spans[k].1
}

/// Byte number `byte` lies in one of the ranges.
pub open spec fn byte_marked(spans: Seq<(u32, u32)>, byte: int) -> bool {
    exists|k: int| byte_in_span(spans, k, byte)
}

/// Byte number `byte` belongs to one of the listed characters.
pub open spec fn byte_listed(line: Seq<char>, indices: Seq<usize>, byte: int) -> bool {
    exists|j: int| 0 <= j < indices.len() && byte_of_char(line, #[trigger] indices[j] as int, byte)
}

/// The ranges mark the bytes of the listed characters and no others, and no range touches the
/// next one.
pub proof fn law_char_spans_mark_exactly_the_chars(line: Seq<char>, indices: Seq<usize>)
    requires
        encode_utf8(line).len() <= u32::MAX,
    ensures
        forall|byte: int| #[trigger]
            byte_marked(spans_of_chars(line, indices), byte) <==> byte_listed(line, indices, byte),
        forall|k: int|
            0 <= k < spans_of_chars(line, indices).len() - 1 ==> (#[trigger] spans_of_chars(
                line,
                indices,
            )[k]).1 != spans_of_chars(line, indices)[k + 1].0,
        forall|k: int|
            0 <= k < spans_of_chars(line, indices).len() ==> (#[trigger] spans_of_chars(
                line,
                indices,
            )[k]).0 < spans_of_chars(line, indices)[k].1,
    decreases indices.len(),
{
    if indices.len() > 0 {
        let head = indices.drop_last();
        law_char_spans_mark_exactly_the_chars(line, head);
        let before = spans_of_chars(line, head);
        let after = spans_of_chars(line, indices);
        let ci = indices.last() as int;
        let last = indices.len() - 1;
        if ci < line.len() {
            lemma_char_start(line, ci);
        }
        assert forall|byte: int| #[trigger] byte_marked(after, byte) <==> byte_listed(
            line,
            indices,
            byte,
        ) by {
            assert(byte_marked(before, byte) <==> byte_listed(line, head, byte));
            if byte_marked(after, byte) {
                let k = choose|k: int| byte_in_span(after, k, byte);
                if byte_of_char(line, ci, byte) {
                    assert(byte_of_char(line, indices[last] as int, byte));
                } else {
                    assert(byte_in_span(before, k, byte));
                    let j = choose|j: int|
                        0 <= j < head.len() && byte_of_char(
                            line,
                            #[trigger] head[j] as int,
                            byte,
                        );
                    assert(byte_of_char(line, indices[j] as int, byte));
                }
            }
            if byte_listed(line, indices, byte) {
                let j = choose|j: int|
                    0 <= j < indices.len() && byte_of_char(
                        line,
                        #[trigger] indices[j] as int,
                        byte,
                    );
                if j < last {
                    assert(byte_of_char(line, head[j] as int, byte));
                    let k = choose|k: int| byte_in_span(before, k, byte);
                    assert(byte_in_span(after, k, byte));
                } else {
                    let k = after.len() - 1;
                    assert(byte_in_span(after, k, byte));
                }
            }
        }
    }
}

/// A later character starts later.
proof fn lemma_char_start_grows(line: Seq<char>, i: int, j: int)
    requires
        0 <= i < j <= line.len(),
    ensures
        char_start(line, i) < char_start(line, j) <= encode_utf8(line).len(),
    decreases j - i,
{
    lemma_char_start(line, j - 1);
    assert(encode_scalar(line[j - 1] as u32).len() > 0);
    if i < j - 1 {
        lemma_char_start_grows(line, i, j - 1);
    }
}

/// The list of positions is ascending.
pub open spec fn indices_ascend(indices: Seq<usize>) -> bool {
    forall|a: int, b: int|
        0 <= a < b < indices.len() ==> (#[trigger] indices[a]) < (#[trigger] indices[b])
}

/// For ascending positions the ranges ascend too, with a gap between each two of them.
pub proof fn law_ascending_chars_give_separate_spans(line: Seq<char>, indices: Seq<usize>)
    requires
        encode_utf8(line).len() <= u32::MAX,
        indices_ascend(indices),
    ensures
        forall|k: int|
            0 <= k < spans_of_chars(line, indices).len() - 1 ==> (#[trigger] spans_of_chars(
                line,
                indices,
            )[k]).1 < spans_of_chars(line, indices)[k + 1].0,
    decreases indices.len(),
{
    if indices.len() > 0 {
        let head = indices.drop_last();
        let before = spans_of_chars(line, head);
        let after = spans_of_chars(line, indices);
        law_ascending_chars_give_separate_spans(line, head);
        let ci = indices.last() as int;
        if ci < line.len() {
            lemma_char_start_grows(line, ci, ci + 1);
            if before.len() > 0 {
                lemma_last_span_ends_early(line, head, ci);
            }
            assert forall|k: int| 0 <= k < after.len() - 1 implies (#[trigger] after[k]).1
                < after[k + 1].0 by {
                if k < before.len() - 1 {
                    assert(before[k].1 < before[k + 1].0);
                }
            }
        }
    }
}

/// The ranges of characters before `bound` end by where that starts.
proof fn lemma_last_span_ends_early(line: Seq<char>, indices: Seq<usize>, bound: int)
    requires
        encode_utf8(line).len() <= u32::MAX,
        0 <= bound < line.len(),
        forall|a: int| 0 <= a < indices.len() ==> (#[trigger] indices[a]) < bound,
        spans_of_chars(line, indices).len() > 0,
    ensures
        spans_of_chars(line, indices).last().1 <= char_start(line, bound),
    decreases indices.len(),
{
    let ci = indices.last() as int;
    assert(ci < bound);
    lemma_char_start_grows(line, ci, ci + 1);
    if ci + 1 < bound {
        lemma_char_start_grows(line, ci + 1, bound);
    }
}

/// Ranges follow the list of positions: a position behind the end of the line adds nothing, one
/// right behind the last range makes that longer, and any other adds the range of its character.
pub proof fn law_char_spans_follow_the_list(line: Seq<char>, indices: Seq<usize>, next: usize)
    ensures
        ({
            let before = spans_of_chars(line, indices);
            let after = spans_of_chars(line, indices.push(next));
            if next >= line.len() {
                after == before
            } else {
                let start = encode_utf8(line.take(next as int)).len() as u32;
                let end = encode_utf8(line.take(next + 1)).len() as u32;
                if before.len() > 0 && before.last().1 == start {
                    &&& after.len() == before.len()
                    &&& after.last() == (before.last().0, end)
                    &&& forall|k: int|
                        0 <= k < before.len() - 1 ==> #[trigger] after[k] == before[k]
                } else {
                    after == before.push((start, end))
                }
            }
        }),
        spans_of_chars(line, Seq::empty()).len() == 0,
{
    assert(indices.push(next).drop_last() =~= indices);
}

} // verus!
