//! The lines around a match.
use crate::display::{display_prefix, truncate_display_bytes};
use crate::matches::texts;
use crate::text::{decode_lossy, utf8_lossy};
use vstd::prelude::*;
use vstd::utf8::{decode_utf8_encode_utf8, encode_utf8, valid_utf8};

verus! {

/// The position of the last line feed, or -1 where there is none.
pub open spec fn last_newline(bytes: Seq<u8>) -> int
    decreases bytes.len(),
{
    if bytes.len() == 0 {
        -1
    } else if bytes.last() == 0x0a {
        bytes.len() - 1
    } else {
        last_newline(bytes.drop_last())
    }
}

/// The position of the first line feed, or the length where there is none.
pub open spec fn first_newline(bytes: Seq<u8>) -> int
    decreases bytes.len(),
{
    if bytes.len() == 0 || bytes[0] == 0x0a {
        0
    } else {
        1 + first_newline(bytes.drop_first())
    }
}

/// The pieces between the line feeds of `bytes`, first to last. There is one more of them than
/// there are line feeds.
pub open spec fn pieces(bytes: Seq<u8>) -> Seq<Seq<u8>>
    decreases bytes.len(),
    via pieces_decreases
{
    let nl = last_newline(bytes);
    if nl < 0 {
        seq![bytes]
    } else {
        pieces(bytes.take(nl)).push(bytes.skip(nl + 1))
    }
}

#[via_fn]
proof fn pieces_decreases(bytes: Seq<u8>) {
    lemma_last_newline(bytes);
}

/// The lines of `bytes`, first to last, without their line feeds. A line feed at the very end
/// starts no further line.
pub open spec fn lines_of(bytes: Seq<u8>) -> Seq<Seq<u8>>
    decreases bytes.len(),
    via lines_of_decreases
{
    let nl = first_newline(bytes);
    if bytes.len() == 0 {
        Seq::empty()
    } else if nl >= bytes.len() {
        seq![bytes]
    } else {
        seq![bytes.take(nl)] + lines_of(bytes.skip(nl + 1))
    }
}

#[via_fn]
proof fn lines_of_decreases(bytes: Seq<u8>) {
    lemma_first_newline(bytes);
}

/// `line` without a carriage return at its end.
pub open spec fn without_cr(line: Seq<u8>) -> Seq<u8> {
    if line.len() > 0 && line.last() == 0x0d {
        line.drop_last()
    } else {
        line
    }
}

/// The text shown for a context line.
pub open spec fn context_text(line: Seq<u8>) -> Seq<char> {
    utf8_lossy(context_bytes(line))
}

/// The last `count` items of a sequence, or all of a shorter one.
pub open spec fn last_items<T>(items: Seq<T>, count: int) -> Seq<T> {
    if items.len() <= count {
        items
    } else {
        items.skip(items.len() - count)
    }
}

/// The first `count` items of a sequence, or all of a shorter one.
pub open spec fn first_items<T>(items: Seq<T>, count: int) -> Seq<T> {
    if items.len() <= count {
        items
    } else {
        items.take(count)
    }
}

/// The bytes shown of a context line.
pub open spec fn context_bytes(line: Seq<u8>) -> Seq<u8> {
    display_prefix(without_cr(line))
}

/// The last `count` lines that end before `start`, where a line starts.
pub open spec fn lines_shown_before(buffer: Seq<u8>, start: int, count: int) -> Seq<Seq<u8>> {
    if start <= 0 {
        Seq::empty()
    } else {
        last_items(pieces(buffer.take(start - 1)), count)
    }
}

/// The first `count` lines that start at `end` or behind it.
pub open spec fn lines_shown_after(buffer: Seq<u8>, end: int, count: int) -> Seq<Seq<u8>> {
    first_items(lines_of(buffer.skip(end)), count)
}

/// The texts of the last `count` lines that end before `start`, where a line starts.
pub open spec fn context_before(buffer: Seq<u8>, start: int, count: int) -> Seq<Seq<char>> {
    lines_shown_before(buffer, start, count).map_values(|line: Seq<u8>| context_text(line))
}

/// The texts of the first `count` lines that start at `end` or behind it.
pub open spec fn context_after(buffer: Seq<u8>, end: int, count: int) -> Seq<Seq<char>> {
    lines_shown_after(buffer, end, count).map_values(|line: Seq<u8>| context_text(line))
}

/// A text shows the displayed bytes of a line, where they are valid UTF-8.
pub open spec fn text_shows(text: Seq<char>, line: Seq<u8>) -> bool {
    valid_utf8(context_bytes(line)) ==> encode_utf8(text) == context_bytes(line)
}

/// Each of the texts shows its line.
pub open spec fn texts_show(texts: Seq<String>, lines: Seq<Seq<u8>>) -> bool {
    &&& texts.len() == lines.len()
    &&& forall|i: int| 0 <= i < texts.len() ==> text_shows((#[trigger] texts[i])@, lines[i])
}

/// Where the last line feed lies.
pub proof fn lemma_last_newline(bytes: Seq<u8>)
    ensures
        -1 <= last_newline(bytes) < bytes.len(),
        last_newline(bytes) >= 0 ==> bytes[last_newline(bytes)] == 0x0a,
        forall|i: int| last_newline(bytes) < i < bytes.len() ==> bytes[i] != 0x0a,
    decreases bytes.len(),
{
    if bytes.len() > 0 && bytes.last() != 0x0a {
        lemma_last_newline(bytes.drop_last());
        assert forall|i: int| last_newline(bytes) < i < bytes.len() implies bytes[i] != 0x0a by {
            if i < bytes.len() - 1 {
                assert(bytes.drop_last()[i] == bytes[i]);
            }
        }
    }
}

/// Where the first line feed lies.
pub proof fn lemma_first_newline(bytes: Seq<u8>)
    ensures
        0 <= first_newline(bytes) <= bytes.len(),
        first_newline(bytes) < bytes.len() ==> bytes[first_newline(bytes)] == 0x0a,
        forall|i: int| 0 <= i < first_newline(bytes) ==> bytes[i] != 0x0a,
    decreases bytes.len(),
{
    if bytes.len() > 0 && bytes[0] != 0x0a {
        lemma_first_newline(bytes.drop_first());
        assert forall|i: int| 0 <= i < first_newline(bytes) implies bytes[i] != 0x0a by {
            if i > 0 {
                assert(bytes.drop_first()[i - 1] == bytes[i]);
            }
        }
    }
}

/// The text shown for a context line.
fn show_context_line(line: &[u8]) -> (text: String)
    ensures
        text@ == context_text(line@),
        text_shows(text@, line@),
{
    let len: usize = line.len();
    let kept: &[u8] = if len > 0 && line[len - 1] == 0x0d {
        &line[0..len - 1]
    } else {
        line
    };
    assert(kept@ =~= without_cr(line@));
    proof {
        if valid_utf8(context_bytes(line@)) {
            decode_utf8_encode_utf8(context_bytes(line@));
        }
    }
    decode_lossy(truncate_display_bytes(kept))
}

/// The lines that still lie before position `pos`, where a line starts.
spec fn pieces_before(buffer: Seq<u8>, pos: int) -> Seq<Seq<u8>> {
    if pos <= 0 {
        Seq::empty()
    } else {
        pieces(buffer.take(pos - 1))
    }
}

/// The last `count` lines that end before `start`, which is the start of a line, in the order in
/// which they stand in the buffer.
pub fn lines_before(buffer: &[u8], start: usize, count: usize) -> (lines: Vec<String>)
    requires
        start <= buffer@.len(),
    ensures
        texts(lines@) == context_before(buffer@, start as int, count as int),
        texts_show(lines@, lines_shown_before(buffer@, start as int, count as int)),
{
    let mut nearest_first: Vec<String> = Vec::new();
    let ghost mut taken: Seq<Seq<u8>> = Seq::empty();
    let ghost all = pieces_before(buffer@, start as int);
    let mut pos: usize = start;
    assert(all =~= pieces_before(buffer@, pos as int) + taken);
    assert(texts(nearest_first@) =~= taken.reverse().map_values(
        |line: Seq<u8>| context_text(line),
    ));
    while nearest_first.len() < count && pos > 0
        invariant
            pos <= start <= buffer@.len(),
            nearest_first.len() <= count,
            taken.len() == nearest_first.len(),
            all == pieces_before(buffer@, pos as int) + taken,
            texts(nearest_first@) == taken.reverse().map_values(
                |line: Seq<u8>| context_text(line),
            ),
            texts_show(nearest_first@, taken.reverse()),
        decreases pos,
    {
        // Skip the newline just before the current position.
        let line_end: usize = pos - 1;
        let head: &[u8] = &buffer[0..line_end];
        let line_start: usize = match memchr::memrchr(0x0a, head) {
            Some(nl) => nl + 1,
            None => 0,
        };
        let ghost before = texts(nearest_first@);
        let ghost line = buffer@.subrange(line_start as int, line_end as int);
        proof {
            lemma_last_newline(head@);
            assert(last_newline(head@) == line_start - 1);
            assert(head@ =~= buffer@.take(line_end as int));
            if line_start > 0 {
                assert(head@.take(line_start - 1) =~= buffer@.take(line_start - 1));
                assert(head@.skip(line_start as int) =~= line);
            } else {
                assert(head@ =~= line);
            }
            assert(pieces_before(buffer@, pos as int) =~= pieces_before(
                buffer@,
                line_start as int,
            ).push(line));
            assert(pieces_before(buffer@, line_start as int).push(line) + taken
                =~= pieces_before(buffer@, line_start as int) + (seq![line] + taken));
        }
        nearest_first.push(show_context_line(&buffer[line_start..line_end]));
        proof {
            let more = seq![line] + taken;
            assert(more.reverse() =~= taken.reverse().push(line));
            assert(texts(nearest_first@) =~= before.push(context_text(line)));
            assert(more.reverse().map_values(|l: Seq<u8>| context_text(l)) =~= before.push(
                context_text(line),
            ));
            taken = more;
        }
        pos = line_start;
    }
    assert(last_items(all, count as int) =~= taken);
    let ghost backwards = texts(nearest_first@);
    let ghost shown = nearest_first@;
    let mut lines: Vec<String> = Vec::new();
    while nearest_first.len() > 0
        invariant
            nearest_first.len() + lines.len() == backwards.len(),
            backwards == texts(shown),
            nearest_first@ == shown.take(nearest_first.len() as int),
            lines@ == shown.skip(nearest_first.len() as int).reverse(),
            texts(nearest_first@) == backwards.take(nearest_first.len() as int),
            texts(lines@) == backwards.skip(nearest_first.len() as int).reverse(),
        decreases nearest_first.len(),
    {
        let ghost done = texts(lines@);
        let ghost left = nearest_first.len() as int;
        match nearest_first.pop() {
            Some(line) => {
                assert(backwards.take(left)[left - 1] == line@);
                assert(line == shown[left - 1]);
                lines.push(line);
                assert(lines@ =~= shown.skip(left - 1).reverse());
                assert(nearest_first@ =~= shown.take(left - 1));
                assert(texts(lines@) =~= done.push(backwards[left - 1]));
                assert(backwards.skip(left - 1).reverse() =~= backwards.skip(left).reverse().push(
                    backwards[left - 1],
                ));
                assert(texts(nearest_first@) =~= backwards.take(left - 1));
            },
            None => {},
        }
    }
    assert(texts(lines@) =~= taken.map_values(|line: Seq<u8>| context_text(line)));
    assert(texts_show(lines@, taken)) by {
        assert forall|i: int| 0 <= i < lines@.len() implies text_shows(
            (#[trigger] lines@[i])@,
            taken[i],
        ) by {
            let j = lines@.len() - 1 - i;
            assert(lines@[i] == shown[j]);
            assert(taken.reverse()[j] == taken[i]);
        }
    }
    lines
}

/// The first `count` lines that start at `end` or behind it.
pub fn lines_after(buffer: &[u8], end: usize, count: usize) -> (lines: Vec<String>)
    requires
        end <= buffer@.len(),
    ensures
        texts(lines@) == context_after(buffer@, end as int, count as int),
        texts_show(lines@, lines_shown_after(buffer@, end as int, count as int)),
{
    let mut lines: Vec<String> = Vec::new();
    let ghost mut taken: Seq<Seq<u8>> = Seq::empty();
    let ghost all = lines_of(buffer@.skip(end as int));
    let mut pos: usize = end;
    let len: usize = buffer.len();
    assert(all =~= taken + lines_of(buffer@.skip(pos as int)));
    assert(texts(lines@) =~= taken.map_values(|line: Seq<u8>| context_text(line)));
    while lines.len() < count && pos < len
        invariant
            end <= pos <= len,
            len == buffer@.len(),
            lines.len() <= count,
            taken.len() == lines.len(),
            all == taken + lines_of(buffer@.skip(pos as int)),
            texts(lines@) == taken.map_values(|line: Seq<u8>| context_text(line)),
            texts_show(lines@, taken),
        decreases len - pos,
    {
        let rest: &[u8] = &buffer[pos..len];
        let line_end: usize = match memchr::memchr(0x0a, rest) {
            Some(nl) => pos + nl,
            None => len,
        };
        let next: usize = if line_end < len {
            line_end + 1
        } else {
            len
        };
        let ghost before = texts(lines@);
        let ghost line = buffer@.subrange(pos as int, line_end as int);
        proof {
            lemma_first_newline(rest@);
            assert(rest@ =~= buffer@.skip(pos as int));
            assert(first_newline(rest@) == line_end - pos);
            if line_end < len {
                assert(rest@.take(line_end - pos) =~= line);
                assert(rest@.skip(line_end - pos + 1) =~= buffer@.skip(next as int));
            } else {
                assert(rest@ =~= line);
                assert(buffer@.skip(next as int) =~= Seq::<u8>::empty());
                assert(lines_of(rest@) =~= seq![line] + lines_of(buffer@.skip(next as int)));
            }
            assert(taken + (seq![line] + lines_of(buffer@.skip(next as int))) =~= taken.push(line)
                + lines_of(buffer@.skip(next as int)));
        }
        lines.push(show_context_line(&buffer[pos..line_end]));
        proof {
            assert(texts(lines@) =~= before.push(context_text(line)));
            assert(taken.push(line).map_values(|l: Seq<u8>| context_text(l)) =~= before.push(
                context_text(line),
            ));
            taken = taken.push(line);
        }
        pos = next;
    }
    proof {
        if pos == len {
            assert(buffer@.skip(pos as int) =~= Seq::<u8>::empty());
        }
        assert(first_items(all, count as int) =~= taken);
    }
    lines
}

/// Pieces with a line feed between each two of them.
pub open spec fn joined(parts: Seq<Seq<u8>>) -> Seq<u8>
    decreases parts.len(),
{
    if parts.len() == 0 {
        Seq::empty()
    } else if parts.len() == 1 {
        parts[0]
    } else {
        joined(parts.drop_last()).push(0x0au8) + parts.last()
    }
}

/// None of the pieces holds a line feed.
pub open spec fn free_of_newlines(parts: Seq<Seq<u8>>) -> bool {
    forall|k: int, i: int|
        0 <= k < parts.len() && 0 <= i < parts[k].len() ==> #[trigger] parts[k][i] != 0x0a
}

/// The pieces before a match are its lines: put together again they give the bytes before it, and
/// none of them runs over a line end.
pub proof fn law_pieces_are_the_lines(bytes: Seq<u8>)
    ensures
        pieces(bytes).len() > 0,
        joined(pieces(bytes)) == bytes,
        free_of_newlines(pieces(bytes)),
    decreases bytes.len(),
{
    let nl = last_newline(bytes);
    lemma_last_newline(bytes);
    if nl >= 0 {
        let before = pieces(bytes.take(nl));
        law_pieces_are_the_lines(bytes.take(nl));
        let all = pieces(bytes);
        assert(all.drop_last() =~= before);
        assert(joined(all) =~= bytes);
        assert forall|k: int, i: int|
            0 <= k < all.len() && 0 <= i < all[k].len() implies #[trigger] all[k][i] != 0x0a by {
            if k < before.len() {
                assert(before[k][i] != 0x0a);
            } else {
                assert(all[k][i] == bytes[nl + 1 + i]);
            }
        }
    }
}

proof fn lemma_joined_front(first: Seq<u8>, rest: Seq<Seq<u8>>)
    requires
        rest.len() > 0,
    ensures
        joined(seq![first] + rest) == first.push(0x0au8) + joined(rest),
    decreases rest.len(),
{
    let all = seq![first] + rest;
    assert(all.drop_last() =~= seq![first] + rest.drop_last());
    if rest.len() == 1 {
        assert(all.drop_last() =~= seq![first]);
        assert(joined(seq![first]) == first);
        assert(all.last() == rest[0] && joined(rest) == rest[0]);
    } else {
        lemma_joined_front(first, rest.drop_last());
        assert(all.last() == rest.last());
        assert(joined(all) =~= first.push(0x0au8) + joined(rest));
    }
}

/// The lines behind a match are all that lies there: put together again, with a last line feed
/// where there was one, they give the bytes behind it, and none of them runs over a line end.
pub proof fn law_lines_are_complete(bytes: Seq<u8>)
    ensures
        lines_of(bytes).len() == 0 <==> bytes.len() == 0,
        free_of_newlines(lines_of(bytes)),
        bytes.len() > 0 ==> bytes == if bytes.last() == 0x0a {
            joined(lines_of(bytes)).push(0x0au8)
        } else {
            joined(lines_of(bytes))
        },
    decreases bytes.len(),
{
    let nl = first_newline(bytes);
    lemma_first_newline(bytes);
    if bytes.len() > 0 && nl < bytes.len() {
        let line = bytes.take(nl);
        let behind = bytes.skip(nl + 1);
        let rest = lines_of(behind);
        let all = lines_of(bytes);
        law_lines_are_complete(behind);
        assert(bytes =~= line.push(0x0au8) + behind);
        if rest.len() == 0 {
            assert(all =~= seq![line]);
            assert(behind =~= Seq::<u8>::empty());
            assert(bytes =~= joined(all).push(0x0au8));
        } else {
            lemma_joined_front(line, rest);
            assert(bytes.last() == behind.last());
            if bytes.last() == 0x0a {
                assert(bytes =~= joined(all).push(0x0au8));
            }
        }
        assert forall|k: int, i: int|
            0 <= k < all.len() && 0 <= i < all[k].len() implies #[trigger] all[k][i] != 0x0a by {
            if k > 0 {
                assert(all[k] == rest[k - 1]);
                assert(rest[k - 1][i] != 0x0a);
            } else {
                assert(all[0] == line);
                assert(line[i] == bytes[i]);
            }
        }
    }
}

/// No more context is given than was asked for, and none where there is none.
pub proof fn law_context_is_bounded(buffer: Seq<u8>, start: int, end: int, before: int, after: int)
    requires
        0 <= start <= end <= buffer.len(),
        0 <= before,
        0 <= after,
    ensures
        context_before(buffer, start, before).len() <= before,
        context_after(buffer, end, after).len() <= after,
        start == 0 ==> context_before(buffer, start, before).len() == 0,
        end == buffer.len() ==> context_after(buffer, end, after).len() == 0,
{
    if end == buffer.len() {
        assert(buffer.skip(end) =~= Seq::<u8>::empty());
    }
}

/// What is shown of a context line is its start, cut as any line is, without a carriage return that
/// ends it; only one is taken off.
pub proof fn law_context_line_loses_one_carriage_return(line: Seq<u8>)
    ensures
        context_text(line) == utf8_lossy(
            display_prefix(
                if line.len() > 0 && line[line.len() - 1] == 0x0d {
                    line.take(line.len() - 1)
                } else {
                    line
                },
            ),
        ),
{
    if line.len() > 0 {
        assert(line.drop_last() =~= line.take(line.len() - 1));
    }
}

/// The context before a match is the last lines before it, as many as are asked for or, where there
/// are fewer, all of them, in the order of the buffer.
pub proof fn law_context_before_is_the_last_lines(buffer: Seq<u8>, start: int, count: int)
    requires
        0 <= start <= buffer.len(),
        0 <= count,
    ensures
        ({
            let lines = if start > 0 {
                pieces(buffer.take(start - 1))
            } else {
                Seq::empty()
            };
            let given = context_before(buffer, start, count);
            &&& given.len() == if count < lines.len() {
                count
            } else {
                lines.len() as int
            }
            &&& forall|k: int|
                0 <= k < given.len() ==> #[trigger] given[k] == context_text(
                    lines[lines.len() - given.len() + k],
                )
        }),
{
}

/// The context behind a match is the first lines behind it, as many as are asked for or, where there
/// are fewer, all of them, in the order of the buffer.
pub proof fn law_context_after_is_the_first_lines(buffer: Seq<u8>, end: int, count: int)
    requires
        0 <= end <= buffer.len(),
        0 <= count,
    ensures
        ({
            let lines = lines_of(buffer.skip(end));
            let given = context_after(buffer, end, count);
            &&& given.len() == if count < lines.len() {
                count
            } else {
                lines.len() as int
            }
            &&& forall|k: int|
                0 <= k < given.len() ==> #[trigger] given[k] == context_text(lines[k])
        }),
{
}

} // verus!
