//! Cutting a line down to the bytes that are shown.
use crate::text::{decode_lossy, utf8_lossy};
use vstd::prelude::*;
use vstd::utf8::{
    decode_utf8, decode_utf8_encode_utf8, encode_utf8, encode_utf8_decode_utf8,
    encode_utf8_valid_utf8, is_char_boundary, is_char_boundary_iff_not_is_continuation_byte,
    is_char_boundary_start_end_of_seq, is_continuation_byte, valid_utf8, valid_utf8_split,
};

verus! {

/// Maximum bytes of a matched line to keep for display. Keeps minified sources and huge
/// single-line files from blowing up memory.
pub const MAX_LINE_DISPLAY_LEN: usize = 512;

/// A line feed or a carriage return.
pub open spec fn is_line_terminator(byte: u8) -> bool {
    byte == 0x0a || byte == 0x0d
}

/// `line` without the line feeds and carriage returns at its end.
pub open spec fn without_terminators(line: Seq<u8>) -> Seq<u8>
    decreases line.len(),
{
    if line.len() > 0 && is_line_terminator(line.last()) {
        without_terminators(line.drop_last())
    } else {
        line
    }
}

/// The greatest position up to `end` that does not point at a UTF-8 continuation byte of `line`.
pub open spec fn char_floor(line: Seq<u8>, end: int) -> int
    decreases end,
{
    if end <= 0 {
        0
    } else if is_continuation_byte(line[end]) {
        char_floor(line, end - 1)
    } else {
        end
    }
}

/// The part of `line` that is displayed: all of a short line, otherwise what lies before the
/// last character boundary within the first [`MAX_LINE_DISPLAY_LEN`] bytes.
pub open spec fn display_prefix(line: Seq<u8>) -> Seq<u8> {
    if line.len() <= MAX_LINE_DISPLAY_LEN {
        line
    } else {
        line.take(char_floor(line, MAX_LINE_DISPLAY_LEN as int))
    }
}

/// Drops every line feed and carriage return at the end of a line.
pub fn strip_line_terminators(bytes: &[u8]) -> (stripped: &[u8])
    ensures
        stripped@ == without_terminators(bytes@),
{
    let mut len: usize = bytes.len();
    assert(bytes@.take(len as int) == bytes@);
    while len > 0 && (bytes[len - 1] == 0x0a || bytes[len - 1] == 0x0d)
        invariant
            len <= bytes.len(),
            without_terminators(bytes@.take(len as int)) == without_terminators(bytes@),
        decreases len,
    {
        assert(bytes@.take(len as int).drop_last() == bytes@.take(len - 1));
        len -= 1;
    }
    &bytes[0..len]
}

/// Whether a byte can start a UTF-8 encoded character.
pub fn is_utf8_char_boundary(b: u8) -> (boundary: bool)
    ensures
        boundary == !is_continuation_byte(b),
{
    b < 0x80 || b >= 0xc0
}

/// Truncate a byte slice for display, respecting UTF-8 char boundaries.
pub fn truncate_display_bytes(bytes: &[u8]) -> (shown: &[u8])
    ensures
        shown@ == display_prefix(bytes@),
        shown@.len() <= MAX_LINE_DISPLAY_LEN,
{
    if bytes.len() <= MAX_LINE_DISPLAY_LEN {
        bytes
    } else {
        let mut end: usize = MAX_LINE_DISPLAY_LEN;
        while end > 0 && !is_utf8_char_boundary(bytes[end])
            invariant
                end <= MAX_LINE_DISPLAY_LEN < bytes.len(),
                char_floor(bytes@, end as int) == char_floor(
                    bytes@,
                    MAX_LINE_DISPLAY_LEN as int,
                ),
            decreases end,
        {
            end -= 1;
        }
        &bytes[0..end]
    }
}

/// Where `char_floor` lands: within bounds, at a byte that starts a character (or at the start
/// of the line), with nothing but continuation bytes skipped.
pub proof fn lemma_char_floor(line: Seq<u8>, end: int)
    requires
        0 <= end < line.len(),
    ensures
        0 <= char_floor(line, end) <= end,
        char_floor(line, end) > 0 ==> !is_continuation_byte(line[char_floor(line, end)]),
        forall|i: int| char_floor(line, end) < i <= end ==> is_continuation_byte(#[trigger] line[i]),
    decreases end,
{
    if end > 0 && is_continuation_byte(line[end]) {
        lemma_char_floor(line, end - 1);
    }
}

/// Cutting a line for display never splits a character: what is shown of valid UTF-8 is valid
/// UTF-8.
pub proof fn law_display_keeps_utf8(line: Seq<u8>)
    requires
        valid_utf8(line),
    ensures
        valid_utf8(display_prefix(line)),
{
    if line.len() > MAX_LINE_DISPLAY_LEN {
        let end = MAX_LINE_DISPLAY_LEN as int;
        lemma_char_floor(line, end);
        let cut = char_floor(line, end);
        is_char_boundary_iff_not_is_continuation_byte(line, cut);
        if cut == 0 {
            assert(line.take(0) == Seq::<u8>::empty());
        } else {
            assert(is_char_boundary(line, cut));
            valid_utf8_split(line, cut);
            assert(line.take(cut) == line.subrange(0, cut));
        }
    }
}

/// What is shown of a line is a prefix of it, holds at most [`MAX_LINE_DISPLAY_LEN`] bytes, is
/// the whole line where that fits, and could not be extended to a later character boundary
/// within that limit.
pub proof fn law_display_is_longest_prefix(line: Seq<u8>)
    ensures
        display_prefix(line).len() <= MAX_LINE_DISPLAY_LEN,
        display_prefix(line) == line.take(display_prefix(line).len() as int),
        line.len() <= MAX_LINE_DISPLAY_LEN ==> display_prefix(line) == line,
        forall|i: int|
            display_prefix(line).len() < i <= MAX_LINE_DISPLAY_LEN && i < line.len()
                ==> is_continuation_byte(#[trigger] line[i]),
{
    if line.len() > MAX_LINE_DISPLAY_LEN {
        lemma_char_floor(line, MAX_LINE_DISPLAY_LEN as int);
    } else {
        assert(line.take(line.len() as int) == line);
    }
}

/// Stripping a line removes terminators only, and all of them: what is left is a prefix that
/// does not end in one, and everything behind it is a terminator.
pub proof fn law_stripping_removes_only_terminators(line: Seq<u8>)
    ensures
        without_terminators(line).len() <= line.len(),
        without_terminators(line) == line.take(without_terminators(line).len() as int),
        without_terminators(line).len() > 0 ==> !is_line_terminator(
            without_terminators(line).last(),
        ),
        forall|i: int|
            without_terminators(line).len() <= i < line.len() ==> is_line_terminator(
                #[trigger] line[i],
            ),
    decreases line.len(),
{
    if line.len() > 0 && is_line_terminator(line.last()) {
        let rest = line.drop_last();
        law_stripping_removes_only_terminators(rest);
        let kept = without_terminators(line).len() as int;
        assert(rest.take(kept) == line.take(kept));
        assert forall|i: int| kept <= i < line.len() implies is_line_terminator(
            #[trigger] line[i],
        ) by {
            if i < rest.len() {
                assert(rest[i] == line[i]);
            }
        }
    } else {
        assert(line.take(line.len() as int) == line);
    }
}

/// The text shown for some bytes: decoded, and cut down once more where the characters that stand
/// in for invalid bytes have made it longer than what is shown of a line.
pub open spec fn display_text(bytes: Seq<u8>) -> Seq<char> {
    decode_utf8(display_prefix(encode_utf8(utf8_lossy(bytes))))
}

/// The shown text takes at most [`MAX_LINE_DISPLAY_LEN`] bytes: those of the decoded text that are
/// displayed.
pub proof fn law_display_text_is_bounded(bytes: Seq<u8>)
    ensures
        encode_utf8(display_text(bytes)) == display_prefix(encode_utf8(utf8_lossy(bytes))),
        encode_utf8(display_text(bytes)).len() <= MAX_LINE_DISPLAY_LEN,
{
    let whole = encode_utf8(utf8_lossy(bytes));
    encode_utf8_valid_utf8(utf8_lossy(bytes));
    law_display_keeps_utf8(whole);
    law_display_is_longest_prefix(whole);
    decode_utf8_encode_utf8(display_prefix(whole));
}

/// Decodes bytes for display. Valid UTF-8 that fits is shown as it is.
pub fn decode_display(bytes: &[u8]) -> (text: String)
    ensures
        text@ == display_text(bytes@),
        valid_utf8(bytes@) && bytes@.len() <= MAX_LINE_DISPLAY_LEN ==> encode_utf8(text@) == bytes@,
{
    let whole: String = decode_lossy(bytes);
    let whole_bytes: &[u8] = whole.as_str().as_bytes();
    let cut: usize = truncate_display_bytes(whole_bytes).len();
    proof {
        law_display_text_is_bounded(bytes@);
        if valid_utf8(bytes@) {
            decode_utf8_encode_utf8(bytes@);
        }
        encode_utf8_valid_utf8(whole@);
        law_display_is_longest_prefix(encode_utf8(whole@));
    }
    if cut == whole_bytes.len() {
        proof {
            assert(display_prefix(encode_utf8(whole@)) =~= encode_utf8(whole@));
            encode_utf8_decode_utf8(whole@);
        }
        return whole;
    }
    proof {
        lemma_char_floor(whole_bytes@, MAX_LINE_DISPLAY_LEN as int);
        is_char_boundary_start_end_of_seq(whole_bytes@);
        is_char_boundary_iff_not_is_continuation_byte(whole_bytes@, cut as int);
        assert(is_char_boundary(whole_bytes@, cut as int));
    }
    let shown: &str = whole.as_str().split_at(cut).0;
    proof {
        assert(encode_utf8(shown@) =~= display_prefix(encode_utf8(whole@)));
        encode_utf8_decode_utf8(shown@);
    }
    shown.to_string()
}

/// Line feeds and carriage returns end a line, and no other byte does: stripping takes off as many
/// of them as there are at its end.
pub proof fn law_stripped_line_ends_before_its_terminators(line: Seq<u8>, end: int)
    requires
        0 <= end <= line.len(),
        forall|i: int| end <= i < line.len() ==> #[trigger] line[i] == 0x0a || line[i] == 0x0d,
        end > 0 ==> line[end - 1] != 0x0a && line[end - 1] != 0x0d,
    ensures
        without_terminators(line) == line.take(end),
{
    law_stripping_removes_only_terminators(line);
    let kept = without_terminators(line).len() as int;
    if kept < end {
        assert(is_line_terminator(line[end - 1]));
    }
    if kept > end {
        assert(without_terminators(line).last() == line[kept - 1]);
    }
}

} // verus!
