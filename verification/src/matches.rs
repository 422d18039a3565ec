//! A matched line and its presentation.
use crate::spans::MatchSpans;
use crate::text::{
    indent_bytes, is_white_space, law_indent_is_the_leading_space, lemma_indent_bytes,
    lemma_no_indent_left, without_indent,
};
use vstd::prelude::*;
use vstd::utf8::encode_utf8;

verus! {

/// A single content match within a file
#[derive(Debug, Clone)]
pub struct GrepMatch {
    /// Index into the deduplicated `files` vec of the GrepResult.
    pub file_index: usize,
    /// 1-based line number.
    pub line_number: u64,
    /// 0-based byte column of first match start within the line.
    pub col: usize,
    /// Absolute byte offset of the matched line from the start of the file.
    /// Can be used by the preview to seek directly without scanning from the top.
    pub byte_offset: u64,
    /// The matched line text, truncated to `MAX_LINE_DISPLAY_LEN`.
    pub line_content: String,
    /// Byte offsets `(start, end)` within `line_content` for each match.
    pub match_byte_offsets: MatchSpans,
    /// Fuzzy match score (only set in Fuzzy grep mode).
    pub fuzzy_score: Option<u16>,
    /// Whether the matched line looks like a definition (struct, fn, class, etc.).
    pub is_definition: bool,
    /// Lines before the match (for context display). Empty when context is 0.
    pub context_before: Vec<String>,
    /// Lines after the match (for context display). Empty when context is 0.
    pub context_after: Vec<String>,
}

/// What a [`GrepMatch`] says, with texts as character sequences.
#[verifier::ext_equal]
pub struct MatchView {
    pub file_index: usize,
    pub line_number: u64,
    pub col: usize,
    pub byte_offset: u64,
    pub line_content: Seq<char>,
    pub match_byte_offsets: Seq<(u32, u32)>,
    pub fuzzy_score: Option<u16>,
    pub is_definition: bool,
    pub context_before: Seq<Seq<char>>,
    pub context_after: Seq<Seq<char>>,
}

/// The texts of a list of strings.
pub open spec fn texts(lines: Seq<String>) -> Seq<Seq<char>> {
    lines.map_values(|line: String| line@)
}

impl View for GrepMatch {
    type V = MatchView;

    open spec fn view(&self) -> MatchView {
        MatchView {
            file_index: self.file_index,
            line_number: self.line_number,
            col: self.col,
            byte_offset: self.byte_offset,
            line_content: self.line_content@,
            match_byte_offsets: self.match_byte_offsets@,
            fuzzy_score: self.fuzzy_score,
            is_definition: self.is_definition,
            context_before: texts(self.context_before@),
            context_after: texts(self.context_after@),
        }
    }
}

/// What a list of matches says.
pub open spec fn match_views(matches: Seq<GrepMatch>) -> Seq<MatchView> {
    matches.map_values(|m: GrepMatch| m@)
}

/// `x - y`, or 0 where `y` is the greater one.
pub open spec fn less_at_least_zero(x: int, y: int) -> int {
    if x < y {
        0
    } else {
        x - y
    }
}

/// A range moved to the left by `by` bytes, stopping at the start of the line.
pub open spec fn span_moved_left(span: (u32, u32), by: u32) -> (u32, u32) {
    (
        less_at_least_zero(span.0 as int, by as int) as u32,
        less_at_least_zero(span.1 as int, by as int) as u32,
    )
}

impl MatchView {
    /// The match with the white space at the start of its line and of its context lines gone,
    /// and with `col` and the highlight ranges moved along.
    pub open spec fn unindented(self) -> MatchView {
        let by = indent_bytes(self.line_content);
        MatchView {
            col: less_at_least_zero(self.col as int, by as int) as usize,
            line_content: without_indent(self.line_content),
            match_byte_offsets: self.match_byte_offsets.map_values(
                |span: (u32, u32)| span_moved_left(span, by as u32),
            ),
            context_before: self.context_before.map_values(|l: Seq<char>| without_indent(l)),
            context_after: self.context_after.map_values(|l: Seq<char>| without_indent(l)),
            ..self
        }
    }

    /// The match as it is reported: attributed to result file `file_index`, and without its
    /// indent where that is asked for.
    pub open spec fn reported(self, file_index: usize, trim_whitespace: bool) -> MatchView {
        let attributed = MatchView { file_index, ..self };
        if trim_whitespace {
            attributed.unindented()
        } else {
            attributed
        }
    }
}

/// The number of bytes that the white space at the start of `text` takes.
fn measure_indent(text: &String) -> (bytes: usize)
    ensures
        bytes == indent_bytes(text@),
{
    let whole: &[u8] = text.as_str().as_bytes();
    let rest: &[u8] = text.as_str().trim_start().as_bytes();
    proof {
        lemma_indent_bytes(text@);
    }
    whole.len() - rest.len()
}

/// Removes the white space at the start of each line.
fn unindent_lines(lines: &mut Vec<String>)
    ensures
        texts(final(lines)@) == texts(old(lines)@).map_values(|l: Seq<char>| without_indent(l)),
{
    let ghost before = lines@;
    let mut i: usize = 0;
    while i < lines.len()
        invariant
            i <= lines.len(),
            lines@.len() == before.len(),
            forall|j: int| 0 <= j < i ==> (#[trigger] lines@[j])@ == without_indent(before[j]@),
            forall|j: int| i <= j < lines.len() ==> #[trigger] lines@[j] == before[j],
        decreases lines.len() - i,
    {
        if measure_indent(&lines[i]) > 0 {
            let trimmed = lines[i].as_str().trim_start().to_string();
            lines[i] = trimmed;
        } else {
            proof {
                lemma_indent_bytes(before[i as int]@);
                assert(without_indent(before[i as int]@) =~= before[i as int]@);
            }
        }
        i += 1;
    }
    assert(texts(lines@) =~= texts(before).map_values(|l: Seq<char>| without_indent(l)));
}

/// Moves every range to the left by `by` bytes, stopping at the start of the line.
fn move_spans_left(spans: &mut MatchSpans, by: u32)
    ensures
        final(spans)@ == old(spans)@.map_values(|span: (u32, u32)| span_moved_left(span, by)),
{
    let ghost before = spans@;
    let count: usize = spans.len();
    let mut i: usize = 0;
    while i < count
        invariant
            i <= count,
            count == before.len(),
            spans@.len() == count,
            forall|j: int| 0 <= j < i ==> #[trigger] spans@[j] == span_moved_left(before[j], by),
            forall|j: int| i <= j < count ==> #[trigger] spans@[j] == before[j],
        decreases count - i,
    {
        let span: (u32, u32) = spans.get(i);
        spans.set(i, (span.0.saturating_sub(by), span.1.saturating_sub(by)));
        i += 1;
    }
    assert(spans@ =~= before.map_values(|span: (u32, u32)| span_moved_left(span, by)));
}

impl GrepMatch {
    /// Strip leading whitespace from `line_content` and all context lines,
    /// adjusting `col` and `match_byte_offsets` so highlights remain correct.
    pub fn trim_leading_whitespace(&mut self)
        ensures
            final(self)@ == old(self)@.unindented(),
            is_unindented(old(self).line_content@, final(self).line_content@),
            final(self).context_before@.len() == old(self).context_before@.len(),
            final(self).context_after@.len() == old(self).context_after@.len(),
            forall|k: int|
                0 <= k < old(self).context_before@.len() ==> is_unindented(
                    old(self).context_before@[k]@,
                    (#[trigger] final(self).context_before@[k])@,
                ),
            forall|k: int|
                0 <= k < old(self).context_after@.len() ==> is_unindented(
                    old(self).context_after@[k]@,
                    (#[trigger] final(self).context_after@[k])@,
                ),
    {
        let ghost before = self@;
        let strip_len: usize = measure_indent(&self.line_content);
        if strip_len > 0 {
            let rest = self.line_content.as_str().trim_start().to_string();
            self.line_content = rest;
            self.col = self.col.saturating_sub(strip_len);
            let off: u32 = strip_len as u32;
            move_spans_left(&mut self.match_byte_offsets, off);
        } else {
            proof {
                lemma_indent_bytes(before.line_content);
                assert(without_indent(before.line_content) =~= before.line_content);
                assert(before.match_byte_offsets.map_values(
                    |span: (u32, u32)| span_moved_left(span, 0),
                ) =~= before.match_byte_offsets);
            }
        }
        unindent_lines(&mut self.context_before);
        unindent_lines(&mut self.context_after);
        assert(self@ =~= before.unindented());
        proof {
            law_every_line_loses_its_own_indent(before);
            let (was, is) = (old(self)@, self@);
            assert forall|k: int| 0 <= k < old(self).context_before@.len() implies is_unindented(
                old(self).context_before@[k]@,
                (#[trigger] self.context_before@[k])@,
            ) by {
                assert(was.context_before[k] == old(self).context_before@[k]@);
                assert(is.context_before[k] == self.context_before@[k]@);
            }
            assert forall|k: int| 0 <= k < old(self).context_after@.len() implies is_unindented(
                old(self).context_after@[k]@,
                (#[trigger] self.context_after@[k])@,
            ) by {
                assert(was.context_after[k] == old(self).context_after@[k]@);
                assert(is.context_after[k] == self.context_after@[k]@);
            }
            assert(was.context_before.len() == is.context_before.len());
            assert(was.context_after.len() == is.context_after.len());
        }
    }
}

/// Removing an indent twice is the same as removing it once.
pub proof fn law_unindent_is_idempotent(m: MatchView)
    ensures
        m.unindented().unindented() == m.unindented(),
{
    let once = m.unindented();
    let twice = once.unindented();
    assert forall|line: Seq<char>|
        #![trigger without_indent(line)]
        without_indent(without_indent(line)) == without_indent(line) && indent_bytes(
            without_indent(line),
        ) == 0 by {
        lemma_no_indent_left(line);
        lemma_indent_bytes(without_indent(line));
        assert(without_indent(without_indent(line)) =~= without_indent(line));
    }
    assert(twice.line_content == once.line_content);
    assert(twice.match_byte_offsets =~= once.match_byte_offsets);
    assert(twice.context_before =~= once.context_before);
    assert(twice.context_after =~= once.context_after);
    assert(twice =~= once);
}

/// The greater one of two numbers.
pub open spec fn greater_of(x: int, y: int) -> int {
    if x < y {
        y
    } else {
        x
    }
}

/// Highlights stay correct when the indent goes: a range marks the same bytes of the shortened
/// line as it marked of the whole one, apart from those that have gone with the indent.
pub proof fn law_unindent_keeps_highlights(m: MatchView, i: int)
    requires
        0 <= i < m.match_byte_offsets.len(),
        m.match_byte_offsets[i].0 <= m.match_byte_offsets[i].1,
        m.match_byte_offsets[i].1 <= encode_utf8(m.line_content).len(),
        indent_bytes(m.line_content) <= u32::MAX,
    ensures
        ({
            let by = indent_bytes(m.line_content) as int;
            let (start, end) = m.match_byte_offsets[i];
            let (new_start, new_end) = m.unindented().match_byte_offsets[i];
            let new_line = encode_utf8(m.unindented().line_content);
            &&& new_start <= new_end <= new_line.len()
            &&& new_line.subrange(new_start as int, new_end as int) == encode_utf8(
                m.line_content,
            ).subrange(greater_of(start as int, by), greater_of(end as int, by))
        }),
{
    lemma_indent_bytes(m.line_content);
    let by = indent_bytes(m.line_content) as int;
    let (start, end) = m.match_byte_offsets[i];
    let (new_start, new_end) = m.unindented().match_byte_offsets[i];
    let old_line = encode_utf8(m.line_content);
    let new_line = encode_utf8(m.unindented().line_content);
    assert(m.unindented().match_byte_offsets[i] == span_moved_left((start, end), by as u32));
    assert(new_line.subrange(new_start as int, new_end as int) =~= old_line.subrange(
        greater_of(start as int, by),
        greater_of(end as int, by),
    ));
}

/// The column stays correct when the indent goes: one behind the indent points at the same rest
/// of the line, one within the indent moves to the start of the line.
pub proof fn law_unindent_keeps_column(m: MatchView)
    requires
        m.col <= encode_utf8(m.line_content).len(),
    ensures
        indent_bytes(m.line_content) <= m.col ==> encode_utf8(m.unindented().line_content).skip(
            m.unindented().col as int,
        ) == encode_utf8(m.line_content).skip(m.col as int),
        m.col < indent_bytes(m.line_content) ==> m.unindented().col == 0,
{
    lemma_indent_bytes(m.line_content);
    let by = indent_bytes(m.line_content) as int;
    if by <= m.col {
        assert(encode_utf8(m.unindented().line_content).skip(m.col - by) =~= encode_utf8(
            m.line_content,
        ).skip(m.col as int));
    }
}

/// `after` is `before` without the white space that it starts with, and without anything else.
pub open spec fn is_unindented(before: Seq<char>, after: Seq<char>) -> bool {
    exists|n: int|
        {
            &&& 0 <= n <= before.len()
            &&& after == #[trigger] before.skip(n)
            &&& forall|i: int| 0 <= i < n ==> is_white_space(#[trigger] before[i])
            &&& n < before.len() ==> !is_white_space(before[n])
        }
}

proof fn lemma_without_indent_is_unindented(line: Seq<char>)
    ensures
        is_unindented(line, without_indent(line)),
        without_indent(line).len() > 0 ==> !is_white_space(without_indent(line)[0]),
{
    law_indent_is_the_leading_space(line);
    let n = choose|n: int|
        {
            &&& 0 <= n <= line.len()
            &&& without_indent(line) == #[trigger] line.skip(n)
            &&& indent_bytes(line) == encode_utf8(line.take(n)).len()
            &&& forall|i: int| 0 <= i < n ==> is_white_space(#[trigger] line[i])
            &&& n < line.len() ==> !is_white_space(line[n])
        };
    assert(without_indent(line) == line.skip(n));
    if n < line.len() {
        assert(line.skip(n)[0] == line[n]);
    }
}

/// The matched line and all context lines lose the white space that they start with, each of them
/// its own: whether another line is indented does not matter. None of them starts with white space
/// afterwards.
pub proof fn law_every_line_loses_its_own_indent(m: MatchView)
    ensures
        is_unindented(m.line_content, m.unindented().line_content),
        m.unindented().line_content.len() > 0 ==> !is_white_space(m.unindented().line_content[0]),
        m.unindented().context_before.len() == m.context_before.len(),
        m.unindented().context_after.len() == m.context_after.len(),
        forall|k: int|
            0 <= k < m.context_before.len() ==> {
                let line = #[trigger] m.unindented().context_before[k];
                &&& is_unindented(m.context_before[k], line)
                &&& line.len() > 0 ==> !is_white_space(line[0])
            },
        forall|k: int|
            0 <= k < m.context_after.len() ==> {
                let line = #[trigger] m.unindented().context_after[k];
                &&& is_unindented(m.context_after[k], line)
                &&& line.len() > 0 ==> !is_white_space(line[0])
            },
{
    lemma_without_indent_is_unindented(m.line_content);
    assert forall|k: int| 0 <= k < m.context_before.len() implies {
        let line = #[trigger] m.unindented().context_before[k];
        &&& is_unindented(m.context_before[k], line)
        &&& line.len() > 0 ==> !is_white_space(line[0])
    } by {
        lemma_without_indent_is_unindented(m.context_before[k]);
    }
    assert forall|k: int| 0 <= k < m.context_after.len() implies {
        let line = #[trigger] m.unindented().context_after[k];
        &&& is_unindented(m.context_after[k], line)
        &&& line.len() > 0 ==> !is_white_space(line[0])
    } by {
        lemma_without_indent_is_unindented(m.context_after[k]);
    }
}

/// Column and highlights move to the left by as many bytes as the matched line lost, stopping at
/// its start; where the match is and what it says besides stays as it was.
pub proof fn law_unindent_moves_marks_by_what_the_line_lost(m: MatchView)
    requires
        encode_utf8(m.line_content).len() <= u32::MAX,
    ensures
        ({
            let after = m.unindented();
            let lost = encode_utf8(m.line_content).len() - encode_utf8(after.line_content).len();
            &&& lost >= 0
            &&& after.col == if m.col < lost {
                0
            } else {
                m.col - lost
            }
            &&& after.match_byte_offsets.len() == m.match_byte_offsets.len()
            &&& forall|i: int|
                0 <= i < m.match_byte_offsets.len() ==> {
                    let (start, end) = m.match_byte_offsets[i];
                    let (new_start, new_end) = #[trigger] after.match_byte_offsets[i];
                    &&& new_start == if start < lost {
                        0
                    } else {
                        start - lost
                    }
                    &&& new_end == if end < lost {
                        0
                    } else {
                        end - lost
                    }
                }
            &&& after.file_index == m.file_index
            &&& after.line_number == m.line_number
            &&& after.byte_offset == m.byte_offset
            &&& after.fuzzy_score == m.fuzzy_score
            &&& after.is_definition == m.is_definition
        }),
{
    lemma_indent_bytes(m.line_content);
    let by = indent_bytes(m.line_content);
    assert forall|i: int| 0 <= i < m.match_byte_offsets.len() implies #[trigger] m.unindented().match_byte_offsets[i]
        == span_moved_left(m.match_byte_offsets[i], by as u32) by {}
}

/// A match is reported as it was found, but for the file that it is attributed to; where indents are
/// not wanted, and only there, it is reported without them.
pub proof fn law_match_is_reported_as_found(m: MatchView, file_index: usize, trim_whitespace: bool)
    ensures
        m.reported(file_index, trim_whitespace).file_index == file_index,
        !trim_whitespace ==> {
            let shown = m.reported(file_index, trim_whitespace);
            &&& shown.line_number == m.line_number
            &&& shown.col == m.col
            &&& shown.byte_offset == m.byte_offset
            &&& shown.line_content == m.line_content
            &&& shown.match_byte_offsets == m.match_byte_offsets
            &&& shown.fuzzy_score == m.fuzzy_score
            &&& shown.is_definition == m.is_definition
            &&& shown.context_before == m.context_before
            &&& shown.context_after == m.context_after
        },
        trim_whitespace ==> {
            let (shown, bare) = (m.reported(file_index, trim_whitespace), m.unindented());
            &&& shown.line_number == bare.line_number
            &&& shown.col == bare.col
            &&& shown.byte_offset == bare.byte_offset
            &&& shown.line_content == bare.line_content
            &&& shown.match_byte_offsets == bare.match_byte_offsets
            &&& shown.fuzzy_score == bare.fuzzy_score
            &&& shown.is_definition == bare.is_definition
            &&& shown.context_before == bare.context_before
            &&& shown.context_after == bare.context_after
        },
{
}

/// What a match says is what its fields hold.
pub proof fn law_match_says_what_it_holds(m: GrepMatch)
    ensures
        m@.file_index == m.file_index,
        m@.line_number == m.line_number,
        m@.col == m.col,
        m@.byte_offset == m.byte_offset,
        m@.line_content == m.line_content@,
        m@.match_byte_offsets == m.match_byte_offsets@,
        m@.fuzzy_score == m.fuzzy_score,
        m@.is_definition == m.is_definition,
        m@.context_before.len() == m.context_before@.len(),
        forall|k: int|
            0 <= k < m.context_before@.len() ==> #[trigger] m@.context_before[k]
                == m.context_before@[k]@,
        m@.context_after.len() == m.context_after@.len(),
        forall|k: int|
            0 <= k < m.context_after@.len() ==> #[trigger] m@.context_after[k]
                == m.context_after@[k]@,
{
}

} // verus!
