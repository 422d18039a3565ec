//! Collecting the matched lines of one file.
use crate::context::{
    context_after, context_before, context_text, law_context_after_is_the_first_lines,
    law_context_before_is_the_last_lines, lines_after, lines_before, lines_of, lines_shown_after,
    lines_shown_before, pieces, texts_show,
};
use crate::display::{
    decode_display, display_prefix, display_text, is_line_terminator, law_display_text_is_bounded,
    law_stripping_removes_only_terminators, strip_line_terminators, truncate_display_bytes,
    without_terminators, MAX_LINE_DISPLAY_LEN,
};
use crate::matches::{match_views, texts, GrepMatch, MatchView};
use crate::needle::{
    find_needle, folded, law_occurrence_is_where_the_needle_stands, law_occurrences_are_complete,
    lemma_folded_subrange, lemma_occurrences_gap, lemma_occurs_in_suffix, occurrences,
    occurrences_before, occurs_at, stands_at,
};
use crate::options::GrepSearchOptions;
use crate::patterns::{
    law_literal_spans_are_complete, literal_spans, ranges_fit, regex_match_at, regex_matches,
    some_literal_at, span_before, CompiledRegex, PatternSet,
};
use crate::spans::MatchSpans;
use vstd::prelude::*;
use vstd::utf8::{encode_utf8, valid_utf8};

verus! {

/// A matched line (or, in a multiline search, several) as a searcher reports it.
#[derive(Debug, Clone, Copy)]
pub struct SinkMatch<'b> {
    /// The bytes that are being searched.
    pub buffer: &'b [u8],
    /// Where the matched lines start in `buffer`.
    pub start: usize,
    /// Where they end in `buffer`, behind their line terminator.
    pub end: usize,
    /// Where they start in the file.
    pub absolute_byte_offset: u64,
    /// The number of the first line, if lines are counted.
    pub line_number: Option<u64>,
}

impl<'b> SinkMatch<'b> {
    /// The matched lines lie within the buffer.
    pub open spec fn in_bounds(&self) -> bool {
        self.start <= self.end <= self.buffer@.len()
    }

    /// The matched lines, terminator included.
    pub open spec fn matched_bytes(&self) -> Seq<u8> {
        self.buffer@.subrange(self.start as int, self.end as int)
    }

    /// The matched lines without the terminator behind them.
    pub open spec fn line(&self) -> Seq<u8> {
        without_terminators(self.matched_bytes())
    }

    /// The bytes that are displayed for the match.
    pub open spec fn shown(&self) -> Seq<u8> {
        display_prefix(self.line())
    }

    /// The UTF-8 form of the text that is displayed for the match.
    pub open spec fn text_bytes(&self) -> Seq<u8> {
        encode_utf8(display_text(self.shown()))
    }

    /// The whole of the matched lines is displayed, byte for byte.
    pub open spec fn shown_whole(&self) -> bool {
        valid_utf8(self.line()) && self.line().len() <= MAX_LINE_DISPLAY_LEN
    }

    /// The matched lines, terminator included.
    pub fn bytes(&self) -> (bytes: &'b [u8])
        requires
            self.in_bounds(),
        ensures
            bytes@ == self.matched_bytes(),
    {
        &self.buffer[self.start..self.end]
    }
}

/// Ranges as they are stored with a match.
pub open spec fn stored_spans(ranges: Seq<(usize, usize)>) -> Seq<(u32, u32)> {
    ranges.map_values(|range: (usize, usize)| (range.0 as u32, range.1 as u32))
}

/// The ranges at which a literal is highlighted in a line: each of its occurrences, overlapping
/// ones too, first to last.
pub open spec fn needle_spans(
    line: Seq<u8>,
    needle: Seq<u8>,
    case_insensitive: bool,
) -> Seq<(usize, usize)> {
    occurrences(folded(line, case_insensitive), needle).map_values(
        |at: int| (at as usize, (at + needle.len()) as usize),
    )
}

/// Where the first of some ranges starts, or 0 where there is none.
pub open spec fn first_start(ranges: Seq<(usize, usize)>) -> usize {
    if ranges.len() > 0 {
        ranges[0].0
    } else {
        0
    }
}

/// Where the first match of a regex in a line starts, or 0 where there is none.
pub open spec fn regex_column(re: &CompiledRegex, line: Seq<u8>) -> usize {
    match re.match_at(line, 0) {
        Some((start, _)) => start,
        None => 0,
    }
}

/// A displayed line is marked as a definition or not, as `is_definition` says: where definitions
/// are asked for, by what the classifier says of it, and never otherwise.
pub open spec fn classified_as<D: Fn(&str) -> bool>(
    is_definition_line: D,
    enabled: bool,
    line: Seq<char>,
    is_definition: bool,
) -> bool {
    if enabled {
        exists|arg: &str|
            arg@ == line && #[trigger] call_ensures(is_definition_line, (arg,), is_definition)
    } else {
        !is_definition
    }
}

/// Whether a line is to be marked as a definition. `is_definition_line` tells definitions from
/// other lines; it is asked only where definitions are asked for.
pub fn classify_definition<D>(enabled: bool, line: &str, is_definition_line: &D) -> (is_definition:
    bool) where D: Fn(&str) -> bool
    requires
        enabled ==> call_requires(*is_definition_line, (line,)),
    ensures
        classified_as(*is_definition_line, enabled, line@, is_definition),
{
    enabled && is_definition_line(line)
}

/// What the sinks of all modes have in common: the matches of the file so far, and what is asked
/// for.
pub struct SinkState {
    pub file_index: usize,
    pub matches: Vec<GrepMatch>,
    pub max_matches: usize,
    pub before_context: usize,
    pub after_context: usize,
    pub classify_definitions: bool,
}

impl SinkState {
    /// As many matches as are wanted have been collected; 0 wants all of them.
    pub open spec fn full(&self) -> bool {
        self.max_matches != 0 && self.matches@.len() >= self.max_matches
    }

    /// Both ask for the same.
    pub open spec fn same_settings(&self, other: &SinkState) -> bool {
        &&& self.file_index == other.file_index
        &&& self.max_matches == other.max_matches
        &&& self.before_context == other.before_context
        &&& self.after_context == other.after_context
        &&& self.classify_definitions == other.classify_definitions
    }

    /// The match recorded for a reported line whose first match starts at byte `col`, with
    /// `ranges` of its displayed text highlighted, and marked as a definition or not.
    pub open spec fn line_match(
        &self,
        mat: &SinkMatch,
        col: usize,
        ranges: Seq<(usize, usize)>,
        is_definition: bool,
    ) -> MatchView {
        MatchView {
            file_index: self.file_index,
            line_number: match mat.line_number {
                Some(number) => number,
                None => 0,
            },
            col,
            byte_offset: mat.absolute_byte_offset,
            line_content: display_text(mat.shown()),
            match_byte_offsets: stored_spans(ranges),
            fuzzy_score: None,
            is_definition,
            context_before: context_before(
                mat.buffer@,
                mat.start as int,
                self.before_context as int,
            ),
            context_after: context_after(mat.buffer@, mat.end as int, self.after_context as int),
        }
    }

    /// What happens to the state when a line is reported: nothing when it is full, otherwise
    /// its match is added behind the others.
    pub open spec fn after_line<D: Fn(&str) -> bool>(
        &self,
        mat: &SinkMatch,
        col: usize,
        ranges: Seq<(usize, usize)>,
        is_definition_line: D,
        then: &SinkState,
        wants_more: bool,
    ) -> bool {
        &&& wants_more == !self.full()
        &&& then.same_settings(self)
        &&& if self.full() {
            match_views(then.matches@) == match_views(self.matches@)
        } else {
            exists|is_definition: bool|
                {
                    &&& #[trigger] classified_as(
                        is_definition_line,
                        self.classify_definitions,
                        display_text(mat.shown()),
                        is_definition,
                    )
                    &&& match_views(then.matches@) == match_views(self.matches@).push(
                        self.line_match(mat, col, ranges, is_definition),
                    )
                }
        }
    }

    /// The column of the match collected last is where its first highlight starts.
    pub open spec fn column_is_first_highlight(&self) -> bool {
        &&& self.matches@.len() > 0
        &&& ({
            let m = self.matches@.last()@;
            m.col == if m.match_byte_offsets.len() > 0 {
                m.match_byte_offsets[0].0 as int
            } else {
                0
            }
        })
    }

    /// The match collected last shows the bytes of the reported line, where they are valid UTF-8.
    pub open spec fn shows_line(&self, mat: &SinkMatch) -> bool {
        valid_utf8(mat.shown()) ==> self.matches@.len() > 0 && encode_utf8(
            self.matches@.last().line_content@,
        ) == mat.shown()
    }

    /// Nothing has been collected yet, and what is asked for is what the options say.
    pub open spec fn is_fresh(&self, max_matches: usize, options: &GrepSearchOptions) -> bool {
        &&& self.file_index == 0
        &&& self.matches@.len() == 0
        &&& self.max_matches == max_matches
        &&& self.before_context == options.before_context
        &&& self.after_context == options.after_context
        &&& self.classify_definitions == options.classify_definitions
    }

    /// The state of a file that has not been searched yet.
    pub fn new(
        max_matches: usize,
        before_context: usize,
        after_context: usize,
        classify_definitions: bool,
    ) -> (state: Self)
        ensures
            state.file_index == 0,
            state.matches@ == Seq::<GrepMatch>::empty(),
            state.max_matches == max_matches,
            state.before_context == before_context,
            state.after_context == after_context,
            state.classify_definitions == classify_definitions,
    {
        SinkState {
            file_index: 0,
            matches: Vec::with_capacity(4),
            max_matches,
            before_context,
            after_context,
            classify_definitions,
        }
    }

    /// Whether as many matches as are wanted have been collected.
    pub fn is_full(&self) -> (full: bool)
        ensures
            full == self.full(),
    {
        self.max_matches != 0 && self.matches.len() >= self.max_matches
    }

    /// A reported line without its terminator, its displayed bytes, the line's number and its
    /// offset in the file.
    pub fn prepare_line<'b>(mat: &SinkMatch<'b>) -> (line: (&'b [u8], &'b [u8], u64, u64))
        requires
            mat.in_bounds(),
        ensures
            line.0@ == mat.line(),
            line.1@ == mat.shown(),
            line.1@.len() <= MAX_LINE_DISPLAY_LEN,
            line.2 == match mat.line_number {
                Some(number) => number,
                None => 0,
            },
            line.3 == mat.absolute_byte_offset,
    {
        let line_number: u64 = match mat.line_number {
            Some(number) => number,
            None => 0,
        };
        // Trim trailing newline/CR directly on bytes, then floor to a char boundary.
        let trimmed_bytes: &'b [u8] = strip_line_terminators(mat.bytes());
        let display_bytes: &'b [u8] = truncate_display_bytes(trimmed_bytes);
        (trimmed_bytes, display_bytes, line_number, mat.absolute_byte_offset)
    }

    /// The text displayed for a reported line.
    fn displayed_text(mat: &SinkMatch) -> (text: String)
        requires
            mat.in_bounds(),
        ensures
            text@ == display_text(mat.shown()),
            encode_utf8(text@).len() <= MAX_LINE_DISPLAY_LEN,
            valid_utf8(mat.shown()) ==> encode_utf8(text@) == mat.shown(),
    {
        let (_line, display_bytes, _number, _offset) = SinkState::prepare_line(mat);
        proof {
            law_display_text_is_bounded(mat.shown());
        }
        decode_display(display_bytes)
    }

    /// Adds a match behind the others.
    pub fn push_match<D>(
        &mut self,
        line_number: u64,
        col: usize,
        byte_offset: u64,
        line_content: String,
        match_byte_offsets: MatchSpans,
        context_before: Vec<String>,
        context_after: Vec<String>,
        is_definition_line: &D,
    ) where D: Fn(&str) -> bool
        requires
            forall|line: &str| #[trigger] call_requires(*is_definition_line, (line,)),
        ensures
            final(self).same_settings(old(self)),
            exists|is_definition: bool|
                {
                    &&& #[trigger] classified_as(
                        *is_definition_line,
                        old(self).classify_definitions,
                        line_content@,
                        is_definition,
                    )
                    &&& match_views(final(self).matches@) == match_views(old(self).matches@).push(
                        (MatchView {
                            file_index: old(self).file_index,
                            line_number,
                            col,
                            byte_offset,
                            line_content: line_content@,
                            match_byte_offsets: match_byte_offsets@,
                            fuzzy_score: None,
                            is_definition,
                            context_before: texts(context_before@),
                            context_after: texts(context_after@),
                        }),
                    )
                },
    {
        let ghost before = match_views(self.matches@);
        let is_definition: bool = classify_definition(
            self.classify_definitions,
            line_content.as_str(),
            is_definition_line,
        );
        let added = GrepMatch {
            file_index: self.file_index,
            line_number,
            col,
            byte_offset,
            line_content,
            match_byte_offsets,
            fuzzy_score: None,
            is_definition,
            context_before,
            context_after,
        };
        let ghost view = added@;
        self.matches.push(added);
        assert(match_views(self.matches@) =~= before.push(view));
    }

    /// Extract context lines from the full buffer around a matched region.
    pub fn extract_context(&self, mat: &SinkMatch) -> (context: (Vec<String>, Vec<String>))
        requires
            mat.in_bounds(),
        ensures
            texts(context.0@) == context_before(
                mat.buffer@,
                mat.start as int,
                self.before_context as int,
            ),
            texts(context.1@) == context_after(
                mat.buffer@,
                mat.end as int,
                self.after_context as int,
            ),
            texts_show(
                context.0@,
                lines_shown_before(mat.buffer@, mat.start as int, self.before_context as int),
            ),
            texts_show(
                context.1@,
                lines_shown_after(mat.buffer@, mat.end as int, self.after_context as int),
            ),
    {
        (
            lines_before(mat.buffer, mat.start, self.before_context),
            lines_after(mat.buffer, mat.end, self.after_context),
        )
    }

    /// Records a reported line with its displayed text and the given ranges of that highlighted,
    /// unless enough matches have been collected. Tells whether the search of the file should go
    /// on.
    pub fn record<D>(
        &mut self,
        mat: &SinkMatch,
        line_content: String,
        col: usize,
        ranges: &Vec<(usize, usize)>,
        is_definition_line: &D,
    ) -> (wants_more: bool) where D: Fn(&str) -> bool
        requires
            forall|line: &str| #[trigger] call_requires(*is_definition_line, (line,)),
            mat.in_bounds(),
            line_content@ == display_text(mat.shown()),
            valid_utf8(mat.shown()) ==> encode_utf8(line_content@) == mat.shown(),
            ranges_fit(ranges@, mat.text_bytes().len() as int),
        ensures
            old(self).after_line(
                mat,
                col,
                ranges@,
                *is_definition_line,
                final(self),
                wants_more,
            ),
            wants_more ==> final(self).shows_line(mat),
            wants_more && col == first_start(ranges@) ==> final(self).column_is_first_highlight(),
            wants_more ==> {
                let m = final(self).matches@.last();
                &&& m.context_before@.len() <= old(self).before_context
                &&& m.context_after@.len() <= old(self).after_context
            },
    {
        if self.is_full() {
            return false;
        }
        let (_line, _shown, line_number, byte_offset) = SinkState::prepare_line(mat);
        let mut match_byte_offsets = MatchSpans::new();
        let mut i: usize = 0;
        proof {
            law_display_text_is_bounded(mat.shown());
        }
        while i < ranges.len()
            invariant
                i <= ranges.len(),
                match_byte_offsets@ == stored_spans(ranges@.take(i as int)),
            decreases ranges.len() - i,
        {
            let ghost before = match_byte_offsets@;
            let (start, end): (usize, usize) = ranges[i];
            match_byte_offsets.push((start as u32, end as u32));
            i += 1;
            assert(stored_spans(ranges@.take(i as int)) =~= before.push(
                (start as u32, end as u32),
            ));
        }
        assert(ranges@.take(i as int) =~= ranges@);
        let (context_before, context_after) = self.extract_context(mat);
        let ghost shown_text = line_content@;
        self.push_match(
            line_number,
            col,
            byte_offset,
            line_content,
            match_byte_offsets,
            context_before,
            context_after,
            is_definition_line,
        );
        proof {
            let views = match_views(self.matches@);
            assert(views.last().line_content == shown_text);
            assert(self.matches@.last()@ == views.last());
            let m = self.matches@.last();
            assert(texts(m.context_before@) == m@.context_before);
            assert(texts(m.context_before@).len() == m.context_before@.len());
            assert(texts(m.context_after@) == m@.context_after);
            assert(texts(m.context_after@).len() == m.context_after@.len());
        }
        true
    }
}

/// Where a literal first stands in a line, or 0 where it does not.
fn find_column(line: &[u8], needle: &[u8], case_insensitive: bool) -> (col: usize)
    requires
        needle@.len() > 0,
    ensures
        col == first_start(needle_spans(line@, needle@, case_insensitive)),
{
    let ghost hay = folded(line@, case_insensitive);
    let ghost all = occurrences(hay, needle@);
    assert(line.len() == line@.len());
    proof {
        law_occurrences_are_complete(hay, needle@, hay.len() as int);
        if all.len() > 0 {
            assert(all.contains(all[0]));
        }
    }
    match find_needle(line, needle, case_insensitive) {
        Some(pos) => {
            proof {
                assert(all.contains(pos as int));
                let k = choose|k: int| 0 <= k < all.len() && all[k] == pos;
                if k > 0 {
                    assert(all[0] < all[k]);
                }
            }
            pos
        },
        None => 0,
    }
}

/// The ranges at which a literal is highlighted in a line.
pub fn find_needle_spans(line: &[u8], needle: &[u8], case_insensitive: bool) -> (ranges: Vec<
    (usize, usize),
>)
    requires
        needle@.len() > 0,
    ensures
        ranges@ == needle_spans(line@, needle@, case_insensitive),
        ranges_fit(ranges@, line@.len() as int),
{
    let ghost hay = folded(line@, case_insensitive);
    let mut ranges: Vec<(usize, usize)> = Vec::new();
    let len: usize = line.len();
    let mut from: usize = 0;
    assert(ranges@ =~= occurrences_before(hay, needle@, 0).map_values(
        |at: int| (at as usize, (at + needle@.len()) as usize),
    ));
    loop
        invariant
            needle@.len() > 0,
            hay == folded(line@, case_insensitive),
            len == line@.len(),
            from <= len,
            ranges@ == occurrences_before(hay, needle@, from as int).map_values(
                |at: int| (at as usize, (at + needle@.len()) as usize),
            ),
            ranges_fit(ranges@, len as int),
        decreases len - from,
    {
        let rest: &[u8] = &line[from..len];
        proof {
            lemma_folded_subrange(line@, case_insensitive, from as int, len as int);
            assert(folded(rest@, case_insensitive) =~= hay.skip(from as int));
            assert forall|i: int| from <= i implies occurs_at(hay, needle@, i) == occurs_at(
                hay.skip(from as int),
                needle@,
                i - from,
            ) by {
                lemma_occurs_in_suffix(hay, needle@, from as int, i - from);
            }
        }
        match find_needle(rest, needle, case_insensitive) {
            Some(pos) => {
                let at: usize = from + pos;
                let ghost before = ranges@;
                assert(occurs_at(hay, needle@, at as int));
                ranges.push((at, at + needle.len()));
                proof {
                    lemma_occurrences_gap(hay, needle@, from as int, at as int);
                    assert(occurrences_before(hay, needle@, at + 1) == occurrences_before(
                        hay,
                        needle@,
                        from as int,
                    ).push(at as int));
                    assert(ranges@ =~= occurrences_before(hay, needle@, at + 1).map_values(
                        |at: int| (at as usize, (at + needle@.len()) as usize),
                    ));
                }
                from = at + 1;
            },
            None => {
                proof {
                    lemma_occurrences_gap(hay, needle@, from as int, len as int);
                }
                return ranges;
            },
        }
    }
}

/// Sink for `PlainText` mode. Highlights every occurrence of the literal.
pub struct PlainTextSink<'r> {
    pub state: SinkState,
    /// The literal, lowered when case is ignored.
    pub needle: &'r [u8],
    pub case_insensitive: bool,
}

impl<'r> PlainTextSink<'r> {
    /// Records a reported line. Tells whether the search of the file should go on.
    /// `is_definition_line` tells definitions from other lines.
    pub fn matched<D>(&mut self, mat: &SinkMatch, is_definition_line: &D) -> (wants_more: bool)
        where D: Fn(&str) -> bool
        requires
            forall|line: &str| #[trigger] call_requires(*is_definition_line, (line,)),
            mat.in_bounds(),
            old(self).needle@.len() > 0,
        ensures
            old(self).state.after_line(
                mat,
                first_start(
                    needle_spans(mat.line(), old(self).needle@, old(self).case_insensitive),
                ),
                needle_spans(mat.text_bytes(), old(self).needle@, old(self).case_insensitive),
                *is_definition_line,
                &final(self).state,
                wants_more,
            ),
            wants_more ==> final(self).state.shows_line(mat),
            wants_more && mat.shown_whole() ==> final(self).state.column_is_first_highlight(),
            wants_more ==> {
                let m = final(self).state.matches@.last();
                &&& m.context_before@.len() <= old(self).state.before_context
                &&& m.context_after@.len() <= old(self).state.after_context
            },
            final(self).needle == old(self).needle,
            final(self).case_insensitive == old(self).case_insensitive,
    {
        if self.state.is_full() {
            return false;
        }
        let (line, _shown, _number, _offset) = SinkState::prepare_line(mat);
        let text: String = SinkState::displayed_text(mat);
        let ranges: Vec<(usize, usize)> = find_needle_spans(
            text.as_str().as_bytes(),
            self.needle,
            self.case_insensitive,
        );
        let col: usize = find_column(line, self.needle, self.case_insensitive);
        self.state.record(mat, text, col, &ranges, is_definition_line)
    }
}

/// Sink for `Regex` mode. Highlights the regex's own matches within the displayed line.
pub struct RegexSink<'r> {
    pub state: SinkState,
    pub re: &'r CompiledRegex,
}

impl<'r> RegexSink<'r> {
    /// Records a reported line. Tells whether the search of the file should go on.
    /// `is_definition_line` tells definitions from other lines.
    pub fn matched<D>(&mut self, mat: &SinkMatch, is_definition_line: &D) -> (wants_more: bool)
        where D: Fn(&str) -> bool
        requires
            forall|line: &str| #[trigger] call_requires(*is_definition_line, (line,)),
            mat.in_bounds(),
        ensures
            old(self).state.after_line(
                mat,
                regex_column(old(self).re, mat.line()),
                old(self).re.matches_in(mat.text_bytes()),
                *is_definition_line,
                &final(self).state,
                wants_more,
            ),
            wants_more ==> final(self).state.shows_line(mat),
            wants_more && mat.shown_whole() ==> final(self).state.column_is_first_highlight(),
            wants_more ==> {
                let m = final(self).state.matches@.last();
                &&& m.context_before@.len() <= old(self).state.before_context
                &&& m.context_after@.len() <= old(self).state.after_context
            },
            final(self).re == old(self).re,
    {
        if self.state.is_full() {
            return false;
        }
        let (line, _shown, _number, _offset) = SinkState::prepare_line(mat);
        let text: String = SinkState::displayed_text(mat);
        let ranges: Vec<(usize, usize)> = self.re.find_all(text.as_str().as_bytes());
        let col: usize = match self.re.find_at(line, 0) {
            Some((start, _)) => start,
            None => 0,
        };
        self.state.record(mat, text, col, &ranges, is_definition_line)
    }
}

/// Sink for Aho-Corasick multi-pattern mode. Highlights all pattern match positions of each line.
pub struct AhoCorasickSink<'a> {
    pub state: SinkState,
    pub ac: &'a PatternSet,
}

impl<'a> AhoCorasickSink<'a> {
    /// Records a reported line. Tells whether the search of the file should go on.
    /// `is_definition_line` tells definitions from other lines.
    pub fn matched<D>(&mut self, mat: &SinkMatch, is_definition_line: &D) -> (wants_more: bool)
        where D: Fn(&str) -> bool
        requires
            forall|line: &str| #[trigger] call_requires(*is_definition_line, (line,)),
            mat.in_bounds(),
        ensures
            old(self).state.after_line(
                mat,
                first_start(
                    literal_spans(
                        old(self).ac.literals(),
                        old(self).ac.ignores_case(),
                        mat.line(),
                    ),
                ),
                literal_spans(
                    old(self).ac.literals(),
                    old(self).ac.ignores_case(),
                    mat.text_bytes(),
                ),
                *is_definition_line,
                &final(self).state,
                wants_more,
            ),
            wants_more ==> final(self).state.shows_line(mat),
            wants_more && mat.shown_whole() ==> final(self).state.column_is_first_highlight(),
            wants_more ==> {
                let m = final(self).state.matches@.last();
                &&& m.context_before@.len() <= old(self).state.before_context
                &&& m.context_after@.len() <= old(self).state.after_context
            },
            final(self).ac == old(self).ac,
    {
        if self.state.is_full() {
            return false;
        }
        let (line, _shown, _number, _offset) = SinkState::prepare_line(mat);
        let text: String = SinkState::displayed_text(mat);
        let ranges: Vec<(usize, usize)> = self.ac.find_all(text.as_str().as_bytes());
        let col: usize = match self.ac.find_first_start(line) {
            Some(start) => start,
            None => 0,
        };
        self.state.record(mat, text, col, &ranges, is_definition_line)
    }
}

/// Collects the lines of a file that match, in any mode.
pub enum LineSink<'p> {
    PlainText(PlainTextSink<'p>),
    Regex(RegexSink<'p>),
    AnyOf(AhoCorasickSink<'p>),
}

impl<'p> LineSink<'p> {
    /// What has been collected.
    pub open spec fn state(&self) -> SinkState {
        match self {
            LineSink::PlainText(sink) => sink.state,
            LineSink::Regex(sink) => sink.state,
            LineSink::AnyOf(sink) => sink.state,
        }
    }

    /// The literal of a plain text search is not empty.
    pub open spec fn usable(&self) -> bool {
        self matches LineSink::PlainText(sink) ==> sink.needle@.len() > 0
    }

    /// The byte at which the first match in a line starts.
    pub open spec fn column(&self, line: Seq<u8>) -> usize {
        match self {
            LineSink::PlainText(sink) => first_start(
                needle_spans(line, sink.needle@, sink.case_insensitive),
            ),
            LineSink::Regex(sink) => regex_column(sink.re, line),
            LineSink::AnyOf(sink) => first_start(
                literal_spans(sink.ac.literals(), sink.ac.ignores_case(), line),
            ),
        }
    }

    /// The ranges of a displayed line that are highlighted.
    pub open spec fn highlights(&self, line: Seq<u8>) -> Seq<(usize, usize)> {
        match self {
            LineSink::PlainText(sink) => needle_spans(line, sink.needle@, sink.case_insensitive),
            LineSink::Regex(sink) => sink.re.matches_in(line),
            LineSink::AnyOf(sink) => literal_spans(
                sink.ac.literals(),
                sink.ac.ignores_case(),
                line,
            ),
        }
    }

    /// Records a reported line. Tells whether the search of the file should go on.
    /// `is_definition_line` tells definitions from other lines.
    pub fn matched<D>(&mut self, mat: &SinkMatch, is_definition_line: &D) -> (wants_more: bool)
        where D: Fn(&str) -> bool
        requires
            forall|line: &str| #[trigger] call_requires(*is_definition_line, (line,)),
            old(self).usable(),
            mat.in_bounds(),
        ensures
            final(self).usable(),
            forall|line: Seq<u8>| #[trigger]
                final(self).highlights(line) == old(self).highlights(line),
            forall|line: Seq<u8>| #[trigger] final(self).column(line) == old(self).column(line),
            old(self).state().after_line(
                mat,
                old(self).column(mat.line()),
                old(self).highlights(mat.text_bytes()),
                *is_definition_line,
                &final(self).state(),
                wants_more,
            ),
            wants_more ==> final(self).state().shows_line(mat),
            wants_more && mat.shown_whole() ==> final(self).state().column_is_first_highlight(),
            wants_more ==> {
                let m = final(self).state().matches@.last();
                &&& m.context_before@.len() <= old(self).state().before_context
                &&& m.context_after@.len() <= old(self).state().after_context
            },
    {
        match self {
            LineSink::PlainText(sink) => sink.matched(mat, is_definition_line),
            LineSink::Regex(sink) => sink.matched(mat, is_definition_line),
            LineSink::AnyOf(sink) => sink.matched(mat, is_definition_line),
        }
    }

    /// The collected matches, in the order of the lines.
    pub fn into_matches(self) -> (matches: Vec<GrepMatch>)
        ensures
            matches == self.state().matches,
    {
        match self {
            LineSink::PlainText(sink) => sink.state.matches,
            LineSink::Regex(sink) => sink.state.matches,
            LineSink::AnyOf(sink) => sink.state.matches,
        }
    }
}

/// A file never has more matches than were asked for.
pub proof fn law_sink_keeps_its_limit<D: Fn(&str) -> bool>(
    before: SinkState,
    mat: SinkMatch,
    col: usize,
    ranges: Seq<(usize, usize)>,
    is_definition_line: D,
    after: SinkState,
    wants_more: bool,
)
    requires
        before.after_line(&mat, col, ranges, is_definition_line, &after, wants_more),
        before.max_matches != 0,
        before.matches@.len() <= before.max_matches,
    ensures
        after.max_matches == before.max_matches,
        after.matches@.len() <= after.max_matches,
{
    assert(match_views(after.matches@).len() == after.matches@.len());
    assert(match_views(before.matches@).len() == before.matches@.len());
}

/// Every range highlighted in a line marks the literal, letter case aside where that is ignored,
/// and every place where the literal stands in what is displayed is marked.
pub proof fn law_highlights_are_the_occurrences(
    state: SinkState,
    mat: SinkMatch,
    col: usize,
    is_definition: bool,
    needle: Seq<u8>,
    case_insensitive: bool,
)
    requires
        needle.len() > 0,
    ensures
        ({
            let ranges = needle_spans(mat.text_bytes(), needle, case_insensitive);
            let m = state.line_match(&mat, col, ranges, is_definition);
            let spans = m.match_byte_offsets;
            let shown = encode_utf8(m.line_content);
            let hay = folded(shown, case_insensitive);
            &&& shown.len() <= MAX_LINE_DISPLAY_LEN
            &&& forall|i: int|
                0 <= i < spans.len() ==> {
                    let (start, end) = #[trigger] spans[i];
                    &&& start < end <= shown.len()
                    &&& hay.subrange(start as int, end as int) == needle
                }
            &&& forall|i: int, j: int|
                0 <= i < j < spans.len() ==> (#[trigger] spans[i]).0 < (#[trigger] spans[j]).0
            &&& forall|at: int| #[trigger]
                occurs_at(hay, needle, at) ==> exists|i: int|
                    0 <= i < spans.len() && (#[trigger] spans[i]).0 == at
        }),
{
    let line = mat.text_bytes();
    let hay = folded(line, case_insensitive);
    let all = occurrences(hay, needle);
    let ranges = needle_spans(line, needle, case_insensitive);
    let spans = stored_spans(ranges);
    law_display_text_is_bounded(mat.shown());
    law_occurrences_are_complete(hay, needle, hay.len() as int);
    assert(line.len() <= MAX_LINE_DISPLAY_LEN);
    assert(hay.len() == line.len());
    assert forall|i: int| 0 <= i < spans.len() implies {
        let (start, end) = #[trigger] spans[i];
        &&& start == all[i]
        &&& start < end <= line.len()
        &&& hay.subrange(start as int, end as int) == needle
    } by {
        assert(all.contains(all[i]));
        assert(occurs_at(hay, needle, all[i]));
        assert(ranges[i] == (all[i] as usize, (all[i] + needle.len()) as usize));
    }
    assert forall|i: int, j: int| 0 <= i < j < spans.len() implies (#[trigger] spans[i]).0 < (
    #[trigger] spans[j]).0 by {
        assert(all[i] < all[j]);
        assert(spans[i].0 == all[i] && spans[j].0 == all[j]);
    }
    assert(state.line_match(&mat, col, ranges, is_definition).match_byte_offsets == spans);
    assert forall|at: int| #[trigger] occurs_at(hay, needle, at) implies exists|i: int|
        0 <= i < spans.len() && (#[trigger] spans[i]).0 == at by {
        assert(all.contains(at));
        let i = choose|i: int| 0 <= i < all.len() && all[i] == at;
        assert(spans[i].0 == at);
    }
}

/// The column of a literal is where it first stands in the line, displayed or not.
pub proof fn law_column_is_the_first_occurrence(
    line: Seq<u8>,
    needle: Seq<u8>,
    case_insensitive: bool,
    at: int,
)
    requires
        line.len() <= usize::MAX,
        needle.len() > 0,
        occurs_at(folded(line, case_insensitive), needle, at),
    ensures
        ({
            let col = first_start(needle_spans(line, needle, case_insensitive)) as int;
            &&& occurs_at(folded(line, case_insensitive), needle, col)
            &&& col <= at
        }),
{
    let hay = folded(line, case_insensitive);
    let all = occurrences(hay, needle);
    law_occurrences_are_complete(hay, needle, hay.len() as int);
    assert(all.contains(at));
    assert(all.contains(all[0]));
    let k = choose|k: int| 0 <= k < all.len() && all[k] == at;
    if k > 0 {
        assert(all[0] < all[k]);
    }
    assert(needle_spans(line, needle, case_insensitive)[0].0 == all[0]);
}

/// The match that a sink records has the context that its state asks for: of the lines before the
/// matched ones the last, at most `before_context` of them, and of the lines behind them the first,
/// at most `after_context` of them. Each number counts for its own side, and 0 gives no line there.
pub proof fn law_recorded_context_has_its_own_bounds<D: Fn(&str) -> bool>(
    before: SinkState,
    mat: SinkMatch,
    col: usize,
    ranges: Seq<(usize, usize)>,
    is_definition_line: D,
    after: SinkState,
    wants_more: bool,
)
    requires
        mat.in_bounds(),
        before.after_line(&mat, col, ranges, is_definition_line, &after, wants_more),
        wants_more,
    ensures
        after.matches@.len() > 0,
        ({
            let m = after.matches@.last();
            let lines = if mat.start > 0 {
                pieces(mat.buffer@.take(mat.start - 1))
            } else {
                Seq::empty()
            };
            let given = m.context_before@;
            &&& given.len() == if before.before_context < lines.len() {
                before.before_context as int
            } else {
                lines.len() as int
            }
            &&& forall|k: int|
                0 <= k < given.len() ==> (#[trigger] given[k])@ == context_text(
                    lines[lines.len() - given.len() + k],
                )
        }),
        ({
            let m = after.matches@.last();
            let lines = lines_of(mat.buffer@.skip(mat.end as int));
            let given = m.context_after@;
            &&& given.len() == if before.after_context < lines.len() {
                before.after_context as int
            } else {
                lines.len() as int
            }
            &&& forall|k: int|
                0 <= k < given.len() ==> (#[trigger] given[k])@ == context_text(lines[k])
        }),
{
    let is_definition = lemma_last_match(
        before,
        mat,
        col,
        ranges,
        is_definition_line,
        after,
        wants_more,
    );
    let m = after.matches@.last();
    let view = before.line_match(&mat, col, ranges, is_definition);
    law_context_before_is_the_last_lines(
        mat.buffer@,
        mat.start as int,
        before.before_context as int,
    );
    law_context_after_is_the_first_lines(mat.buffer@, mat.end as int, before.after_context as int);
    assert(texts(m.context_before@) == view.context_before);
    assert(texts(m.context_after@) == view.context_after);
    assert forall|k: int| 0 <= k < m.context_before@.len() implies (
    #[trigger] m.context_before@[k])@ == view.context_before[k] by {
        assert(texts(m.context_before@)[k] == m.context_before@[k]@);
    }
    assert forall|k: int| 0 <= k < m.context_after@.len() implies (
    #[trigger] m.context_after@[k])@ == view.context_after[k] by {
        assert(texts(m.context_after@)[k] == m.context_after@[k]@);
    }
}

/// The match added last, and how it is marked.
proof fn lemma_last_match<D: Fn(&str) -> bool>(
    before: SinkState,
    mat: SinkMatch,
    col: usize,
    ranges: Seq<(usize, usize)>,
    is_definition_line: D,
    after: SinkState,
    wants_more: bool,
) -> (is_definition: bool)
    requires
        before.after_line(&mat, col, ranges, is_definition_line, &after, wants_more),
        wants_more,
    ensures
        after.matches@.len() == before.matches@.len() + 1,
        after.matches@.last()@ == before.line_match(&mat, col, ranges, is_definition),
        forall|i: int|
            0 <= i < before.matches@.len() ==> (#[trigger] after.matches@[i])@
                == before.matches@[i]@,
        classified_as(
            is_definition_line,
            before.classify_definitions,
            display_text(mat.shown()),
            is_definition,
        ),
{
    let is_definition = choose|is_definition: bool|
        {
            &&& #[trigger] classified_as(
                is_definition_line,
                before.classify_definitions,
                display_text(mat.shown()),
                is_definition,
            )
            &&& match_views(after.matches@) == match_views(before.matches@).push(
                before.line_match(&mat, col, ranges, is_definition),
            )
        };
    let (was, is) = (match_views(before.matches@), match_views(after.matches@));
    assert(was.len() == before.matches@.len());
    assert(is.len() == after.matches@.len());
    assert(is.last() == after.matches@.last()@);
    assert forall|i: int| 0 <= i < before.matches@.len() implies (#[trigger] after.matches@[i])@
        == before.matches@[i]@ by {
        assert(is[i] == was[i]);
    }
    is_definition
}

/// A sink records every line that is reported to it, behind those that it has, until it has as many
/// as are wanted; from then on it records nothing and wants no more. 0 wants all of them.
pub proof fn law_sink_records_lines_up_to_its_limit<D: Fn(&str) -> bool>(
    before: SinkState,
    mat: SinkMatch,
    col: usize,
    ranges: Seq<(usize, usize)>,
    is_definition_line: D,
    after: SinkState,
    wants_more: bool,
)
    requires
        before.after_line(&mat, col, ranges, is_definition_line, &after, wants_more),
    ensures
        wants_more <==> before.max_matches == 0 || before.matches@.len() < before.max_matches,
        after.matches@.len() == if wants_more {
            before.matches@.len() + 1
        } else {
            before.matches@.len()
        },
        forall|i: int|
            0 <= i < before.matches@.len() ==> (#[trigger] after.matches@[i])@
                == before.matches@[i]@,
        after.max_matches == before.max_matches,
        after.before_context == before.before_context,
        after.after_context == before.after_context,
        after.file_index == before.file_index,
        after.classify_definitions == before.classify_definitions,
{
    if wants_more {
        let _ = lemma_last_match(before, mat, col, ranges, is_definition_line, after, wants_more);
    } else {
        let (was, is) = (match_views(before.matches@), match_views(after.matches@));
        assert(was.len() == before.matches@.len());
        assert(is.len() == after.matches@.len());
        assert forall|i: int| 0 <= i < before.matches@.len() implies (
        #[trigger] after.matches@[i])@ == before.matches@[i]@ by {
            assert(is[i] == was[i]);
        }
    }
}

/// The match that a sink records says where the line is, as it was reported, and what of it is
/// marked; it has no fuzzy score, and is marked as a definition only where that was asked for and
/// the classifier said so of the displayed text.
pub proof fn law_recorded_match_is_the_reported_line<D: Fn(&str) -> bool>(
    before: SinkState,
    mat: SinkMatch,
    col: usize,
    ranges: Seq<(usize, usize)>,
    is_definition_line: D,
    after: SinkState,
    wants_more: bool,
)
    requires
        before.after_line(&mat, col, ranges, is_definition_line, &after, wants_more),
        wants_more,
    ensures
        ({
            let m = after.matches@.last()@;
            &&& m.file_index == before.file_index
            &&& m.line_number == if mat.line_number is Some {
                mat.line_number->0
            } else {
                0
            }
            &&& m.byte_offset == mat.absolute_byte_offset
            &&& m.col == col
            &&& m.line_content == display_text(display_prefix(mat.line()))
            &&& m.match_byte_offsets.len() == ranges.len()
            &&& forall|i: int|
                0 <= i < ranges.len() ==> #[trigger] m.match_byte_offsets[i] == (
                    ranges[i].0 as u32,
                    ranges[i].1 as u32,
                )
            &&& m.fuzzy_score is None
            &&& !before.classify_definitions ==> !m.is_definition
            &&& before.classify_definitions ==> exists|arg: &str|
                arg@ == m.line_content && #[trigger] call_ensures(
                    is_definition_line,
                    (arg,),
                    m.is_definition,
                )
        }),
{
    let is_definition = lemma_last_match(
        before,
        mat,
        col,
        ranges,
        is_definition_line,
        after,
        wants_more,
    );
    if before.classify_definitions {
        let arg = choose|arg: &str|
            arg@ == display_text(mat.shown()) && #[trigger] call_ensures(
                is_definition_line,
                (arg,),
                is_definition,
            );
        assert(call_ensures(is_definition_line, (arg,), after.matches@.last()@.is_definition));
    }
}

/// The line of a match is what was reported of the buffer, up to where nothing but line feeds and
/// carriage returns follows.
pub proof fn law_line_is_what_was_reported(mat: SinkMatch, end: int)
    requires
        mat.in_bounds(),
        mat.start <= end <= mat.end,
        forall|i: int|
            end <= i < mat.end ==> #[trigger] mat.buffer@[i] == 0x0a || mat.buffer@[i] == 0x0d,
        end > mat.start ==> mat.buffer@[end - 1] != 0x0a && mat.buffer@[end - 1] != 0x0d,
    ensures
        mat.line() == mat.buffer@.subrange(mat.start as int, end),
{
    let bytes = mat.matched_bytes();
    law_stripping_removes_only_terminators(bytes);
    let kept = without_terminators(bytes).len() as int;
    let wanted = end - mat.start;
    assert(kept == wanted) by {
        if kept < wanted {
            assert(is_line_terminator(bytes[wanted - 1]));
            assert(bytes[wanted - 1] == mat.buffer@[end - 1]);
        }
        if kept > wanted {
            assert(without_terminators(bytes).last() == bytes[kept - 1]);
            assert(bytes[kept - 1] == mat.buffer@[mat.start + kept - 1]);
        }
    }
    assert(mat.line() =~= mat.buffer@.subrange(mat.start as int, end));
}

/// A literal is highlighted at every place where it stands in a line, overlapping ones too, from
/// its first byte to its last, and nowhere else. Its column is the first such place in the line, or
/// 0 where there is none.
pub proof fn law_literal_is_marked_wherever_it_stands<'p>(sink: PlainTextSink<'p>, line: Seq<u8>)
    requires
        sink.needle@.len() > 0,
        line.len() <= usize::MAX,
        sink.case_insensitive ==> forall|i: int|
            0 <= i < sink.needle@.len() ==> !(0x41 <= #[trigger] sink.needle@[i] <= 0x5a),
    ensures
        ({
            let ranges = LineSink::PlainText(sink).highlights(line);
            let col = LineSink::PlainText(sink).column(line) as int;
            let (needle, fold) = (sink.needle@, sink.case_insensitive);
            &&& forall|i: int|
                0 <= i < ranges.len() ==> {
                    let (start, end) = #[trigger] ranges[i];
                    &&& stands_at(line, needle, fold, start as int)
                    &&& end == start + needle.len()
                }
            &&& forall|i: int, j: int|
                0 <= i < j < ranges.len() ==> (#[trigger] ranges[i]).0 < (#[trigger] ranges[j]).0
            &&& forall|at: int| #[trigger]
                stands_at(line, needle, fold, at) ==> {
                    &&& exists|i: int| 0 <= i < ranges.len() && (#[trigger] ranges[i]).0 == at
                    &&& stands_at(line, needle, fold, col)
                    &&& col <= at
                }
            &&& (forall|at: int| !#[trigger] stands_at(line, needle, fold, at)) ==> col == 0
        }),
{
    let (needle, fold) = (sink.needle@, sink.case_insensitive);
    let hay = folded(line, fold);
    let all = occurrences(hay, needle);
    let ranges = LineSink::PlainText(sink).highlights(line);
    law_occurrences_are_complete(hay, needle, hay.len() as int);
    assert(hay.len() == line.len());
    assert forall|at: int| #[trigger] stands_at(line, needle, fold, at) <==> occurs_at(
        hay,
        needle,
        at,
    ) by {
        law_occurrence_is_where_the_needle_stands(line, needle, fold, at);
    }
    assert forall|i: int| 0 <= i < ranges.len() implies {
        let (start, end) = #[trigger] ranges[i];
        &&& start == all[i]
        &&& stands_at(line, needle, fold, start as int)
        &&& end == start + needle.len()
    } by {
        assert(all.contains(all[i]));
        assert(occurs_at(hay, needle, all[i]));
    }
    assert forall|i: int, j: int| 0 <= i < j < ranges.len() implies (#[trigger] ranges[i]).0 < (
    #[trigger] ranges[j]).0 by {
        assert(all[i] < all[j]);
        assert(ranges[i].0 == all[i] && ranges[j].0 == all[j]);
    }
    assert forall|at: int| #[trigger] stands_at(line, needle, fold, at) implies {
        let col = LineSink::PlainText(sink).column(line) as int;
        &&& exists|i: int| 0 <= i < ranges.len() && (#[trigger] ranges[i]).0 == at
        &&& stands_at(line, needle, fold, col)
        &&& col <= at
    } by {
        assert(all.contains(at));
        let i = choose|i: int| 0 <= i < all.len() && all[i] == at;
        assert(ranges[i].0 == at);
        law_column_is_the_first_occurrence(line, needle, fold, at);
    }
    if forall|at: int| !#[trigger] stands_at(line, needle, fold, at) {
        if ranges.len() > 0 {
            assert(stands_at(line, needle, fold, ranges[0].0 as int));
        }
    }
}

/// Of several literals every place where one of them stands is highlighted, overlapping ones too,
/// and nothing else. The column is where the first such place in the line starts, or 0 where there
/// is none.
pub proof fn law_literals_are_marked_wherever_they_stand<'p>(
    sink: AhoCorasickSink<'p>,
    line: Seq<u8>,
)
    requires
        line.len() <= usize::MAX,
    ensures
        ({
            let ranges = LineSink::AnyOf(sink).highlights(line);
            let col = LineSink::AnyOf(sink).column(line) as int;
            let (literals, fold) = (sink.ac.literals(), sink.ac.ignores_case());
            &&& forall|i: int, j: int|
                0 <= i < j < ranges.len() ==> {
                    let (a, b) = (#[trigger] ranges[i], #[trigger] ranges[j]);
                    a.0 < b.0 || (a.0 == b.0 && a.1 < b.1)
                }
            &&& forall|start: usize, end: usize| #[trigger]
                ranges.contains((start, end)) <==> some_literal_at(
                    literals,
                    fold,
                    line,
                    start as int,
                    end as int,
                )
            &&& forall|start: usize, end: usize| #[trigger]
                some_literal_at(literals, fold, line, start as int, end as int) ==> col <= start
            &&& if ranges.len() > 0 {
                exists|end: usize| #[trigger]
                    some_literal_at(literals, fold, line, col, end as int)
            } else {
                col == 0
            }
        }),
{
    let (literals, fold) = (sink.ac.literals(), sink.ac.ignores_case());
    let ranges = LineSink::AnyOf(sink).highlights(line);
    law_literal_spans_are_complete(literals, fold, line);
    assert forall|i: int, j: int| 0 <= i < j < ranges.len() implies {
        let (a, b) = (#[trigger] ranges[i], #[trigger] ranges[j]);
        a.0 < b.0 || (a.0 == b.0 && a.1 < b.1)
    } by {
        assert(span_before(ranges[i], ranges[j]));
    }
    if ranges.len() > 0 {
        assert(ranges.contains((ranges[0].0, ranges[0].1)));
        let end = ranges[0].1;
        assert(some_literal_at(literals, fold, line, ranges[0].0 as int, end as int));
    }
    assert forall|start: usize, end: usize| #[trigger]
        some_literal_at(literals, fold, line, start as int, end as int) implies LineSink::AnyOf(
        sink,
    ).column(line) <= start by {
        assert(ranges.contains((start, end)));
        let k = choose|k: int| 0 <= k < ranges.len() && ranges[k] == (start, end);
        if k > 0 {
            assert(span_before(ranges[0], ranges[k]));
        }
    }
}

/// A regex is highlighted where it matches, and the column is where its first match in the line
/// starts, or 0 where there is none.
pub proof fn law_regex_is_marked_where_it_matches<'p>(sink: RegexSink<'p>, line: Seq<u8>)
    ensures
        ({
            let (source, fold) = (sink.re.source(), sink.re.ignores_case());
            &&& LineSink::Regex(sink).highlights(line) == regex_matches(
                source,
                fold,
                true,
                false,
                line,
            )
            &&& LineSink::Regex(sink).column(line) == match regex_match_at(
                source,
                fold,
                true,
                false,
                line,
                0,
            ) {
                Some((start, _)) => start,
                None => 0,
            }
        }),
{
}

/// What is highlighted is looked for in the displayed text, byte for byte.
pub proof fn law_highlights_are_looked_for_in_what_is_displayed(mat: SinkMatch)
    ensures
        mat.shown() == display_prefix(mat.line()),
        mat.text_bytes() == encode_utf8(display_text(display_prefix(mat.line()))),
        mat.text_bytes().len() <= MAX_LINE_DISPLAY_LEN,
{
    law_display_text_is_bounded(mat.shown());
}

} // verus!
