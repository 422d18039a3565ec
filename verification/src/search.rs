//! What a query asks for, and how each file is searched for it.
use crate::constraints::Constraint;
use crate::escapes::{
    has_newline_escape, has_unescaped_newline_escape, law_escape_becomes_line_feed,
    law_escapes_are_odd_runs, law_no_escape_no_change, newlines_unescaped,
    replace_unescaped_newline_escapes, run_of_backslashes,
};
use crate::matcher::{AhoCorasickMatcher, LineMatcher, PlainTextMatcher, RegexMatcher};
use crate::needle::{
    ascii_lower, folded, law_folding_is_bytewise, law_lowered_search_ignores_ascii_case,
    law_occurrence_is_where_the_needle_stands, occurs_at, same_but_for_case, stands_at,
    to_ascii_lowercase,
};
use crate::options::{GrepMode, GrepSearchOptions};
use crate::page::GrepResult;
use crate::patterns::{
    build_regex, is_compiled_from, literal_spans, regex_built, regex_source, slice_texts,
    CompiledRegex, PatternSet,
};
use crate::sink::{
    first_start, needle_spans, regex_column, AhoCorasickSink, LineSink, PlainTextSink, RegexSink,
    SinkState,
};
use crate::text::{
    contains_uppercase, is_upper, law_smart_case_looks_at_every_character, smart_case_insensitive,
    without_outer_space,
};
use vstd::prelude::*;
use vstd::string::StrSliceExecFns;
use vstd::utf8::{encode_utf8, encode_utf8_decode_utf8};

verus! {

/// A query as its parser understood it.
#[derive(Debug, Clone)]
pub struct GrepQuery {
    /// What the user typed.
    pub raw_query: String,
    /// The text tokens, joined; `None` where the query is empty or made of constraints alone.
    pub text: Option<String>,
    pub constraints: Vec<Constraint>,
}

/// What follows the backslash of a query that starts with one, white space around it aside.
pub open spec fn escaped_suffix(raw_query: Seq<char>) -> Option<Seq<char>> {
    let trimmed = without_outer_space(raw_query);
    if trimmed.len() > 1 && trimmed[0] == '\\' {
        Some(trimmed.skip(1))
    } else {
        None
    }
}

impl GrepQuery {
    /// What must be parsed to know the text to be searched for.
    pub open spec fn suffix(&self) -> Option<Seq<char>> {
        if self.text is Some {
            None
        } else {
            escaped_suffix(self.raw_query@)
        }
    }

    /// The text to be searched for. In a query without text tokens a leading backslash says that
    /// what follows is no constraint; it is removed where it would be one.
    pub open spec fn searched_text(&self, suffix_has_constraints: bool) -> Seq<char> {
        match self.text {
            Some(text) => text@,
            None => match escaped_suffix(self.raw_query@) {
                Some(suffix) => if suffix_has_constraints {
                    suffix
                } else {
                    without_outer_space(self.raw_query@)
                },
                None => without_outer_space(self.raw_query@),
            },
        }
    }

    /// The part of the query that [`GrepQuery::grep_text`] needs to be parsed once more.
    pub fn suffix_to_parse(&self) -> (suffix: Option<String>)
        ensures
            match suffix {
                Some(s) => self.suffix() == Some(s@),
                None => self.suffix() is None,
            },
    {
        if self.text.is_some() {
            return None;
        }
        let trimmed: &str = self.raw_query.as_str().trim();
        let count: usize = trimmed.unicode_len();
        if count > 1 && trimmed.get_char(0) == '\\' {
            let rest: &str = trimmed.substring_char(1, count);
            assert(rest@ =~= trimmed@.skip(1));
            Some(rest.to_string())
        } else {
            None
        }
    }

    /// The text to be searched for, given whether the escaped part of the query, if there is one,
    /// parses to any constraint.
    pub fn grep_text(&self, suffix_has_constraints: bool) -> (text: String)
        ensures
            text@ == self.searched_text(suffix_has_constraints),
    {
        if let Some(text) = &self.text {
            return text.clone();
        }
        if suffix_has_constraints {
            if let Some(suffix) = self.suffix_to_parse() {
                return suffix;
            }
        }
        self.raw_query.as_str().trim().to_string()
    }
}

/// Number of bigrams of a fuzzy search text that an index is probed with.
pub const FUZZY_BIGRAM_PROBES: usize = 7;

/// What an index is asked, to rule files out.
pub enum BigramQuery<'p> {
    /// Which files may hold this literal; of the changed files, those that may hold it.
    Literal(&'p [u8]),
    /// Which files may hold a match of this regex; of the changed files, all.
    Regex(&'p str),
    /// Which files may hold this text with typos; of the changed files, all.
    Fuzzy { text: &'p str, probes: usize },
}

/// The number of files, from the start of the list, that the index covers: all of them, unless
/// changes since it was built are recorded.
pub open spec fn indexed_files(overlay_base_count: Option<usize>, file_count: usize) -> usize {
    match overlay_base_count {
        Some(count) => count,
        None => file_count,
    }
}

/// The number of files, from the start of the list, that the index covers.
pub fn bigram_boundary(overlay_base_count: Option<usize>, file_count: usize) -> (boundary: usize)
    ensures
        boundary == indexed_files(overlay_base_count, file_count),
{
    match overlay_base_count {
        Some(count) => count,
        None => file_count,
    }
}

/// The pattern that is searched for: the text itself, or, where it holds an unescaped `\n`, the
/// text with those made line feeds.
pub open spec fn pattern_bytes(text: Seq<char>) -> Seq<u8> {
    let bytes = encode_utf8(text);
    if has_newline_escape(bytes) {
        newlines_unescaped(bytes, 0)
    } else {
        bytes
    }
}

/// How the lines of a file are searched for a text.
pub struct ContentPlan {
    /// The compiled text in regex mode, unless it does not compile.
    pub regex: Option<CompiledRegex>,
    /// Why the text does not compile in regex mode.
    pub regex_fallback_error: Option<String>,
    pub is_multiline: bool,
    pub effective_pattern: String,
    /// The pattern as it is compared with the bytes of a file, lowered when case is ignored.
    pub finder_pattern: Vec<u8>,
    pub case_insensitive: bool,
}

impl ContentPlan {
    /// The plan is the one for a text, given what the text compiled to in regex mode.
    pub open spec fn is_for(
        &self,
        text: Seq<char>,
        smart_case: bool,
        compiled: Option<Result<CompiledRegex, String>>,
    ) -> bool {
        &&& self.case_insensitive == smart_case_insensitive(smart_case, text)
        &&& self.is_multiline == has_newline_escape(encode_utf8(text))
        &&& encode_utf8(self.effective_pattern@) == pattern_bytes(text)
        &&& self.finder_pattern@ == folded(pattern_bytes(text), self.case_insensitive)
        &&& match compiled {
            None => self.regex is None && self.regex_fallback_error is None,
            Some(Ok(regex)) => self.regex == Some(regex) && self.regex_fallback_error is None,
            Some(Err(message)) => self.regex is None && self.regex_fallback_error == Some(message),
        }
    }

    /// The plan can be searched by: its pattern is not empty.
    pub open spec fn usable(&self) -> bool {
        self.finder_pattern@.len() > 0
    }

    /// The plan for a text, given what it compiled to in regex mode. A text that does not compile
    /// is searched for literally.
    pub fn new(
        text: &str,
        smart_case: bool,
        compiled: Option<Result<CompiledRegex, String>>,
    ) -> (plan: Self)
        requires
            text@.len() > 0,
        ensures
            plan.is_for(text@, smart_case, compiled),
            plan.usable(),
            plan.case_insensitive <==> smart_case && forall|i: int|
                0 <= i < text@.len() ==> !is_upper(#[trigger] text@[i]),
    {
        let case_insensitive: bool = smart_case && !contains_uppercase(text);
        let is_multiline: bool = has_unescaped_newline_escape(text);
        let effective_pattern: String = if is_multiline {
            replace_unescaped_newline_escapes(text)
        } else {
            text.to_string()
        };
        let bytes: &[u8] = effective_pattern.as_str().as_bytes();
        let finder_pattern: Vec<u8> = if case_insensitive {
            to_ascii_lowercase(bytes)
        } else {
            vstd::slice::slice_to_vec(bytes)
        };
        proof {
            lemma_pattern_not_empty(text@);
        }
        let (regex, regex_fallback_error): (Option<CompiledRegex>, Option<String>) =
            match compiled {
            None => (None, None),
            Some(Ok(regex)) => (Some(regex), None),
            Some(Err(message)) => (None, Some(message)),
        };
        ContentPlan {
            regex,
            regex_fallback_error,
            is_multiline,
            effective_pattern,
            finder_pattern,
            case_insensitive,
        }
    }

    /// This is what an index is asked for the plan.
    pub open spec fn asks(&self, question: BigramQuery) -> bool {
        match question {
            BigramQuery::Literal(bytes) => self.regex is None && bytes@ == encode_utf8(
                self.effective_pattern@,
            ),
            BigramQuery::Regex(pattern) => self.regex is Some && pattern@
                == self.effective_pattern@,
            BigramQuery::Fuzzy { .. } => false,
        }
    }

    /// What an index is asked for this plan.
    pub fn bigram_query(&self) -> (query: BigramQuery<'_>)
        ensures
            self.asks(query),
    {
        if self.regex.is_none() {
            BigramQuery::Literal(self.effective_pattern.as_str().as_bytes())
        } else {
            BigramQuery::Regex(self.effective_pattern.as_str())
        }
    }

    /// The literal without which a file cannot match: the pattern, unless it is a regex.
    pub open spec fn literal(&self) -> Option<Seq<u8>> {
        if self.regex is None {
            Some(self.finder_pattern@)
        } else {
            None
        }
    }

    /// The literal without which a file cannot match.
    pub fn prefilter(&self) -> (needle: Option<&[u8]>)
        ensures
            match needle {
                Some(bytes) => self.literal() == Some(bytes@),
                None => self.literal() is None,
            },
    {
        if self.regex.is_none() {
            Some(self.finder_pattern.as_slice())
        } else {
            None
        }
    }

    /// Finds the lines of a file that match.
    pub fn matcher(&self) -> (matcher: LineMatcher<'_>)
        ensures
            match matcher {
                LineMatcher::Regex(m) => self.regex == Some(*m.regex) && m.is_multiline
                    == self.is_multiline,
                LineMatcher::PlainText(m) => self.regex is None && m.needle@ == self.finder_pattern@
                    && m.case_insensitive == self.case_insensitive,
                LineMatcher::AnyOf(_) => false,
            },
    {
        match &self.regex {
            Some(regex) => LineMatcher::Regex(
                RegexMatcher { regex, is_multiline: self.is_multiline },
            ),
            None => LineMatcher::PlainText(
                PlainTextMatcher {
                    needle: self.finder_pattern.as_slice(),
                    case_insensitive: self.case_insensitive,
                },
            ),
        }
    }

    /// Collects the lines of a file that match, up to `max_matches` of them.
    pub fn sink(&self, max_matches: usize, options: &GrepSearchOptions) -> (sink: LineSink<'_>)
        requires
            self.usable(),
        ensures
            sink.usable(),
            sink.state().is_fresh(max_matches, options),
            forall|line: Seq<u8>| #[trigger]
                sink.highlights(line) == match self.regex {
                    Some(regex) => regex.matches_in(line),
                    None => needle_spans(line, self.finder_pattern@, self.case_insensitive),
                },
            forall|line: Seq<u8>| #[trigger]
                sink.column(line) == match self.regex {
                    Some(regex) => regex_column(&regex, line),
                    None => first_start(
                        needle_spans(line, self.finder_pattern@, self.case_insensitive),
                    ),
                },
    {
        let state = SinkState::new(
            max_matches,
            options.before_context,
            options.after_context,
            options.classify_definitions,
        );
        match &self.regex {
            Some(re) => LineSink::Regex(RegexSink { state, re }),
            None => LineSink::PlainText(
                PlainTextSink {
                    state,
                    needle: self.finder_pattern.as_slice(),
                    case_insensitive: self.case_insensitive,
                },
            ),
        }
    }

    /// The result of the whole search: that of the files, with the reason for a fallback to a
    /// literal search.
    pub open spec fn concluded<'a>(&self, result: GrepResult<'a>) -> GrepResult<'a> {
        GrepResult { regex_fallback_error: self.regex_fallback_error, ..result }
    }

    /// The result of the whole search: that of the files, with the reason for a fallback to a
    /// literal search.
    pub fn conclude<'a>(self, result: GrepResult<'a>) -> (concluded: GrepResult<'a>)
        ensures
            concluded == self.concluded(result),
    {
        let mut result = result;
        result.regex_fallback_error = self.regex_fallback_error;
        result
    }
}

/// A pattern is empty only where its text is.
proof fn lemma_pattern_not_empty(text: Seq<char>)
    requires
        text.len() > 0,
    ensures
        pattern_bytes(text).len() > 0,
{
    let bytes = encode_utf8(text);
    assert(bytes.len() > 0) by {
        assert(vstd::utf8::encode_scalar(text[0] as u32).len() > 0);
    }
}

/// What a search text asks for.
pub enum SearchPlan {
    /// Nothing: the text is empty.
    Nothing,
    /// A search that allows for typos.
    Fuzzy { grep_text: String, case_insensitive: bool },
    /// A search of the lines of each file.
    Content(ContentPlan),
}

impl SearchPlan {
    /// The plan is the one for a search text.
    pub open spec fn is_for(&self, text: Seq<char>, options: &GrepSearchOptions) -> bool {
        &&& self is Nothing <==> text.len() == 0
        &&& self is Fuzzy <==> text.len() > 0 && options.mode == GrepMode::Fuzzy
        &&& match self {
            SearchPlan::Nothing => true,
            SearchPlan::Fuzzy { grep_text, case_insensitive } => grep_text@ == text
                && case_insensitive == smart_case_insensitive(options.smart_case, text),
            SearchPlan::Content(content) => {
                &&& content.usable()
                &&& if options.mode == GrepMode::Regex {
                    exists|built: Result<CompiledRegex, String>| #[trigger]
                        is_compiled_from(built, text, options.smart_case) && content.is_for(
                            text,
                            options.smart_case,
                            Some(built),
                        )
                } else {
                    content.is_for(text, options.smart_case, None)
                }
            },
        }
    }

    /// This is what an index is asked for the plan.
    pub open spec fn asks(&self, question: BigramQuery) -> bool {
        match self {
            SearchPlan::Nothing => false,
            SearchPlan::Fuzzy { grep_text, .. } => question matches BigramQuery::Fuzzy {
                text,
                probes,
            } && text@ == grep_text@ && probes == FUZZY_BIGRAM_PROBES,
            SearchPlan::Content(content) => content.asks(question),
        }
    }

    /// The plan for a search text.
    pub fn new(grep_text: String, options: &GrepSearchOptions) -> (plan: Self)
        ensures
            plan.is_for(grep_text@, options),
    {
        if grep_text.as_str().is_empty() {
            return SearchPlan::Nothing;
        }
        match options.mode {
            GrepMode::PlainText => SearchPlan::Content(
                ContentPlan::new(grep_text.as_str(), options.smart_case, None),
            ),
            GrepMode::Fuzzy => {
                let case_insensitive: bool = options.smart_case && !contains_uppercase(
                    grep_text.as_str(),
                );
                SearchPlan::Fuzzy { grep_text, case_insensitive }
            },
            GrepMode::Regex => {
                let built: Result<CompiledRegex, String> = build_regex(
                    grep_text.as_str(),
                    options.smart_case,
                );
                assert(is_compiled_from(built, grep_text@, options.smart_case));
                SearchPlan::Content(
                    ContentPlan::new(grep_text.as_str(), options.smart_case, Some(built)),
                )
            },
        }
    }
}

/// There is no text, or all are empty.
pub open spec fn all_blank(texts: Seq<Seq<char>>) -> bool {
    forall|i: int| 0 <= i < texts.len() ==> (#[trigger] texts[i]).len() == 0
}

/// Whether a search for several patterns has nothing to search for.
pub fn patterns_are_blank(patterns: &[&str]) -> (blank: bool)
    ensures
        blank == all_blank(slice_texts(patterns@)),
{
    let mut i: usize = 0;
    while i < patterns.len()
        invariant
            i <= patterns.len(),
            forall|k: int| 0 <= k < i ==> (#[trigger] slice_texts(patterns@)[k]).len() == 0,
        decreases patterns.len() - i,
    {
        if !patterns[i].is_empty() {
            assert(slice_texts(patterns@)[i as int].len() > 0);
            return false;
        }
        i += 1;
    }
    true
}

/// Finds the lines of a file that hold one of a set of patterns.
pub fn multi_matcher<'p>(ac: &'p PatternSet) -> (matcher: LineMatcher<'p>)
    ensures
        matcher matches LineMatcher::AnyOf(m) && *m.ac == *ac,
{
    LineMatcher::AnyOf(AhoCorasickMatcher { ac })
}

/// Collects the lines of a file that hold one of a set of patterns.
pub fn multi_sink<'p>(
    ac: &'p PatternSet,
    max_matches: usize,
    options: &GrepSearchOptions,
) -> (sink: LineSink<'p>)
    ensures
        sink.usable(),
        sink.state().is_fresh(max_matches, options),
        forall|line: Seq<u8>| #[trigger]
            sink.highlights(line) == literal_spans(ac.literals(), ac.ignores_case(), line),
        forall|line: Seq<u8>| #[trigger]
            sink.column(line) == first_start(
                literal_spans(ac.literals(), ac.ignores_case(), line),
            ),
{
    LineSink::AnyOf(
        AhoCorasickSink {
            state: SinkState::new(
                max_matches,
                options.before_context,
                options.after_context,
                options.classify_definitions,
            ),
            ac,
        },
    )
}

/// A text that does not compile as a regex is searched for just as it would be in plain text
/// mode, and the reason is kept for the user.
pub proof fn law_bad_regex_falls_back_to_literal(
    plan: ContentPlan,
    text: Seq<char>,
    smart_case: bool,
    message: String,
)
    requires
        plan.is_for(text, smart_case, Some(Err(message))),
    ensures
        (ContentPlan { regex_fallback_error: None, ..plan }).is_for(text, smart_case, None),
        plan.regex_fallback_error == Some(message),
{
}

/// A search runs over line ends if and only if its pattern was typed with an unescaped `\n`: the
/// pattern then holds a line feed. Any other text is its own pattern.
pub proof fn law_newline_escape_makes_a_multiline_search(
    plan: ContentPlan,
    text: Seq<char>,
    smart_case: bool,
    compiled: Option<Result<CompiledRegex, String>>,
)
    requires
        plan.is_for(text, smart_case, compiled),
    ensures
        plan.is_multiline ==> pattern_bytes(text).contains(0x0au8),
        !plan.is_multiline ==> plan.effective_pattern@ == text,
{
    if plan.is_multiline {
        law_escape_becomes_line_feed(encode_utf8(text));
    } else {
        encode_utf8_decode_utf8(plan.effective_pattern@);
        encode_utf8_decode_utf8(text);
    }
}

/// A plain text search finds exactly the places where a content equals the pattern, letter case
/// aside where that is ignored.
pub proof fn law_plain_search_finds_the_pattern(
    plan: ContentPlan,
    text: Seq<char>,
    smart_case: bool,
    compiled: Option<Result<CompiledRegex, String>>,
    content: Seq<u8>,
    at: int,
)
    requires
        plan.is_for(text, smart_case, compiled),
    ensures
        ({
            let pattern = pattern_bytes(text);
            occurs_at(folded(content, plan.case_insensitive), plan.finder_pattern@, at) <==> {
                &&& 0 <= at && at + pattern.len() <= content.len()
                &&& forall|i: int|
                    0 <= i < pattern.len() ==> {
                        let (found, wanted) = (#[trigger] content[at + i], pattern[i]);
                        if plan.case_insensitive {
                            ascii_lower(found) == ascii_lower(wanted)
                        } else {
                            found == wanted
                        }
                    }
            }
        }),
{
    let pattern = pattern_bytes(text);
    if plan.case_insensitive {
        law_lowered_search_ignores_ascii_case(content, pattern, at);
    } else if 0 <= at && at + pattern.len() <= content.len() {
        let window = content.subrange(at, at + pattern.len());
        if forall|i: int| 0 <= i < pattern.len() ==> (#[trigger] content[at + i]) == pattern[i] {
            assert forall|i: int| 0 <= i < pattern.len() implies window[i] == pattern[i] by {
                assert(window[i] == content[at + i]);
            }
            assert(window =~= pattern);
        }
        if window == pattern {
            assert forall|i: int| 0 <= i < pattern.len() implies (#[trigger] content[at + i])
                == pattern[i] by {
                assert(window[i] == pattern[i]);
            }
        }
    }
}

/// With smart case a search is case-sensitive if and only if some character of its text, at any
/// position, is uppercase; without it every search is.
pub proof fn law_search_ignores_case_unless_a_character_is_upper(
    plan: SearchPlan,
    text: Seq<char>,
    options: &GrepSearchOptions,
)
    requires
        plan.is_for(text, options),
    ensures
        plan matches SearchPlan::Content(content) ==> (content.case_insensitive <==> {
            &&& options.smart_case
            &&& forall|i: int| 0 <= i < text.len() ==> !is_upper(#[trigger] text[i])
        }),
        plan matches SearchPlan::Fuzzy { case_insensitive, .. } ==> (case_insensitive <==> {
            &&& options.smart_case
            &&& forall|i: int| 0 <= i < text.len() ==> !is_upper(#[trigger] text[i])
        }),
{
    law_smart_case_looks_at_every_character(options.smart_case, text);
}

/// The pattern of a plan is the text with every unescaped `\n` made a line feed; a search runs over
/// line ends if and only if the text holds one. The bytes searched for are those of the pattern,
/// with their capital letters made small where case is ignored.
pub proof fn law_plan_searches_for_the_text(
    plan: ContentPlan,
    text: Seq<char>,
    smart_case: bool,
    compiled: Option<Result<CompiledRegex, String>>,
)
    requires
        plan.is_for(text, smart_case, compiled),
    ensures
        encode_utf8(plan.effective_pattern@) == newlines_unescaped(encode_utf8(text), 0),
        plan.finder_pattern@.len() == encode_utf8(plan.effective_pattern@).len(),
        forall|i: int|
            0 <= i < plan.finder_pattern@.len() ==> #[trigger] plan.finder_pattern@[i] == {
                let byte = encode_utf8(plan.effective_pattern@)[i];
                if plan.case_insensitive && 0x41 <= byte <= 0x5a {
                    byte + 0x20
                } else {
                    byte as int
                }
            },
        plan.is_multiline <==> exists|at: int, run: int|
            {
                &&& #[trigger] run_of_backslashes(encode_utf8(text), at, run)
                &&& run % 2 == 1
                &&& at < encode_utf8(text).len()
                &&& encode_utf8(text)[at] == 0x6e
            },
{
    let bytes = encode_utf8(text);
    law_escapes_are_odd_runs(bytes);
    if !has_newline_escape(bytes) {
        law_no_escape_no_change(bytes);
    }
    law_folding_is_bytewise(pattern_bytes(text), plan.case_insensitive);
}

/// The mode decides how a text is searched for: literally, by the regex that it compiles to, or
/// with room for typos. A text that does not compile is searched for literally, and the compiler's
/// message is kept. An empty text is not searched for at all.
pub proof fn law_mode_decides_the_plan(
    plan: SearchPlan,
    text: Seq<char>,
    options: &GrepSearchOptions,
)
    requires
        plan.is_for(text, options),
    ensures
        text.len() == 0 ==> plan is Nothing,
        text.len() > 0 && options.mode == GrepMode::Fuzzy ==> {
            plan matches SearchPlan::Fuzzy { grep_text, .. } && grep_text@ == text
        },
        text.len() > 0 && options.mode == GrepMode::PlainText ==> {
            &&& plan matches SearchPlan::Content(content)
            &&& content.regex is None
            &&& content.regex_fallback_error is None
        },
        text.len() > 0 && options.mode == GrepMode::Regex ==> {
            &&& plan matches SearchPlan::Content(content)
            &&& match regex_built(
                regex_source(text),
                content.case_insensitive,
                true,
                false,
            ) {
                Ok(_) => {
                    &&& content.regex matches Some(regex)
                    &&& regex.source() == regex_source(text)
                    &&& regex.ignores_case() == content.case_insensitive
                    &&& content.regex_fallback_error is None
                },
                Err(message) => {
                    &&& content.regex is None
                    &&& content.regex_fallback_error matches Some(kept)
                    &&& kept@ == message
                },
            }
        },
{
}

/// An index is asked for the pattern that is searched for, literally or as a regex as the files are
/// searched for it, and for a text with typos by the text itself.
pub proof fn law_index_is_asked_for_what_is_searched_for(
    plan: SearchPlan,
    text: Seq<char>,
    options: &GrepSearchOptions,
    question: BigramQuery,
)
    requires
        plan.is_for(text, options),
        plan.asks(question),
    ensures
        match question {
            BigramQuery::Literal(bytes) => {
                &&& plan matches SearchPlan::Content(content)
                &&& content.regex is None
                &&& bytes@ == newlines_unescaped(encode_utf8(text), 0)
            },
            BigramQuery::Regex(pattern) => {
                &&& plan matches SearchPlan::Content(content)
                &&& content.regex is Some
                &&& encode_utf8(pattern@) == newlines_unescaped(encode_utf8(text), 0)
            },
            BigramQuery::Fuzzy { text: asked, probes } => {
                &&& options.mode == GrepMode::Fuzzy
                &&& asked@ == text
                &&& probes == 7
            },
        },
{
    if !has_newline_escape(encode_utf8(text)) {
        law_no_escape_no_change(encode_utf8(text));
    }
}

/// Files are skipped unread for want of a literal only where that literal is what is searched for:
/// never in a search by a regex.
pub proof fn law_literal_is_what_is_searched_for(
    plan: ContentPlan,
    text: Seq<char>,
    smart_case: bool,
    compiled: Option<Result<CompiledRegex, String>>,
)
    requires
        plan.is_for(text, smart_case, compiled),
    ensures
        match plan.literal() {
            Some(needle) => plan.regex is None && needle == plan.finder_pattern@,
            None => plan.regex is Some,
        },
{
}

/// What a search reports of the files does not depend on why a text was not searched for as a
/// regex, and the reason that is reported is the plan's.
pub proof fn law_conclusion_adds_the_reason_alone<'a>(plan: ContentPlan, result: GrepResult<'a>)
    ensures
        ({
            let concluded = plan.concluded(result);
            &&& concluded.matches == result.matches
            &&& concluded.files == result.files
            &&& concluded.total_files_searched == result.total_files_searched
            &&& concluded.total_files == result.total_files
            &&& concluded.filtered_file_count == result.filtered_file_count
            &&& concluded.files_with_matches == result.files_with_matches
            &&& concluded.next_file_offset == result.next_file_offset
            &&& concluded.regex_fallback_error == plan.regex_fallback_error
        }),
{
}

/// A plain text search finds exactly the places where a content equals the text, unescaped, letter
/// case aside where that is ignored.
pub proof fn law_plain_search_finds_the_text(
    plan: ContentPlan,
    text: Seq<char>,
    smart_case: bool,
    compiled: Option<Result<CompiledRegex, String>>,
    content: Seq<u8>,
    at: int,
)
    requires
        plan.is_for(text, smart_case, compiled),
    ensures
        occurs_at(folded(content, plan.case_insensitive), plan.finder_pattern@, at) <==> stands_at(
            content,
            newlines_unescaped(encode_utf8(text), 0),
            plan.case_insensitive,
            at,
        ),
{
    let pattern = newlines_unescaped(encode_utf8(text), 0);
    let fold = plan.case_insensitive;
    let needle = plan.finder_pattern@;
    law_plan_searches_for_the_text(plan, text, smart_case, compiled);
    law_occurrence_is_where_the_needle_stands(content, needle, fold, at);
    if stands_at(content, pattern, fold, at) {
        assert forall|i: int| 0 <= i < needle.len() implies if fold {
            same_but_for_case(content[at + i], #[trigger] needle[i])
        } else {
            content[at + i] == needle[i]
        } by {
            assert(pattern[i] == encode_utf8(plan.effective_pattern@)[i]);
        }
    }
    if stands_at(content, needle, fold, at) {
        assert forall|i: int| 0 <= i < pattern.len() implies if fold {
            same_but_for_case(content[at + i], #[trigger] pattern[i])
        } else {
            content[at + i] == pattern[i]
        } by {
            assert(needle[i] == plan.finder_pattern@[i]);
        }
    }
}

/// The index covers all files unless changes since it was built are recorded: then those that were
/// there when it was built.
pub proof fn law_index_covers_what_it_was_built_for(
    overlay_base_count: Option<usize>,
    file_count: usize,
)
    ensures
        overlay_base_count is None ==> indexed_files(overlay_base_count, file_count) == file_count,
        overlay_base_count is Some ==> indexed_files(overlay_base_count, file_count)
            == overlay_base_count->0,
{
}

/// There is something to search for as soon as one of the texts holds a character.
pub proof fn law_one_text_is_enough_to_search_for(texts: Seq<Seq<char>>)
    ensures
        !all_blank(texts) <==> exists|k: int| 0 <= k < texts.len() && (#[trigger] texts[k]) != Seq::<
            char,
        >::empty(),
{
    assert forall|k: int| 0 <= k < texts.len() implies ((#[trigger] texts[k]).len() == 0
        <==> texts[k] == Seq::<char>::empty()) by {
        if texts[k].len() == 0 {
            assert(texts[k] =~= Seq::<char>::empty());
        }
    }
}

/// Where a query has text tokens they are what it asks for, and nothing needs to be parsed again;
/// otherwise it asks for what was typed, white space around it aside, without a leading backslash
/// where what follows it would be a constraint. A backslash that stands alone stays.
pub proof fn law_query_asks_for_its_tokens_or_what_was_typed(
    query: GrepQuery,
    suffix_has_constraints: bool,
)
    ensures
        query.text matches Some(tokens) ==> {
            &&& query.suffix() is None
            &&& query.searched_text(suffix_has_constraints) == tokens@
        },
        query.text is None ==> {
            let typed = without_outer_space(query.raw_query@);
            let escaped = typed.len() > 1 && typed[0] == '\\';
            &&& query.suffix() is Some <==> escaped
            &&& escaped ==> query.suffix()->0 == typed.skip(1)
            &&& query.searched_text(suffix_has_constraints) == if escaped && suffix_has_constraints {
                typed.skip(1)
            } else {
                typed
            }
        },
{
}

} // verus!
