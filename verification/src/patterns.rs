//! Compiled search patterns: regular expressions and sets of literals.
use crate::escapes::{
    lemma_unescaping_keeps_utf8, newlines_unescaped, replace_unescaped_newline_escapes,
};
use crate::matches::texts;
use crate::needle::{folded, lemma_folded_subrange, occurs_at};
use crate::text::{
    contains_uppercase, has_upper, is_upper, law_smart_case_looks_at_every_character,
    smart_case_insensitive,
};
use aho_corasick::{AhoCorasick, AhoCorasickBuilder, BuildError};
use regex::bytes::{Regex, RegexBuilder};
use vstd::prelude::*;
use vstd::utf8::{
    decode_utf8, decode_utf8_encode_utf8, encode_utf8, encode_utf8_decode_utf8,
    encode_utf8_valid_utf8,
};

verus! {

/// A compiled byte regex.
#[verifier::external_type_specification]
#[verifier::external_body]
pub struct ExRegex(Regex);

/// A compiled Aho-Corasick automaton.
#[verifier::external_type_specification]
#[verifier::external_body]
pub struct ExAhoCorasick(AhoCorasick);

/// The error of a failed Aho-Corasick build.
#[verifier::external_type_specification]
#[verifier::external_body]
pub struct ExBuildError(BuildError);

/// What `regex::bytes::RegexBuilder::build` makes of a pattern and its settings: the compiled
/// regex, or the text of the error.
pub uninterp spec fn regex_built(
    pattern: Seq<char>,
    case_insensitive: bool,
    multi_line: bool,
    unicode: bool,
) -> Result<Regex, Seq<char>>;

/// The first match of such a regex in a haystack that `regex::bytes::Regex::find_at` reports
/// from a position on, as start and end.
pub uninterp spec fn regex_match_at(
    pattern: Seq<char>,
    case_insensitive: bool,
    multi_line: bool,
    unicode: bool,
    haystack: Seq<u8>,
    at: int,
) -> Option<(usize, usize)>;

/// The matches of such a regex in a haystack that `regex::bytes::Regex::find_iter` yields, as
/// start and end.
pub uninterp spec fn regex_matches(
    pattern: Seq<char>,
    case_insensitive: bool,
    multi_line: bool,
    unicode: bool,
    haystack: Seq<u8>,
) -> Seq<(usize, usize)>;

/// What `aho_corasick::AhoCorasickBuilder::build` makes of a list of patterns.
pub uninterp spec fn automaton_built(
    patterns: Seq<Seq<char>>,
    case_insensitive: bool,
) -> Result<AhoCorasick, BuildError>;

/// Ranges that lie within `len` bytes, each behind the one before it.
pub open spec fn ranges_in_order(ranges: Seq<(usize, usize)>, len: int) -> bool {
    &&& forall|i: int|
        0 <= i < ranges.len() ==> (#[trigger] ranges[i]).0 <= ranges[i].1 && ranges[i].1 <= len
    &&& forall|i: int, j: int|
        0 <= i < j < ranges.len() ==> (#[trigger] ranges[i]).1 <= (#[trigger] ranges[j]).0
}

/// The first of some ranges, if there is any.
pub open spec fn first_range(ranges: Seq<(usize, usize)>) -> Option<(usize, usize)> {
    if ranges.len() > 0 {
        Some(ranges[0])
    } else {
        None
    }
}

/// Pattern number `k` stands in the haystack from `start` to `end`.
pub open spec fn literal_at(
    patterns: Seq<Seq<char>>,
    case_insensitive: bool,
    haystack: Seq<u8>,
    k: int,
    start: int,
    end: int,
) -> bool {
    &&& 0 <= k < patterns.len()
    &&& end == start + encode_utf8(patterns[k]).len()
    &&& occurs_at(
        folded(haystack, case_insensitive),
        folded(encode_utf8(patterns[k]), case_insensitive),
        start,
    )
}

/// One of the patterns stands in the haystack from `start` to `end`.
pub open spec fn some_literal_at(
    patterns: Seq<Seq<char>>,
    case_insensitive: bool,
    haystack: Seq<u8>,
    start: int,
    end: int,
) -> bool {
    exists|k: int| literal_at(patterns, case_insensitive, haystack, k, start, end)
}

/// One of the patterns stands somewhere in the haystack.
pub open spec fn some_literal_occurs(
    patterns: Seq<Seq<char>>,
    case_insensitive: bool,
    haystack: Seq<u8>,
) -> bool {
    exists|start: int, end: int|
        some_literal_at(patterns, case_insensitive, haystack, start, end)
}

/// The place where a pattern is complete first: one of the patterns stands there, none ends before
/// it does, and of those that end with it none is longer.
pub open spec fn is_first_literal(
    patterns: Seq<Seq<char>>,
    case_insensitive: bool,
    haystack: Seq<u8>,
    start: int,
    end: int,
) -> bool {
    &&& some_literal_at(patterns, case_insensitive, haystack, start, end)
    &&& forall|s: int, e: int| #[trigger]
        some_literal_at(patterns, case_insensitive, haystack, s, e) ==> end <= e && (e == end
            ==> start <= s)
}

/// The text handed to the regex compiler: the pattern with every unescaped `\n` made a line feed.
pub open spec fn regex_source(pattern: Seq<char>) -> Seq<char> {
    decode_utf8(newlines_unescaped(encode_utf8(pattern), 0))
}

/// `regex::bytes::RegexBuilder` with these three settings: what `build` returns depends on the
/// pattern and the settings alone. An error comes as the text that its `Display` prints.
#[verifier::external_body]
fn compile_regex(pattern: &str, case_insensitive: bool, multi_line: bool, unicode: bool) -> (built:
    Result<Regex, String>)
    ensures
        match built {
            Ok(regex) => regex_built(pattern@, case_insensitive, multi_line, unicode) == Ok::<
                Regex,
                Seq<char>,
            >(regex),
            Err(message) => regex_built(pattern@, case_insensitive, multi_line, unicode) == Err::<
                Regex,
                Seq<char>,
            >(message@),
        },
{
    RegexBuilder::new(pattern)
        .case_insensitive(case_insensitive)
        .multi_line(multi_line)
        .unicode(unicode)
        .build()
        .map_err(|e| e.to_string())
}

/// `aho_corasick::AhoCorasickBuilder` with ASCII case folding on or off: what `build` returns
/// depends on the patterns and that setting alone.
#[verifier::external_body]
fn build_automaton(patterns: &Vec<String>, case_insensitive: bool) -> (built: Result<
    AhoCorasick,
    BuildError,
>)
    ensures
        built == automaton_built(texts(patterns@), case_insensitive),
{
    AhoCorasickBuilder::new().ascii_case_insensitive(case_insensitive).build(patterns)
}

/// A regular expression compiled for line search: `^` and `$` match at line ends, and classes
/// are those of ASCII.
#[derive(Debug)]
pub struct CompiledRegex {
    source: String,
    case_insensitive: bool,
    regex: Regex,
}

impl CompiledRegex {
    /// The compiled regex is the one that its source and its setting give.
    #[verifier::type_invariant]
    spec fn compiled_from_source(self) -> bool {
        regex_built(self.source@, self.case_insensitive, true, false) == Ok::<Regex, Seq<char>>(
            self.regex,
        )
    }

    /// The text that was compiled.
    pub closed spec fn source(&self) -> Seq<char> {
        self.source@
    }

    /// Whether letter case is ignored.
    pub closed spec fn ignores_case(&self) -> bool {
        self.case_insensitive
    }

    /// The first match from `at` on.
    pub open spec fn match_at(&self, haystack: Seq<u8>, at: int) -> Option<(usize, usize)> {
        regex_match_at(self.source(), self.ignores_case(), true, false, haystack, at)
    }

    /// All matches.
    pub open spec fn matches_in(&self, haystack: Seq<u8>) -> Seq<(usize, usize)> {
        regex_matches(self.source(), self.ignores_case(), true, false, haystack)
    }

    /// `regex::bytes::Regex::find_at`: the first match at or behind `at`, which lies within the
    /// haystack. A position behind the end of the haystack would panic.
    #[verifier::external_body]
    fn regex_find_at(&self, haystack: &[u8], at: usize) -> (found: Option<(usize, usize)>)
        requires
            self.compiled_from_source(),
            at <= haystack@.len(),
        ensures
            found == regex_match_at(
                self.source@,
                self.case_insensitive,
                true,
                false,
                haystack@,
                at as int,
            ),
            found matches Some((start, end)) ==> at <= start <= end <= haystack@.len(),
    {
        self.regex.find_at(haystack, at).map(|m| (m.start(), m.end()))
    }

    /// `regex::bytes::Regex::find_iter`, collected: the successive non-overlapping matches, all
    /// within the haystack. The first of them is the one that `find_at` reports from the start of
    /// the haystack on, and there is none where that reports none.
    #[verifier::external_body]
    fn regex_find_iter(&self, haystack: &[u8]) -> (found: Vec<(usize, usize)>)
        requires
            self.compiled_from_source(),
        ensures
            found@ == regex_matches(
                self.source@,
                self.case_insensitive,
                true,
                false,
                haystack@,
            ),
            ranges_in_order(found@, haystack@.len() as int),
            regex_match_at(self.source@, self.case_insensitive, true, false, haystack@, 0)
                == first_range(found@),
    {
        self.regex.find_iter(haystack).map(|m| (m.start(), m.end())).collect()
    }

    /// The first match at or behind `at`.
    pub fn find_at(&self, haystack: &[u8], at: usize) -> (found: Option<(usize, usize)>)
        requires
            at <= haystack@.len(),
        ensures
            found == self.match_at(haystack@, at as int),
            found matches Some((start, end)) ==> at <= start <= end <= haystack@.len(),
    {
        proof {
            use_type_invariant(self);
        }
        self.regex_find_at(haystack, at)
    }

    /// All non-overlapping matches, first to last.
    pub fn find_all(&self, haystack: &[u8]) -> (found: Vec<(usize, usize)>)
        ensures
            found@ == self.matches_in(haystack@),
            ranges_in_order(found@, haystack@.len() as int),
            self.match_at(haystack@, 0) == first_range(found@),
    {
        proof {
            use_type_invariant(self);
        }
        self.regex_find_iter(haystack)
    }
}

/// `built` is what a search text compiles to: a regex of its source, or a message for the user.
pub open spec fn is_compiled_from(
    built: Result<CompiledRegex, String>,
    pattern: Seq<char>,
    smart_case: bool,
) -> bool {
    let source = regex_source(pattern);
    let case_insensitive = smart_case_insensitive(smart_case, pattern);
    if pattern.len() == 0 {
        built matches Err(message) && message@ == "empty pattern"@
    } else {
        match built {
            Ok(regex) => {
                &&& regex.source() == source
                &&& regex.ignores_case() == case_insensitive
                &&& regex_built(source, case_insensitive, true, false) is Ok
            },
            Err(message) => regex_built(source, case_insensitive, true, false) == Err::<
                Regex,
                Seq<char>,
            >(message@),
        }
    }
}

/// Compiles a search text as a regex. The error is a message for the user.
pub fn build_regex(pattern: &str, smart_case: bool) -> (built: Result<CompiledRegex, String>)
    ensures
        is_compiled_from(built, pattern@, smart_case),
        built matches Ok(regex) ==> (regex.ignores_case() <==> smart_case && forall|i: int|
            0 <= i < pattern@.len() ==> !is_upper(#[trigger] pattern@[i])),
{
    if pattern.is_empty() {
        return Err("empty pattern".to_string());
    }
    let source: String = replace_unescaped_newline_escapes(pattern);
    proof {
        encode_utf8_decode_utf8(source@);
    }
    let case_insensitive: bool = smart_case && !contains_uppercase(pattern);
    match compile_regex(source.as_str(), case_insensitive, true, false) {
        Ok(regex) => Ok(CompiledRegex { source, case_insensitive, regex }),
        Err(message) => Err(message),
    }
}

/// A set of literal patterns could not be compiled.
#[derive(Debug, Clone, Copy, PartialEq, Eq, Structural)]
pub struct PatternSetError;

/// A set of literals compiled for a search of all of them in one pass.
#[derive(Debug)]
pub struct PatternSet {
    patterns: Vec<String>,
    case_insensitive: bool,
    automaton: AhoCorasick,
}

impl PatternSet {
    /// The automaton is the one that the patterns and the setting give.
    #[verifier::type_invariant]
    spec fn compiled_from_patterns(self) -> bool {
        automaton_built(texts(self.patterns@), self.case_insensitive) == Ok::<
            AhoCorasick,
            BuildError,
        >(self.automaton)
    }

    /// The patterns searched for.
    pub closed spec fn literals(&self) -> Seq<Seq<char>> {
        texts(self.patterns@)
    }

    /// Whether the case of ASCII letters is ignored.
    pub closed spec fn ignores_case(&self) -> bool {
        self.case_insensitive
    }

    /// `aho_corasick::AhoCorasick::find`: reports a match if and only if one of the patterns
    /// stands somewhere in the haystack. With the default match kind that is the match whose end
    /// is reached first; of several patterns that end there, a state of the automaton lists the
    /// longest first. An automaton built with the default start kind never refuses such a search.
    #[verifier::external_body]
    fn automaton_find(&self, haystack: &[u8]) -> (found: Option<(usize, usize)>)
        requires
            self.compiled_from_patterns(),
        ensures
            found is Some <==> some_literal_occurs(
                texts(self.patterns@),
                self.case_insensitive,
                haystack@,
            ),
            found matches Some((start, end)) ==> start <= end <= haystack@.len()
                && is_first_literal(
                texts(self.patterns@),
                self.case_insensitive,
                haystack@,
                start as int,
                end as int,
            ),
    {
        self.automaton.find(haystack).map(|m| (m.start(), m.end()))
    }

    /// `aho_corasick::AhoCorasick::find_overlapping_iter`, collected: exactly the places where one
    /// of the patterns stands, overlapping ones too. An automaton built with the default match
    /// kind never refuses such a search. In what order the places come, and how often, is not
    /// stated.
    #[verifier::external_body]
    fn automaton_find_overlapping(&self, haystack: &[u8]) -> (found: Vec<(usize, usize)>)
        requires
            self.compiled_from_patterns(),
        ensures
            forall|start: usize, end: usize| #[trigger]
                found@.contains((start, end)) <==> some_literal_at(
                    texts(self.patterns@),
                    self.case_insensitive,
                    haystack@,
                    start as int,
                    end as int,
                ),
    {
        self.automaton.find_overlapping_iter(haystack).map(|m| (m.start(), m.end())).collect()
    }

    /// The place where one of the patterns is complete first.
    pub fn find(&self, haystack: &[u8]) -> (found: Option<(usize, usize)>)
        ensures
            found is Some <==> some_literal_occurs(
                self.literals(),
                self.ignores_case(),
                haystack@,
            ),
            found matches Some((start, end)) ==> start <= end <= haystack@.len()
                && is_first_literal(
                self.literals(),
                self.ignores_case(),
                haystack@,
                start as int,
                end as int,
            ),
    {
        proof {
            use_type_invariant(self);
        }
        self.automaton_find(haystack)
    }

    /// Every place where one of the patterns stands, overlapping ones too, in ascending order.
    pub fn find_all(&self, haystack: &[u8]) -> (found: Vec<(usize, usize)>)
        ensures
            found@ == literal_spans(self.literals(), self.ignores_case(), haystack@),
            ranges_fit(found@, haystack@.len() as int),
    {
        proof {
            use_type_invariant(self);
        }
        let all: Vec<(usize, usize)> = self.automaton_find_overlapping(haystack);
        let sorted: Vec<(usize, usize)> = sorted_spans(&all);
        proof {
            let spans = literal_spans(self.literals(), self.ignores_case(), haystack@);
            assert(haystack.len() == haystack@.len());
            law_literal_spans_are_complete(self.literals(), self.ignores_case(), haystack@);
            assert forall|span: (usize, usize)| #[trigger] sorted@.contains(span)
                <==> spans.contains(span) by {
                assert(all@.contains((span.0, span.1)) <==> some_literal_at(
                    self.literals(),
                    self.ignores_case(),
                    haystack@,
                    span.0 as int,
                    span.1 as int,
                ));
                assert(spans.contains((span.0, span.1)) <==> some_literal_at(
                    self.literals(),
                    self.ignores_case(),
                    haystack@,
                    span.0 as int,
                    span.1 as int,
                ));
            }
            lemma_ascending_is_unique(sorted@, spans);
            assert forall|i: int| 0 <= i < spans.len() implies (#[trigger] spans[i]).0 <= spans[i].1
                && spans[i].1 <= haystack@.len() by {
                assert(spans.contains((spans[i].0, spans[i].1)));
            }
        }
        sorted
    }

    /// The number of bytes of the longest pattern.
    fn longest_pattern(&self) -> (len: usize)
        ensures
            forall|k: int|
                0 <= k < self.literals().len() ==> encode_utf8(
                    #[trigger] self.literals()[k],
                ).len() <= len,
    {
        let mut len: usize = 0;
        let mut k: usize = 0;
        while k < self.patterns.len()
            invariant
                k <= self.patterns.len(),
                forall|j: int|
                    0 <= j < k ==> encode_utf8(#[trigger] self.literals()[j]).len() <= len,
            decreases self.patterns.len() - k,
        {
            let size: usize = self.patterns[k].as_str().as_bytes().len();
            assert(size == encode_utf8(self.literals()[k as int]).len());
            if size > len {
                len = size;
            }
            k += 1;
        }
        len
    }

    /// Where the first place starts at which one of the patterns stands.
    pub fn find_first_start(&self, haystack: &[u8]) -> (first: Option<usize>)
        ensures
            ({
                let spans = literal_spans(self.literals(), self.ignores_case(), haystack@);
                match first {
                    None => spans.len() == 0,
                    Some(start) => spans.len() > 0 && spans[0].0 == start,
                }
            }),
    {
        let ghost spans = literal_spans(self.literals(), self.ignores_case(), haystack@);
        assert(haystack.len() == haystack@.len());
        proof {
            law_literal_spans_are_complete(self.literals(), self.ignores_case(), haystack@);
        }
        match self.find(haystack) {
            None => {
                proof {
                    if spans.len() > 0 {
                        assert(spans.contains((spans[0].0, spans[0].1)));
                    }
                }
                None
            },
            Some((start, end)) => {
                assert(spans.contains((start, end)));
                // A pattern that starts earlier ends within the length of the longest pattern.
                let longest: usize = self.longest_pattern();
                let reach: usize = if haystack.len() - start < longest {
                    haystack.len()
                } else {
                    start + longest
                };
                let window: &[u8] = &haystack[0..reach];
                let near: Vec<(usize, usize)> = self.find_all(window);
                proof {
                    let literals = self.literals();
                    let fold = self.ignores_case();
                    law_literal_spans_are_complete(literals, fold, window@);
                    assert forall|a: int, b: int|
                        some_literal_at(literals, fold, haystack@, a, b) && a
                            <= start implies #[trigger] some_literal_at(
                        literals,
                        fold,
                        window@,
                        a,
                        b,
                    ) by {
                        let k = choose|k: int| literal_at(literals, fold, haystack@, k, a, b);
                        assert(encode_utf8(literals[k]).len() <= longest);
                        lemma_literal_in_prefix(literals, fold, haystack@, reach as int, k, a, b);
                    }
                    assert forall|a: int, b: int| #[trigger]
                        some_literal_at(literals, fold, window@, a, b) implies some_literal_at(
                        literals,
                        fold,
                        haystack@,
                        a,
                        b,
                    ) by {
                        let k = choose|k: int| literal_at(literals, fold, window@, k, a, b);
                        lemma_literal_in_prefix(literals, fold, haystack@, reach as int, k, a, b);
                    }
                    assert(some_literal_at(
                        literals,
                        fold,
                        window@,
                        start as int,
                        end as int,
                    ));
                    assert(near@.contains((start, end)));
                    let first_near = near@[0];
                    assert(near@.contains((first_near.0, first_near.1)));
                    assert(spans.contains((first_near.0, first_near.1)));
                    let first_all = spans[0];
                    assert(spans.contains((first_all.0, first_all.1)));
                    lemma_first_starts_first(spans, (start, end));
                    lemma_first_starts_first(spans, first_near);
                    assert(some_literal_at(
                        literals,
                        fold,
                        window@,
                        first_all.0 as int,
                        first_all.1 as int,
                    ));
                    assert(near@.contains((first_all.0, first_all.1)));
                    lemma_first_starts_first(near@, first_all);
                }
                Some(near[0].0)
            },
        }
    }
}

/// Every range lies within `len` bytes.
pub open spec fn ranges_fit(spans: Seq<(usize, usize)>, len: int) -> bool {
    forall|i: int|
        0 <= i < spans.len() ==> (#[trigger] spans[i]).0 <= spans[i].1 && spans[i].1 <= len
}

/// One range comes before another: it starts earlier, or starts with it and ends earlier.
pub open spec fn span_before(a: (usize, usize), b: (usize, usize)) -> bool {
    a.0 < b.0 || (a.0 == b.0 && a.1 < b.1)
}

/// Each range comes before the next.
pub open spec fn spans_ascend(spans: Seq<(usize, usize)>) -> bool {
    forall|i: int, j: int|
        0 <= i < j < spans.len() ==> span_before(#[trigger] spans[i], #[trigger] spans[j])
}

/// The places from `start` up to at most `end` at which one of the patterns stands, ascending.
pub open spec fn literal_spans_from(
    patterns: Seq<Seq<char>>,
    case_insensitive: bool,
    haystack: Seq<u8>,
    start: int,
    end: int,
) -> Seq<(usize, usize)>
    decreases end - start + 1,
{
    if end < start {
        Seq::empty()
    } else {
        let shorter = literal_spans_from(patterns, case_insensitive, haystack, start, end - 1);
        if some_literal_at(patterns, case_insensitive, haystack, start, end) {
            shorter.push((start as usize, end as usize))
        } else {
            shorter
        }
    }
}

/// The places that start before `bound` at which one of the patterns stands, ascending.
pub open spec fn literal_spans_before(
    patterns: Seq<Seq<char>>,
    case_insensitive: bool,
    haystack: Seq<u8>,
    bound: int,
) -> Seq<(usize, usize)>
    decreases bound,
{
    if bound <= 0 {
        Seq::empty()
    } else {
        literal_spans_before(patterns, case_insensitive, haystack, bound - 1)
            + literal_spans_from(
            patterns,
            case_insensitive,
            haystack,
            bound - 1,
            haystack.len() as int,
        )
    }
}

/// Every place at which one of the patterns stands, overlapping ones too, in ascending order.
pub open spec fn literal_spans(
    patterns: Seq<Seq<char>>,
    case_insensitive: bool,
    haystack: Seq<u8>,
) -> Seq<(usize, usize)> {
    literal_spans_before(patterns, case_insensitive, haystack, haystack.len() as int + 1)
}

/// The list of places is ascending and holds a range if and only if one of the patterns stands
/// there.
pub proof fn law_literal_spans_are_complete(
    patterns: Seq<Seq<char>>,
    case_insensitive: bool,
    haystack: Seq<u8>,
)
    requires
        haystack.len() <= usize::MAX,
    ensures
        spans_ascend(literal_spans(patterns, case_insensitive, haystack)),
        forall|start: usize, end: usize| #[trigger]
            literal_spans(patterns, case_insensitive, haystack).contains((start, end))
                <==> some_literal_at(
                patterns,
                case_insensitive,
                haystack,
                start as int,
                end as int,
            ),
{
    lemma_spans_before(patterns, case_insensitive, haystack, haystack.len() as int + 1);
    assert forall|start: usize, end: usize|
        some_literal_at(
            patterns,
            case_insensitive,
            haystack,
            start as int,
            end as int,
        ) implies #[trigger] literal_spans(patterns, case_insensitive, haystack).contains(
        (start, end),
    ) by {
        let k = choose|k: int|
            literal_at(patterns, case_insensitive, haystack, k, start as int, end as int);
        assert(start <= haystack.len());
    }
}

proof fn lemma_spans_from(
    patterns: Seq<Seq<char>>,
    case_insensitive: bool,
    haystack: Seq<u8>,
    start: int,
    end: int,
)
    requires
        0 <= start <= haystack.len() <= usize::MAX,
        start - 1 <= end <= haystack.len(),
    ensures
        spans_ascend(
            literal_spans_from(patterns, case_insensitive, haystack, start, end),
        ),
        forall|a: usize, b: usize| #[trigger]
            literal_spans_from(patterns, case_insensitive, haystack, start, end).contains((a, b))
                <==> a == start && b <= end && some_literal_at(
                patterns,
                case_insensitive,
                haystack,
                a as int,
                b as int,
            ),
    decreases end - start + 1,
{
    let all = literal_spans_from(patterns, case_insensitive, haystack, start, end);
    assert forall|a: int, b: int| #[trigger]
        some_literal_at(patterns, case_insensitive, haystack, a, b) implies a <= b by {}
    if end >= start {
        let shorter = literal_spans_from(patterns, case_insensitive, haystack, start, end - 1);
        lemma_spans_from(patterns, case_insensitive, haystack, start, end - 1);
        assert forall|i: int| 0 <= i < shorter.len() implies (#[trigger] shorter[i]).0 == start
            && shorter[i].1 < end by {
            assert(shorter.contains((shorter[i].0, shorter[i].1)));
        }
        assert forall|a: usize, b: usize| #[trigger] all.contains((a, b)) <==> a == start && b
            <= end && some_literal_at(
            patterns,
            case_insensitive,
            haystack,
            a as int,
            b as int,
        ) by {
            assert(shorter.contains((a, b)) <==> a == start && b <= end - 1 && some_literal_at(
                patterns,
                case_insensitive,
                haystack,
                a as int,
                b as int,
            ));
            if some_literal_at(patterns, case_insensitive, haystack, start, end) {
                lemma_contains_pushed(shorter, (start as usize, end as usize), (a, b));
            }
        }
    }
}

proof fn lemma_spans_before(
    patterns: Seq<Seq<char>>,
    case_insensitive: bool,
    haystack: Seq<u8>,
    bound: int,
)
    requires
        0 <= bound <= haystack.len() + 1,
        haystack.len() <= usize::MAX,
    ensures
        spans_ascend(literal_spans_before(patterns, case_insensitive, haystack, bound)),
        forall|a: usize, b: usize| #[trigger]
            literal_spans_before(patterns, case_insensitive, haystack, bound).contains((a, b))
                <==> a < bound && some_literal_at(
                patterns,
                case_insensitive,
                haystack,
                a as int,
                b as int,
            ),
    decreases bound,
{
    if bound > 0 {
        let before = literal_spans_before(patterns, case_insensitive, haystack, bound - 1);
        let len = haystack.len() as int;
        let last = literal_spans_from(patterns, case_insensitive, haystack, bound - 1, len);
        let all = literal_spans_before(patterns, case_insensitive, haystack, bound);
        lemma_spans_before(patterns, case_insensitive, haystack, bound - 1);
        lemma_spans_from(patterns, case_insensitive, haystack, bound - 1, len);
        assert forall|i: int| 0 <= i < before.len() implies (#[trigger] before[i]).0 < bound
            - 1 by {
            assert(before.contains((before[i].0, before[i].1)));
        }
        assert forall|i: int| 0 <= i < last.len() implies (#[trigger] last[i]).0 == bound - 1 by {
            assert(last.contains((last[i].0, last[i].1)));
        }
        assert forall|i: int, j: int| 0 <= i < j < all.len() implies span_before(
            #[trigger] all[i],
            #[trigger] all[j],
        ) by {
            if j < before.len() {
                assert(span_before(before[i], before[j]));
            } else if i >= before.len() {
                assert(span_before(last[i - before.len()], last[j - before.len()]));
            } else {
                assert(before[i].0 < bound - 1);
                assert(last[j - before.len()].0 == bound - 1);
            }
        }
        assert forall|a: usize, b: usize| #[trigger] all.contains((a, b)) <==> a < bound
            && some_literal_at(patterns, case_insensitive, haystack, a as int, b as int) by {
            lemma_contains_concat(before, last, (a, b));
            assert(before.contains((a, b)) <==> a < bound - 1 && some_literal_at(
                patterns,
                case_insensitive,
                haystack,
                a as int,
                b as int,
            ));
            if some_literal_at(patterns, case_insensitive, haystack, a as int, b as int) {
                let k = choose|k: int|
                    literal_at(patterns, case_insensitive, haystack, k, a as int, b as int);
                assert(b <= len);
            }
        }
    }
}

proof fn lemma_contains_pushed(
    spans: Seq<(usize, usize)>,
    added: (usize, usize),
    span: (usize, usize),
)
    ensures
        spans.push(added).contains(span) <==> spans.contains(span) || span == added,
{
    let all = spans.push(added);
    assert(all[spans.len() as int] == added);
    if spans.contains(span) {
        let k = choose|k: int| 0 <= k < spans.len() && spans[k] == span;
        assert(all[k] == span);
    }
    if all.contains(span) {
        let k = choose|k: int| 0 <= k < all.len() && all[k] == span;
        if k < spans.len() {
            assert(spans[k] == span);
        }
    }
}

proof fn lemma_contains_concat(
    a: Seq<(usize, usize)>,
    b: Seq<(usize, usize)>,
    span: (usize, usize),
)
    ensures
        (a + b).contains(span) <==> a.contains(span) || b.contains(span),
{
    let all = a + b;
    if a.contains(span) {
        let k = choose|k: int| 0 <= k < a.len() && a[k] == span;
        assert(all[k] == span);
    }
    if b.contains(span) {
        let k = choose|k: int| 0 <= k < b.len() && b[k] == span;
        assert(all[a.len() + k] == span);
    }
    if all.contains(span) {
        let k = choose|k: int| 0 <= k < all.len() && all[k] == span;
        if k < a.len() {
            assert(a[k] == span);
        } else {
            assert(b[k - a.len()] == span);
        }
    }
}

/// The first of ascending ranges starts no later than any of them.
proof fn lemma_first_starts_first(spans: Seq<(usize, usize)>, span: (usize, usize))
    requires
        spans_ascend(spans),
        spans.contains(span),
    ensures
        spans.len() > 0,
        spans[0].0 <= span.0,
{
    let k = choose|k: int| 0 <= k < spans.len() && spans[k] == span;
    if k > 0 {
        assert(span_before(spans[0], spans[k]));
    }
}

/// Ascending lists of the same ranges are the same list.
proof fn lemma_ascending_is_unique(a: Seq<(usize, usize)>, b: Seq<(usize, usize)>)
    requires
        spans_ascend(a),
        spans_ascend(b),
        forall|span: (usize, usize)| #[trigger] a.contains(span) <==> b.contains(span),
    ensures
        a == b,
    decreases a.len(),
{
    if a.len() == 0 {
        if b.len() > 0 {
            assert(b.contains(b[0]));
            assert(a.contains(b[0]));
        }
        assert(a =~= b);
    } else {
        let x = a.last();
        assert(a.contains(x));
        let y = b.last();
        assert(b.contains(y));
        assert(a.contains(y));
        let i = choose|i: int| 0 <= i < b.len() && b[i] == x;
        let j = choose|j: int| 0 <= j < a.len() && a[j] == y;
        assert(x == y) by {
            if i < b.len() - 1 {
                assert(span_before(b[i], b[b.len() - 1]));
            }
            if j < a.len() - 1 {
                assert(span_before(a[j], a[a.len() - 1]));
            }
        }
        let (c, d) = (a.drop_last(), b.drop_last());
        assert(c.push(x) =~= a && d.push(y) =~= b);
        assert forall|span: (usize, usize)| #[trigger] c.contains(span) <==> d.contains(span) by {
            lemma_contains_pushed(c, x, span);
            lemma_contains_pushed(d, y, span);
            assert(a.contains(span) <==> b.contains(span));
            if c.contains(x) {
                let n = choose|n: int| 0 <= n < c.len() && c[n] == x;
                assert(span_before(a[n], a[a.len() - 1]));
            }
            if d.contains(y) {
                let n = choose|n: int| 0 <= n < d.len() && d[n] == y;
                assert(span_before(b[n], b[b.len() - 1]));
            }
        }
        lemma_ascending_is_unique(c, d);
    }
}

/// A pattern stands in the first `reach` bytes exactly where it stands in the whole and ends by
/// then.
proof fn lemma_literal_in_prefix(
    patterns: Seq<Seq<char>>,
    case_insensitive: bool,
    haystack: Seq<u8>,
    reach: int,
    k: int,
    start: int,
    end: int,
)
    requires
        0 <= reach <= haystack.len(),
    ensures
        literal_at(patterns, case_insensitive, haystack.subrange(0, reach), k, start, end) <==> end
            <= reach && literal_at(patterns, case_insensitive, haystack, k, start, end),
{
    let part = folded(haystack.subrange(0, reach), case_insensitive);
    let whole = folded(haystack, case_insensitive);
    lemma_folded_subrange(haystack, case_insensitive, 0, reach);
    if 0 <= start && start <= end <= reach {
        assert(part.subrange(start, end) =~= whole.subrange(start, end));
    }
}

/// The given ranges in ascending order, each once.
fn sorted_spans(spans: &Vec<(usize, usize)>) -> (sorted: Vec<(usize, usize)>)
    ensures
        spans_ascend(sorted@),
        forall|span: (usize, usize)| #[trigger]
            sorted@.contains(span) <==> spans@.contains(span),
{
    let mut sorted: Vec<(usize, usize)> = Vec::new();
    let mut i: usize = 0;
    while i < spans.len()
        invariant
            i <= spans.len(),
            spans_ascend(sorted@),
            forall|span: (usize, usize)| #[trigger]
                sorted@.contains(span) <==> spans@.take(i as int).contains(span),
        decreases spans.len() - i,
    {
        let ghost before = sorted@;
        let span: (usize, usize) = spans[i];
        let mut at: usize = sorted.len();
        while at > 0 && (span.0 < sorted[at - 1].0 || (span.0 == sorted[at - 1].0 && span.1
            < sorted[at - 1].1))
            invariant
                at <= sorted.len(),
                sorted@ == before,
                forall|k: int| at <= k < before.len() ==> span_before(span, #[trigger] before[k]),
            decreases at,
        {
            at -= 1;
        }
        if at == 0 || sorted[at - 1].0 != span.0 || sorted[at - 1].1 != span.1 {
            sorted.insert(at, span);
            proof {
                assert forall|a: int, b: int| 0 <= a < b < sorted@.len() implies span_before(
                    #[trigger] sorted@[a],
                    #[trigger] sorted@[b],
                ) by {
                    if at > 0 && a < at - 1 {
                        assert(span_before(before[a], before[at - 1]));
                    }
                }
                assert forall|s: (usize, usize)| #[trigger] sorted@.contains(s)
                    <==> before.contains(s) || s == span by {
                    assert(sorted@[at as int] == span);
                    if before.contains(s) {
                        let k = choose|k: int| 0 <= k < before.len() && before[k] == s;
                        if k < at {
                            assert(sorted@[k] == s);
                        } else {
                            assert(sorted@[k + 1] == s);
                        }
                    }
                    if sorted@.contains(s) {
                        let k = choose|k: int| 0 <= k < sorted@.len() && sorted@[k] == s;
                        if k < at {
                            assert(before[k] == s);
                        } else if k > at {
                            assert(before[k - 1] == s);
                        }
                    }
                }
            }
        } else {
            assert(before[at - 1] == span);
        }
        proof {
            assert(spans@.take(i + 1) =~= spans@.take(i as int).push(span));
            assert forall|s: (usize, usize)| #[trigger] sorted@.contains(s) <==> spans@.take(
                i + 1,
            ).contains(s) by {
                lemma_contains_pushed(spans@.take(i as int), span, s);
                assert(before.contains(s) <==> spans@.take(i as int).contains(s));
            }
        }
        i += 1;
    }
    assert(spans@.take(i as int) =~= spans@);
    sorted
}

/// The texts of a list of string slices.
pub open spec fn slice_texts(patterns: Seq<&str>) -> Seq<Seq<char>> {
    patterns.map_values(|p: &str| p@)
}

/// One of the texts holds an uppercase character.
pub open spec fn any_has_upper(patterns: Seq<Seq<char>>) -> bool {
    exists|i: int| 0 <= i < patterns.len() && has_upper(#[trigger] patterns[i])
}

/// Whether one of the patterns holds an uppercase character.
pub fn any_contains_uppercase(patterns: &[&str]) -> (found: bool)
    ensures
        found == any_has_upper(slice_texts(patterns@)),
{
    let ghost all = slice_texts(patterns@);
    let mut i: usize = 0;
    while i < patterns.len()
        invariant
            i <= patterns.len(),
            all == slice_texts(patterns@),
            forall|j: int| 0 <= j < i ==> !has_upper(#[trigger] all[j]),
        decreases patterns.len() - i,
    {
        if contains_uppercase(patterns[i]) {
            assert(has_upper(all[i as int]));
            return true;
        }
        i += 1;
    }
    false
}

/// Compiles a set of literals for one search. Smart case ignores case when all of them are free
/// of uppercase characters.
pub fn build_pattern_set(patterns: &[&str], smart_case: bool) -> (built: Result<
    PatternSet,
    PatternSetError,
>)
    ensures
        match built {
            Ok(set) => {
                &&& set.literals() == slice_texts(patterns@)
                &&& set.ignores_case() == (smart_case && !any_has_upper(slice_texts(patterns@)))
                &&& automaton_built(
                    slice_texts(patterns@),
                    smart_case && !any_has_upper(slice_texts(patterns@)),
                ) is Ok
            },
            Err(_) => automaton_built(
                slice_texts(patterns@),
                smart_case && !any_has_upper(slice_texts(patterns@)),
            ) is Err,
        },
        built matches Ok(set) ==> (set.ignores_case() <==> smart_case && forall|k: int, i: int|
            0 <= k < patterns@.len() && 0 <= i < patterns@[k]@.len() ==> !is_upper(
                #[trigger] patterns@[k]@[i],
            )),
{
    proof {
        let all = slice_texts(patterns@);
        law_any_upper_looks_at_every_character(all);
        if any_has_upper(all) {
            let (k, i) = choose|k: int, i: int|
                0 <= k < all.len() && 0 <= i < all[k].len() && is_upper(#[trigger] all[k][i]);
            assert(is_upper(patterns@[k]@[i]));
        } else {
            assert forall|k: int, i: int|
                0 <= k < patterns@.len() && 0 <= i < patterns@[k]@.len() implies !is_upper(
                #[trigger] patterns@[k]@[i],
            ) by {
                assert(!is_upper(all[k][i]));
            }
        }
    }
    let case_insensitive: bool = smart_case && !any_contains_uppercase(patterns);
    let mut owned: Vec<String> = Vec::new();
    let mut i: usize = 0;
    while i < patterns.len()
        invariant
            i <= patterns.len(),
            texts(owned@) == slice_texts(patterns@).take(i as int),
        decreases patterns.len() - i,
    {
        let ghost before = texts(owned@);
        let pattern: &str = patterns[i];
        owned.push(pattern.to_string());
        assert(texts(owned@) =~= before.push(pattern@));
        i += 1;
        assert(slice_texts(patterns@).take(i as int) =~= before.push(pattern@));
    }
    assert(slice_texts(patterns@).take(i as int) =~= slice_texts(patterns@));
    match build_automaton(&owned, case_insensitive) {
        Ok(automaton) => Ok(PatternSet { patterns: owned, case_insensitive, automaton }),
        Err(_) => Err(PatternSetError),
    }
}

/// With smart case a regex is case-sensitive if and only if some character of the text that it was
/// made from, at any position, is uppercase; without it every regex is.
pub proof fn law_regex_ignores_case_unless_a_character_is_upper(
    regex: CompiledRegex,
    text: Seq<char>,
    smart_case: bool,
)
    requires
        is_compiled_from(Ok::<CompiledRegex, String>(regex), text, smart_case),
    ensures
        regex.ignores_case() <==> {
            &&& smart_case
            &&& forall|i: int| 0 <= i < text.len() ==> !is_upper(#[trigger] text[i])
        },
{
    law_smart_case_looks_at_every_character(smart_case, text);
}

/// With smart case a set of patterns is case-sensitive if and only if some character of some
/// pattern, at any position, is uppercase.
pub proof fn law_any_upper_looks_at_every_character(patterns: Seq<Seq<char>>)
    ensures
        any_has_upper(patterns) <==> exists|k: int, i: int|
            0 <= k < patterns.len() && 0 <= i < patterns[k].len() && is_upper(
                #[trigger] patterns[k][i],
            ),
{
    if any_has_upper(patterns) {
        let k = choose|k: int| 0 <= k < patterns.len() && has_upper(#[trigger] patterns[k]);
        law_smart_case_looks_at_every_character(true, patterns[k]);
        let i = choose|i: int| 0 <= i < patterns[k].len() && is_upper(#[trigger] patterns[k][i]);
        assert(is_upper(patterns[k][i]));
    }
    if exists|k: int, i: int|
        0 <= k < patterns.len() && 0 <= i < patterns[k].len() && is_upper(
            #[trigger] patterns[k][i],
        ) {
        let (k, i) = choose|k: int, i: int|
            0 <= k < patterns.len() && 0 <= i < patterns[k].len() && is_upper(
                #[trigger] patterns[k][i],
            );
        law_smart_case_looks_at_every_character(true, patterns[k]);
        assert(has_upper(patterns[k]));
    }
}

/// What is compiled is the text with every unescaped `\n` made a line feed, and nothing else
/// changed. An empty text is refused.
pub proof fn law_regex_is_made_from_the_unescaped_text(
    built: Result<CompiledRegex, String>,
    text: Seq<char>,
    smart_case: bool,
)
    requires
        is_compiled_from(built, text, smart_case),
    ensures
        text.len() == 0 ==> built is Err,
        built matches Ok(regex) ==> encode_utf8(regex.source()) == newlines_unescaped(
            encode_utf8(text),
            0,
        ),
{
    lemma_unescaped_is_utf8(text);
}

proof fn lemma_unescaped_is_utf8(text: Seq<char>)
    ensures
        encode_utf8(regex_source(text)) == newlines_unescaped(encode_utf8(text), 0),
{
    encode_utf8_valid_utf8(text);
    lemma_unescaping_keeps_utf8(encode_utf8(text));
    decode_utf8_encode_utf8(newlines_unescaped(encode_utf8(text), 0));
}

} // verus!
