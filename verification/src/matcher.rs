//! Where in a haystack the next match of a pattern lies.
use crate::needle::{
    find_needle, folded, law_occurrence_is_where_the_needle_stands, lemma_folded_subrange,
    lemma_occurs_in_suffix, occurs_at, stands_at,
};
use crate::patterns::{
    is_first_literal, regex_match_at, some_literal_at, some_literal_occurs, CompiledRegex,
    PatternSet,
};
use vstd::prelude::*;

verus! {

/// The bytes of a haystack from `start` up to, but not including, `end`.
#[derive(Debug, Clone, Copy, PartialEq, Eq, Structural)]
pub struct Match {
    pub start: usize,
    pub end: usize,
}

/// Finds the matches of a compiled regular expression.
pub struct RegexMatcher<'r> {
    pub regex: &'r CompiledRegex,
    pub is_multiline: bool,
}

impl<'r> RegexMatcher<'r> {
    /// `found` is the first match at or behind `at`.
    pub open spec fn finds(&self, haystack: Seq<u8>, at: int, found: Option<Match>) -> bool {
        match found {
            Some(m) => self.regex.match_at(haystack, at) == Some((m.start, m.end)) && at <= m.start
                <= m.end <= haystack.len(),
            None => self.regex.match_at(haystack, at) is None,
        }
    }

    /// The first match at or behind `at`.
    pub fn find_at(&self, haystack: &[u8], at: usize) -> (found: Option<Match>)
        requires
            at <= haystack@.len(),
        ensures
            self.finds(haystack@, at as int, found),
    {
        match self.regex.find_at(haystack, at) {
            Some((start, end)) => Some(Match { start, end }),
            None => None,
        }
    }

    /// The byte that no match of this matcher spans: a line feed, unless the search is a
    /// multiline one.
    pub fn line_terminator(&self) -> (terminator: Option<u8>)
        ensures
            terminator == if self.is_multiline {
                None
            } else {
                Some(0x0au8)
            },
    {
        if self.is_multiline {
            None
        } else {
            Some(0x0a)
        }
    }
}

/// Finds the occurrences of a literal.
///
/// Always reports `\n` as line terminator so that a searcher can use its fast candidate-line
/// path.
pub struct PlainTextMatcher<'a> {
    /// Case-folded needle bytes for case-insensitive matching.
    /// When case-sensitive, these are the bytes of the pattern as it is.
    pub needle: &'a [u8],
    pub case_insensitive: bool,
}

impl<'a> PlainTextMatcher<'a> {
    /// `found` is the first occurrence at or behind `at`.
    pub open spec fn finds(&self, haystack: Seq<u8>, at: int, found: Option<Match>) -> bool {
        let hay = folded(haystack, self.case_insensitive);
        match found {
            Some(m) => {
                &&& at <= m.start <= m.end <= haystack.len()
                &&& m.end == m.start + self.needle@.len()
                &&& occurs_at(hay, self.needle@, m.start as int)
                &&& forall|i: int| at <= i < m.start ==> !occurs_at(hay, self.needle@, i)
            },
            None => forall|i: int| at <= i ==> !occurs_at(hay, self.needle@, i),
        }
    }

    /// The first occurrence at or behind `at`.
    pub fn find_at(&self, haystack: &[u8], at: usize) -> (found: Option<Match>)
        requires
            at <= haystack@.len(),
        ensures
            self.finds(haystack@, at as int, found),
    {
        let len: usize = haystack.len();
        let hay: &[u8] = &haystack[at..len];
        let ghost whole = folded(haystack@, self.case_insensitive);
        let ghost part = folded(hay@, self.case_insensitive);
        proof {
            lemma_folded_subrange(haystack@, self.case_insensitive, at as int, len as int);
            assert(part =~= whole.skip(at as int));
            assert forall|i: int| at <= i implies occurs_at(whole, self.needle@, i) == occurs_at(
                part,
                self.needle@,
                i - at,
            ) by {
                lemma_occurs_in_suffix(whole, self.needle@, at as int, i - at);
            }
        }
        match find_needle(hay, self.needle, self.case_insensitive) {
            Some(pos) => {
                assert(occurs_at(whole, self.needle@, at + pos));
                Some(Match { start: at + pos, end: at + pos + self.needle.len() })
            },
            None => None,
        }
    }

    /// A line feed: a literal is searched line by line.
    pub fn line_terminator(&self) -> (terminator: Option<u8>)
        ensures
            terminator == Some(0x0au8),
    {
        Some(0x0a)
    }
}

/// Finds the occurrences of any of a set of literals.
///
/// Always reports `\n` as the line terminator for the fast candidate-line path.
pub struct AhoCorasickMatcher<'a> {
    pub ac: &'a PatternSet,
}

impl<'a> AhoCorasickMatcher<'a> {
    /// `found` is where one of the patterns is complete first in what lies at or behind `at`; it
    /// is there if any of them occurs.
    pub open spec fn finds(&self, haystack: Seq<u8>, at: int, found: Option<Match>) -> bool {
        let rest = haystack.skip(at);
        let literals = self.ac.literals();
        let fold = self.ac.ignores_case();
        &&& found is Some <==> some_literal_occurs(literals, fold, rest)
        &&& found matches Some(m) ==> {
            &&& at <= m.start <= m.end <= haystack.len()
            &&& is_first_literal(literals, fold, rest, m.start - at, m.end - at)
        }
    }

    /// Where one of the patterns is complete first in what lies at or behind `at`.
    pub fn find_at(&self, haystack: &[u8], at: usize) -> (found: Option<Match>)
        requires
            at <= haystack@.len(),
        ensures
            self.finds(haystack@, at as int, found),
    {
        let len: usize = haystack.len();
        let hay: &[u8] = &haystack[at..len];
        assert(hay@ =~= haystack@.skip(at as int));
        match self.ac.find(hay) {
            Some((start, end)) => Some(Match { start: at + start, end: at + end }),
            None => None,
        }
    }

    /// A line feed: literals are searched line by line.
    pub fn line_terminator(&self) -> (terminator: Option<u8>)
        ensures
            terminator == Some(0x0au8),
    {
        Some(0x0a)
    }
}

/// Finds the lines of a file that match, in any mode.
pub enum LineMatcher<'p> {
    PlainText(PlainTextMatcher<'p>),
    Regex(RegexMatcher<'p>),
    AnyOf(AhoCorasickMatcher<'p>),
}

impl<'p> LineMatcher<'p> {
    /// `found` is what the matcher of the mode reports from `at` on.
    pub open spec fn finds(&self, haystack: Seq<u8>, at: int, found: Option<Match>) -> bool {
        match self {
            LineMatcher::PlainText(m) => m.finds(haystack, at, found),
            LineMatcher::Regex(m) => m.finds(haystack, at, found),
            LineMatcher::AnyOf(m) => m.finds(haystack, at, found),
        }
    }

    /// A match at or behind `at`, if there is any.
    pub fn find_at(&self, haystack: &[u8], at: usize) -> (found: Option<Match>)
        requires
            at <= haystack@.len(),
        ensures
            self.finds(haystack@, at as int, found),
    {
        match self {
            LineMatcher::PlainText(m) => m.find_at(haystack, at),
            LineMatcher::Regex(m) => m.find_at(haystack, at),
            LineMatcher::AnyOf(m) => m.find_at(haystack, at),
        }
    }

    /// The byte that no match spans: a line feed, unless a regex is searched for over several
    /// lines.
    pub fn line_terminator(&self) -> (terminator: Option<u8>)
        ensures
            terminator == match self {
                LineMatcher::Regex(m) => if m.is_multiline {
                    None
                } else {
                    Some(0x0au8)
                },
                _ => Some(0x0au8),
            },
    {
        match self {
            LineMatcher::PlainText(m) => m.line_terminator(),
            LineMatcher::Regex(m) => m.line_terminator(),
            LineMatcher::AnyOf(m) => m.line_terminator(),
        }
    }
}

/// A plain text search reports the first place at or behind `at` where its pattern stands, as long
/// as that is, and nothing if and only if it stands at none.
pub proof fn law_plain_matcher_finds_the_first_place<'a>(
    matcher: PlainTextMatcher<'a>,
    haystack: Seq<u8>,
    at: int,
    found: Option<Match>,
)
    requires
        matcher.finds(haystack, at, found),
        0 <= at,
        matcher.case_insensitive ==> forall|i: int|
            0 <= i < matcher.needle@.len() ==> !(0x41 <= #[trigger] matcher.needle@[i] <= 0x5a),
    ensures
        match found {
            Some(m) => {
                &&& at <= m.start
                &&& m.end == m.start + matcher.needle@.len()
                &&& stands_at(
                    haystack,
                    matcher.needle@,
                    matcher.case_insensitive,
                    m.start as int,
                )
                &&& forall|p: int|
                    at <= p < m.start ==> !#[trigger] stands_at(
                        haystack,
                        matcher.needle@,
                        matcher.case_insensitive,
                        p,
                    )
            },
            None => forall|p: int|
                at <= p ==> !#[trigger] stands_at(
                    haystack,
                    matcher.needle@,
                    matcher.case_insensitive,
                    p,
                ),
        },
{
    let (needle, fold) = (matcher.needle@, matcher.case_insensitive);
    assert forall|p: int| #[trigger] stands_at(haystack, needle, fold, p) <==> occurs_at(
        folded(haystack, fold),
        needle,
        p,
    ) by {
        law_occurrence_is_where_the_needle_stands(haystack, needle, fold, p);
    }
}

/// A regex search reports what the regex matches first at or behind `at`, and nothing if and only
/// if it matches nothing there.
pub proof fn law_regex_matcher_finds_the_first_match<'r>(
    matcher: RegexMatcher<'r>,
    haystack: Seq<u8>,
    at: int,
    found: Option<Match>,
)
    requires
        matcher.finds(haystack, at, found),
    ensures
        ({
            let first = regex_match_at(
                matcher.regex.source(),
                matcher.regex.ignores_case(),
                true,
                false,
                haystack,
                at,
            );
            match found {
                Some(m) => first == Some((m.start, m.end)),
                None => first is None,
            }
        }),
{
}

/// A search for several literals reports a place where one of them stands at or behind `at`, none
/// of them ends earlier there, and nothing is reported if and only if none of them stands there.
pub proof fn law_set_matcher_finds_what_is_complete_first<'a>(
    matcher: AhoCorasickMatcher<'a>,
    haystack: Seq<u8>,
    at: int,
    found: Option<Match>,
)
    requires
        matcher.finds(haystack, at, found),
        0 <= at <= haystack.len(),
    ensures
        ({
            let (literals, fold) = (matcher.ac.literals(), matcher.ac.ignores_case());
            match found {
                Some(m) => {
                    &&& at <= m.start
                    &&& some_literal_at(
                        literals,
                        fold,
                        haystack.skip(at),
                        m.start - at,
                        m.end - at,
                    )
                    &&& forall|s: int, e: int| #[trigger]
                        some_literal_at(literals, fold, haystack.skip(at), s, e) ==> {
                            &&& m.end - at <= e
                            &&& e == m.end - at ==> m.start - at <= s
                        }
                },
                None => forall|s: int, e: int|
                    !#[trigger] some_literal_at(literals, fold, haystack.skip(at), s, e),
            }
        }),
{
}

/// A matcher of any mode finds what the matcher of that mode finds from the same place on.
pub proof fn law_line_matcher_finds_what_its_mode_finds<'p>(
    matcher: LineMatcher<'p>,
    haystack: Seq<u8>,
    at: int,
    found: Option<Match>,
)
    requires
        matcher.finds(haystack, at, found),
    ensures
        matcher matches LineMatcher::PlainText(m) ==> m.finds(haystack, at, found),
        matcher matches LineMatcher::Regex(m) ==> m.finds(haystack, at, found),
        matcher matches LineMatcher::AnyOf(m) ==> m.finds(haystack, at, found),
{
}

} // verus!
