//! The search core of a file finder's content grep.
//!
//! [`grep_search`] takes a query and gives one page of results; [`multi_grep_search`] does so for
//! several patterns at once. Both decide and leave the rest to functions that they are given:
//! reading files, running worker threads, keeping an index, parsing queries.
//!
//! A search goes through these steps:
//!
//! 1. [`GrepQuery::grep_text`] gives the text to be searched for, and [`SearchPlan::new`] how it
//!    is searched for.
//! 2. [`overlaid_candidates`] and [`combined_candidates`] make the answers of an index one set of
//!    candidate files.
//! 3. [`select_files`] chooses the files to be searched and their order.
//! 4. [`perform_grep`] hands out chunks of files and takes their matches back until a page is
//!    filled.
//! 5. In each file, a line searcher finds lines with a [`LineMatcher`] and reports them to a
//!    [`LineSink`].
pub mod agreement;
pub mod candidates;
pub mod char_spans;
pub mod constraints;
pub mod context;
pub mod display;
pub mod escapes;
pub mod files;
pub mod grep;
pub mod matcher;
pub mod matches;
pub mod metachars;
pub mod needle;
pub mod options;
pub mod outcomes;
pub mod page;
pub mod paging;
pub mod patterns;
pub mod prefilter;
pub mod run;
pub mod search;
pub mod sink;
pub mod spans;
pub mod steady;
pub mod text;

pub use candidates::{
    combined_candidates, overlaid_candidates, IndexAnswer, MultiIndexAnswer, OverlayChanges,
};
pub use char_spans::char_indices_to_byte_offsets;
pub use constraints::{
    select_files, strip_file_path_constraint_if_present, Constraint, Selection,
};
pub use display::{
    is_utf8_char_boundary, strip_line_terminators, truncate_display_bytes, MAX_LINE_DISPLAY_LEN,
};
pub use escapes::{has_unescaped_newline_escape, replace_unescaped_newline_escapes};
pub use files::{live_count, FileItem};
pub use grep::{choose_files, grep_search, multi_grep_search, perform_grep, resolve_text};
pub use matcher::{
    AhoCorasickMatcher, LineMatcher, Match, PlainTextMatcher, RegexMatcher,
};
pub use matches::GrepMatch;
pub use metachars::has_regex_metacharacters;
pub use options::{GrepMode, GrepSearchOptions, MAX_FFFILE_SIZE};
pub use page::{FileMatches, GrepResult};
pub use patterns::{
    build_pattern_set, build_regex, CompiledRegex, PatternSet, PatternSetError,
};
pub use prefilter::{basic_prefilter, prefilter_files};
pub use run::{file_outcome, must_stop, polls_stop, ChunkMatches, GrepContext, GrepRun};
pub use search::{
    bigram_boundary, multi_matcher, multi_sink, patterns_are_blank, BigramQuery, ContentPlan,
    GrepQuery, SearchPlan, FUZZY_BIGRAM_PROBES,
};
pub use sink::{
    AhoCorasickSink, LineSink, PlainTextSink, RegexSink, SinkMatch, SinkState,
};
pub use spans::MatchSpans;
