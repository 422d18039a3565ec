//! What a caller asks of a search.
use std::sync::atomic::AtomicBool;
use std::sync::Arc;
use vstd::prelude::*;

verus! {

/// Largest file, in bytes, that a search opens unless told otherwise.
pub const MAX_FFFILE_SIZE: u64 = 10_485_760;

/// Controls how the grep pattern is interpreted.
#[derive(Debug, Clone, Copy, PartialEq, Eq, Structural)]
pub enum GrepMode {
    /// Literal plain text match: default path that doesn't require any regex machinery
    PlainText,
    /// Regex mode
    Regex,
    /// Smart fuzzy mode, allows user to make either a couple of single char typos or long gaps
    Fuzzy,
}

impl Default for GrepMode {
    fn default() -> (mode: Self)
        ensures
            mode == GrepMode::PlainText,
    {
        GrepMode::PlainText
    }
}

/// Options for grep search.
#[derive(Debug, Clone)]
pub struct GrepSearchOptions {
    pub max_file_size: u64,
    pub max_matches_per_file: usize,
    pub smart_case: bool,
    /// File-based pagination offset: index into the sorted/filtered file list
    /// to start searching from. Pass 0 for the first page, then use
    /// `GrepResult::next_file_offset` for subsequent pages.
    pub file_offset: usize,
    /// Maximum number of matches to collect before stopping.
    pub page_limit: usize,
    /// How to interpret the search pattern. Defaults to `PlainText`.
    pub mode: GrepMode,
    /// Maximum time in milliseconds to spend searching before returning partial
    /// results. 0 = no limit.
    pub time_budget_ms: u64,
    /// Number of context lines before each match. 0 = disabled.
    pub before_context: usize,
    /// Number of context lines after each match. 0 = disabled.
    pub after_context: usize,
    /// Whether to classify each match as a definition line.
    pub classify_definitions: bool,
    /// Strip leading whitespace from matched lines and context lines, adjusting
    /// highlight byte offsets accordingly.
    pub trim_whitespace: bool,
    /// External abort signal. Set to `true` to stop the search early and return
    /// partial results.
    pub abort_signal: Option<Arc<AtomicBool>>,
}

impl Default for GrepSearchOptions {
    fn default() -> (options: Self)
        ensures
            options.max_file_size == MAX_FFFILE_SIZE,
            options.max_matches_per_file == 200,
            options.smart_case,
            options.file_offset == 0,
            options.page_limit == 50,
            options.mode == GrepMode::PlainText,
            options.time_budget_ms == 0,
            options.before_context == 0,
            options.after_context == 0,
            !options.classify_definitions,
            !options.trim_whitespace,
            options.abort_signal is None,
    {
        GrepSearchOptions {
            max_file_size: MAX_FFFILE_SIZE,
            max_matches_per_file: 200,
            smart_case: true,
            file_offset: 0,
            page_limit: 50,
            mode: GrepMode::default(),
            time_budget_ms: 0,
            before_context: 0,
            after_context: 0,
            classify_definitions: false,
            trim_whitespace: false,
            abort_signal: None,
        }
    }
}

} // verus!
