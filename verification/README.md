# fff_grep_core

The search core of a file finder's content grep, written in Verus.

Given a query and the files of a project, a search returns one page of matched
lines with their highlights and context. The library in `src/` makes every
decision on the way and proves it: how a text is interpreted, which files are
worth opening and in what order, what is shown of a line and what is highlighted
in it, when a page is full and where the next one starts.

- `grep.rs` holds the two whole searches, `grep_search` and `multi_grep_search`.
- `search.rs`, `patterns.rs`, `escapes.rs`, `metachars.rs`, `text.rs` and
  `needle.rs` turn a query into what is searched for.
- `constraints.rs`, `candidates.rs`, `prefilter.rs` and `files.rs` choose the files.
- `matcher.rs`, `sink.rs`, `display.rs`, `context.rs`, `spans.rs`, `char_spans.rs`
  and `matches.rs` make matches of the lines of a file.
- `run.rs`, `page.rs` and `paging.rs` make pages of matches.
- `agreement.rs` proves how whole searches agree with one another: successive pages,
  a search with an index and one without, a regex that does not compile and plain text.
- `steady.rs` proves what searches give while nothing around them changes: the same
  result again, the same first page with an index as without, one page for many.

`app/` runs searches: worker threads, time, cancellation and logging. What reads
files, keeps an index, tells definitions or parses queries is handed to it as a `Host`.
