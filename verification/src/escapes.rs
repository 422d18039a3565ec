//! The two-character escape `\n` in a search text.
use vstd::prelude::*;
use vstd::utf8::{
    encode_utf8, encode_utf8_valid_utf8, is_char_boundary,
    is_char_boundary_iff_not_is_continuation_byte, valid_utf8, valid_utf8_concat,
    valid_utf8_split,
};

verus! {

/// The number of consecutive backslashes that end right before position `at`.
pub open spec fn backslashes_before(bytes: Seq<u8>, at: int) -> nat
    decreases at,
{
    if 0 < at <= bytes.len() && bytes[at - 1] == 0x5c {
        1 + backslashes_before(bytes, at - 1)
    } else {
        0
    }
}

/// A backslash followed by `n` stands at position `at`.
pub open spec fn backslash_n_at(bytes: Seq<u8>, at: int) -> bool {
    0 <= at && at + 1 < bytes.len() && bytes[at] == 0x5c && bytes[at + 1] == 0x6e
}

/// An unescaped `\n` stands at position `at`: the run of backslashes that ends there is odd, so
/// its last backslash is not itself escaped.
pub open spec fn newline_escape_at(bytes: Seq<u8>, at: int) -> bool {
    backslash_n_at(bytes, at) && backslashes_before(bytes, at + 1) % 2 == 1
}

/// An unescaped `\n` stands somewhere in `bytes`.
pub open spec fn has_newline_escape(bytes: Seq<u8>) -> bool {
    exists|at: int| newline_escape_at(bytes, at)
}

/// `bytes` from position `from` on, with every unescaped `\n` made a line feed.
pub open spec fn newlines_unescaped(bytes: Seq<u8>, from: int) -> Seq<u8>
    decreases bytes.len() - from,
{
    if from < 0 || from >= bytes.len() {
        Seq::empty()
    } else if newline_escape_at(bytes, from) {
        seq![0x0au8] + newlines_unescaped(bytes, from + 2)
    } else {
        seq![bytes[from]] + newlines_unescaped(bytes, from + 1)
    }
}

/// Counts the consecutive backslashes that end at position `at`, which holds one.
fn count_backslashes(bytes: &[u8], at: usize) -> (count: usize)
    requires
        at < bytes@.len(),
        bytes@[at as int] == 0x5c,
    ensures
        count == backslashes_before(bytes@, at + 1),
{
    let mut count: usize = 1;
    while count <= at && bytes[at - count] == 0x5c
        invariant
            1 <= count <= at + 1 <= bytes.len(),
            backslashes_before(bytes@, at + 1) == count + backslashes_before(
                bytes@,
                at + 1 - count,
            ),
        decreases at + 1 - count,
    {
        count += 1;
    }
    count
}

/// Check if `text` contains `\n` that is NOT preceded by another `\`.
///
/// `\n` -> true (a multiline search is wanted)
/// `\\n` -> false (escaped backslash followed by literal `n`, e.g. `\\nvim-data`)
pub fn has_unescaped_newline_escape(text: &str) -> (found: bool)
    ensures
        found == has_newline_escape(encode_utf8(text@)),
{
    let bytes: &[u8] = text.as_bytes();
    let mut i: usize = 0;
    while i < bytes.len().saturating_sub(1)
        invariant
            bytes@ == encode_utf8(text@),
            i <= bytes.len(),
            backslashes_before(bytes@, i as int) % 2 == 0,
            forall|at: int| at < i ==> !newline_escape_at(bytes@, at),
        decreases bytes.len() - i,
    {
        if bytes[i] == 0x5c {
            if bytes[i + 1] == 0x6e {
                // An odd run of backslashes before `n` is a real escape.
                if count_backslashes(bytes, i) % 2 == 1 {
                    assert(newline_escape_at(bytes@, i as int));
                    return true;
                }
            }
            // Skip past the escaped character.
            proof {
                reveal_with_fuel(backslashes_before, 3);
            }
            i += 2;
        } else {
            i += 1;
        }
    }
    assert forall|at: int| !newline_escape_at(bytes@, at) by {}
    false
}

/// Replacing two ASCII bytes by one leaves valid UTF-8 valid.
proof fn lemma_replace_ascii_pair(head: Seq<u8>, first: u8, second: u8, with: u8, tail: Seq<u8>)
    requires
        first < 0x80,
        second < 0x80,
        with < 0x80,
        valid_utf8(head + seq![first, second] + tail),
    ensures
        valid_utf8(head + seq![with] + tail),
{
    let whole = head + seq![first, second] + tail;
    let at = head.len() as int;
    is_char_boundary_iff_not_is_continuation_byte(whole, at);
    assert(is_char_boundary(whole, at));
    valid_utf8_split(whole, at);
    assert(whole.subrange(0, at) =~= head);
    if tail.len() == 0 {
        assert(valid_utf8(tail));
    } else {
        is_char_boundary_iff_not_is_continuation_byte(whole, at + 1);
        valid_utf8_split(whole, at + 1);
        let behind = whole.subrange(at + 1, whole.len() as int);
        assert(behind =~= seq![second] + tail);
        reveal_with_fuel(valid_utf8, 2);
        assert(vstd::utf8::pop_first_scalar(behind) =~= tail);
    }
    assert(valid_utf8(seq![with])) by {
        reveal_with_fuel(valid_utf8, 2);
    }
    valid_utf8_concat(head, seq![with]);
    valid_utf8_concat(head + seq![with], tail);
}

/// Replace only unescaped `\n` sequences with real newlines.
///
/// `\n` -> newline character
/// `\\n` -> preserved as-is (literal backslash + `n`)
pub fn replace_unescaped_newline_escapes(text: &str) -> (replaced: String)
    ensures
        encode_utf8(replaced@) == newlines_unescaped(encode_utf8(text@), 0),
{
    let bytes: &[u8] = text.as_bytes();
    let mut result: Vec<u8> = Vec::with_capacity(bytes.len());
    let mut i: usize = 0;
    proof {
        encode_utf8_valid_utf8(text@);
        assert(result@ + bytes@.skip(0) =~= bytes@);
    }
    while i < bytes.len()
        invariant
            bytes@ == encode_utf8(text@),
            i <= bytes.len(),
            valid_utf8(result@ + bytes@.skip(i as int)),
            newlines_unescaped(bytes@, 0) == result@ + newlines_unescaped(bytes@, i as int),
        decreases bytes.len() - i,
    {
        let ghost before = result@;
        let ghost rest = bytes@.skip(i as int);
        if bytes[i] == 0x5c && i + 1 < bytes.len() && bytes[i + 1] == 0x6e && count_backslashes(
            bytes,
            i,
        ) % 2 == 1 {
            proof {
                assert(newline_escape_at(bytes@, i as int));
                let tail = bytes@.skip(i + 2);
                assert(before + rest =~= before + seq![0x5cu8, 0x6eu8] + tail);
                lemma_replace_ascii_pair(before, 0x5cu8, 0x6eu8, 0x0au8, tail);
                assert(before.push(0x0au8) + tail =~= before + seq![0x0au8] + tail);
            }
            result.push(0x0a);
            i += 2;
        } else {
            proof {
                assert(!newline_escape_at(bytes@, i as int));
                assert(before.push(bytes@[i as int]) + bytes@.skip(i + 1) =~= before + rest);
            }
            result.push(bytes[i]);
            i += 1;
        }
        assert(newlines_unescaped(bytes@, 0) =~= result@ + newlines_unescaped(bytes@, i as int));
    }
    assert(result@ + bytes@.skip(i as int) =~= result@);
    assert(result@ + newlines_unescaped(bytes@, i as int) =~= result@);
    match String::from_utf8(result) {
        Ok(replaced) => replaced,
        Err(_) => text.to_string(),
    }
}

/// A text without an unescaped `\n` is left as it is.
pub proof fn law_no_escape_no_change(bytes: Seq<u8>)
    requires
        !has_newline_escape(bytes),
    ensures
        newlines_unescaped(bytes, 0) == bytes,
{
    lemma_no_escape_from(bytes, 0);
    assert(bytes.skip(0) =~= bytes);
}

proof fn lemma_no_escape_from(bytes: Seq<u8>, from: int)
    requires
        !has_newline_escape(bytes),
        0 <= from <= bytes.len(),
    ensures
        newlines_unescaped(bytes, from) == bytes.skip(from),
    decreases bytes.len() - from,
{
    if from < bytes.len() {
        lemma_no_escape_from(bytes, from + 1);
        assert(!newline_escape_at(bytes, from));
        assert(seq![bytes[from]] + bytes.skip(from + 1) =~= bytes.skip(from));
    } else {
        assert(bytes.skip(from) =~= Seq::<u8>::empty());
    }
}

/// A text with an unescaped `\n` becomes one that holds a line feed.
pub proof fn law_escape_becomes_line_feed(bytes: Seq<u8>)
    requires
        has_newline_escape(bytes),
    ensures
        newlines_unescaped(bytes, 0).contains(0x0au8),
{
    let at = choose|at: int| newline_escape_at(bytes, at);
    lemma_escape_from(bytes, 0, at);
}

proof fn lemma_escape_from(bytes: Seq<u8>, from: int, at: int)
    requires
        newline_escape_at(bytes, at),
        0 <= from <= at,
    ensures
        newlines_unescaped(bytes, from).contains(0x0au8),
    decreases at - from,
{
    let out = newlines_unescaped(bytes, from);
    if newline_escape_at(bytes, from) {
        assert(out[0] == 0x0au8);
    } else {
        lemma_escape_from(bytes, from + 1, at);
        let rest = newlines_unescaped(bytes, from + 1);
        let k = choose|k: int| 0 <= k < rest.len() && rest[k] == 0x0au8;
        assert(out[k + 1] == 0x0au8);
    }
}

/// Once the unescaped `\n` of a text have been replaced none is left, so that replacing them again
/// changes nothing.
pub proof fn law_unescaping_leaves_no_escape(bytes: Seq<u8>)
    ensures
        !has_newline_escape(newlines_unescaped(bytes, 0)),
        newlines_unescaped(newlines_unescaped(bytes, 0), 0) == newlines_unescaped(bytes, 0),
{
    let out = newlines_unescaped(bytes, 0);
    lemma_no_escape_left(bytes, 0, Seq::empty());
    assert(Seq::<u8>::empty() + out =~= out);
    law_no_escape_no_change(out);
}

/// Backslashes that end before a byte behind them are counted as before it was there.
proof fn lemma_backslashes_before_push(head: Seq<u8>, byte: u8, at: int)
    requires
        0 <= at <= head.len(),
    ensures
        backslashes_before(head.push(byte), at) == backslashes_before(head, at),
    decreases at,
{
    if at > 0 && head[at - 1] == 0x5c {
        lemma_backslashes_before_push(head, byte, at - 1);
    }
}

/// `done` is the output for the first `from` bytes: it holds no escape, and neither does the whole
/// output.
proof fn lemma_no_escape_left(bytes: Seq<u8>, from: int, done: Seq<u8>)
    requires
        0 <= from <= bytes.len(),
        !has_newline_escape(done),
        backslashes_before(done, done.len() as int) == backslashes_before(bytes, from),
        from < bytes.len() && backslashes_before(bytes, from) % 2 == 1 ==> bytes[from] != 0x6e,
    ensures
        !has_newline_escape(done + newlines_unescaped(bytes, from)),
    decreases bytes.len() - from,
{
    if from >= bytes.len() {
        assert(done + newlines_unescaped(bytes, from) =~= done);
    } else {
        let escape = newline_escape_at(bytes, from);
        let byte = if escape {
            0x0au8
        } else {
            bytes[from]
        };
        let next = if escape {
            from + 2
        } else {
            from + 1
        };
        let more = done.push(byte);
        lemma_backslashes_before_push(done, byte, done.len() as int);
        assert forall|at: int| !newline_escape_at(more, at) by {
            if newline_escape_at(more, at) {
                if at + 1 < done.len() {
                    lemma_backslashes_before_push(done, byte, at + 1);
                    assert(newline_escape_at(done, at));
                } else {
                    assert(at + 1 == done.len());
                    assert(byte == 0x6e);
                }
            }
        }
        lemma_no_escape_left(bytes, next, more);
        assert(done + newlines_unescaped(bytes, from) =~= more + newlines_unescaped(bytes, next));
    }
}

/// Exactly `run` backslashes end right before position `at`.
pub open spec fn run_of_backslashes(bytes: Seq<u8>, at: int, run: int) -> bool {
    &&& 0 <= run <= at <= bytes.len()
    &&& forall|j: int| at - run <= j < at ==> #[trigger] bytes[j] == 0x5c
    &&& at - run > 0 ==> bytes[at - run - 1] != 0x5c
}

proof fn lemma_backslashes_are_a_run(bytes: Seq<u8>, at: int, run: int)
    requires
        0 <= at <= bytes.len(),
    ensures
        run_of_backslashes(bytes, at, run) <==> run == backslashes_before(bytes, at),
    decreases at,
{
    if at > 0 && bytes[at - 1] == 0x5c {
        lemma_backslashes_are_a_run(bytes, at - 1, run - 1);
        lemma_backslashes_are_a_run(
            bytes,
            at - 1,
            backslashes_before(bytes, at - 1) as int,
        );
        if run_of_backslashes(bytes, at, run) {
            assert(run > 0);
            assert(run_of_backslashes(bytes, at - 1, run - 1));
        }
    } else if run_of_backslashes(bytes, at, run) && run > 0 {
        assert(bytes[at - 1] == 0x5c);
    }
}

/// A `\n` is an escape if and only if the backslashes before its `n` are odd in number: of two
/// backslashes the first escapes the second.
pub proof fn law_escape_is_an_odd_run(bytes: Seq<u8>, at: int)
    ensures
        newline_escape_at(bytes, at) <==> {
            &&& 0 <= at && at + 1 < bytes.len()
            &&& bytes[at + 1] == 0x6e
            &&& exists|run: int| #[trigger] run_of_backslashes(bytes, at + 1, run) && run % 2 == 1
        },
{
    if 0 <= at && at + 1 < bytes.len() {
        let count = backslashes_before(bytes, at + 1) as int;
        lemma_backslashes_are_a_run(bytes, at + 1, count);
        assert forall|run: int| #[trigger] run_of_backslashes(bytes, at + 1, run) implies run
            == count by {
            lemma_backslashes_are_a_run(bytes, at + 1, run);
        }
        if count == 0 && bytes[at] == 0x5c {
            assert(backslashes_before(bytes, at + 1) > 0);
        }
        if count > 0 {
            assert(bytes[at] == 0x5c);
        }
    }
}

/// A text holds an unescaped `\n` if and only if somewhere an odd number of backslashes stands
/// right before an `n`.
pub proof fn law_escapes_are_odd_runs(bytes: Seq<u8>)
    ensures
        has_newline_escape(bytes) <==> exists|at: int, run: int|
            {
                &&& #[trigger] run_of_backslashes(bytes, at, run)
                &&& run % 2 == 1
                &&& at < bytes.len()
                &&& bytes[at] == 0x6e
            },
{
    if has_newline_escape(bytes) {
        let at = choose|at: int| newline_escape_at(bytes, at);
        law_escape_is_an_odd_run(bytes, at);
        let run = choose|run: int| #[trigger] run_of_backslashes(bytes, at + 1, run) && run % 2 == 1;
        assert(run_of_backslashes(bytes, at + 1, run) && bytes[at + 1] == 0x6e);
    }
    if exists|at: int, run: int|
        {
            &&& #[trigger] run_of_backslashes(bytes, at, run)
            &&& run % 2 == 1
            &&& at < bytes.len()
            &&& bytes[at] == 0x6e
        } {
        let (at, run) = choose|at: int, run: int|
            {
                &&& #[trigger] run_of_backslashes(bytes, at, run)
                &&& run % 2 == 1
                &&& at < bytes.len()
                &&& bytes[at] == 0x6e
            };
        assert(run_of_backslashes(bytes, (at - 1) + 1, run));
        law_escape_is_an_odd_run(bytes, at - 1);
        assert(newline_escape_at(bytes, at - 1));
    }
}

/// The number of unescaped `\n` that start before position `end`.
pub open spec fn escapes_before(bytes: Seq<u8>, end: int) -> int
    decreases end,
{
    if end <= 0 {
        0
    } else if newline_escape_at(bytes, end - 1) {
        escapes_before(bytes, end - 1) + 1
    } else {
        escapes_before(bytes, end - 1)
    }
}

/// Each unescaped `\n` becomes one line feed, and every other byte stays as it is: in its place,
/// but for what the escapes before it have got shorter. Of an escape, `p` is the backslash.
pub proof fn law_unescaping_changes_escapes_alone(bytes: Seq<u8>, p: int)
    ensures
        newlines_unescaped(bytes, 0).len() == bytes.len() - escapes_before(
            bytes,
            bytes.len() as int,
        ),
        0 <= p < bytes.len() && !newline_escape_at(bytes, p - 1) ==> {
            &&& 0 <= p - escapes_before(bytes, p) < newlines_unescaped(bytes, 0).len()
            &&& newlines_unescaped(bytes, 0)[p - escapes_before(bytes, p)]
                == if newline_escape_at(bytes, p) {
                0x0au8
            } else {
                bytes[p]
            }
        },
{
    assert(!newline_escape_at(bytes, -1));
    lemma_unescaped_len(bytes, 0);
    if 0 <= p < bytes.len() && !newline_escape_at(bytes, p - 1) {
        lemma_unescaped_from(bytes, 0, p);
    }
}

/// Behind an escape the count of escapes has grown by one.
proof fn lemma_escapes_step(bytes: Seq<u8>, from: int)
    requires
        0 <= from < bytes.len(),
    ensures
        newline_escape_at(bytes, from) ==> from + 2 <= bytes.len() && !newline_escape_at(
            bytes,
            from + 1,
        ) && escapes_before(bytes, from + 2) == escapes_before(bytes, from) + 1,
        !newline_escape_at(bytes, from) ==> escapes_before(bytes, from + 1) == escapes_before(
            bytes,
            from,
        ),
{
    reveal_with_fuel(escapes_before, 3);
}

proof fn lemma_unescaped_len(bytes: Seq<u8>, from: int)
    requires
        0 <= from <= bytes.len(),
    ensures
        newlines_unescaped(bytes, from).len() == bytes.len() - from - (escapes_before(
            bytes,
            bytes.len() as int,
        ) - escapes_before(bytes, from)),
    decreases bytes.len() - from,
{
    if from < bytes.len() {
        lemma_escapes_step(bytes, from);
        if newline_escape_at(bytes, from) {
            lemma_unescaped_len(bytes, from + 2);
        } else {
            lemma_unescaped_len(bytes, from + 1);
        }
    }
}

proof fn lemma_unescaped_from(bytes: Seq<u8>, from: int, p: int)
    requires
        0 <= from <= p < bytes.len(),
        !newline_escape_at(bytes, p - 1),
    ensures
        ({
            let out = newlines_unescaped(bytes, from);
            let k = p - from - (escapes_before(bytes, p) - escapes_before(bytes, from));
            &&& 0 <= k < out.len()
            &&& out[k] == if newline_escape_at(bytes, p) {
                0x0au8
            } else {
                bytes[p]
            }
        }),
    decreases bytes.len() - from,
{
    lemma_escapes_step(bytes, from);
    let out = newlines_unescaped(bytes, from);
    if from < p {
        let next = if newline_escape_at(bytes, from) {
            from + 2
        } else {
            from + 1
        };
        lemma_unescaped_from(bytes, next, p);
        let k = p - from - (escapes_before(bytes, p) - escapes_before(bytes, from));
        assert(out[k] == newlines_unescaped(bytes, next)[k - 1]);
    }
}

/// Replacing the unescaped `\n` of valid UTF-8 leaves it valid.
pub proof fn lemma_unescaping_keeps_utf8(bytes: Seq<u8>)
    requires
        valid_utf8(bytes),
    ensures
        valid_utf8(newlines_unescaped(bytes, 0)),
{
    let empty = Seq::<u8>::empty();
    assert(empty + bytes.skip(0) =~= bytes);
    lemma_unescaped_stays_utf8(bytes, 0, empty);
    assert(empty + newlines_unescaped(bytes, 0) =~= newlines_unescaped(bytes, 0));
}

proof fn lemma_unescaped_stays_utf8(bytes: Seq<u8>, from: int, done: Seq<u8>)
    requires
        0 <= from <= bytes.len(),
        valid_utf8(done + bytes.skip(from)),
    ensures
        valid_utf8(done + newlines_unescaped(bytes, from)),
    decreases bytes.len() - from,
{
    if from >= bytes.len() {
        assert(done + newlines_unescaped(bytes, from) =~= done + bytes.skip(from));
    } else if newline_escape_at(bytes, from) {
        let tail = bytes.skip(from + 2);
        assert(done + bytes.skip(from) =~= done + seq![0x5cu8, 0x6eu8] + tail);
        lemma_replace_ascii_pair(done, 0x5cu8, 0x6eu8, 0x0au8, tail);
        assert(done.push(0x0au8) + tail =~= done + seq![0x0au8] + tail);
        lemma_unescaped_stays_utf8(bytes, from + 2, done.push(0x0au8));
        assert(done + newlines_unescaped(bytes, from) =~= done.push(0x0au8) + newlines_unescaped(
            bytes,
            from + 2,
        ));
    } else {
        let more = done.push(bytes[from]);
        assert(more + bytes.skip(from + 1) =~= done + bytes.skip(from));
        lemma_unescaped_stays_utf8(bytes, from + 1, more);
        assert(done + newlines_unescaped(bytes, from) =~= more + newlines_unescaped(
            bytes,
            from + 1,
        ));
    }
}

} // verus!
