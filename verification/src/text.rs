//! Characters, their UTF-8 form, white space and letter case.
use vstd::prelude::*;
use vstd::utf8::{decode_utf8, encode_scalar, encode_utf8, valid_utf8};

verus! {

/// A character with the Unicode property White_Space.
pub open spec fn is_white_space(c: char) -> bool {
    ||| '\u{9}' <= c <= '\u{d}'
    ||| c == '\u{20}'
    ||| c == '\u{85}'
    ||| c == '\u{a0}'
    ||| c == '\u{1680}'
    ||| '\u{2000}' <= c <= '\u{200a}'
    ||| c == '\u{2028}'
    ||| c == '\u{2029}'
    ||| c == '\u{202f}'
    ||| c == '\u{205f}'
    ||| c == '\u{3000}'
}

/// The number of white space characters at the start of `text`.
pub open spec fn indent_len(text: Seq<char>) -> nat
    decreases text.len(),
{
    if text.len() > 0 && is_white_space(text[0]) {
        1 + indent_len(text.drop_first())
    } else {
        0
    }
}

/// `text` without the white space at its start.
pub open spec fn without_indent(text: Seq<char>) -> Seq<char> {
    text.skip(indent_len(text) as int)
}

/// `text` without the white space at its end.
pub open spec fn without_trailing_space(text: Seq<char>) -> Seq<char>
    decreases text.len(),
{
    if text.len() > 0 && is_white_space(text.last()) {
        without_trailing_space(text.drop_last())
    } else {
        text
    }
}

/// `text` without white space at either end.
pub open spec fn without_outer_space(text: Seq<char>) -> Seq<char> {
    without_trailing_space(without_indent(text))
}

/// The number of bytes that the white space at the start of `text` takes in UTF-8.
pub open spec fn indent_bytes(text: Seq<char>) -> nat {
    encode_utf8(text.take(indent_len(text) as int)).len()
}

/// The text that `String::from_utf8_lossy` makes of some bytes.
pub uninterp spec fn utf8_lossy(bytes: Seq<u8>) -> Seq<char>;

/// What `char::is_uppercase` says of a character.
pub uninterp spec fn is_upper(c: char) -> bool;

/// `text` holds an uppercase character.
pub open spec fn has_upper(text: Seq<char>) -> bool {
    exists|i: int| 0 <= i < text.len() && is_upper(#[trigger] text[i])
}

/// `str::trim_start`: removes leading characters with the property White_Space.
pub assume_specification[ str::trim_start ](s: &str) -> (trimmed: &str)
    ensures
        trimmed@ == without_indent(s@),
;

/// `str::trim`: removes leading and trailing characters with the property White_Space.
pub assume_specification[ str::trim ](s: &str) -> (trimmed: &str)
    ensures
        trimmed@ == without_outer_space(s@),
;

/// `char::is_uppercase`: a fixed property of the character; of the ASCII characters exactly the
/// capital letters have it.
pub assume_specification[ char::is_uppercase ](c: char) -> (upper: bool)
    ensures
        upper == is_upper(c),
        c <= '\u{7f}' ==> upper == ('A' <= c <= 'Z'),
;

/// The error of a failed conversion from bytes to a `String`.
#[verifier::external_type_specification]
#[verifier::external_body]
pub struct ExFromUtf8Error(std::string::FromUtf8Error);

/// `String::from_utf8`: succeeds on valid UTF-8 alone, and then holds exactly those bytes.
pub assume_specification[ String::from_utf8 ](bytes: Vec<u8>) -> (text: Result<
    String,
    std::string::FromUtf8Error,
>)
    ensures
        text is Ok <==> valid_utf8(bytes@),
        text matches Ok(s) ==> encode_utf8(s@) == bytes@,
;

/// `String::from_utf8_lossy`: a function of the bytes that decodes valid UTF-8 as it is. Which
/// characters stand in for invalid stretches is not stated.
#[verifier::external_body]
pub(crate) fn decode_lossy(bytes: &[u8]) -> (text: String)
    ensures
        text@ == utf8_lossy(bytes@),
        valid_utf8(bytes@) ==> text@ == decode_utf8(bytes@),
{
    String::from_utf8_lossy(bytes).into_owned()
}

/// Whether a text holds an uppercase character.
pub fn contains_uppercase(text: &str) -> (found: bool)
    ensures
        found == has_upper(text@),
        found <==> exists|i: int| 0 <= i < text@.len() && is_upper(#[trigger] text@[i]),
{
    let ghost all = text@;
    for c in it: text.chars()
        invariant
            all == text@,
            it.seq() == all,
            forall|i: int| 0 <= i < it.index() ==> !is_upper(#[trigger] all[i]),
    {
        if c.is_uppercase() {
            assert(is_upper(all[it.index()]));
            return true;
        }
    }
    false
}

/// Smart case: a search ignores case unless one of its texts holds an uppercase character.
pub open spec fn smart_case_insensitive(smart_case: bool, text: Seq<char>) -> bool {
    smart_case && !has_upper(text)
}

/// The UTF-8 form of a text is that of its two parts, one behind the other.
pub proof fn lemma_encode_concat(a: Seq<char>, b: Seq<char>)
    ensures
        encode_utf8(a + b) == encode_utf8(a) + encode_utf8(b),
    decreases a.len(),
{
    if a.len() == 0 {
        assert(a + b =~= b);
        assert(encode_utf8(a) + encode_utf8(b) =~= encode_utf8(b));
    } else {
        assert((a + b).drop_first() =~= a.drop_first() + b);
        lemma_encode_concat(a.drop_first(), b);
        assert(encode_utf8(a + b) =~= encode_utf8(a) + encode_utf8(b));
    }
}

/// The white space counted at the start of a text fits into it.
pub proof fn lemma_indent_fits(text: Seq<char>)
    ensures
        indent_len(text) <= text.len(),
    decreases text.len(),
{
    if text.len() > 0 && is_white_space(text[0]) {
        lemma_indent_fits(text.drop_first());
    }
}

/// A text's bytes are those of its indent followed by those of the rest.
pub proof fn lemma_indent_bytes(text: Seq<char>)
    ensures
        encode_utf8(text).len() == indent_bytes(text) + encode_utf8(without_indent(text)).len(),
        encode_utf8(without_indent(text)) == encode_utf8(text).skip(indent_bytes(text) as int),
        indent_len(text) == 0 <==> indent_bytes(text) == 0,
{
    lemma_indent_fits(text);
    let lead = text.take(indent_len(text) as int);
    let rest = without_indent(text);
    assert(lead + rest =~= text);
    lemma_encode_concat(lead, rest);
    assert(encode_utf8(text).skip(indent_bytes(text) as int) =~= encode_utf8(rest));
    if lead.len() > 0 {
        assert(encode_scalar(lead[0] as u32).len() > 0);
    }
}

/// A text without an indent is left alone.
pub proof fn lemma_no_indent_left(text: Seq<char>)
    ensures
        indent_len(without_indent(text)) == 0,
    decreases text.len(),
{
    lemma_indent_fits(text);
    if text.len() > 0 && is_white_space(text[0]) {
        lemma_no_indent_left(text.drop_first());
        lemma_indent_fits(text.drop_first());
        assert(without_indent(text) =~= without_indent(text.drop_first()));
    } else {
        assert(without_indent(text) =~= text);
    }
}

/// A text is trimmed of white space alone, and of all of it at both ends: what is left is one
/// stretch of the text that neither starts nor ends with any.
pub proof fn law_trimming_removes_only_outer_space(text: Seq<char>)
    ensures
        exists|from: int, to: int|
            {
                &&& 0 <= from <= to <= text.len()
                &&& without_outer_space(text) == #[trigger] text.subrange(from, to)
                &&& forall|i: int| 0 <= i < from ==> is_white_space(#[trigger] text[i])
                &&& forall|i: int| to <= i < text.len() ==> is_white_space(#[trigger] text[i])
                &&& from < to ==> !is_white_space(text[from]) && !is_white_space(text[to - 1])
            },
{
    let from = indent_len(text) as int;
    lemma_indent_is_white(text);
    let rest = without_indent(text);
    lemma_trailing_is_white(rest);
    let kept = without_trailing_space(rest).len() as int;
    let to = from + kept;
    assert(without_outer_space(text) =~= text.subrange(from, to));
    assert forall|i: int| to <= i < text.len() implies is_white_space(#[trigger] text[i]) by {
        assert(rest[i - from] == text[i]);
    }
    if from < to {
        assert(rest.len() > 0 && rest[0] == text[from]);
        assert(rest.take(kept).last() == text[to - 1]);
    }
}

/// The indent is white space, and what follows it does not start with any.
pub proof fn lemma_indent_is_white(text: Seq<char>)
    ensures
        indent_len(text) <= text.len(),
        forall|i: int| 0 <= i < indent_len(text) ==> is_white_space(#[trigger] text[i]),
        indent_len(text) < text.len() ==> !is_white_space(text[indent_len(text) as int]),
    decreases text.len(),
{
    if text.len() > 0 && is_white_space(text[0]) {
        let rest = text.drop_first();
        lemma_indent_is_white(rest);
        assert forall|i: int| 0 <= i < indent_len(text) implies is_white_space(
            #[trigger] text[i],
        ) by {
            if i > 0 {
                assert(rest[i - 1] == text[i]);
            }
        }
    }
}

proof fn lemma_trailing_is_white(text: Seq<char>)
    ensures
        without_trailing_space(text).len() <= text.len(),
        without_trailing_space(text) == text.take(without_trailing_space(text).len() as int),
        forall|i: int|
            without_trailing_space(text).len() <= i < text.len() ==> is_white_space(
                #[trigger] text[i],
            ),
        without_trailing_space(text).len() > 0 ==> !is_white_space(
            without_trailing_space(text).last(),
        ),
    decreases text.len(),
{
    if text.len() > 0 && is_white_space(text.last()) {
        let rest = text.drop_last();
        lemma_trailing_is_white(rest);
        let kept = without_trailing_space(text).len() as int;
        assert(rest.take(kept) =~= text.take(kept));
        assert forall|i: int| kept <= i < text.len() implies is_white_space(#[trigger] text[i]) by {
            if i < rest.len() {
                assert(rest[i] == text[i]);
            }
        }
    } else {
        assert(text.take(text.len() as int) =~= text);
    }
}

/// An indent is removed whole and nothing else is: what is left is the end of the text from its
/// first character on that is no white space.
pub proof fn law_indent_is_the_leading_space(text: Seq<char>)
    ensures
        exists|n: int|
            {
                &&& 0 <= n <= text.len()
                &&& without_indent(text) == #[trigger] text.skip(n)
                &&& indent_bytes(text) == encode_utf8(text.take(n)).len()
                &&& forall|i: int| 0 <= i < n ==> is_white_space(#[trigger] text[i])
                &&& n < text.len() ==> !is_white_space(text[n])
            },
{
    lemma_indent_is_white(text);
    let n = indent_len(text) as int;
    assert(without_indent(text) == text.skip(n));
}

/// Smart case looks at every character: a search ignores case if and only if that is asked for and
/// no character of its text, wherever it stands, is uppercase.
pub proof fn law_smart_case_looks_at_every_character(smart_case: bool, text: Seq<char>)
    ensures
        forall|i: int|
            0 <= i < text.len() && is_upper(#[trigger] text[i]) ==> !smart_case_insensitive(
                smart_case,
                text,
            ),
        smart_case && (forall|i: int| 0 <= i < text.len() ==> !is_upper(#[trigger] text[i]))
            ==> smart_case_insensitive(smart_case, text),
        !smart_case ==> !smart_case_insensitive(smart_case, text),
{
}

} // verus!
