//! Telling a plain text from a regular expression.
use vstd::prelude::*;

verus! {

/// A character with a meaning of its own in a regular expression.
pub open spec fn is_regex_meta(c: char) -> bool {
    ||| c == '\\'
    ||| c == '.'
    ||| c == '+'
    ||| c == '*'
    ||| c == '?'
    ||| c == '('
    ||| c == ')'
    ||| c == '|'
    ||| c == '['
    ||| c == ']'
    ||| c == '{'
    ||| c == '}'
    ||| c == '^'
    ||| c == '$'
    ||| c == '#'
    ||| c == '&'
    ||| c == '-'
    ||| c == '~'
}

/// `text` with a backslash before every such character.
pub open spec fn regex_escaped(text: Seq<char>) -> Seq<char>
    decreases text.len(),
{
    if text.len() == 0 {
        Seq::empty()
    } else if is_regex_meta(text.last()) {
        regex_escaped(text.drop_last()).push('\\').push(text.last())
    } else {
        regex_escaped(text.drop_last()).push(text.last())
    }
}

/// `regex::escape`: puts a backslash before each of the 18 meta characters and changes nothing
/// else.
pub assume_specification[ regex::escape ](pattern: &str) -> (escaped: String)
    ensures
        escaped@ == regex_escaped(pattern@),
;

/// Escaping leaves a text without meta characters alone and makes any other text longer.
proof fn lemma_escaped(text: Seq<char>)
    ensures
        regex_escaped(text).len() >= text.len(),
        (forall|i: int| 0 <= i < text.len() ==> !is_regex_meta(#[trigger] text[i]))
            ==> regex_escaped(text) == text,
        (exists|i: int| 0 <= i < text.len() && is_regex_meta(#[trigger] text[i]))
            ==> regex_escaped(text).len() > text.len(),
    decreases text.len(),
{
    if text.len() > 0 {
        let head = text.drop_last();
        lemma_escaped(head);
        assert(head.push(text.last()) =~= text);
        if forall|i: int| 0 <= i < text.len() ==> !is_regex_meta(#[trigger] text[i]) {
            assert forall|i: int| 0 <= i < head.len() implies !is_regex_meta(
                #[trigger] head[i],
            ) by {
                assert(head[i] == text[i]);
            }
            assert(!is_regex_meta(text[text.len() - 1]));
        }
        if exists|i: int| 0 <= i < text.len() && is_regex_meta(#[trigger] text[i]) {
            let i = choose|i: int| 0 <= i < text.len() && is_regex_meta(#[trigger] text[i]);
            if i < head.len() {
                assert(is_regex_meta(head[i]));
            }
        }
    } else {
        assert(regex_escaped(text) =~= text);
    }
}

/// Whether a text means something else as a regular expression than it says literally.
pub fn has_regex_metacharacters(text: &str) -> (found: bool)
    ensures
        found == exists|i: int| 0 <= i < text@.len() && is_regex_meta(#[trigger] text@[i]),
{
    proof {
        lemma_escaped(text@);
    }
    regex::escape(text) != text.to_string()
}

} // verus!
