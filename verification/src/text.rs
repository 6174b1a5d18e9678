//! HTML escaping of text.

use vstd::prelude::*;

verus! {

/// What one character becomes inside HTML text or a quoted attribute value.
pub open spec fn escaped_char(c: char) -> Seq<char> {
    if c == '&' {
        "&amp;"@
    } else if c == '<' {
        "&lt;"@
    } else if c == '>' {
        "&gt;"@
    } else if c == '"' {
        "&quot;"@
    } else {
        seq![c]
    }
}

/// A text with each character replaced by [`escaped_char`] of it.
pub open spec fn escaped(text: Seq<char>) -> Seq<char>
    decreases text.len(),
{
    if text.len() == 0 {
        Seq::empty()
    } else {
        escaped(text.drop_last()) + escaped_char(text.last())
    }
}

/// Escapes a text for HTML by `maud::Render::render` on a `str`.
///
/// Trusted: maud replaces `&`, `<`, `>` and `"` by their entities and passes
/// every other character through unchanged.
#[verifier::external_body]
pub(crate) fn escape(text: &str) -> (out: String)
    ensures
        out@ == escaped(text@),
{
    maud::Render::render(text).into_string()
}

} // verus!
