//! Character classes of the path grammar.

use vstd::prelude::*;

verus! {

/// Whether `c` has the Unicode `Alphabetic` property.
pub uninterp spec fn unicode_alphabetic(c: char) -> bool;

/// Whether `c` is Unicode alphabetic or numeric.
pub uninterp spec fn unicode_alphanumeric(c: char) -> bool;

/// Calls `char::is_alphabetic`. The result is the character's Unicode
/// `Alphabetic` property; a character for which it is `true` is also
/// alphanumeric, since `char::is_alphanumeric` is documented as
/// "alphabetic or numeric".
#[verifier::external_body]
pub(crate) fn char_is_alphabetic(c: char) -> (r: bool)
    ensures
        r == unicode_alphabetic(c),
        r ==> unicode_alphanumeric(c),
{
    c.is_alphabetic()
}

/// Calls `char::is_alphanumeric`. The result says whether the character is
/// Unicode alphabetic or numeric.
#[verifier::external_body]
pub(crate) fn char_is_alphanumeric(c: char) -> (r: bool)
    ensures
        r == unicode_alphanumeric(c),
{
    c.is_alphanumeric()
}

/// The two punctuation characters that may appear in a word or a name.
pub open spec fn is_special(c: char) -> bool {
    c == '_' || c == '-'
}

/// The characters that the grammar gives a meaning of their own: the
/// separator, the variable marker and the two braces.
pub open spec fn is_mark(c: char) -> bool {
    c == '/' || c == '$' || c == '{' || c == '}'
}

/// The character class shared by literal words and variable names:
/// alphanumeric characters, `_` and `-`. A mark of the grammar is never in
/// it.
pub open spec fn is_word_char(c: char) -> bool {
    !is_mark(c) && (unicode_alphanumeric(c) || is_special(c))
}

/// Decides whether `c` is `_` or `-`.
pub fn word_special_chars(c: char) -> (r: bool)
    ensures
        r == is_special(c),
{
    match c {
        '_' | '-' => true,
        _ => false,
    }
}

/// Decides whether `c` is one of the grammar's marks.
pub fn grammar_mark(c: char) -> (r: bool)
    ensures
        r == is_mark(c),
{
    match c {
        '/' | '$' | '{' | '}' => true,
        _ => false,
    }
}

/// Decides membership in the word character class for a character whose
/// alphanumeric property is already known.
pub fn word_class(c: char, alphanumeric: bool) -> (r: bool)
    ensures
        r == (!is_mark(c) && (alphanumeric || is_special(c))),
{
    !grammar_mark(c) && (alphanumeric || word_special_chars(c))
}

/// Decides membership in the word character class.
pub fn word_char(c: char) -> (r: bool)
    ensures
        r == is_word_char(c),
{
    word_class(c, char_is_alphanumeric(c))
}

} // verus!
