//! The braced form of a variable reference: `${NAME}`.

use vstd::prelude::*;
use vstd::string::*;
use crate::grammar::{close_tag, complex_len, lemma_word_len_bounds, open_tag, starts_with};
use crate::variable::parse_variable_name;
use crate::varpath::VarPathError;

verus! {

/// Whether the input begins with `${`.
pub fn at_open_tag(s: &str) -> (r: bool)
    ensures
        r == starts_with(s@, open_tag()),
{
    let n: usize = s.unicode_len();
    if n < 2 || s.get_char(0) != '$' || s.get_char(1) != '{' {
        assert(!starts_with(s@, open_tag())) by {
            if n >= 2 {
                assert(s@.take(2)[0] == s@[0]);
                assert(s@.take(2)[1] == s@[1]);
            }
        }
        false
    } else {
        assert(s@.take(2) == open_tag());
        true
    }
}

/// Takes `${` off the front of the input. Without it the input stays as it
/// is.
pub fn parse_open_tag<'s>(input: &mut &'s str) -> (r: Result<&'s str, VarPathError>)
    ensures
        match r {
            Ok(tag) => {
                &&& starts_with((*old(input))@, open_tag())
                &&& tag@ == open_tag()
                &&& (*final(input))@ == (*old(input))@.skip(2)
            },
            Err(_) => !starts_with((*old(input))@, open_tag()) && *final(input) == *old(input),
        },
{
    let s: &'s str = *input;
    if !at_open_tag(s) {
        return Err(VarPathError::ParseError);
    }
    let tag: &'s str = s.substring_char(0, 2);
    *input = s.substring_char(2, s.unicode_len());
    Ok(tag)
}

/// Takes `}` off the front of the input. Without it the input stays as it
/// is.
pub fn parse_close_tag<'s>(input: &mut &'s str) -> (r: Result<&'s str, VarPathError>)
    ensures
        match r {
            Ok(tag) => {
                &&& starts_with((*old(input))@, close_tag())
                &&& tag@ == close_tag()
                &&& (*final(input))@ == (*old(input))@.skip(1)
            },
            Err(_) => !starts_with((*old(input))@, close_tag()) && *final(input) == *old(input),
        },
{
    let s: &'s str = *input;
    let n: usize = s.unicode_len();
    if n < 1 || s.get_char(0) != '}' {
        assert(!starts_with(s@, close_tag())) by {
            if n >= 1 {
                assert(s@.take(1)[0] == s@[0]);
            }
        }
        return Err(VarPathError::ParseError);
    }
    let tag: &'s str = s.substring_char(0, 1);
    assert(tag@ == close_tag());
    *input = s.substring_char(1, n);
    Ok(tag)
}

/// Takes `${NAME}` off the front of the input and gives the name. Without a
/// match, a missing closing brace included, the input stays as it is.
pub fn parse_complex_variable<'s>(input: &mut &'s str) -> (r: Result<&'s str, VarPathError>)
    ensures
        match r {
            Ok(name) => {
                &&& complex_len((*old(input))@) > 0
                &&& name@ == (*old(input))@.subrange(2, complex_len((*old(input))@) - 1)
                &&& (*final(input))@ == (*old(input))@.skip(complex_len((*old(input))@) as int)
            },
            Err(_) => complex_len((*old(input))@) == 0 && *final(input) == *old(input),
        },
{
    let ghost s = (*input)@;
    let mut rest: &'s str = *input;
    if parse_open_tag(&mut rest).is_err() {
        return Err(VarPathError::ParseError);
    }
    let name: &'s str = match parse_variable_name(&mut rest) {
        Ok(name) => name,
        Err(e) => {
            return Err(e);
        },
    };
    proof {
        lemma_word_len_bounds(s.skip(2));
        assert(rest@ == s.skip(2 + name@.len() as int));
        assert(name@ == s.subrange(2, 2 + name@.len() as int));
    }
    if parse_close_tag(&mut rest).is_err() {
        return Err(VarPathError::ParseError);
    }
    assert(rest@ == s.skip(3 + name@.len() as int));
    *input = rest;
    Ok(name)
}

} // verus!
