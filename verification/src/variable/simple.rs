//! The bare form of a variable reference: `$NAME`.

use vstd::prelude::*;
use vstd::string::*;
use crate::grammar::{lemma_word_len_bounds, simple_len};
use crate::variable::parse_variable_name;
use crate::varpath::VarPathError;

verus! {

/// Takes `$NAME` off the front of the input and gives the name. Without a
/// match the input stays as it is.
pub fn parse_simple_variable<'s>(input: &mut &'s str) -> (r: Result<&'s str, VarPathError>)
    ensures
        match r {
            Ok(name) => {
                &&& simple_len((*old(input))@) > 0
                &&& name@ == (*old(input))@.subrange(1, simple_len((*old(input))@) as int)
                &&& (*final(input))@ == (*old(input))@.skip(simple_len((*old(input))@) as int)
            },
            Err(_) => simple_len((*old(input))@) == 0 && *final(input) == *old(input),
        },
{
    let s: &'s str = *input;
    let n: usize = s.unicode_len();
    if n == 0 || s.get_char(0) != '$' {
        return Err(VarPathError::ParseError);
    }
    let mut rest: &'s str = s.substring_char(1, n);
    assert(rest@ == s@.skip(1));
    match parse_variable_name(&mut rest) {
        Ok(name) => {
            proof {
                let k = simple_len(s@) as int;
                lemma_word_len_bounds(s@.skip(1));
                assert(name@ == s@.subrange(1, k));
                assert(rest@ == s@.skip(k));
            }
            *input = rest;
            Ok(name)
        },
        Err(e) => Err(e),
    }
}

} // verus!
