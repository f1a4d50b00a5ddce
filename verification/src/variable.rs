//! References to variables: `$NAME` and `${NAME}`.

use vstd::prelude::*;
use vstd::string::*;
use crate::charclass::{char_is_alphabetic, is_mark, is_word_char, unicode_alphabetic};
use crate::environment::Environment;
use crate::grammar::{
    is_name, lemma_word_len_bounds, name_len, open_tag, starts_with, variable_match,
};
use crate::variable::complex::{at_open_tag, parse_complex_variable};
use crate::variable::simple::parse_simple_variable;
use crate::varpath::{parse_word_str, VarPathError};

pub mod complex;
pub mod simple;

verus! {

/// Why a path could not be evaluated.
#[derive(Debug, PartialEq, Eq)]
pub enum EvalError {
    /// The environment has no value for the variable of this name.
    UndefinedVariable(String),
}

/// A reference to a variable, by name.
#[derive(Debug, PartialEq, Eq, Clone)]
pub struct Variable(String);

impl View for Variable {
    type V = Seq<char>;

    closed spec fn view(&self) -> Seq<char> {
        self.0@
    }
}

impl Variable {
    /// A reference to the variable called `name`. Any name is taken as it
    /// is; [`Variable::well_formed`] says which ones the grammar can give.
    pub fn new(name: &str) -> (r: Self)
        ensures
            r@ == name@,
    {
        Self(name.to_owned())
    }

    /// The name of the variable.
    pub fn name(&self) -> (r: &str)
        ensures
            r@ == self@,
    {
        self.0.as_str()
    }

    /// A name that the grammar accepts: it starts with an alphabetic
    /// character and goes on with word characters.
    pub open spec fn well_formed(&self) -> bool {
        is_name(self@)
    }

    /// The value that `env` holds for this variable.
    pub fn eval(&self, env: &Environment) -> (r: Result<String, EvalError>)
        ensures
            match r {
                Ok(value) => env@.contains_key(self@) && value@ == env@[self@],
                Err(EvalError::UndefinedVariable(name)) => !env@.contains_key(self@) && name@
                    == self@,
            },
    {
        match env.get(self.0.as_str()) {
            Some(value) => Ok(value.clone()),
            None => Err(EvalError::UndefinedVariable(self.0.clone())),
        }
    }
}

/// Takes a variable name off the front of the input: the longest run of
/// word characters, provided that the first one is alphabetic. Otherwise
/// the input stays as it is.
pub fn parse_variable_name<'s>(input: &mut &'s str) -> (r: Result<&'s str, VarPathError>)
    ensures
        r is Ok <==> (*old(input))@.len() > 0 && unicode_alphabetic((*old(input))@[0])
            && !is_mark((*old(input))@[0]),
        match r {
            Ok(name) => {
                &&& name_len((*old(input))@) > 0
                &&& name@ == (*old(input))@.take(name_len((*old(input))@) as int)
                &&& (*final(input))@ == (*old(input))@.skip(name_len((*old(input))@) as int)
            },
            Err(_) => name_len((*old(input))@) == 0 && *final(input) == *old(input),
        },
{
    let s: &'s str = *input;
    // First char must be alphabetic
    if s.unicode_len() == 0 || !char_is_alphabetic(s.get_char(0)) {
        return Err(VarPathError::ParseError);
    }
    parse_word_str(input)
}

/// Takes a variable reference off the front of the input, in either form.
/// When `{` follows the `$` only the braced form is tried. Without a match
/// the input stays as it is.
pub fn parse_variable<'s>(input: &mut &'s str) -> (r: Result<Variable, VarPathError>)
    ensures
        match r {
            Ok(v) => {
                &&& variable_match((*old(input))@) matches Some((name, n))
                &&& v@ == name
                &&& (*final(input))@ == (*old(input))@.skip(n as int)
                &&& v.well_formed()
            },
            Err(_) => variable_match((*old(input))@) is None && *final(input) == *old(input),
        },
{
    let ghost s = (*input)@;
    let parsed = if at_open_tag(*input) {
        parse_complex_variable(input)
    } else {
        parse_simple_variable(input)
    };
    match parsed {
        Ok(name) => {
            proof {
                let k: int = if starts_with(s, open_tag()) {
                    2
                } else {
                    1
                };
                let t = s.skip(k);
                lemma_word_len_bounds(t);
                assert(name@ == t.take(name_len(t) as int));
                assert forall|i: int| 0 <= i < name@.len() implies is_word_char(
                    #[trigger] name@[i],
                ) by {
                    assert(name@[i] == t[i]);
                }
            }
            Ok(Variable::new(name))
        },
        Err(e) => Err(e),
    }
}

} // verus!
