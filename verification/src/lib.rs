//! Paths with variables in them.
//!
//! A variable path is text such as `/a/$KEY/c` or `/a/${KEY}/c`: segments
//! between `/`, each a literal word or a reference to a variable. It is
//! parsed once into a [`VarPath`] and evaluated, as often as needed, against
//! an [`Environment`] that maps variable names to values; the outcome is a
//! filesystem path, or the name of a variable that has no value.
//!
//! The grammar and the meaning of evaluation are written down as functions
//! on sequences of characters in [`grammar`], [`spelling`] and
//! [`evaluation`]; the parsers and the evaluator are proved against them.

pub mod charclass;
pub mod environment;
pub mod evaluation;
pub mod grammar;
pub mod path;
pub mod rendering;
pub mod spelling;
pub mod variable;
pub mod varpath;

pub use environment::{Environment, EnvironmentBuilder};
pub use variable::{EvalError, Variable};
pub use varpath::{PathPart, VarPath, VarPathError, Word};
