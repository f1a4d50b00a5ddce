//! Variable paths: their parts, their parser and their evaluation.

use vstd::prelude::*;
use vstd::string::*;
use std::path::PathBuf;
use crate::charclass::{is_word_char, word_char};
use crate::environment::Environment;
use crate::evaluation::{eval_model, first_undefined, resolve_model, resolved, resolved_texts};
use crate::grammar::{
    is_word, lemma_path_match_bounds, lemma_segment_match_bounds, lemma_separated_match_bounds,
    lemma_word_len_bounds, lemma_word_len_unique, model_well_formed, parse_model, path_match,
    segment_match, segment_well_formed, separated_match, separated_run, variable_match,
    word_len, PathModel, Segment,
};
use crate::path::{join_path, path_text, texts};
use crate::variable::{parse_variable, EvalError, Variable};

verus! {

/// Why a string is not a variable path.
#[derive(Debug, PartialEq, Eq)]
pub enum VarPathError {
    /// The text does not follow the grammar to its end.
    ParseError,
}

/// A literal path segment.
#[derive(Debug, PartialEq, Eq, Clone)]
pub struct Word(String);

impl View for Word {
    type V = Seq<char>;

    closed spec fn view(&self) -> Seq<char> {
        self.0@
    }
}

impl Word {
    /// A word with the text `word`. Any text is taken as it is;
    /// [`Word::well_formed`] says which ones the grammar can give.
    pub fn new(word: &str) -> (r: Self)
        ensures
            r@ == word@,
    {
        Self(word.to_owned())
    }

    /// The text of the word.
    pub fn value(&self) -> (r: &str)
        ensures
            r@ == self@,
    {
        self.0.as_str()
    }

    /// A word that the grammar accepts: not empty, word characters only.
    pub open spec fn well_formed(&self) -> bool {
        is_word(self@)
    }
}

/// Takes the longest non-empty run of word characters off the front of the
/// input. Without one the input stays as it is.
pub fn parse_word_str<'s>(input: &mut &'s str) -> (r: Result<&'s str, VarPathError>)
    ensures
        match r {
            Ok(w) => {
                &&& word_len((*old(input))@) > 0
                &&& w@ == (*old(input))@.take(word_len((*old(input))@) as int)
                &&& (*final(input))@ == (*old(input))@.skip(word_len((*old(input))@) as int)
            },
            Err(_) => word_len((*old(input))@) == 0 && *final(input) == *old(input),
        },
{
    let s: &'s str = *input;
    let n: usize = s.unicode_len();
    let mut i: usize = 0;
    while i < n && word_char(s.get_char(i))
        invariant
            i <= n,
            n == s@.len(),
            forall|j: int| 0 <= j < i ==> is_word_char(#[trigger] s@[j]),
        decreases n - i,
    {
        i += 1;
    }
    proof {
        lemma_word_len_unique(s@, i as nat);
    }
    if i == 0 {
        Err(VarPathError::ParseError)
    } else {
        let w: &'s str = s.substring_char(0, i);
        *input = s.substring_char(i, n);
        Ok(w)
    }
}

/// Parses a literal word off the front of the input.
pub fn parse_word<'s>(input: &mut &'s str) -> (r: Result<Word, VarPathError>)
    ensures
        match r {
            Ok(w) => {
                &&& word_len((*old(input))@) > 0
                &&& w@ == (*old(input))@.take(word_len((*old(input))@) as int)
                &&& (*final(input))@ == (*old(input))@.skip(word_len((*old(input))@) as int)
                &&& w.well_formed()
            },
            Err(_) => word_len((*old(input))@) == 0 && *final(input) == *old(input),
        },
{
    match parse_word_str(input) {
        Ok(s) => {
            proof {
                lemma_word_len_bounds((*old(input))@);
            }
            Ok(Word::new(s))
        },
        Err(e) => Err(e),
    }
}

/// One segment of a variable path.
#[derive(Debug, PartialEq, Eq, Clone)]
pub enum PathPart {
    Word(Word),
    Variable(Variable),
}

impl View for PathPart {
    type V = Segment;

    open spec fn view(&self) -> Segment {
        match self {
            PathPart::Word(w) => Segment::Word(w@),
            PathPart::Variable(v) => Segment::Variable(v@),
        }
    }
}

impl PathPart {
    /// A part that the grammar accepts.
    pub open spec fn well_formed(&self) -> bool {
        segment_well_formed(self@)
    }
}

/// The segments that a sequence of parts stands for.
pub open spec fn segments(parts: Seq<PathPart>) -> Seq<Segment> {
    parts.map_values(|p: PathPart| p@)
}

/// Every part is one that the grammar accepts.
pub open spec fn all_well_formed(parts: Seq<PathPart>) -> bool {
    forall|i: int| 0 <= i < parts.len() ==> (#[trigger] parts[i]).well_formed()
}

/// Parses a literal word off the front of the input, as a path part.
pub fn parse_word_enum<'s>(input: &mut &'s str) -> (r: Result<PathPart, VarPathError>)
    ensures
        match r {
            Ok(p) => {
                &&& word_len((*old(input))@) > 0
                &&& p@ == Segment::Word((*old(input))@.take(word_len((*old(input))@) as int))
                &&& (*final(input))@ == (*old(input))@.skip(word_len((*old(input))@) as int)
                &&& p.well_formed()
            },
            Err(_) => word_len((*old(input))@) == 0 && *final(input) == *old(input),
        },
{
    match parse_word(input) {
        Ok(w) => Ok(PathPart::Word(w)),
        Err(e) => Err(e),
    }
}

/// Parses a variable reference off the front of the input, as a path part.
pub fn parse_variable_enum<'s>(input: &mut &'s str) -> (r: Result<PathPart, VarPathError>)
    ensures
        match r {
            Ok(p) => {
                &&& variable_match((*old(input))@) matches Some((name, n))
                &&& p@ == Segment::Variable(name)
                &&& (*final(input))@ == (*old(input))@.skip(n as int)
                &&& p.well_formed()
            },
            Err(_) => variable_match((*old(input))@) is None && *final(input) == *old(input),
        },
{
    match parse_variable(input) {
        Ok(v) => Ok(PathPart::Variable(v)),
        Err(e) => Err(e),
    }
}

/// Parses one path part off the front of the input: a variable reference
/// if the input begins with `$`, a literal word otherwise. Without a match
/// the input stays as it is.
pub fn parse_path_part<'s>(input: &mut &'s str) -> (r: Result<PathPart, VarPathError>)
    ensures
        match r {
            Ok(p) => {
                &&& segment_match((*old(input))@) matches Some((seg, n))
                &&& p@ == seg
                &&& 0 < n <= (*old(input))@.len()
                &&& (*final(input))@ == (*old(input))@.skip(n as int)
                &&& p.well_formed()
            },
            Err(_) => segment_match((*old(input))@) is None && *final(input) == *old(input),
        },
{
    proof {
        lemma_segment_match_bounds((*input)@);
    }
    let s: &'s str = *input;
    if s.unicode_len() > 0 && s.get_char(0) == '$' {
        parse_variable_enum(input)
    } else {
        parse_word_enum(input)
    }
}

/// Takes one `/` off the front of the input. Without it the input stays as
/// it is.
pub fn parse_path_separator<'s>(input: &mut &'s str) -> (r: Result<(), VarPathError>)
    ensures
        r is Ok <==> (*old(input))@.len() > 0 && (*old(input))@[0] == '/',
        r is Ok ==> (*final(input))@ == (*old(input))@.skip(1),
        r is Err ==> *final(input) == *old(input),
{
    let s: &'s str = *input;
    let n: usize = s.unicode_len();
    if n == 0 || s.get_char(0) != '/' {
        return Err(VarPathError::ParseError);
    }
    *input = s.substring_char(1, n);
    Ok(())
}

/// Takes a `/` and the path part after it off the front of the input.
/// Unless both are there the input stays as it is.
pub fn parse_path_part_with_leading_separator<'s>(input: &mut &'s str) -> (r: Result<
    PathPart,
    VarPathError,
>)
    ensures
        match r {
            Ok(p) => {
                &&& separated_match((*old(input))@) matches Some((seg, n))
                &&& p@ == seg
                &&& 1 < n <= (*old(input))@.len()
                &&& (*final(input))@ == (*old(input))@.skip(n as int)
                &&& p.well_formed()
            },
            Err(_) => separated_match((*old(input))@) is None && *final(input) == *old(input),
        },
{
    let ghost s = (*input)@;
    let mut rest: &'s str = *input;
    if parse_path_separator(&mut rest).is_err() {
        return Err(VarPathError::ParseError);
    }
    match parse_path_part(&mut rest) {
        Ok(p) => {
            proof {
                lemma_separated_match_bounds(s);
                let n = separated_match(s).unwrap().1;
                assert(rest@ == s.skip(n as int));
            }
            *input = rest;
            Ok(p)
        },
        Err(e) => Err(e),
    }
}

/// Parses the path at the front of the input: an optional first part, then
/// `/part` pairs as long as they match, then an optional `/`. This always
/// succeeds, possibly on nothing. The first flag of the result says that
/// there was no first part, the last that the path ended in `/`.
pub fn parse_path_parts<'s>(input: &mut &'s str) -> (r: Result<
    (bool, Vec<PathPart>, bool),
    VarPathError,
>)
    ensures
        r matches Ok((leading_slash, parts, trailing_slash)) && {
            &&& (PathModel { parts: segments(parts@), leading_slash, trailing_slash })
                == path_match((*old(input))@).0
            &&& (*final(input))@ == (*old(input))@.skip(path_match((*old(input))@).1 as int)
            &&& all_well_formed(parts@)
        },
{
    let ghost s = (*input)@;
    let mut rest: &'s str = *input;
    let mut parts: Vec<PathPart> = Vec::new();
    proof {
        lemma_path_match_bounds(s);
        lemma_segment_match_bounds(s);
    }
    // If this is a relative path there is no leading path separator. Grab the first part, then parse the rest as usual
    let leading_slash = match parse_path_part(&mut rest) {
        Ok(first) => {
            parts.push(first);
            false
        },
        Err(_) => true,
    };
    let ghost a: nat = match segment_match(s) {
        Some((_, n)) => n,
        None => 0,
    };
    let ghost first = segments(parts@);
    let ghost mut c: nat = a;
    proof {
        assert(rest@ == s.skip(a as int));
        assert(first == match segment_match(s) {
            Some((seg, _)) => seq![seg],
            None => Seq::<Segment>::empty(),
        });
    }
    loop
        invariant
            c <= s.len(),
            rest@ == s.skip(c as int),
            all_well_formed(parts@),
            segments(parts@) + separated_run(rest@).0 == first + separated_run(
                s.skip(a as int),
            ).0,
            c + separated_run(rest@).1 == a + separated_run(s.skip(a as int)).1,
        ensures
            separated_match(rest@) is None,
        decreases rest@.len(),
    {
        let ghost before = rest@;
        let ghost done = parts@;
        match parse_path_part_with_leading_separator(&mut rest) {
            Ok(p) => {
                parts.push(p);
                proof {
                    let n = separated_match(before).unwrap().1;
                    assert(rest@ == s.skip((c + n) as int));
                    assert(segments(parts@) == segments(done) + seq![p@]);
                    assert(segments(parts@) + separated_run(rest@).0 == segments(done) + (seq![
                        p@,
                    ] + separated_run(rest@).0));
                    c = c + n;
                }
            },
            Err(_) => {
                break ;
            },
        }
    }
    proof {
        assert(segments(parts@) + Seq::<Segment>::empty() == segments(parts@));
    }
    // Note any trailing slash
    let trailing_slash = parse_path_separator(&mut rest).is_ok();
    *input = rest;
    Ok((leading_slash, parts, trailing_slash))
}

/// A variable path: its parts in order, the leading flag, which says that
/// the path starts from the root, and the trailing flag, which says that
/// its text ended with a separator.
#[derive(Debug, PartialEq, Eq, Clone)]
pub struct VarPath {
    parts: Vec<PathPart>,
    leading_slash: bool,
    trailing_slash: bool,
}

impl View for VarPath {
    type V = PathModel;

    closed spec fn view(&self) -> PathModel {
        PathModel {
            parts: segments(self.parts@),
            leading_slash: self.leading_slash,
            trailing_slash: self.trailing_slash,
        }
    }
}

impl VarPath {
    /// The parts, in order.
    pub closed spec fn part_seq(&self) -> Seq<PathPart> {
        self.parts@
    }

    /// A path that the grammar accepts: every part is well formed, and
    /// without the leading flag there is a first part.
    pub open spec fn well_formed(&self) -> bool {
        model_well_formed(self@)
    }

    /// A path of the given parts and flags, taken as they are;
    /// [`VarPath::well_formed`] says which paths the grammar can give.
    pub fn new(parts: Vec<PathPart>, leading_slash: bool, trailing_slash: bool) -> (r: Self)
        ensures
            r.part_seq() == parts@,
            r@ == (PathModel { parts: segments(parts@), leading_slash, trailing_slash }),
    {
        Self { parts, leading_slash, trailing_slash }
    }

    /// The parts, from left to right.
    pub fn parts(&self) -> (r: &[PathPart])
        ensures
            r@ == self.part_seq(),
            segments(r@) == self@.parts,
    {
        self.parts.as_slice()
    }

    /// Whether the path starts from the root: parsed text sets this when
    /// it has no first part before its first separator.
    pub fn leading_slash(&self) -> (r: bool)
        ensures
            r == self@.leading_slash,
    {
        self.leading_slash
    }

    /// Whether the text ended in a separator.
    pub fn trailing_slash(&self) -> (r: bool)
        ensures
            r == self@.trailing_slash,
    {
        self.trailing_slash
    }

    /// Resolves every part against `env`, in order: a word gives itself, a
    /// variable gives its value. The first variable without a value ends
    /// the resolution with an error that carries its name.
    pub fn resolve(&self, env: &Environment) -> (r: Result<Vec<String>, EvalError>)
        ensures
            match r {
                Ok(components) => resolve_model(self@.parts, env@) == Ok::<
                    Seq<Seq<char>>,
                    Seq<char>,
                >(texts(components@)),
                Err(EvalError::UndefinedVariable(name)) => resolve_model(self@.parts, env@) == Err::<
                    Seq<Seq<char>>,
                    Seq<char>,
                >(name@),
            },
    {
        let mut components: Vec<String> = Vec::new();
        let n: usize = self.parts.len();
        let mut i: usize = 0;
        assert(self@.parts.skip(0) == self@.parts);
        while i < n
            invariant
                i <= n,
                n == self.parts@.len(),
                first_undefined(self@.parts.skip(i as int), env@) == first_undefined(
                    self@.parts,
                    env@,
                ),
                texts(components@) == resolved_texts(self@.parts.take(i as int), env@),
            decreases n - i,
        {
            proof {
                let rest = self@.parts.skip(i as int);
                assert(rest[0] == self.parts@[i as int]@);
                assert(rest.skip(1) == self@.parts.skip(i + 1));
            }
            let ghost done = components@;
            let component = match &self.parts[i] {
                PathPart::Word(word) => word.value().to_owned(),
                PathPart::Variable(var) => match var.eval(env) {
                    Ok(value) => value,
                    Err(e) => {
                        return Err(e);
                    },
                },
            };
            components.push(component);
            proof {
                let before = self@.parts.take(i as int);
                let now = self@.parts.take(i + 1);
                assert(now == before.push(self@.parts[i as int]));
                assert(texts(components@) == texts(done).push(component@));
                assert(resolved_texts(now, env@) == resolved_texts(before, env@).push(
                    resolved(self@.parts[i as int], env@),
                ));
            }
            i += 1;
        }
        assert(self@.parts.take(n as int) == self@.parts);
        Ok(components)
    }

    /// Builds the path that this variable path stands for in `env`: from the
    /// root if the leading flag is set, from the empty path otherwise, what
    /// each part resolves to is pushed in order. The first variable without
    /// a value ends the evaluation with an error that carries its name.
    pub fn eval(&self, env: &Environment) -> (r: Result<PathBuf, EvalError>)
        ensures
            match r {
                Ok(path) => eval_model(self@, env@) == Ok::<Seq<char>, Seq<char>>(
                    path_text(path),
                ),
                Err(EvalError::UndefinedVariable(name)) => eval_model(self@, env@) == Err::<
                    Seq<char>,
                    Seq<char>,
                >(name@),
            },
    {
        match self.resolve(env) {
            Ok(components) => Ok(join_path(self.leading_slash, components.as_slice())),
            Err(e) => Err(e),
        }
    }

    /// Parses the whole of `s` as a variable path. It fails exactly when the
    /// path at the front of `s` leaves some of `s` over.
    pub fn parse(s: &str) -> (r: Result<VarPath, VarPathError>)
        ensures
            match r {
                Ok(path) => parse_model(s@) == Some(path@) && path.well_formed(),
                Err(VarPathError::ParseError) => parse_model(s@) is None,
            },
    {
        let mut rest: &str = s;
        proof {
            lemma_path_match_bounds(s@);
        }
        match parse_varpath(&mut rest) {
            Ok(path) => {
                if rest.unicode_len() == 0 {
                    Ok(path)
                } else {
                    Err(VarPathError::ParseError)
                }
            },
            Err(e) => Err(e),
        }
    }
}

impl std::str::FromStr for VarPath {
    type Err = VarPathError;

    /// Parses the whole of `s` as a variable path, as [`VarPath::parse`]
    /// does: it fails exactly when the path at the front of `s` leaves some
    /// of `s` over.
    fn from_str(s: &str) -> (r: Result<Self, Self::Err>)
        ensures
            match r {
                Ok(path) => parse_model(s@) == Some(path@) && path.well_formed(),
                Err(VarPathError::ParseError) => parse_model(s@) is None,
            },
    {
        VarPath::parse(s)
    }
}

/// Parses the path at the front of the input, as [`parse_path_parts`] does.
pub fn parse_varpath<'s>(input: &mut &'s str) -> (r: Result<VarPath, VarPathError>)
    ensures
        r matches Ok(path) && {
            &&& path@ == path_match((*old(input))@).0
            &&& (*final(input))@ == (*old(input))@.skip(path_match((*old(input))@).1 as int)
            &&& path.well_formed()
        },
{
    match parse_path_parts(input) {
        Ok((leading_slash, parts, trailing_slash)) => Ok(
            VarPath::new(parts, leading_slash, trailing_slash),
        ),
        Err(e) => Err(e),
    }
}

} // verus!
