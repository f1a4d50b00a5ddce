//! The grammar of variable paths, as functions on sequences of characters.
//!
//! Every function here looks at the front of its argument. A match is
//! described by what was recognised and by the number of characters it
//! covers; the executable parsers are specified against these functions.

use vstd::prelude::*;
use crate::charclass::{is_word_char, unicode_alphabetic};

verus! {

/// One parsed segment: a literal word or a reference to a variable by name.
pub enum Segment {
    Word(Seq<char>),
    Variable(Seq<char>),
}

/// What a whole path string denotes.
pub struct PathModel {
    pub parts: Seq<Segment>,
    pub leading_slash: bool,
    pub trailing_slash: bool,
}

/// A literal word: not empty, word characters only.
pub open spec fn is_word(s: Seq<char>) -> bool {
    s.len() > 0 && forall|i: int| 0 <= i < s.len() ==> is_word_char(#[trigger] s[i])
}

/// A variable name: a word whose first character is alphabetic.
pub open spec fn is_name(s: Seq<char>) -> bool {
    is_word(s) && unicode_alphabetic(s[0])
}

/// A segment that the grammar can produce.
pub open spec fn segment_well_formed(seg: Segment) -> bool {
    match seg {
        Segment::Word(word) => is_word(word),
        Segment::Variable(name) => is_name(name),
    }
}

/// A path that the grammar can produce: every segment is well formed, and
/// a path without the leading flag has a first segment.
pub open spec fn model_well_formed(path: PathModel) -> bool {
    &&& forall|i: int|
        0 <= i < path.parts.len() ==> segment_well_formed(#[trigger] path.parts[i])
    &&& !path.leading_slash ==> path.parts.len() > 0
}

/// Length of the longest prefix of `s` made of word characters.
pub open spec fn word_len(s: Seq<char>) -> nat
    decreases s.len(),
{
    if s.len() > 0 && is_word_char(s[0]) {
        1 + word_len(s.skip(1))
    } else {
        0
    }
}

/// Length of the variable name at the front of `s`, or 0 if there is none:
/// a name is a run of word characters that starts with an alphabetic one.
pub open spec fn name_len(s: Seq<char>) -> nat {
    if s.len() > 0 && unicode_alphabetic(s[0]) {
        word_len(s)
    } else {
        0
    }
}

pub open spec fn starts_with(s: Seq<char>, prefix: Seq<char>) -> bool {
    prefix.len() <= s.len() && s.take(prefix.len() as int) == prefix
}

pub open spec fn open_tag() -> Seq<char> {
    seq!['$', '{']
}

pub open spec fn close_tag() -> Seq<char> {
    seq!['}']
}

/// Length of the bare reference `$NAME` at the front of `s`, or 0.
pub open spec fn simple_len(s: Seq<char>) -> nat {
    if s.len() > 0 && s[0] == '$' && name_len(s.skip(1)) > 0 {
        1 + name_len(s.skip(1))
    } else {
        0
    }
}

/// Length of the braced reference `${NAME}` at the front of `s`, or 0.
pub open spec fn complex_len(s: Seq<char>) -> nat {
    if starts_with(s, open_tag()) {
        let n = name_len(s.skip(2));
        if n > 0 && starts_with(s.skip((2 + n) as int), close_tag()) {
            n + 3
        } else {
            0
        }
    } else {
        0
    }
}

/// The variable reference at the front of `s`: its name and its length.
/// When `{` follows the `$` only the braced form is tried.
pub open spec fn variable_match(s: Seq<char>) -> Option<(Seq<char>, nat)> {
    if starts_with(s, open_tag()) {
        if complex_len(s) > 0 {
            Some((s.subrange(2, complex_len(s) - 1), complex_len(s)))
        } else {
            None
        }
    } else if simple_len(s) > 0 {
        Some((s.subrange(1, simple_len(s) as int), simple_len(s)))
    } else {
        None
    }
}

/// The segment at the front of `s` and its length. A segment that starts
/// with `$` is a variable reference; any other is a non-empty word.
pub open spec fn segment_match(s: Seq<char>) -> Option<(Segment, nat)> {
    if s.len() > 0 && s[0] == '$' {
        match variable_match(s) {
            Some((name, n)) => Some((Segment::Variable(name), n)),
            None => None,
        }
    } else if word_len(s) > 0 {
        Some((Segment::Word(s.take(word_len(s) as int)), word_len(s)))
    } else {
        None
    }
}

/// The segment that follows a separator at the front of `s`, with the length
/// of both together.
pub open spec fn separated_match(s: Seq<char>) -> Option<(Segment, nat)> {
    if s.len() > 0 && s[0] == '/' {
        match segment_match(s.skip(1)) {
            Some((seg, n)) => Some((seg, n + 1)),
            None => None,
        }
    } else {
        None
    }
}

/// The longest run of `/segment` pairs at the front of `s`, with its length.
pub open spec fn separated_run(s: Seq<char>) -> (Seq<Segment>, nat)
    decreases s.len(),
{
    match separated_match(s) {
        Some((seg, n)) => {
            if n <= s.len() {
                let (rest, m) = separated_run(s.skip(n as int));
                (seq![seg] + rest, n + m)
            } else {
                (Seq::empty(), 0)
            }
        },
        None => (Seq::empty(), 0),
    }
}

/// The path at the front of `s` and its length: an optional first segment,
/// then `/segment` pairs as long as they match, then an optional `/`.
/// The leading flag is set exactly when there is no first segment.
pub open spec fn path_match(s: Seq<char>) -> (PathModel, nat) {
    let (first, a): (Seq<Segment>, nat) = match segment_match(s) {
        Some((seg, n)) => (seq![seg], n),
        None => (Seq::empty(), 0),
    };
    let (rest, b) = separated_run(s.skip(a as int));
    let trailing = a + b < s.len() && s[(a + b) as int] == '/';
    (
        PathModel {
            parts: first + rest,
            leading_slash: first.len() == 0,
            trailing_slash: trailing,
        },
        if trailing {
            a + b + 1
        } else {
            a + b
        },
    )
}

/// What `s` denotes as a whole: the path at its front, provided that it
/// covers all of `s`.
pub open spec fn parse_model(s: Seq<char>) -> Option<PathModel> {
    if path_match(s).1 == s.len() {
        Some(path_match(s).0)
    } else {
        None
    }
}

/// The prefix that `word_len` measures holds word characters only, and the
/// character after it, if there is one, is not a word character.
pub proof fn lemma_word_len_bounds(s: Seq<char>)
    ensures
        word_len(s) <= s.len(),
        forall|j: int| 0 <= j < word_len(s) ==> is_word_char(#[trigger] s[j]),
        word_len(s) < s.len() ==> !is_word_char(s[word_len(s) as int]),
    decreases s.len(),
{
    if s.len() > 0 && is_word_char(s[0]) {
        let t = s.skip(1);
        lemma_word_len_bounds(t);
        assert forall|j: int| 0 <= j < word_len(s) implies is_word_char(#[trigger] s[j]) by {
            if j > 0 {
                assert(s[j] == t[j - 1]);
            }
        }
        if word_len(s) < s.len() {
            assert(s[word_len(s) as int] == t[word_len(t) as int]);
        }
    }
}

/// A prefix of word characters that cannot be extended is the one that
/// `word_len` measures.
pub proof fn lemma_word_len_unique(s: Seq<char>, n: nat)
    requires
        n <= s.len(),
        forall|j: int| 0 <= j < n ==> is_word_char(#[trigger] s[j]),
        n < s.len() ==> !is_word_char(s[n as int]),
    ensures
        word_len(s) == n,
    decreases n,
{
    if n > 0 {
        let t = s.skip(1);
        assert forall|j: int| 0 <= j < n - 1 implies is_word_char(#[trigger] t[j]) by {
            assert(t[j] == s[j + 1]);
        }
        lemma_word_len_unique(t, (n - 1) as nat);
    }
}

/// A segment that matches is not empty and lies within the input.
pub proof fn lemma_segment_match_bounds(s: Seq<char>)
    ensures
        match segment_match(s) {
            Some((_, n)) => 0 < n <= s.len(),
            None => true,
        },
{
    lemma_word_len_bounds(s);
    if s.len() > 0 {
        lemma_word_len_bounds(s.skip(1));
    }
    if s.len() > 1 {
        lemma_word_len_bounds(s.skip(2));
    }
}

/// A separator with its segment covers at least two characters of the
/// input and no more than there are.
pub proof fn lemma_separated_match_bounds(s: Seq<char>)
    ensures
        match separated_match(s) {
            Some((_, n)) => 1 < n <= s.len(),
            None => true,
        },
{
    if s.len() > 0 {
        lemma_segment_match_bounds(s.skip(1));
    }
}

/// The run of separated segments lies within the input.
pub proof fn lemma_separated_run_bounds(s: Seq<char>)
    ensures
        separated_run(s).1 <= s.len(),
    decreases s.len(),
{
    lemma_separated_match_bounds(s);
    match separated_match(s) {
        Some((_, n)) => {
            lemma_separated_run_bounds(s.skip(n as int));
        },
        None => {},
    }
}

/// The path at the front of the input lies within the input.
pub proof fn lemma_path_match_bounds(s: Seq<char>)
    ensures
        path_match(s).1 <= s.len(),
{
    lemma_segment_match_bounds(s);
    let a: nat = match segment_match(s) {
        Some((_, n)) => n,
        None => 0,
    };
    lemma_separated_run_bounds(s.skip(a as int));
}

/// A segment that matches is well formed, and its last character is not a
/// separator.
pub proof fn lemma_segment_match_well_formed(s: Seq<char>)
    ensures
        match segment_match(s) {
            Some((seg, n)) => segment_well_formed(seg) && 0 < n <= s.len() && s[n - 1] != '/',
            None => true,
        },
{
    lemma_segment_match_bounds(s);
    lemma_word_len_bounds(s);
    if s.len() > 0 && s[0] == '$' {
        if starts_with(s, open_tag()) {
            let t = s.skip(2);
            lemma_word_len_bounds(t);
            if complex_len(s) > 0 {
                let n = name_len(t);
                let name = s.subrange(2, complex_len(s) - 1);
                assert(name == t.take(n as int));
                assert(name[0] == t[0]);
                assert forall|i: int| 0 <= i < name.len() implies is_word_char(
                    #[trigger] name[i],
                ) by {
                    assert(name[i] == t[i]);
                }
                assert(s.skip((2 + n) as int).take(1)[0] == s[(2 + n) as int]);
                assert(close_tag()[0] == '}');
            }
        } else if simple_len(s) > 0 {
            let t = s.skip(1);
            lemma_word_len_bounds(t);
            let n = name_len(t);
            let name = s.subrange(1, simple_len(s) as int);
            assert(name == t.take(n as int));
            assert(name[0] == t[0]);
            assert forall|i: int| 0 <= i < name.len() implies is_word_char(#[trigger] name[i]) by {
                assert(name[i] == t[i]);
            }
            assert(is_word_char(t[n - 1]));
            assert(t[n - 1] == s[n as int]);
        }
    } else if word_len(s) > 0 {
        let n = word_len(s);
        let word = s.take(n as int);
        assert forall|i: int| 0 <= i < word.len() implies is_word_char(#[trigger] word[i]) by {
            assert(word[i] == s[i]);
        }
        assert(is_word_char(s[n - 1]));
    }
}

/// The run of separated segments holds well-formed segments only; it is
/// empty exactly when it covers nothing, and it does not end in a
/// separator.
pub proof fn lemma_separated_run_well_formed(s: Seq<char>)
    ensures
        forall|i: int|
            0 <= i < separated_run(s).0.len() ==> segment_well_formed(
                #[trigger] separated_run(s).0[i],
            ),
        separated_run(s).1 <= s.len(),
        separated_run(s).0.len() == 0 <==> separated_run(s).1 == 0,
        separated_run(s).1 > 0 ==> s[0] == '/' && s[separated_run(s).1 - 1] != '/',
        separated_run(s).1 == 0 <==> separated_match(s) is None,
    decreases s.len(),
{
    lemma_separated_match_bounds(s);
    match separated_match(s) {
        Some((seg, n)) => {
            let t = s.skip(n as int);
            lemma_separated_run_well_formed(t);
            lemma_segment_match_well_formed(s.skip(1));
            let (rest, m) = separated_run(t);
            assert(s.skip(1)[n - 2] == s[n - 1]);
            if m > 0 {
                assert(t[m - 1] == s[n + m - 1]);
            }
            assert forall|i: int| 0 <= i < separated_run(s).0.len() implies segment_well_formed(
                #[trigger] separated_run(s).0[i],
            ) by {
                if i > 0 {
                    assert(separated_run(s).0[i] == rest[i - 1]);
                }
            }
        },
        None => {},
    }
}

/// Whatever the input, the path at its front is well formed.
pub proof fn lemma_path_match_well_formed(s: Seq<char>)
    ensures
        model_well_formed(path_match(s).0),
{
    lemma_segment_match_well_formed(s);
    let a: nat = match segment_match(s) {
        Some((_, n)) => n,
        None => 0,
    };
    lemma_separated_run_well_formed(s.skip(a as int));
}

/// A path has no parts exactly when its text is empty or a single
/// separator.
pub proof fn lemma_no_parts(s: Seq<char>)
    ensures
        parse_model(s) matches Some(path) ==> (path.parts.len() == 0 <==> s.len() == 0 || s
            == seq!['/']),
{
    lemma_segment_match_well_formed(s);
    let a: nat = match segment_match(s) {
        Some((_, n)) => n,
        None => 0,
    };
    lemma_separated_run_well_formed(s.skip(a as int));
    if parse_model(s) is Some {
        if s.len() == 0 || s == seq!['/'] {
            assert(word_len(s) == 0);
            assert(a == 0);
            assert(s.skip(0) == s);
            if s.len() == 1 {
                assert(s.skip(1).len() == 0);
                assert(segment_match(s.skip(1)) is None);
            }
        } else if path_match(s).0.parts.len() == 0 {
            assert(a == 0);
            assert(s.skip(0) == s);
            assert(s == seq!['/']);
        }
    }
}

/// The leading flag of a path with a text that is not empty says whether
/// the text begins with a separator.
pub proof fn lemma_leading_slash(s: Seq<char>)
    ensures
        parse_model(s) matches Some(path) ==> s.len() > 0 ==> (path.leading_slash <==> s[0]
            == '/'),
{
    lemma_segment_match_well_formed(s);
    lemma_word_len_bounds(s);
    assert(s.skip(0) == s);
    lemma_separated_run_well_formed(s);
    if parse_model(s) is Some && s.len() > 0 {
        if s[0] == '/' {
            assert(word_len(s) == 0);
        }
    }
}

/// The trailing flag of a path with a text that is not empty says whether
/// the text ends with a separator.
pub proof fn lemma_trailing_slash(s: Seq<char>)
    ensures
        parse_model(s) matches Some(path) ==> s.len() > 0 ==> (path.trailing_slash <==> s.last()
            == '/'),
{
    lemma_segment_match_well_formed(s);
    let a: nat = match segment_match(s) {
        Some((_, n)) => n,
        None => 0,
    };
    let t = s.skip(a as int);
    lemma_separated_run_well_formed(t);
    let b = separated_run(t).1;
    if parse_model(s) is Some && s.len() > 0 {
        if !path_match(s).0.trailing_slash {
            if b > 0 {
                assert(t[b - 1] == s[a + b - 1]);
            }
        }
    }
}

/// A text that begins with `$` is a path only if a variable reference
/// stands at its front.
pub proof fn lemma_marker_needs_variable(s: Seq<char>)
    requires
        s.len() > 0,
        s[0] == '$',
        variable_match(s) is None,
    ensures
        parse_model(s) is None,
{
    assert(s.skip(0) == s);
    assert(separated_match(s) is None);
}

/// A text that opens a brace and never closes it is not a path.
pub proof fn lemma_unterminated_brace_rejected(s: Seq<char>)
    requires
        starts_with(s, open_tag()),
        forall|i: int| 0 <= i < s.len() ==> s[i] != '}',
    ensures
        parse_model(s) is None,
{
    assert(s.take(2)[0] == s[0]);
    lemma_word_len_bounds(s.skip(2));
    let n = name_len(s.skip(2));
    if n > 0 && starts_with(s.skip((2 + n) as int), close_tag()) {
        assert(s.skip((2 + n) as int).take(1)[0] == s[(2 + n) as int]);
        assert(close_tag()[0] == '}');
    }
    lemma_marker_needs_variable(s);
}

/// A variable name begins with an alphabetic character: a text whose `$`
/// or `${` is followed by anything else, or by nothing, is not a path.
pub proof fn lemma_name_needs_letter(s: Seq<char>)
    requires
        s.len() > 0,
        s[0] == '$',
        ({
            let k: int = if starts_with(s, open_tag()) {
                2
            } else {
                1
            };
            s.len() <= k || !unicode_alphabetic(s[k])
        }),
    ensures
        parse_model(s) is None,
{
    if starts_with(s, open_tag()) {
        if s.len() > 2 {
            assert(s.skip(2)[0] == s[2]);
        }
    } else if s.len() > 1 {
        assert(s.skip(1)[0] == s[1]);
    }
    lemma_marker_needs_variable(s);
}

/// A segment that matches holds no separator.
pub proof fn lemma_segment_has_no_separator(s: Seq<char>)
    ensures
        match segment_match(s) {
            Some((_, n)) => n <= s.len() && forall|i: int| 0 <= i < n ==> #[trigger] s[i] != '/',
            None => true,
        },
{
    lemma_segment_match_bounds(s);
    lemma_word_len_bounds(s);
    match segment_match(s) {
        Some((_, n)) => {
            if s[0] == '$' {
                if starts_with(s, open_tag()) {
                    let t = s.skip(2);
                    lemma_word_len_bounds(t);
                    assert(s.take(2)[1] == s[1]);
                    assert(s.skip((n - 1) as int).take(1)[0] == s[n - 1]);
                    assert(close_tag()[0] == '}');
                    assert forall|i: int| 0 <= i < n implies #[trigger] s[i] != '/' by {
                        if 2 <= i < n - 1 {
                            assert(s[i] == t[i - 2]);
                        }
                    }
                } else {
                    let t = s.skip(1);
                    lemma_word_len_bounds(t);
                    assert forall|i: int| 0 <= i < n implies #[trigger] s[i] != '/' by {
                        if 1 <= i {
                            assert(s[i] == t[i - 1]);
                        }
                    }
                }
            }
        },
        None => {},
    }
}

/// In the run of separated segments every separator is followed by a
/// character of the run that is not a separator.
pub proof fn lemma_separated_run_separators(s: Seq<char>)
    ensures
        separated_run(s).1 <= s.len(),
        forall|i: int|
            0 <= i < separated_run(s).1 && #[trigger] s[i] == '/' ==> i + 1 < separated_run(s).1
                && s[i + 1] != '/',
    decreases s.len(),
{
    lemma_separated_match_bounds(s);
    lemma_separated_run_bounds(s);
    match separated_match(s) {
        Some((_, n)) => {
            let t = s.skip(n as int);
            let m = separated_run(t).1;
            lemma_separated_run_separators(t);
            lemma_segment_has_no_separator(s.skip(1));
            assert forall|i: int| 0 <= i < n + m && #[trigger] s[i] == '/' implies i + 1 < n + m
                && s[i + 1] != '/' by {
                if i == 0 {
                    assert(s[1] == s.skip(1)[0]);
                } else if i < n {
                    assert(s[i] == s.skip(1)[i - 1]);
                } else {
                    assert(s[i] == t[i - n]);
                    assert(s[i + 1] == t[i - n + 1]);
                }
            }
        },
        None => {},
    }
}

/// A text with two separators in a row is not a path.
pub proof fn lemma_no_double_separator(s: Seq<char>, i: int)
    requires
        0 <= i < s.len() - 1,
        s[i] == '/',
        s[i + 1] == '/',
    ensures
        parse_model(s) is None,
{
    lemma_segment_has_no_separator(s);
    lemma_segment_match_well_formed(s);
    let a: nat = match segment_match(s) {
        Some((_, n)) => n,
        None => 0,
    };
    let t = s.skip(a as int);
    let b = separated_run(t).1;
    lemma_separated_run_separators(t);
    lemma_separated_run_well_formed(t);
    if parse_model(s) is Some {
        if a <= i < a + b {
            assert(s[i] == t[i - a]);
            assert(s[i + 1] == t[i - a + 1]);
        } else if b > 0 {
            assert(t[b - 1] == s[a + b - 1]);
        }
    }
}

} // verus!
