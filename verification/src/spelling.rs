//! The texts of a path. A word has one spelling; a variable has two, the
//! bare `$NAME` and the braced `${NAME}`. The parser accepts exactly the
//! spellings of well-formed paths, and gives back the path that was spelled.

use vstd::prelude::*;
use crate::charclass::is_word_char;
use crate::grammar::{
    close_tag, complex_len, lemma_segment_match_well_formed, lemma_separated_match_bounds,
    lemma_separated_run_well_formed, lemma_path_match_well_formed, lemma_word_len_bounds,
    lemma_word_len_unique, model_well_formed, name_len, open_tag, parse_model, path_match,
    segment_match, segment_well_formed, separated_match, separated_run, simple_len, starts_with,
    word_len, PathModel, Segment,
};

verus! {

/// The text of one segment. A word is spelled as it is; a variable as
/// `${NAME}` if `braced` is set and as `$NAME` otherwise.
pub open spec fn spelled_segment(seg: Segment, braced: bool) -> Seq<char> {
    match seg {
        Segment::Word(word) => word,
        Segment::Variable(name) => if braced {
            open_tag() + name + close_tag()
        } else {
            seq!['$'] + name
        },
    }
}

/// The text of segments that each follow a separator; `forms` chooses the
/// spelling of each.
pub open spec fn spelled_separated(parts: Seq<Segment>, forms: Seq<bool>) -> Seq<char>
    decreases parts.len(),
{
    if parts.len() == 0 {
        Seq::empty()
    } else {
        seq!['/'] + spelled_segment(parts[0], forms[0]) + spelled_separated(
            parts.skip(1),
            forms.skip(1),
        )
    }
}

/// The separator, if the flag is set.
pub open spec fn slash_if(flag: bool) -> Seq<char> {
    if flag {
        seq!['/']
    } else {
        Seq::empty()
    }
}

/// The text of a path; `forms` chooses the spelling of each segment. With
/// the leading flag every segment follows a separator; without it the
/// first segment stands alone. The trailing flag adds one more separator.
pub open spec fn spelled(path: PathModel, forms: Seq<bool>) -> Seq<char> {
    if path.leading_slash || path.parts.len() == 0 {
        spelled_separated(path.parts, forms) + slash_if(path.trailing_slash)
    } else {
        spelled_segment(path.parts[0], forms[0]) + spelled_separated(
            path.parts.skip(1),
            forms.skip(1),
        ) + slash_if(path.trailing_slash)
    }
}

/// Whether `text` is a spelling of `path`.
pub open spec fn spells(path: PathModel, text: Seq<char>) -> bool {
    exists|forms: Seq<bool>| forms.len() == path.parts.len() && spelled(path, forms) == text
}

/// A spelling of a well-formed segment, followed by nothing or by a
/// separator, is matched as that segment.
pub proof fn lemma_spelled_segment_matches(seg: Segment, braced: bool, rest: Seq<char>)
    requires
        segment_well_formed(seg),
        rest.len() == 0 || rest[0] == '/',
    ensures
        segment_match(spelled_segment(seg, braced) + rest) == Some(
            (seg, spelled_segment(seg, braced).len()),
        ),
{
    let s = spelled_segment(seg, braced) + rest;
    match seg {
        Segment::Word(word) => {
            assert(s[0] == word[0]);
            assert forall|j: int| 0 <= j < word.len() implies is_word_char(#[trigger] s[j]) by {
                assert(s[j] == word[j]);
            }
            if word.len() < s.len() {
                assert(s[word.len() as int] == rest[0]);
            }
            lemma_word_len_unique(s, word.len());
            assert(s.take(word.len() as int) == word);
        },
        Segment::Variable(name) => {
            let n = name.len();
            if braced {
                assert(s[0] == '$' && s[1] == '{');
                assert(s.take(2) == open_tag());
                let t = s.skip(2);
                assert(t == name + close_tag() + rest);
                assert(t[0] == name[0]);
                assert forall|j: int| 0 <= j < n implies is_word_char(#[trigger] t[j]) by {
                    assert(t[j] == name[j]);
                }
                assert(t[n as int] == '}');
                lemma_word_len_unique(t, n);
                assert(name_len(t) == n);
                let u = s.skip((2 + n) as int);
                assert(u == close_tag() + rest);
                assert(u.take(1) == close_tag());
                assert(complex_len(s) == n + 3);
                assert(s.subrange(2, complex_len(s) - 1) == name);
            } else {
                assert(s[0] == '$');
                assert(s[1] == name[0]);
                assert(!starts_with(s, open_tag())) by {
                    assert(s.take(2)[1] == s[1]);
                    assert(open_tag()[1] == '{');
                }
                let t = s.skip(1);
                assert(t == name + rest);
                assert(t[0] == name[0]);
                assert forall|j: int| 0 <= j < n implies is_word_char(#[trigger] t[j]) by {
                    assert(t[j] == name[j]);
                }
                if n < t.len() {
                    assert(t[n as int] == rest[0]);
                }
                lemma_word_len_unique(t, n);
                assert(simple_len(s) == n + 1);
                assert(s.subrange(1, simple_len(s) as int) == name);
            }
        },
    }
}

/// A spelling of well-formed separated segments, followed by nothing or by
/// one separator, is matched as those segments and nothing more.
pub proof fn lemma_spelled_separated_matches(
    parts: Seq<Segment>,
    forms: Seq<bool>,
    tail: Seq<char>,
)
    requires
        forall|i: int| 0 <= i < parts.len() ==> segment_well_formed(#[trigger] parts[i]),
        tail.len() == 0 || tail == seq!['/'],
    ensures
        separated_run(spelled_separated(parts, forms) + tail) == (
            parts,
            spelled_separated(parts, forms).len(),
        ),
    decreases parts.len(),
{
    let s = spelled_separated(parts, forms) + tail;
    if parts.len() == 0 {
        assert(s == tail);
        if tail.len() > 0 {
            assert(s.skip(1).len() == 0);
            assert(word_len(s.skip(1)) == 0);
        }
        assert(separated_match(s) is None);
        assert(parts == Seq::<Segment>::empty());
    } else {
        let head = parts[0];
        let rest = parts.skip(1);
        let text = spelled_segment(head, forms[0]);
        let after = spelled_separated(rest, forms.skip(1)) + tail;
        let n = text.len() + 1;
        assert(s.skip(1) == text + after);
        assert(after.len() == 0 || after[0] == '/');
        lemma_spelled_segment_matches(head, forms[0], after);
        assert(separated_match(s) == Some((head, n)));
        assert(s.skip(n as int) == after);
        assert forall|i: int| 0 <= i < rest.len() implies segment_well_formed(
            #[trigger] rest[i],
        ) by {
            assert(rest[i] == parts[i + 1]);
        }
        lemma_spelled_separated_matches(rest, forms.skip(1), tail);
        assert(seq![head] + rest == parts);
    }
}

/// Parsing any spelling of a well-formed path gives that path.
pub proof fn lemma_spelling_parses(path: PathModel, forms: Seq<bool>)
    requires
        model_well_formed(path),
    ensures
        parse_model(spelled(path, forms)) == Some(path),
{
    let s = spelled(path, forms);
    let tail = slash_if(path.trailing_slash);
    if path.leading_slash {
        let body = spelled_separated(path.parts, forms);
        assert(s.len() > 0 ==> s[0] == '/');
        assert(word_len(s) == 0);
        assert(segment_match(s) is None);
        assert(s.skip(0) == s);
        lemma_spelled_separated_matches(path.parts, forms, tail);
        assert(Seq::<Segment>::empty() + path.parts == path.parts);
        if path.trailing_slash {
            assert(s[body.len() as int] == '/');
        }
        assert(path_match(s).0.parts == path.parts);
        assert(path_match(s).0 == path);
    } else {
        let head = path.parts[0];
        let rest = path.parts.skip(1);
        let text = spelled_segment(head, forms[0]);
        let after = spelled_separated(rest, forms.skip(1)) + tail;
        let a = text.len();
        assert(s == text + after);
        assert(after.len() == 0 || after[0] == '/');
        lemma_spelled_segment_matches(head, forms[0], after);
        assert(s.skip(a as int) == after);
        assert forall|i: int| 0 <= i < rest.len() implies segment_well_formed(
            #[trigger] rest[i],
        ) by {
            assert(rest[i] == path.parts[i + 1]);
        }
        lemma_spelled_separated_matches(rest, forms.skip(1), tail);
        assert(seq![head] + rest == path.parts);
        if path.trailing_slash {
            assert(s[(a + spelled_separated(rest, forms.skip(1)).len()) as int] == '/');
        }
        assert(path_match(s).0.parts == path.parts);
        assert(path_match(s).0 == path);
    }
}

/// The spellings that the run of separated segments at the front of `s`
/// uses, in order.
pub open spec fn separated_forms(s: Seq<char>) -> Seq<bool>
    decreases s.len(),
{
    match separated_match(s) {
        Some((_, n)) => {
            if n <= s.len() {
                seq![starts_with(s.skip(1), open_tag())] + separated_forms(s.skip(n as int))
            } else {
                Seq::empty()
            }
        },
        None => Seq::empty(),
    }
}

/// The spellings that the path at the front of `s` uses, in order.
pub open spec fn path_forms(s: Seq<char>) -> Seq<bool> {
    match segment_match(s) {
        Some((_, n)) => seq![starts_with(s, open_tag())] + separated_forms(s.skip(n as int)),
        None => separated_forms(s),
    }
}

/// What a segment match covers is a spelling of the segment.
pub proof fn lemma_segment_match_spelled(s: Seq<char>)
    ensures
        match segment_match(s) {
            Some((seg, n)) => n <= s.len() && spelled_segment(seg, starts_with(s, open_tag()))
                == s.take(n as int),
            None => true,
        },
{
    lemma_segment_match_well_formed(s);
    match segment_match(s) {
        Some((seg, n)) => {
            match seg {
                Segment::Word(word) => {},
                Segment::Variable(name) => {
                    if starts_with(s, open_tag()) {
                        let k = name_len(s.skip(2));
                        lemma_word_len_bounds(s.skip(2));
                        assert(s.take(2)[0] == s[0] && s.take(2)[1] == s[1]);
                        assert(s.skip((2 + k) as int).take(1)[0] == s[(2 + k) as int]);
                        assert(close_tag()[0] == '}');
                        assert(open_tag() + name + close_tag() == s.take(n as int));
                    } else {
                        assert(seq!['$'] + name == s.take(n as int));
                    }
                },
            }
        },
        None => {},
    }
}

/// What the run of separated segments covers is a spelling of them.
pub proof fn lemma_separated_run_spelled(s: Seq<char>)
    ensures
        separated_forms(s).len() == separated_run(s).0.len(),
        separated_run(s).1 <= s.len(),
        spelled_separated(separated_run(s).0, separated_forms(s)) == s.take(
            separated_run(s).1 as int,
        ),
    decreases s.len(),
{
    lemma_separated_match_bounds(s);
    lemma_separated_run_well_formed(s);
    match separated_match(s) {
        Some((seg, n)) => {
            let t = s.skip(n as int);
            let (rest, m) = separated_run(t);
            lemma_separated_run_spelled(t);
            lemma_separated_run_well_formed(t);
            lemma_segment_match_spelled(s.skip(1));
            let parts = separated_run(s).0;
            let forms = separated_forms(s);
            assert(parts.skip(1) == rest);
            assert(forms.skip(1) == separated_forms(t));
            assert(parts[0] == seg);
            assert(seq!['/'] + s.skip(1).take(n - 1) + t.take(m as int) == s.take(
                (n + m) as int,
            ));
        },
        None => {
            assert(s.take(0) == Seq::<char>::empty());
        },
    }
}

/// A text that parses is a spelling of the path it parses to, and that path
/// is well formed.
pub proof fn lemma_parsed_is_spelled(s: Seq<char>)
    requires
        parse_model(s) is Some,
    ensures
        model_well_formed(parse_model(s).unwrap()),
        path_forms(s).len() == parse_model(s).unwrap().parts.len(),
        spelled(parse_model(s).unwrap(), path_forms(s)) == s,
        spells(parse_model(s).unwrap(), s),
{
    let path = parse_model(s).unwrap();
    lemma_path_match_well_formed(s);
    lemma_segment_match_well_formed(s);
    lemma_segment_match_spelled(s);
    let tail = slash_if(path.trailing_slash);
    match segment_match(s) {
        Some((seg, a)) => {
            let t = s.skip(a as int);
            lemma_separated_run_spelled(t);
            let (rest, b) = separated_run(t);
            assert(path.parts == seq![seg] + rest);
            assert(path.parts.skip(1) == rest);
            assert(path_forms(s).skip(1) == separated_forms(t));
            if path.trailing_slash {
                assert(s.take(a as int) + t.take(b as int) + seq!['/'] == s);
            } else {
                assert(s.take(a as int) + t.take(b as int) + Seq::<char>::empty() == s);
            }
        },
        None => {
            assert(s.skip(0) == s);
            lemma_separated_run_spelled(s);
            let (rest, b) = separated_run(s);
            assert(path.parts == Seq::<Segment>::empty() + rest);
            assert(path.parts == rest);
            if path.trailing_slash {
                assert(s.take(b as int) + seq!['/'] == s);
            } else {
                assert(s.take(b as int) + Seq::<char>::empty() == s);
            }
        },
    }
}

/// The parser accepts exactly the spellings of well-formed paths: a text
/// parses to a path if and only if the path is well formed and the text is
/// one of its spellings.
pub proof fn lemma_parse_characterized(s: Seq<char>, path: PathModel)
    ensures
        parse_model(s) == Some(path) <==> model_well_formed(path) && spells(path, s),
{
    if parse_model(s) == Some(path) {
        lemma_parsed_is_spelled(s);
    }
    if model_well_formed(path) && spells(path, s) {
        let forms = choose|forms: Seq<bool>|
            forms.len() == path.parts.len() && spelled(path, forms) == s;
        lemma_spelling_parses(path, forms);
    }
}

} // verus!
