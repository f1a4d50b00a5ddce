//! What evaluating a path against an environment yields, as functions on
//! the path's model.

use vstd::prelude::*;
use crate::grammar::{PathModel, Segment};
use crate::path::{joined, root_text};

verus! {

/// Whether `env` has what the segment needs: a word needs nothing, a
/// variable needs a value for its name.
pub open spec fn defined(seg: Segment, env: Map<Seq<char>, Seq<char>>) -> bool {
    match seg {
        Segment::Word(_) => true,
        Segment::Variable(name) => env.contains_key(name),
    }
}

/// The text a segment contributes: a word itself, a variable its value.
pub open spec fn resolved(seg: Segment, env: Map<Seq<char>, Seq<char>>) -> Seq<char> {
    match seg {
        Segment::Word(word) => word,
        Segment::Variable(name) => env[name],
    }
}

/// The name of the first variable, from the left, for which `env` has no
/// value.
pub open spec fn first_undefined(parts: Seq<Segment>, env: Map<Seq<char>, Seq<char>>) -> Option<
    Seq<char>,
>
    decreases parts.len(),
{
    if parts.len() == 0 {
        None
    } else {
        match parts[0] {
            Segment::Variable(name) if !env.contains_key(name) => Some(name),
            _ => first_undefined(parts.skip(1), env),
        }
    }
}

/// What the segments contribute, in order.
pub open spec fn resolved_texts(parts: Seq<Segment>, env: Map<Seq<char>, Seq<char>>) -> Seq<
    Seq<char>,
> {
    parts.map_values(|seg: Segment| resolved(seg, env))
}

/// The outcome of resolving the segments against `env`: what they
/// contribute, in order, or the name of the first undefined variable.
pub open spec fn resolve_model(parts: Seq<Segment>, env: Map<Seq<char>, Seq<char>>) -> Result<
    Seq<Seq<char>>,
    Seq<char>,
> {
    match first_undefined(parts, env) {
        Some(name) => Err(name),
        None => Ok(resolved_texts(parts, env)),
    }
}

/// The outcome of evaluating `path` against `env`: the text of the path
/// built from what the segments contribute, or the name of the first
/// undefined variable. The trailing flag plays no part.
pub open spec fn eval_model(path: PathModel, env: Map<Seq<char>, Seq<char>>) -> Result<
    Seq<char>,
    Seq<char>,
> {
    match resolve_model(path.parts, env) {
        Ok(components) => Ok(joined(root_text(path.leading_slash), components)),
        Err(name) => Err(name),
    }
}

/// The first undefined variable is undefined, stands in the path, and has
/// only defined segments to its left; and there is one as soon as any
/// segment is undefined.
pub proof fn lemma_first_undefined(parts: Seq<Segment>, env: Map<Seq<char>, Seq<char>>)
    ensures
        match first_undefined(parts, env) {
            Some(name) => exists|i: int|
                0 <= i < parts.len() && #[trigger] parts[i] == Segment::Variable(name)
                    && !env.contains_key(name) && forall|j: int|
                    0 <= j < i ==> defined(#[trigger] parts[j], env),
            None => forall|i: int| 0 <= i < parts.len() ==> defined(#[trigger] parts[i], env),
        },
    decreases parts.len(),
{
    if parts.len() > 0 {
        let rest = parts.skip(1);
        lemma_first_undefined(rest, env);
        if defined(parts[0], env) {
            match first_undefined(rest, env) {
                Some(name) => {
                    let i = choose|i: int|
                        0 <= i < rest.len() && #[trigger] rest[i] == Segment::Variable(name)
                            && !env.contains_key(name) && forall|j: int|
                            0 <= j < i ==> defined(#[trigger] rest[j], env);
                    assert(parts[i + 1] == rest[i]);
                    assert forall|j: int| 0 <= j < i + 1 implies defined(
                        #[trigger] parts[j],
                        env,
                    ) by {
                        if j > 0 {
                            assert(parts[j] == rest[j - 1]);
                        }
                    }
                },
                None => {
                    assert forall|i: int| 0 <= i < parts.len() implies defined(
                        #[trigger] parts[i],
                        env,
                    ) by {
                        if i > 0 {
                            assert(parts[i] == rest[i - 1]);
                        }
                    }
                },
            }
        } else {
            assert(parts[0] == Segment::Variable(parts[0]->Variable_0));
        }
    }
}

/// Evaluation succeeds whenever the environment has a value for every
/// variable that the path refers to; in particular no path that the parser
/// produced can fail for another reason.
pub proof fn lemma_eval_succeeds_when_defined(path: PathModel, env: Map<Seq<char>, Seq<char>>)
    requires
        forall|i: int| 0 <= i < path.parts.len() ==> defined(#[trigger] path.parts[i], env),
    ensures
        eval_model(path, env) is Ok,
{
    lemma_first_undefined(path.parts, env);
}

/// Evaluation fails as soon as the environment lacks the value of one
/// variable of the path. The error names the leftmost such variable, so it
/// names `name` if every segment to the left of position `i` is defined.
pub proof fn lemma_eval_fails_when_undefined(
    path: PathModel,
    env: Map<Seq<char>, Seq<char>>,
    i: int,
    name: Seq<char>,
)
    requires
        0 <= i < path.parts.len(),
        path.parts[i] == Segment::Variable(name),
        !env.contains_key(name),
    ensures
        eval_model(path, env) is Err,
        (forall|j: int| 0 <= j < i ==> defined(#[trigger] path.parts[j], env)) ==> eval_model(
            path,
            env,
        ) == Err::<Seq<char>, Seq<char>>(name),
{
    lemma_first_undefined(path.parts, env);
    assert(!defined(path.parts[i], env));
    if forall|j: int| 0 <= j < i ==> defined(#[trigger] path.parts[j], env) {
        let found = first_undefined(path.parts, env).unwrap();
        let k = choose|k: int|
            0 <= k < path.parts.len() && #[trigger] path.parts[k] == Segment::Variable(found)
                && !env.contains_key(found) && forall|j: int|
                0 <= j < k ==> defined(#[trigger] path.parts[j], env);
        assert(!defined(path.parts[k], env));
        assert(k == i);
    }
}

/// Two environments that agree on every variable of the path give the same
/// outcome: evaluation reads nothing else.
pub proof fn lemma_eval_reads_only_referenced(
    path: PathModel,
    env1: Map<Seq<char>, Seq<char>>,
    env2: Map<Seq<char>, Seq<char>>,
)
    requires
        forall|i: int|
            0 <= i < path.parts.len() ==> (#[trigger] path.parts[i] matches Segment::Variable(name)
                ==> env1.contains_key(name) == env2.contains_key(name) && (env1.contains_key(name)
                ==> env1[name] == env2[name])),
    ensures
        resolve_model(path.parts, env1) == resolve_model(path.parts, env2),
        eval_model(path, env1) == eval_model(path, env2),
{
    lemma_agree_first_undefined(path.parts, env1, env2);
    if first_undefined(path.parts, env1) is None {
        lemma_first_undefined(path.parts, env1);
        assert(resolved_texts(path.parts, env1) =~= resolved_texts(path.parts, env2));
    }
}

proof fn lemma_agree_first_undefined(
    parts: Seq<Segment>,
    env1: Map<Seq<char>, Seq<char>>,
    env2: Map<Seq<char>, Seq<char>>,
)
    requires
        forall|i: int|
            0 <= i < parts.len() ==> (#[trigger] parts[i] matches Segment::Variable(name)
                ==> env1.contains_key(name) == env2.contains_key(name)),
    ensures
        first_undefined(parts, env1) == first_undefined(parts, env2),
    decreases parts.len(),
{
    if parts.len() > 0 {
        let rest = parts.skip(1);
        assert forall|i: int| 0 <= i < rest.len() implies (#[trigger] rest[i] matches Segment::Variable(
            name,
        ) ==> env1.contains_key(name) == env2.contains_key(name)) by {
            assert(rest[i] == parts[i + 1]);
        }
        lemma_agree_first_undefined(rest, env1, env2);
        assert(parts[0] == parts[0]);
    }
}

} // verus!
