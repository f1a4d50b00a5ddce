//! Building filesystem paths with `std::path::PathBuf`.

use vstd::prelude::*;
use vstd::string::*;
use std::path::PathBuf;

verus! {

/// `std::path::PathBuf`, carried through as an opaque value.
#[verifier::external_type_specification]
#[verifier::external_body]
pub struct ExPathBuf(PathBuf);

/// The text that a path holds: what it was made from, and what pushing
/// components has made of that since.
pub uninterp spec fn path_text(path: PathBuf) -> Seq<char>;

/// The text of a path after `component` has been pushed onto a path whose
/// text was `base`, by the platform's rules for joining paths.
pub uninterp spec fn pushed_text(base: Seq<char>, component: Seq<char>) -> Seq<char>;

/// Calls `PathBuf::new`, which gives the empty path.
#[verifier::external_body]
pub(crate) fn empty_path() -> (r: PathBuf)
    ensures
        path_text(r) == Seq::<char>::empty(),
{
    PathBuf::new()
}

/// Calls `PathBuf::from` on a string slice. The path holds the text of the
/// slice, unchanged.
#[verifier::external_body]
pub(crate) fn path_from(text: &str) -> (r: PathBuf)
    ensures
        path_text(r) == text@,
{
    PathBuf::from(text)
}

/// Calls `PathBuf::push` with a string slice. Nothing is claimed of the new
/// text but that it is determined by the old text and the component: the
/// join follows the rules of the platform the library is built for, and
/// reads nothing else.
#[verifier::external_body]
pub(crate) fn push_component(path: &mut PathBuf, component: &str)
    ensures
        path_text(*final(path)) == pushed_text(path_text(*old(path)), component@),
{
    path.push(component)
}

/// The texts of a sequence of strings.
pub open spec fn texts(strings: Seq<String>) -> Seq<Seq<char>> {
    strings.map_values(|s: String| s@)
}

/// The text of the path that results from pushing the components, from
/// the left, onto a path whose text is `base`.
pub open spec fn joined(base: Seq<char>, components: Seq<Seq<char>>) -> Seq<char>
    decreases components.len(),
{
    if components.len() == 0 {
        base
    } else {
        joined(pushed_text(base, components[0]), components.skip(1))
    }
}

/// The text that evaluation starts from: the root for a path with the
/// leading flag, nothing otherwise.
pub open spec fn root_text(leading_slash: bool) -> Seq<char> {
    if leading_slash {
        seq!['/']
    } else {
        Seq::empty()
    }
}

/// Builds a path from its components: from the root if `leading_slash` is
/// set, from the empty path otherwise, the components are pushed in order.
pub fn join_path(leading_slash: bool, components: &[String]) -> (path: PathBuf)
    ensures
        path_text(path) == joined(root_text(leading_slash), texts(components@)),
{
    let mut path = if leading_slash {
        proof {
            reveal_strlit("/");
        }
        let root = path_from("/");
        assert(path_text(root) == root_text(true));
        root
    } else {
        empty_path()
    };
    let n: usize = components.len();
    let mut i: usize = 0;
    assert(texts(components@).skip(0) == texts(components@));
    while i < n
        invariant
            i <= n,
            n == components@.len(),
            joined(path_text(path), texts(components@).skip(i as int)) == joined(
                root_text(leading_slash),
                texts(components@),
            ),
        decreases n - i,
    {
        proof {
            let rest = texts(components@).skip(i as int);
            assert(rest[0] == components@[i as int]@);
            assert(rest.skip(1) == texts(components@).skip(i + 1));
        }
        push_component(&mut path, components[i].as_str());
        i += 1;
    }
    path
}

} // verus!
