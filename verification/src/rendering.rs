//! The canonical text of a variable path: the spelling that writes every
//! variable in the braced form. A path that was parsed from the bare form
//! is therefore not written back as it was read, but parsing the canonical
//! text gives the same path again.

use vstd::prelude::*;
use vstd::string::*;
use crate::grammar::{close_tag, model_well_formed, open_tag, parse_model, PathModel};
use crate::spelling::{
    lemma_spelling_parses, slash_if, spelled, spelled_segment, spelled_separated,
};
use crate::varpath::{segments, PathPart, VarPath};

verus! {

/// The choice of the braced form for each of `n` segments.
pub open spec fn all_braced(n: nat) -> Seq<bool> {
    Seq::new(n, |i: int| true)
}

/// The canonical text of a path.
pub open spec fn render_model(path: PathModel) -> Seq<char> {
    spelled(path, all_braced(path.parts.len()))
}

/// Parsing the canonical text of a well-formed path gives that path.
pub proof fn lemma_render_parses(path: PathModel)
    requires
        model_well_formed(path),
    ensures
        parse_model(render_model(path)) == Some(path),
{
    lemma_spelling_parses(path, all_braced(path.parts.len()));
}

/// Appends the text of one part, a variable in the braced form.
fn push_part_text(out: &mut String, part: &PathPart)
    ensures
        final(out)@ == old(out)@ + spelled_segment(part@, true),
{
    match part {
        PathPart::Word(word) => {
            out.append(word.value());
        },
        PathPart::Variable(variable) => {
            proof {
                reveal_strlit("${");
                reveal_strlit("}");
            }
            let ghost before = out@;
            out.append("${");
            out.append(variable.name());
            out.append("}");
            assert("${"@ == open_tag());
            assert("}"@ == close_tag());
            assert(out@ == before + (open_tag() + variable@ + close_tag()));
        },
    }
}

impl VarPath {
    /// The canonical text of this path, with every variable in the braced
    /// form.
    pub fn render(&self) -> (r: String)
        ensures
            r@ == render_model(self@),
    {
        let parts = self.parts();
        let n: usize = parts.len();
        let trailing = self.trailing_slash();
        let ghost forms = all_braced(n as nat);
        let mut out = String::new();
        let mut i: usize = 0;
        if !self.leading_slash() && n > 0 {
            push_part_text(&mut out, &parts[0]);
            i = 1;
            assert(out@ == spelled_segment(self@.parts[0], forms[0]));
        } else {
            assert(self@.parts.skip(0) == self@.parts);
            assert(forms.skip(0) == forms);
            assert(out@ + spelled_separated(self@.parts, forms) == spelled_separated(
                self@.parts,
                forms,
            ));
        }
        while i < n
            invariant
                i <= n,
                n == parts@.len(),
                segments(parts@) == self@.parts,
                forms == all_braced(n as nat),
                out@ + spelled_separated(self@.parts.skip(i as int), forms.skip(i as int))
                    + slash_if(trailing) == render_model(self@),
            decreases n - i,
        {
            proof {
                reveal_strlit("/");
                let rest = self@.parts.skip(i as int);
                assert(rest[0] == parts@[i as int]@);
                assert(rest.skip(1) == self@.parts.skip(i + 1));
                assert(forms.skip(i as int)[0]);
                assert(forms.skip(i as int).skip(1) == forms.skip(i + 1));
            }
            let ghost before = out@;
            out.append("/");
            push_part_text(&mut out, &parts[i]);
            assert(out@ + spelled_separated(self@.parts.skip(i + 1), forms.skip(i + 1)) == before
                + spelled_separated(self@.parts.skip(i as int), forms.skip(i as int)));
            i += 1;
        }
        assert(spelled_separated(self@.parts.skip(n as int), forms.skip(n as int)) == Seq::<
            char,
        >::empty());
        if trailing {
            proof {
                reveal_strlit("/");
            }
            let ghost before = out@;
            out.append("/");
            assert(out@ == before + Seq::<char>::empty() + slash_if(true));
        } else {
            assert(out@ == out@ + Seq::<char>::empty() + slash_if(false));
        }
        out
    }
}

} // verus!
