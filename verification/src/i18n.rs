//! Interface language and sentences with values filled in.

use vstd::prelude::*;
use vstd::string::StringExecFns;
use crate::parse::chars_of;
use crate::text::push_char;

verus! {

/// Interface language: English (built in) or Thai.
#[derive(Clone, Copy, PartialEq, Eq, Debug, Structural)]
pub enum Lang {
    En,
    Th,
}

impl Lang {
    /// The language's own name, for the picker.
    pub fn label(self) -> (r: &'static str)
        ensures
            r@ == (match self {
                Lang::En => "English"@,
                Lang::Th => "ไทย"@,
            }),
    {
        match self {
            Lang::En => "English",
            Lang::Th => "ไทย",
        }
    }

    /// The code stored on the device and set as the document language.
    pub fn key(self) -> (r: &'static str)
        ensures
            r@ == (match self {
                Lang::En => "en"@,
                Lang::Th => "th"@,
            }),
    {
        match self {
            Lang::En => "en",
            Lang::Th => "th",
        }
    }
}

/// `template` from position `i` on, with each `{}` replaced by the next
/// argument, counting from `args[k]`; a `{}` with no argument left is
/// dropped, and arguments left over are ignored.
pub open spec fn filled(template: Seq<char>, args: Seq<Seq<char>>, k: nat) -> Seq<char>
    decreases template.len(),
{
    if template.len() == 0 {
        Seq::empty()
    } else if template.len() >= 2 && template[0] == '{' && template[1] == '}' {
        (if k < args.len() { args[k as int] } else { Seq::empty() }) + filled(template.skip(2), args, k + 1)
    } else {
        seq![template[0]] + filled(template.skip(1), args, k)
    }
}

/// A sentence with values in it: each `{}` in `template` (already in the
/// chosen language) is replaced, in order, by the next of `args`.
pub fn trf(template: &str, args: &Vec<String>) -> (r: String)
    ensures
        r@ == filled(template@, args@.map_values(|a: String| a@), 0),
{
    let t = chars_of(template);
    let ghost view_args = args@.map_values(|a: String| a@);
    let mut out = String::new();
    let mut i: usize = 0;
    let mut k: usize = 0;
    proof {
        assert(t@.skip(0) == t@);
    }
    while i < t.len()
        invariant
            i <= t.len(),
            t@ == template@,
            k <= i,
            view_args == args@.map_values(|a: String| a@),
            out@ + filled(t@.skip(i as int), view_args, k as nat) == filled(t@, view_args, 0),
        decreases t.len() - i,
    {
        let ghost rest = t@.skip(i as int);
        if i + 1 < t.len() && t[i] == '{' && t[i + 1] == '}' {
            proof {
                assert(rest[0] == t@[i as int] && rest[1] == t@[i + 1]);
                assert(rest.skip(2) == t@.skip(i + 2));
            }
            if k < args.len() {
                out.append(args[k].as_str());
            }
            proof {
                assert(out@ + filled(t@.skip(i + 2), view_args, k as nat + 1) == filled(t@, view_args, 0));
            }
            i = i + 2;
            k = k + 1;
        } else {
            proof {
                assert(rest[0] == t@[i as int]);
                assert(rest.skip(1) == t@.skip(i + 1));
                if i + 1 < t.len() {
                    assert(rest[1] == t@[i + 1]);
                }
            }
            push_char(&mut out, t[i]);
            proof {
                assert(out@ + filled(t@.skip(i + 1), view_args, k as nat) == filled(t@, view_args, 0));
            }
            i = i + 1;
        }
    }
    proof {
        assert(t@.skip(i as int) =~= Seq::<char>::empty());
        assert(out@ + Seq::<char>::empty() == out@);
    }
    out
}


/// A sentence without `{}` comes back as it is, whatever the arguments.
pub proof fn lemma_no_placeholder_unchanged(template: Seq<char>, args: Seq<Seq<char>>, k: nat)
    requires
        forall|i: int| 0 <= i < template.len() - 1 ==> !(#[trigger] template[i] == '{' && template[i + 1] == '}'),
    ensures
        filled(template, args, k) == template,
    decreases template.len(),
{
    if template.len() > 0 {
        let rest = template.skip(1);
        assert forall|i: int| 0 <= i < rest.len() - 1 implies !(#[trigger] rest[i] == '{' && rest[i + 1] == '}') by {
            assert(rest[i] == template[i + 1]);
            assert(rest[i + 1] == template[i + 2]);
        }
        if template.len() >= 2 {
            assert(!(template[0] == '{' && template[1] == '}'));
        }
        lemma_no_placeholder_unchanged(rest, args, k);
        assert(seq![template[0]] + rest == template);
    }
}

} // verus!
