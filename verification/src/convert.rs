//! `kime convert`: what its arguments ask for, and what is done with the target.

use crate::text::{join2, same, starts_with, texts, has_at};
use vstd::prelude::*;

verus! {

/// How the command is called.
pub const USAGE: &'static str = "usage: kime convert <laya dir> <out.kime> [--force]
       kime convert <in.kime> <out dir> [--force]
       kime convert --check <laya dir or .kime>";

/// What is asked for.
#[derive(Debug, PartialEq)]
pub enum Ask {
    /// Opening a model and checking it.
    Check(String),
    /// Packing or unpacking one into another place.
    Convert(String, String, bool),
}

/// What is asked for, as plain values.
pub ghost enum AskView {
    /// Opening a model and checking it.
    Check(Seq<char>),
    /// Packing or unpacking one into another place.
    Convert(Seq<char>, Seq<char>, bool),
}

impl View for Ask {
    type V = AskView;

    open spec fn view(&self) -> AskView {
        match self {
            Ask::Check(s) => AskView::Check(s@),
            Ask::Convert(s, d, f) => AskView::Convert(s@, d@, *f),
        }
    }
}

/// The first `n` arguments that are no options.
pub open spec fn paths(args: Seq<Seq<char>>, n: int) -> Seq<Seq<char>>
    decreases n,
{
    if n <= 0 {
        seq![]
    } else if has_at(args[n - 1], "--"@, 0) {
        paths(args, n - 1)
    } else {
        paths(args, n - 1).push(args[n - 1])
    }
}

/// What arguments ask for: one path to check, or a source and a target.
pub open spec fn asked(args: Seq<Seq<char>>) -> Option<AskView> {
    let p = paths(args, args.len() as int);
    if args.contains("--check"@) {
        if p.len() == 1 {
            Some(AskView::Check(p[0]))
        } else {
            None
        }
    } else if p.len() == 2 {
        Some(AskView::Convert(p[0], p[1], args.contains("--force"@)))
    } else {
        None
    }
}

/// Reads the arguments. Anything but the three forms of [`USAGE`] is `None`.
pub fn ask(args: &Vec<String>) -> (r: Option<Ask>)
    ensures
        match (r, asked(texts(args@))) {
            (Some(a), Some(w)) => a@ == w,
            (None, None) => true,
            _ => false,
        },
{
    let ghost all = texts(args@);
    let mut force = false;
    let mut check = false;
    let mut left: Vec<&str> = Vec::new();
    let mut i: usize = 0;
    while i < args.len()
        invariant
            i <= args@.len(),
            all == texts(args@),
            force == all.take(i as int).contains("--force"@),
            check == all.take(i as int).contains("--check"@),
            left@.len() == paths(all, i as int).len(),
            forall|k: int| 0 <= k < left@.len() ==> (#[trigger] left@[k])@ == paths(all, i as int)[k],
        decreases args@.len() - i,
    {
        let a = args[i].as_str();
        assert(all[i as int] == a@);
        proof {
            let was = all.take(i as int);
            let now = all.take(i + 1);
            assert(now =~= was.push(a@));
            assert forall|t: Seq<char>| #[trigger] now.contains(t) == (was.contains(t) || t == a@) by {
                if was.contains(t) {
                    let k = choose|k: int| 0 <= k < was.len() && was[k] == t;
                    assert(now[k] == t);
                }
                if t == a@ {
                    assert(now[i as int] == t);
                }
            }
        }
        if same(a, "--force") {
            force = true;
        }
        if same(a, "--check") {
            check = true;
        }
        if !starts_with(a, "--") {
            left.push(a);
        }
        i += 1;
    }
    assert(all.take(args@.len() as int) =~= all);
    if check {
        if left.len() == 1 {
            Some(Ask::Check(left[0].to_owned()))
        } else {
            None
        }
    } else if left.len() == 2 {
        Some(Ask::Convert(left[0].to_owned(), left[1].to_owned(), force))
    } else {
        None
    }
}

/// What is done with a target.
#[derive(Clone, Copy, Debug, PartialEq, Eq, Structural)]
pub enum Act {
    /// Unpack into a new folder.
    Unpack,
    /// Remove the folder and unpack into a new one.
    Replace,
    /// Pack beside the target and rename.
    Pack,
}

/// Refuses a target that is there, unless it may be replaced.
pub fn check_target(dst: &str, there: bool, force: bool) -> (r: Result<(), String>)
    ensures
        r is Err == (there && !force),
        r matches Err(e) ==> e@ == dst@ + " exists, pass --force to replace it"@,
{
    if there && !force {
        return Err(join2(dst, " exists, pass --force to replace it"));
    }
    Ok(())
}

/// What is done with a target: a packed model is unpacked, into a folder that is not there, and
/// any other packed.
pub fn act(packed: bool, there: bool) -> (r: Act)
    ensures
        r == if !packed {
            Act::Pack
        } else if there {
            Act::Replace
        } else {
            Act::Unpack
        },
{
    if !packed {
        Act::Pack
    } else if there {
        Act::Replace
    } else {
        Act::Unpack
    }
}

/// Where a model is packed before it is renamed, so that an interrupted pack never leaves a file
/// that looks complete.
pub fn partial(dst: &str) -> (r: String)
    ensures
        r@ == dst@ + ".partial"@,
        r@ != dst@,
{
    proof {
        reveal_strlit(".partial");
    }
    let r = join2(dst, ".partial");
    assert(r@.len() == dst@.len() + 8);
    r
}

/// Options may stand anywhere among the paths: the first path is the source and the second the
/// target, and a check takes one path.
pub proof fn options_stand_anywhere(src: Seq<char>, dst: Seq<char>)
    requires
        !has_at(src, "--"@, 0),
        !has_at(dst, "--"@, 0),
    ensures
        asked(seq![src, dst]) == Some(AskView::Convert(src, dst, false)),
        asked(seq![src, dst, "--force"@]) == Some(AskView::Convert(src, dst, true)),
        asked(seq![src, "--force"@, dst]) == Some(AskView::Convert(src, dst, true)),
        asked(seq!["--force"@, src, dst]) == Some(AskView::Convert(src, dst, true)),
        asked(seq!["--check"@, src]) == Some(AskView::Check(src)),
        asked(seq![src, "--check"@]) == Some(AskView::Check(src)),
        asked(seq!["--check"@, src, dst]) is None,
        asked(seq![src]) is None,
        asked(seq![src, dst, dst]) is None,
{
    reveal_strlit("--");
    reveal_strlit("--force");
    reveal_strlit("--check");
    assert("--force"@.subrange(0, 2) =~= "--"@);
    assert("--check"@.subrange(0, 2) =~= "--"@);
    assert("--force"@[2] == 'f' && "--check"@[2] == 'c');
    reveal_with_fuel(paths, 4);
    let a = seq![src, dst, "--force"@];
    assert(a[2] == "--force"@);
    let a = seq![src, "--force"@, dst];
    assert(a[1] == "--force"@);
    let a = seq!["--force"@, src, dst];
    assert(a[0] == "--force"@);
    let a = seq!["--check"@, src];
    assert(a[0] == "--check"@);
    let a = seq![src, "--check"@];
    assert(a[1] == "--check"@);
    let a = seq!["--check"@, src, dst];
    assert(a[0] == "--check"@);
}

} // verus!
