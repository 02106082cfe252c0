//! The subcommands of the `kime` binary.

use crate::hub::{debug_string, debug_text};
use crate::text::{chars_of, dec, decimal, has_at, join3, join5, join7, same, texts};
use vstd::prelude::*;

verus! {

/// What the first argument asks for.
#[derive(Clone, Copy, Debug, PartialEq, Eq, Structural)]
pub enum Command {
    /// The version.
    Version,
    /// What this machine offers.
    Doctor,
    /// Packing and unpacking models.
    Convert,
    /// Answering questions.
    Predict,
    /// Downloading a model.
    Pull,
    /// The server.
    Serve,
    /// The help text.
    Help,
    /// A command that is not there yet, by its place in [`planned`].
    Planned(usize),
    /// Anything else.
    Unknown,
}

/// A command that is not there yet: its name, what it is for, and the milestone that brings it.
pub type Plan = (&'static str, &'static str, &'static str);

/// The commands that are not there yet, as plain values.
pub open spec fn plans() -> Seq<(Seq<char>, Seq<char>, Seq<char>)> {
    seq![
        ("train"@, "fine tune a model on labelled decisions"@, "M5"@),
        ("calibrate"@, "fit temperatures on a labelled file"@, "M3"@),
        ("eval"@, "run the quality suites"@, "M2"@),
        ("bench"@, "run the speed suites"@, "M0"@),
        ("report"@, "build the scorecard from eval and bench output"@, "M5"@),
        ("models"@, "list cached and served models"@, "M1"@),
    ]
}

/// The commands that are not there yet.
pub fn planned() -> (r: [Plan; 6])
    ensures
        r@.len() == plans().len(),
        forall|i: int| #![trigger r@[i]]
            0 <= i < r@.len() ==> (r@[i].0@, r@[i].1@, r@[i].2@) == plans()[i],
{
    [
        ("train", "fine tune a model on labelled decisions", "M5"),
        ("calibrate", "fit temperatures on a labelled file", "M3"),
        ("eval", "run the quality suites", "M2"),
        ("bench", "run the speed suites", "M0"),
        ("report", "build the scorecard from eval and bench output", "M5"),
        ("models", "list cached and served models", "M1"),
    ]
}

/// The place of a command that is not there yet.
pub open spec fn planned_at(a: Seq<char>) -> Option<usize> {
    if a == "train"@ {
        Some(0)
    } else if a == "calibrate"@ {
        Some(1)
    } else if a == "eval"@ {
        Some(2)
    } else if a == "bench"@ {
        Some(3)
    } else if a == "report"@ {
        Some(4)
    } else if a == "models"@ {
        Some(5)
    } else {
        None
    }
}

/// What the first argument asks for.
pub open spec fn command_of(first: Option<Seq<char>>) -> Command {
    match first {
        None => Command::Help,
        Some(a) => if a == "--version"@ || a == "-V"@ || a == "version"@ {
            Command::Version
        } else if a == "doctor"@ {
            Command::Doctor
        } else if a == "convert"@ {
            Command::Convert
        } else if a == "predict"@ {
            Command::Predict
        } else if a == "pull"@ {
            Command::Pull
        } else if a == "serve"@ {
            Command::Serve
        } else if a == "--help"@ || a == "-h"@ || a == "help"@ {
            Command::Help
        } else {
            match planned_at(a) {
                Some(i) => Command::Planned(i),
                None => Command::Unknown,
            }
        },
    }
}

/// What the first argument asks for.
pub fn command(first: Option<&str>) -> (r: Command)
    ensures
        r == command_of(crate::hub::shown(first)),
{
    let a: &str = match first {
        Some(a) => a,
        None => return Command::Help,
    };
    if same(a, "--version") || same(a, "-V") || same(a, "version") {
        Command::Version
    } else if same(a, "doctor") {
        Command::Doctor
    } else if same(a, "convert") {
        Command::Convert
    } else if same(a, "predict") {
        Command::Predict
    } else if same(a, "pull") {
        Command::Pull
    } else if same(a, "serve") {
        Command::Serve
    } else if same(a, "--help") || same(a, "-h") || same(a, "help") {
        Command::Help
    } else if same(a, "train") {
        Command::Planned(0)
    } else if same(a, "calibrate") {
        Command::Planned(1)
    } else if same(a, "eval") {
        Command::Planned(2)
    } else if same(a, "bench") {
        Command::Planned(3)
    } else if same(a, "report") {
        Command::Planned(4)
    } else if same(a, "models") {
        Command::Planned(5)
    } else {
        Command::Unknown
    }
}

/// What is said of a command that is not there yet.
pub fn arrives(name: &str, milestone: &str) -> (r: String)
    ensures
        r@ == "kime "@ + name@ + " arrives at "@ + milestone@
            + ", see https://github.com/tamnd/kime/milestones"@,
{
    join5(
        "kime ",
        name,
        " arrives at ",
        milestone,
        ", see https://github.com/tamnd/kime/milestones",
    )
}

/// What is said of a command that is unknown.
pub fn unknown(name: &str) -> (r: String)
    ensures
        r@ == "kime: unknown command "@ + debug_text(name@) + ", try kime --help"@,
{
    join3("kime: unknown command ", debug_string(name).as_str(), ", try kime --help")
}

/// Blanks that fill a name to ten characters.
pub open spec fn padded(name: Seq<char>) -> Seq<char>
    decreases 10 - name.len(),
{
    if name.len() >= 10 {
        name
    } else {
        padded(name.push(' '))
    }
}

/// A name filled to ten characters.
fn pad(name: &str) -> (r: String)
    ensures
        r@ == padded(name@),
{
    let mut r = name.to_owned();
    let mut n: usize = chars_of(name).len();
    while n < 10
        invariant
            n == r@.len(),
            padded(r@) == padded(name@),
        decreases 10 - n,
    {
        r.push(' ');
        n += 1;
    }
    r
}

/// A line of the help text.
pub open spec fn help_line(name: Seq<char>, what: Seq<char>) -> Seq<char> {
    "  "@ + padded(name) + " "@ + what + "\n"@
}

/// The lines of the first `n` commands that are not there yet.
pub open spec fn plan_lines(n: int) -> Seq<char>
    decreases n,
{
    if n <= 0 {
        seq![]
    } else {
        let (name, what, milestone) = plans()[n - 1];
        plan_lines(n - 1) + help_line(name, what + " (arrives at "@ + milestone + ")"@)
    }
}

/// The help text of a version.
pub open spec fn help_text(version: Seq<char>) -> Seq<char> {
    "kime "@ + version + ": typed decisions over text\n\nusage: kime <command> [options]\n\n"@
        + help_line("doctor"@, "print what this machine offers kime"@) + help_line(
        "convert"@,
        "pack a Laya checkpoint to .kime, unpack one, or check one"@,
    ) + help_line("predict"@, "answer questions from the command line"@) + help_line(
        "pull"@,
        "download a model into the cache"@,
    ) + help_line("serve"@, "run the HTTP server"@) + plan_lines(plans().len() as int)
}

/// Appends a line of the help text.
fn put_line(out: &mut String, name: &str, what: &str)
    ensures
        final(out)@ == old(out)@ + help_line(name@, what@),
{
    let line = join5("  ", pad(name).as_str(), " ", what, "\n");
    out.append(line.as_str());
}

/// The help text of a version: the commands that work, and then those that are not there yet.
pub fn help(version: &str) -> (r: String)
    ensures
        r@ == help_text(version@),
{
    let mut r = join3(
        "kime ",
        version,
        ": typed decisions over text\n\nusage: kime <command> [options]\n\n",
    );
    put_line(&mut r, "doctor", "print what this machine offers kime");
    put_line(&mut r, "convert", "pack a Laya checkpoint to .kime, unpack one, or check one");
    put_line(&mut r, "predict", "answer questions from the command line");
    put_line(&mut r, "pull", "download a model into the cache");
    put_line(&mut r, "serve", "run the HTTP server");
    let ghost head = r@;
    let p = planned();
    let mut i: usize = 0;
    assert(r@ =~= head + plan_lines(0));
    while i < 6
        invariant
            i <= 6,
            p@.len() == 6,
            plans().len() == 6,
            forall|k: int| #![trigger p@[k]]
                0 <= k < p@.len() ==> (p@[k].0@, p@[k].1@, p@[k].2@) == plans()[k],
            r@ == head + plan_lines(i as int),
        decreases 6 - i,
    {
        let (name, what, milestone) = p[i];
        assert((p@[i as int].0@, p@[i as int].1@, p@[i as int].2@) == plans()[i as int]);
        let mut what = join3(what, " (arrives at ", milestone);
        what.append(")");
        put_line(&mut r, name, what.as_str());
        i += 1;
        assert(r@ =~= head + plan_lines(i as int));
    }
    r
}

/// Words with a blank between them.
pub open spec fn spaced(w: Seq<Seq<char>>, n: int) -> Seq<char>
    decreases n,
{
    if n <= 0 {
        seq![]
    } else if n == 1 {
        w[0]
    } else {
        spaced(w, n - 1) + " "@ + w[n - 1]
    }
}

/// What a machine offers: its system, threads and CPU features. One without any has the baseline.
pub open spec fn report(
    version: Seq<char>,
    os: Seq<char>,
    arch: Seq<char>,
    threads: nat,
    features: Seq<Seq<char>>,
) -> Seq<char> {
    "kime "@ + version + "\nos        "@ + os + "\narch      "@ + arch + "\nthreads   "@ + dec(
        threads,
    ) + "\ncpu       "@ + (if features.len() == 0 {
        "baseline"@
    } else {
        spaced(features, features.len() as int)
    }) + "\n"@
}

/// What a machine offers.
pub fn doctor(version: &str, os: &str, arch: &str, threads: usize, features: &Vec<String>) -> (r:
    String)
    ensures
        r@ == report(version@, os@, arch@, threads as nat, texts(features@)),
{
    let ghost f = texts(features@);
    let mut out = join7("kime ", version, "\nos        ", os, "\narch      ", arch, "\nthreads   ");
    out.append(decimal(threads as u64).as_str());
    out.append("\ncpu       ");
    let mut list = String::new();
    let mut i: usize = 0;
    assert(list@ =~= spaced(f, 0));
    while i < features.len()
        invariant
            i <= features@.len(),
            f == texts(features@),
            list@ == spaced(f, i as int),
        decreases features@.len() - i,
    {
        assert(f[i as int] == features@[i as int]@);
        if i > 0 {
            list.append(" ");
        }
        list.append(features[i].as_str());
        assert(i == 0 ==> list@ =~= f[0]);
        i += 1;
    }
    if features.len() == 0 {
        out.append("baseline");
    } else {
        out.append(list.as_str());
    }
    out.append("\n");
    out
}

/// A command that is not there yet is known by the name it is listed under, and no command that
/// works is listed so.
pub proof fn a_listed_command_is_known(i: int)
    requires
        0 <= i < plans().len(),
    ensures
        command_of(Some(plans()[i].0)) == Command::Planned(i as usize),
{
    reveal_strlit("--version");
    reveal_strlit("-V");
    reveal_strlit("version");
    reveal_strlit("doctor");
    reveal_strlit("convert");
    reveal_strlit("predict");
    reveal_strlit("pull");
    reveal_strlit("serve");
    reveal_strlit("--help");
    reveal_strlit("-h");
    reveal_strlit("help");
    reveal_strlit("train");
    reveal_strlit("calibrate");
    reveal_strlit("eval");
    reveal_strlit("bench");
    reveal_strlit("report");
    reveal_strlit("models");
    let a = plans()[i].0;
    assert(a[0] == 't' || a[0] == 'c' || a[0] == 'e' || a[0] == 'b' || a[0] == 'r' || a[0] == 'm');
    assert("calibrate"@[1] == 'a' && "convert"@[1] == 'o');
    assert("train"@[0] == 't' && "calibrate"@[0] == 'c' && "eval"@[0] == 'e');
    assert("bench"@[0] == 'b' && "report"@[0] == 'r' && "models"@[0] == 'm');
}

/// The descriptions of the help text stand in one column, behind the names.
pub proof fn descriptions_line_up(name: Seq<char>, what: Seq<char>)
    requires
        name.len() <= 10,
    ensures
        has_at(help_line(name, what), name, 2),
        has_at(help_line(name, what), what, 13),
        help_line(name, what).len() == what.len() + 14,
        help_line(name, what).last() == '\n',
        forall|i: int| name.len() + 2 <= i < 13 ==> help_line(name, what)[i] == ' ',
{
    reveal_strlit("  ");
    reveal_strlit(" ");
    reveal_strlit("\n");
    padded_behind(name);
    let line = help_line(name, what);
    let p = padded(name);
    assert(line.subrange(2, (2 + name.len()) as int) =~= p.take(name.len() as int));
    assert(line.subrange(13, (13 + what.len()) as int) =~= what);
}

/// A name is filled with blanks behind it.
proof fn padded_behind(name: Seq<char>)
    requires
        name.len() <= 10,
    ensures
        padded(name).len() == 10,
        padded(name).take(name.len() as int) == name,
        forall|i: int| name.len() <= i < 10 ==> padded(name)[i] == ' ',
    decreases 10 - name.len(),
{
    if name.len() < 10 {
        let more = name.push(' ');
        padded_behind(more);
        let p = padded(name);
        assert(p[name.len() as int] == p.take(more.len() as int)[name.len() as int]);
        assert(p.take(name.len() as int) =~= p.take(more.len() as int).take(name.len() as int));
        assert(more.take(name.len() as int) =~= name);
    } else {
        assert(name.take(10) =~= name);
    }
}

} // verus!
