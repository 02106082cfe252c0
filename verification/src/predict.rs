//! `kime predict`: its options, where a request is read from, and how answers are shown.

use crate::answer::{numbers_of, Answer, AnswerView};
use crate::args::{
    add_threads, device, device_named, number_error, parse_number, precision, precision_named,
    with_threads,
};
use crate::compact::{compact, to_compact};
use crate::engine::{Device, Precision};
use crate::hub::{debug_string, debug_text};
use crate::json::{entries, object_view, Json, Value};
use crate::request::{problem_json, problems_view, Problem, ProblemView};
use crate::settings::shown;
use crate::text::{
    chars_of, has_at, join2, parsed, piece, same, text_of, texts, trim, trim_end, trim_right,
    trimmed, white, Class,
};
use vstd::prelude::*;

verus! {

/// How the command is called.
pub const USAGE: &'static str = "usage: kime predict [--model laya] --state <text or @file> --questions <@file>
       kime predict [--model laya] --request <@file>
       kime predict [--model laya] --batch < requests.jsonl > responses.jsonl
options: --format json|table  --device auto|cpu|cuda[:N]  --threads N  --precision f16|f32|int8
A value starting with @ is read from that file, and @- from stdin.";

/// Requests handed to the engine at once from a stream.
pub const CHUNK: usize = 512;

/// The options of the command.
#[derive(Debug)]
pub struct Opts {
    /// The model.
    pub model: String,
    /// The state.
    pub state: Option<String>,
    /// The questions.
    pub questions: Option<String>,
    /// The whole request.
    pub request: Option<String>,
    /// Whether requests come as a stream.
    pub batch: bool,
    /// Whether answers are shown as a table.
    pub table: bool,
    /// Where the model runs.
    pub device: Device,
    /// The number format.
    pub precision: Precision,
}

/// Options, as plain values, with the threads asked for.
pub ghost struct OptsView {
    /// The model.
    pub model: Seq<char>,
    /// The state.
    pub state: Option<Seq<char>>,
    /// The questions.
    pub questions: Option<Seq<char>>,
    /// The whole request.
    pub request: Option<Seq<char>>,
    /// Whether requests come as a stream.
    pub batch: bool,
    /// Whether answers are shown as a table.
    pub table: bool,
    /// Where the model runs.
    pub device: Device,
    /// The number format.
    pub precision: Precision,
    /// The threads asked for.
    pub threads: Option<usize>,
}

/// Options as plain values.
pub open spec fn opts_view(o: Opts, threads: Option<usize>) -> OptsView {
    OptsView {
        model: o.model@,
        state: shown(o.state),
        questions: shown(o.questions),
        request: shown(o.request),
        batch: o.batch,
        table: o.table,
        device: o.device,
        precision: o.precision,
        threads,
    }
}

/// The options before any is given.
pub open spec fn default_opts() -> OptsView {
    OptsView {
        model: "laya"@,
        state: None,
        questions: None,
        request: None,
        batch: false,
        table: false,
        device: Device::Auto,
        precision: Precision::F16,
        threads: None,
    }
}

/// An option with a value, or what is wrong with it.
pub open spec fn with_value(o: OptsView, a: Seq<char>, v: Seq<char>) -> Result<OptsView, Seq<char>> {
    if a == "--model"@ {
        Ok(OptsView { model: v, ..o })
    } else if a == "--state"@ {
        Ok(OptsView { state: Some(v), ..o })
    } else if a == "--questions"@ {
        Ok(OptsView { questions: Some(v), ..o })
    } else if a == "--request"@ {
        Ok(OptsView { request: Some(v), ..o })
    } else if a == "--format"@ {
        if v == "table"@ {
            Ok(OptsView { table: true, ..o })
        } else if v == "json"@ {
            Ok(OptsView { table: false, ..o })
        } else {
            Err("unknown format "@ + debug_text(v))
        }
    } else if a == "--device"@ {
        match device_named(v) {
            Some(d) => Ok(OptsView { device: d, ..o }),
            None => Err("unknown device "@ + debug_text(v)),
        }
    } else if a == "--threads"@ {
        match parsed(v, usize::MAX as nat) {
            Some(n) => Ok(OptsView { threads: Some(n as usize), ..o }),
            None => Err("--threads: "@ + number_error(v, usize::MAX as nat)->0),
        }
    } else {
        match precision_named(v) {
            Some(p) => Ok(OptsView { precision: p, ..o }),
            None => Err("unknown precision "@ + debug_text(v)),
        }
    }
}

/// Whether an option takes a value.
pub open spec fn takes_value(a: Seq<char>) -> bool {
    a == "--model"@ || a == "--state"@ || a == "--questions"@ || a == "--request"@ || a
        == "--format"@ || a == "--device"@ || a == "--threads"@ || a == "--precision"@
}

/// The options from the `i`th argument on, with what those before gave. Threads are for the CPU.
pub open spec fn opts_from(args: Seq<Seq<char>>, i: int, o: OptsView) -> Result<OptsView, Seq<char>>
    decreases args.len() - i,
{
    if i >= args.len() {
        match with_threads(o.device, o.threads) {
            Some(d) => Ok(OptsView { device: d, ..o }),
            None => Err("--threads is for the CPU"@),
        }
    } else {
        let a = args[i];
        if a == "--batch"@ {
            opts_from(args, i + 1, OptsView { batch: true, ..o })
        } else if !takes_value(a) {
            Err("unknown option "@ + debug_text(a))
        } else if i + 1 >= args.len() {
            Err(a + " needs a value"@)
        } else {
            match with_value(o, a, args[i + 1]) {
                Ok(n) => opts_from(args, i + 2, n),
                Err(e) => Err(e),
            }
        }
    }
}

/// Whether an option takes a value.
fn wants_value(a: &str) -> (r: bool)
    ensures
        r == takes_value(a@),
{
    same(a, "--model") || same(a, "--state") || same(a, "--questions") || same(a, "--request")
        || same(a, "--format") || same(a, "--device") || same(a, "--threads") || same(
        a,
        "--precision",
    )
}

/// Sets an option with a value.
fn set_option(o: &mut Opts, threads: &mut Option<usize>, a: &str, v: &str) -> (r: Result<(), String>)
    requires
        takes_value(a@),
    ensures
        match (r, with_value(opts_view(*old(o), *old(threads)), a@, v@)) {
            (Ok(_), Ok(n)) => opts_view(*final(o), *final(threads)) == n,
            (Err(e), Err(m)) => e@ == m,
            _ => false,
        },
{
    if same(a, "--model") {
        o.model = v.to_owned();
    } else if same(a, "--state") {
        o.state = Some(v.to_owned());
    } else if same(a, "--questions") {
        o.questions = Some(v.to_owned());
    } else if same(a, "--request") {
        o.request = Some(v.to_owned());
    } else if same(a, "--format") {
        if same(v, "table") {
            o.table = true;
        } else if same(v, "json") {
            o.table = false;
        } else {
            return Err(join2("unknown format ", debug_string(v).as_str()));
        }
    } else if same(a, "--device") {
        match device(v) {
            Ok(d) => o.device = d,
            Err(e) => return Err(e),
        }
    } else if same(a, "--threads") {
        match parse_number(v, usize::MAX as u64) {
            Ok(n) => *threads = Some(n as usize),
            Err(e) => return Err(join2("--threads: ", e)),
        }
    } else {
        match precision(v) {
            Ok(p) => o.precision = p,
            Err(e) => return Err(e),
        }
    }
    Ok(())
}

/// Reads the options.
pub fn opts(args: &Vec<String>) -> (r: Result<Opts, String>)
    ensures
        match (r, opts_from(texts(args@), 0, default_opts())) {
            (Ok(o), Ok(w)) => opts_view(o, w.threads) == w,
            (Err(e), Err(m)) => e@ == m,
            _ => false,
        },
{
    let mut o = Opts {
        model: "laya".to_owned(),
        state: None,
        questions: None,
        request: None,
        batch: false,
        table: false,
        device: Device::Auto,
        precision: Precision::F16,
    };
    let mut threads: Option<usize> = None;
    let ghost all = texts(args@);
    let ghost whole = opts_from(all, 0, default_opts());
    let mut i: usize = 0;
    while i < args.len()
        invariant
            i <= args@.len(),
            all == texts(args@),
            whole == opts_from(all, 0, default_opts()),
            opts_from(all, i as int, opts_view(o, threads)) == whole,
        decreases args@.len() - i,
    {
        let a = args[i].as_str();
        assert(all[i as int] == a@);
        if same(a, "--batch") {
            o.batch = true;
            i += 1;
        } else if !wants_value(a) {
            return Err(join2("unknown option ", debug_string(a).as_str()));
        } else if i + 1 >= args.len() {
            return Err(join2(a, " needs a value"));
        } else {
            assert(all[i + 1] == args@[i + 1]@);
            if let Err(e) = set_option(&mut o, &mut threads, a, args[i + 1].as_str()) {
                return Err(e);
            }
            i += 2;
        }
    }
    match add_threads(o.device, threads) {
        Some(d) => {
            o.device = d;
            Ok(o)
        },
        None => Err("--threads is for the CPU".to_owned()),
    }
}

/// Where a request comes from.
#[derive(Debug)]
pub enum Source {
    /// A whole request.
    Request(String),
    /// A state and questions.
    Parts(String, String),
}

/// Where a request comes from: a whole one, or a state and questions, and nothing else beside.
pub fn source(o: &Opts) -> (r: Option<Source>)
    ensures
        match r {
            Some(Source::Request(x)) => shown(o.request) == Some(x@) && o.state is None
                && o.questions is None,
            Some(Source::Parts(s, q)) => o.request is None && shown(o.state) == Some(s@) && shown(
                o.questions,
            ) == Some(q@),
            None => !(o.request is Some && o.state is None && o.questions is None) && !(o.request
                is None && o.state is Some && o.questions is Some),
        },
{
    match (&o.request, &o.state, &o.questions) {
        (Some(r), None, None) => Some(Source::Request(r.as_str().to_owned())),
        (None, Some(s), Some(q)) => Some(
            Source::Parts(s.as_str().to_owned(), q.as_str().to_owned()),
        ),
        _ => None,
    }
}

/// Where an argument's text is.
#[derive(Debug)]
pub enum Place {
    /// On the standard input.
    Stdin,
    /// In a file.
    File(String),
    /// In the argument itself.
    Here(String),
}

/// Where an argument's text is: `@-` is the standard input, `@path` a file, and anything else the
/// text itself.
pub fn place(arg: &str) -> (r: Place)
    ensures
        match r {
            Place::Stdin => arg@ == seq!['@', '-'],
            Place::File(p) => arg@ != seq!['@', '-'] && arg@ == seq!['@'] + p@,
            Place::Here(t) => t@ == arg@ && !(arg@.len() > 0 && arg@[0] == '@'),
        },
{
    let cs = chars_of(arg);
    if cs.len() == 0 || cs[0] != '@' {
        return Place::Here(arg.to_owned());
    }
    if cs.len() == 2 && cs[1] == '-' {
        assert(arg@ =~= seq!['@', '-']);
        return Place::Stdin;
    }
    let rest = piece(&cs, 1, cs.len());
    assert(arg@ =~= seq!['@'] + rest@);
    Place::File(text_of(&rest))
}

/// The state: one read from a file is JSON when it parses as JSON, and any other is its text.
/// `parsed` is what the text parses to.
pub fn state_of(arg: &str, text: &str, parsed: Option<Json>) -> (r: Json)
    ensures
        r@ == (match parsed {
            Some(j) => if arg@.len() > 0 && arg@[0] == '@' {
                j@
            } else {
                Value::Str(text@)
            },
            None => Value::Str(text@),
        }),
{
    let cs = chars_of(arg);
    match parsed {
        Some(j) => if cs.len() > 0 && cs[0] == '@' {
            j
        } else {
            Json::Str(text.to_owned())
        },
        None => Json::Str(text.to_owned()),
    }
}

/// The body of a request for a state and questions.
pub fn body_of(state: Json, questions: Json) -> (r: Json)
    ensures
        r@ == Value::Object(seq![("state"@, state@), ("questions"@, questions@)]),
{
    let ghost w = seq![("state"@, state@), ("questions"@, questions@)];
    let mut m: Vec<(String, Json)> = Vec::new();
    m.push(("state".to_owned(), state));
    m.push(("questions".to_owned(), questions));
    proof {
        object_view(m);
        assert(entries(m@) =~= w);
    }
    Json::Object(m)
}

/// Whether a line of a stream is left out.
pub fn is_blank(line: &str) -> (r: bool)
    ensures
        r == (trimmed(line@, Class::White).len() == 0),
{
    trim(&chars_of(line), Class::White).len() == 0
}

/// The first `n` problems as JSON with commas between them.
pub open spec fn listed(p: Seq<ProblemView>, n: int) -> Seq<char>
    decreases n,
{
    if n <= 0 {
        seq![]
    } else if n == 1 {
        compact(problem_json(p[0]))
    } else {
        listed(p, n - 1) + ", "@ + compact(problem_json(p[n - 1]))
    }
}

/// The message for a request that does not validate.
pub fn problems(p: &Vec<Problem>) -> (r: String)
    ensures
        r@ == "invalid request: "@ + listed(problems_view(p@), p@.len() as int),
{
    let mut out = "invalid request: ".to_owned();
    let ghost pv = problems_view(p@);
    let ghost head = out@;
    let mut i: usize = 0;
    assert(out@ =~= head + listed(pv, 0));
    while i < p.len()
        invariant
            i <= p@.len(),
            pv == problems_view(p@),
            out@ == head + listed(pv, i as int),
        decreases p@.len() - i,
    {
        assert(pv[i as int] == p@[i as int]@);
        if i > 0 {
            out.append(", ");
        }
        out.append(to_compact(&p[i].to_json()).as_str());
        i += 1;
        assert(out@ =~= head + listed(pv, i as int));
    }
    out
}

/// How many of the first `n` lines hold a request.
pub open spec fn good_before(errors: Seq<Option<String>>, n: int) -> int
    decreases n,
{
    if n <= 0 {
        0
    } else {
        good_before(errors, n - 1) + (if errors[n - 1] is None {
            1int
        } else {
            0
        })
    }
}

/// Fewer lines hold no more requests.
proof fn good_grows(errors: Seq<Option<String>>, m: int, n: int)
    requires
        0 <= m <= n,
    ensures
        0 <= good_before(errors, m) <= good_before(errors, n),
        good_before(errors, m) <= m,
    decreases n,
{
    if m < n {
        good_grows(errors, m, n - 1);
    } else if m > 0 {
        good_grows(errors, m - 1, n - 1);
    }
}

/// Puts answers back on the lines their requests came on: a line that holds no request gets
/// `{"error": ...}`, and every other the next answer.
pub fn output_lines(errors: &Vec<Option<String>>, answers: &Vec<Json>) -> (r: Vec<Json>)
    requires
        answers@.len() == good_before(errors@, errors@.len() as int),
    ensures
        r@.len() == errors@.len(),
        forall|i: int| #![trigger r@[i]]
            0 <= i < r@.len() ==> r@[i]@ == (match errors@[i] {
                Some(e) => Value::Object(seq![("error"@, Value::Str(e@))]),
                None => answers@[good_before(errors@, i)]@,
            }),
{
    let mut out: Vec<Json> = Vec::new();
    let mut next: usize = 0;
    let mut i: usize = 0;
    while i < errors.len()
        invariant
            i <= errors@.len(),
            answers@.len() == good_before(errors@, errors@.len() as int),
            next == good_before(errors@, i as int),
            out@.len() == i,
            forall|k: int| #![trigger out@[k]]
                0 <= k < i ==> out@[k]@ == (match errors@[k] {
                    Some(e) => Value::Object(seq![("error"@, Value::Str(e@))]),
                    None => answers@[good_before(errors@, k)]@,
                }),
        decreases errors@.len() - i,
    {
        proof {
            good_grows(errors@, i + 1, errors@.len() as int);
        }
        match &errors[i] {
            Some(e) => {
                let mut m: Vec<(String, Json)> = Vec::new();
                m.push(("error".to_owned(), Json::Str(e.as_str().to_owned())));
                proof {
                    object_view(m);
                    assert(entries(m@) =~= seq![("error"@, Value::Str(e@))]);
                }
                out.push(Json::Object(m));
            },
            None => {
                out.push(answers[next].copy());
                next += 1;
            },
        }
        i += 1;
    }
    out
}

/// A row of the table: the question, the answer, the confidence and the act probability.
#[derive(Debug)]
pub struct Row {
    /// The question.
    pub id: String,
    /// The answer.
    pub answer: String,
    /// The confidence.
    pub confidence: String,
    /// The act probability.
    pub act: String,
}

/// The row of an answer. `numbers` is what [`Answer::numbers`] gives, each as it is shown.
pub fn row(id: &str, a: &Answer, numbers: &Vec<String>) -> (r: Row)
    requires
        numbers@.len() == numbers_of(a@).len(),
    ensures
        r.id@ == id@,
        r.answer@ == (match a@ {
            AnswerView::Choice(c, _, _, _) => c,
            _ => numbers@[0]@,
        }),
        r.confidence@ == numbers@[numbers@.len() - 2]@,
        r.act@ == numbers@[numbers@.len() - 1]@,
{
    let n: usize = numbers.len();
    let answer = match a {
        Answer::Choice { choice, .. } => choice.as_str().to_owned(),
        _ => numbers[0].as_str().to_owned(),
    };
    Row {
        id: id.to_owned(),
        answer,
        confidence: numbers[n - 2].as_str().to_owned(),
        act: numbers[n - 1].as_str().to_owned(),
    }
}

/// `n` blanks.
pub open spec fn blanks(n: int) -> Seq<char> {
    Seq::new(
        (if n > 0 {
            n
        } else {
            0
        }) as nat,
        |i: int| ' ',
    )
}

/// The widest of some texts and `at_least`.
pub open spec fn widest(v: Seq<Seq<char>>, at_least: int, n: int) -> int
    decreases n,
{
    if n <= 0 {
        at_least
    } else {
        let w = widest(v, at_least, n - 1);
        if v[n - 1].len() > w {
            v[n - 1].len() as int
        } else {
            w
        }
    }
}

/// One line: two columns to the left and two to the right, with two blanks between them, and
/// nothing but text at the end.
pub open spec fn line_of(a: Seq<char>, b: Seq<char>, c: Seq<char>, d: Seq<char>, w: (int, int, int, int)) -> Seq<
    char,
> {
    trim_end(
        a + blanks(w.0 - a.len()) + "  "@ + b + blanks(w.1 - b.len()) + "  "@ + blanks(
            w.2 - c.len(),
        ) + c + "  "@ + blanks(w.3 - d.len()) + d,
        Class::White,
    ).push('\n')
}

/// The columns of rows.
pub open spec fn columns(rows: Seq<Row>) -> (Seq<Seq<char>>, Seq<Seq<char>>, Seq<Seq<char>>, Seq<Seq<char>>) {
    (
        Seq::new(rows.len(), |i: int| rows[i].id@),
        Seq::new(rows.len(), |i: int| rows[i].answer@),
        Seq::new(rows.len(), |i: int| rows[i].confidence@),
        Seq::new(rows.len(), |i: int| rows[i].act@),
    )
}

/// The widths of the columns, their heads counted.
pub open spec fn widths(rows: Seq<Row>) -> (int, int, int, int) {
    let (a, b, c, d) = columns(rows);
    let n = rows.len() as int;
    (
        widest(a, "question"@.len() as int, n),
        widest(b, "answer"@.len() as int, n),
        widest(c, "confidence"@.len() as int, n),
        widest(d, "act"@.len() as int, n),
    )
}

/// The first `n` lines below the head.
pub open spec fn lines_of(rows: Seq<Row>, w: (int, int, int, int), n: int) -> Seq<char>
    decreases n,
{
    if n <= 0 {
        seq![]
    } else {
        let r = rows[n - 1];
        lines_of(rows, w, n - 1) + line_of(r.id@, r.answer@, r.confidence@, r.act@, w)
    }
}

/// Appends blanks.
fn push_blanks(out: &mut String, n: usize)
    ensures
        final(out)@ == old(out)@ + blanks(n as int),
{
    let ghost before = out@;
    let mut i: usize = 0;
    assert(out@ =~= before + blanks(0));
    while i < n
        invariant
            i <= n,
            out@ == before + blanks(i as int),
        decreases n - i,
    {
        out.push(' ');
        i += 1;
        assert(out@ =~= before + blanks(i as int));
    }
}

/// Characters of a text.
fn width(s: &str) -> (n: usize)
    ensures
        n == s@.len(),
{
    chars_of(s).len()
}

/// Characters missing to a width.
fn missing(w: usize, s: &str) -> (n: usize)
    ensures
        blanks(n as int) == blanks(w - s@.len()),
{
    let k: usize = width(s);
    if k < w {
        w - k
    } else {
        assert(blanks(0) =~= blanks(w - s@.len()));
        0
    }
}

/// One line of the table.
fn make_line(a: &str, b: &str, c: &str, d: &str, w: (usize, usize, usize, usize)) -> (r: String)
    ensures
        r@ == line_of(a@, b@, c@, d@, (w.0 as int, w.1 as int, w.2 as int, w.3 as int)),
{
    let mut s = a.to_owned();
    push_blanks(&mut s, missing(w.0, a));
    s.append("  ");
    s.append(b);
    push_blanks(&mut s, missing(w.1, b));
    s.append("  ");
    push_blanks(&mut s, missing(w.2, c));
    s.append(c);
    s.append("  ");
    push_blanks(&mut s, missing(w.3, d));
    s.append(d);
    let mut out = text_of(&trim_right(&chars_of(s.as_str()), Class::White));
    out.push('\n');
    out
}

/// The larger of two.
fn larger(a: usize, b: usize) -> (r: usize)
    ensures
        r == if b > a {
            b
        } else {
            a
        },
{
    if b > a {
        b
    } else {
        a
    }
}

/// A table of answers under a head, with every column as wide as its widest cell.
pub fn table(rows: &Vec<Row>) -> (r: String)
    ensures
        ({
            let w = widths(rows@);
            r@ == line_of("question"@, "answer"@, "confidence"@, "act"@, w) + lines_of(
                rows@,
                w,
                rows@.len() as int,
            )
        }),
{
    let (mut a, mut b, mut c, mut d): (usize, usize, usize, usize) = (
        width("question"),
        width("answer"),
        width("confidence"),
        width("act"),
    );
    let ghost (ca, cb, cc, cd) = columns(rows@);
    let mut i: usize = 0;
    while i < rows.len()
        invariant
            i <= rows@.len(),
            (ca, cb, cc, cd) == columns(rows@),
            a == widest(ca, "question"@.len() as int, i as int),
            b == widest(cb, "answer"@.len() as int, i as int),
            c == widest(cc, "confidence"@.len() as int, i as int),
            d == widest(cd, "act"@.len() as int, i as int),
        decreases rows@.len() - i,
    {
        let x = &rows[i];
        a = larger(a, width(x.id.as_str()));
        b = larger(b, width(x.answer.as_str()));
        c = larger(c, width(x.confidence.as_str()));
        d = larger(d, width(x.act.as_str()));
        i += 1;
    }
    let ghost w = widths(rows@);
    let mut out = make_line("question", "answer", "confidence", "act", (a, b, c, d));
    let ghost head = out@;
    let mut k: usize = 0;
    assert(out@ =~= head + lines_of(rows@, w, 0));
    while k < rows.len()
        invariant
            k <= rows@.len(),
            w == (a as int, b as int, c as int, d as int),
            out@ == head + lines_of(rows@, w, k as int),
        decreases rows@.len() - k,
    {
        let x = &rows[k];
        let line = make_line(
            x.id.as_str(),
            x.answer.as_str(),
            x.confidence.as_str(),
            x.act.as_str(),
            (a, b, c, d),
        );
        out.append(line.as_str());
        k += 1;
        assert(out@ =~= head + lines_of(rows@, w, k as int));
    }
    out
}

/// A column is wide enough for its head and every cell, and no wider than one of them.
pub proof fn a_column_fits_its_cells(v: Seq<Seq<char>>, head: int, n: int)
    requires
        0 <= n <= v.len(),
    ensures
        head <= widest(v, head, n),
        forall|i: int| 0 <= i < n ==> (#[trigger] v[i]).len() <= widest(v, head, n),
        widest(v, head, n) == head || exists|i: int|
            0 <= i < n && (#[trigger] v[i]).len() == widest(v, head, n),
    decreases n,
{
    if n > 0 {
        a_column_fits_its_cells(v, head, n - 1);
        let w = widest(v, head, n - 1);
        if v[n - 1].len() <= w && w != head {
            let i = choose|i: int| 0 <= i < n - 1 && (#[trigger] v[i]).len() == w;
            assert(v[i].len() == widest(v, head, n));
        }
    }
}

/// The cells of a line stand in their columns: the question and the answer at the left of theirs,
/// the confidence and the act probability at the right of theirs, with two blanks between columns.
pub proof fn cells_stand_in_their_columns(
    a: Seq<char>,
    b: Seq<char>,
    c: Seq<char>,
    d: Seq<char>,
    w: (int, int, int, int),
)
    requires
        a.len() <= w.0 && b.len() <= w.1 && c.len() <= w.2 && d.len() <= w.3,
        d.len() > 0 && !white(d.last()),
    ensures
        ({
            let line = line_of(a, b, c, d, w);
            let (x, y, z) = (w.0 + 2, w.0 + w.1 + 4, w.0 + w.1 + w.2 + 6);
            &&& line.len() == z + w.3 + 1
            &&& line.last() == '\n'
            &&& has_at(line, a, 0)
            &&& has_at(line, b, x)
            &&& has_at(line, c, y + w.2 - c.len())
            &&& has_at(line, d, z + w.3 - d.len())
            &&& line[x - 1] == ' ' && line[x - 2] == ' ' || a.len() == w.0 && line[x - 1] == ' '
        }),
{
    reveal_strlit("  ");
    let all = a + blanks(w.0 - a.len()) + "  "@ + b + blanks(w.1 - b.len()) + "  "@ + blanks(
        w.2 - c.len(),
    ) + c + "  "@ + blanks(w.3 - d.len()) + d;
    assert(all.last() == d.last());
    let line = line_of(a, b, c, d, w);
    assert(line == all.push('\n'));
    let (x, y, z) = (w.0 + 2, w.0 + w.1 + 4, w.0 + w.1 + w.2 + 6);
    assert(line.subrange(0, a.len() as int) =~= a);
    assert(line.subrange(x, x + b.len()) =~= b);
    let k = y + w.2 - c.len();
    assert(line.subrange(k, k + c.len()) =~= c);
    let k = z + w.3 - d.len();
    assert(line.subrange(k, k + d.len()) =~= d);
}

/// Every answer goes to the line of one request, and the answers keep their order.
pub proof fn answers_keep_their_order(errors: Seq<Option<String>>, i: int, k: int)
    requires
        0 <= i < k < errors.len(),
        errors[i] is None,
        errors[k] is None,
    ensures
        0 <= good_before(errors, i) < good_before(errors, k) < good_before(
            errors,
            errors.len() as int,
        ),
{
    good_grows(errors, i, i);
    good_grows(errors, i + 1, k);
    good_grows(errors, k + 1, errors.len() as int);
}

/// Every answer has its line.
pub proof fn every_answer_has_its_line(errors: Seq<Option<String>>, n: int, j: int)
    requires
        0 <= n <= errors.len(),
        0 <= j < good_before(errors, n),
    ensures
        exists|i: int| 0 <= i < n && errors[i] is None && #[trigger] good_before(errors, i) == j,
    decreases n,
{
    if n > 0 {
        if j < good_before(errors, n - 1) {
            every_answer_has_its_line(errors, n - 1, j);
            let i = choose|i: int|
                0 <= i < n - 1 && errors[i] is None && #[trigger] good_before(errors, i) == j;
            assert(0 <= i < n && errors[i] is None && good_before(errors, i) == j);
        } else {
            assert(0 <= n - 1 < n && errors[n - 1] is None && good_before(errors, n - 1) == j);
        }
    }
}

/// An option with a value sets what it is named after, and nothing else.
pub proof fn an_option_sets_its_own(o: OptsView, v: Seq<char>)
    ensures
        with_value(o, "--model"@, v) == Ok::<_, Seq<char>>(OptsView { model: v, ..o }),
        with_value(o, "--state"@, v) == Ok::<_, Seq<char>>(OptsView { state: Some(v), ..o }),
        with_value(o, "--questions"@, v) == Ok::<_, Seq<char>>(
            OptsView { questions: Some(v), ..o },
        ),
        with_value(o, "--request"@, v) == Ok::<_, Seq<char>>(OptsView { request: Some(v), ..o }),
        with_value(o, "--format"@, "table"@) == Ok::<_, Seq<char>>(OptsView { table: true, ..o }),
        with_value(o, "--format"@, "json"@) == Ok::<_, Seq<char>>(OptsView { table: false, ..o }),
        with_value(o, "--device"@, v) matches Ok(n) ==> n == (OptsView { device: n.device, ..o })
            && device_named(v) == Some(n.device),
        with_value(o, "--threads"@, v) matches Ok(n) ==> n == (OptsView { threads: n.threads, ..o })
            && parsed(v, usize::MAX as nat) == Some(n.threads->0 as nat),
        with_value(o, "--precision"@, v) matches Ok(n) ==> n == (OptsView {
            precision: n.precision,
            ..o
        }) && precision_named(v) == Some(n.precision),
{
    names_differ();
}

/// The options have different names.
proof fn names_differ()
    ensures
        "--model"@ != "--state"@,
        "--model"@ != "--questions"@ && "--state"@ != "--questions"@,
        "--model"@ != "--request"@ && "--state"@ != "--request"@ && "--questions"@ != "--request"@,
        "--model"@ != "--format"@ && "--state"@ != "--format"@ && "--questions"@ != "--format"@
            && "--request"@ != "--format"@,
        "--model"@ != "--device"@ && "--state"@ != "--device"@ && "--questions"@ != "--device"@
            && "--request"@ != "--device"@ && "--format"@ != "--device"@,
        "--model"@ != "--threads"@ && "--state"@ != "--threads"@ && "--questions"@ != "--threads"@
            && "--request"@ != "--threads"@ && "--format"@ != "--threads"@ && "--device"@
            != "--threads"@,
        "--model"@ != "--precision"@ && "--state"@ != "--precision"@ && "--questions"@
            != "--precision"@ && "--request"@ != "--precision"@ && "--format"@ != "--precision"@
            && "--device"@ != "--precision"@ && "--threads"@ != "--precision"@,
        "json"@ != "table"@,
{
    reveal_strlit("--model");
    reveal_strlit("--state");
    reveal_strlit("--questions");
    reveal_strlit("--request");
    reveal_strlit("--format");
    reveal_strlit("--device");
    reveal_strlit("--threads");
    reveal_strlit("--precision");
    reveal_strlit("json");
    reveal_strlit("table");
    assert("--model"@[2] == 'm');
    assert("--state"@[2] == 's');
    assert("--questions"@[2] == 'q');
    assert("--request"@[2] == 'r');
    assert("--format"@[2] == 'f');
    assert("--device"@[2] == 'd');
    assert("--threads"@[2] == 't');
    assert("--precision"@[2] == 'p');
    assert("json"@.len() == 4 && "table"@.len() == 5);
}

/// Of an option that is given twice the later value stays.
pub proof fn the_later_option_stays(o: OptsView, a: Seq<char>, v: Seq<char>, w: Seq<char>)
    requires
        takes_value(a),
        with_value(o, a, v) is Ok,
    ensures
        with_value(with_value(o, a, v)->Ok_0, a, w) == with_value(o, a, w),
{
}

} // verus!
