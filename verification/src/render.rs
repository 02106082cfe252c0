//! The text a compat model reads for a question, before tokenizing. A single differing space
//! changes the token ids, so every piece is pinned down here.

use crate::json::{Json, Value};
use crate::pyjson::{dumps, Dumps};
use crate::request::{
    maybe, options_view, Criteria, CriteriaView, OptionView, QType, Question, QuestionView,
};
use crate::text::{
    dec, dec_reads, decimal, has_at, is_digit, join2, join3, replace, replaced, replaced_absent,
    replaced_is_gone, texts,
};
use vstd::prelude::*;

verus! {

/// What false means when a noul question does not say.
pub const NOUL_FALSE: &'static str = "no, the statement does not hold";

/// What true means when a noul question does not say.
pub const NOUL_TRUE: &'static str = "yes, the statement holds";

/// The text of one compat question. Every piece has had the tokenizer's mask literal replaced by a
/// space, so user text cannot forge a marker.
#[derive(Debug, Clone, PartialEq, Eq)]
pub struct CompatText {
    /// `"<type> question: <instructions>"`.
    pub head: String,
    /// One per option, in option order, each with a leading space.
    pub options: Vec<String>,
}

/// The text of a criterion: strings as they are, anything else as JSON with raw Unicode.
pub open spec fn criterion_text(v: Value) -> Seq<char> {
    match v {
        Value::Str(s) => s,
        other => dumps(other, false),
    }
}

/// The text of instructions: strings as they are, anything else as JSON in ASCII, and nothing when
/// they were left out.
pub open spec fn instructions_text(v: Option<Value>) -> Seq<char> {
    match v {
        None => seq![],
        Some(Value::Str(s)) => s,
        Some(other) => dumps(other, true),
    }
}

/// The text of a choice option: its label, with its description unless that is null or empty.
pub open spec fn option_text(o: OptionView) -> Seq<char> {
    match o.description {
        None => o.label,
        Some(Value::Str(s)) => if s.len() == 0 {
            o.label
        } else {
            o.label + ": "@ + s
        },
        Some(v) => o.label + ": "@ + criterion_text(v),
    }
}

/// What one side of a noul question means, by default when it is missing, null or empty.
pub open spec fn side_text(v: Option<Value>, default: Seq<char>) -> Seq<char> {
    match v {
        None => default,
        Some(Value::Null) => default,
        Some(Value::Str(s)) => if s.len() == 0 {
            default
        } else {
            s
        },
        Some(v) => criterion_text(v),
    }
}

/// The texts of the options of a question.
pub open spec fn option_texts(c: CriteriaView) -> Seq<Seq<char>> {
    match c {
        CriteriaView::Choice(o) => Seq::new(o.len(), |i: int| option_text(o[i])),
        CriteriaView::Score(l) => Seq::new(
            l.len(),
            |i: int| "level "@ + dec(i as nat) + ": "@ + criterion_text(l[i]),
        ),
        CriteriaView::Noul(f, t) => seq![
            "false: "@ + side_text(f, NOUL_FALSE@),
            "true: "@ + side_text(t, NOUL_TRUE@),
        ],
    }
}

/// The head of a question before its instructions.
pub open spec fn head_start(q: QuestionView) -> Seq<char> {
    q.qtype.name() + " question: "@
}

/// The text of a criterion.
pub fn criterion(v: &Json) -> (r: String)
    ensures
        r@ == criterion_text(v@),
{
    match v {
        Json::Str(s) => s.as_str().to_owned(),
        other => (Dumps { ensure_ascii: false }).to_string(other),
    }
}

/// What one side of a noul question means.
fn side(v: &Option<Json>, default: &str) -> (r: String)
    ensures
        r@ == side_text(maybe(*v), default@),
{
    match v {
        None => default.to_owned(),
        Some(v) => match v {
            Json::Null => default.to_owned(),
            Json::Str(s) => {
                if s.as_str().is_empty() {
                    default.to_owned()
                } else {
                    s.as_str().to_owned()
                }
            },
            other => criterion(other),
        },
    }
}

/// The texts of the options of a question, without the leading space and the mask replacement.
pub fn compat_options(c: &Criteria) -> (r: Vec<String>)
    ensures
        texts(r@) == option_texts(c@),
{
    let mut out: Vec<String> = Vec::new();
    match c {
        Criteria::Choice(opts) => {
            let ghost o = options_view(opts@);
            let mut i: usize = 0;
            while i < opts.len()
                invariant
                    i <= opts@.len(),
                    o == options_view(opts@),
                    texts(out@) == Seq::new(i as nat, |i: int| option_text(o[i])),
                decreases opts@.len() - i,
            {
                let ghost before = texts(out@);
                let label = opts[i].label.as_str();
                let t = match &opts[i].description {
                    None => label.to_owned(),
                    Some(v) => match v {
                        Json::Str(s) => {
                            if s.as_str().is_empty() {
                                label.to_owned()
                            } else {
                                join3(label, ": ", s.as_str())
                            }
                        },
                        other => join3(label, ": ", criterion(other).as_str()),
                    },
                };
                assert(t@ == option_text(o[i as int]));
                let ghost shown = t@;
                out.push(t);
                i += 1;
                assert(texts(out@) =~= before.push(shown));
                assert(texts(out@) =~= Seq::new(i as nat, |i: int| option_text(o[i])));
            }
            assert(texts(out@) =~= option_texts(c@));
        },
        Criteria::Score(levels) => {
            let ghost l = crate::json::values(levels@);
            let mut i: usize = 0;
            while i < levels.len()
                invariant
                    i <= levels@.len(),
                    l == crate::json::values(levels@),
                    texts(out@) == Seq::new(
                        i as nat,
                        |i: int| "level "@ + dec(i as nat) + ": "@ + criterion_text(l[i]),
                    ),
                decreases levels@.len() - i,
            {
                let ghost before = texts(out@);
                let mut t = join3("level ", decimal(i as u64).as_str(), ": ");
                t.append(criterion(&levels[i]).as_str());
                let ghost shown = t@;
                out.push(t);
                i += 1;
                assert(texts(out@) =~= before.push(shown));
                assert(texts(out@) =~= Seq::new(
                    i as nat,
                    |i: int| "level "@ + dec(i as nat) + ": "@ + criterion_text(l[i]),
                ));
            }
            assert(texts(out@) =~= option_texts(c@));
        },
        Criteria::Noul { when_false, when_true } => {
            out.push(join2("false: ", side(when_false, NOUL_FALSE).as_str()));
            out.push(join2("true: ", side(when_true, NOUL_TRUE).as_str()));
            assert(texts(out@) =~= option_texts(c@));
        },
    }
    out
}

/// Renders a question. `mask` is the tokenizer's mask literal.
pub fn compat_question(q: &Question, mask: &str) -> (r: CompatText)
    ensures
        r.head@ == head_start(q@) + replaced(instructions_text(q@.instructions), mask@, seq![' ']),
        texts(r.options@) == Seq::new(
            option_texts(q@.criteria).len(),
            |i: int|
                seq![' '] + replaced(option_texts(q@.criteria)[i], mask@, seq![' ']),
        ),
{
    let ins = match &q.instructions {
        None => String::new(),
        Some(v) => match v {
            Json::Str(s) => s.as_str().to_owned(),
            other => (Dumps { ensure_ascii: true }).to_string(other),
        },
    };
    assert(ins@ == instructions_text(q@.instructions));
    proof {
        reveal_strlit(" ");
        assert(" "@ =~= seq![' ']);
    }
    let mut head = join2(q.qtype.as_str(), " question: ");
    head.append(replace(ins.as_str(), mask, " ").as_str());
    let plain = compat_options(&q.criteria);
    let ghost all = option_texts(q@.criteria);
    let mut options: Vec<String> = Vec::new();
    let mut i: usize = 0;
    while i < plain.len()
        invariant
            i <= plain@.len(),
            texts(plain@) == all,
            " "@ == seq![' '],
            texts(options@) == Seq::new(
                i as nat,
                |i: int| seq![' '] + replaced(all[i], mask@, seq![' ']),
            ),
        decreases plain@.len() - i,
    {
        let ghost before = texts(options@);
        assert(all[i as int] == plain@[i as int]@);
        let t = join2(" ", replace(plain[i].as_str(), mask, " ").as_str());
        let ghost shown = t@;
        options.push(t);
        i += 1;
        assert(texts(options@) =~= before.push(shown));
        assert(texts(options@) =~= Seq::new(
            i as nat,
            |i: int| seq![' '] + replaced(all[i], mask@, seq![' ']),
        ));
    }
    assert(texts(plain@).len() == plain@.len());
    CompatText { head, options }
}

/// The text of a state: a string as it is and anything else as JSON with raw Unicode, with the mask
/// replaced.
pub fn compat_state(state: &Json, mask: &str) -> (r: String)
    ensures
        r@ == replaced(criterion_text(state@), mask@, seq![' ']),
{
    proof {
        reveal_strlit(" ");
        assert(" "@ =~= seq![' ']);
    }
    let s = criterion(state);
    replace(s.as_str(), mask, " ")
}

/// User text cannot forge a marker: a mask literal without spaces is nowhere in a rendered state
/// or option, and in a head only where the words of the head themselves have it.
pub proof fn text_cannot_forge_a_marker(q: QuestionView, state: Value, mask: Seq<char>, i: int, k: int)
    requires
        mask.len() > 0,
        !mask.contains(' '),
        0 <= k < option_texts(q.criteria).len(),
    ensures
        !has_at(replaced(criterion_text(state), mask, seq![' ']), mask, i),
        !has_at(
            seq![' '] + replaced(option_texts(q.criteria)[k], mask, seq![' ']),
            mask,
            i,
        ),
        has_at(
            head_start(q) + replaced(instructions_text(q.instructions), mask, seq![' ']),
            mask,
            i,
        ) ==> has_at(head_start(q), mask, i),
{
    replaced_is_gone(criterion_text(state), mask, i);
    let m = mask.len() as int;
    let body = replaced(option_texts(q.criteria)[k], mask, seq![' ']);
    let option = seq![' '] + body;
    if has_at(option, mask, i) {
        let found = option.subrange(i, i + m);
        if i == 0 {
            assert(found[0] == ' ');
            assert(mask[0] == ' ');
        } else {
            replaced_is_gone(option_texts(q.criteria)[k], mask, i - 1);
            assert(body.subrange(i - 1, i - 1 + m) =~= found);
        }
    }
    let start = head_start(q);
    let n = start.len() as int;
    let tail = replaced(instructions_text(q.instructions), mask, seq![' ']);
    let head = start + tail;
    if has_at(head, mask, i) {
        let found = head.subrange(i, i + m);
        reveal_strlit(" question: ");
        assert(start[n - 1] == ' ');
        if i + m <= n {
            assert(start.subrange(i, i + m) =~= found);
        } else if i <= n - 1 {
            assert(found[n - 1 - i] == ' ');
            assert(mask[n - 1 - i] == ' ');
        } else {
            replaced_is_gone(instructions_text(q.instructions), mask, i - n);
            assert(tail.subrange(i - n, i - n + m) =~= found);
        }
    }
}

/// The text of a choice option starts with its label. A description that is neither null nor empty
/// stands at its end behind a colon and a space, and without one nothing follows the label.
pub proof fn an_option_shows_its_description(o: Seq<OptionView>, i: int)
    requires
        0 <= i < o.len(),
    ensures
        ({
            let all = option_texts(CriteriaView::Choice(o));
            let t = all[i];
            let l = o[i].label;
            let n = l.len() as int;
            &&& all.len() == o.len()
            &&& t.len() >= n && t.take(n) == l
            &&& match o[i].description {
                None => t.len() == n,
                Some(Value::Str(d)) => if d.len() == 0 {
                    t.len() == n
                } else {
                    t.len() == n + 2 + d.len() && t[n] == ':' && t[n + 1] == ' ' && t.skip(n + 2)
                        == d
                },
                Some(v) => t.len() == n + 2 + dumps(v, false).len() && t[n] == ':' && t[n + 1]
                    == ' ' && t.skip(n + 2) == dumps(v, false),
            }
        }),
{
    reveal_strlit(": ");
    let t = option_texts(CriteriaView::Choice(o))[i];
    let l = o[i].label;
    let n = l.len() as int;
    assert(t.take(n) =~= l);
    match o[i].description {
        None => {},
        Some(Value::Str(d)) => {
            if d.len() > 0 {
                assert(t.skip(n + 2) =~= d);
            }
        },
        Some(v) => {
            assert(t.skip(n + 2) =~= dumps(v, false));
        },
    }
}

/// Options that differ in their descriptions alone read differently, and so do options without one
/// that differ in their labels.
pub proof fn options_read_apart(a: OptionView, b: OptionView)
    requires
        option_text(a) == option_text(b),
    ensures
        a.label == b.label && (a.description matches Some(Value::Str(d)) && d.len() > 0) && (
        b.description matches Some(Value::Str(e)) && e.len() > 0) ==> a.description
            == b.description,
        a.description is None && b.description is None ==> a.label == b.label,
        a.label == b.label && a.description is None ==> b.description is None || b.description
            == Some(Value::Str(seq![])),
{
    an_option_shows_its_description(seq![a], 0);
    an_option_shows_its_description(seq![b], 0);
    let n = a.label.len() as int;
    assert(option_texts(CriteriaView::Choice(seq![a]))[0] == option_text(a));
    assert(option_texts(CriteriaView::Choice(seq![b]))[0] == option_text(b));
    if a.description is None && b.description is None {
        assert(option_text(a).take(n) =~= a.label);
        assert(option_text(b).take(b.label.len() as int) =~= b.label);
    }
    if let Some(Value::Str(e)) = b.description {
        if e.len() == 0 {
            assert(e =~= seq![]);
        }
    }
}

/// The text of a level starts with `level ` and its number and ends with what the level says, and no
/// two levels of a question read the same.
pub proof fn a_level_shows_its_number_and_text(l: Seq<Value>, i: int, j: int)
    requires
        0 <= i < l.len(),
        0 <= j < l.len(),
    ensures
        ({
            let all = option_texts(CriteriaView::Score(l));
            let n: int = 6 + dec(i as nat).len() as int;
            &&& all.len() == l.len()
            &&& all[i].len() == n + 2 + (match l[i] {
                Value::Str(s) => s,
                v => dumps(v, false),
            }).len()
            &&& all[i].take(6) == seq!['l', 'e', 'v', 'e', 'l', ' ']
            &&& all[i].subrange(6, n as int) == dec(i as nat)
            &&& all[i][n as int] == ':'
            &&& all[i][n + 1] == ' '
            &&& all[i].skip(n + 2) == match l[i] {
                Value::Str(s) => s,
                v => dumps(v, false),
            }
            &&& i != j ==> all[i] != all[j]
        }),
{
    reveal_strlit("level ");
    reveal_strlit(": ");
    let all = option_texts(CriteriaView::Score(l));
    let n: int = 6 + dec(i as nat).len() as int;
    let m: int = 6 + dec(j as nat).len() as int;
    assert(all[i].take(6) =~= seq!['l', 'e', 'v', 'e', 'l', ' ']);
    assert(all[i].subrange(6, n as int) =~= dec(i as nat));
    assert(all[j].subrange(6, m as int) =~= dec(j as nat));
    assert(all[i].skip(n + 2) =~= criterion_text(l[i]));
    if i != j && all[i] == all[j] {
        dec_reads(i as nat);
        dec_reads(j as nat);
        if n < m {
            assert(all[j][n as int] == dec(j as nat)[n - 6]);
            assert(is_digit(dec(j as nat)[n - 6]));
        } else if m < n {
            assert(all[i][m as int] == dec(i as nat)[m - 6]);
            assert(is_digit(dec(i as nat)[m - 6]));
        }
    }
}

/// A noul question reads its false side first. A side that says something reads as that behind its
/// word, and one that is missing, null or empty as what it means by default.
pub proof fn a_side_shows_what_it_means(no: Option<Value>, yes: Option<Value>)
    ensures
        ({
            let all = option_texts(CriteriaView::Noul(no, yes));
            let said = |v: Option<Value>, other: Seq<char>|
                match v {
                    None => other,
                    Some(Value::Null) => other,
                    Some(Value::Str(s)) => if s.len() > 0 {
                        s
                    } else {
                        other
                    },
                    Some(v) => dumps(v, false),
                };
            &&& all.len() == 2
            &&& all[0].len() >= 7 && all[0].take(7) == "false: "@
            &&& all[1].len() >= 6 && all[1].take(6) == "true: "@
            &&& all[0].skip(7) == said(no, "no, the statement does not hold"@)
            &&& all[1].skip(6) == said(yes, "yes, the statement holds"@)
        }),
{
    reveal_strlit("false: ");
    reveal_strlit("true: ");
    let all = option_texts(CriteriaView::Noul(no, yes));
    assert(all[0].take(7) =~= "false: "@);
    assert(all[1].take(6) =~= "true: "@);
    assert(all[0].skip(7) =~= side_text(no, NOUL_FALSE@));
    assert(all[1].skip(6) =~= side_text(yes, NOUL_TRUE@));
}

/// A head reads as its type's word, ` question: ` and the instructions. Instructions that are text
/// and have no mask in them stand in it as they are, and instructions that were left out add
/// nothing.
pub proof fn a_head_ends_with_its_instructions(q: QuestionView, mask: Seq<char>)
    requires
        mask.len() > 0,
    ensures
        ({
            let word = match q.qtype {
                QType::Choice => "choice question: "@,
                QType::Score => "score question: "@,
                QType::Noul => "noul question: "@,
            };
            let head = head_start(q) + replaced(
                instructions_text(q.instructions),
                mask,
                seq![' '],
            );
            &&& q.instructions is None ==> head == word
            &&& q.instructions matches Some(Value::Str(s)) ==> ((forall|i: int|
                !#[trigger] has_at(s, mask, i)) ==> head == word + s)
        }),
{
    reveal_strlit("choice");
    reveal_strlit("score");
    reveal_strlit("noul");
    reveal_strlit(" question: ");
    reveal_strlit("choice question: ");
    reveal_strlit("score question: ");
    reveal_strlit("noul question: ");
    assert("choice"@ + " question: "@ =~= "choice question: "@);
    assert("score"@ + " question: "@ =~= "score question: "@);
    assert("noul"@ + " question: "@ =~= "noul question: "@);
    match q.instructions {
        None => {
            let head = head_start(q) + replaced(seq![], mask, seq![' ']);
            assert(head =~= head_start(q));
        },
        Some(Value::Str(s)) => {
            if forall|i: int| !#[trigger] has_at(s, mask, i) {
                replaced_absent(s, mask, seq![' ']);
            }
        },
        Some(_) => {},
    }
}

/// A state without a mask in it is read as it is: a text as the text, and anything else as JSON.
pub proof fn text_without_a_mask_is_kept(state: Value, mask: Seq<char>)
    requires
        mask.len() > 0,
        forall|i: int| !#[trigger] has_at(criterion_text(state), mask, i),
    ensures
        state matches Value::Str(s) ==> replaced(criterion_text(state), mask, seq![' ']) == s,
        !(state is Str) ==> replaced(criterion_text(state), mask, seq![' ']) == dumps(state, false),
{
    replaced_absent(criterion_text(state), mask, seq![' ']);
}

} // verus!
