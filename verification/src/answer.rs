//! Answers, built from a question and the numbers a model gave for it.
//!
//! The numbers themselves are doubles, kept as their bits. What is decided here is which option an
//! answer names, which temperature a question takes, and the shape the answer has on the wire.

use crate::ieee::{
    above, argmax, argmax_is_the_first_largest, best_of, finite, greater, is_finite, is_nan, rank,
};
use crate::json::{
    entries, find, find_at, insert, object_view, put, put_get, values, Json, Num, Number, Value,
};
use crate::request::{options_view, Criteria, CriteriaView, QType, Question, QuestionView};
use crate::text::{dec, dec_reads, decimal, join3, same};
use vstd::prelude::*;

verus! {

/// The `model` field of a compat response.
pub const LAYA_MODEL: &'static str = "laya-rl-agent";

/// The bits of 0.5, the lowest temperature.
pub const COLDEST: u64 = 0x3fe0_0000_0000_0000;

/// The bits of 5, the highest temperature.
pub const HOTTEST: u64 = 0x4014_0000_0000_0000;

/// The bits of 1.
pub const ONE: u64 = 0x3ff0_0000_0000_0000;

/// A temperature confined to the range from 0.5 to 5, or 1 when it is not a finite number.
pub open spec fn clamped(t: u64) -> u64 {
    if !is_finite(t) {
        ONE
    } else if above(COLDEST, t) {
        COLDEST
    } else if above(t, HOTTEST) {
        HOTTEST
    } else {
        t
    }
}

/// A temperature confined to the range from 0.5 to 5, or 1 when it is not a finite number.
pub fn clamp_temperature(t: u64) -> (r: u64)
    ensures
        r == clamped(t),
{
    if !finite(t) {
        ONE
    } else if greater(COLDEST, t) {
        COLDEST
    } else if greater(t, HOTTEST) {
        HOTTEST
    } else {
        t
    }
}

/// A temperature in use is a finite number from 0.5 to 5.
pub proof fn temperatures_are_confined(t: u64)
    ensures
        is_finite(clamped(t)),
        !above(COLDEST, clamped(t)),
        !above(clamped(t), HOTTEST),
        clamped(clamped(t)) == clamped(t),
{
}

/// The name of a size of question.
pub open spec fn size_name(k: int) -> Seq<char> {
    if k <= 2 {
        "2"@
    } else if k <= 5 {
        "3-5"@
    } else if k <= 10 {
        "6-10"@
    } else {
        "11+"@
    }
}

/// The calibration key of a type and an option count.
pub open spec fn bucket_name(t: QType, k: int) -> Seq<char> {
    t.name() + ":"@ + size_name(k)
}

/// The calibration key of a type and an option count.
pub fn temperature_bucket(t: QType, k: usize) -> (r: String)
    ensures
        r@ == bucket_name(t, k as int),
{
    let size = if k <= 2 {
        "2"
    } else if k <= 5 {
        "3-5"
    } else if k <= 10 {
        "6-10"
    } else {
        "11+"
    };
    join3(t.as_str(), ":", size)
}

/// The calibration of a compat checkpoint, already clamped.
#[derive(Debug, Clone, PartialEq)]
pub struct Temperatures {
    /// For choice, score and noul.
    pub by_type: [u64; 3],
    /// By calibration key.
    pub by_options: Vec<(String, u64)>,
}

/// Named temperatures as plain values.
pub open spec fn named(v: Seq<(String, u64)>) -> Seq<(Seq<char>, u64)> {
    Seq::new(v.len(), |i: int| (v[i].0@, v[i].1))
}

/// The temperature of the first entry of a key, or another.
pub open spec fn first_of(v: Seq<(Seq<char>, u64)>, key: Seq<char>, other: u64) -> u64
    decreases v.len(),
{
    if v.len() == 0 {
        other
    } else if v[0].0 == key {
        v[0].1
    } else {
        first_of(v.drop_first(), key, other)
    }
}

impl Temperatures {
    /// From a checkpoint's temperatures for choice, score and noul, and those by calibration key.
    pub fn new(by_type: [u64; 3], by_options: &Vec<(String, u64)>) -> (r: Self)
        ensures
            r.by_type@ == Seq::new(3, |i: int| clamped(by_type@[i])),
            named(r.by_options@) == Seq::new(
                by_options@.len(),
                |i: int| (by_options@[i].0@, clamped(by_options@[i].1)),
            ),
    {
        let mut list: Vec<(String, u64)> = Vec::new();
        let mut i: usize = 0;
        while i < by_options.len()
            invariant
                i <= by_options@.len(),
                named(list@) == Seq::new(
                    i as nat,
                    |i: int| (by_options@[i].0@, clamped(by_options@[i].1)),
                ),
            decreases by_options@.len() - i,
        {
            let ghost before = named(list@);
            let e = &by_options[i];
            list.push((e.0.as_str().to_owned(), clamp_temperature(e.1)));
            i += 1;
            assert(named(list@) =~= before.push(
                (by_options@[i - 1].0@, clamped(by_options@[i - 1].1)),
            ));
            assert(named(list@) =~= Seq::new(
                i as nat,
                |i: int| (by_options@[i].0@, clamped(by_options@[i].1)),
            ));
        }
        let three: [u64; 3] = [
            clamp_temperature(by_type[0]),
            clamp_temperature(by_type[1]),
            clamp_temperature(by_type[2]),
        ];
        assert(three@ =~= Seq::new(3, |i: int| clamped(by_type@[i])));
        Temperatures { by_type: three, by_options: list }
    }

    /// The temperature for a question of type `t` with `k` options: that of its calibration key,
    /// or its type's.
    pub open spec fn spec_get(&self, t: QType, k: int) -> u64 {
        first_of(named(self.by_options@), bucket_name(t, k), self.by_type@[t.number() as int])
    }

    /// The temperature for a question of type `t` with `k` options.
    pub fn get(&self, t: QType, k: usize) -> (r: u64)
        ensures
            r == self.spec_get(t, k as int),
    {
        let key = temperature_bucket(t, k);
        let other: u64 = self.by_type[t.index()];
        let ghost all = named(self.by_options@);
        let mut i: usize = 0;
        assert(all.skip(0) =~= all);
        while i < self.by_options.len()
            invariant
                i <= self.by_options@.len(),
                all == named(self.by_options@),
                key@ == bucket_name(t, k as int),
                other == self.by_type@[t.number() as int],
                first_of(all, key@, other) == first_of(all.skip(i as int), key@, other),
            decreases self.by_options@.len() - i,
        {
            let e = &self.by_options[i];
            assert(all.skip(i as int)[0] == all[i as int]);
            assert(all.skip(i as int).drop_first() =~= all.skip(i + 1));
            if same(e.0.as_str(), key.as_str()) {
                return e.1;
            }
            i += 1;
        }
        other
    }
}

/// Whether a calibration key is for questions of a type with `k` options: a type's word, and the
/// range that holds the count.
pub open spec fn calibrates(name: Seq<char>, t: QType, k: int) -> bool {
    let word = match t {
        QType::Choice => "choice"@,
        QType::Score => "score"@,
        QType::Noul => "noul"@,
    };
    ||| k <= 2 && name == word + ":2"@
    ||| 3 <= k <= 5 && name == word + ":3-5"@
    ||| 6 <= k <= 10 && name == word + ":6-10"@
    ||| 11 <= k && name == word + ":11+"@
}

/// The key of a question is the one that calibrates it.
proof fn key_calibrates(t: QType, k: int, name: Seq<char>)
    ensures
        name == bucket_name(t, k) <==> calibrates(name, t, k),
{
    reveal_strlit(":");
    reveal_strlit("2");
    reveal_strlit("3-5");
    reveal_strlit("6-10");
    reveal_strlit("11+");
    reveal_strlit(":2");
    reveal_strlit(":3-5");
    reveal_strlit(":6-10");
    reveal_strlit(":11+");
    let w = t.name();
    assert(w + ":"@ + "2"@ =~= w + ":2"@);
    assert(w + ":"@ + "3-5"@ =~= w + ":3-5"@);
    assert(w + ":"@ + "6-10"@ =~= w + ":6-10"@);
    assert(w + ":"@ + "11+"@ =~= w + ":11+"@);
}

/// An entry with none of its key before it is the one that counts.
proof fn first_is_used(v: Seq<(Seq<char>, u64)>, key: Seq<char>, other: u64, i: int)
    requires
        0 <= i <= v.len(),
        forall|j: int| 0 <= j < i ==> (#[trigger] v[j]).0 != key,
        i < v.len() ==> v[i].0 == key,
    ensures
        first_of(v, key, other) == if i < v.len() {
            v[i].1
        } else {
            other
        },
    decreases v.len(),
{
    if i > 0 {
        assert(v[0].0 != key);
        let rest = v.drop_first();
        assert forall|j: int| 0 <= j < i - 1 implies (#[trigger] rest[j]).0 != key by {
            assert(v[j + 1].0 != key);
        }
        first_is_used(rest, key, other, i - 1);
    }
}

/// A question takes the temperature of the entry whose key is its type and the range of its option
/// count, and its type's own only when no entry has that key.
pub proof fn a_question_takes_its_own_temperature(temps: Temperatures, t: QType, k: int, i: int)
    requires
        0 <= i <= temps.by_options@.len(),
        forall|j: int|
            0 <= j < i ==> !calibrates((#[trigger] temps.by_options@[j]).0@, t, k),
        i < temps.by_options@.len() ==> calibrates(temps.by_options@[i].0@, t, k),
    ensures
        temps.spec_get(t, k) == if i < temps.by_options@.len() {
            temps.by_options@[i].1
        } else {
            match t {
                QType::Choice => temps.by_type@[0],
                QType::Score => temps.by_type@[1],
                QType::Noul => temps.by_type@[2],
            }
        },
{
    let v = named(temps.by_options@);
    let key = bucket_name(t, k);
    assert forall|j: int| 0 <= j < i implies (#[trigger] v[j]).0 != key by {
        key_calibrates(t, k, temps.by_options@[j].0@);
    }
    if i < v.len() {
        key_calibrates(t, k, temps.by_options@[i].0@);
    }
    first_is_used(v, key, temps.by_type@[t.number() as int], i);
}

/// Two questions share a calibration key only when they have one type and counts of one range: up to
/// 2, 3 to 5, 6 to 10, or above.
pub proof fn keys_tell_ranges_apart(t: QType, k: int, u: QType, j: int)
    requires
        bucket_name(t, k) == bucket_name(u, j),
    ensures
        t == u,
        (k <= 2) == (j <= 2),
        (k <= 5) == (j <= 5),
        (k <= 10) == (j <= 10),
{
    reveal_strlit("choice");
    reveal_strlit("score");
    reveal_strlit("noul");
    reveal_strlit(":");
    reveal_strlit("2");
    reveal_strlit("3-5");
    reveal_strlit("6-10");
    reveal_strlit("11+");
    let (a, b) = (bucket_name(t, k), bucket_name(u, j));
    assert(a[0] == t.name()[0] && b[0] == u.name()[0]);
    assert(t == u);
    let n = t.name().len() as int;
    assert(a[n + 1] == size_name(k)[0] && b[n + 1] == size_name(j)[0]);
}

/// A temperature from 0.5 to 5 is used as it is, a lower or higher one as the end it is beyond, and
/// what is no finite number as 1.
pub proof fn temperatures_within_range_are_kept(t: u64)
    ensures
        is_finite(t) && rank(0x3fe0_0000_0000_0000) <= rank(t) <= rank(0x4014_0000_0000_0000)
            ==> clamped(t) == t,
        is_finite(t) && rank(t) < rank(0x3fe0_0000_0000_0000) ==> clamped(t)
            == 0x3fe0_0000_0000_0000,
        is_finite(t) && rank(t) > rank(0x4014_0000_0000_0000) ==> clamped(t)
            == 0x4014_0000_0000_0000,
        !is_finite(t) ==> clamped(t) == 0x3ff0_0000_0000_0000,
{
}

impl Default for Temperatures {
    /// Every temperature is 1.
    fn default() -> (r: Self)
        ensures
            forall|t: QType, k: int| #[trigger] r.spec_get(t, k) == ONE,
    {
        let none: Vec<(String, u64)> = Vec::new();
        let r = Temperatures::new([ONE, ONE, ONE], &none);
        assert(named(r.by_options@).len() == 0);
        assert forall|t: QType, k: int| #[trigger] r.spec_get(t, k) == ONE by {
            assert(r.by_type@[t.number() as int] == clamped(ONE));
        }
        r
    }
}

/// The numbers a model gave for a question, as the bits of doubles.
#[derive(Debug)]
pub struct Numbers {
    /// The calibrated probability of each option.
    pub p: Vec<u64>,
    /// The expected level.
    pub score: u64,
    /// The normalized entropy confidence.
    pub entropy: u64,
    /// The larger of the probabilities of yes and no.
    pub surest: u64,
    /// The act head's probability that acting on the answer is right.
    pub act: u64,
}

/// One question's answer.
#[allow(inconsistent_fields)]
#[derive(Debug, Clone, PartialEq)]
pub enum Answer {
    /// A choice question.
    Choice {
        /// The most likely label, the first one on a tie.
        choice: String,
        /// Each label with its calibrated probability, in option order.
        probabilities: Vec<(String, u64)>,
        /// Normalized entropy confidence.
        confidence: u64,
        /// The act head's probability that acting on this answer is right.
        act_probability: u64,
    },
    /// A score question.
    Score {
        /// The expected level, which can fall between levels.
        score: u64,
        /// The levels exactly as sent.
        legend: Vec<Json>,
        /// The probability of each level.
        probabilities: Vec<u64>,
        /// Normalized entropy confidence.
        confidence: u64,
        /// See [`Answer::Choice`].
        act_probability: u64,
    },
    /// A noul question.
    Noul {
        /// The probability the statement is true.
        noul: u64,
        /// The larger of it and its complement.
        confidence: u64,
        /// See [`Answer::Choice`].
        act_probability: u64,
    },
}

/// An answer, as plain values.
pub ghost enum AnswerView {
    /// A choice question: the label, each label's probability, the confidence and the act
    /// probability.
    Choice(Seq<char>, Seq<(Seq<char>, u64)>, u64, u64),
    /// A score question: the score, the levels, their probabilities, the confidence and the act
    /// probability.
    Score(u64, Seq<Value>, Seq<u64>, u64, u64),
    /// A noul question: the probability, the confidence and the act probability.
    Noul(u64, u64, u64),
}

impl View for Answer {
    type V = AnswerView;

    open spec fn view(&self) -> AnswerView {
        match *self {
            Answer::Choice { choice, probabilities, confidence, act_probability } => {
                AnswerView::Choice(choice@, named(probabilities@), confidence, act_probability)
            },
            Answer::Score { score, legend, probabilities, confidence, act_probability } => {
                AnswerView::Score(
                    score,
                    values(legend@),
                    probabilities@,
                    confidence,
                    act_probability,
                )
            },
            Answer::Noul { noul, confidence, act_probability } => AnswerView::Noul(
                noul,
                confidence,
                act_probability,
            ),
        }
    }
}

/// The answer to a question: the label of the largest probability with every label's, the expected
/// level with every level's, or the probability of yes.
pub open spec fn answer_of(q: QuestionView, n: &Numbers) -> AnswerView {
    match q.criteria {
        CriteriaView::Choice(o) => AnswerView::Choice(
            o[best_of(n.p@, n.p@.len() as int)].label,
            Seq::new(o.len(), |i: int| (o[i].label, n.p@[i])),
            n.entropy,
            n.act,
        ),
        CriteriaView::Score(l) => AnswerView::Score(n.score, l, n.p@, n.entropy, n.act),
        CriteriaView::Noul(_, _) => AnswerView::Noul(n.p@[1], n.surest, n.act),
    }
}

/// The answer to `q` from its numbers, with one probability per option.
pub fn laya_answer(q: &Question, n: &Numbers) -> (r: Answer)
    requires
        n.p@.len() == q@.criteria.count(),
        q@.criteria is Choice ==> q@.criteria.count() > 0,
    ensures
        r@ == answer_of(q@, n),
{
    match &q.criteria {
        Criteria::Choice(opts) => {
            let ghost o = options_view(opts@);
            let best: usize = argmax(&n.p);
            let mut list: Vec<(String, u64)> = Vec::new();
            let mut i: usize = 0;
            while i < opts.len()
                invariant
                    i <= opts@.len() == n.p@.len(),
                    o == options_view(opts@),
                    named(list@) == Seq::new(i as nat, |i: int| (o[i].label, n.p@[i])),
                decreases opts@.len() - i,
            {
                let ghost before = named(list@);
                list.push((opts[i].label.as_str().to_owned(), n.p[i]));
                i += 1;
                assert(named(list@) =~= before.push((o[i - 1].label, n.p@[i - 1])));
                assert(named(list@) =~= Seq::new(i as nat, |i: int| (o[i].label, n.p@[i])));
            }
            let choice = opts[best].label.as_str().to_owned();
            assert(o[best as int].label == choice@);
            Answer::Choice {
                choice,
                probabilities: list,
                confidence: n.entropy,
                act_probability: n.act,
            }
        },
        Criteria::Score(levels) => {
            let legend = crate::json::copy_array(levels);
            let mut p: Vec<u64> = Vec::new();
            let mut i: usize = 0;
            while i < n.p.len()
                invariant
                    i <= n.p@.len(),
                    p@ == n.p@.take(i as int),
                decreases n.p@.len() - i,
            {
                p.push(n.p[i]);
                i += 1;
                assert(p@ =~= n.p@.take(i as int));
            }
            assert(n.p@.take(i as int) =~= n.p@);
            Answer::Score {
                score: n.score,
                legend,
                probabilities: p,
                confidence: n.entropy,
                act_probability: n.act,
            }
        },
        Criteria::Noul { .. } => Answer::Noul {
            noul: n.p[1],
            confidence: n.surest,
            act_probability: n.act,
        },
    }
}

/// A choice names the first label that no other label's probability is above, and gives every label
/// its own probability. A noul answer is the probability of the true side, which stands second.
pub proof fn an_answer_names_the_likeliest(q: QuestionView, n: &Numbers)
    requires
        n.p@.len() == q.criteria.count(),
        forall|i: int| 0 <= i < n.p@.len() ==> !is_nan(#[trigger] n.p@[i]),
    ensures
        match (q.criteria, answer_of(q, n)) {
            (CriteriaView::Choice(o), AnswerView::Choice(c, p, sure, act)) => {
                &&& act == n.act
                &&& sure == n.entropy
                &&& p.len() == o.len()
                &&& forall|i: int| #![trigger p[i]]
                    0 <= i < o.len() ==> p[i] == (o[i].label, n.p@[i])
                &&& o.len() > 0 ==> exists|b: int|
                    0 <= b < o.len() && c == (#[trigger] o[b]).label && (forall|i: int|
                        0 <= i < o.len() ==> rank(#[trigger] n.p@[i]) <= rank(n.p@[b])) && (forall|
                        i: int,
                    |
                        0 <= i < b ==> rank(#[trigger] n.p@[i]) < rank(n.p@[b]))
            },
            (CriteriaView::Score(l), AnswerView::Score(s, legend, p, sure, act)) => s == n.score
                && legend == l && p == n.p@ && sure == n.entropy && act == n.act,
            (CriteriaView::Noul(_, _), AnswerView::Noul(yes, c, act)) => yes == n.p@[1] && c
                == n.surest && act == n.act,
            _ => false,
        },
{
    if let CriteriaView::Choice(o) = q.criteria {
        if o.len() > 0 {
            argmax_is_the_first_largest(n.p@, n.p@.len() as int);
            let b = best_of(n.p@, n.p@.len() as int);
            assert(answer_of(q, n)->Choice_0 == o[b].label);
        }
    }
}

/// The numbers of an answer, in the order they go on the wire.
pub open spec fn numbers_of(a: AnswerView) -> Seq<u64> {
    match a {
        AnswerView::Choice(_, p, c, act) => Seq::new(p.len(), |i: int| p[i].1) + seq![c, act],
        AnswerView::Score(s, _, p, c, act) => seq![s] + p + seq![c, act],
        AnswerView::Noul(n, c, act) => seq![n, c, act],
    }
}

/// `{"act_probability": n}`.
pub open spec fn act_json(n: Num) -> Value {
    Value::Object(seq![("act_probability"@, Value::Num(n))])
}

/// The first `n` labels set to their numbers.
pub open spec fn label_numbers(p: Seq<(Seq<char>, u64)>, r: Seq<Num>, n: int) -> Seq<
    (Seq<char>, Value),
>
    decreases n,
{
    if n <= 0 {
        seq![]
    } else {
        put(label_numbers(p, r, n - 1), p[n - 1].0, Value::Num(r[n - 1]))
    }
}

/// Values keyed by their index.
pub open spec fn indexed(v: Seq<Value>) -> Seq<(Seq<char>, Value)> {
    Seq::new(v.len(), |i: int| (dec(i as nat), v[i]))
}

/// An answer as JSON, with its numbers as `r` writes them.
pub open spec fn answer_json(a: AnswerView, r: Seq<Num>) -> Value {
    match a {
        AnswerView::Choice(choice, p, _, _) => Value::Object(
            seq![
                ("type"@, Value::Str("choice"@)),
                ("choice"@, Value::Str(choice)),
                ("probabilities"@, Value::Object(label_numbers(p, r, p.len() as int))),
                ("confidence"@, Value::Num(r[p.len() as int])),
                ("action"@, act_json(r[p.len() as int + 1])),
            ],
        ),
        AnswerView::Score(_, legend, p, _, _) => Value::Object(
            seq![
                ("type"@, Value::Str("score"@)),
                ("score"@, Value::Num(r[0])),
                ("legend"@, Value::Object(indexed(legend))),
                (
                    "probabilities"@,
                    Value::Object(indexed(Seq::new(p.len(), |i: int| Value::Num(r[i + 1])))),
                ),
                ("confidence"@, Value::Num(r[p.len() as int + 1])),
                ("action"@, act_json(r[p.len() as int + 2])),
            ],
        ),
        AnswerView::Noul(_, _, _) => Value::Object(
            seq![
                ("type"@, Value::Str("noul"@)),
                ("noul"@, Value::Num(r[0])),
                ("confidence"@, Value::Num(r[1])),
                ("action"@, act_json(r[2])),
            ],
        ),
    }
}

/// What stands under a key of an object.
pub open spec fn under(v: Value, key: Seq<char>) -> Option<Value> {
    match v {
        Value::Object(m) => find(m, key),
        _ => None,
    }
}

/// Labels of their own keep their numbers.
proof fn labels_keep_numbers(p: Seq<(Seq<char>, u64)>, r: Seq<Num>, n: int, i: int)
    requires
        0 <= i < n <= p.len(),
        forall|j: int, k: int| 0 <= j < k < p.len() ==> (#[trigger] p[j]).0 != (#[trigger] p[k]).0,
    ensures
        find(label_numbers(p, r, n), p[i].0) == Some(Value::Num(r[i])),
    decreases n,
{
    put_get(label_numbers(p, r, n - 1), p[n - 1].0, Value::Num(r[n - 1]), p[i].0);
    if i < n - 1 {
        assert(p[i].0 != p[n - 1].0);
        labels_keep_numbers(p, r, n - 1, i);
    }
}

/// A list keyed by its indices is found under them.
proof fn indexed_is_found(v: Seq<Value>, i: int)
    requires
        0 <= i < v.len(),
    ensures
        find(indexed(v), dec(i as nat)) == Some(v[i]),
{
    let m = indexed(v);
    assert forall|j: int| 0 <= j < i implies m[j].0 != dec(i as nat) by {
        dec_reads(j as nat);
        dec_reads(i as nat);
    }
    find_at(m, dec(i as nat), i);
}

/// The JSON of an answer says what the answer says, with every number as `f` writes it: its type,
/// the choice, the score or the probability of yes, the probability of every label or level, the
/// levels themselves, the confidence and the act probability.
pub proof fn the_json_says_the_answer(a: AnswerView, r: Seq<Num>, f: spec_fn(u64) -> Num, i: int)
    requires
        r == numbers_of(a).map_values(f),
        a matches AnswerView::Choice(_, p, _, _) ==> forall|j: int, k: int|
            0 <= j < k < p.len() ==> (#[trigger] p[j]).0 != (#[trigger] p[k]).0,
    ensures
        ({
            let v = answer_json(a, r);
            let act = under(v, "action"@);
            match a {
                AnswerView::Choice(choice, p, c, x) => {
                    &&& under(v, "type"@) == Some(Value::Str("choice"@))
                    &&& under(v, "choice"@) == Some(Value::Str(choice))
                    &&& under(v, "confidence"@) == Some(Value::Num(f(c)))
                    &&& act is Some && under(act->0, "act_probability"@) == Some(Value::Num(f(x)))
                    &&& under(v, "probabilities"@) is Some
                    &&& 0 <= i < p.len() ==> under(under(v, "probabilities"@)->0, p[i].0) == Some(
                        Value::Num(f(p[i].1)),
                    )
                },
                AnswerView::Score(s, l, p, c, x) => {
                    &&& under(v, "type"@) == Some(Value::Str("score"@))
                    &&& under(v, "score"@) == Some(Value::Num(f(s)))
                    &&& under(v, "confidence"@) == Some(Value::Num(f(c)))
                    &&& act is Some && under(act->0, "act_probability"@) == Some(Value::Num(f(x)))
                    &&& under(v, "probabilities"@) is Some && under(v, "legend"@) is Some
                    &&& 0 <= i < p.len() ==> under(
                        under(v, "probabilities"@)->0,
                        dec(i as nat),
                    ) == Some(Value::Num(f(p[i])))
                    &&& 0 <= i < l.len() ==> under(under(v, "legend"@)->0, dec(i as nat)) == Some(
                        l[i],
                    )
                },
                AnswerView::Noul(yes, c, x) => {
                    &&& under(v, "type"@) == Some(Value::Str("noul"@))
                    &&& under(v, "noul"@) == Some(Value::Num(f(yes)))
                    &&& under(v, "confidence"@) == Some(Value::Num(f(c)))
                    &&& act is Some && under(act->0, "act_probability"@) == Some(Value::Num(f(x)))
                },
            }
        }),
{
    reveal_strlit("type");
    reveal_strlit("choice");
    reveal_strlit("score");
    reveal_strlit("noul");
    reveal_strlit("legend");
    reveal_strlit("probabilities");
    reveal_strlit("confidence");
    reveal_strlit("action");
    assert("type"@.len() == 4 && "type"@[0] == 't');
    assert("noul"@.len() == 4 && "noul"@[0] == 'n');
    assert("score"@.len() == 5);
    assert("choice"@.len() == 6 && "choice"@[0] == 'c');
    assert("legend"@.len() == 6 && "legend"@[0] == 'l');
    assert("action"@.len() == 6 && "action"@[0] == 'a');
    assert("confidence"@.len() == 10);
    assert("probabilities"@.len() == 13);
    let m = answer_json(a, r)->Object_0;
    let n = m.len() as int;
    find_at(m, "type"@, 0);
    find_at(m, m[1].0, 1);
    find_at(m, "confidence"@, n - 2);
    find_at(m, "action"@, n - 1);
    let act = m[n - 1].1->Object_0;
    find_at(act, "act_probability"@, 0);
    match a {
        AnswerView::Choice(_, p, c, x) => {
            find_at(m, "probabilities"@, 2);
            if 0 <= i < p.len() {
                labels_keep_numbers(p, r, p.len() as int, i);
                assert(r[i] == f(numbers_of(a)[i]));
            }
        },
        AnswerView::Score(_, l, p, c, x) => {
            find_at(m, "legend"@, 2);
            find_at(m, "probabilities"@, 3);
            let list = Seq::new(p.len(), |i: int| Value::Num(r[i + 1]));
            if 0 <= i < p.len() {
                indexed_is_found(list, i);
                assert(numbers_of(a)[i + 1] == p[i]);
            }
            if 0 <= i < l.len() {
                indexed_is_found(l, i);
            }
        },
        AnswerView::Noul(yes, c, x) => {},
    }
}

/// Numbers as plain values.
pub open spec fn nums(v: Seq<Number>) -> Seq<Num> {
    Seq::new(v.len(), |i: int| v[i]@)
}

/// Appends an entry.
fn push_entry(m: &mut Vec<(String, Json)>, k: &str, v: Json)
    ensures
        entries(final(m)@) == entries(old(m)@).push((k@, v@)),
{
    let ghost before = entries(m@);
    let ghost shown = v@;
    m.push((k.to_owned(), v));
    assert(entries(m@) =~= before.push((k@, shown)));
}

/// `{"act_probability": n}`.
fn make_act(n: &Number) -> (r: Json)
    ensures
        r@ == act_json(n@),
{
    let mut m: Vec<(String, Json)> = Vec::new();
    assert(entries(m@) =~= seq![]);
    push_entry(&mut m, "act_probability", Json::Num(n.copy()));
    proof {
        object_view(m);
        assert(entries(m@) =~= act_json(n@)->Object_0);
    }
    Json::Object(m)
}

/// The labels set to their numbers.
fn make_labels(p: &Vec<(String, u64)>, r: &Vec<Number>) -> (m: Vec<(String, Json)>)
    requires
        p@.len() <= r@.len(),
    ensures
        entries(m@) == label_numbers(named(p@), nums(r@), p@.len() as int),
{
    let mut m: Vec<(String, Json)> = Vec::new();
    assert(entries(m@) =~= seq![]);
    let ghost (pv, rv) = (named(p@), nums(r@));
    let mut i: usize = 0;
    while i < p.len()
        invariant
            i <= p@.len() <= r@.len(),
            pv == named(p@),
            rv == nums(r@),
            entries(m@) == label_numbers(pv, rv, i as int),
        decreases p@.len() - i,
    {
        assert(pv[i as int].0 == p@[i as int].0@);
        insert(&mut m, p[i].0.as_str(), Json::Num(r[i].copy()));
        i += 1;
    }
    m
}

/// The levels keyed by their index.
fn make_legend(v: &Vec<Json>) -> (m: Vec<(String, Json)>)
    ensures
        entries(m@) == indexed(values(v@)),
{
    let mut m: Vec<(String, Json)> = Vec::new();
    let ghost all = values(v@);
    let mut i: usize = 0;
    while i < v.len()
        invariant
            i <= v@.len(),
            all == values(v@),
            entries(m@) == Seq::new(i as nat, |i: int| (dec(i as nat), all[i])),
        decreases v@.len() - i,
    {
        push_entry(&mut m, decimal(i as u64).as_str(), v[i].copy());
        i += 1;
        assert(entries(m@) =~= Seq::new(i as nat, |i: int| (dec(i as nat), all[i])));
    }
    assert(entries(m@) =~= indexed(all));
    m
}

/// `n` numbers from the second on, keyed by their index.
fn make_levels(r: &Vec<Number>, n: usize) -> (m: Vec<(String, Json)>)
    requires
        n < r@.len(),
    ensures
        entries(m@) == indexed(Seq::new(n as nat, |i: int| Value::Num(nums(r@)[i + 1]))),
{
    let mut m: Vec<(String, Json)> = Vec::new();
    let ghost all = Seq::new(n as nat, |i: int| Value::Num(nums(r@)[i + 1]));
    let mut i: usize = 0;
    while i < n
        invariant
            i <= n < r@.len(),
            all == Seq::new(n as nat, |i: int| Value::Num(nums(r@)[i + 1])),
            entries(m@) == Seq::new(i as nat, |i: int| (dec(i as nat), all[i])),
        decreases n - i,
    {
        push_entry(&mut m, decimal(i as u64).as_str(), Json::Num(r[i + 1].copy()));
        i += 1;
        assert(entries(m@) =~= Seq::new(i as nat, |i: int| (dec(i as nat), all[i])));
    }
    assert(entries(m@) =~= indexed(all));
    m
}

impl Answer {
    /// The numbers of the answer, in the order they go on the wire, each to be rounded to 4 places.
    pub fn numbers(&self) -> (r: Vec<u64>)
        ensures
            r@ == numbers_of(self@),
    {
        let mut r: Vec<u64> = Vec::new();
        match self {
            Answer::Choice { choice: _, probabilities, confidence, act_probability } => {
                let ghost p = named(probabilities@);
                let mut i: usize = 0;
                while i < probabilities.len()
                    invariant
                        i <= probabilities@.len(),
                        p == named(probabilities@),
                        r@ == Seq::new(i as nat, |i: int| p[i].1),
                    decreases probabilities@.len() - i,
                {
                    r.push(probabilities[i].1);
                    i += 1;
                    assert(r@ =~= Seq::new(i as nat, |i: int| p[i].1));
                }
                r.push(*confidence);
                r.push(*act_probability);
                assert(r@ =~= numbers_of(self@));
            },
            Answer::Score { score, legend: _, probabilities, confidence, act_probability } => {
                r.push(*score);
                let mut i: usize = 0;
                while i < probabilities.len()
                    invariant
                        i <= probabilities@.len(),
                        r@ == seq![*score] + probabilities@.take(i as int),
                    decreases probabilities@.len() - i,
                {
                    r.push(probabilities[i]);
                    i += 1;
                    assert(r@ =~= seq![*score] + probabilities@.take(i as int));
                }
                assert(probabilities@.take(i as int) =~= probabilities@);
                r.push(*confidence);
                r.push(*act_probability);
                assert(r@ =~= numbers_of(self@));
            },
            Answer::Noul { noul, confidence, act_probability } => {
                r.push(*noul);
                r.push(*confidence);
                r.push(*act_probability);
                assert(r@ =~= numbers_of(self@));
            },
        }
        r
    }

    /// The answer as JSON. `rounded` is what [`Answer::numbers`] gives, each as it is written.
    pub fn to_json(&self, rounded: &Vec<Number>) -> (r: Json)
        requires
            rounded@.len() == numbers_of(self@).len(),
        ensures
            r@ == answer_json(self@, nums(rounded@)),
    {
        let _all: usize = rounded.len();
        let mut m: Vec<(String, Json)> = Vec::new();
        assert(entries(m@) =~= seq![]);
        match self {
            Answer::Choice { choice, probabilities, confidence: _, act_probability: _ } => {
                let n: usize = probabilities.len();
                push_entry(&mut m, "type", Json::Str("choice".to_owned()));
                push_entry(&mut m, "choice", Json::Str(choice.as_str().to_owned()));
                let labels = make_labels(probabilities, rounded);
                proof {
                    object_view(labels);
                }
                push_entry(&mut m, "probabilities", Json::Object(labels));
                push_entry(&mut m, "confidence", Json::Num(rounded[n].copy()));
                push_entry(&mut m, "action", make_act(&rounded[n + 1]));
            },
            Answer::Score { score: _, legend, probabilities, confidence: _, act_probability: _ } => {
                let n: usize = probabilities.len();
                push_entry(&mut m, "type", Json::Str("score".to_owned()));
                push_entry(&mut m, "score", Json::Num(rounded[0].copy()));
                let levels = make_legend(legend);
                let list = make_levels(rounded, n);
                proof {
                    object_view(levels);
                    object_view(list);
                }
                push_entry(&mut m, "legend", Json::Object(levels));
                push_entry(&mut m, "probabilities", Json::Object(list));
                push_entry(&mut m, "confidence", Json::Num(rounded[n + 1].copy()));
                push_entry(&mut m, "action", make_act(&rounded[n + 2]));
            },
            Answer::Noul { .. } => {
                push_entry(&mut m, "type", Json::Str("noul".to_owned()));
                push_entry(&mut m, "noul", Json::Num(rounded[0].copy()));
                push_entry(&mut m, "confidence", Json::Num(rounded[1].copy()));
                push_entry(&mut m, "action", make_act(&rounded[2]));
            },
        }
        proof {
            object_view(m);
            assert(entries(m@) =~= answer_json(self@, nums(rounded@))->Object_0);
        }
        Json::Object(m)
    }
}

/// The answers to one request.
#[derive(Debug, Clone, PartialEq)]
pub struct Response {
    /// The model that answered.
    pub model: String,
    /// The answers, in request order.
    pub answers: Vec<(String, Answer)>,
    /// Tokens read over all the request's sequences.
    pub input_tokens: usize,
}

/// Answers as plain values.
pub open spec fn answers_view(v: Seq<(String, Answer)>) -> Seq<(Seq<char>, AnswerView)> {
    Seq::new(v.len(), |i: int| (v[i].0@, v[i].1@))
}

/// The answer to the first question of an id.
pub open spec fn answer_named(v: Seq<(Seq<char>, AnswerView)>, id: Seq<char>) -> Option<AnswerView>
    decreases v.len(),
{
    if v.len() == 0 {
        None
    } else if v[0].0 == id {
        Some(v[0].1)
    } else {
        answer_named(v.drop_first(), id)
    }
}

/// The first `n` answers set under their ids.
pub open spec fn answers_json(v: Seq<(Seq<char>, AnswerView)>, r: Seq<Seq<Num>>, n: int) -> Seq<
    (Seq<char>, Value),
>
    decreases n,
{
    if n <= 0 {
        seq![]
    } else {
        put(answers_json(v, r, n - 1), v[n - 1].0, answer_json(v[n - 1].1, r[n - 1]))
    }
}

/// Lists of numbers as plain values.
pub open spec fn num_lists(v: Seq<Vec<Number>>) -> Seq<Seq<Num>> {
    Seq::new(v.len(), |i: int| nums(v[i]@))
}

/// A count as a JSON number.
fn count_json(n: usize) -> (r: Json)
    ensures
        r@ == Value::Num(Num::Int(n as int)),
{
    if n as u64 <= 0x7fff_ffff_ffff_ffff {
        Json::Num(Number::Int(n as i64))
    } else {
        Json::Num(Number::Big(n as u64))
    }
}

impl Response {
    /// The answer to question `id`.
    pub fn get(&self, id: &str) -> (r: Option<&Answer>)
        ensures
            match r {
                Some(a) => answer_named(answers_view(self.answers@), id@) == Some(a@),
                None => answer_named(answers_view(self.answers@), id@) is None,
            },
    {
        let ghost all = answers_view(self.answers@);
        let mut i: usize = 0;
        assert(all.skip(0) =~= all);
        while i < self.answers.len()
            invariant
                i <= self.answers@.len(),
                all == answers_view(self.answers@),
                answer_named(all, id@) == answer_named(all.skip(i as int), id@),
            decreases self.answers@.len() - i,
        {
            let e = &self.answers[i];
            assert(all.skip(i as int)[0] == all[i as int]);
            assert(all.skip(i as int).drop_first() =~= all.skip(i + 1));
            if same(e.0.as_str(), id) {
                return Some(&e.1);
            }
            i += 1;
        }
        None
    }

    /// The response as JSON. `rounded` is what [`Answer::numbers`] gives for each answer, each as it
    /// is written.
    pub fn to_json(&self, rounded: &Vec<Vec<Number>>) -> (r: Json)
        requires
            rounded@.len() == self.answers@.len(),
            forall|i: int|
                0 <= i < self.answers@.len() ==> (#[trigger] rounded@[i])@.len() == numbers_of(
                    self.answers@[i].1@,
                ).len(),
        ensures
            r@ == Value::Object(
                seq![
                    ("model"@, Value::Str(self.model@)),
                    (
                        "answers"@,
                        Value::Object(
                            answers_json(
                                answers_view(self.answers@),
                                num_lists(rounded@),
                                self.answers@.len() as int,
                            ),
                        ),
                    ),
                    (
                        "usage"@,
                        Value::Object(
                            seq![
                                ("input_tokens"@, Value::Num(Num::Int(self.input_tokens as int))),
                                ("output_tokens"@, Value::Num(Num::Int(0))),
                            ],
                        ),
                    ),
                ],
            ),
    {
        let ghost (all, rv) = (answers_view(self.answers@), num_lists(rounded@));
        let mut answers: Vec<(String, Json)> = Vec::new();
        assert(entries(answers@) =~= seq![]);
        let mut i: usize = 0;
        while i < self.answers.len()
            invariant
                i <= self.answers@.len() == rounded@.len(),
                all == answers_view(self.answers@),
                rv == num_lists(rounded@),
                forall|i: int|
                    0 <= i < self.answers@.len() ==> (#[trigger] rounded@[i])@.len() == numbers_of(
                        self.answers@[i].1@,
                    ).len(),
                entries(answers@) == answers_json(all, rv, i as int),
            decreases self.answers@.len() - i,
        {
            let e = &self.answers[i];
            assert(all[i as int] == (e.0@, e.1@));
            assert(rv[i as int] == nums(rounded@[i as int]@));
            insert(&mut answers, e.0.as_str(), e.1.to_json(&rounded[i]));
            i += 1;
        }
        let mut usage: Vec<(String, Json)> = Vec::new();
        assert(entries(usage@) =~= seq![]);
        push_entry(&mut usage, "input_tokens", count_json(self.input_tokens));
        push_entry(&mut usage, "output_tokens", count_json(0));
        proof {
            object_view(answers);
            object_view(usage);
        }
        let mut m: Vec<(String, Json)> = Vec::new();
        assert(entries(m@) =~= seq![]);
        push_entry(&mut m, "model", Json::Str(self.model.as_str().to_owned()));
        push_entry(&mut m, "answers", Json::Object(answers));
        push_entry(&mut m, "usage", Json::Object(usage));
        proof {
            object_view(m);
            assert(entries(usage@) =~= seq![
                ("input_tokens"@, Value::Num(Num::Int(self.input_tokens as int))),
                ("output_tokens"@, Value::Num(Num::Int(0))),
            ]);
            assert(entries(m@) =~= seq![
                ("model"@, Value::Str(self.model@)),
                ("answers"@, Value::Object(answers_json(all, rv, self.answers@.len() as int))),
                (
                    "usage"@,
                    Value::Object(
                        seq![
                            ("input_tokens"@, Value::Num(Num::Int(self.input_tokens as int))),
                            ("output_tokens"@, Value::Num(Num::Int(0))),
                        ],
                    ),
                ),
            ]);
        }
        Json::Object(m)
    }
}

/// Every answer is found under its question's id, when no id occurs twice.
pub proof fn every_answer_is_found(v: Seq<(Seq<char>, AnswerView)>, i: int)
    requires
        0 <= i < v.len(),
        forall|j: int, k: int| 0 <= j < k < v.len() ==> (#[trigger] v[j]).0 != (#[trigger] v[k]).0,
    ensures
        answer_named(v, v[i].0) == Some(v[i].1),
    decreases v.len(),
{
    if i > 0 {
        let rest = v.drop_first();
        assert forall|j: int, k: int| 0 <= j < k < rest.len() implies (#[trigger] rest[j]).0 != (
        #[trigger] rest[k]).0 by {
            assert(v[j + 1].0 != v[k + 1].0);
        }
        assert(v[0].0 != v[i].0);
        every_answer_is_found(rest, i - 1);
    }
}

/// The answers of a response are found in its JSON under their questions' ids, when no id occurs
/// twice, and nothing else is there.
pub proof fn the_json_holds_every_answer(
    v: Seq<(Seq<char>, AnswerView)>,
    r: Seq<Seq<Num>>,
    n: int,
    i: int,
    key: Seq<char>,
)
    requires
        0 <= n <= v.len(),
        r.len() == v.len(),
        forall|j: int, k: int| 0 <= j < k < v.len() ==> (#[trigger] v[j]).0 != (#[trigger] v[k]).0,
    ensures
        0 <= i < n ==> find(answers_json(v, r, n), v[i].0) == Some(answer_json(v[i].1, r[i])),
        (forall|j: int| 0 <= j < n ==> (#[trigger] v[j]).0 != key) ==> find(
            answers_json(v, r, n),
            key,
        ) is None,
    decreases n,
{
    if n > 0 {
        the_json_holds_every_answer(v, r, n - 1, i, key);
        let before = answers_json(v, r, n - 1);
        let x = answer_json(v[n - 1].1, r[n - 1]);
        put_get(before, v[n - 1].0, x, key);
        if 0 <= i < n {
            put_get(before, v[n - 1].0, x, v[i].0);
            if i < n - 1 {
                assert(v[i].0 != v[n - 1].0);
            }
        }
    }
}

} // verus!
