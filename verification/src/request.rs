//! The `/v1/systemone` request, read from JSON and validated.
//!
//! Validation collects every problem instead of stopping at the first, and reports each one in
//! FastAPI's shape (`loc`, `msg`, `type`, `input`). Questions and choice labels keep the order they
//! were sent in.

use crate::json::{
    array_view, copy_array, copy_object, entries, find, find_at, get, object_view, values, Json, Num, Number,
    Value,
};
use crate::text::{
    chars_of, dec, decimal, is_text, join3, join5, join7, lower, same, text_of, trim, trimmed, Class,
};
use vstd::prelude::*;

verus! {

/// The three question types.
#[derive(Debug, Clone, Copy, PartialEq, Eq, Hash, Structural)]
pub enum QType {
    /// Pick one of a set of labels.
    Choice,
    /// Pick a level on an ordered scale, answered as an expected value.
    Score,
    /// Yes or no, answered as the probability of yes.
    Noul,
}

impl QType {
    /// The name used on the wire and in the rendered text.
    pub open spec fn name(self) -> Seq<char> {
        match self {
            QType::Choice => "choice"@,
            QType::Score => "score"@,
            QType::Noul => "noul"@,
        }
    }

    /// The name used on the wire and in the rendered text.
    pub fn as_str(self) -> (r: &'static str)
        ensures
            r@ == self.name(),
    {
        match self {
            QType::Choice => "choice",
            QType::Score => "score",
            QType::Noul => "noul",
        }
    }

    /// The row of the type embedding: choice 0, score 1, noul 2.
    pub open spec fn number(self) -> usize {
        match self {
            QType::Choice => 0,
            QType::Score => 1,
            QType::Noul => 2,
        }
    }

    /// The row of the type embedding: choice 0, score 1, noul 2.
    pub fn index(self) -> (r: usize)
        ensures
            r == self.number(),
    {
        match self {
            QType::Choice => 0,
            QType::Score => 1,
            QType::Noul => 2,
        }
    }
}

/// One choice option. The description is `None` when it was null.
#[derive(Debug, Clone, PartialEq)]
pub struct ChoiceOption {
    /// The label, exactly as sent.
    pub label: String,
    /// The description, or `None` for null or when the criteria were a list of labels.
    pub description: Option<Json>,
}

/// The criteria of one question, in the shape its type takes.
#[derive(Debug, Clone, PartialEq)]
pub enum Criteria {
    /// Options in the order they were sent.
    Choice(Vec<ChoiceOption>),
    /// Levels, index 0 first.
    Score(Vec<Json>),
    /// The optional descriptions of the false and true outcomes.
    Noul {
        /// What false means, when given.
        when_false: Option<Json>,
        /// What true means, when given.
        when_true: Option<Json>,
    },
}

/// One validated question.
#[derive(Debug, Clone, PartialEq)]
pub struct Question {
    /// The key it was sent under.
    pub id: String,
    /// Its type.
    pub qtype: QType,
    /// The instructions. `None` when the field was left out, which is not the same as null.
    pub instructions: Option<Json>,
    /// Its criteria.
    pub criteria: Criteria,
}

/// A validated request.
#[derive(Debug, Clone, PartialEq)]
pub struct Request {
    /// The state, as sent. Never null.
    pub state: Json,
    /// The requested model, if any.
    pub model: Option<String>,
    /// The questions in request order.
    pub questions: Vec<Question>,
    /// The `kime` extension object, not yet interpreted.
    pub kime: Option<Vec<(String, Json)>>,
}

/// The limits, and the few rules that differ between models.
#[derive(Debug, Clone, Copy, PartialEq, Eq, Structural)]
pub struct Limits {
    /// The most questions in one request.
    pub max_questions: usize,
    /// The most options in one choice question.
    pub max_options: usize,
    /// The fewest levels a score question may have.
    pub min_levels: usize,
    /// The most levels a score question may have.
    pub max_levels: usize,
    /// Whether an empty `questions` object is allowed.
    pub allow_no_questions: bool,
}

impl Limits {
    /// The usual limits.
    pub open spec fn spec_jev() -> Limits {
        Limits {
            max_questions: 256,
            max_options: 255,
            min_levels: 2,
            max_levels: 32,
            allow_no_questions: false,
        }
    }

    /// What a compat model takes: a score question of one level, and no questions at all.
    pub open spec fn spec_laya() -> Limits {
        Limits { min_levels: 1, allow_no_questions: true, ..Limits::spec_jev() }
    }

    /// The usual limits.
    pub fn jev() -> (r: Limits)
        ensures
            r == Limits::spec_jev(),
    {
        Limits {
            max_questions: 256,
            max_options: 255,
            min_levels: 2,
            max_levels: 32,
            allow_no_questions: false,
        }
    }

    /// What a compat model takes: a score question of one level, and no questions at all.
    pub fn laya() -> (r: Limits)
        ensures
            r == Limits::spec_laya(),
    {
        Limits {
            max_questions: 256,
            max_options: 255,
            min_levels: 1,
            max_levels: 32,
            allow_no_questions: true,
        }
    }
}

impl Default for Limits {
    fn default() -> (r: Self)
        ensures
            r == Limits::spec_jev(),
    {
        Limits::jev()
    }
}

/// One element of an error location.
#[derive(Debug, Clone, PartialEq, Eq)]
pub enum Loc {
    /// An object key.
    Key(String),
    /// An array index.
    Index(usize),
}

/// One validation problem, in the shape FastAPI reports it.
#[derive(Debug, Clone, PartialEq)]
pub struct Problem {
    /// Where the problem is, starting with `body`.
    pub loc: Vec<Loc>,
    /// A sentence for the person reading it.
    pub msg: String,
    /// A short machine readable kind, such as `missing` or `too_short`.
    pub kind: &'static str,
    /// The value that was rejected, or null when the field was missing.
    pub input: Json,
}

/// An option, as plain values.
pub ghost struct OptionView {
    /// The label.
    pub label: Seq<char>,
    /// The description.
    pub description: Option<Value>,
}

/// Criteria, as plain values.
pub ghost enum CriteriaView {
    /// Options.
    Choice(Seq<OptionView>),
    /// Levels.
    Score(Seq<Value>),
    /// What false and true mean.
    Noul(Option<Value>, Option<Value>),
}

/// A question, as plain values.
pub ghost struct QuestionView {
    /// The key.
    pub id: Seq<char>,
    /// The type.
    pub qtype: QType,
    /// The instructions.
    pub instructions: Option<Value>,
    /// The criteria.
    pub criteria: CriteriaView,
}

/// A request, as plain values.
pub ghost struct RequestView {
    /// The state.
    pub state: Value,
    /// The model.
    pub model: Option<Seq<char>>,
    /// The questions.
    pub questions: Seq<QuestionView>,
    /// The extension object.
    pub kime: Option<Seq<(Seq<char>, Value)>>,
}

/// An element of a location, as plain values.
pub ghost enum LocView {
    /// An object key.
    Key(Seq<char>),
    /// An array index.
    Index(int),
}

/// A problem, as plain values.
pub ghost struct ProblemView {
    /// Where.
    pub loc: Seq<LocView>,
    /// What.
    pub msg: Seq<char>,
    /// Of which kind.
    pub kind: Seq<char>,
    /// The rejected value.
    pub input: Value,
}

/// The value that may be there.
pub open spec fn maybe(v: Option<Json>) -> Option<Value> {
    match v {
        Some(j) => Some(j@),
        None => None,
    }
}

impl View for ChoiceOption {
    type V = OptionView;

    open spec fn view(&self) -> OptionView {
        OptionView { label: self.label@, description: maybe(self.description) }
    }
}

impl View for Criteria {
    type V = CriteriaView;

    open spec fn view(&self) -> CriteriaView {
        match *self {
            Criteria::Choice(o) => CriteriaView::Choice(options_view(o@)),
            Criteria::Score(l) => CriteriaView::Score(values(l@)),
            Criteria::Noul { when_false, when_true } => CriteriaView::Noul(
                maybe(when_false),
                maybe(when_true),
            ),
        }
    }
}

impl View for Question {
    type V = QuestionView;

    open spec fn view(&self) -> QuestionView {
        QuestionView {
            id: self.id@,
            qtype: self.qtype,
            instructions: maybe(self.instructions),
            criteria: self.criteria@,
        }
    }
}

impl View for Request {
    type V = RequestView;

    open spec fn view(&self) -> RequestView {
        RequestView {
            state: self.state@,
            model: match self.model {
                Some(m) => Some(m@),
                None => None,
            },
            questions: questions_view(self.questions@),
            kime: match self.kime {
                Some(m) => Some(entries(m@)),
                None => None,
            },
        }
    }
}

impl View for Loc {
    type V = LocView;

    open spec fn view(&self) -> LocView {
        match *self {
            Loc::Key(k) => LocView::Key(k@),
            Loc::Index(i) => LocView::Index(i as int),
        }
    }
}

impl View for Problem {
    type V = ProblemView;

    open spec fn view(&self) -> ProblemView {
        ProblemView {
            loc: locs_view(self.loc@),
            msg: self.msg@,
            kind: self.kind@,
            input: self.input@,
        }
    }
}

/// Options as plain values.
pub open spec fn options_view(v: Seq<ChoiceOption>) -> Seq<OptionView> {
    Seq::new(v.len(), |i: int| v[i]@)
}

/// Questions as plain values.
pub open spec fn questions_view(v: Seq<Question>) -> Seq<QuestionView> {
    Seq::new(v.len(), |i: int| v[i]@)
}

/// Locations as plain values.
pub open spec fn locs_view(v: Seq<Loc>) -> Seq<LocView> {
    Seq::new(v.len(), |i: int| v[i]@)
}

/// Problems as plain values.
pub open spec fn problems_view(v: Seq<Problem>) -> Seq<ProblemView> {
    Seq::new(v.len(), |i: int| v[i]@)
}

impl CriteriaView {
    /// How many options the model scores.
    pub open spec fn count(self) -> int {
        match self {
            CriteriaView::Choice(o) => o.len() as int,
            CriteriaView::Score(l) => l.len() as int,
            CriteriaView::Noul(_, _) => 2,
        }
    }
}

impl Criteria {
    /// The number of options the model scores for this question.
    pub fn len(&self) -> (n: usize)
        ensures
            n == self@.count(),
    {
        match self {
            Criteria::Choice(o) => o.len(),
            Criteria::Score(l) => l.len(),
            Criteria::Noul { .. } => 2,
        }
    }

    /// Whether there is none, which is never so of a validated question.
    pub fn is_empty(&self) -> (r: bool)
        ensures
            r == (self@.count() == 0),
    {
        self.len() == 0
    }
}

/// A problem at a place of the body.
pub open spec fn problem(loc: Seq<LocView>, kind: Seq<char>, msg: Seq<char>, input: Value) -> ProblemView {
    ProblemView { loc: seq![LocView::Key("body"@)] + loc, msg, kind, input }
}

/// The location of a field.
pub open spec fn field(name: Seq<char>) -> Seq<LocView> {
    seq![LocView::Key(name)]
}

/// The location of a question.
pub open spec fn in_question(id: Seq<char>) -> Seq<LocView> {
    seq![LocView::Key("questions"@), LocView::Key(id)]
}

/// The location of a question's criteria.
pub open spec fn in_criteria(id: Seq<char>) -> Seq<LocView> {
    in_question(id).push(LocView::Key("criteria"@))
}

/// The problems of the state: it is required and not null.
pub open spec fn state_problems(m: Seq<(Seq<char>, Value)>) -> Seq<ProblemView> {
    match find(m, "state"@) {
        None => seq![problem(field("state"@), "missing"@, "Field required"@, Value::Null)],
        Some(Value::Null) => seq![
            problem(
                field("state"@),
                "value_error"@,
                "state must not be null, send \"\" for an empty state"@,
                Value::Null,
            ),
        ],
        Some(_) => seq![],
    }
}

/// The problems of the model: it is a string, null or left out.
pub open spec fn model_problems(m: Seq<(Seq<char>, Value)>) -> Seq<ProblemView> {
    match find(m, "model"@) {
        None => seq![],
        Some(Value::Null) => seq![],
        Some(Value::Str(_)) => seq![],
        Some(other) => seq![
            problem(field("model"@), "string_type"@, "Input should be a valid string"@, other),
        ],
    }
}

/// The problems of the extension object: it is an object, null or left out.
pub open spec fn kime_problems(m: Seq<(Seq<char>, Value)>) -> Seq<ProblemView> {
    match find(m, "kime"@) {
        None => seq![],
        Some(Value::Null) => seq![],
        Some(Value::Object(_)) => seq![],
        Some(other) => seq![
            problem(field("kime"@), "dict_type"@, "Input should be a valid dictionary"@, other),
        ],
    }
}

/// The problems of the number of questions.
pub open spec fn count_problems(qs: Seq<(Seq<char>, Value)>, limits: Limits) -> Seq<ProblemView> {
    (if qs.len() == 0 && !limits.allow_no_questions {
        seq![
            problem(
                field("questions"@),
                "too_short"@,
                "questions must have at least one question"@,
                Value::Object(qs),
            ),
        ]
    } else {
        seq![]
    }) + (if qs.len() > limits.max_questions {
        seq![
            problem(
                field("questions"@),
                "too_long"@,
                "a request can have at most "@ + dec(limits.max_questions as nat)
                    + " questions, got "@ + dec(qs.len()),
                Value::Null,
            ),
        ]
    } else {
        seq![]
    })
}

/// The problems of the first `n` questions.
pub open spec fn each_problems(qs: Seq<(Seq<char>, Value)>, limits: Limits, n: int) -> Seq<
    ProblemView,
>
    decreases n,
{
    if n <= 0 {
        seq![]
    } else {
        each_problems(qs, limits, n - 1) + question_problems(qs[n - 1].0, qs[n - 1].1, limits)
    }
}

/// The problems of the questions: an object of as many as allowed, each without problems.
pub open spec fn questions_problems(m: Seq<(Seq<char>, Value)>, limits: Limits) -> Seq<ProblemView> {
    match find(m, "questions"@) {
        None => seq![problem(field("questions"@), "missing"@, "Field required"@, Value::Null)],
        Some(Value::Object(qs)) => count_problems(qs, limits) + each_problems(
            qs,
            limits,
            qs.len() as int,
        ),
        Some(other) => seq![
            problem(
                field("questions"@),
                "dict_type"@,
                "Input should be a valid dictionary"@,
                other,
            ),
        ],
    }
}

/// Every problem of a request body, in the order of the fields: the state, the model, the questions
/// and the extension object.
pub open spec fn problems(body: Value, limits: Limits) -> Seq<ProblemView> {
    match body {
        Value::Object(m) => state_problems(m) + model_problems(m) + questions_problems(m, limits)
            + kime_problems(m),
        _ => seq![
            problem(seq![], "dict_type"@, "the request body must be a JSON object"@, body),
        ],
    }
}

/// The question type of a name.
pub open spec fn qtype_of(v: Value) -> Option<QType> {
    match v {
        Value::Str(t) => if t == "choice"@ {
            Some(QType::Choice)
        } else if t == "score"@ {
            Some(QType::Score)
        } else if t == "noul"@ {
            Some(QType::Noul)
        } else {
            None
        },
        _ => None,
    }
}

/// The problems of one question.
pub open spec fn question_problems(id: Seq<char>, q: Value, limits: Limits) -> Seq<ProblemView> {
    match q {
        Value::Object(m) => match find(m, "type"@) {
            None => seq![
                problem(
                    in_question(id).push(LocView::Key("type"@)),
                    "missing"@,
                    "Field required"@,
                    Value::Null,
                ),
            ],
            Some(t) => match qtype_of(t) {
                None => seq![
                    problem(
                        in_question(id).push(LocView::Key("type"@)),
                        "literal_error"@,
                        "Input should be 'choice', 'score' or 'noul'"@,
                        t,
                    ),
                ],
                Some(QType::Choice) => choice_problems(id, find(m, "criteria"@), limits),
                Some(QType::Score) => score_problems(id, find(m, "criteria"@), limits),
                Some(QType::Noul) => noul_problems(id, find(m, "criteria"@)),
            },
        },
        _ => seq![
            problem(in_question(id), "dict_type"@, "Input should be a valid dictionary"@, q),
        ],
    }
}

/// The problems of the first `n` labels of a list: each is a string.
pub open spec fn label_problems(id: Seq<char>, items: Seq<Value>, n: int) -> Seq<ProblemView>
    decreases n,
{
    if n <= 0 {
        seq![]
    } else {
        label_problems(id, items, n - 1) + (match items[n - 1] {
            Value::Str(_) => seq![],
            other => seq![
                problem(
                    in_criteria(id).push(LocView::Index(n - 1)),
                    "string_type"@,
                    "Input should be a valid string"@,
                    other,
                ),
            ],
        })
    }
}

/// The description of an option, none for null.
pub open spec fn described(v: Value) -> Option<Value> {
    match v {
        Value::Null => None,
        other => Some(other),
    }
}

/// The options of the first `n` entries of an object.
pub open spec fn entry_options(m: Seq<(Seq<char>, Value)>, n: int) -> Seq<OptionView> {
    Seq::new(n as nat, |i: int| OptionView { label: m[i].0, description: described(m[i].1) })
}

/// The options of the first `n` values of a list: its strings.
pub open spec fn list_options(items: Seq<Value>, n: int) -> Seq<OptionView>
    decreases n,
{
    if n <= 0 {
        seq![]
    } else {
        match items[n - 1] {
            Value::Str(s) => list_options(items, n - 1).push(
                OptionView { label: s, description: None },
            ),
            _ => list_options(items, n - 1),
        }
    }
}

/// The options of choice criteria.
pub open spec fn choice_options(crit: Option<Value>) -> Seq<OptionView> {
    match crit {
        Some(Value::Object(m)) => entry_options(m, m.len() as int),
        Some(Value::Array(items)) => list_options(items, items.len() as int),
        _ => seq![],
    }
}

/// The problem of the number of options.
pub open spec fn size_problems(id: Seq<char>, crit: Option<Value>, limits: Limits) -> Seq<ProblemView> {
    let n = match crit {
        Some(Value::Object(m)) => Some(m.len()),
        Some(Value::Array(items)) => Some(items.len()),
        _ => None,
    };
    match n {
        None => seq![],
        Some(n) => (if n == 0 {
            seq![
                problem(
                    in_criteria(id),
                    "too_short"@,
                    "choice question '"@ + id + "' needs at least 1 option, got 0"@,
                    crit->0,
                ),
            ]
        } else {
            seq![]
        }) + (if n > limits.max_options {
            seq![
                problem(
                    in_criteria(id),
                    "too_long"@,
                    "choice question '"@ + id + "' has "@ + dec(n) + " options, the limit is "@ + dec(
                        limits.max_options as nat,
                    ),
                    Value::Null,
                ),
            ]
        } else {
            seq![]
        }),
    }
}

/// Whether option `i` has the label of an earlier one, up to the space around it.
pub open spec fn repeats(o: Seq<OptionView>, i: int) -> bool {
    exists|j: int|
        0 <= j < i && trimmed((#[trigger] o[j]).label, Class::White) == trimmed(
            o[i].label,
            Class::White,
        )
}

/// The problems of the first `n` options that repeat a label.
pub open spec fn repeat_problems(id: Seq<char>, o: Seq<OptionView>, n: int) -> Seq<ProblemView>
    decreases n,
{
    if n <= 0 {
        seq![]
    } else {
        repeat_problems(id, o, n - 1) + (if repeats(o, n - 1) {
            seq![
                problem(
                    in_criteria(id),
                    "duplicate_label"@,
                    "choice question '"@ + id + "' has the label '"@ + trimmed(
                        o[n - 1].label,
                        Class::White,
                    ) + "' more than once"@,
                    Value::Str(o[n - 1].label),
                ),
            ]
        } else {
            seq![]
        })
    }
}

/// The problems of choice criteria: an object of label to description or a list of labels, with at
/// least one option, no more than allowed, and no label twice.
pub open spec fn choice_problems(id: Seq<char>, crit: Option<Value>, limits: Limits) -> Seq<
    ProblemView,
> {
    let shape = match crit {
        None => seq![problem(in_criteria(id), "missing"@, "Field required"@, Value::Null)],
        Some(Value::Object(_)) => seq![],
        Some(Value::Array(items)) => label_problems(id, items, items.len() as int),
        Some(other) => seq![
            problem(
                in_criteria(id),
                "choice_criteria_type"@,
                "choice question '"@ + id
                    + "' takes criteria as an object of label to description, or an array of labels"@,
                other,
            ),
        ],
    };
    let o = choice_options(crit);
    shape + size_problems(id, crit, limits) + repeat_problems(id, o, o.len() as int)
}

/// Whether an object has exactly the keys `0` to `n - 1`, for its `n` entries.
pub open spec fn numbered(m: Seq<(Seq<char>, Value)>) -> bool {
    forall|i: nat| i < m.len() ==> (#[trigger] find(m, dec(i))) is Some
}

/// The levels of score criteria: a list, or an object with exactly the keys `0` to `n - 1`.
pub open spec fn levels_of(crit: Option<Value>) -> Option<Seq<Value>> {
    match crit {
        Some(Value::Array(items)) => Some(items),
        Some(Value::Object(m)) => if numbered(m) {
            Some(Seq::new(m.len(), |i: int| find(m, dec(i as nat))->0))
        } else {
            None
        },
        _ => None,
    }
}

/// The problems of score criteria: levels, at least and at most as many as allowed.
pub open spec fn score_problems(id: Seq<char>, crit: Option<Value>, limits: Limits) -> Seq<
    ProblemView,
> {
    match (crit, levels_of(crit)) {
        (None, _) => seq![problem(in_criteria(id), "missing"@, "Field required"@, Value::Null)],
        (Some(other), None) => seq![
            problem(
                in_criteria(id),
                "score_criteria_type"@,
                "score question '"@ + id
                    + "' takes criteria as an array of level descriptions, level 0 first"@,
                other,
            ),
        ],
        (Some(c), Some(levels)) => {
            let n = levels.len();
            (if n < limits.min_levels {
                seq![
                    problem(
                        in_criteria(id),
                        "too_short"@,
                        "score question '"@ + id + "' needs at least "@ + dec(
                            limits.min_levels as nat,
                        ) + (if limits.min_levels == 1 {
                            " level"@
                        } else {
                            " levels"@
                        }) + ", got "@ + dec(n),
                        c,
                    ),
                ]
            } else {
                seq![]
            }) + (if n > limits.max_levels {
                seq![
                    problem(
                        in_criteria(id),
                        "too_long"@,
                        "score question '"@ + id + "' has "@ + dec(n) + " levels, the limit is "@
                            + dec(limits.max_levels as nat),
                        Value::Null,
                    ),
                ]
            } else {
                seq![]
            })
        },
    }
}

/// The problems of the first `n` keys of noul criteria: each is `true` or `false` in lower case.
pub open spec fn key_problems(id: Seq<char>, m: Seq<(Seq<char>, Value)>, n: int) -> Seq<ProblemView>
    decreases n,
{
    if n <= 0 {
        seq![]
    } else {
        let k = m[n - 1].0;
        key_problems(id, m, n - 1) + (if lower(k) == "true"@ || lower(k) == "false"@ {
            seq![]
        } else {
            seq![
                problem(
                    in_criteria(id).push(LocView::Key(k)),
                    "noul_key"@,
                    "noul question '"@ + id + "' takes only the keys true and false, got '"@ + k
                        + "'"@,
                    m[n - 1].1,
                ),
            ]
        })
    }
}

/// The problems of noul criteria: none, null, or an object of true and false descriptions.
pub open spec fn noul_problems(id: Seq<char>, crit: Option<Value>) -> Seq<ProblemView> {
    match crit {
        None => seq![],
        Some(Value::Null) => seq![],
        Some(Value::Object(m)) => key_problems(id, m, m.len() as int),
        Some(other) => seq![
            problem(
                in_criteria(id),
                "noul_criteria_type"@,
                "noul question '"@ + id
                    + "' takes criteria as an object with optional true and false descriptions, or none"@,
                other,
            ),
        ],
    }
}

/// The value of the last of the first `n` entries whose key is `side` in lower case.
pub open spec fn last_side(m: Seq<(Seq<char>, Value)>, side: Seq<char>, n: int) -> Option<Value>
    decreases n,
{
    if n <= 0 {
        None
    } else if lower(m[n - 1].0) == side {
        Some(m[n - 1].1)
    } else {
        last_side(m, side, n - 1)
    }
}

/// What one side of noul criteria means.
pub open spec fn side_of(crit: Option<Value>, side: Seq<char>) -> Option<Value> {
    match crit {
        Some(Value::Object(m)) => last_side(m, side, m.len() as int),
        _ => None,
    }
}

/// The criteria of a question, by its type.
pub open spec fn criteria_of(qtype: QType, crit: Option<Value>) -> CriteriaView {
    match qtype {
        QType::Choice => CriteriaView::Choice(choice_options(crit)),
        QType::Score => CriteriaView::Score(
            match levels_of(crit) {
                Some(l) => l,
                None => seq![],
            },
        ),
        QType::Noul => CriteriaView::Noul(side_of(crit, "false"@), side_of(crit, "true"@)),
    }
}

/// A question without problems.
pub open spec fn question_of(id: Seq<char>, q: Value) -> QuestionView {
    let m = q->Object_0;
    let qtype = qtype_of(find(m, "type"@)->0)->0;
    QuestionView {
        id,
        qtype,
        instructions: find(m, "instructions"@),
        criteria: criteria_of(qtype, find(m, "criteria"@)),
    }
}

/// A request without problems.
pub open spec fn request_of(body: Value) -> RequestView {
    let m = body->Object_0;
    let qs = find(m, "questions"@)->0->Object_0;
    RequestView {
        state: find(m, "state"@)->0,
        model: match find(m, "model"@) {
            Some(Value::Str(s)) => Some(s),
            _ => None,
        },
        questions: Seq::new(qs.len(), |i: int| question_of(qs[i].0, qs[i].1)),
        kime: match find(m, "kime"@) {
            Some(Value::Object(o)) => Some(o),
            _ => None,
        },
    }
}

/// The key `k` as a location.
fn key(k: &str) -> (r: Loc)
    ensures
        r@ == LocView::Key(k@),
{
    Loc::Key(k.to_owned())
}

/// The location of a field.
fn at_field(name: &str) -> (r: Vec<Loc>)
    ensures
        locs_view(r@) == field(name@),
{
    let mut r: Vec<Loc> = Vec::new();
    r.push(key(name));
    assert(locs_view(r@) =~= field(name@));
    r
}

/// The location of a question.
fn at_question(id: &str) -> (r: Vec<Loc>)
    ensures
        locs_view(r@) == in_question(id@),
{
    let mut r: Vec<Loc> = Vec::new();
    r.push(key("questions"));
    r.push(key(id));
    assert(locs_view(r@) =~= in_question(id@));
    r
}

/// The location of a part of a question.
fn at_part(id: &str, part: &str) -> (r: Vec<Loc>)
    ensures
        locs_view(r@) == in_question(id@).push(LocView::Key(part@)),
{
    let mut r = at_question(id);
    let ghost before = locs_view(r@);
    r.push(key(part));
    assert(locs_view(r@) =~= before.push(LocView::Key(part@)));
    r
}

/// The location of a part of a question's criteria.
fn at_criterion(id: &str, part: Loc) -> (r: Vec<Loc>)
    ensures
        locs_view(r@) == in_criteria(id@).push(part@),
{
    let mut r = at_part(id, "criteria");
    let ghost before = locs_view(r@);
    let ghost p = part@;
    r.push(part);
    assert(locs_view(r@) =~= before.push(p));
    r
}

/// Adds a problem.
fn report(p: &mut Vec<Problem>, loc: Vec<Loc>, kind: &'static str, msg: String, input: Json)
    ensures
        problems_view(final(p)@) == problems_view(old(p)@).push(
            problem(locs_view(loc@), kind@, msg@, input@),
        ),
{
    let ghost before = problems_view(p@);
    let ghost want = problem(locs_view(loc@), kind@, msg@, input@);
    let mut full: Vec<Loc> = Vec::new();
    full.push(key("body"));
    let ghost tail = locs_view(loc@);
    let mut rest = loc;
    let ghost head = full@;
    let ghost list = rest@;
    full.append(&mut rest);
    assert(locs_view(full@) =~= seq![LocView::Key("body"@)] + tail) by {
        assert(full@ =~= head + list);
    }
    p.push(Problem { loc: full, msg, kind, input });
    assert(problems_view(p@) =~= before.push(want));
}

/// Adds the problems of the state and returns it.
fn read_state(m: &Vec<(String, Json)>, p: &mut Vec<Problem>) -> (r: Json)
    ensures
        problems_view(final(p)@) == problems_view(old(p)@) + state_problems(entries(m@)),
        state_problems(entries(m@)).len() == 0 ==> find(entries(m@), "state"@) == Some(r@),
{
    let ghost before = problems_view(p@);
    let state = match get(m, "state") {
        None => {
            report(p, at_field("state"), "missing", "Field required".to_owned(), Json::Null);
            Json::Null
        },
        Some(s) => {
            if s.is_null() {
                report(
                    p,
                    at_field("state"),
                    "value_error",
                    "state must not be null, send \"\" for an empty state".to_owned(),
                    Json::Null,
                );
                Json::Null
            } else {
                s.copy()
            }
        },
    };
    assert(problems_view(p@) =~= before + state_problems(entries(m@)));
    state
}

/// Adds the problems of the model and returns it.
fn read_model(m: &Vec<(String, Json)>, p: &mut Vec<Problem>) -> (r: Option<String>)
    ensures
        problems_view(final(p)@) == problems_view(old(p)@) + model_problems(entries(m@)),
        match (r, find(entries(m@), "model"@)) {
            (Some(s), Some(Value::Str(t))) => s@ == t,
            (None, Some(Value::Str(_))) => false,
            (Some(_), _) => false,
            (None, _) => true,
        },
{
    let ghost before = problems_view(p@);
    let r = match get(m, "model") {
        None => None,
        Some(v) => match v {
            Json::Null => None,
            Json::Str(s) => Some(s.as_str().to_owned()),
            other => {
                report(
                    p,
                    at_field("model"),
                    "string_type",
                    "Input should be a valid string".to_owned(),
                    other.copy(),
                );
                None
            },
        },
    };
    assert(problems_view(p@) =~= before + model_problems(entries(m@)));
    r
}

/// Adds the problems of the extension object and returns it.
fn read_kime(m: &Vec<(String, Json)>, p: &mut Vec<Problem>) -> (r: Option<Vec<(String, Json)>>)
    ensures
        problems_view(final(p)@) == problems_view(old(p)@) + kime_problems(entries(m@)),
        match (r, find(entries(m@), "kime"@)) {
            (Some(o), Some(Value::Object(w))) => entries(o@) == w,
            (None, Some(Value::Object(_))) => false,
            (Some(_), _) => false,
            (None, _) => true,
        },
{
    let ghost before = problems_view(p@);
    let r = match get(m, "kime") {
        None => None,
        Some(v) => match v {
            Json::Null => None,
            Json::Object(o) => {
                proof {
                    object_view(*o);
                }
                Some(copy_object(o))
            },
            other => {
                report(
                    p,
                    at_field("kime"),
                    "dict_type",
                    "Input should be a valid dictionary".to_owned(),
                    other.copy(),
                );
                None
            },
        },
    };
    assert(problems_view(p@) =~= before + kime_problems(entries(m@)));
    r
}

/// Adds the problems of the number of questions.
fn count_questions(qs: &Vec<(String, Json)>, limits: &Limits, p: &mut Vec<Problem>)
    ensures
        problems_view(final(p)@) == problems_view(old(p)@) + count_problems(entries(qs@), *limits),
{
    let ghost before = problems_view(p@);
    if qs.len() == 0 && !limits.allow_no_questions {
        let input = Json::Object(copy_object(qs));
        proof {
            object_view(*qs);
        }
        report(
            p,
            at_field("questions"),
            "too_short",
            "questions must have at least one question".to_owned(),
            input,
        );
    }
    if qs.len() > limits.max_questions {
        let mut msg = "a request can have at most ".to_owned();
        msg.append(decimal(limits.max_questions as u64).as_str());
        msg.append(" questions, got ");
        msg.append(decimal(qs.len() as u64).as_str());
        report(p, at_field("questions"), "too_long", msg, Json::Null);
    }
    assert(problems_view(p@) =~= before + count_problems(entries(qs@), *limits));
}

/// Reads and validates a request body: the request when it has no problem, and every problem, in
/// the order of the fields, otherwise.
pub fn parse(body: &Json, limits: &Limits) -> (r: Result<Request, Vec<Problem>>)
    ensures
        match r {
            Ok(q) => problems(body@, *limits).len() == 0 && q@ == request_of(body@),
            Err(p) => p@.len() > 0 && problems_view(p@) == problems(body@, *limits),
        },
{
    let mut p: Vec<Problem> = Vec::new();
    assert(problems_view(p@) =~= seq![]);
    let m = match body {
        Json::Object(m) => m,
        other => {
            report(
                &mut p,
                Vec::new(),
                "dict_type",
                "the request body must be a JSON object".to_owned(),
                other.copy(),
            );
            assert(problems_view(p@) =~= problems(body@, *limits)) by {
                assert(locs_view(Seq::<Loc>::empty()) =~= seq![]);
            }
            return Err(p);
        },
    };
    proof {
        object_view(*m);
    }
    let state = read_state(m, &mut p);
    let model = read_model(m, &mut p);
    let questions = read_list(m, limits, &mut p);
    let kime = read_kime(m, &mut p);
    assert(problems_view(p@) =~= problems(body@, *limits));
    if p.len() == 0 {
        let r = Request { state, model, questions, kime };
        assert(r@.questions =~= request_of(body@).questions);
        Ok(r)
    } else {
        Err(p)
    }
}

/// Adds the problems of the questions, and returns them when they have none.
fn read_list(m: &Vec<(String, Json)>, limits: &Limits, p: &mut Vec<Problem>) -> (r: Vec<Question>)
    ensures
        problems_view(final(p)@) == problems_view(old(p)@) + questions_problems(
            entries(m@),
            *limits,
        ),
        questions_problems(entries(m@), *limits).len() == 0 ==> ({
            let qs = find(entries(m@), "questions"@)->0->Object_0;
            questions_view(r@) == Seq::new(qs.len(), |i: int| question_of(qs[i].0, qs[i].1))
        }),
{
    let ghost before = problems_view(p@);
    let mut questions: Vec<Question> = Vec::new();
    match get(m, "questions") {
        None => {
            report(p, at_field("questions"), "missing", "Field required".to_owned(), Json::Null);
        },
        Some(v) => match v {
            Json::Object(qs) => {
                proof {
                    object_view(*qs);
                }
                count_questions(qs, limits, p);
                read_questions(qs, limits, p, &mut questions);
            },
            other => {
                report(
                    p,
                    at_field("questions"),
                    "dict_type",
                    "Input should be a valid dictionary".to_owned(),
                    other.copy(),
                );
            },
        },
    }
    assert(problems_view(p@) =~= before + questions_problems(entries(m@), *limits));
    questions
}

/// Adds the problems of every question and collects those without.
fn read_questions(
    qs: &Vec<(String, Json)>,
    limits: &Limits,
    p: &mut Vec<Problem>,
    out: &mut Vec<Question>,
)
    requires
        old(out)@.len() == 0,
    ensures
        problems_view(final(p)@) == problems_view(old(p)@) + each_problems(
            entries(qs@),
            *limits,
            qs@.len() as int,
        ),
        each_problems(entries(qs@), *limits, qs@.len() as int).len() == 0 ==> questions_view(
            final(out)@,
        ) == Seq::new(
            qs@.len(),
            |i: int| question_of(entries(qs@)[i].0, entries(qs@)[i].1),
        ),
{
    let ghost before = problems_view(p@);
    let ghost e = entries(qs@);
    let mut i: usize = 0;
    assert(problems_view(p@) =~= before + each_problems(e, *limits, 0));
    assert(questions_view(out@) =~= Seq::new(0, |i: int| question_of(e[i].0, e[i].1)));
    while i < qs.len()
        invariant
            i <= qs@.len(),
            e == entries(qs@),
            problems_view(p@) == before + each_problems(e, *limits, i as int),
            each_problems(e, *limits, i as int).len() == 0 ==> questions_view(out@) == Seq::new(
                i as nat,
                |i: int| question_of(e[i].0, e[i].1),
            ),
        decreases qs@.len() - i,
    {
        let ghost so_far = questions_view(out@);
        let ghost held = problems_view(p@);
        let pair = &qs[i];
        let q = question(pair.0.as_str(), &pair.1, limits, p);
        assert(e[i as int] == (pair.0@, pair.1@));
        if let Some(q) = q {
            out.push(q);
            assert(questions_view(out@) =~= so_far.push(q@));
        }
        i += 1;
        assert(problems_view(p@) =~= before + each_problems(e, *limits, i as int));
        proof {
            if each_problems(e, *limits, i as int).len() == 0 {
                assert(questions_view(out@) =~= Seq::new(
                    i as nat,
                    |i: int| question_of(e[i].0, e[i].1),
                ));
            }
        }
    }
}

/// Adds the problems of one question, and returns it when it has none.
fn question(id: &str, q: &Json, limits: &Limits, p: &mut Vec<Problem>) -> (r: Option<Question>)
    ensures
        problems_view(final(p)@) == problems_view(old(p)@) + question_problems(id@, q@, *limits),
        match r {
            Some(x) => question_problems(id@, q@, *limits).len() == 0 && x@ == question_of(id@, q@),
            None => question_problems(id@, q@, *limits).len() > 0,
        },
{
    let ghost before = problems_view(p@);
    let m = match q {
        Json::Object(m) => m,
        other => {
            report(
                p,
                at_question(id),
                "dict_type",
                "Input should be a valid dictionary".to_owned(),
                other.copy(),
            );
            assert(problems_view(p@) =~= before + question_problems(id@, q@, *limits));
            return None;
        },
    };
    proof {
        object_view(*m);
    }
    let qtype = match get(m, "type") {
        None => {
            report(p, at_part(id, "type"), "missing", "Field required".to_owned(), Json::Null);
            assert(problems_view(p@) =~= before + question_problems(id@, q@, *limits));
            return None;
        },
        Some(t) => match named_type(t) {
            Some(qtype) => qtype,
            None => {
                report(
                    p,
                    at_part(id, "type"),
                    "literal_error",
                    "Input should be 'choice', 'score' or 'noul'".to_owned(),
                    t.copy(),
                );
                assert(problems_view(p@) =~= before + question_problems(id@, q@, *limits));
                return None;
            },
        },
    };
    let instructions = match get(m, "instructions") {
        Some(v) => Some(v.copy()),
        None => None,
    };
    let crit = get(m, "criteria");
    let start: usize = p.len();
    let criteria = match qtype {
        QType::Choice => choice(id, crit, limits, p),
        QType::Score => score(id, crit, limits, p),
        QType::Noul => noul(id, crit, p),
    };
    assert(problems_view(p@).len() == p@.len());
    assert(before.len() == start);
    if p.len() > start {
        return None;
    }
    Some(Question { id: id.to_owned(), qtype, instructions, criteria })
}

/// The question type of a name.
fn named_type(t: &Json) -> (r: Option<QType>)
    ensures
        r == qtype_of(t@),
{
    match t {
        Json::Str(t) => {
            if same(t.as_str(), "choice") {
                Some(QType::Choice)
            } else if same(t.as_str(), "score") {
                Some(QType::Score)
            } else if same(t.as_str(), "noul") {
                Some(QType::Noul)
            } else {
                None
            }
        },
        _ => None,
    }
}

/// A value that may be there, as a plain value.
pub open spec fn given(v: Option<&Json>) -> Option<Value> {
    match v {
        Some(j) => Some(j@),
        None => None,
    }
}

/// The options of an object of label to description.
fn options_of(m: &Vec<(String, Json)>) -> (r: Vec<ChoiceOption>)
    ensures
        options_view(r@) == entry_options(entries(m@), m@.len() as int),
{
    let mut options: Vec<ChoiceOption> = Vec::new();
    let mut i: usize = 0;
    assert(options_view(options@) =~= entry_options(entries(m@), 0));
    while i < m.len()
        invariant
            i <= m@.len(),
            options_view(options@) == entry_options(entries(m@), i as int),
        decreases m@.len() - i,
    {
        let ghost before = options_view(options@);
        let e = &m[i];
        let description = if e.1.is_null() {
            None
        } else {
            Some(e.1.copy())
        };
        let o = ChoiceOption { label: e.0.as_str().to_owned(), description };
        let ghost shown = o@;
        options.push(o);
        i += 1;
        assert(options_view(options@) =~= before.push(shown));
        assert(options_view(options@) =~= entry_options(entries(m@), i as int));
    }
    options
}

/// Adds the problems of a list of labels, and returns the options of those that are strings.
fn options_in(id: &str, items: &Vec<Json>, p: &mut Vec<Problem>) -> (r: Vec<ChoiceOption>)
    ensures
        options_view(r@) == list_options(values(items@), items@.len() as int),
        problems_view(final(p)@) == problems_view(old(p)@) + label_problems(
            id@,
            values(items@),
            items@.len() as int,
        ),
{
    let ghost before = problems_view(p@);
    let ghost v = values(items@);
    let mut options: Vec<ChoiceOption> = Vec::new();
    let mut i: usize = 0;
    assert(options_view(options@) =~= list_options(v, 0));
    assert(problems_view(p@) =~= before + label_problems(id@, v, 0));
    while i < items.len()
        invariant
            i <= items@.len(),
            v == values(items@),
            options_view(options@) == list_options(v, i as int),
            problems_view(p@) == before + label_problems(id@, v, i as int),
        decreases items@.len() - i,
    {
        let ghost so_far = options_view(options@);
        assert(v[i as int] == items@[i as int]@);
        match &items[i] {
            Json::Str(label) => {
                let o = ChoiceOption { label: label.as_str().to_owned(), description: None };
                let ghost shown = o@;
                options.push(o);
                assert(options_view(options@) =~= so_far.push(shown));
            },
            other => {
                report(
                    p,
                    at_criterion(id, Loc::Index(i)),
                    "string_type",
                    "Input should be a valid string".to_owned(),
                    other.copy(),
                );
            },
        }
        i += 1;
        assert(problems_view(p@) =~= before + label_problems(id@, v, i as int));
        assert(options_view(options@) =~= list_options(v, i as int));
    }
    options
}

/// Adds the problems of the number of options.
fn count_options(id: &str, crit: Option<&Json>, limits: &Limits, p: &mut Vec<Problem>)
    ensures
        problems_view(final(p)@) == problems_view(old(p)@) + size_problems(
            id@,
            given(crit),
            *limits,
        ),
{
    let ghost before = problems_view(p@);
    if let Some(c) = crit {
        let n: usize = match c {
            Json::Object(m) => m.len(),
            Json::Array(a) => a.len(),
            _ => {
                assert(problems_view(p@) =~= before + size_problems(id@, given(crit), *limits));
                return ;
            },
        };
        if n == 0 {
            let msg = join3("choice question '", id, "' needs at least 1 option, got 0");
            report(p, at_part(id, "criteria"), "too_short", msg, c.copy());
        }
        if n > limits.max_options {
            let mut msg = join3("choice question '", id, "' has ");
            msg.append(decimal(n as u64).as_str());
            msg.append(" options, the limit is ");
            msg.append(decimal(limits.max_options as u64).as_str());
            report(p, at_part(id, "criteria"), "too_long", msg, Json::Null);
        }
    }
    assert(problems_view(p@) =~= before + size_problems(id@, given(crit), *limits));
}

/// Adds a problem for every option that repeats a label.
fn find_repeats(id: &str, options: &Vec<ChoiceOption>, p: &mut Vec<Problem>)
    ensures
        problems_view(final(p)@) == problems_view(old(p)@) + repeat_problems(
            id@,
            options_view(options@),
            options@.len() as int,
        ),
{
    let ghost before = problems_view(p@);
    let ghost o = options_view(options@);
    let mut seen: Vec<Vec<char>> = Vec::new();
    let mut i: usize = 0;
    assert(problems_view(p@) =~= before + repeat_problems(id@, o, 0));
    while i < options.len()
        invariant
            i <= options@.len(),
            o == options_view(options@),
            seen@.len() == i,
            forall|j: int| 0 <= j < i ==> (#[trigger] seen@[j])@ == trimmed(o[j].label, Class::White),
            problems_view(p@) == before + repeat_problems(id@, o, i as int),
        decreases options@.len() - i,
    {
        let label = options[i].label.as_str();
        assert(o[i as int].label == label@);
        let bare = trim(&chars_of(label), Class::White);
        let text = text_of(&bare);
        let mut again = false;
        let mut j: usize = 0;
        while j < i && !again
            invariant
                j <= i == seen@.len(),
                i < o.len(),
                bare@ == trimmed(o[i as int].label, Class::White),
                text@ == bare@,
                forall|j: int|
                    0 <= j < i ==> (#[trigger] seen@[j])@ == trimmed(o[j].label, Class::White),
                again ==> repeats(o, i as int),
                !again ==> forall|k: int|
                    0 <= k < j ==> trimmed((#[trigger] o[k]).label, Class::White) != trimmed(
                        o[i as int].label,
                        Class::White,
                    ),
            decreases i - j + if again {
                0int
            } else {
                1
            },
        {
            assert(seen@[j as int]@ == trimmed(o[j as int].label, Class::White));
            if is_text(&seen[j], text.as_str()) {
                again = true;
            } else {
                j += 1;
            }
        }
        if again {
            let msg = join5(
                "choice question '",
                id,
                "' has the label '",
                text.as_str(),
                "' more than once",
            );
            report(
                p,
                at_part(id, "criteria"),
                "duplicate_label",
                msg,
                Json::Str(label.to_owned()),
            );
        }
        seen.push(bare);
        i += 1;
        assert(problems_view(p@) =~= before + repeat_problems(id@, o, i as int));
    }
}

/// Adds the problems of choice criteria, and returns them.
fn choice(id: &str, crit: Option<&Json>, limits: &Limits, p: &mut Vec<Problem>) -> (r: Criteria)
    ensures
        problems_view(final(p)@) == problems_view(old(p)@) + choice_problems(
            id@,
            given(crit),
            *limits,
        ),
        r@ == criteria_of(QType::Choice, given(crit)),
{
    let ghost before = problems_view(p@);
    let mut options: Vec<ChoiceOption> = Vec::new();
    assert(options_view(options@) =~= seq![]);
    match crit {
        None => {
            report(p, at_part(id, "criteria"), "missing", "Field required".to_owned(), Json::Null);
        },
        Some(c) => match c {
            Json::Object(m) => {
                proof {
                    object_view(*m);
                }
                options = options_of(m);
            },
            Json::Array(items) => {
                proof {
                    array_view(*items);
                }
                options = options_in(id, items, p);
            },
            other => {
                let msg = join3(
                    "choice question '",
                    id,
                    "' takes criteria as an object of label to description, or an array of labels",
                );
                report(p, at_part(id, "criteria"), "choice_criteria_type", msg, other.copy());
            },
        },
    }
    assert(options_view(options@) == choice_options(given(crit)));
    count_options(id, crit, limits, p);
    find_repeats(id, &options, p);
    assert(problems_view(p@) =~= before + choice_problems(id@, given(crit), *limits));
    Criteria::Choice(options)
}

/// The levels of an object with exactly the keys `0` to `n - 1`.
fn numbered_levels(m: &Vec<(String, Json)>) -> (r: Option<Vec<Json>>)
    ensures
        match r {
            Some(l) => numbered(entries(m@)) && values(l@) == Seq::new(
                m@.len(),
                |i: int| find(entries(m@), dec(i as nat))->0,
            ),
            None => !numbered(entries(m@)),
        },
{
    let ghost e = entries(m@);
    let mut out: Vec<Json> = Vec::new();
    let mut i: usize = 0;
    assert(values(out@) =~= Seq::new(0, |i: int| find(e, dec(i as nat))->0));
    while i < m.len()
        invariant
            i <= m@.len(),
            e == entries(m@),
            forall|k: nat| k < i ==> (#[trigger] find(e, dec(k))) is Some,
            values(out@) == Seq::new(i as nat, |i: int| find(e, dec(i as nat))->0),
        decreases m@.len() - i,
    {
        let ghost before = values(out@);
        match get(m, decimal(i as u64).as_str()) {
            None => {
                assert(find(e, dec(i as nat)) is None);
                return None;
            },
            Some(v) => {
                let c = v.copy();
                out.push(c);
                assert(values(out@) =~= before.push(c@));
            },
        }
        i += 1;
        assert(values(out@) =~= Seq::new(i as nat, |i: int| find(e, dec(i as nat))->0));
    }
    Some(out)
}

/// Adds the problems of score criteria, and returns them.
fn score(id: &str, crit: Option<&Json>, limits: &Limits, p: &mut Vec<Problem>) -> (r: Criteria)
    ensures
        problems_view(final(p)@) == problems_view(old(p)@) + score_problems(
            id@,
            given(crit),
            *limits,
        ),
        r@ == criteria_of(QType::Score, given(crit)),
{
    let ghost before = problems_view(p@);
    let ghost none = values(Seq::<Json>::empty());
    assert(none =~= seq![]);
    let c = match crit {
        None => {
            report(p, at_part(id, "criteria"), "missing", "Field required".to_owned(), Json::Null);
            assert(problems_view(p@) =~= before + score_problems(id@, given(crit), *limits));
            return Criteria::Score(Vec::new());
        },
        Some(c) => c,
    };
    let levels: Option<Vec<Json>> = match c {
        Json::Array(items) => {
            proof {
                array_view(*items);
            }
            Some(copy_array(items))
        },
        Json::Object(m) => {
            proof {
                object_view(*m);
            }
            numbered_levels(m)
        },
        _ => None,
    };
    let levels = match levels {
        None => {
            let msg = join3(
                "score question '",
                id,
                "' takes criteria as an array of level descriptions, level 0 first",
            );
            report(p, at_part(id, "criteria"), "score_criteria_type", msg, c.copy());
            assert(problems_view(p@) =~= before + score_problems(id@, given(crit), *limits));
            return Criteria::Score(Vec::new());
        },
        Some(l) => l,
    };
    assert(levels_of(given(crit)) == Some(values(levels@)));
    let n: usize = levels.len();
    if n < limits.min_levels {
        let unit = if limits.min_levels == 1 {
            " level"
        } else {
            " levels"
        };
        let msg = join7(
            "score question '",
            id,
            "' needs at least ",
            decimal(limits.min_levels as u64).as_str(),
            unit,
            ", got ",
            decimal(n as u64).as_str(),
        );
        report(p, at_part(id, "criteria"), "too_short", msg, c.copy());
    }
    if n > limits.max_levels {
        let mut msg = join3("score question '", id, "' has ");
        msg.append(decimal(n as u64).as_str());
        msg.append(" levels, the limit is ");
        msg.append(decimal(limits.max_levels as u64).as_str());
        report(p, at_part(id, "criteria"), "too_long", msg, Json::Null);
    }
    assert(problems_view(p@) =~= before + score_problems(id@, given(crit), *limits));
    Criteria::Score(levels)
}

/// Adds the problems of noul criteria, and returns them. Keys match in lower case, and a later key
/// wins over an earlier one that is the same in lower case.
fn noul(id: &str, crit: Option<&Json>, p: &mut Vec<Problem>) -> (r: Criteria)
    ensures
        problems_view(final(p)@) == problems_view(old(p)@) + noul_problems(id@, given(crit)),
        r@ == criteria_of(QType::Noul, given(crit)),
{
    let ghost before = problems_view(p@);
    let mut when_false: Option<Json> = None;
    let mut when_true: Option<Json> = None;
    if let Some(c) = crit {
        match c {
            Json::Null => {},
            Json::Object(m) => {
                proof {
                    object_view(*m);
                }
                let ghost e = entries(m@);
                let mut i: usize = 0;
                assert(problems_view(p@) =~= before + key_problems(id@, e, 0));
                while i < m.len()
                    invariant
                        i <= m@.len(),
                        e == entries(m@),
                        problems_view(p@) == before + key_problems(id@, e, i as int),
                        maybe(when_false) == last_side(e, "false"@, i as int),
                        maybe(when_true) == last_side(e, "true"@, i as int),
                    decreases m@.len() - i,
                {
                    let pair = &m[i];
                    assert(e[i as int] == (pair.0@, pair.1@));
                    let k = pair.0.as_str().to_lowercase();
                    proof {
                        reveal_strlit("true");
                        reveal_strlit("false");
                        assert("true"@.len() != "false"@.len());
                    }
                    if same(k.as_str(), "true") {
                        when_true = Some(pair.1.copy());
                    } else if same(k.as_str(), "false") {
                        when_false = Some(pair.1.copy());
                    } else {
                        let msg = join5(
                            "noul question '",
                            id,
                            "' takes only the keys true and false, got '",
                            pair.0.as_str(),
                            "'",
                        );
                        report(
                            p,
                            at_criterion(id, key(pair.0.as_str())),
                            "noul_key",
                            msg,
                            pair.1.copy(),
                        );
                    }
                    i += 1;
                    assert(problems_view(p@) =~= before + key_problems(id@, e, i as int));
                }
            },
            other => {
                let msg = join3(
                    "noul question '",
                    id,
                    "' takes criteria as an object with optional true and false descriptions, or none",
                );
                report(p, at_part(id, "criteria"), "noul_criteria_type", msg, other.copy());
            },
        }
    }
    assert(problems_view(p@) =~= before + noul_problems(id@, given(crit)));
    Criteria::Noul { when_false, when_true }
}

/// A location as JSON.
pub open spec fn loc_json(l: LocView) -> Value {
    match l {
        LocView::Key(k) => Value::Str(k),
        LocView::Index(i) => Value::Num(Num::Int(i)),
    }
}

/// A problem as JSON: `{"loc": [...], "msg": "...", "type": "...", "input": ...}`.
pub open spec fn problem_json(p: ProblemView) -> Value {
    Value::Object(
        seq![
            ("loc"@, Value::Array(Seq::new(p.loc.len(), |i: int| loc_json(p.loc[i])))),
            ("msg"@, Value::Str(p.msg)),
            ("type"@, Value::Str(p.kind)),
            ("input"@, p.input),
        ],
    )
}

impl Problem {
    /// The problem as JSON: `{"loc": [...], "msg": "...", "type": "...", "input": ...}`.
    pub fn to_json(&self) -> (r: Json)
        ensures
            r@ == problem_json(self@),
    {
        let mut loc: Vec<Json> = Vec::new();
        let mut i: usize = 0;
        let ghost l = locs_view(self.loc@);
        while i < self.loc.len()
            invariant
                i <= self.loc@.len(),
                l == locs_view(self.loc@),
                values(loc@) == Seq::new(i as nat, |i: int| loc_json(l[i])),
            decreases self.loc@.len() - i,
        {
            let ghost before = values(loc@);
            let j = match &self.loc[i] {
                Loc::Key(k) => Json::Str(k.as_str().to_owned()),
                Loc::Index(n) => index_json(*n),
            };
            let ghost shown = j@;
            loc.push(j);
            assert(values(loc@) =~= before.push(shown));
            i += 1;
            assert(values(loc@) =~= Seq::new(i as nat, |i: int| loc_json(l[i])));
        }
        let mut m: Vec<(String, Json)> = Vec::new();
        proof {
            array_view(loc);
        }
        m.push(("loc".to_owned(), Json::Array(loc)));
        m.push(("msg".to_owned(), Json::Str(self.msg.as_str().to_owned())));
        m.push(("type".to_owned(), Json::Str(self.kind.to_owned())));
        m.push(("input".to_owned(), self.input.copy()));
        proof {
            object_view(m);
            assert(entries(m@) =~= problem_json(self@)->Object_0);
        }
        Json::Object(m)
    }
}

/// An index as JSON.
fn index_json(n: usize) -> (r: Json)
    ensures
        r@ == Value::Num(Num::Int(n as int)),
{
    if n as u64 <= 0x7fff_ffff_ffff_ffff {
        Json::Num(Number::Int(n as i64))
    } else {
        Json::Num(Number::Big(n as u64))
    }
}

/// No problem among the first `n` questions is no problem in any of them.
proof fn each_is_fine(qs: Seq<(Seq<char>, Value)>, limits: Limits, n: int, i: int)
    requires
        0 <= i < n <= qs.len(),
        each_problems(qs, limits, n).len() == 0,
    ensures
        question_problems(qs[i].0, qs[i].1, limits).len() == 0,
    decreases n,
{
    if i < n - 1 {
        each_is_fine(qs, limits, n - 1, i);
    }
}

/// A list of labels without problems gives an option for each.
proof fn every_label_counts(id: Seq<char>, items: Seq<Value>, n: int)
    requires
        0 <= n <= items.len(),
        label_problems(id, items, n).len() == 0,
    ensures
        list_options(items, n).len() == n,
    decreases n,
{
    if n > 0 {
        every_label_counts(id, items, n - 1);
    }
}

/// No repeat problem is no repeat.
proof fn nothing_repeats(id: Seq<char>, o: Seq<OptionView>, n: int, i: int)
    requires
        0 <= i < n <= o.len(),
        repeat_problems(id, o, n).len() == 0,
    ensures
        !repeats(o, i),
    decreases n,
{
    if i < n - 1 {
        nothing_repeats(id, o, n - 1, i);
    }
}

/// Labels that differ up to the space around them.
pub open spec fn distinct_labels(o: Seq<OptionView>) -> bool {
    forall|i: int, j: int|
        0 <= i < j < o.len() ==> trimmed((#[trigger] o[i]).label, Class::White) != trimmed(
            (#[trigger] o[j]).label,
            Class::White,
        )
}

/// A question the limits allow: it has an option to score, no more than allowed, and its labels
/// differ.
pub open spec fn allowed(q: QuestionView, limits: Limits) -> bool {
    match q.criteria {
        CriteriaView::Choice(o) => q.qtype == QType::Choice && 1 <= o.len() <= limits.max_options
            && distinct_labels(o),
        CriteriaView::Score(l) => q.qtype == QType::Score && limits.min_levels <= l.len()
            <= limits.max_levels,
        CriteriaView::Noul(_, _) => q.qtype == QType::Noul,
    }
}

/// A body without problems is a request that the limits allow: its state is not null, it has as
/// many questions as allowed, and each has options to score, within the limits and with labels of
/// their own. With limits that ask for a level, no question is empty.
pub proof fn a_body_without_problems_is_allowed(body: Value, limits: Limits)
    requires
        problems(body, limits).len() == 0,
    ensures
        ({
            let r = request_of(body);
            &&& r.state != Value::Null
            &&& r.questions.len() <= limits.max_questions
            &&& r.questions.len() > 0 || limits.allow_no_questions
            &&& forall|i: int|
                0 <= i < r.questions.len() ==> allowed(#[trigger] r.questions[i], limits)
            &&& limits.min_levels >= 1 ==> forall|i: int|
                0 <= i < r.questions.len() ==> (#[trigger] r.questions[i]).criteria.count() >= 1
        }),
{
    let m = body->Object_0;
    let r = request_of(body);
    let parts = state_problems(m) + model_problems(m);
    assert(problems(body, limits) == parts + questions_problems(m, limits) + kime_problems(m));
    assert(questions_problems(m, limits).len() == 0);
    assert(state_problems(m).len() == 0);
    let qs = find(m, "questions"@)->0->Object_0;
    assert(count_problems(qs, limits).len() == 0);
    assert forall|i: int| 0 <= i < r.questions.len() implies allowed(
        #[trigger] r.questions[i],
        limits,
    ) by {
        each_is_fine(qs, limits, qs.len() as int, i);
        question_is_allowed(qs[i].0, qs[i].1, limits);
    }
}

/// A question without problems is one that the limits allow.
proof fn question_is_allowed(id: Seq<char>, q: Value, limits: Limits)
    requires
        question_problems(id, q, limits).len() == 0,
    ensures
        allowed(question_of(id, q), limits),
{
    let m = q->Object_0;
    let crit = find(m, "criteria"@);
    match qtype_of(find(m, "type"@)->0)->0 {
        QType::Choice => {
            let o = choice_options(crit);
            assert(size_problems(id, crit, limits).len() == 0);
            assert(repeat_problems(id, o, o.len() as int).len() == 0);
            if let Some(Value::Array(items)) = crit {
                every_label_counts(id, items, items.len() as int);
            }
            assert forall|i: int, j: int| 0 <= i < j < o.len() implies trimmed(
                (#[trigger] o[i]).label,
                Class::White,
            ) != trimmed((#[trigger] o[j]).label, Class::White) by {
                nothing_repeats(id, o, o.len() as int, j);
            }
        },
        _ => {},
    }
}

/// A value, or null.
pub open spec fn or_null(v: Option<Value>) -> Value {
    match v {
        Some(v) => v,
        None => Value::Null,
    }
}

/// An entry, when there is a value for it.
pub open spec fn maybe_entry(key: Seq<char>, v: Option<Value>) -> Seq<(Seq<char>, Value)> {
    match v {
        Some(v) => seq![(key, v)],
        None => seq![],
    }
}

/// Criteria as JSON: options as an object of label to description, levels as a list, and what false
/// and true mean as an object.
pub open spec fn criteria_json(c: CriteriaView) -> Value {
    match c {
        CriteriaView::Choice(o) => Value::Object(
            Seq::new(o.len(), |i: int| (o[i].label, or_null(o[i].description))),
        ),
        CriteriaView::Score(l) => Value::Array(l),
        CriteriaView::Noul(no, yes) => Value::Object(
            maybe_entry("false"@, no) + maybe_entry("true"@, yes),
        ),
    }
}

/// A question as JSON.
pub open spec fn question_json(q: QuestionView) -> Value {
    Value::Object(
        seq![("type"@, Value::Str(q.qtype.name()))] + maybe_entry("instructions"@, q.instructions)
            + seq![("criteria"@, criteria_json(q.criteria))],
    )
}

/// A request as JSON, in the order of its fields.
pub open spec fn request_json(r: RequestView) -> Value {
    Value::Object(
        seq![("state"@, r.state)] + maybe_entry(
            "model"@,
            match r.model {
                Some(s) => Some(Value::Str(s)),
                None => None,
            },
        ) + seq![
            (
                "questions"@,
                Value::Object(
                    Seq::new(
                        r.questions.len(),
                        |i: int| (r.questions[i].id, question_json(r.questions[i])),
                    ),
                ),
            ),
        ] + maybe_entry(
            "kime"@,
            match r.kime {
                Some(m) => Some(Value::Object(m)),
                None => None,
            },
        ),
    )
}

/// Appends an entry.
fn put_entry(m: &mut Vec<(String, Json)>, key: &str, v: Json)
    ensures
        entries(final(m)@) == entries(old(m)@).push((key@, v@)),
{
    let ghost before = entries(m@);
    let ghost shown = v@;
    m.push((key.to_owned(), v));
    assert(entries(m@) =~= before.push((key@, shown)));
}

/// Appends an entry when there is a value for it.
fn put_maybe(m: &mut Vec<(String, Json)>, key: &str, v: &Option<Json>)
    ensures
        entries(final(m)@) == entries(old(m)@) + maybe_entry(key@, maybe(*v)),
{
    let ghost before = entries(m@);
    if let Some(v) = v {
        put_entry(m, key, v.copy());
    }
    assert(entries(m@) =~= before + maybe_entry(key@, maybe(*v)));
}

impl Criteria {
    /// Criteria as JSON.
    pub fn to_json(&self) -> (r: Json)
        ensures
            r@ == criteria_json(self@),
    {
        let mut m: Vec<(String, Json)> = Vec::new();
        assert(entries(m@) =~= seq![]);
        match self {
            Criteria::Choice(o) => {
                let ghost all = Seq::new(
                    o@.len(),
                    |i: int| (o@[i]@.label, or_null(o@[i]@.description)),
                );
                let mut i: usize = 0;
                while i < o.len()
                    invariant
                        i <= o@.len(),
                        all == Seq::new(
                            o@.len(),
                            |i: int| (o@[i]@.label, or_null(o@[i]@.description)),
                        ),
                        entries(m@) == all.take(i as int),
                    decreases o@.len() - i,
                {
                    let d = match &o[i].description {
                        Some(d) => d.copy(),
                        None => Json::Null,
                    };
                    put_entry(&mut m, o[i].label.as_str(), d);
                    i += 1;
                    assert(entries(m@) =~= all.take(i as int));
                }
                proof {
                    object_view(m);
                    assert(all.take(i as int) =~= criteria_json(self@)->Object_0);
                }
                Json::Object(m)
            },
            Criteria::Score(l) => {
                let v = copy_array(l);
                proof {
                    array_view(v);
                }
                Json::Array(v)
            },
            Criteria::Noul { when_false, when_true } => {
                put_maybe(&mut m, "false", when_false);
                put_maybe(&mut m, "true", when_true);
                proof {
                    object_view(m);
                    assert(entries(m@) =~= criteria_json(self@)->Object_0);
                }
                Json::Object(m)
            },
        }
    }
}

impl Question {
    /// A question as JSON.
    pub fn to_json(&self) -> (r: Json)
        ensures
            r@ == question_json(self@),
    {
        let mut m: Vec<(String, Json)> = Vec::new();
        put_entry(&mut m, "type", Json::Str(self.qtype.as_str().to_owned()));
        put_maybe(&mut m, "instructions", &self.instructions);
        put_entry(&mut m, "criteria", self.criteria.to_json());
        proof {
            object_view(m);
            assert(entries(m@) =~= question_json(self@)->Object_0);
        }
        Json::Object(m)
    }
}

impl Request {
    /// A request as JSON, which [`parse`] reads.
    pub fn to_json(&self) -> (r: Json)
        ensures
            r@ == request_json(self@),
    {
        let mut qs: Vec<(String, Json)> = Vec::new();
        let ghost q = questions_view(self.questions@);
        let ghost all = Seq::new(q.len(), |i: int| (q[i].id, question_json(q[i])));
        let mut i: usize = 0;
        assert(entries(qs@) =~= all.take(0));
        while i < self.questions.len()
            invariant
                i <= self.questions@.len(),
                q == questions_view(self.questions@),
                all == Seq::new(q.len(), |i: int| (q[i].id, question_json(q[i]))),
                entries(qs@) == all.take(i as int),
            decreases self.questions@.len() - i,
        {
            put_entry(&mut qs, self.questions[i].id.as_str(), self.questions[i].to_json());
            i += 1;
            assert(entries(qs@) =~= all.take(i as int));
        }
        assert(all.take(i as int) =~= all);
        proof {
            object_view(qs);
        }
        let mut m: Vec<(String, Json)> = Vec::new();
        put_entry(&mut m, "state", self.state.copy());
        if let Some(s) = &self.model {
            put_entry(&mut m, "model", Json::Str(s.as_str().to_owned()));
        }
        put_entry(&mut m, "questions", Json::Object(qs));
        if let Some(k) = &self.kime {
            let k = copy_object(k);
            proof {
                object_view(k);
            }
            put_entry(&mut m, "kime", Json::Object(k));
        }
        proof {
            object_view(m);
            assert(entries(m@) =~= request_json(self@)->Object_0);
        }
        Json::Object(m)
    }

    /// Validates a request that was not read from JSON: the request, or every problem of it.
    pub fn validate(&self, limits: &Limits) -> (r: Result<Request, Vec<Problem>>)
        ensures
            match r {
                Ok(q) => problems(request_json(self@), *limits).len() == 0 && q@ == request_of(
                    request_json(self@),
                ),
                Err(p) => p@.len() > 0 && problems_view(p@) == problems(
                    request_json(self@),
                    *limits,
                ),
            },
    {
        parse(&self.to_json(), limits)
    }
}

/// Labels of their own have no repeat problem.
proof fn distinct_is_fine(id: Seq<char>, o: Seq<OptionView>, n: int)
    requires
        distinct_labels(o),
        0 <= n <= o.len(),
    ensures
        repeat_problems(id, o, n).len() == 0,
    decreases n,
{
    if n > 0 {
        distinct_is_fine(id, o, n - 1);
    }
}

/// No description of a read option is null.
proof fn options_are_described(crit: Option<Value>, i: int)
    requires
        0 <= i < choice_options(crit).len(),
    ensures
        choice_options(crit)[i].description != Some(Value::Null),
{
    if let Some(Value::Array(items)) = crit {
        listed_are_bare(items, items.len() as int, i);
    }
}

/// An option of a list has no description.
proof fn listed_are_bare(items: Seq<Value>, n: int, i: int)
    requires
        0 <= i < list_options(items, n).len(),
        n <= items.len(),
    ensures
        list_options(items, n)[i].description is None,
    decreases n,
{
    if n > 0 && i < list_options(items, n - 1).len() {
        listed_are_bare(items, n - 1, i);
    }
}

/// A question without problems, written as JSON, has none and reads as itself.
proof fn question_stays(id: Seq<char>, q: Value, limits: Limits)
    requires
        question_problems(id, q, limits).len() == 0,
        lower("true"@) == "true"@,
        lower("false"@) == "false"@,
    ensures
        ({
            let x = question_of(id, q);
            &&& question_problems(id, question_json(x), limits).len() == 0
            &&& question_of(id, question_json(x)) == x
        }),
{
    let x = question_of(id, q);
    let m = question_json(x)->Object_0;
    let crit = find(q->Object_0, "criteria"@);
    reveal_strlit("type");
    reveal_strlit("instructions");
    reveal_strlit("criteria");
    reveal_strlit("choice");
    reveal_strlit("score");
    reveal_strlit("noul");
    reveal_strlit("true");
    reveal_strlit("false");
    assert("type"@.len() == 4 && "instructions"@.len() == 12 && "criteria"@.len() == 8);
    assert("choice"@.len() == 6 && "score"@.len() == 5 && "noul"@.len() == 4);
    assert("true"@.len() == 4 && "false"@.len() == 5);
    find_at(m, "type"@, 0);
    assert(qtype_of(find(m, "type"@)->0) == Some(x.qtype));
    match x.instructions {
        Some(_) => {
            find_at(m, "instructions"@, 1);
            find_at(m, "criteria"@, 2);
        },
        None => {
            find_at(m, "instructions"@, 2);
            find_at(m, "criteria"@, 1);
        },
    }
    let now = Some(criteria_json(x.criteria));
    assert(find(m, "criteria"@) == now);
    question_is_allowed(id, q, limits);
    match x.criteria {
        CriteriaView::Choice(o) => {
            assert forall|i: int| 0 <= i < o.len() implies (#[trigger] o[i]).description != Some(
                Value::Null,
            ) by {
                options_are_described(crit, i);
            }
            assert(choice_options(now) =~= o);
            distinct_is_fine(id, o, o.len() as int);
            assert(size_problems(id, now, limits).len() == 0);
        },
        CriteriaView::Score(l) => {
            assert(levels_of(now) == Some(l));
        },
        CriteriaView::Noul(no, yes) => {
            let e = criteria_json(x.criteria)->Object_0;
            reveal_with_fuel(key_problems, 3);
            reveal_with_fuel(last_side, 3);
            assert(key_problems(id, e, e.len() as int).len() == 0);
            assert(last_side(e, "false"@, e.len() as int) == no);
            assert(last_side(e, "true"@, e.len() as int) == yes);
        },
    }
    assert(criteria_of(x.qtype, now) == x.criteria);
}

/// Questions without problems, written as JSON, have none.
proof fn questions_stay(qs: Seq<(Seq<char>, Value)>, now: Seq<(Seq<char>, Value)>, limits: Limits, n: int)
    requires
        0 <= n <= qs.len(),
        each_problems(qs, limits, qs.len() as int).len() == 0,
        lower("true"@) == "true"@,
        lower("false"@) == "false"@,
        now.len() == qs.len(),
        forall|i: int|
            0 <= i < qs.len() ==> #[trigger] now[i] == (
                qs[i].0,
                question_json(question_of(qs[i].0, qs[i].1)),
            ),
    ensures
        each_problems(now, limits, n).len() == 0,
    decreases n,
{
    if n > 0 {
        questions_stay(qs, now, limits, n - 1);
        each_is_fine(qs, limits, qs.len() as int, n - 1);
        question_stays(qs[n - 1].0, qs[n - 1].1, limits);
    }
}

/// A request that was read is valid, and stays what it is: written as JSON it has no problem and
/// reads as itself. This rests on `true` and `false` being their own lower case.
pub proof fn a_read_request_stays_valid(body: Value, limits: Limits)
    requires
        problems(body, limits).len() == 0,
        lower("true"@) == "true"@,
        lower("false"@) == "false"@,
    ensures
        problems(request_json(request_of(body)), limits).len() == 0,
        request_of(request_json(request_of(body))) == request_of(body),
{
    let r = request_of(body);
    let was = body->Object_0;
    let parts = state_problems(was) + model_problems(was);
    assert(problems(body, limits) == parts + questions_problems(was, limits) + kime_problems(was));
    assert(questions_problems(was, limits).len() == 0);
    assert(state_problems(was).len() == 0);
    let qs = find(was, "questions"@)->0->Object_0;
    assert(count_problems(qs, limits).len() == 0);
    assert(each_problems(qs, limits, qs.len() as int).len() == 0);
    let m = request_json(r)->Object_0;
    let now = Seq::new(r.questions.len(), |i: int| (r.questions[i].id, question_json(r.questions[i])));
    questions_stay(qs, now, limits, qs.len() as int);
    reveal_strlit("state");
    reveal_strlit("model");
    reveal_strlit("questions");
    reveal_strlit("kime");
    assert("state"@[0] == 's' && "model"@[0] == 'm' && "questions"@[0] == 'q' && "kime"@[0] == 'k');
    find_at(m, "state"@, 0);
    match r.model {
        Some(_) => {
            find_at(m, "model"@, 1);
            find_at(m, "questions"@, 2);
            find_at(m, "kime"@, 3);
        },
        None => {
            find_at(m, "questions"@, 1);
            find_at(m, "kime"@, 2);
            find_at(m, "model"@, m.len() as int);
        },
    }
    assert(find(m, "questions"@) == Some(Value::Object(now)));
    assert(count_problems(now, limits).len() == 0);
    let again = request_of(request_json(r));
    assert forall|i: int| 0 <= i < qs.len() implies #[trigger] again.questions[i]
        == r.questions[i] by {
        each_is_fine(qs, limits, qs.len() as int, i);
        question_stays(qs[i].0, qs[i].1, limits);
    }
    assert(again.questions =~= r.questions);
}

/// The last entry of a side is the one that counts.
proof fn last_side_counts(m: Seq<(Seq<char>, Value)>, side: Seq<char>, n: int, k: int)
    requires
        0 <= n <= m.len(),
    ensures
        0 <= k < n && lower(m[k].0) == side && (forall|i: int|
            k < i < n ==> lower((#[trigger] m[i]).0) != side) ==> last_side(m, side, n) == Some(
            m[k].1,
        ),
        (forall|i: int| 0 <= i < n ==> lower((#[trigger] m[i]).0) != side) ==> last_side(
            m,
            side,
            n,
        ) is None,
    decreases n,
{
    if n > 0 {
        last_side_counts(m, side, n - 1, k);
    }
}

/// A list of labels is read as its labels.
proof fn labels_are_options(items: Seq<Value>, n: int)
    requires
        0 <= n <= items.len(),
        forall|i: int| 0 <= i < items.len() ==> #[trigger] items[i] is Str,
    ensures
        list_options(items, n).len() == n,
        forall|i: int| #![trigger list_options(items, n)[i]]
            0 <= i < n ==> list_options(items, n)[i] == (OptionView {
                label: items[i]->Str_0,
                description: None,
            }),
    decreases n,
{
    if n > 0 {
        labels_are_options(items, n - 1);
    }
}

/// A list whose labels are no strings has a problem.
proof fn labels_are_strings(id: Seq<char>, items: Seq<Value>, n: int)
    requires
        0 <= n <= items.len(),
        label_problems(id, items, n).len() == 0,
    ensures
        forall|i: int| 0 <= i < n ==> #[trigger] items[i] is Str,
    decreases n,
{
    if n > 0 {
        labels_are_strings(id, items, n - 1);
    }
}

/// A body without problems is read as it was sent: its state, model and extension object, and every
/// question in order under its id, with its type and its instructions.
pub proof fn a_request_is_read_as_sent(m: Seq<(Seq<char>, Value)>, limits: Limits, i: int)
    requires
        problems(Value::Object(m), limits).len() == 0,
    ensures
        ({
            let r = request_of(Value::Object(m));
            &&& find(m, "state"@) == Some(r.state)
            &&& r.model == match find(m, "model"@) {
                Some(Value::Str(s)) => Some(s),
                _ => None,
            }
            &&& r.kime == match find(m, "kime"@) {
                Some(Value::Object(o)) => Some(o),
                _ => None,
            }
            &&& find(m, "questions"@) matches Some(Value::Object(qs)) && r.questions.len()
                == qs.len() && (0 <= i < qs.len() ==> (qs[i].1 matches Value::Object(q) && {
                let x = r.questions[i];
                &&& x.id == qs[i].0
                &&& x.instructions == find(q, "instructions"@)
                &&& find(q, "type"@) == Some(
                    Value::Str(
                        match x.qtype {
                            QType::Choice => "choice"@,
                            QType::Score => "score"@,
                            QType::Noul => "noul"@,
                        },
                    ),
                )
                &&& match x.qtype {
                    QType::Choice => x.criteria is Choice,
                    QType::Score => x.criteria is Score,
                    QType::Noul => x.criteria is Noul,
                }
            }))
        }),
{
    let body = Value::Object(m);
    let parts = state_problems(m) + model_problems(m);
    assert(problems(body, limits) == parts + questions_problems(m, limits) + kime_problems(m));
    assert(questions_problems(m, limits).len() == 0);
    assert(state_problems(m).len() == 0);
    let qs = find(m, "questions"@)->0->Object_0;
    if 0 <= i < qs.len() {
        assert(each_problems(qs, limits, qs.len() as int).len() == 0);
        each_is_fine(qs, limits, qs.len() as int, i);
    }
}

/// The options of a choice are its labels in order. As an object each has its description, none for
/// null, and as a list none has one.
pub proof fn options_are_read_as_sent(id: Seq<char>, crit: Value, limits: Limits, i: int)
    requires
        choice_problems(id, Some(crit), limits).len() == 0,
    ensures
        ({
            let c = criteria_of(QType::Choice, Some(crit));
            &&& c matches CriteriaView::Choice(o) && match crit {
                Value::Object(m) => o.len() == m.len() && (0 <= i < m.len() ==> o[i].label
                    == m[i].0 && o[i].description == if m[i].1 == Value::Null {
                    None
                } else {
                    Some(m[i].1)
                }),
                Value::Array(items) => o.len() == items.len() && (0 <= i < items.len()
                    ==> items[i] == Value::Str(o[i].label) && o[i].description is None),
                _ => false,
            }
        }),
{
    match crit {
        Value::Array(items) => {
            assert(label_problems(id, items, items.len() as int).len() == 0);
            labels_are_strings(id, items, items.len() as int);
            labels_are_options(items, items.len() as int);
        },
        Value::Object(m) => {},
        _ => {},
    }
}

/// The levels of a score are those of its list, or of an object those under 0, 1 and so on.
pub proof fn levels_are_read_as_sent(id: Seq<char>, crit: Value, limits: Limits, i: int)
    requires
        score_problems(id, Some(crit), limits).len() == 0,
    ensures
        criteria_of(QType::Score, Some(crit)) matches CriteriaView::Score(l) && match crit {
            Value::Array(items) => l == items,
            Value::Object(m) => l.len() == m.len() && (0 <= i < m.len() ==> find(m, dec(i as nat))
                == Some(l[i])),
            _ => false,
        },
{
    if let Value::Object(m) = crit {
        if 0 <= i < m.len() {
            assert(find(m, dec(i as nat)) is Some);
        }
    }
}

/// The sides of a noul question are what stands under true and under false, in any case, and the
/// last of those where one occurs more than once. What is left out is not said.
pub proof fn sides_are_read_as_sent(m: Seq<(Seq<char>, Value)>, k: int)
    ensures
        criteria_of(QType::Noul, Some(Value::Object(m))) matches CriteriaView::Noul(no, yes) && {
            &&& 0 <= k < m.len() && lower(m[k].0) == "true"@ && (forall|i: int|
                k < i < m.len() ==> lower((#[trigger] m[i]).0) != "true"@) ==> yes == Some(m[k].1)
            &&& 0 <= k < m.len() && lower(m[k].0) == "false"@ && (forall|i: int|
                k < i < m.len() ==> lower((#[trigger] m[i]).0) != "false"@) ==> no == Some(m[k].1)
            &&& (forall|i: int| 0 <= i < m.len() ==> lower((#[trigger] m[i]).0) != "true"@)
                ==> yes is None
            &&& (forall|i: int| 0 <= i < m.len() ==> lower((#[trigger] m[i]).0) != "false"@)
                ==> no is None
        },
{
    last_side_counts(m, "true"@, m.len() as int, k);
    last_side_counts(m, "false"@, m.len() as int, k);
}

/// Whether a question is one that limits allow, by its fields alone.
pub open spec fn allowed_body(q: Value, limits: Limits) -> bool {
    &&& q matches Value::Object(m) && match (find(m, "type"@), find(m, "criteria"@)) {
        (Some(Value::Str(t)), c) => {
            ||| t == "choice"@ && (c matches Some(Value::Object(o)) && 1 <= o.len()
                <= limits.max_options && (forall|i: int, j: int|
                0 <= i < j < o.len() ==> trimmed((#[trigger] o[i]).0, Class::White) != trimmed(
                    (#[trigger] o[j]).0,
                    Class::White,
                )))
            ||| t == "score"@ && (c matches Some(Value::Array(l)) && limits.min_levels <= l.len()
                <= limits.max_levels)
            ||| t == "noul"@ && (c is None || c == Some(Value::Null) || (c matches Some(
                Value::Object(o),
            ) && (forall|i: int|
                0 <= i < o.len() ==> lower((#[trigger] o[i]).0) == "true"@ || lower(o[i].0)
                    == "false"@)))
        },
        _ => false,
    }
}

/// Keys that are sides have no problem.
proof fn sides_are_fine(id: Seq<char>, m: Seq<(Seq<char>, Value)>, n: int)
    requires
        0 <= n <= m.len(),
        forall|i: int|
            0 <= i < m.len() ==> lower((#[trigger] m[i]).0) == "true"@ || lower(m[i].0)
                == "false"@,
    ensures
        key_problems(id, m, n).len() == 0,
    decreases n,
{
    if n > 0 {
        sides_are_fine(id, m, n - 1);
    }
}

/// Labels apart have no repeat problem.
proof fn apart_is_fine(id: Seq<char>, o: Seq<OptionView>, n: int)
    requires
        0 <= n <= o.len(),
        forall|i: int, j: int|
            0 <= i < j < o.len() ==> trimmed((#[trigger] o[i]).label, Class::White) != trimmed(
                (#[trigger] o[j]).label,
                Class::White,
            ),
    ensures
        repeat_problems(id, o, n).len() == 0,
    decreases n,
{
    if n > 0 {
        apart_is_fine(id, o, n - 1);
    }
}

/// Questions that are allowed have no problem.
proof fn allowed_is_fine(qs: Seq<(Seq<char>, Value)>, limits: Limits, n: int)
    requires
        0 <= n <= qs.len(),
        forall|i: int| 0 <= i < qs.len() ==> allowed_body((#[trigger] qs[i]).1, limits),
    ensures
        each_problems(qs, limits, n).len() == 0,
    decreases n,
{
    if n > 0 {
        allowed_is_fine(qs, limits, n - 1);
        let (id, q) = qs[n - 1];
        assert(allowed_body(q, limits));
        let m = q->Object_0;
        let c = find(m, "criteria"@);
        reveal_strlit("choice");
        reveal_strlit("score");
        reveal_strlit("noul");
        assert("choice"@.len() == 6 && "score"@.len() == 5 && "noul"@.len() == 4);
        let t = find(m, "type"@)->0->Str_0;
        if t == "choice"@ {
            let o = c->0->Object_0;
            let list = choice_options(c);
            assert(list.len() == o.len());
            assert forall|i: int, j: int| 0 <= i < j < list.len() implies trimmed(
                (#[trigger] list[i]).label,
                Class::White,
            ) != trimmed((#[trigger] list[j]).label, Class::White) by {
                assert(list[i].label == o[i].0 && list[j].label == o[j].0);
            }
            apart_is_fine(id, list, list.len() as int);
            assert(choice_problems(id, c, limits).len() == 0);
        } else if t == "noul"@ {
            if let Some(Value::Object(o)) = c {
                sides_are_fine(id, o, o.len() as int);
            }
        }
    }
}

/// A good body is taken: an object with a state that is not null, a model that is a text or not
/// there, an extension object or none, and as many questions as are allowed, each of them allowed.
pub proof fn a_good_body_has_no_problem(m: Seq<(Seq<char>, Value)>, limits: Limits)
    requires
        find(m, "state"@) matches Some(s) && s != Value::Null,
        find(m, "model"@) matches Some(v) ==> v is Str || v is Null,
        find(m, "kime"@) matches Some(v) ==> v is Object || v is Null,
        find(m, "questions"@) matches Some(Value::Object(qs)) && qs.len() <= limits.max_questions
            && (qs.len() > 0 || limits.allow_no_questions) && (forall|i: int|
            0 <= i < qs.len() ==> allowed_body((#[trigger] qs[i]).1, limits)),
    ensures
        problems(Value::Object(m), limits).len() == 0,
{
    let qs = find(m, "questions"@)->0->Object_0;
    allowed_is_fine(qs, limits, qs.len() as int);
}

/// Whether one of the problems is at a place.
pub open spec fn problem_at(p: Seq<ProblemView>, loc: Seq<LocView>) -> bool {
    exists|i: int| 0 <= i < p.len() && (#[trigger] p[i]).loc == loc
}

/// What is wrong is reported where it is: a state that is missing or null, a model that is no text, an
/// extension that is no object, and questions that are missing, no object, too few or too many.
pub proof fn a_problem_is_reported_in_its_place(m: Seq<(Seq<char>, Value)>, limits: Limits)
    ensures
        ({
            let p = problems(Value::Object(m), limits);
            let at = |name: Seq<char>| seq![LocView::Key("body"@), LocView::Key(name)];
            &&& find(m, "state"@) is None || find(m, "state"@) == Some(Value::Null) ==> problem_at(
                p,
                at("state"@),
            )
            &&& (find(m, "model"@) matches Some(v) && !(v is Null) && !(v is Str)) ==> problem_at(
                p,
                at("model"@),
            )
            &&& (find(m, "kime"@) matches Some(v) && !(v is Null) && !(v is Object)) ==> problem_at(
                p,
                at("kime"@),
            )
            &&& find(m, "questions"@) is None ==> problem_at(p, at("questions"@))
            &&& (find(m, "questions"@) matches Some(v) && (!(v is Object) || (v matches Value::Object(
                qs,
            ) && ((qs.len() == 0 && !limits.allow_no_questions) || qs.len()
                > limits.max_questions)))) ==> problem_at(p, at("questions"@))
        }),
{
    let (a, b, c, d) = (
        state_problems(m),
        model_problems(m),
        questions_problems(m, limits),
        kime_problems(m),
    );
    let p = problems(Value::Object(m), limits);
    assert(p == a + b + c + d);
    let at = |name: Seq<char>| seq![LocView::Key("body"@), LocView::Key(name)];
    assert forall|name: Seq<char>| seq![LocView::Key("body"@)] + #[trigger] field(name) == at(
        name,
    ) by {
        assert(seq![LocView::Key("body"@)] + field(name) =~= at(name));
    }
    assert(a.len() > 0 ==> p[0] == a[0]);
    assert(b.len() > 0 ==> p[a.len() as int] == b[0]);
    assert(c.len() > 0 ==> p[(a.len() + b.len()) as int] == c[0]);
    assert(d.len() > 0 ==> p[(a.len() + b.len() + c.len()) as int] == d[0]);
    if let Some(Value::Object(qs)) = find(m, "questions"@) {
        let n = count_problems(qs, limits);
        assert(n.len() > 0 ==> c[0] == n[0]);
    }
}

/// A problem as JSON says where it is, in words and by its kind, and shows what was sent there.
pub proof fn the_json_says_the_problem(p: ProblemView, i: int)
    ensures
        problem_json(p) matches Value::Object(m) && find(m, "msg"@) == Some(Value::Str(p.msg))
            && find(m, "type"@) == Some(Value::Str(p.kind)) && find(m, "input"@) == Some(p.input)
            && (find(m, "loc"@) matches Some(Value::Array(l)) && l.len() == p.loc.len() && (0 <= i
            < l.len() ==> l[i] == (match p.loc[i] {
            LocView::Key(k) => Value::Str(k),
            LocView::Index(n) => Value::Num(Num::Int(n)),
        }))),
{
    reveal_strlit("loc");
    reveal_strlit("msg");
    reveal_strlit("type");
    reveal_strlit("input");
    assert("loc"@[0] == 'l' && "msg"@[0] == 'm' && "type"@[0] == 't' && "input"@[0] == 'i');
    let m = problem_json(p)->Object_0;
    find_at(m, "loc"@, 0);
    find_at(m, "msg"@, 1);
    find_at(m, "type"@, 2);
    find_at(m, "input"@, 3);
}

} // verus!
