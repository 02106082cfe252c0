use kime::json::{get, Json, Number, Sci};
use kime::request::{parse, Criteria, Limits, Loc, Problem, QType};

fn number(n: &serde_json::Number) -> Number {
    if let Some(i) = n.as_i64() {
        Number::Int(i)
    } else if let Some(u) = n.as_u64() {
        Number::Big(u)
    } else {
        let f = n.as_f64().unwrap();
        Number::Real(f.to_bits(), Sci::parse(&format!("{f:e}")).unwrap(), n.to_string())
    }
}

fn value(v: &serde_json::Value) -> Json {
    match v {
        serde_json::Value::Null => Json::Null,
        serde_json::Value::Bool(b) => Json::Bool(*b),
        serde_json::Value::Number(n) => Json::Num(number(n)),
        serde_json::Value::String(s) => Json::Str(s.clone()),
        serde_json::Value::Array(a) => Json::Array(a.iter().map(value).collect()),
        serde_json::Value::Object(m) => {
            Json::Object(m.iter().map(|(k, v)| (k.clone(), value(v))).collect())
        }
    }
}

fn json(text: &str) -> Json {
    value(&serde_json::from_str(text).unwrap())
}

fn loc(p: &Problem) -> Json {
    match p.to_json() {
        Json::Object(m) => get(&m, "loc").unwrap().copy(),
        _ => panic!("not an object"),
    }
}

#[test]
fn the_spec_example_parses() {
    let body = json(
        r#"{
            "state": {"ticket": {"subject": "Refund", "messages": [{"text": "charged twice"}]}},
            "model": "jev-latest",
            "questions": {
                "topic": {"type": "choice", "instructions": "Which team?", "criteria": {"billing": "money", "technical": null, "sales": ""}},
                "urgency": {"type": "score", "instructions": "How upset?", "criteria": ["Calm", "Frustrated", "Very angry"]},
                "refund": {"type": "noul", "instructions": "Wants a refund."}
            }
        }"#,
    );
    let r = parse(&body, &Limits::jev()).unwrap();
    assert_eq!(r.model.as_deref(), Some("jev-latest"));
    let ids: Vec<&str> = r.questions.iter().map(|q| q.id.as_str()).collect();
    assert_eq!(ids, ["topic", "urgency", "refund"]);
    let Criteria::Choice(o) = &r.questions[0].criteria else { panic!() };
    assert_eq!(o[1].description, None);
    assert_eq!(r.questions[2].criteria, Criteria::Noul { when_false: None, when_true: None });
}

#[test]
fn every_problem_is_reported() {
    let body = json(
        r#"{
            "questions": {
                "a": {"type": "score", "criteria": ["only"]},
                "b": {"type": "maybe"},
                "c": {"type": "choice", "criteria": {"x": 1, " x": 2}},
                "d": {"type": "noul", "criteria": {"True": "yes", "perhaps": "?"}},
                "e": {"type": "choice", "criteria": []}
            }
        }"#,
    );
    let errs = parse(&body, &Limits::jev()).unwrap_err();
    let msgs: Vec<&str> = errs.iter().map(|e| e.msg.as_str()).collect();
    assert_eq!(
        msgs,
        [
            "Field required",
            "score question 'a' needs at least 2 levels, got 1",
            "Input should be 'choice', 'score' or 'noul'",
            "choice question 'c' has the label 'x' more than once",
            "noul question 'd' takes only the keys true and false, got 'perhaps'",
            "choice question 'e' needs at least 1 option, got 0",
        ]
    );
    assert_eq!(loc(&errs[1]), json(r#"["body", "questions", "a", "criteria"]"#));
    assert_eq!(loc(&errs[4]), json(r#"["body", "questions", "d", "criteria", "perhaps"]"#));
}

#[test]
fn laya_rules() {
    let body = json(r#"{"state": "", "questions": {}}"#);
    assert!(parse(&body, &Limits::jev()).is_err());
    assert!(parse(&body, &Limits::laya()).unwrap().questions.is_empty());
    let one = json(r#"{"state": "x", "questions": {"s": {"type": "score", "criteria": ["a"]}}}"#);
    assert!(parse(&one, &Limits::jev()).is_err());
    assert!(parse(&one, &Limits::laya()).is_ok());
}

#[test]
fn old_sdk_score_objects() {
    let body = json(
        r#"{"state": "x", "questions": {"s": {"type": "score", "criteria": {"1": "b", "0": "a"}}}}"#,
    );
    let r = parse(&body, &Limits::jev()).unwrap();
    assert_eq!(
        r.questions[0].criteria,
        Criteria::Score(vec![json("\"a\""), json("\"b\"")])
    );
    let bad = json(
        r#"{"state": "x", "questions": {"s": {"type": "score", "criteria": {"0": "a", "2": "b"}}}}"#,
    );
    assert!(parse(&bad, &Limits::jev()).is_err());
}

#[test]
fn a_body_must_be_an_object() {
    let errs = parse(&json("[1]"), &Limits::jev()).unwrap_err();
    assert_eq!(errs.len(), 1);
    assert_eq!(errs[0].loc, vec![Loc::Key("body".to_string())]);
}

#[test]
fn questions_have_a_type_and_a_length() {
    let body = json(
        r#"{"state": 1, "questions": {"q": {"type": "choice", "criteria": ["a", "b", "c"]}, "n": {"type": "noul"}}}"#,
    );
    let r = parse(&body, &Limits::jev()).unwrap();
    assert_eq!((r.questions[0].qtype, r.questions[0].criteria.len()), (QType::Choice, 3));
    assert_eq!(r.questions[0].qtype.as_str(), "choice");
    assert_eq!((r.questions[1].qtype.index(), r.questions[1].criteria.len()), (2, 2));
    assert!(!r.questions[1].criteria.is_empty());
    assert_eq!(QType::Score.index(), 1);
}

#[test]
fn problems_come_in_the_order_of_the_fields() {
    let body = json(r#"{"state": "x", "questions": 5, "kime": 3}"#);
    let errs = parse(&body, &Limits::jev()).unwrap_err();
    let locs: Vec<Json> = errs.iter().map(loc).collect();
    assert_eq!(locs, [json(r#"["body", "questions"]"#), json(r#"["body", "kime"]"#)]);
    let body = json(r#"{"kime": 3, "questions": 5, "model": 1}"#);
    let errs = parse(&body, &Limits::jev()).unwrap_err();
    let last: Vec<Json> = errs.iter().map(loc).collect();
    assert_eq!(
        last,
        [
            json(r#"["body", "state"]"#),
            json(r#"["body", "model"]"#),
            json(r#"["body", "questions"]"#),
            json(r#"["body", "kime"]"#)
        ]
    );
}

#[test]
fn a_read_request_is_valid_and_an_edited_one_is_read_again() {
    let body = json(
        r#"{
            "state": {"a": 1},
            "model": "jev-latest",
            "questions": {
                "c": {"type": "choice", "instructions": "Which?", "criteria": {"x": "1", "y": null}},
                "s": {"type": "score", "criteria": ["low", "high"]},
                "n": {"type": "noul", "criteria": {"true": "yes"}}
            },
            "kime": {"cache": "bypass"}
        }"#,
    );
    let r = parse(&body, &Limits::jev()).unwrap();
    assert_eq!(r.validate(&Limits::jev()).unwrap(), r);
    assert_eq!(r.clone(), r);
    assert_eq!(parse(&r.to_json(), &Limits::jev()).unwrap(), r);
    let mut edited = r.clone();
    edited.questions[0].criteria = Criteria::Choice(Vec::new());
    edited.questions[1].criteria = Criteria::Score(vec![json("\"only\"")]);
    let errs = edited.validate(&Limits::jev()).unwrap_err();
    let msgs: Vec<&str> = errs.iter().map(|e| e.msg.as_str()).collect();
    assert_eq!(
        msgs,
        [
            "choice question 'c' needs at least 1 option, got 0",
            "score question 's' needs at least 2 levels, got 1",
        ]
    );
    let types: std::collections::HashSet<QType> = r.questions.iter().map(|q| q.qtype).collect();
    assert_eq!(types.len(), 3);
}
