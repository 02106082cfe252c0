use kime::json::{Json, Number, Sci};
use kime::render::{compat_question, compat_state, criterion, CompatText};
use kime::request::{parse, Limits};

fn number(n: &serde_json::Number) -> Number {
    if let Some(i) = n.as_i64() {
        Number::Int(i)
    } else if let Some(u) = n.as_u64() {
        Number::Big(u)
    } else {
        let f = n.as_f64().unwrap();
        Number::Real(f.to_bits(), Sci::parse(&format!("{f:e}")).unwrap(), n.to_string())
    }
}

fn value(v: &serde_json::Value) -> Json {
    match v {
        serde_json::Value::Null => Json::Null,
        serde_json::Value::Bool(b) => Json::Bool(*b),
        serde_json::Value::Number(n) => Json::Num(number(n)),
        serde_json::Value::String(s) => Json::Str(s.clone()),
        serde_json::Value::Array(a) => Json::Array(a.iter().map(value).collect()),
        serde_json::Value::Object(m) => {
            Json::Object(m.iter().map(|(k, v)| (k.clone(), value(v))).collect())
        }
    }
}

fn json(text: &str) -> Json {
    value(&serde_json::from_str(text).unwrap())
}

fn render(q: &str) -> CompatText {
    let body = json(&format!("{{\"state\": \"\", \"questions\": {{\"q\": {q}}}}}"));
    let r = parse(&body, &Limits::laya()).unwrap();
    compat_question(&r.questions[0], "[MASK]")
}

#[test]
fn choice_score_noul() {
    let t = render(
        r#"{"type": "choice", "instructions": "Pick [MASK] one", "criteria": {"a": "", "b": null, "c": 0, "d": {"x": [1, 2.5]}}}"#,
    );
    assert_eq!(t.head, "choice question: Pick   one");
    assert_eq!(t.options, [" a", " b", " c: 0", " d: {\"x\": [1, 2.5]}"]);
    let t = render(
        r#"{"type": "score", "instructions": {"ask": "é"}, "criteria": ["low", null, true]}"#,
    );
    assert_eq!(t.head, "score question: {\"ask\": \"\\u00e9\"}");
    assert_eq!(t.options, [" level 0: low", " level 1: null", " level 2: true"]);
    let t = render(
        r#"{"type": "noul", "instructions": null, "criteria": {"TRUE": "", "false": "nope"}}"#,
    );
    assert_eq!(t.head, "noul question: null");
    assert_eq!(t.options, [" false: nope", " true: yes, the statement holds"]);
}

#[test]
fn state() {
    assert_eq!(
        compat_state(&json(r#"{"k": "ü", "n": [1e-5]}"#), "[MASK]"),
        "{\"k\": \"ü\", \"n\": [1e-05]}"
    );
    assert_eq!(compat_state(&json("\"a<mask>b\""), "<mask>"), "a b");
}

#[test]
fn a_marker_in_the_text_is_taken_out() {
    let s = compat_state(&json("[\"[MASK][MASK]\", \"x[MASK]\"]"), "[MASK]");
    assert!(!s.contains("[MASK]"), "{s}");
    assert_eq!(criterion(&json("\"plain\"")), "plain");
    assert_eq!(criterion(&json("[1]")), "[1]");
}
