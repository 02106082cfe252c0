use kime::agent::{agent_step, Operation};
use kime::compact::to_compact;
use kime::json::{get, Json, Number, Sci};

fn number(n: &serde_json::Number) -> Number {
    if let Some(i) = n.as_i64() {
        Number::Int(i)
    } else if let Some(u) = n.as_u64() {
        Number::Big(u)
    } else {
        let f = n.as_f64().unwrap();
        Number::Real(f.to_bits(), Sci::parse(&format!("{f:e}")).unwrap(), n.to_string())
    }
}

fn value(v: &serde_json::Value) -> Json {
    match v {
        serde_json::Value::Null => Json::Null,
        serde_json::Value::Bool(b) => Json::Bool(*b),
        serde_json::Value::Number(n) => Json::Num(number(n)),
        serde_json::Value::String(s) => Json::Str(s.clone()),
        serde_json::Value::Array(a) => Json::Array(a.iter().map(value).collect()),
        serde_json::Value::Object(m) => {
            Json::Object(m.iter().map(|(k, v)| (k.clone(), value(v))).collect())
        }
    }
}

fn json(text: &str) -> Json {
    value(&serde_json::from_str(text).unwrap())
}

const SNAPSHOT: &str = r#"{
    "url": "https://x.y", "title": "Flights", "text": "Search", "other": 1,
    "actions": [
        {"id": "a1", "kind": "click", "node": 7, "label": "Search → go", "role": "button"},
        {"id": "a2", "kind": "fill", "node": 8, "label": "From", "value": "Oslo", "role": "textbox"},
        {"id": "a3", "kind": "select", "node": 9, "label": "Class → Economy", "value": "eco", "current_value": "biz"},
        {"id": "a4", "kind": "select", "node": 9, "label": "Class → First", "value": "first", "current_value": "biz"},
        {"id": "scroll_down", "kind": "scroll", "label": "Scroll down"}
    ]
}"#;

fn text<'a>(v: &'a Json, path: &[&str]) -> &'a Json {
    let mut at = v;
    for k in path {
        let Json::Object(m) = at else { panic!("{k} is not in an object") };
        at = get(m, k).unwrap_or_else(|| panic!("no {k}"));
    }
    at
}

#[test]
fn a_step_asks_for_the_operation_and_its_targets() {
    let step = agent_step(&json(SNAPSHOT), "Fly", &Vec::new());
    let names: Vec<&str> = step.questions.iter().map(|(k, _)| k.as_str()).collect();
    assert_eq!(names, ["operation", "click_target", "type_text_target", "select_target"]);
    let offered: Vec<&str> = step.operations.iter().map(|(k, _)| k.as_str()).collect();
    assert_eq!(offered, ["CLICK", "TYPE_TEXT", "SELECT", "SCROLL_DOWN", "DONE", "BLOCKED"]);
    assert_eq!(step.controls, vec![("SCROLL_DOWN".to_string(), json("\"scroll_down\""))]);
    let q = get(&step.questions, "select_target").unwrap();
    assert_eq!(
        to_compact(text(q, &["criteria"])),
        "{\"3:1\":{\"element\":\"[3:1] Class → Economy\",\"current_value\":\"biz\"},\
         \"3:2\":{\"element\":\"[3:2] Class → First\",\"current_value\":\"biz\"}}"
    );
    assert_eq!(
        to_compact(text(&step.state, &["page"])),
        "{\"url\":\"https://x.y\",\"title\":\"Flights\",\"text\":\"Search\"}"
    );
    let Json::Array(elements) = text(&step.state, &["elements"]) else { panic!() };
    assert_eq!(elements.len(), 3);
    assert_eq!(
        to_compact(&elements[0]),
        "{\"role\":\"button\",\"index\":\"1\",\"label\":\"Search\",\"operations\":[\"CLICK\"]}"
    );
}

#[test]
fn the_last_ten_actions_are_recalled() {
    let history: Vec<Json> =
        (0..12).map(|i| json(&format!("{{\"action\": \"a{i}\", \"kind\": \"click\", \"x\": 1}}"))).collect();
    let step = agent_step(&json("{}"), "g", &history);
    let Json::Array(recent) = text(&step.state, &["recent_actions"]) else { panic!() };
    assert_eq!(recent.len(), 10);
    assert_eq!(
        to_compact(&recent[0]),
        "{\"action\":\"a2\",\"kind\":\"click\",\"text\":null,\"page_changed\":null}"
    );
    // Without any action the step can only end.
    let offered: Vec<&str> = step.operations.iter().map(|(k, _)| k.as_str()).collect();
    assert_eq!(offered, ["DONE", "BLOCKED"]);
}

#[test]
fn the_body_is_one_object() {
    let step = agent_step(&json(SNAPSHOT), "Fly", &Vec::new());
    let body = step.body("jev-latest");
    assert_eq!(to_compact(&body), step.body_json("jev-latest"));
    assert_eq!(text(&body, &["model"]), &json("\"jev-latest\""));
}

#[test]
fn a_decision_names_the_action_of_its_target() {
    let step = agent_step(&json(SNAPSHOT), "Fly", &Vec::new());
    let answers = json(
        r#"{
            "operation": {"choice": "SELECT", "confidence": 0.75, "probabilities": {
                "CLICK": 0.1, "TYPE_TEXT": 0.1, "SELECT": 0.8, "SCROLL_DOWN": 0, "DONE": 0, "BLOCKED": 0}},
            "select_target": {"choice": "3:2", "confidence": 0.5, "probabilities": {"3:1": 0.25, "3:2": 0.75}}
        }"#,
    );
    let sound = vec!["operation".to_string(), "select_target".to_string()];
    let d = step.decide(&answers, &sound).unwrap();
    assert_eq!((d.choice.as_str(), d.operation.as_str()), ("a4", "SELECT"));
    assert_eq!(d.target.as_deref(), Some("3:2"));
    assert_eq!(f64::from_bits(d.confidence), 0.75);
    assert_eq!(d.target_confidence.map(f64::from_bits), Some(0.5));
    assert_eq!(
        to_compact(&Json::Object(d.probabilities)),
        "{\"a3\":0.25,\"a4\":0.75}"
    );
    // The sum or the argmax of the target's answer is off.
    let e = step.decide(&answers, &vec!["operation".to_string()]).unwrap_err();
    assert_eq!(e.question, "select_target");
    assert_eq!(e.message(), "invalid answer to select_target; no action executed");
}

#[test]
fn an_answer_that_was_not_offered_is_refused() {
    let step = agent_step(&json("{}"), "g", &Vec::new());
    let sound = vec!["operation".to_string()];
    let ok = json(
        r#"{"operation": {"choice": "DONE", "confidence": 1, "probabilities": {"DONE": 1, "BLOCKED": 0}}}"#,
    );
    let d = step.decide(&ok, &sound).unwrap();
    assert_eq!((d.choice.as_str(), d.operation.as_str(), d.target), ("DONE", "DONE", None));
    for bad in [
        r#"{}"#,
        r#"{"operation": {"choice": "CLICK", "confidence": 1, "probabilities": {"DONE": 1, "BLOCKED": 0}}}"#,
        r#"{"operation": {"choice": "DONE", "confidence": 1, "probabilities": {"DONE": 1}}}"#,
        r#"{"operation": {"choice": "DONE", "confidence": 2, "probabilities": {"DONE": 1, "BLOCKED": 0}}}"#,
        r#"{"operation": {"choice": "DONE", "confidence": 1, "probabilities": {"DONE": 1, "BLOCKED": -1}}}"#,
    ] {
        assert_eq!(step.decide(&json(bad), &sound).unwrap_err().question, "operation", "{bad}");
    }
}

#[test]
fn operations_have_names() {
    assert_eq!(Operation::TypeText.name(), "TYPE_TEXT");
    assert_eq!(Operation::TypeText.question(), "type_text_target");
}

#[test]
fn an_offer_is_given_one_probability() {
    let step = agent_step(&json("{}"), "g", &Vec::new());
    let sound = vec!["operation".to_string()];
    let answer = |names: &[&str]| {
        let probs = names.iter().map(|n| ((*n).to_string(), json("0.5"))).collect();
        Json::Object(vec![(
            "operation".to_string(),
            Json::Object(vec![
                ("choice".to_string(), json("\"DONE\"")),
                ("confidence".to_string(), json("1")),
                ("probabilities".to_string(), Json::Object(probs)),
            ]),
        )])
    };
    let d = step.decide(&answer(&["DONE", "BLOCKED"]), &sound).unwrap();
    assert_eq!(d.clone(), d);
    for bad in [["DONE", "DONE"], ["BLOCKED", "BLOCKED"]] {
        let e = step.decide(&answer(&bad), &sound).unwrap_err();
        assert_eq!(e.clone().question, "operation");
    }
}
