use kime::answer::{
    clamp_temperature, laya_answer, temperature_bucket, Answer, Numbers, Response, Temperatures,
};
use kime::compact::to_compact;
use kime::ieee::{argmax, finite, greater};
use kime::json::{Json, Number, Sci};
use kime::request::{parse, Limits, QType, Question};
use kime::sum::pairwise;

fn number(n: &serde_json::Number) -> Number {
    if let Some(i) = n.as_i64() {
        Number::Int(i)
    } else if let Some(u) = n.as_u64() {
        Number::Big(u)
    } else {
        let f = n.as_f64().unwrap();
        Number::Real(f.to_bits(), Sci::parse(&format!("{f:e}")).unwrap(), n.to_string())
    }
}

fn value(v: &serde_json::Value) -> Json {
    match v {
        serde_json::Value::Null => Json::Null,
        serde_json::Value::Bool(b) => Json::Bool(*b),
        serde_json::Value::Number(n) => Json::Num(number(n)),
        serde_json::Value::String(s) => Json::Str(s.clone()),
        serde_json::Value::Array(a) => Json::Array(a.iter().map(value).collect()),
        serde_json::Value::Object(m) => {
            Json::Object(m.iter().map(|(k, v)| (k.clone(), value(v))).collect())
        }
    }
}

fn json(text: &str) -> Json {
    value(&serde_json::from_str(text).unwrap())
}

fn double(f: f64) -> Number {
    number(&serde_json::Number::from_f64(f).unwrap())
}

fn rounded(a: &Answer) -> Vec<Number> {
    a.numbers()
        .iter()
        .map(|b| double(format!("{:.4}", f64::from_bits(*b)).parse().unwrap()))
        .collect()
}

fn question(text: &str) -> Question {
    let body = json(&format!("{{\"state\": \"\", \"questions\": {{\"q\": {text}}}}}"));
    parse(&body, &Limits::laya()).unwrap().questions.pop().unwrap()
}

#[test]
fn pairwise_order() {
    // Nine values: eight lanes plus one left over, which a left fold adds in another order.
    let x = [1e8f32, 1.0, -1e8, 1.0, 0.5, 0.25, 3.0, 7.0, 1.0];
    let lanes = ((1e8f32 + 1.0) + (-1e8 + 1.0)) + ((0.5 + 0.25) + (3.0 + 7.0)) + 1.0;
    assert_eq!(pairwise(&x, 0.0, &|a: f32, b: f32| a + b).to_bits(), lanes.to_bits());
}

#[test]
fn long_sums_are_halved() {
    let x: Vec<u64> = (0..1000).collect();
    assert_eq!(pairwise(&x, 0, &|a: u64, b: u64| a + b), 499_500);
    assert_eq!(pairwise(&[], 7u64, &|a: u64, b: u64| a + b), 7);
}

#[test]
fn buckets_and_clamp() {
    let t = Temperatures::new(
        [1.5f64.to_bits(), 1.2f64.to_bits(), 2.0f64.to_bits()],
        &vec![("choice:11+".to_string(), 0.1f64.to_bits())],
    );
    assert_eq!(f64::from_bits(t.get(QType::Choice, 12)), 0.5);
    assert_eq!(f64::from_bits(t.get(QType::Choice, 4)), 1.5);
    assert_eq!(temperature_bucket(QType::Score, 6), "score:6-10");
    assert_eq!(f64::from_bits(clamp_temperature(f64::NAN.to_bits())), 1.0);
}

#[test]
fn temperatures_stay_in_their_range() {
    for (t, want) in [(0.1, 0.5), (9.0, 5.0), (-1.0, 0.5), (2.5, 2.5), (f64::INFINITY, 1.0)] {
        assert_eq!(f64::from_bits(clamp_temperature(f64::to_bits(t))), want, "{t}");
    }
    assert_eq!(f64::from_bits(Temperatures::default().get(QType::Noul, 2)), 1.0);
}

#[test]
fn a_choice_is_the_first_largest() {
    let q = question(r#"{"type": "choice", "criteria": ["a", "b", "c"]}"#);
    let n = Numbers {
        p: [0.25f64, 0.375, 0.375].iter().map(|x| x.to_bits()).collect(),
        score: 0,
        entropy: 0.5f64.to_bits(),
        surest: 0,
        act: 0.75f64.to_bits(),
    };
    let a = laya_answer(&q, &n);
    let Answer::Choice { choice, .. } = &a else { panic!() };
    assert_eq!(choice, "b");
    assert_eq!(
        to_compact(&a.to_json(&rounded(&a))),
        "{\"type\":\"choice\",\"choice\":\"b\",\"probabilities\":{\"a\":0.25,\"b\":0.375,\"c\":0.375},\
         \"confidence\":0.5,\"action\":{\"act_probability\":0.75}}"
    );
}

#[test]
fn scores_and_nouls_have_their_shape() {
    let q = question(r#"{"type": "score", "criteria": ["lo", 2]}"#);
    let n = Numbers {
        p: vec![0.25f64.to_bits(), 0.75f64.to_bits()],
        score: 0.75f64.to_bits(),
        entropy: 0.125f64.to_bits(),
        surest: 0.8f64.to_bits(),
        act: 1f64.to_bits(),
    };
    let a = laya_answer(&q, &n);
    assert_eq!(
        to_compact(&a.to_json(&rounded(&a))),
        "{\"type\":\"score\",\"score\":0.75,\"legend\":{\"0\":\"lo\",\"1\":2},\
         \"probabilities\":{\"0\":0.25,\"1\":0.75},\"confidence\":0.125,\
         \"action\":{\"act_probability\":1.0}}"
    );
    let q = question(r#"{"type": "noul"}"#);
    let b = laya_answer(&q, &n);
    assert_eq!(
        to_compact(&b.to_json(&rounded(&b))),
        "{\"type\":\"noul\",\"noul\":0.75,\"confidence\":0.8,\"action\":{\"act_probability\":1.0}}"
    );
    let numbers = vec![rounded(&a), rounded(&b)];
    let r = Response {
        model: "m".to_string(),
        answers: vec![("s".to_string(), a), ("n".to_string(), b)],
        input_tokens: 12,
    };
    assert!(matches!(r.get("n"), Some(Answer::Noul { .. })));
    assert!(r.get("x").is_none());
    let text = to_compact(&r.to_json(&numbers));
    assert!(text.starts_with("{\"model\":\"m\",\"answers\":{\"s\":{"), "{text}");
    assert!(text.ends_with("\"usage\":{\"input_tokens\":12,\"output_tokens\":0}}"), "{text}");
}

#[test]
fn bits_are_ordered_like_their_numbers() {
    let v = [f64::NEG_INFINITY, -2.0, -1e-300, -0.0, 0.0, 1e-300, 1.0, f64::INFINITY];
    for a in v {
        for b in v {
            assert_eq!(greater(a.to_bits(), b.to_bits()), a > b, "{a} {b}");
        }
        assert!(!greater(f64::NAN.to_bits(), a.to_bits()));
        assert_eq!(finite(a.to_bits()), a.is_finite());
    }
    let p: Vec<u64> = [0.1f64, 0.4, 0.4].iter().map(|x| x.to_bits()).collect();
    assert_eq!(argmax(&p), 1);
}
