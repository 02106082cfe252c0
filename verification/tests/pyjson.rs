use kime::compact::to_compact;
use kime::json::{find_key, get, insert, int_to_text, Json, Number, Sci};
use kime::pyjson::{float_repr, Dumps};

fn number(n: &serde_json::Number) -> Number {
    if let Some(i) = n.as_i64() {
        Number::Int(i)
    } else if let Some(u) = n.as_u64() {
        Number::Big(u)
    } else {
        let f = n.as_f64().unwrap();
        Number::Real(f.to_bits(), Sci::parse(&format!("{f:e}")).unwrap(), n.to_string())
    }
}

fn value(v: &serde_json::Value) -> Json {
    match v {
        serde_json::Value::Null => Json::Null,
        serde_json::Value::Bool(b) => Json::Bool(*b),
        serde_json::Value::Number(n) => Json::Num(number(n)),
        serde_json::Value::String(s) => Json::Str(s.clone()),
        serde_json::Value::Array(a) => Json::Array(a.iter().map(value).collect()),
        serde_json::Value::Object(m) => {
            Json::Object(m.iter().map(|(k, v)| (k.clone(), value(v))).collect())
        }
    }
}

fn json(text: &str) -> Json {
    value(&serde_json::from_str(text).unwrap())
}

fn repr(f: f64) -> String {
    let mut s = String::new();
    float_repr(&format!("{f:e}"), &mut s);
    s
}

#[test]
fn floats_print_like_python() {
    // Each right hand side is what CPython 3.12 prints for repr(float).
    let cases = [
        (0.0, "0.0"),
        (-0.0, "-0.0"),
        (1.0, "1.0"),
        (1.5, "1.5"),
        (0.1, "0.1"),
        (100.0, "100.0"),
        (1e-5, "1e-05"),
        (0.0001, "0.0001"),
        (0.00012, "0.00012"),
        (1.5e-7, "1.5e-07"),
        (1e15, "1000000000000000.0"),
        (1e16, "1e+16"),
        (1.2345e16, "1.2345e+16"),
        (123456789.125, "123456789.125"),
        (1e100, "1e+100"),
        (-2.5e-300, "-2.5e-300"),
        (f64::MAX, "1.7976931348623157e+308"),
        (5e-324, "5e-324"),
    ];
    for (f, want) in cases {
        assert_eq!(repr(f), want, "{f:e}");
    }
}

#[test]
fn dumps_matches_python() {
    let v = json("{\"b\": [1, 2.0, true, null], \"é\": \"a\\\"b\\\\c\\n\\u0001\u{7f}ü😀\", \"n\": -3}");
    assert_eq!(
        Dumps { ensure_ascii: false }.to_string(&v),
        "{\"b\": [1, 2.0, true, null], \"é\": \"a\\\"b\\\\c\\n\\u0001\u{7f}ü😀\", \"n\": -3}"
    );
    assert_eq!(
        Dumps { ensure_ascii: true }.to_string(&v),
        "{\"b\": [1, 2.0, true, null], \"\\u00e9\": \"a\\\"b\\\\c\\n\\u0001\\u007f\\u00fc\\ud83d\\ude00\", \"n\": -3}"
    );
}

#[test]
fn controls_have_short_escapes() {
    let v = Json::Str("\u{8}\u{c}\r\t/\u{1f}".to_string());
    assert_eq!(Dumps { ensure_ascii: false }.to_string(&v), "\"\\b\\f\\r\\t/\\u001f\"");
    let mut out = String::from("x");
    Dumps { ensure_ascii: true }.write(&Json::Array(Vec::new()), &mut out);
    Dumps { ensure_ascii: true }.write(&Json::Object(Vec::new()), &mut out);
    assert_eq!(out, "x[]{}");
}

#[test]
fn compact_is_what_serde_writes() {
    for text in [
        "{\"a\":[1,-2,18446744073709551615,1.5,1e300],\"b\":{},\"c\":[],\"d\":null,\"e\":false}",
        "\"a\\\"b\\\\c\\n\\u0001\u{7f}ü😀/\\t\\b\\f\\r\"",
    ] {
        let v: serde_json::Value = serde_json::from_str(text).unwrap();
        assert_eq!(to_compact(&value(&v)), serde_json::to_string(&v).unwrap());
    }
}

#[test]
fn objects_keep_their_order() {
    let mut m: Vec<(String, Json)> = Vec::new();
    insert(&mut m, "b", Json::Bool(true));
    insert(&mut m, "a", Json::Null);
    insert(&mut m, "b", Json::Bool(false));
    assert_eq!(m.len(), 2);
    assert_eq!(get(&m, "b"), Some(&Json::Bool(false)));
    assert_eq!(get(&m, "c"), None);
    assert_eq!((find_key(&m, "a"), find_key(&m, "z")), (1, 2));
    let o = Json::Object(m);
    assert_eq!(o.copy(), o);
    assert!(!o.is_null());
    assert_eq!(int_to_text(i64::MIN), "-9223372036854775808");
}

#[test]
fn scientific_text_is_read() {
    let s = Sci::parse("-1.25e-7").unwrap();
    assert_eq!((s.neg, s.digits.iter().collect::<String>(), s.exp), (true, "125".to_string(), -7));
    assert!(Sci::parse("NaN").is_none());
}
