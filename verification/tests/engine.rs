use kime::answer::Answer;
use kime::compact::to_compact;
use kime::decide::{rows_at, scatter, sizes_at};
use kime::engine::{
    check_fit, count_tokens, cuda, cut_of, describe_cpu, describe_cuda, gather, open, pack, sizes, timing,
    to_prepare, unpack, Answered, Builder, Cut, Device, Error, Item, Opened, Precision,
    QuestionTokens,
};
use kime::graph::Bucket;
use kime::json::{Json, Number, Sci};
use kime::predict::{
    body_of, is_blank, opts, output_lines, place, problems, row, source, state_of, table, Place,
    Row, Source, USAGE,
};
use kime::request::{parse, Limits, QType};

fn number(n: &serde_json::Number) -> Number {
    if let Some(i) = n.as_i64() {
        Number::Int(i)
    } else if let Some(u) = n.as_u64() {
        Number::Big(u)
    } else {
        let f = n.as_f64().unwrap();
        Number::Real(f.to_bits(), Sci::parse(&format!("{f:e}")).unwrap(), n.to_string())
    }
}

fn value(v: &serde_json::Value) -> Json {
    match v {
        serde_json::Value::Null => Json::Null,
        serde_json::Value::Bool(b) => Json::Bool(*b),
        serde_json::Value::Number(n) => Json::Num(number(n)),
        serde_json::Value::String(s) => Json::Str(s.clone()),
        serde_json::Value::Array(a) => Json::Array(a.iter().map(value).collect()),
        serde_json::Value::Object(m) => {
            Json::Object(m.iter().map(|(k, v)| (k.clone(), value(v))).collect())
        }
    }
}

fn json(text: &str) -> Json {
    value(&serde_json::from_str(text).unwrap())
}

fn item(req: usize, ids: &[u32], markers: &[u32], cut: usize) -> Item {
    Item {
        req,
        id: format!("q{req}"),
        qtype: QType::Score,
        ids: ids.to_vec(),
        markers: markers.to_vec(),
        state_tokens: 5,
        state_tokens_used: 5 - cut,
    }
}

#[test]
fn items_are_packed_and_unpacked() {
    let items = vec![item(0, &[1, 2, 3], &[0, 2], 0), item(1, &[9], &[0], 2), item(0, &[4, 5], &[1], 1)];
    assert_eq!(sizes(&items), [(3, 2), (1, 1), (2, 1)]);
    let b = pack(&items, &vec![2, 0]);
    assert_eq!(b.ids, [4, 5, 1, 2, 3]);
    assert_eq!((b.cu.clone(), b.mcu.clone()), (vec![0, 2, 5], vec![0, 1, 3]));
    assert_eq!((b.markers.clone(), b.qtype.clone()), (vec![1, 0, 2], vec![1, 1]));
    let e = unpack(&b, &vec![10, 20, 30], &vec![[1, 2], [3, 4]]);
    assert_eq!((e[0].logits.clone(), e[1].logits.clone()), (vec![10], vec![20, 30]));
    assert_eq!(e[1].act, [3, 4]);
    let t = timing(&items, 7, 8, 2, 1);
    assert_eq!((t.truncated, t.cut_tokens, t.batches, t.cached), (2, 3, 2, 1));
}

#[test]
fn rows_get_their_own_answers() {
    let items = vec![item(0, &[1, 2, 3], &[0, 2], 0), item(1, &[9], &[0], 2), item(0, &[4, 5], &[1], 1)];
    let todo = vec![2, 0];
    assert_eq!(sizes_at(&items, &todo), [(2, 1), (3, 2)]);
    assert_eq!(rows_at(&todo, &vec![1, 0]), [0, 2]);
    let entry = |x: u32| kime::cache::Entry { logits: vec![x], act: [x, x] };
    let plan = vec![vec![2, 0], vec![1]];
    let got = vec![vec![entry(22), entry(20)], vec![entry(21)]];
    assert_eq!(scatter(3, &plan, &got), vec![entry(20), entry(21), entry(22)]);
}

#[test]
fn builders_keep_what_they_are_told() {
    let b = Builder::new();
    assert_eq!((b.name(), b.answer_cache), ("laya".to_string(), 0));
    let b = b
        .model("x".to_string())
        .device(Device::Cuda(1))
        .precision(Precision::F32)
        .preload(true)
        .answer_cache(9);
    assert_eq!((b.name(), b.device, b.precision), ("x".to_string(), Device::Cuda(1), Precision::F32));
    assert_eq!((b.preload, b.answer_cache), (true, 9));
    let q = |head, options: &[usize]| QuestionTokens { head, options: options.to_vec() };
    assert_eq!(count_tokens(10, &vec![q(3, &[1, 2]), q(4, &[])]), 20);
}

#[test]
fn answers_go_to_their_requests() {
    let noul = |n: u64| Answer::Noul { noul: n, confidence: 0, act_probability: 0 };
    let answered = |req, id: &str, n, tokens| Answered { req, id: id.to_string(), answer: noul(n), tokens };
    let r = gather(3, vec![answered(0, "a", 1, 4), answered(2, "b", 2, 5), answered(0, "c", 3, 6)]);
    assert_eq!((r[0].input_tokens, r[1].input_tokens, r[2].input_tokens), (10, 0, 5));
    assert_eq!(r[0].model, "laya-rl-agent");
    assert_eq!(r[0].answers, vec![("a".to_string(), noul(1)), ("c".to_string(), noul(3))]);
}

#[test]
fn devices_are_opened_or_refused() {
    let cpu = Device::Cpu { threads: 2 };
    assert!(matches!(open(cpu, Precision::Int8, true), Opened::Cpu { threads: 2, int8: true }));
    assert!(matches!(open(Device::Auto, Precision::F16, false), Opened::Cpu { threads: 0, .. }));
    assert!(matches!(
        open(Device::Auto, Precision::F16, true),
        Opened::Cuda { ordinal: 0, fall_back: true, .. }
    ));
    assert!(matches!(open(Device::Auto, Precision::Int8, true), Opened::Cpu { int8: true, .. }));
    assert!(matches!(
        open(Device::Cuda(1), Precision::F16, false),
        Opened::Refused(m) if m == "this build has no CUDA backend"
    ));
    assert!(matches!(
        open(Device::Metal, Precision::F16, true),
        Opened::Refused(m) if m == "the Apple backends arrive with M4"
    ));
    assert_eq!(cuda(Precision::Int8).unwrap_err().message(), "INT8 runs on the CPU only for now");
    assert_eq!(describe_cpu(4, true), "cpu, 4 threads, int8");
    assert_eq!(describe_cuda("X"), "cuda, X");
    assert_eq!((Device::default(), Precision::default()), (Device::Auto, Precision::F16));
}

#[test]
fn errors_say_what_is_wrong() {
    assert!(check_fit("q", 3, 3).is_ok());
    assert_eq!(
        check_fit("q", 3, 2).unwrap_err().message(),
        "question \"q\" has 3 options but only 2 fit the head budget"
    );
    let p = parse(&json("{\"questions\": {}}"), &Limits::laya()).unwrap_err();
    let e = Error::Invalid(p).message();
    assert!(e.starts_with("invalid request: {") && e.ends_with("};"), "{e}");
    assert_eq!(Error::NotFound("gone".to_string()).message(), "gone");
    assert_eq!(Error::Model("torn".to_string()).message(), "torn");
    assert_eq!(Error::Tokenizer("no merges".to_string()).message(), "no merges");
    assert_eq!(Error::Unsupported("not here".to_string()).message(), "not here");
}

#[test]
fn conversations_lose_their_start() {
    assert_eq!(cut_of(&json("[1]")), Cut::Head);
    assert_eq!(cut_of(&json("\"x\"")), Cut::Tail);
    let b: Vec<Bucket> = (0..6).map(|i| Bucket { tokens: 64 << i, seqs: 1, markers: 1 }).collect();
    assert_eq!(to_prepare(&b, true).len(), 4);
    assert!(to_prepare(&b, false).is_empty());
}

fn args(a: &[&str]) -> Vec<String> {
    a.iter().map(|s| (*s).to_string()).collect()
}

#[test]
fn predict_reads_its_options() {
    let o = opts(&args(&["--state", "s", "--questions", "@q", "--threads", "3", "--format", "table"])).unwrap();
    assert_eq!((o.model.as_str(), o.table, o.device), ("laya", true, Device::Cpu { threads: 3 }));
    assert!(matches!(source(&o), Some(Source::Parts(s, q)) if s == "s" && q == "@q"));
    let o = opts(&args(&["--request", "@-", "--precision", "int8", "--device", "cuda:2"])).unwrap();
    assert_eq!((o.device, o.precision), (Device::Cuda(2), Precision::Int8));
    assert!(matches!(source(&o), Some(Source::Request(r)) if r == "@-"));
    assert!(source(&opts(&args(&["--state", "s"])).unwrap()).is_none());
    assert!(opts(&args(&["--batch"])).unwrap().batch);
    for (a, e) in [
        (vec!["--model"], "--model needs a value"),
        (vec!["--format", "xml"], "unknown format \"xml\""),
        (vec!["--device", "tpu"], "unknown device \"tpu\""),
        (vec!["--precision", "f8"], "unknown precision \"f8\""),
        (vec!["--threads", "x"], "--threads: invalid digit found in string"),
        (vec!["--nope"], "unknown option \"--nope\""),
        (vec!["--device", "cuda", "--threads", "2"], "--threads is for the CPU"),
    ] {
        assert_eq!(opts(&args(&a)).unwrap_err(), e);
    }
    assert!(USAGE.starts_with("usage: kime predict"));
}

#[test]
fn arguments_are_read_where_they_point() {
    assert!(matches!(place("@-"), Place::Stdin));
    assert!(matches!(place("@a/b"), Place::File(p) if p == "a/b"));
    assert!(matches!(place("a@b"), Place::Here(t) if t == "a@b"));
    assert_eq!(state_of("@f", "[1]", Some(json("[1]"))), json("[1]"));
    assert_eq!(state_of("[1]", "[1]", Some(json("[1]"))), json("\"[1]\""));
    assert_eq!(state_of("@f", "x", None), json("\"x\""));
    assert_eq!(
        body_of(json("1"), json("{}")),
        json("{\"state\": 1, \"questions\": {}}")
    );
    assert!(is_blank(" \t") && !is_blank(" x"));
}

#[test]
fn a_stream_keeps_its_order() {
    let errors = vec![None, Some("bad".to_string()), None];
    let out = output_lines(&errors, &vec![json("1"), json("2")]);
    let lines: Vec<String> = out.iter().map(to_compact).collect();
    assert_eq!(lines, ["1", "{\"error\":\"bad\"}", "2"]);
    let p = parse(&json("{\"questions\": {}}"), &Limits::laya()).unwrap_err();
    assert!(problems(&p).starts_with("invalid request: {\"type\":") || problems(&p).starts_with("invalid request: {"));
}

#[test]
fn tables_line_up() {
    let a = Answer::Choice {
        choice: "billing".to_string(),
        probabilities: vec![("billing".to_string(), 1)],
        confidence: 2,
        act_probability: 3,
    };
    let r = row("topic", &a, &args(&["1.0000", "0.8800", "0.5000"]));
    assert_eq!((r.answer.as_str(), r.confidence.as_str(), r.act.as_str()), ("billing", "0.8800", "0.5000"));
    let n = Answer::Noul { noul: 1, confidence: 2, act_probability: 3 };
    let n = row("angry or not", &n, &args(&["0.2500", "0.7500", ""]));
    assert_eq!(
        table(&vec![r, n]),
        "question      answer   confidence     act\n\
         topic         billing      0.8800  0.5000\n\
         angry or not  0.2500       0.7500\n"
    );
    let none: Vec<Row> = Vec::new();
    assert_eq!(table(&none), "question  answer  confidence  act\n");
}
