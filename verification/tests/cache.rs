use kime::cache::{AnswerCache, CacheMode, CacheStats, Entry};
use kime::engine::Item;
use kime::json::{get, Json, Number, Sci};
use kime::request::{parse, Limits, Request};
use kime::session::{count_cached, keys_of, merge, missing, mode_of, Session};

fn number(n: &serde_json::Number) -> Number {
    if let Some(i) = n.as_i64() {
        Number::Int(i)
    } else if let Some(u) = n.as_u64() {
        Number::Big(u)
    } else {
        let f = n.as_f64().unwrap();
        Number::Real(f.to_bits(), Sci::parse(&format!("{f:e}")).unwrap(), n.to_string())
    }
}

fn value(v: &serde_json::Value) -> Json {
    match v {
        serde_json::Value::Null => Json::Null,
        serde_json::Value::Bool(b) => Json::Bool(*b),
        serde_json::Value::Number(n) => Json::Num(number(n)),
        serde_json::Value::String(s) => Json::Str(s.clone()),
        serde_json::Value::Array(a) => Json::Array(a.iter().map(value).collect()),
        serde_json::Value::Object(m) => {
            Json::Object(m.iter().map(|(k, v)| (k.clone(), value(v))).collect())
        }
    }
}

fn json(text: &str) -> Json {
    value(&serde_json::from_str(text).unwrap())
}

fn entry(x: f32) -> Entry {
    Entry { logits: vec![x.to_bits()], act: [x.to_bits(), 0] }
}

#[test]
fn keeps_what_is_used_and_counts() {
    let mut c = AnswerCache::new(4);
    let k = |i: u8| [i; 32];
    c.insert((0..2).map(|i| (k(i), entry(f32::from(i)))).collect());
    // The young generation is full at 2, so 2 and 3 push 0 and 1 to the old one.
    c.insert((2..4).map(|i| (k(i), entry(f32::from(i)))).collect());
    assert_eq!(c.stats().entries, 4);
    // 0 is used, so it moves back to the young one, which turns the generations over and
    // drops 1.
    assert_eq!(c.get(&vec![k(0)]), vec![Some(entry(0.0))]);
    c.insert(vec![(k(4), entry(4.0))]);
    let got = c.get(&vec![k(0), k(1), k(4), k(9)]);
    assert_eq!(got, vec![Some(entry(0.0)), None, Some(entry(4.0)), None]);
    let s = c.stats();
    assert_eq!((s.hits, s.misses, s.capacity), (3, 2, 4));
    assert!(s.entries <= 4, "{s:?}");
}

#[test]
fn insert_overwrites() {
    let mut c = AnswerCache::new(10);
    c.insert(vec![([1; 32], entry(1.0))]);
    c.insert(vec![([1; 32], entry(2.0))]);
    assert_eq!(c.get(&vec![[1; 32]]), vec![Some(entry(2.0))]);
    assert_eq!(c.stats().entries, 1);
}

#[test]
fn modes() {
    assert_eq!(CacheMode::parse("bypass"), Some(CacheMode::Bypass));
    assert_eq!(CacheMode::parse("refresh"), Some(CacheMode::Refresh));
    assert_eq!(CacheMode::parse("use"), Some(CacheMode::Use));
    assert_eq!(CacheMode::parse("off"), None);
}

#[test]
fn keys_tell_rows_apart() {
    let a = AnswerCache::key(&vec![1, 2], &vec![3], 0);
    assert_eq!(a, AnswerCache::key(&vec![1, 2], &vec![3], 0));
    // The same words split elsewhere, and another type.
    assert_ne!(a, AnswerCache::key(&vec![1, 2, 3], &vec![], 0));
    assert_ne!(a, AnswerCache::key(&vec![1, 2], &vec![3], 1));
    let mut bytes = vec![0u8];
    bytes.extend_from_slice(&2u64.to_le_bytes());
    for w in [1u32, 2, 3] {
        bytes.extend_from_slice(&w.to_le_bytes());
    }
    assert_eq!(a, *blake3::hash(&bytes).as_bytes());
}

#[test]
fn all_or_nothing() {
    let mut c = AnswerCache::new(8);
    c.insert(vec![([1; 32], entry(1.0))]);
    assert_eq!(c.all(&vec![[1; 32], [2; 32]]), None);
    assert_eq!((c.stats().hits, c.stats().misses), (0, 0));
    assert_eq!(c.all(&vec![[1; 32]]), Some(vec![entry(1.0)]));
    assert_eq!((c.stats().hits, c.stats().misses), (1, 0));
}

fn request(state: &str, questions: &Json, cache: Option<&str>) -> Request {
    let mut body = vec![
        ("state".to_string(), Json::Str(state.to_string())),
        ("questions".to_string(), questions.copy()),
    ];
    if let Some(c) = cache {
        body.push((
            "kime".to_string(),
            Json::Object(vec![("cache".to_string(), Json::Str(c.to_string()))]),
        ));
    }
    parse(&Json::Object(body), &Limits::jev()).unwrap()
}

fn questions() -> Json {
    json(
        r#"{
            "topic": {"type": "choice", "instructions": "What does the customer want?",
                "criteria": {"cancel": "", "refund": "", "upgrade": ""}},
            "angry": {"type": "noul", "instructions": "Is the customer angry?"},
            "urgency": {"type": "score", "instructions": "How urgent is it?",
                "criteria": ["low", "medium", "high"]}}"#,
    )
}

/// Rows for a request, with the bytes of the texts as ids.
fn rows(r: &Request) -> Vec<Item> {
    let Json::Str(state) = &r.state else { panic!() };
    r.questions
        .iter()
        .map(|q| {
            let Some(Json::Str(ask)) = &q.instructions else { panic!() };
            let ids: Vec<u32> = ask.bytes().chain(state.bytes()).map(u32::from).collect();
            Item {
                req: 0,
                id: q.id.clone(),
                qtype: q.qtype,
                markers: (0..q.criteria.len() as u32).collect(),
                state_tokens: state.len(),
                state_tokens_used: state.len(),
                ids,
            }
        })
        .collect()
}

/// A device whose answer depends on the row alone.
fn compute(it: &Item) -> Entry {
    let s = it.ids.iter().fold(it.qtype.index() as u32, |s, i| s.wrapping_mul(31).wrapping_add(*i));
    Entry { logits: it.markers.iter().map(|m| s ^ m).collect(), act: [s, !s] }
}

/// The answers, how many came from the cache and how many were computed.
fn decide(s: &mut Session, r: &Request) -> (Vec<Entry>, usize, usize) {
    let items = rows(r);
    let keys = keys_of(&items);
    let modes = vec![mode_of(&r.kime).unwrap(); items.len()];
    let seen = s.look(&keys, &modes);
    let todo = missing(&seen);
    let computed: Vec<Entry> = todo.iter().map(|&i| compute(&items[i])).collect();
    s.keep(&keys, &modes, &todo, &computed);
    (merge(&seen, &computed), count_cached(&seen), todo.len())
}

fn cached(s: &mut Session, r: &Request) -> Option<Vec<Entry>> {
    s.cached(&keys_of(&rows(r)), mode_of(&r.kime).unwrap())
}

fn counts(s: &Session) -> (u64, u64) {
    let CacheStats { hits, misses, .. } = s.cache_stats();
    (hits, misses)
}

#[test]
fn cached_answers_are_the_computed_ones() {
    let (mut k, mut plain) = (Session::new(1000), Session::new(0));
    let q = questions();
    let state = "I was charged twice for my subscription, please refund me";
    let want = decide(&mut plain, &request(state, &q, None)).0;
    assert_eq!(plain.cache_stats(), CacheStats::default());
    assert!(cached(&mut plain, &request(state, &q, None)).is_none());

    assert!(cached(&mut k, &request(state, &q, None)).is_none());
    let (first, from, _) = decide(&mut k, &request(state, &q, None));
    assert_eq!((&first, from, counts(&k)), (&want, 0, (0, 3)));
    let (again, from, ran) = decide(&mut k, &request(state, &q, None));
    assert_eq!((&again, from, ran), (&want, 3, 0));
    assert_eq!(cached(&mut k, &request(state, &q, None)).unwrap(), want);
    assert_eq!((counts(&k), k.cache_stats().entries), ((6, 3), 3));

    // One question of the three, alone, is found; a new one next to it is computed.
    let Json::Object(m) = &q else { panic!() };
    let angry = get(m, "angry").unwrap().copy();
    let new = json(r#"{"type": "noul", "instructions": "Does the customer mention a price?"}"#);
    let two = Json::Object(vec![("angry".to_string(), angry), ("new".to_string(), new.copy())]);
    let (r, from, ran) = decide(&mut k, &request(state, &two, None));
    assert_eq!((from, ran), (1, 1));
    assert_eq!(r[0], want[1]);

    // Other instructions make another row, which is not in the cache.
    let other = json(r#"{"type": "noul", "instructions": "Is the customer upset?"}"#);
    let two = Json::Object(vec![("angry".to_string(), other), ("new".to_string(), new)]);
    assert!(cached(&mut k, &request(state, &two, None)).is_none());
}

#[test]
fn bypass_and_refresh() {
    let mut k = Session::new(1000);
    let q = questions();
    let state = "Where is my parcel? It is three weeks late.";
    decide(&mut k, &request(state, &q, Some("bypass")));
    assert_eq!((counts(&k), k.cache_stats().entries), ((0, 0), 0));
    assert!(cached(&mut k, &request(state, &q, Some("bypass"))).is_none());
    decide(&mut k, &request(state, &q, Some("refresh")));
    assert_eq!((counts(&k), k.cache_stats().entries), ((0, 0), 3));
    let (_, from, _) = decide(&mut k, &request(state, &q, Some("refresh")));
    assert_eq!((from, counts(&k)), (0, (0, 0)));
    let (_, from, _) = decide(&mut k, &request(state, &q, Some("use")));
    assert_eq!((from, counts(&k)), (3, (3, 0)));
}

#[test]
fn a_mode_is_one_of_three() {
    let with = |v: Json| Some(vec![("cache".to_string(), v)]);
    assert_eq!(mode_of(&None), Some(CacheMode::Use));
    assert_eq!(mode_of(&Some(Vec::new())), Some(CacheMode::Use));
    assert_eq!(mode_of(&with(json("\"refresh\""))), Some(CacheMode::Refresh));
    assert_eq!(mode_of(&with(json("\"off\""))), None);
    assert_eq!(mode_of(&with(json("1"))), None);
}
