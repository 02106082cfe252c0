use kime::settings::{
    keys, keys_note, laya_model, laya_notes, limit, parse_bool, spans_note, Keys, Log, ServeLimits,
    Settings, ANSWER_CACHE,
};

fn env(vars: &[(&str, &str)]) -> Vec<(String, String)> {
    vars.iter().map(|(k, v)| ((*k).to_string(), (*v).to_string())).collect()
}

fn args(a: &[&str]) -> Vec<String> {
    a.iter().map(|s| (*s).to_string()).collect()
}

fn gather(a: &[&str], laya: bool, env: &Vec<(String, String)>) -> Result<Settings, String> {
    Settings::gather(&args(a), laya, env, Settings::default())
}

#[test]
fn laya_serve_variables() {
    let get = env(&[
        ("LAYA_HOST", "10.0.0.5"),
        ("LAYA_PORT", "8080"),
        ("LAYA_DEVICE", "cuda:1"),
        ("LAYA_MODELS", "english, ml"),
        ("LAYA_THREADS", "0"),
        ("LAYA_LOG_LEVEL", "warning"),
    ]);
    let s = gather(&[], false, &get).unwrap();
    assert_eq!(s.host.as_deref(), Some("10.0.0.5"));
    assert_eq!(s.port, Some(8080));
    assert_eq!(s.device.as_deref(), Some("cuda:1"));
    assert_eq!(s.models, Some(args(&["laya", "laya-multilingual"])));
    // laya-serve ignores a thread count of 0.
    assert_eq!(s.threads, None);
    assert_eq!(s.log_level.as_deref(), Some("warning"));
    let bad = env(&[("LAYA_MODELS", "english,klingon")]);
    assert!(gather(&[], false, &bad).unwrap_err().contains("\"klingon\""));
}

#[test]
fn otlp_settings() {
    let otel =
        env(&[("OTEL_EXPORTER_OTLP_ENDPOINT", "http://c:4318/"), ("OTEL_SERVICE_NAME", "svc")]);
    let s = gather(&[], false, &otel).unwrap();
    assert_eq!(s.otlp_endpoint.as_deref(), Some("http://c:4318/v1/traces"));
    assert_eq!(s.otlp_service.as_deref(), Some("svc"));
    let get = env(&[
        ("OTEL_EXPORTER_OTLP_ENDPOINT", "http://c:4318"),
        ("OTEL_EXPORTER_OTLP_TRACES_ENDPOINT", "http://t:4318/traces"),
    ]);
    let s = gather(&[], false, &get).unwrap();
    assert_eq!(s.otlp_endpoint.as_deref(), Some("http://t:4318/traces"));
    let get = env(&[
        ("OTEL_EXPORTER_OTLP_ENDPOINT", "http://c:4318"),
        ("KIME_OTLP_ENDPOINT", "http://k:4318"),
    ]);
    let s = gather(&["--otlp-service", "flag"], false, &get).unwrap();
    assert_eq!(s.otlp_endpoint.as_deref(), Some("http://k:4318"));
    assert_eq!(s.otlp_service.as_deref(), Some("flag"));
    assert!(gather(&[], false, &env(&[])).unwrap().otlp_endpoint.is_none());
}

#[test]
fn named_laya_serve_takes_its_defaults() {
    let s = gather(&[], true, &env(&[])).unwrap();
    assert_eq!(s.host.as_deref(), Some("0.0.0.0"));
    assert_eq!(s.models, Some(args(&["laya", "laya-multilingual", "laya-typed-decisions"])));
    let s = gather(&[], false, &env(&[])).unwrap();
    assert_eq!(s.host.as_deref(), Some("127.0.0.1"));
    assert_eq!(s.models, Some(args(&["laya"])));
}

#[test]
fn later_sources_win() {
    let file = Settings {
        port: Some(9000),
        max_batch: Some(64),
        rpm: Some(60),
        models: Some(args(&["laya"])),
        ..Settings::default()
    };
    let get = env(&[
        ("LAYA_PORT", "8001"),
        ("LAYA_HOST", "0.0.0.0"),
        ("KIME_CONFIG", "/tmp/kime.toml"),
        ("KIME_MAX_BATCH", "32"),
        ("KIME_JEV_ALIASES", "off"),
    ]);
    let a = args(&["--rpm", "5"]);
    assert_eq!(Settings::config_path(&a, &get).unwrap().as_deref(), Some("/tmp/kime.toml"));
    let s = Settings::gather(&a, false, &get, file).unwrap();
    // LAYA_HOST is the only source for the host, the file beats LAYA_PORT, KIME_MAX_BATCH
    // beats the file and the flag beats both.
    assert_eq!(s.host.as_deref(), Some("0.0.0.0"));
    assert_eq!(s.port, Some(9000));
    assert_eq!(s.max_batch, Some(32));
    assert_eq!(s.rpm, Some(5));
    assert_eq!(s.jev_aliases, Some(false));
}

#[test]
fn bad_values_name_their_source() {
    let e = gather(&[], false, &env(&[("KIME_PORT", "x")])).unwrap_err();
    assert!(e.starts_with("KIME_PORT="), "{e}");
    assert!(gather(&["--nope"], false, &env(&[])).is_err());
    assert!(gather(&["--port"], false, &env(&[])).unwrap_err().contains("--port"));
    assert_eq!(parse_bool("off"), Some(false));
    assert_eq!(parse_bool("perhaps"), None);
    assert_eq!(laya_model("english").as_deref(), Some("laya"));
    assert_eq!(laya_model("klingon"), None);
    let notes = laya_notes(&env(&[]));
    assert_eq!(notes, (false, false));
}

#[test]
fn a_start_is_checked() {
    let s = gather(&["--threads", "3", "--device", "cpu"], false, &env(&[])).unwrap();
    let start = s.start().unwrap();
    assert_eq!(start.models, args(&["laya"]));
    assert_eq!(start.device, kime::engine::Device::Cpu { threads: 3 });
    assert_eq!(start.precision, kime::engine::Precision::F16);
    assert!(matches!(start.log, Log::Off | Log::Text | Log::Json));
    assert!(limit("rpm", 0).is_err());
    assert_eq!(limit("rpm", 9), Ok(9));
    let own = ServeLimits {
        jev_aliases: true,
        max_batch: 1,
        max_batch_tokens: 2,
        max_pending: 3,
        max_body: 4,
        max_request_tokens: 5,
        io_threads: 6,
        max_queue_ms: 7,
        answer_cache: 8,
    };
    let s = gather(&["--max-batch", "64"], false, &env(&[])).unwrap();
    let l = s.limits(own).unwrap();
    assert_eq!((l.max_batch, l.max_batch_tokens), (64, 2));
    assert_eq!((l.answer_cache, s.answer_cache(), ANSWER_CACHE), (100_000, 100_000, 100_000));
    let s = gather(&["--answer-cache", "0"], false, &env(&[])).unwrap();
    assert_eq!(s.limits(own).unwrap().answer_cache, 0);
    assert_eq!((l.max_pending, l.max_body, l.max_request_tokens), (3, 4, 5));
    assert_eq!((l.io_threads, l.max_queue_ms, l.jev_aliases), (6, 7, true));
    assert_eq!(s.rates(), Ok((None, None)));
}

#[test]
fn keys_come_from_one_place() {
    assert!(matches!(keys(false, None, None), Keys::Off));
    assert!(matches!(keys(false, None, Some("k")), Keys::Laya(k) if k == "k"));
    assert!(matches!(keys(false, Some("a, b"), None), Keys::List(v, None) if v == args(&["a", "b"])));
}

#[test]
fn the_server_says_what_it_needs() {
    assert_eq!(keys_note(3), Ok("requests need one of 3 API keys".to_string()));
    assert_eq!(
        keys_note(0),
        Err("the API keys file and KIME_API_KEYS hold no keys".to_string())
    );
    assert_eq!(
        spans_note("http://x:4318", "kime"),
        "sending a span per request to http://x:4318 as kime"
    );
}

#[test]
fn laya_notes_are_said_when_the_models_are_known() {
    let on = |models: &str| {
        let vars = [("LAYA_MODELS", models), ("LAYA_PRELOAD", "off"), ("LAYA_AUTO_TASK", "yes")];
        laya_notes(&env(&vars))
    };
    assert_eq!(on("english, ml"), (true, true));
    assert_eq!(on(""), (true, true));
    assert_eq!(on("english,klingon"), (false, false));
    assert_eq!(laya_notes(&env(&[("LAYA_PRELOAD", "on"), ("LAYA_AUTO_TASK", "no")])), (false, false));
}
