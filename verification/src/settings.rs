//! The server's settings.
//!
//! They come from five places, each one overriding the ones before it: the defaults, laya-serve's
//! `LAYA_*` variables, a settings file, the `KIME_*` variables and the flags.

use crate::args::{
    add_threads, device, device_named, list, list_of, number_error, parse_number, precision,
    precision_named, with_threads,
};
use crate::engine::{Device, Precision};
use crate::hub::{alias, debug_string, debug_text};
use crate::text::{
    ascii_lower, bare, chars_of, dec, decimal, full_of, join2, join3, join5, lower_char, parsed,
    same, text_of, texts, to_ascii_lower, trim_core, trim_end, trim_right, trimmed, white, Class,
};
use vstd::prelude::*;

verus! {

/// Every setting. Each source gives some of them.
#[derive(Debug, Clone, PartialEq)]
pub struct Settings {
    /// The address to listen on.
    pub host: Option<String>,
    /// The port to listen on.
    pub port: Option<u16>,
    /// The models to serve.
    pub models: Option<Vec<String>>,
    /// Where they run.
    pub device: Option<String>,
    /// CPU threads.
    pub threads: Option<usize>,
    /// The number format.
    pub precision: Option<String>,
    /// The most questions in a batch.
    pub max_batch: Option<usize>,
    /// The most tokens in a batch.
    pub max_batch_tokens: Option<usize>,
    /// The most bytes in a request body.
    pub max_body: Option<usize>,
    /// The most tokens in a request.
    pub max_request_tokens: Option<usize>,
    /// The longest wait in the queue, in milliseconds.
    pub max_queue_ms: Option<u64>,
    /// The most requests that wait.
    pub max_pending: Option<usize>,
    /// Answers kept per model.
    pub answer_cache: Option<usize>,
    /// Threads for connections.
    pub io_threads: Option<usize>,
    /// Whether `jev-*` names are answered.
    pub jev_aliases: Option<bool>,
    /// A file of API keys.
    pub api_keys_file: Option<String>,
    /// Requests per minute and key.
    pub rpm: Option<u32>,
    /// Tokens per second and key.
    pub tps: Option<u32>,
    /// What is logged.
    pub log_level: Option<String>,
    /// Whether requests are logged.
    pub log_requests: Option<bool>,
    /// How they are logged.
    pub log_format: Option<String>,
    /// Where traces go.
    pub otlp_endpoint: Option<String>,
    /// The service name of traces.
    pub otlp_service: Option<String>,
}

/// The settings by name, in order.
#[derive(Debug, Clone, Copy, PartialEq, Eq, Structural)]
pub enum Field {
    /// The address to listen on.
    Host,
    /// The port to listen on.
    Port,
    /// The models to serve.
    Models,
    /// Where they run.
    Device,
    /// CPU threads.
    Threads,
    /// The number format.
    Precision,
    /// The most questions in a batch.
    MaxBatch,
    /// The most tokens in a batch.
    MaxBatchTokens,
    /// The most bytes in a request body.
    MaxBody,
    /// The most tokens in a request.
    MaxRequestTokens,
    /// The longest wait in the queue, in milliseconds.
    MaxQueueMs,
    /// The most requests that wait.
    MaxPending,
    /// Answers kept per model.
    AnswerCache,
    /// Threads for connections.
    IoThreads,
    /// Whether `jev-*` names are answered.
    JevAliases,
    /// A file of API keys.
    ApiKeysFile,
    /// Requests per minute and key.
    Rpm,
    /// Tokens per second and key.
    Tps,
    /// What is logged.
    LogLevel,
    /// Whether requests are logged.
    LogRequests,
    /// How they are logged.
    LogFormat,
    /// Where traces go.
    OtlpEndpoint,
    /// The service name of traces.
    OtlpService,
}

/// The value of a setting, as a plain value.
pub ghost enum Setting {
    /// A text.
    Text(Seq<char>),
    /// A list of texts.
    List(Seq<Seq<char>>),
    /// A number.
    Num(int),
    /// Yes or no.
    Flag(bool),
}

/// What kind of value a setting takes.
pub ghost enum Kind {
    /// A text.
    Text,
    /// A comma separated list.
    List,
    /// A whole number of at most this.
    Num(nat),
    /// Yes or no.
    Flag,
}

/// A text that may be given.
pub open spec fn text_given(v: Option<String>) -> Option<Setting> {
    match v {
        Some(s) => Some(Setting::Text(s@)),
        None => None,
    }
}

/// A list that may be given.
pub open spec fn list_given(v: Option<Vec<String>>) -> Option<Setting> {
    match v {
        Some(l) => Some(Setting::List(texts(l@))),
        None => None,
    }
}

/// A yes or no that may be given.
pub open spec fn flag_given(v: Option<bool>) -> Option<Setting> {
    match v {
        Some(b) => Some(Setting::Flag(b)),
        None => None,
    }
}

impl Settings {
    /// What is given for a setting.
    pub open spec fn given(self, f: Field) -> Option<Setting> {
        match f {
            Field::Host => text_given(self.host),
            Field::Port => match self.port { Some(n) => Some(Setting::Num(n as int)), None => None },
            Field::Models => list_given(self.models),
            Field::Device => text_given(self.device),
            Field::Threads => match self.threads { Some(n) => Some(Setting::Num(n as int)), None => None },
            Field::Precision => text_given(self.precision),
            Field::MaxBatch => match self.max_batch { Some(n) => Some(Setting::Num(n as int)), None => None },
            Field::MaxBatchTokens => match self.max_batch_tokens { Some(n) => Some(Setting::Num(n as int)), None => None },
            Field::MaxBody => match self.max_body { Some(n) => Some(Setting::Num(n as int)), None => None },
            Field::MaxRequestTokens => match self.max_request_tokens { Some(n) => Some(Setting::Num(n as int)), None => None },
            Field::MaxQueueMs => match self.max_queue_ms { Some(n) => Some(Setting::Num(n as int)), None => None },
            Field::MaxPending => match self.max_pending { Some(n) => Some(Setting::Num(n as int)), None => None },
            Field::AnswerCache => match self.answer_cache { Some(n) => Some(Setting::Num(n as int)), None => None },
            Field::IoThreads => match self.io_threads { Some(n) => Some(Setting::Num(n as int)), None => None },
            Field::JevAliases => flag_given(self.jev_aliases),
            Field::ApiKeysFile => text_given(self.api_keys_file),
            Field::Rpm => match self.rpm { Some(n) => Some(Setting::Num(n as int)), None => None },
            Field::Tps => match self.tps { Some(n) => Some(Setting::Num(n as int)), None => None },
            Field::LogLevel => text_given(self.log_level),
            Field::LogRequests => flag_given(self.log_requests),
            Field::LogFormat => text_given(self.log_format),
            Field::OtlpEndpoint => text_given(self.otlp_endpoint),
            Field::OtlpService => text_given(self.otlp_service),
        }
    }
}

impl View for Settings {
    type V = Map<Field, Setting>;

    open spec fn view(&self) -> Map<Field, Setting> {
        Map::new(|f: Field| self.given(f) is Some, |f: Field| self.given(f)->0)
    }
}

/// What kind of value a setting takes.
pub open spec fn kind_of(f: Field) -> Kind {
    match f {
        Field::Host => Kind::Text,
        Field::Port => Kind::Num(u16::MAX as nat),
        Field::Models => Kind::List,
        Field::Device => Kind::Text,
        Field::Threads => Kind::Num(usize::MAX as nat),
        Field::Precision => Kind::Text,
        Field::MaxBatch => Kind::Num(usize::MAX as nat),
        Field::MaxBatchTokens => Kind::Num(usize::MAX as nat),
        Field::MaxBody => Kind::Num(usize::MAX as nat),
        Field::MaxRequestTokens => Kind::Num(usize::MAX as nat),
        Field::MaxQueueMs => Kind::Num(u64::MAX as nat),
        Field::MaxPending => Kind::Num(usize::MAX as nat),
        Field::AnswerCache => Kind::Num(usize::MAX as nat),
        Field::IoThreads => Kind::Num(usize::MAX as nat),
        Field::JevAliases => Kind::Flag,
        Field::ApiKeysFile => Kind::Text,
        Field::Rpm => Kind::Num(u32::MAX as nat),
        Field::Tps => Kind::Num(u32::MAX as nat),
        Field::LogLevel => Kind::Text,
        Field::LogRequests => Kind::Flag,
        Field::LogFormat => Kind::Text,
        Field::OtlpEndpoint => Kind::Text,
        Field::OtlpService => Kind::Text,
    }
}

/// The variable of a setting.
pub open spec fn variable(f: Field) -> Seq<char> {
    match f {
        Field::Host => "KIME_HOST"@,
        Field::Port => "KIME_PORT"@,
        Field::Models => "KIME_MODELS"@,
        Field::Device => "KIME_DEVICE"@,
        Field::Threads => "KIME_THREADS"@,
        Field::Precision => "KIME_PRECISION"@,
        Field::MaxBatch => "KIME_MAX_BATCH"@,
        Field::MaxBatchTokens => "KIME_MAX_BATCH_TOKENS"@,
        Field::MaxBody => "KIME_MAX_BODY"@,
        Field::MaxRequestTokens => "KIME_MAX_REQUEST_TOKENS"@,
        Field::MaxQueueMs => "KIME_MAX_QUEUE_MS"@,
        Field::MaxPending => "KIME_MAX_PENDING"@,
        Field::AnswerCache => "KIME_ANSWER_CACHE"@,
        Field::IoThreads => "KIME_IO_THREADS"@,
        Field::JevAliases => "KIME_JEV_ALIASES"@,
        Field::ApiKeysFile => "KIME_API_KEYS_FILE"@,
        Field::Rpm => "KIME_RPM"@,
        Field::Tps => "KIME_TPS"@,
        Field::LogLevel => "KIME_LOG_LEVEL"@,
        Field::LogRequests => "KIME_LOG_REQUESTS"@,
        Field::LogFormat => "KIME_LOG_FORMAT"@,
        Field::OtlpEndpoint => "KIME_OTLP_ENDPOINT"@,
        Field::OtlpService => "KIME_OTLP_SERVICE"@,
    }
}

/// The variable of a setting.
fn variable_name(f: Field) -> (r: &'static str)
    ensures
        r@ == variable(f),
{
    match f {
        Field::Host => "KIME_HOST",
        Field::Port => "KIME_PORT",
        Field::Models => "KIME_MODELS",
        Field::Device => "KIME_DEVICE",
        Field::Threads => "KIME_THREADS",
        Field::Precision => "KIME_PRECISION",
        Field::MaxBatch => "KIME_MAX_BATCH",
        Field::MaxBatchTokens => "KIME_MAX_BATCH_TOKENS",
        Field::MaxBody => "KIME_MAX_BODY",
        Field::MaxRequestTokens => "KIME_MAX_REQUEST_TOKENS",
        Field::MaxQueueMs => "KIME_MAX_QUEUE_MS",
        Field::MaxPending => "KIME_MAX_PENDING",
        Field::AnswerCache => "KIME_ANSWER_CACHE",
        Field::IoThreads => "KIME_IO_THREADS",
        Field::JevAliases => "KIME_JEV_ALIASES",
        Field::ApiKeysFile => "KIME_API_KEYS_FILE",
        Field::Rpm => "KIME_RPM",
        Field::Tps => "KIME_TPS",
        Field::LogLevel => "KIME_LOG_LEVEL",
        Field::LogRequests => "KIME_LOG_REQUESTS",
        Field::LogFormat => "KIME_LOG_FORMAT",
        Field::OtlpEndpoint => "KIME_OTLP_ENDPOINT",
        Field::OtlpService => "KIME_OTLP_SERVICE",
    }
}

/// The setting that a flag with a value gives.
pub open spec fn flag_field(a: Seq<char>) -> Option<Field> {
    if a == "--host"@ {
        Some(Field::Host)
    } else if a == "--port"@ {
        Some(Field::Port)
    } else if a == "--models"@ || a == "--model"@ {
        Some(Field::Models)
    } else if a == "--device"@ {
        Some(Field::Device)
    } else if a == "--threads"@ {
        Some(Field::Threads)
    } else if a == "--precision"@ {
        Some(Field::Precision)
    } else if a == "--max-batch"@ {
        Some(Field::MaxBatch)
    } else if a == "--max-batch-tokens"@ {
        Some(Field::MaxBatchTokens)
    } else if a == "--max-body"@ {
        Some(Field::MaxBody)
    } else if a == "--max-request-tokens"@ {
        Some(Field::MaxRequestTokens)
    } else if a == "--max-queue-ms"@ {
        Some(Field::MaxQueueMs)
    } else if a == "--max-pending"@ {
        Some(Field::MaxPending)
    } else if a == "--answer-cache"@ {
        Some(Field::AnswerCache)
    } else if a == "--io-threads"@ {
        Some(Field::IoThreads)
    } else if a == "--api-keys-file"@ {
        Some(Field::ApiKeysFile)
    } else if a == "--rpm"@ {
        Some(Field::Rpm)
    } else if a == "--tps"@ {
        Some(Field::Tps)
    } else if a == "--log-level"@ {
        Some(Field::LogLevel)
    } else if a == "--log-format"@ {
        Some(Field::LogFormat)
    } else if a == "--otlp-endpoint"@ {
        Some(Field::OtlpEndpoint)
    } else if a == "--otlp-service"@ {
        Some(Field::OtlpService)
    } else {
        None
    }
}

/// The setting that a flag with a value gives.
fn named_field(a: &str) -> (r: Option<Field>)
    ensures
        r == flag_field(a@),
{
    if same(a, "--host") {
        Some(Field::Host)
    } else if same(a, "--port") {
        Some(Field::Port)
    } else if same(a, "--models") || same(a, "--model") {
        Some(Field::Models)
    } else if same(a, "--device") {
        Some(Field::Device)
    } else if same(a, "--threads") {
        Some(Field::Threads)
    } else if same(a, "--precision") {
        Some(Field::Precision)
    } else if same(a, "--max-batch") {
        Some(Field::MaxBatch)
    } else if same(a, "--max-batch-tokens") {
        Some(Field::MaxBatchTokens)
    } else if same(a, "--max-body") {
        Some(Field::MaxBody)
    } else if same(a, "--max-request-tokens") {
        Some(Field::MaxRequestTokens)
    } else if same(a, "--max-queue-ms") {
        Some(Field::MaxQueueMs)
    } else if same(a, "--max-pending") {
        Some(Field::MaxPending)
    } else if same(a, "--answer-cache") {
        Some(Field::AnswerCache)
    } else if same(a, "--io-threads") {
        Some(Field::IoThreads)
    } else if same(a, "--api-keys-file") {
        Some(Field::ApiKeysFile)
    } else if same(a, "--rpm") {
        Some(Field::Rpm)
    } else if same(a, "--tps") {
        Some(Field::Tps)
    } else if same(a, "--log-level") {
        Some(Field::LogLevel)
    } else if same(a, "--log-format") {
        Some(Field::LogFormat)
    } else if same(a, "--otlp-endpoint") {
        Some(Field::OtlpEndpoint)
    } else if same(a, "--otlp-service") {
        Some(Field::OtlpService)
    } else {
        None
    }
}

/// The settings in order.
pub open spec fn nth(i: usize) -> Field {
    match i {
        0 => Field::Host,
        1 => Field::Port,
        2 => Field::Models,
        3 => Field::Device,
        4 => Field::Threads,
        5 => Field::Precision,
        6 => Field::MaxBatch,
        7 => Field::MaxBatchTokens,
        8 => Field::MaxBody,
        9 => Field::MaxRequestTokens,
        10 => Field::MaxQueueMs,
        11 => Field::MaxPending,
        12 => Field::AnswerCache,
        13 => Field::IoThreads,
        14 => Field::JevAliases,
        15 => Field::ApiKeysFile,
        16 => Field::Rpm,
        17 => Field::Tps,
        18 => Field::LogLevel,
        19 => Field::LogRequests,
        20 => Field::LogFormat,
        21 => Field::OtlpEndpoint,
        _ => Field::OtlpService,
    }
}

/// The settings in order.
fn nth_field(i: usize) -> (r: Field)
    ensures
        r == nth(i),
{
    match i {
        0 => Field::Host,
        1 => Field::Port,
        2 => Field::Models,
        3 => Field::Device,
        4 => Field::Threads,
        5 => Field::Precision,
        6 => Field::MaxBatch,
        7 => Field::MaxBatchTokens,
        8 => Field::MaxBody,
        9 => Field::MaxRequestTokens,
        10 => Field::MaxQueueMs,
        11 => Field::MaxPending,
        12 => Field::AnswerCache,
        13 => Field::IoThreads,
        14 => Field::JevAliases,
        15 => Field::ApiKeysFile,
        16 => Field::Rpm,
        17 => Field::Tps,
        18 => Field::LogLevel,
        19 => Field::LogRequests,
        20 => Field::LogFormat,
        21 => Field::OtlpEndpoint,
        _ => Field::OtlpService,
    }
}

/// How many settings there are.
pub const COUNT: usize = 23;

/// A yes or no: 1, true, yes and on are yes, and 0, false, no and off are no, in any case.
pub open spec fn yes_or_no(v: Seq<char>) -> Option<bool> {
    let t = ascii_lower(trimmed(v, Class::White));
    if t == "1"@ || t == "true"@ || t == "yes"@ || t == "on"@ {
        Some(true)
    } else if t == "0"@ || t == "false"@ || t == "no"@ || t == "off"@ {
        Some(false)
    } else {
        None
    }
}

/// A yes or no.
pub fn parse_bool(v: &str) -> (r: Option<bool>)
    ensures
        r == yes_or_no(v@),
{
    let t = to_ascii_lower(bare(v).as_str());
    let t = t.as_str();
    if same(t, "1") || same(t, "true") || same(t, "yes") || same(t, "on") {
        Some(true)
    } else if same(t, "0") || same(t, "false") || same(t, "no") || same(t, "off") {
        Some(false)
    } else {
        None
    }
}

/// The value that a text gives a setting, or what is wrong with it.
pub open spec fn read(f: Field, v: Seq<char>) -> Result<Setting, Seq<char>> {
    match kind_of(f) {
        Kind::Text => Ok(Setting::Text(v)),
        Kind::List => Ok(Setting::List(list_of(v))),
        Kind::Num(max) => match parsed(v, max) {
            Some(n) => Ok(Setting::Num(n as int)),
            None => Err(number_error(v, max)->0),
        },
        Kind::Flag => match yes_or_no(v) {
            Some(b) => Ok(Setting::Flag(b)),
            None => Err("expected true or false"@),
        },
    }
}

/// Nothing given.
pub open spec fn nothing() -> Map<Field, Setting> {
    Map::empty()
}

/// Settings with every one that `over` gives replaced.
pub open spec fn over(s: Map<Field, Setting>, o: Map<Field, Setting>) -> Map<Field, Setting> {
    s.union_prefer_right(o)
}

/// The later of two values, when it is given.
fn pick<T>(later: Option<T>, earlier: Option<T>) -> (r: Option<T>)
    ensures
        r == if later is Some {
            later
        } else {
            earlier
        },
{
    match later {
        Some(v) => Some(v),
        None => earlier,
    }
}

/// Settings that give each value of a later source, or of an earlier one, are the later over the
/// earlier.
proof fn later_or_earlier(x: Settings, y: Settings, r: Settings)
    requires
        forall|f: Field| #[trigger] r.given(f) == if y.given(f) is Some {
            y.given(f)
        } else {
            x.given(f)
        },
    ensures
        r@ == over(x@, y@),
{
    assert forall|f: Field| #[trigger] r@.contains_key(f) == over(x@, y@).contains_key(f) && (
    r@.contains_key(f) ==> r@[f] == over(x@, y@)[f]) by {
        assert(r.given(f) == if y.given(f) is Some {
            y.given(f)
        } else {
            x.given(f)
        });
    }
    assert(r@ =~= over(x@, y@));
}

impl Default for Settings {
    /// Nothing given.
    fn default() -> (r: Self)
        ensures
            r@ == nothing(),
    {
        let r = Settings {
            host: None,
            port: None,
            models: None,
            device: None,
            threads: None,
            precision: None,
            max_batch: None,
            max_batch_tokens: None,
            max_body: None,
            max_request_tokens: None,
            max_queue_ms: None,
            max_pending: None,
            answer_cache: None,
            io_threads: None,
            jev_aliases: None,
            api_keys_file: None,
            rpm: None,
            tps: None,
            log_level: None,
            log_requests: None,
            log_format: None,
            otlp_endpoint: None,
            otlp_service: None,
        };
        assert(r@ =~= nothing());
        r
    }
}

impl Settings {
    /// `self` with every setting `over` gives replaced.
    #[verifier::rlimit(60)]
    pub fn and(self, over: Settings) -> (r: Settings)
        ensures
            r@ == self::over(self@, over@),
    {
        let ghost (x, y) = (self, over);
        let r = Settings {
            host: pick(over.host, self.host),
            port: pick(over.port, self.port),
            models: pick(over.models, self.models),
            device: pick(over.device, self.device),
            threads: pick(over.threads, self.threads),
            precision: pick(over.precision, self.precision),
            max_batch: pick(over.max_batch, self.max_batch),
            max_batch_tokens: pick(over.max_batch_tokens, self.max_batch_tokens),
            max_body: pick(over.max_body, self.max_body),
            max_request_tokens: pick(over.max_request_tokens, self.max_request_tokens),
            max_queue_ms: pick(over.max_queue_ms, self.max_queue_ms),
            max_pending: pick(over.max_pending, self.max_pending),
            answer_cache: pick(over.answer_cache, self.answer_cache),
            io_threads: pick(over.io_threads, self.io_threads),
            jev_aliases: pick(over.jev_aliases, self.jev_aliases),
            api_keys_file: pick(over.api_keys_file, self.api_keys_file),
            rpm: pick(over.rpm, self.rpm),
            tps: pick(over.tps, self.tps),
            log_level: pick(over.log_level, self.log_level),
            log_requests: pick(over.log_requests, self.log_requests),
            log_format: pick(over.log_format, self.log_format),
            otlp_endpoint: pick(over.otlp_endpoint, self.otlp_endpoint),
            otlp_service: pick(over.otlp_service, self.otlp_service),
        };
        proof {
            assert forall|f: Field| #[trigger] r.given(f) == if y.given(f) is Some {
                y.given(f)
            } else {
                x.given(f)
            } by {
                match f {
                    Field::Host => {},
                    Field::Port => {},
                    Field::Models => {},
                    Field::Device => {},
                    Field::Threads => {},
                    Field::Precision => {},
                    Field::MaxBatch => {},
                    Field::MaxBatchTokens => {},
                    Field::MaxBody => {},
                    Field::MaxRequestTokens => {},
                    Field::MaxQueueMs => {},
                    Field::MaxPending => {},
                    Field::AnswerCache => {},
                    Field::IoThreads => {},
                    Field::JevAliases => {},
                    Field::ApiKeysFile => {},
                    Field::Rpm => {},
                    Field::Tps => {},
                    Field::LogLevel => {},
                    Field::LogRequests => {},
                    Field::LogFormat => {},
                    Field::OtlpEndpoint => {},
                    Field::OtlpService => {},
                }
            }
            later_or_earlier(x, y, r);
        }
        r
    }

    /// Sets a setting from a text, or says what is wrong with it.
    #[verifier::rlimit(60)]
    fn put(&mut self, f: Field, v: &str) -> (r: Result<(), &'static str>)
        ensures
            match (r, read(f, v@)) {
                (Ok(_), Ok(x)) => final(self)@ == old(self)@.insert(f, x),
                (Err(e), Err(m)) => e@ == m,
                _ => false,
            },
    {
        let ghost before = *self;
        match f {
            Field::Host => self.host = Some(v.to_owned()),
            Field::Port => self.port = Some(parse_number(v, 65535)? as u16),
            Field::Models => self.models = Some(list(v)),
            Field::Device => self.device = Some(v.to_owned()),
            Field::Threads => self.threads = Some(parse_number(v, usize::MAX as u64)? as usize),
            Field::Precision => self.precision = Some(v.to_owned()),
            Field::MaxBatch => self.max_batch = Some(parse_number(v, usize::MAX as u64)? as usize),
            Field::MaxBatchTokens => self.max_batch_tokens = Some(parse_number(v, usize::MAX as u64)? as usize),
            Field::MaxBody => self.max_body = Some(parse_number(v, usize::MAX as u64)? as usize),
            Field::MaxRequestTokens => self.max_request_tokens = Some(parse_number(v, usize::MAX as u64)? as usize),
            Field::MaxQueueMs => self.max_queue_ms = Some(parse_number(v, u64::MAX)?),
            Field::MaxPending => self.max_pending = Some(parse_number(v, usize::MAX as u64)? as usize),
            Field::AnswerCache => self.answer_cache = Some(parse_number(v, usize::MAX as u64)? as usize),
            Field::IoThreads => self.io_threads = Some(parse_number(v, usize::MAX as u64)? as usize),
            Field::JevAliases => match parse_bool(v) {
                Some(x) => self.jev_aliases = Some(x),
                None => return Err("expected true or false"),
            },
            Field::ApiKeysFile => self.api_keys_file = Some(v.to_owned()),
            Field::Rpm => self.rpm = Some(parse_number(v, 4294967295)? as u32),
            Field::Tps => self.tps = Some(parse_number(v, 4294967295)? as u32),
            Field::LogLevel => self.log_level = Some(v.to_owned()),
            Field::LogRequests => match parse_bool(v) {
                Some(x) => self.log_requests = Some(x),
                None => return Err("expected true or false"),
            },
            Field::LogFormat => self.log_format = Some(v.to_owned()),
            Field::OtlpEndpoint => self.otlp_endpoint = Some(v.to_owned()),
            Field::OtlpService => self.otlp_service = Some(v.to_owned()),
        }
        proof {
            let x = read(f, v@)->Ok_0;
            assert(self.given(f) == Some(x));
            assert forall|g: Field| g != f implies #[trigger] self.given(g) == before.given(g) by {}
            assert(self@ =~= before@.insert(f, x));
        }
        Ok(())
    }
}

/// A value over another over a third is the same whichever are taken together first.
pub proof fn sources_may_be_grouped(
    a: Map<Field, Setting>,
    b: Map<Field, Setting>,
    c: Map<Field, Setting>,
)
    ensures
        over(over(a, b), c) == over(a, over(b, c)),
{
    assert(over(over(a, b), c) =~= over(a, over(b, c)));
}

/// A source that gives nothing changes nothing, before or after.
pub proof fn nothing_changes_nothing(a: Map<Field, Setting>)
    ensures
        over(a, nothing()) == a,
        over(nothing(), a) == a,
{
    assert(over(a, nothing()) =~= a);
    assert(over(nothing(), a) =~= a);
}

/// A later source wins, and where it gives nothing the earlier one stays.
pub proof fn later_sources_win(a: Map<Field, Setting>, b: Map<Field, Setting>, f: Field)
    ensures
        b.contains_key(f) ==> over(a, b).contains_key(f) && over(a, b)[f] == b[f],
        !b.contains_key(f) && a.contains_key(f) ==> over(a, b).contains_key(f) && over(a, b)[f]
            == a[f],
        !b.contains_key(f) && !a.contains_key(f) ==> !over(a, b).contains_key(f),
{
}

/// Variables as plain values.
pub open spec fn env_view(env: Seq<(String, String)>) -> Seq<(Seq<char>, Seq<char>)> {
    Seq::new(env.len(), |i: int| (env[i].0@, env[i].1@))
}

/// The value of a variable.
pub open spec fn lookup(env: Seq<(Seq<char>, Seq<char>)>, name: Seq<char>) -> Option<Seq<char>>
    decreases env.len(),
{
    if env.len() == 0 {
        None
    } else if env[0].0 == name {
        Some(env[0].1)
    } else {
        lookup(env.drop_first(), name)
    }
}

/// The value of a variable without the space around it, none when that leaves nothing.
pub open spec fn var_of(env: Seq<(Seq<char>, Seq<char>)>, name: Seq<char>) -> Option<Seq<char>> {
    match lookup(env, name) {
        Some(v) => if trimmed(v, Class::White).len() == 0 {
            None
        } else {
            Some(trimmed(v, Class::White))
        },
        None => None,
    }
}

/// A text that may be there.
pub open spec fn shown(v: Option<String>) -> Option<Seq<char>> {
    match v {
        Some(s) => Some(s@),
        None => None,
    }
}

/// The value of a variable.
fn look<'a>(env: &'a Vec<(String, String)>, name: &str) -> (r: Option<&'a String>)
    ensures
        match r {
            Some(v) => lookup(env_view(env@), name@) == Some(v@),
            None => lookup(env_view(env@), name@) is None,
        },
{
    let ghost all = env_view(env@);
    let mut i: usize = 0;
    assert(all.skip(0) =~= all);
    while i < env.len()
        invariant
            i <= env@.len(),
            all == env_view(env@),
            lookup(all, name@) == lookup(all.skip(i as int), name@),
        decreases env@.len() - i,
    {
        assert(all.skip(i as int)[0] == all[i as int]);
        assert(all.skip(i as int).drop_first() =~= all.skip(i + 1));
        if same(env[i].0.as_str(), name) {
            return Some(&env[i].1);
        }
        i += 1;
    }
    None
}

/// The value of a variable without the space around it.
fn var(env: &Vec<(String, String)>, name: &str) -> (r: Option<String>)
    ensures
        shown(r) == var_of(env_view(env@), name@),
{
    match look(env, name) {
        Some(v) => {
            let t = bare(v.as_str());
            if t.as_str().is_empty() {
                None
            } else {
                Some(t)
            }
        },
        None => None,
    }
}

/// A base address with `/v1/traces` under it.
pub open spec fn traces_under(b: Seq<char>) -> Seq<char> {
    trim_end(b, Class::One('/')) + "/v1/traces"@
}

/// What the variables give for a setting. Where traces go and under which name is also read from
/// OpenTelemetry's variables, when the setting's own is not set.
pub open spec fn env_value(env: Seq<(Seq<char>, Seq<char>)>, f: Field) -> Option<Seq<char>> {
    match f {
        Field::OtlpEndpoint => match var_of(env, "KIME_OTLP_ENDPOINT"@) {
            Some(v) => Some(v),
            None => match var_of(env, "OTEL_EXPORTER_OTLP_TRACES_ENDPOINT"@) {
                Some(v) => Some(v),
                None => match var_of(env, "OTEL_EXPORTER_OTLP_ENDPOINT"@) {
                    Some(b) => Some(traces_under(b)),
                    None => None,
                },
            },
        },
        Field::OtlpService => match var_of(env, "KIME_OTLP_SERVICE"@) {
            Some(v) => Some(v),
            None => var_of(env, "OTEL_SERVICE_NAME"@),
        },
        _ => var_of(env, variable(f)),
    }
}

/// What the variables give for a setting.
fn value_of(env: &Vec<(String, String)>, f: Field) -> (r: Option<String>)
    ensures
        shown(r) == env_value(env_view(env@), f),
{
    match f {
        Field::OtlpEndpoint => {
            if let Some(v) = var(env, "KIME_OTLP_ENDPOINT") {
                return Some(v);
            }
            if let Some(v) = var(env, "OTEL_EXPORTER_OTLP_TRACES_ENDPOINT") {
                return Some(v);
            }
            match var(env, "OTEL_EXPORTER_OTLP_ENDPOINT") {
                Some(b) => {
                    let base = text_of(&trim_right(&chars_of(b.as_str()), Class::One('/')));
                    Some(join2(base.as_str(), "/v1/traces"))
                },
                None => None,
            }
        },
        Field::OtlpService => {
            if let Some(v) = var(env, "KIME_OTLP_SERVICE") {
                return Some(v);
            }
            var(env, "OTEL_SERVICE_NAME")
        },
        _ => var(env, variable_name(f)),
    }
}

/// What the variables give for the first `n` settings, or what is wrong with the first that is
/// wrong.
pub open spec fn env_settings(env: Seq<(Seq<char>, Seq<char>)>, n: int) -> Result<
    Map<Field, Setting>,
    Seq<char>,
>
    decreases n,
{
    if n <= 0 {
        Ok(nothing())
    } else {
        match env_settings(env, n - 1) {
            Err(e) => Err(e),
            Ok(s) => {
                let f = nth((n - 1) as usize);
                match env_value(env, f) {
                    None => Ok(s),
                    Some(v) => match read(f, v) {
                        Ok(x) => Ok(s.insert(f, x)),
                        Err(e) => Err(variable(f) + "="@ + debug_text(v) + ": "@ + e),
                    },
                }
            },
        }
    }
}

/// An error of the first settings is the error of all.
proof fn env_error_stays(env: Seq<(Seq<char>, Seq<char>)>, m: int, n: int)
    requires
        0 <= m <= n,
        env_settings(env, m) is Err,
    ensures
        env_settings(env, n) == env_settings(env, m),
    decreases n - m,
{
    if m < n {
        env_error_stays(env, m, n - 1);
    }
}

/// The result of reading a source.
pub open spec fn outcome(r: Result<Settings, String>) -> Result<Map<Field, Setting>, Seq<char>> {
    match r {
        Ok(s) => Ok(s@),
        Err(e) => Err(e@),
    }
}

impl Settings {
    /// The `KIME_*` variables, one per setting, named after it in capitals.
    pub fn kime_env(env: &Vec<(String, String)>) -> (r: Result<Settings, String>)
        ensures
            outcome(r) == env_settings(env_view(env@), COUNT as int),
    {
        let mut s = Settings::default();
        let ghost e = env_view(env@);
        let mut i: usize = 0;
        while i < COUNT
            invariant
                i <= COUNT,
                e == env_view(env@),
                env_settings(e, i as int) == Ok::<Map<Field, Setting>, Seq<char>>(s@),
            decreases COUNT - i,
        {
            let f = nth_field(i);
            if let Some(v) = value_of(env, f) {
                if let Err(m) = s.put(f, v.as_str()) {
                    let text = join5(
                        variable_name(f),
                        "=",
                        debug_string(v.as_str()).as_str(),
                        ": ",
                        m,
                    );
                    proof {
                        env_error_stays(e, i + 1, COUNT as int);
                    }
                    return Err(text);
                }
            }
            i += 1;
        }
        Ok(s)
    }
}

/// The model that laya-serve's names for a checkpoint stand for.
pub open spec fn laya_name(name: Seq<char>) -> Option<Seq<char>> {
    let t = ascii_lower(name);
    if t == "english"@ || t == "en"@ || t == "laya"@ || t == "default"@ {
        Some("laya"@)
    } else if t == "multilingual"@ || t == "multi"@ || t == "ml"@ || t == "laya-multilingual"@ {
        Some("laya-multilingual"@)
    } else if t == "typed-decisions"@ || t == "typed"@ || t == "typed_decisions"@ || t
        == "laya-typed-decisions"@ || t == "decisions"@ {
        Some("laya-typed-decisions"@)
    } else {
        None
    }
}

/// The model that laya-serve's names for a checkpoint stand for.
pub fn laya_model(name: &str) -> (r: Option<String>)
    ensures
        shown(r) == laya_name(name@),
{
    let t = to_ascii_lower(name);
    let t = t.as_str();
    if same(t, "english") || same(t, "en") || same(t, "laya") || same(t, "default") {
        Some("laya".to_owned())
    } else if same(t, "multilingual") || same(t, "multi") || same(t, "ml") || same(
        t,
        "laya-multilingual",
    ) {
        Some("laya-multilingual".to_owned())
    } else if same(t, "typed-decisions") || same(t, "typed") || same(t, "typed_decisions") || same(
        t,
        "laya-typed-decisions",
    ) || same(t, "decisions") {
        Some("laya-typed-decisions".to_owned())
    } else {
        None
    }
}

/// The models of the first `n` names, or the message for the first that is unknown.
pub open spec fn laya_models(names: Seq<Seq<char>>, n: int) -> Result<Seq<Seq<char>>, Seq<char>>
    decreases n,
{
    if n <= 0 {
        Ok(seq![])
    } else {
        match laya_models(names, n - 1) {
            Err(e) => Err(e),
            Ok(m) => match laya_name(names[n - 1]) {
                Some(x) => Ok(m.push(x)),
                None => Err(
                    "LAYA_MODELS: unknown model "@ + debug_text(names[n - 1])
                        + ", expected english, multilingual or typed-decisions"@,
                ),
            },
        }
    }
}

/// An error of the first names is the error of all.
proof fn laya_error_stays(names: Seq<Seq<char>>, m: int, n: int)
    requires
        0 <= m <= n,
        laya_models(names, m) is Err,
    ensures
        laya_models(names, n) == laya_models(names, m),
    decreases n - m,
{
    if m < n {
        laya_error_stays(names, m, n - 1);
    }
}

/// The models of some names.
fn map_laya(names: &Vec<String>) -> (r: Result<Vec<String>, String>)
    ensures
        match (r, laya_models(texts(names@), names@.len() as int)) {
            (Ok(v), Ok(m)) => texts(v@) == m,
            (Err(e), Err(m)) => e@ == m,
            _ => false,
        },
{
    let ghost all = texts(names@);
    let mut out: Vec<String> = Vec::new();
    let mut i: usize = 0;
    assert(texts(out@) =~= seq![]);
    while i < names.len()
        invariant
            i <= names@.len(),
            all == texts(names@),
            laya_models(all, i as int) == Ok::<Seq<Seq<char>>, Seq<char>>(texts(out@)),
        decreases names@.len() - i,
    {
        let ghost before = texts(out@);
        let name = names[i].as_str();
        assert(all[i as int] == name@);
        match laya_model(name) {
            Some(m) => {
                let ghost shown = m@;
                out.push(m);
                assert(texts(out@) =~= before.push(shown));
            },
            None => {
                proof {
                    laya_error_stays(all, i + 1, names@.len() as int);
                }
                return Err(
                    join3(
                        "LAYA_MODELS: unknown model ",
                        debug_string(name).as_str(),
                        ", expected english, multilingual or typed-decisions",
                    ),
                );
            },
        }
        i += 1;
    }
    Ok(out)
}

/// A setting when there is a text for it.
pub open spec fn with_text(s: Map<Field, Setting>, f: Field, v: Option<Seq<char>>) -> Map<
    Field,
    Setting,
> {
    match v {
        Some(t) => s.insert(f, Setting::Text(t)),
        None => s,
    }
}

/// laya-serve's variables, read the way laya-serve reads them: an unknown model and a bad port are
/// errors, and a thread count that is not a whole number above 0 is ignored.
pub open spec fn laya_settings(env: Seq<(Seq<char>, Seq<char>)>) -> Result<
    Map<Field, Setting>,
    Seq<char>,
> {
    let names = match var_of(env, "LAYA_MODELS"@) {
        Some(v) => Some(list_of(v)),
        None => None,
    };
    let models = match names {
        Some(l) => laya_models(l, l.len() as int),
        None => Ok(seq![]),
    };
    match models {
        Err(e) => Err(e),
        Ok(m) => {
            let port = var_of(env, "LAYA_PORT"@);
            if port is Some && parsed(port->0, u16::MAX as nat) is None {
                Err(
                    "LAYA_PORT="@ + debug_text(port->0) + ": "@ + number_error(
                        port->0,
                        u16::MAX as nat,
                    )->0,
                )
            } else {
                let s = with_text(nothing(), Field::Host, var_of(env, "LAYA_HOST"@));
                let s = match port {
                    Some(p) => s.insert(
                        Field::Port,
                        Setting::Num(parsed(p, u16::MAX as nat)->0 as int),
                    ),
                    None => s,
                };
                let s = match names {
                    Some(_) => s.insert(Field::Models, Setting::List(m)),
                    None => s,
                };
                let s = with_text(s, Field::Device, var_of(env, "LAYA_DEVICE"@));
                let s = match var_of(env, "LAYA_THREADS"@) {
                    Some(v) => match parsed(v, usize::MAX as nat) {
                        Some(n) => if n > 0 {
                            s.insert(Field::Threads, Setting::Num(n as int))
                        } else {
                            s
                        },
                        None => s,
                    },
                    None => s,
                };
                Ok(with_text(s, Field::LogLevel, var_of(env, "LAYA_LOG_LEVEL"@)))
            }
        },
    }
}

impl Settings {
    /// laya-serve's variables.
    pub fn laya_env(env: &Vec<(String, String)>) -> (r: Result<Settings, String>)
        ensures
            outcome(r) == laya_settings(env_view(env@)),
    {
        let ghost e = env_view(env@);
        let models: Option<Vec<String>> = match var(env, "LAYA_MODELS") {
            Some(v) => {
                let names = list(v.as_str());
                assert(texts(names@).len() == names@.len());
                match map_laya(&names) {
                    Ok(m) => Some(m),
                    Err(x) => return Err(x),
                }
            },
            None => None,
        };
        let port_text = var(env, "LAYA_PORT");
        let port: Option<u16> = match &port_text {
            Some(v) => match parse_number(v.as_str(), 65535) {
                Ok(n) => Some(n as u16),
                Err(m) => {
                    let mut text = join3("LAYA_PORT=", debug_string(v.as_str()).as_str(), ": ");
                    text.append(m);
                    return Err(text);
                },
            },
            None => None,
        };
        let threads: Option<usize> = match var(env, "LAYA_THREADS") {
            Some(v) => match parse_number(v.as_str(), usize::MAX as u64) {
                Ok(n) => {
                    if n > 0 {
                        Some(n as usize)
                    } else {
                        None
                    }
                },
                Err(_) => None,
            },
            None => None,
        };
        let host = var(env, "LAYA_HOST");
        let dev = var(env, "LAYA_DEVICE");
        let level = var(env, "LAYA_LOG_LEVEL");
        let r = Settings {
            host,
            port,
            models,
            device: dev,
            threads,
            log_level: level,
            ..Settings::default()
        };
        proof {
            let want = laya_settings(e)->Ok_0;
            assert forall|f: Field| #[trigger] want.contains_key(f) <==> r.given(f) is Some by {}
            assert(r@ =~= want);
        }
        Ok(r)
    }
}

/// How the server is called.
pub const USAGE: &'static str = "usage: kime serve [--config kime.toml] [--host 127.0.0.1] [--port 8000] [--models laya,laya-multilingual]
options: --device auto|cpu|cuda[:N]  --threads N  --precision f16|f32|int8
         --max-batch N  --max-batch-tokens N  --max-body BYTES  --max-request-tokens N
         --max-queue-ms MS (0 is off)  --max-pending N (0 is off)  --io-threads N  --no-jev-aliases
         --answer-cache N (answers kept per model, 100000 by default, 0 is off)
         --api-keys-file PATH  --rpm N  --tps N  --log-level info
         --log-requests  --log-format text|json  --otlp-endpoint http://HOST:4318  --otlp-service NAME
Every option is also a kime.toml field (--max-batch is max_batch) and a KIME_ variable
(KIME_MAX_BATCH). Flags win over KIME_ variables, which win over the file, which wins over
laya-serve's LAYA_ variables. OTEL_EXPORTER_OTLP_TRACES_ENDPOINT, OTEL_EXPORTER_OTLP_ENDPOINT and
OTEL_SERVICE_NAME are read when the KIME_ ones are not set. The first model answers requests that name no model. API keys
also come from KIME_API_KEYS (comma separated) and from laya-serve's LAYA_API_KEY. With no
keys anyone can call the API.";

/// What the flags from the `i`th on give, with what those before them gave.
pub open spec fn flags_from(
    args: Seq<Seq<char>>,
    i: int,
    s: Map<Field, Setting>,
    config: Option<Seq<char>>,
) -> Result<(Map<Field, Setting>, Option<Seq<char>>), Seq<char>>
    decreases args.len() - i,
{
    if i >= args.len() {
        Ok((s, config))
    } else {
        let a = args[i];
        let last = i + 1 >= args.len();
        if a == "--log-requests"@ {
            flags_from(args, i + 1, s.insert(Field::LogRequests, Setting::Flag(true)), config)
        } else if a == "--no-jev-aliases"@ {
            flags_from(args, i + 1, s.insert(Field::JevAliases, Setting::Flag(false)), config)
        } else if a == "--help"@ || a == "-h"@ {
            Err(USAGE@)
        } else if a == "--config"@ {
            if last {
                Err(a + " needs a value"@)
            } else {
                flags_from(args, i + 2, s, Some(args[i + 1]))
            }
        } else {
            match flag_field(a) {
                None => Err("unknown option "@ + debug_text(a) + "\n"@ + USAGE@),
                Some(f) => if last {
                    Err(a + " needs a value"@)
                } else {
                    match read(f, args[i + 1]) {
                        Ok(x) => flags_from(args, i + 2, s.insert(f, x), config),
                        Err(e) => Err(a + " "@ + debug_text(args[i + 1]) + ": "@ + e),
                    }
                },
            }
        }
    }
}

impl Settings {
    /// The flags, and the settings file if one is named.
    pub fn flags(args: &Vec<String>) -> (r: Result<(Settings, Option<String>), String>)
        ensures
            match (r, flags_from(texts(args@), 0, nothing(), None)) {
                (Ok((s, c)), Ok((m, w))) => s@ == m && shown(c) == w,
                (Err(e), Err(m)) => e@ == m,
                _ => false,
            },
    {
        let mut s = Settings::default();
        let mut config: Option<String> = None;
        let ghost all = texts(args@);
        let ghost whole = flags_from(all, 0, nothing(), None);
        let mut i: usize = 0;
        while i < args.len()
            invariant
                i <= args@.len(),
                all == texts(args@),
                whole == flags_from(all, 0, nothing(), None),
                flags_from(all, i as int, s@, shown(config)) == whole,
            decreases args@.len() - i,
        {
            let a = args[i].as_str();
            assert(all[i as int] == a@);
            let ghost before = s;
            if same(a, "--log-requests") {
                s.log_requests = Some(true);
                proof {
                    given_flag(before, s, Field::LogRequests, true);
                }
                i += 1;
            } else if same(a, "--no-jev-aliases") {
                s.jev_aliases = Some(false);
                proof {
                    given_flag(before, s, Field::JevAliases, false);
                }
                i += 1;
            } else if same(a, "--help") || same(a, "-h") {
                return Err(USAGE.to_owned());
            } else if same(a, "--config") {
                if i + 1 >= args.len() {
                    return Err(join2(a, " needs a value"));
                }
                assert(all[i + 1] == args@[i + 1]@);
                config = Some(args[i + 1].as_str().to_owned());
                i += 2;
            } else {
                match named_field(a) {
                    None => {
                        let mut e = join3("unknown option ", debug_string(a).as_str(), "\n");
                        e.append(USAGE);
                        return Err(e);
                    },
                    Some(f) => {
                        if i + 1 >= args.len() {
                            return Err(join2(a, " needs a value"));
                        }
                        assert(all[i + 1] == args@[i + 1]@);
                        let v = args[i + 1].as_str();
                        if let Err(m) = s.put(f, v) {
                            return Err(join5(a, " ", debug_string(v).as_str(), ": ", m));
                        }
                        i += 2;
                    },
                }
            }
        }
        Ok((s, config))
    }
}

/// Settings with one yes or no set.
#[verifier::rlimit(60)]
proof fn given_flag(before: Settings, s: Settings, f: Field, b: bool)
    requires
        f == Field::LogRequests ==> s == (Settings { log_requests: Some(b), ..before }),
        f == Field::JevAliases ==> s == (Settings { jev_aliases: Some(b), ..before }),
        f == Field::LogRequests || f == Field::JevAliases,
    ensures
        s@ == before@.insert(f, Setting::Flag(b)),
{
    assert(s.given(f) == Some(Setting::Flag(b)));
    assert forall|g: Field| g != f implies #[trigger] s.given(g) == before.given(g) by {}
    assert(s@ =~= before@.insert(f, Setting::Flag(b)));
}

/// The defaults: loopback, port 8000 and one model, or every address and all three models under
/// laya-serve's name.
pub open spec fn default_settings(laya: bool) -> Map<Field, Setting> {
    nothing().insert(
        Field::Host,
        Setting::Text(
            if laya {
                "0.0.0.0"@
            } else {
                "127.0.0.1"@
            },
        ),
    ).insert(Field::Port, Setting::Num(8000)).insert(
        Field::Models,
        Setting::List(
            if laya {
                seq!["laya"@, "laya-multilingual"@, "laya-typed-decisions"@]
            } else {
                seq!["laya"@]
            },
        ),
    )
}

/// Every source merged in order, given what the settings file holds, or what is wrong with the
/// first source that is wrong.
pub open spec fn gathered(
    args: Seq<Seq<char>>,
    laya: bool,
    env: Seq<(Seq<char>, Seq<char>)>,
    file: Map<Field, Setting>,
) -> Result<Map<Field, Setting>, Seq<char>> {
    match flags_from(args, 0, nothing(), None) {
        Err(e) => Err(e),
        Ok((flags, _)) => match laya_settings(env) {
            Err(e) => Err(e),
            Ok(l) => match env_settings(env, COUNT as int) {
                Err(e) => Err(e),
                Ok(k) => Ok(over(over(over(over(default_settings(laya), l), file), k), flags)),
            },
        },
    }
}

impl Settings {
    /// The defaults.
    #[verifier::rlimit(60)]
    pub fn defaults(laya: bool) -> (r: Settings)
        ensures
            r@ == default_settings(laya),
    {
        let mut models: Vec<String> = Vec::new();
        models.push("laya".to_owned());
        if laya {
            models.push("laya-multilingual".to_owned());
            models.push("laya-typed-decisions".to_owned());
        }
        proof {
            if laya {
                assert(texts(models@) =~= seq![
                    "laya"@,
                    "laya-multilingual"@,
                    "laya-typed-decisions"@,
                ]);
            } else {
                assert(texts(models@) =~= seq!["laya"@]);
            }
        }
        let host = if laya {
            "0.0.0.0"
        } else {
            "127.0.0.1"
        };
        let r = Settings {
            host: Some(host.to_owned()),
            port: Some(8000),
            models: Some(models),
            ..Settings::default()
        };
        proof {
            let want = default_settings(laya);
            assert forall|f: Field| #[trigger] want.contains_key(f) <==> r.given(f) is Some by {}
            assert(r@ =~= want);
        }
        r
    }

    /// The settings file that the flags or `KIME_CONFIG` name, if they do.
    pub fn config_path(args: &Vec<String>, env: &Vec<(String, String)>) -> (r: Result<
        Option<String>,
        String,
    >)
        ensures
            match (r, flags_from(texts(args@), 0, nothing(), None)) {
                (Err(e), Err(m)) => e@ == m,
                (Ok(p), Ok((_, Some(c)))) => shown(p) == Some(c),
                (Ok(p), Ok((_, None))) => shown(p) == (match lookup(
                    env_view(env@),
                    "KIME_CONFIG"@,
                ) {
                    Some(v) => if trimmed(v, Class::White).len() == 0 {
                        None
                    } else {
                        Some(v)
                    },
                    None => None,
                }),
                _ => false,
            },
    {
        match Settings::flags(args) {
            Err(e) => Err(e),
            Ok((_, Some(c))) => Ok(Some(c)),
            Ok((_, None)) => match look(env, "KIME_CONFIG") {
                Some(v) => {
                    if bare(v.as_str()).as_str().is_empty() {
                        Ok(None)
                    } else {
                        Ok(Some(v.as_str().to_owned()))
                    }
                },
                None => Ok(None),
            },
        }
    }

    /// Every source merged in order, with what the settings file holds.
    pub fn gather(
        args: &Vec<String>,
        laya: bool,
        env: &Vec<(String, String)>,
        file: Settings,
    ) -> (r: Result<Settings, String>)
        ensures
            outcome(r) == gathered(texts(args@), laya, env_view(env@), file@),
    {
        let flags = match Settings::flags(args) {
            Ok((s, _)) => s,
            Err(e) => return Err(e),
        };
        let old = match Settings::laya_env(env) {
            Ok(s) => s,
            Err(e) => return Err(e),
        };
        let own = match Settings::kime_env(env) {
            Ok(s) => s,
            Err(e) => return Err(e),
        };
        Ok(Settings::defaults(laya).and(old).and(file).and(own).and(flags))
    }
}

/// A flag wins over every other source, a `KIME_*` variable over all but the flags, and the file
/// over laya-serve's variables and the defaults.
pub proof fn sources_win_in_order(
    args: Seq<Seq<char>>,
    laya: bool,
    env: Seq<(Seq<char>, Seq<char>)>,
    file: Map<Field, Setting>,
    f: Field,
)
    requires
        gathered(args, laya, env, file) is Ok,
    ensures
        ({
            let all = gathered(args, laya, env, file)->Ok_0;
            let (flags, _) = flags_from(args, 0, nothing(), None)->Ok_0;
            let own = env_settings(env, COUNT as int)->Ok_0;
            let old = laya_settings(env)->Ok_0;
            &&& flags.contains_key(f) ==> all.contains_key(f) && all[f] == flags[f]
            &&& !flags.contains_key(f) && own.contains_key(f) ==> all.contains_key(f) && all[f]
                == own[f]
            &&& !flags.contains_key(f) && !own.contains_key(f) && file.contains_key(f)
                ==> all.contains_key(f) && all[f] == file[f]
            &&& !flags.contains_key(f) && !own.contains_key(f) && !file.contains_key(f)
                && old.contains_key(f) ==> all.contains_key(f) && all[f] == old[f]
        }),
{
}

/// Whether laya-serve's variables name no model that is unknown.
pub open spec fn laya_models_known(env: Seq<(Seq<char>, Seq<char>)>) -> bool {
    match var_of(env, "LAYA_MODELS"@) {
        Some(v) => laya_models(list_of(v), list_of(v).len() as int) is Ok,
        None => true,
    }
}

/// What laya-serve's variables ask for that is not done: the first when preloading is off, the
/// second when routing by task is on. With an unknown model nothing is said.
pub fn laya_notes(env: &Vec<(String, String)>) -> (r: (bool, bool))
    ensures
        r.0 == (laya_models_known(env_view(env@)) && (var_of(
            env_view(env@),
            "LAYA_PRELOAD"@,
        ) matches Some(v) && yes_or_no(v) == Some(false))),
        r.1 == (laya_models_known(env_view(env@)) && (var_of(
            env_view(env@),
            "LAYA_AUTO_TASK"@,
        ) matches Some(v) && yes_or_no(v) == Some(true))),
{
    if let Some(v) = var(env, "LAYA_MODELS") {
        let names = list(v.as_str());
        assert(texts(names@).len() == names@.len());
        if map_laya(&names).is_err() {
            return (false, false);
        }
    }
    let preload = match var(env, "LAYA_PRELOAD") {
        Some(v) => matches!(parse_bool(v.as_str()), Some(false)),
        None => false,
    };
    let auto = match var(env, "LAYA_AUTO_TASK") {
        Some(v) => matches!(parse_bool(v.as_str()), Some(true)),
        None => false,
    };
    (preload, auto)
}

/// How requests are logged.
#[derive(Debug, Clone, Copy, PartialEq, Eq, Structural)]
pub enum Log {
    /// Not at all.
    Off,
    /// As text.
    Text,
    /// As JSON.
    Json,
}

/// What the server starts with.
#[derive(Debug)]
pub struct Start {
    /// The models to load.
    pub models: Vec<String>,
    /// Whether nothing is said at startup.
    pub quiet: bool,
    /// How requests are logged.
    pub log: Log,
    /// Where the models run.
    pub device: Device,
    /// The number format.
    pub precision: Precision,
    /// The address to listen on.
    pub host: String,
}

/// A text setting, or another when it is not given.
pub open spec fn text_or(v: Option<String>, other: Seq<char>) -> Seq<char> {
    match v {
        Some(s) => s@,
        None => other,
    }
}

/// Whether a log level is one of uvicorn's.
pub open spec fn is_level(l: Seq<char>) -> bool {
    l == "critical"@ || l == "error"@ || l == "warning"@ || l == "info"@ || l == "debug"@ || l
        == "trace"@
}

/// Whether a log level is above info.
pub open spec fn is_quiet(l: Seq<char>) -> bool {
    l == "critical"@ || l == "error"@ || l == "warning"@
}

/// The log level in lower case, `info` when none is given.
pub open spec fn level_of(s: &Settings) -> Seq<char> {
    ascii_lower(text_or(s.log_level, "info"@))
}

/// Why the server cannot start with some settings, if it cannot: no model, an unknown log level,
/// log format, device or number format, or threads for a GPU.
pub open spec fn start_refusal(s: &Settings) -> Option<Seq<char>> {
    let models = match s.models {
        Some(m) => m@.len(),
        None => 0,
    };
    let d = text_or(s.device, "auto"@);
    let p = text_or(s.precision, "f16"@);
    if models == 0 {
        Some("models needs at least one model"@)
    } else if !is_level(level_of(s)) {
        Some(
            "log level "@ + debug_text(level_of(s))
                + " is not one of critical, error, warning, info, debug, trace"@,
        )
    } else if s.log_format matches Some(f) && f@ != "text"@ && f@ != "json"@ {
        Some("log format "@ + debug_text(text_or(s.log_format, ""@)) + " is not text or json"@)
    } else if device_named(d) is None {
        Some("unknown device "@ + debug_text(d))
    } else if precision_named(p) is None {
        Some("unknown precision "@ + debug_text(p))
    } else if with_threads(device_named(d)->0, s.threads) is None {
        Some("threads is for the CPU"@)
    } else {
        None
    }
}

/// A text setting, or another when it is not given.
fn or_text(v: &Option<String>, other: &str) -> (r: String)
    ensures
        r@ == text_or(*v, other@),
{
    match v {
        Some(s) => s.as_str().to_owned(),
        None => other.to_owned(),
    }
}

impl Settings {
    /// What the server starts with, or why it cannot.
    pub fn start(&self) -> (r: Result<Start, String>)
        ensures
            match r {
                Err(e) => start_refusal(self) == Some(e@),
                Ok(t) => {
                    &&& start_refusal(self) is None
                    &&& self.models matches Some(m) && texts(t.models@) == texts(m@)
                    &&& t.quiet == is_quiet(level_of(self))
                    &&& t.log == if self.log_requests != Some(true) {
                        Log::Off
                    } else if self.log_format matches Some(f) && f@ == "json"@ {
                        Log::Json
                    } else {
                        Log::Text
                    }
                    &&& Some(t.device) == with_threads(
                        device_named(text_or(self.device, "auto"@))->0,
                        self.threads,
                    )
                    &&& Some(t.precision) == precision_named(text_or(self.precision, "f16"@))
                    &&& t.host@ == text_or(self.host, ""@)
                },
            },
    {
        let names = match &self.models {
            Some(m) => m,
            None => return Err("models needs at least one model".to_owned()),
        };
        if names.len() == 0 {
            return Err("models needs at least one model".to_owned());
        }
        let level = to_ascii_lower(or_text(&self.log_level, "info").as_str());
        let l = level.as_str();
        let quiet = same(l, "critical") || same(l, "error") || same(l, "warning");
        if !quiet && !same(l, "info") && !same(l, "debug") && !same(l, "trace") {
            return Err(
                join3(
                    "log level ",
                    debug_string(l).as_str(),
                    " is not one of critical, error, warning, info, debug, trace",
                ),
            );
        }
        let mut as_json = false;
        if let Some(f) = &self.log_format {
            if same(f.as_str(), "json") {
                as_json = true;
            } else if !same(f.as_str(), "text") {
                return Err(
                    join3("log format ", debug_string(f.as_str()).as_str(), " is not text or json"),
                );
            }
        }
        let log = match self.log_requests {
            Some(true) => {
                if as_json {
                    Log::Json
                } else {
                    Log::Text
                }
            },
            _ => Log::Off,
        };
        let dev = match device(or_text(&self.device, "auto").as_str()) {
            Ok(d) => d,
            Err(e) => return Err(e),
        };
        let prec = match precision(or_text(&self.precision, "f16").as_str()) {
            Ok(p) => p,
            Err(e) => return Err(e),
        };
        let dev = match add_threads(dev, self.threads) {
            Some(d) => d,
            None => return Err("threads is for the CPU".to_owned()),
        };
        let mut models: Vec<String> = Vec::new();
        let mut i: usize = 0;
        while i < names.len()
            invariant
                i <= names@.len(),
                texts(models@) == texts(names@).take(i as int),
            decreases names@.len() - i,
        {
            let ghost before = texts(models@);
            models.push(names[i].as_str().to_owned());
            i += 1;
            assert(texts(models@) =~= before.push(names@[i - 1]@));
            assert(texts(models@) =~= texts(names@).take(i as int));
        }
        assert(texts(names@).take(i as int) =~= texts(names@));
        Ok(Start { models, quiet, log, device: dev, precision: prec, host: or_text(&self.host, "") })
    }
}

/// `"{what} must be a whole number above 0"`.
pub open spec fn above_zero_text(what: Seq<char>) -> Seq<char> {
    what + " must be a whole number above 0"@
}

/// A limit, which is not 0.
pub fn limit(what: &str, n: u32) -> (r: Result<u32, String>)
    ensures
        match r {
            Ok(x) => n > 0 && x == n,
            Err(e) => n == 0 && e@ == above_zero_text(what@),
        },
{
    if n == 0 {
        Err(join2(what, " must be a whole number above 0"))
    } else {
        Ok(n)
    }
}

/// Answers kept per model when nothing says how many.
pub const ANSWER_CACHE: usize = 100000;

/// The server's limits.
#[derive(Debug, Clone, Copy, PartialEq, Eq, Structural)]
pub struct ServeLimits {
    /// Whether `jev-*` names are answered.
    pub jev_aliases: bool,
    /// The most questions in a batch.
    pub max_batch: usize,
    /// The most tokens in a batch.
    pub max_batch_tokens: usize,
    /// The most requests that wait.
    pub max_pending: usize,
    /// The most bytes in a request body.
    pub max_body: usize,
    /// The most tokens in a request.
    pub max_request_tokens: usize,
    /// Threads for connections.
    pub io_threads: usize,
    /// The longest wait in the queue, in milliseconds.
    pub max_queue_ms: u64,
    /// Answers kept per model. [`Settings::limits`] goes by [`ANSWER_CACHE`] and not by the
    /// server's own.
    pub answer_cache: usize,
}

/// A number setting, or another when it is not given.
fn or_count(v: Option<usize>, other: usize) -> (r: usize)
    ensures
        r == (match v {
            Some(n) => n,
            None => other,
        }),
{
    match v {
        Some(n) => n,
        None => other,
    }
}

impl Settings {
    /// How many answers are kept per model: [`ANSWER_CACHE`] when nothing says.
    pub fn answer_cache(&self) -> (r: usize)
        ensures
            r == (match self.answer_cache {
                Some(n) => n,
                None => ANSWER_CACHE,
            }),
    {
        or_count(self.answer_cache, ANSWER_CACHE)
    }

    /// The server's own limits with those that are given in their place, and how many answers are
    /// kept. No request may be limited to 0 tokens.
    pub fn limits(&self, own: ServeLimits) -> (r: Result<ServeLimits, String>)
        ensures
            match r {
                Err(e) => self.max_request_tokens == Some(0usize) && e@ == above_zero_text(
                    "max_request_tokens"@,
                ),
                Ok(l) => {
                    &&& self.max_request_tokens != Some(0usize)
                    &&& l.jev_aliases == (match self.jev_aliases {
                        Some(b) => b,
                        None => own.jev_aliases,
                    })
                    &&& l.max_batch == (match self.max_batch {
                        Some(n) => n,
                        None => own.max_batch,
                    })
                    &&& l.max_batch_tokens == (match self.max_batch_tokens {
                        Some(n) => n,
                        None => own.max_batch_tokens,
                    })
                    &&& l.max_pending == (match self.max_pending {
                        Some(n) => n,
                        None => own.max_pending,
                    })
                    &&& l.max_body == (match self.max_body {
                        Some(n) => n,
                        None => own.max_body,
                    })
                    &&& l.max_request_tokens == (match self.max_request_tokens {
                        Some(n) => n,
                        None => own.max_request_tokens,
                    })
                    &&& l.io_threads == (match self.io_threads {
                        Some(n) => n,
                        None => own.io_threads,
                    })
                    &&& l.max_queue_ms == (match self.max_queue_ms {
                        Some(n) => n,
                        None => own.max_queue_ms,
                    })
                    &&& l.answer_cache == (match self.answer_cache {
                        Some(n) => n,
                        None => ANSWER_CACHE,
                    })
                },
            },
    {
        if let Some(0) = self.max_request_tokens {
            return Err(join2("max_request_tokens", " must be a whole number above 0"));
        }
        Ok(
            ServeLimits {
                jev_aliases: match self.jev_aliases {
                    Some(b) => b,
                    None => own.jev_aliases,
                },
                max_batch: or_count(self.max_batch, own.max_batch),
                max_batch_tokens: or_count(self.max_batch_tokens, own.max_batch_tokens),
                max_pending: or_count(self.max_pending, own.max_pending),
                max_body: or_count(self.max_body, own.max_body),
                max_request_tokens: or_count(self.max_request_tokens, own.max_request_tokens),
                io_threads: or_count(self.io_threads, own.io_threads),
                max_queue_ms: match self.max_queue_ms {
                    Some(n) => n,
                    None => own.max_queue_ms,
                },
                answer_cache: self.answer_cache(),
            },
        )
    }

    /// Requests per minute and tokens per second, neither of which is 0.
    pub fn rates(&self) -> (r: Result<(Option<u32>, Option<u32>), String>)
        ensures
            match r {
                Err(e) => (self.rpm == Some(0u32) && e@ == above_zero_text("rpm"@)) || (self.rpm
                    != Some(0u32) && self.tps == Some(0u32) && e@ == above_zero_text("tps"@)),
                Ok((a, b)) => self.rpm != Some(0u32) && self.tps != Some(0u32) && a == self.rpm && b
                    == self.tps,
            },
    {
        if let Some(n) = self.rpm {
            if let Err(e) = limit("rpm", n) {
                return Err(e);
            }
        }
        if let Some(n) = self.tps {
            if let Err(e) = limit("tps", n) {
                return Err(e);
            }
        }
        Ok((self.rpm, self.tps))
    }
}

/// Which keys the API takes.
#[derive(Debug)]
pub enum Keys {
    /// None: anyone can call it.
    Off,
    /// laya-serve's key alone, which answers with laya-serve's errors.
    Laya(String),
    /// The keys of the file, these, and laya-serve's when it is set.
    List(Vec<String>, Option<String>),
}

/// Which keys the API takes, by whether there is a file of keys and by the two variables. An empty
/// variable is not set.
pub fn keys(file: bool, kime: Option<&str>, laya: Option<&str>) -> (r: Keys)
    ensures
        ({
            let own = kime matches Some(k) && trimmed(k@, Class::White).len() > 0;
            let old = laya matches Some(k) && k@.len() > 0;
            match r {
                Keys::Off => !file && !own && !old,
                Keys::Laya(k) => !file && !own && old && (laya matches Some(l) && k@ == l@),
                Keys::List(list, l) => {
                    &&& file || own
                    &&& texts(list@) == if own {
                        list_of(kime->0@)
                    } else {
                        seq![]
                    }
                    &&& match l {
                        Some(k) => old && (laya matches Some(x) && k@ == x@),
                        None => !old,
                    }
                },
            }
        }),
{
    let old: Option<String> = match laya {
        Some(k) => {
            if k.is_empty() {
                None
            } else {
                Some(k.to_owned())
            }
        },
        None => None,
    };
    let none: Vec<String> = Vec::new();
    assert(texts(none@) =~= seq![]);
    let (own, list): (bool, Vec<String>) = match kime {
        Some(k) => {
            if bare(k).as_str().is_empty() {
                (false, none)
            } else {
                (true, list(k))
            }
        },
        None => (false, none),
    };
    if !file && !own {
        return match old {
            Some(k) => Keys::Laya(k),
            None => Keys::Off,
        };
    }
    Keys::List(list, old)
}

/// What the server says of the keys that the file and the variables were read into: how many there
/// are, or an error when there are none.
pub fn keys_note(count: usize) -> (r: Result<String, String>)
    ensures
        match r {
            Err(e) => count == 0 && e@ == "the API keys file and KIME_API_KEYS hold no keys"@,
            Ok(m) => count > 0 && m@ == "requests need one of "@ + dec(count as nat)
                + " API keys"@,
        },
{
    if count == 0 {
        return Err("the API keys file and KIME_API_KEYS hold no keys".to_owned());
    }
    Ok(join3("requests need one of ", decimal(count as u64).as_str(), " API keys"))
}

/// What the server says of the spans it sends.
pub fn spans_note(endpoint: &str, service: &str) -> (r: String)
    ensures
        r@ == "sending a span per request to "@ + endpoint@ + " as "@ + service@,
{
    let mut m = join3("sending a span per request to ", endpoint, " as ");
    m.append(service);
    m
}

/// A text with underscores for dashes.
pub open spec fn underscored(s: Seq<char>) -> Seq<char> {
    Seq::new(
        s.len(),
        |i: int|
            if s[i] == '-' {
                '_'
            } else {
                s[i]
            },
    )
}

/// Whether a variable is named like a flag: in capitals, with underscores for dashes, behind the
/// prefix of this server.
pub open spec fn named_alike(a: Seq<char>, v: Seq<char>) -> bool {
    ascii_lower(v) == "kime_"@ + underscored(a.skip(2))
}

/// Some flags are named like their variables.
proof fn first_names_alike(a: Seq<char>, v: Seq<char>)
    requires
        (a == "--host"@ && v == "KIME_HOST"@)
            || (a == "--port"@ && v == "KIME_PORT"@)
            || (a == "--models"@ && v == "KIME_MODELS"@),
    ensures
        named_alike(a, v),
{
    reveal_strlit("kime_");
    reveal_strlit("--host");
    reveal_strlit("KIME_HOST");
    reveal_strlit("--port");
    reveal_strlit("KIME_PORT");
    reveal_strlit("--models");
    reveal_strlit("KIME_MODELS");
    assert(ascii_lower("KIME_HOST"@) =~= "kime_"@ + underscored("--host"@.skip(2)));
    assert(ascii_lower("KIME_PORT"@) =~= "kime_"@ + underscored("--port"@.skip(2)));
    assert(ascii_lower("KIME_MODELS"@) =~= "kime_"@ + underscored("--models"@.skip(2)));
}

/// Some flags are named like their variables.
proof fn second_names_alike(a: Seq<char>, v: Seq<char>)
    requires
        (a == "--device"@ && v == "KIME_DEVICE"@)
            || (a == "--threads"@ && v == "KIME_THREADS"@)
            || (a == "--precision"@ && v == "KIME_PRECISION"@),
    ensures
        named_alike(a, v),
{
    reveal_strlit("kime_");
    reveal_strlit("--device");
    reveal_strlit("KIME_DEVICE");
    reveal_strlit("--threads");
    reveal_strlit("KIME_THREADS");
    reveal_strlit("--precision");
    reveal_strlit("KIME_PRECISION");
    assert(ascii_lower("KIME_DEVICE"@) =~= "kime_"@ + underscored("--device"@.skip(2)));
    assert(ascii_lower("KIME_THREADS"@) =~= "kime_"@ + underscored("--threads"@.skip(2)));
    assert(ascii_lower("KIME_PRECISION"@) =~= "kime_"@ + underscored("--precision"@.skip(2)));
}

/// Some flags are named like their variables.
proof fn third_names_alike(a: Seq<char>, v: Seq<char>)
    requires
        (a == "--max-batch"@ && v == "KIME_MAX_BATCH"@)
            || (a == "--max-batch-tokens"@ && v == "KIME_MAX_BATCH_TOKENS"@)
            || (a == "--max-body"@ && v == "KIME_MAX_BODY"@),
    ensures
        named_alike(a, v),
{
    reveal_strlit("kime_");
    reveal_strlit("--max-batch");
    reveal_strlit("KIME_MAX_BATCH");
    reveal_strlit("--max-batch-tokens");
    reveal_strlit("KIME_MAX_BATCH_TOKENS");
    reveal_strlit("--max-body");
    reveal_strlit("KIME_MAX_BODY");
    assert(ascii_lower("KIME_MAX_BATCH"@) =~= "kime_"@ + underscored("--max-batch"@.skip(2)));
    assert(ascii_lower("KIME_MAX_BATCH_TOKENS"@) =~= "kime_"@ + underscored("--max-batch-tokens"@.skip(2)));
    assert(ascii_lower("KIME_MAX_BODY"@) =~= "kime_"@ + underscored("--max-body"@.skip(2)));
}

/// Some flags are named like their variables.
proof fn fourth_names_alike(a: Seq<char>, v: Seq<char>)
    requires
        (a == "--max-request-tokens"@ && v == "KIME_MAX_REQUEST_TOKENS"@)
            || (a == "--max-queue-ms"@ && v == "KIME_MAX_QUEUE_MS"@)
            || (a == "--max-pending"@ && v == "KIME_MAX_PENDING"@),
    ensures
        named_alike(a, v),
{
    reveal_strlit("kime_");
    reveal_strlit("--max-request-tokens");
    reveal_strlit("KIME_MAX_REQUEST_TOKENS");
    reveal_strlit("--max-queue-ms");
    reveal_strlit("KIME_MAX_QUEUE_MS");
    reveal_strlit("--max-pending");
    reveal_strlit("KIME_MAX_PENDING");
    assert(ascii_lower("KIME_MAX_REQUEST_TOKENS"@) =~= "kime_"@ + underscored("--max-request-tokens"@.skip(2)));
    assert(ascii_lower("KIME_MAX_QUEUE_MS"@) =~= "kime_"@ + underscored("--max-queue-ms"@.skip(2)));
    assert(ascii_lower("KIME_MAX_PENDING"@) =~= "kime_"@ + underscored("--max-pending"@.skip(2)));
}

/// Some flags are named like their variables.
proof fn fifth_names_alike(a: Seq<char>, v: Seq<char>)
    requires
        (a == "--answer-cache"@ && v == "KIME_ANSWER_CACHE"@)
            || (a == "--io-threads"@ && v == "KIME_IO_THREADS"@)
            || (a == "--api-keys-file"@ && v == "KIME_API_KEYS_FILE"@),
    ensures
        named_alike(a, v),
{
    reveal_strlit("kime_");
    reveal_strlit("--answer-cache");
    reveal_strlit("KIME_ANSWER_CACHE");
    reveal_strlit("--io-threads");
    reveal_strlit("KIME_IO_THREADS");
    reveal_strlit("--api-keys-file");
    reveal_strlit("KIME_API_KEYS_FILE");
    assert(ascii_lower("KIME_ANSWER_CACHE"@) =~= "kime_"@ + underscored("--answer-cache"@.skip(2)));
    assert(ascii_lower("KIME_IO_THREADS"@) =~= "kime_"@ + underscored("--io-threads"@.skip(2)));
    assert(ascii_lower("KIME_API_KEYS_FILE"@) =~= "kime_"@ + underscored("--api-keys-file"@.skip(2)));
}

/// Some flags are named like their variables.
proof fn sixth_names_alike(a: Seq<char>, v: Seq<char>)
    requires
        (a == "--rpm"@ && v == "KIME_RPM"@)
            || (a == "--tps"@ && v == "KIME_TPS"@)
            || (a == "--log-level"@ && v == "KIME_LOG_LEVEL"@),
    ensures
        named_alike(a, v),
{
    reveal_strlit("kime_");
    reveal_strlit("--rpm");
    reveal_strlit("KIME_RPM");
    reveal_strlit("--tps");
    reveal_strlit("KIME_TPS");
    reveal_strlit("--log-level");
    reveal_strlit("KIME_LOG_LEVEL");
    assert(ascii_lower("KIME_RPM"@) =~= "kime_"@ + underscored("--rpm"@.skip(2)));
    assert(ascii_lower("KIME_TPS"@) =~= "kime_"@ + underscored("--tps"@.skip(2)));
    assert(ascii_lower("KIME_LOG_LEVEL"@) =~= "kime_"@ + underscored("--log-level"@.skip(2)));
}

/// Some flags are named like their variables.
proof fn last_names_alike(a: Seq<char>, v: Seq<char>)
    requires
        (a == "--log-format"@ && v == "KIME_LOG_FORMAT"@)
            || (a == "--otlp-endpoint"@ && v == "KIME_OTLP_ENDPOINT"@)
            || (a == "--otlp-service"@ && v == "KIME_OTLP_SERVICE"@),
    ensures
        named_alike(a, v),
{
    reveal_strlit("kime_");
    reveal_strlit("--log-format");
    reveal_strlit("KIME_LOG_FORMAT");
    reveal_strlit("--otlp-endpoint");
    reveal_strlit("KIME_OTLP_ENDPOINT");
    reveal_strlit("--otlp-service");
    reveal_strlit("KIME_OTLP_SERVICE");
    assert(ascii_lower("KIME_LOG_FORMAT"@) =~= "kime_"@ + underscored("--log-format"@.skip(2)));
    assert(ascii_lower("KIME_OTLP_ENDPOINT"@) =~= "kime_"@ + underscored("--otlp-endpoint"@.skip(2)));
    assert(ascii_lower("KIME_OTLP_SERVICE"@) =~= "kime_"@ + underscored("--otlp-service"@.skip(2)));
}

/// A flag is named like the variable of the setting it gives: `--max-batch` is `KIME_MAX_BATCH`. The
/// one flag that is not is `--model`, which is short for `--models`.
pub proof fn a_flag_is_named_like_its_variable(a: Seq<char>)
    requires
        flag_field(a) is Some,
        a != "--model"@,
    ensures
        named_alike(a, variable(flag_field(a)->0)),
{
    let f = flag_field(a)->0;
    let v = variable(f);
    if f == Field::Host || f == Field::Port || f == Field::Models {
        first_names_alike(a, v);
    }
    if f == Field::Device || f == Field::Threads || f == Field::Precision {
        second_names_alike(a, v);
    }
    if f == Field::MaxBatch || f == Field::MaxBatchTokens || f == Field::MaxBody {
        third_names_alike(a, v);
    }
    if f == Field::MaxRequestTokens || f == Field::MaxQueueMs || f == Field::MaxPending {
        fourth_names_alike(a, v);
    }
    if f == Field::AnswerCache || f == Field::IoThreads || f == Field::ApiKeysFile {
        fifth_names_alike(a, v);
    }
    if f == Field::Rpm || f == Field::Tps || f == Field::LogLevel {
        sixth_names_alike(a, v);
    }
    if f == Field::LogFormat || f == Field::OtlpEndpoint || f == Field::OtlpService {
        last_names_alike(a, v);
    }
}

/// A flag and the text behind it give the flag's setting the value that the text reads as, and
/// nothing else. Given twice, the later text counts.
pub proof fn a_flag_gives_its_setting(
    a: Seq<char>,
    v: Seq<char>,
    w: Seq<char>,
    s: Map<Field, Setting>,
)
    requires
        flag_field(a) is Some,
        a != "--log-requests"@ && a != "--no-jev-aliases"@ && a != "--help"@ && a != "-h"@ && a
            != "--config"@,
        read(flag_field(a)->0, v) is Ok,
        read(flag_field(a)->0, w) is Ok,
    ensures
        ({
            let f = flag_field(a)->0;
            let (x, y) = (read(f, v)->Ok_0, read(f, w)->Ok_0);
            &&& flags_from(seq![a, v], 0, s, None) == Ok::<_, Seq<char>>(
                (s.insert(f, x), None::<Seq<char>>),
            )
            &&& flags_from(seq![a, v, a, w], 0, s, None) == Ok::<_, Seq<char>>(
                (s.insert(f, y), None::<Seq<char>>),
            )
            &&& flags_from(seq![a], 0, s, None) is Err
        }),
{
    let f = flag_field(a)->0;
    let (x, y) = (read(f, v)->Ok_0, read(f, w)->Ok_0);
    reveal_with_fuel(flags_from, 3);
    assert(s.insert(f, x).insert(f, y) =~= s.insert(f, y));
}

/// The place of every setting.
pub open spec fn place_of(f: Field) -> int {
    match f {
        Field::Host => 0,
        Field::Port => 1,
        Field::Models => 2,
        Field::Device => 3,
        Field::Threads => 4,
        Field::Precision => 5,
        Field::MaxBatch => 6,
        Field::MaxBatchTokens => 7,
        Field::MaxBody => 8,
        Field::MaxRequestTokens => 9,
        Field::MaxQueueMs => 10,
        Field::MaxPending => 11,
        Field::AnswerCache => 12,
        Field::IoThreads => 13,
        Field::JevAliases => 14,
        Field::ApiKeysFile => 15,
        Field::Rpm => 16,
        Field::Tps => 17,
        Field::LogLevel => 18,
        Field::LogRequests => 19,
        Field::LogFormat => 20,
        Field::OtlpEndpoint => 21,
        Field::OtlpService => 22,
    }
}

/// Every setting whose variable is set is given the value that the variable reads as, and no other
/// setting is given one. One variable that does not read is enough for an error.
pub proof fn a_variable_gives_its_setting(env: Seq<(Seq<char>, Seq<char>)>, f: Field)
    ensures
        env_settings(env, COUNT as int) matches Ok(s) ==> (match env_value(env, f) {
            Some(v) => s.contains_key(f) && read(f, v) == Ok::<_, Seq<char>>(s[f]),
            None => !s.contains_key(f),
        }),
        env_value(env, f) matches Some(v) ==> (read(f, v) is Err ==> env_settings(
            env,
            COUNT as int,
        ) is Err),
{
    given_so_far(env, COUNT as int, f);
    let n = place_of(f) + 1;
    if let Some(v) = env_value(env, f) {
        if read(f, v) is Err {
            assert(nth((n - 1) as usize) == f);
            assert(env_settings(env, n) is Err);
            env_error_stays(env, n, COUNT as int);
        }
    }
}

/// What the variables of the first settings give.
proof fn given_so_far(env: Seq<(Seq<char>, Seq<char>)>, n: int, f: Field)
    requires
        0 <= n <= COUNT,
    ensures
        env_settings(env, n) matches Ok(s) ==> (match env_value(env, f) {
            Some(v) => if place_of(f) < n {
                s.contains_key(f) && read(f, v) == Ok::<_, Seq<char>>(s[f])
            } else {
                !s.contains_key(f)
            },
            None => !s.contains_key(f),
        }),
    decreases n,
{
    if n > 0 {
        given_so_far(env, n - 1, f);
        assert(place_of(nth((n - 1) as usize)) == n - 1);
        assert(nth(place_of(f) as usize) == f);
    }
}

/// A yes or no reads the same in any case and with blanks around it.
pub proof fn a_yes_or_no_reads_in_any_case(a: Seq<char>, s: Seq<char>, b: Seq<char>)
    requires
        full_of(a, Class::White),
        full_of(b, Class::White),
        s.len() > 0 && !white(s[0]) && !white(s.last()),
    ensures
        yes_or_no(a + s + b) == yes_or_no(s),
        yes_or_no(ascii_lower(s)) == yes_or_no(s),
{
    let none = Seq::<char>::empty();
    trim_core(a, s, b, Class::White);
    trim_core(none, s, none, Class::White);
    assert(none + s + none =~= s);
    let t = ascii_lower(s);
    lower_stays(s[0]);
    lower_stays(s[s.len() - 1]);
    assert(t[0] == lower_char(s[0]) && t.last() == lower_char(s[s.len() - 1]));
    trim_core(none, t, none, Class::White);
    assert(none + t + none =~= t);
    lower_twice(s);
}

/// What is in lower case stays so.
proof fn lower_twice(s: Seq<char>)
    ensures
        ascii_lower(ascii_lower(s)) == ascii_lower(s),
{
    assert forall|i: int| 0 <= i < s.len() implies lower_char(#[trigger] lower_char(s[i]))
        == lower_char(s[i]) by {
        lower_stays(s[i]);
    }
    assert(ascii_lower(ascii_lower(s)) =~= ascii_lower(s));
}

/// A character in lower case stays so, and is no blank unless it was one.
proof fn lower_stays(c: char)
    ensures
        lower_char(lower_char(c)) == lower_char(c),
        white(lower_char(c)) ==> white(c),
{
}

/// laya-serve's names for a checkpoint are read in any case, and what each stands for is a model
/// that the hub knows by that name.
pub proof fn checkpoint_names_are_models(name: Seq<char>)
    ensures
        laya_name(ascii_lower(name)) == laya_name(name),
        laya_name(name) matches Some(m) ==> alias(m) is Some && laya_name(m) == Some(m),
        laya_name("multilingual"@) == Some("laya-multilingual"@),
        laya_name("typed-decisions"@) == Some("laya-typed-decisions"@),
        laya_name("english"@) == Some("laya"@),
{
    lower_twice(name);
    reveal_strlit("english");
    reveal_strlit("en");
    reveal_strlit("laya");
    reveal_strlit("default");
    reveal_strlit("multilingual");
    reveal_strlit("multi");
    reveal_strlit("ml");
    reveal_strlit("laya-multilingual");
    reveal_strlit("typed-decisions");
    reveal_strlit("laya-typed-decisions");
    assert(ascii_lower("laya"@) =~= "laya"@);
    assert(ascii_lower("laya-multilingual"@) =~= "laya-multilingual"@);
    assert(ascii_lower("laya-typed-decisions"@) =~= "laya-typed-decisions"@);
    assert(ascii_lower("english"@) =~= "english"@);
    assert(ascii_lower("multilingual"@) =~= "multilingual"@);
    assert(ascii_lower("typed-decisions"@) =~= "typed-decisions"@);
    assert("laya-multilingual"@.len() == 17 && "laya-typed-decisions"@.len() == 20);
    assert("multilingual"@[0] == 'm' && "typed-decisions"@[0] == 't');
    assert("english"@[0] == 'e' && "laya"@[0] == 'l' && "default"@[0] == 'd');
    assert("multilingual"@.len() == 12 && "typed-decisions"@.len() == 15);
}

/// The defaults can be served: models that the hub knows, at least one, and only under laya-serve's
/// name an address that others can reach. A log level that keeps the server quiet is a log level.
pub proof fn the_defaults_can_be_served(laya: bool, i: int, level: Seq<char>)
    ensures
        ({
            let d = default_settings(laya);
            &&& d.contains_key(Field::Host) && d[Field::Host] == Setting::Text(
                if laya {
                    "0.0.0.0"@
                } else {
                    "127.0.0.1"@
                },
            )
            &&& d.contains_key(Field::Port) && d[Field::Port] == Setting::Num(8000)
            &&& d.contains_key(Field::Models) && (d[Field::Models] matches Setting::List(l)
                && l.len() > 0 && l[0] == "laya"@ && (0 <= i < l.len() ==> alias(l[i]) is Some)
                && (l.len() > 1 <==> laya))
        }),
        is_quiet(level) ==> is_level(level) && level != "info"@,
{
    reveal_strlit("critical");
    reveal_strlit("error");
    reveal_strlit("warning");
    reveal_strlit("info");
    assert("critical"@.len() == 8 && "error"@.len() == 5 && "warning"@.len() == 7 && "info"@.len()
        == 4);
}

} // verus!
