use kime::args::{add_threads, device, list, parse_number, precision};
use kime::command::{arrives, command, doctor, help, planned, unknown, Command};
use kime::convert::{act, ask, check_target, partial, Act, Ask};
use kime::engine::{Device, Precision};
use kime::hub::HubRef;
use kime::pull::{
    check_blob, commit, commit_in, commit_of, curl_config, endpoint, etag, file_path, file_url,
    header, info_error, incomplete, info_url, is_hash, link_target, names_commit, places, sha256,
    short, to_hex, todo, wanted, Todo,
};

fn strings(a: &[&str]) -> Vec<String> {
    a.iter().map(|s| (*s).to_string()).collect()
}

#[test]
fn commands_are_found() {
    assert_eq!(command(None), Command::Help);
    assert_eq!(command(Some("-V")), Command::Version);
    assert_eq!(command(Some("pull")), Command::Pull);
    assert_eq!(command(Some("bench")), Command::Planned(3));
    assert_eq!(command(Some("dance")), Command::Unknown);
    assert_eq!(unknown("dance"), "kime: unknown command \"dance\", try kime --help");
    let (name, _, m) = planned()[3];
    assert_eq!(
        arrives(name, m),
        "kime bench arrives at M0, see https://github.com/tamnd/kime/milestones"
    );
}

#[test]
fn help_lists_every_command() {
    let h = help("1.2.3");
    assert!(h.starts_with("kime 1.2.3: typed decisions over text\n\nusage: kime <command> [options]\n\n"));
    assert!(h.contains("\n  doctor     print what this machine offers kime\n"));
    assert!(h.ends_with("  models     list cached and served models (arrives at M1)\n"));
    assert_eq!(h.lines().count(), 15);
}

#[test]
fn doctor_reports_the_machine() {
    assert_eq!(
        doctor("1", "linux", "x86_64", 8, &strings(&["avx2", "fma"])),
        "kime 1\nos        linux\narch      x86_64\nthreads   8\ncpu       avx2 fma\n"
    );
    assert!(doctor("1", "l", "a", 1, &Vec::new()).ends_with("cpu       baseline\n"));
}

#[test]
fn convert_has_three_forms() {
    assert_eq!(ask(&strings(&["--check", "a"])), Some(Ask::Check("a".to_string())));
    assert_eq!(
        ask(&strings(&["a", "--force", "b"])),
        Some(Ask::Convert("a".to_string(), "b".to_string(), true))
    );
    assert_eq!(ask(&strings(&["a"])), None);
    assert_eq!(ask(&strings(&["--check", "a", "b"])), None);
    assert_eq!(
        check_target("b", true, false),
        Err("b exists, pass --force to replace it".to_string())
    );
    assert_eq!(check_target("b", true, true), Ok(()));
    assert_eq!((act(true, true), act(true, false), act(false, true)), (Act::Replace, Act::Unpack, Act::Pack));
    assert_eq!(partial("m.kime"), "m.kime.partial");
}

#[test]
fn pull_reads_a_name_and_a_revision() {
    let w = wanted(&strings(&["org/repo/sub", "--revision", "dev"])).unwrap();
    assert_eq!(
        (w.name.as_str(), w.revision.as_str(), w.hub.repo.as_str(), w.hub.subfolder.as_str()),
        ("org/repo/sub", "dev", "org/repo", "sub")
    );
    let w = wanted(&strings(&["laya"])).unwrap();
    assert_eq!((w.revision.as_str(), w.hub.repo.as_str()), ("main", "convaiinnovations/laya"));
    assert_eq!(wanted(&strings(&["laya", "--revision"])).unwrap_err(), "--revision needs a value");
    assert!(wanted(&strings(&["--x"])).unwrap_err().starts_with("usage: kime pull"));
    assert!(wanted(&strings(&["a", "b"])).unwrap_err().starts_with("usage: kime pull"));
    assert!(wanted(&Vec::new()).is_err());
    assert!(wanted(&strings(&["single"])).unwrap_err().starts_with("\"single\" is not an alias or org/repo\nusage:"));
}

#[test]
fn addresses_of_the_hub() {
    assert_eq!(endpoint(None), "https://huggingface.co");
    assert_eq!(endpoint(Some("http://m//")), "http://m");
    assert_eq!(endpoint(Some("")), "https://huggingface.co");
    assert_eq!(info_url("e", "o/r", "main"), "e/api/models/o/r/revision/main");
    assert_eq!(file_path("", "a"), "a");
    assert_eq!(file_path("s", "a/b"), "s/a/b");
    assert_eq!(file_url("e", "o/r", "c", "p"), "e/o/r/resolve/c/p");
    assert_eq!(
        info_error("x: error: 404", "o/r", "v"),
        "o/r at v is not on the hub, or is private and HF_TOKEN is not set"
    );
    assert_eq!(info_error("error: 500", "o/r", "v"), "error: 500");
    let c = "0123456789abcdefABCD0123456789abcdefABCD";
    assert!(names_commit(c));
    assert_eq!(commit(Some(c), "o/r", "v"), Ok(c.to_string()));
    assert_eq!(commit(Some("g"), "o/r", "v"), Err("o/r: no commit for revision v".to_string()));
    assert!(commit(None, "o/r", "v").is_err());
    let answer = |text: &str| commit_in(&text.as_bytes().to_vec(), "o/r", "v");
    assert_eq!(answer(&format!("{{\"id\": 1, \"sha\": \"{c}\"}}")), Ok(c.to_string()));
    for none in ["{\"sha\": 5}", "{\"sha\": \"abc\"}", "{}", "[1]", "null"] {
        assert_eq!(answer(none), Err("o/r: no commit for revision v".to_string()), "{none}");
    }
    let e = answer("<html>").unwrap_err();
    assert!(e.starts_with("o/r: the hub answered with something that is not JSON: expected value"), "{e}");
}

#[test]
fn downloads_have_their_places() {
    let c = "0123456789abcdef0123456789abcdef01234567";
    let p = places("/c/models--o--r", c, "sub", "main");
    assert_eq!(p.blobs, "/c/models--o--r/blobs");
    assert_eq!(p.snapshot, format!("/c/models--o--r/snapshots/{c}"));
    assert_eq!(p.checkpoint, format!("/c/models--o--r/snapshots/{c}/sub"));
    assert_eq!(p.reference.as_deref(), Some("/c/models--o--r/refs/main"));
    let p = places("/c/r", c, "", c);
    assert_eq!((p.checkpoint, p.reference), (p.snapshot, None));
    assert_eq!((todo(true, true), todo(false, true), todo(false, false)), (Todo::Nothing, Todo::Link, Todo::Fetch));
    assert_eq!(incomplete("b/abc"), "b/abc.incomplete");
    assert_eq!(short(c), "0123456789ab");
}

#[test]
fn curl_is_told_on_its_input() {
    assert_eq!(curl_config("a\"b\\c", None), "url = \"a\\\"b\\\\c\"\n");
    assert_eq!(
        curl_config("u", Some(" SECRET-REDACTED\n")),
        "url = \"u\"\nheader = \"Authorization: Bearer SECRET-REDACTED\"\n"
    );
    assert_eq!(curl_config("u", Some("")), "url = \"u\"\n");
}

#[test]
fn blobs_are_named_by_their_tag() {
    let head = "HTTP/2 302\r\nETag: W/\"abc-1\"\r\nX-Linked-ETag: \"ff00\"\r\n\r\n";
    assert_eq!(etag("u", head), Ok("ff00".to_string()));
    assert_eq!(header(head, "etag").as_deref(), Some("abc-1"));
    assert_eq!(etag("u", "etag: \"../x\"\r\n").unwrap_err(), "u: unexpected ETag \"../x\"");
    assert_eq!(etag("u", "date: x\r\n").unwrap_err(), "u: no ETag");
    assert_eq!(link_target("model.safetensors", "b"), "../../blobs/b");
    assert_eq!(link_target("s/tokenizer/t.json", "b"), "../../../../blobs/b");
}

#[test]
fn hashes_are_checked() {
    let abc = "ba7816bf8f01cfea414140de5dae2223b00361a396177a9cb410ff61f20015ad";
    let bytes = b"abc".to_vec();
    assert_eq!(sha256(&bytes), abc);
    assert!(is_hash(abc));
    assert_eq!(check_blob("p", abc, &bytes), Ok(()));
    assert_eq!(check_blob("p", "short", &bytes), Ok(()));
    let bad = "0".repeat(64);
    assert_eq!(
        check_blob("p", &bad, &bytes),
        Err(format!("p: SHA-256 is {abc}, the hub says {bad}"))
    );
}

#[test]
fn values_of_options() {
    assert_eq!(device("cuda:3"), Ok(Device::Cuda(3)));
    assert_eq!(device("cuda:x"), Err("unknown device \"cuda:x\"".to_string()));
    assert_eq!(precision("fp32"), Ok(Precision::F32));
    assert_eq!(add_threads(Device::Auto, Some(2)), Some(Device::Cpu { threads: 2 }));
    assert_eq!(add_threads(Device::Cuda(0), Some(2)), None);
    assert_eq!(list(" a, ,b "), strings(&["a", "b"]));
    assert_eq!(parse_number("70000", 65535), Err("number too large to fit in target type"));
    assert_eq!(parse_number("", 9), Err("cannot parse integer from empty string"));
    assert_eq!(parse_number("+7", 9), Ok(7));
}

#[test]
fn a_commit_is_taken_from_what_was_read() {
    let c = "0123456789abcdef0123456789ABCDEF01234567".to_string();
    assert_eq!(commit_of(Ok(Some(c.clone())), "o/r", "v"), Ok(c));
    assert_eq!(
        commit_of(Ok(Some("abc".to_string())), "o/r", "v"),
        Err("o/r: no commit for revision v".to_string())
    );
    assert_eq!(commit_of(Ok(None), "o/r", "v"), Err("o/r: no commit for revision v".to_string()));
    assert_eq!(
        commit_of(Err("eof".to_string()), "o/r", "v"),
        Err("o/r: the hub answered with something that is not JSON: eof".to_string())
    );
    assert_eq!(to_hex(&vec![0, 15, 255]), "000fff");
}

#[test]
fn a_download_is_found_by_its_name() {
    let c = "0123456789abcdef0123456789abcdef01234567";
    for (name, sub) in [("hf://o/r", ""), ("hf://o/r/s/t", "s/t")] {
        let r = HubRef::parse(name).unwrap();
        let at = places("/c/models--o--r", c, sub, "main");
        assert_eq!(at.reference, Some(r.main_ref("/c")));
        let looked = r.snapshot("/c", c);
        assert_eq!(std::path::Path::new(&looked), std::path::Path::new(&at.checkpoint));
    }
}
