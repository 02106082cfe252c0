use kime::hub::{cache_dir, files, join_path, resolve, HubRef};

#[test]
fn names() {
    let r = HubRef::parse("laya-multilingual").unwrap();
    assert_eq!((r.repo.as_str(), r.subfolder.as_str()), ("convaiinnovations/laya", "multilingual"));
    let r = HubRef::parse("hf://org/repo/a/b/").unwrap();
    assert_eq!((r.repo.as_str(), r.subfolder.as_str()), ("org/repo", "a/b"));
    assert_eq!(HubRef::parse("hf://org"), None);
    assert_eq!(HubRef::parse("kime-v1-s-en"), None);
    assert_eq!(r.repo_dir("/c"), "/c/models--org--repo");
}

#[test]
fn the_cache_goes_by_its_variables() {
    assert_eq!(cache_dir(Some("/a"), Some("/b"), None, None), "/a");
    assert_eq!(cache_dir(Some(""), Some("/b"), None, None), "/b/hub");
    assert_eq!(cache_dir(None, None, Some("/h"), Some("/p")), "/h/.cache/huggingface/hub");
    assert_eq!(cache_dir(None, None, None, Some("/p")), "/p/.cache/huggingface/hub");
    assert_eq!(cache_dir(None, None, None, None), "./.cache/huggingface/hub");
    assert_eq!(join_path("/a/", "b"), "/a/b");
    assert_eq!(join_path("/a", "/b"), "/b");
    assert_eq!(files()[4], "model.safetensors");
}

#[test]
fn models_resolve_or_say_why_not() {
    assert_eq!(resolve("./x", true, None, "/c"), Ok("./x".to_string()));
    assert_eq!(resolve("laya", false, Some("/c/s"), "/c"), Ok("/c/s".to_string()));
    assert_eq!(
        resolve("laya", false, None, "/c"),
        Err("laya is not in /c, run kime pull laya first".to_string())
    );
    let e = resolve("a\"b", false, None, "/c").unwrap_err();
    assert!(e.starts_with("no model \"a\\\"b\": not a path"), "{e}");
    let r = HubRef::parse("laya-multilingual").unwrap();
    assert_eq!(r.main_ref("/c"), "/c/models--convaiinnovations--laya/refs/main");
    assert_eq!(
        r.snapshot("/c", "abc\n"),
        "/c/models--convaiinnovations--laya/snapshots/abc/multilingual"
    );
}
