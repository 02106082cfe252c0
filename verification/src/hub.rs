//! Finding a model by name, in the Hugging Face cache layout.
//!
//! A name is a local path, `hf://org/repo` with an optional subfolder after it, or one of a few
//! aliases. Nothing here touches the disk or the network.

use crate::text::{
    before, chars_of, has_at, join2, join3, join5, piece, replace, replaced, replaced_absent, same,
    text_before, text_of, trim, trim_core, trimmed, Class,
};
use vstd::prelude::*;

verus! {

/// `str`'s `Debug` form.
pub uninterp spec fn debug_text(s: Seq<char>) -> Seq<char>;

/// `str`'s `Debug` form, a function of the text alone: in double quotes, with escapes.
#[verifier::external_body]
pub(crate) fn debug_string(s: &str) -> (r: String)
    ensures
        r@ == debug_text(s@),
{
    format!("{s:?}")
}

/// The files a compat checkpoint needs, relative to its folder in the repo.
pub fn files() -> (r: [&'static str; 5])
    ensures
        r@.len() == 5,
        r@[0]@ == "rl_agent_config.json"@,
        r@[1]@ == "encoder/config.json"@,
        r@[2]@ == "tokenizer/tokenizer.json"@,
        r@[3]@ == "tokenizer/tokenizer_config.json"@,
        r@[4]@ == "model.safetensors"@,
{
    [
        "rl_agent_config.json",
        "encoder/config.json",
        "tokenizer/tokenizer.json",
        "tokenizer/tokenizer_config.json",
        "model.safetensors",
    ]
}

/// Where a name points on the hub.
#[derive(Debug, Clone, PartialEq, Eq)]
pub struct HubRef {
    /// `org/repo`.
    pub repo: String,
    /// The folder inside the repo, empty for the root.
    pub subfolder: String,
}

/// The subfolder of the published repo that an alias names.
pub open spec fn alias(name: Seq<char>) -> Option<Seq<char>> {
    if name == "laya"@ {
        Some(""@)
    } else if name == "laya-multilingual"@ {
        Some("multilingual"@)
    } else if name == "laya-typed-decisions"@ {
        Some("typed-decisions"@)
    } else {
        None
    }
}

/// The repo and the subfolder of `org/repo[/subfolder]`.
pub open spec fn reference(rest: Seq<char>) -> Option<(Seq<char>, Seq<char>)> {
    let org = before(rest, "/"@);
    let more = rest.skip(org.len() as int + 1);
    let repo = before(more, "/"@);
    if org.len() >= rest.len() || org.len() == 0 || repo.len() == 0 {
        None
    } else if repo.len() >= more.len() {
        Some((org + "/"@ + repo, seq![]))
    } else {
        Some((org + "/"@ + repo, trimmed(more.skip(repo.len() as int + 1), Class::One('/'))))
    }
}

/// The repo and the subfolder that a name points at: of an alias, or of an
/// `hf://org/repo[/subfolder]` reference.
pub open spec fn points_at(name: Seq<char>) -> Option<(Seq<char>, Seq<char>)> {
    match alias(name) {
        Some(sub) => Some(("convaiinnovations/laya"@, sub)),
        None => if has_at(name, "hf://"@, 0) {
            reference(name.skip(5))
        } else {
            None
        },
    }
}

/// What stands before something is no longer than the text.
proof fn before_bound(s: Seq<char>, p: Seq<char>)
    ensures
        before(s, p).len() <= s.len(),
    decreases s.len(),
{
    if s.len() > 0 && !has_at(s, p, 0) {
        before_bound(s.drop_first(), p);
    }
}

/// A path with another behind it. An absolute one replaces it.
pub open spec fn path_join(a: Seq<char>, b: Seq<char>) -> Seq<char> {
    if b.len() > 0 && b[0] == '/' {
        b
    } else if a.len() == 0 || a.last() == '/' {
        a + b
    } else {
        a + "/"@ + b
    }
}

/// A path with another behind it.
pub fn join_path(a: &str, b: &str) -> (r: String)
    ensures
        r@ == path_join(a@, b@),
{
    let av = chars_of(a);
    let bv = chars_of(b);
    if bv.len() > 0 && bv[0] == '/' {
        b.to_owned()
    } else if av.len() == 0 || av[av.len() - 1] == '/' {
        join2(a, b)
    } else {
        join3(a, "/", b)
    }
}

/// The folder of a repo in a cache.
pub open spec fn repo_folder(repo: Seq<char>, cache: Seq<char>) -> Seq<char> {
    path_join(cache, "models--"@ + replaced(repo, "/"@, "--"@))
}

impl HubRef {
    /// Reads an alias or an `hf://org/repo[/subfolder]` reference.
    pub fn parse(name: &str) -> (r: Option<HubRef>)
        ensures
            match r {
                Some(h) => points_at(name@) == Some((h.repo@, h.subfolder@)),
                None => points_at(name@) is None,
            },
    {
        let known = if same(name, "laya") {
            Some("")
        } else if same(name, "laya-multilingual") {
            Some("multilingual")
        } else if same(name, "laya-typed-decisions") {
            Some("typed-decisions")
        } else {
            None
        };
        if let Some(sub) = known {
            return Some(
                HubRef { repo: "convaiinnovations/laya".to_owned(), subfolder: sub.to_owned() },
            );
        }
        let cs = chars_of(name);
        let prefix = chars_of("hf://");
        let slash = chars_of("/");
        proof {
            reveal_strlit("hf://");
            reveal_strlit("/");
        }
        if !crate::text::stands_at(&cs, &prefix, 0) {
            return None;
        }
        let rest = piece(&cs, 5, cs.len());
        assert(rest@ =~= name@.skip(5));
        let org = text_before(&rest, &slash);
        proof {
            before_bound(rest@, slash@);
        }
        if org.len() >= rest.len() || org.len() == 0 {
            return None;
        }
        let more = piece(&rest, org.len() + 1, rest.len());
        assert(more@ =~= rest@.skip(org@.len() as int + 1));
        let repo = text_before(&more, &slash);
        proof {
            before_bound(more@, slash@);
        }
        if repo.len() == 0 {
            return None;
        }
        let full = join3(text_of(&org).as_str(), "/", text_of(&repo).as_str());
        if repo.len() >= more.len() {
            let none = String::new();
            assert(none@ =~= seq![]);
            return Some(HubRef { repo: full, subfolder: none });
        }
        let tail = piece(&more, repo.len() + 1, more.len());
        assert(tail@ =~= more@.skip(repo@.len() as int + 1));
        Some(HubRef { repo: full, subfolder: text_of(&trim(&tail, Class::One('/'))) })
    }

    /// The repo's folder in the cache.
    pub fn repo_dir(&self, cache: &str) -> (r: String)
        ensures
            r@ == repo_folder(self.repo@, cache@),
    {
        let folder = join2("models--", replace(self.repo.as_str(), "/", "--").as_str());
        join_path(cache, folder.as_str())
    }

    /// The file that names the repo's current snapshot.
    pub fn main_ref(&self, cache: &str) -> (r: String)
        ensures
            r@ == path_join(repo_folder(self.repo@, cache@), "refs/main"@),
    {
        join_path(self.repo_dir(cache).as_str(), "refs/main")
    }

    /// The checkpoint folder of the snapshot that `rev`, the content of [`HubRef::main_ref`],
    /// names.
    pub fn snapshot(&self, cache: &str, rev: &str) -> (r: String)
        ensures
            r@ == path_join(
                path_join(
                    path_join(repo_folder(self.repo@, cache@), "snapshots"@),
                    trimmed(rev@, Class::White),
                ),
                self.subfolder@,
            ),
    {
        let a = join_path(self.repo_dir(cache).as_str(), "snapshots");
        let rev = text_of(&trim(&chars_of(rev), Class::White));
        let b = join_path(a.as_str(), rev.as_str());
        join_path(b.as_str(), self.subfolder.as_str())
    }
}

/// A variable that is set and not empty.
pub open spec fn set(v: Option<Seq<char>>) -> bool {
    v matches Some(s) && s.len() > 0
}

/// The value of a variable that may be set.
pub open spec fn shown(v: Option<&str>) -> Option<Seq<char>> {
    match v {
        Some(s) => Some(s@),
        None => None,
    }
}

/// The hub cache: `$HF_HUB_CACHE`, else `$HF_HOME/hub`, else `~/.cache/huggingface/hub` under
/// `$HOME` or `$USERPROFILE`, or here when neither is set. An empty variable is not set.
pub open spec fn cache_of(
    hub_cache: Option<Seq<char>>,
    hf_home: Option<Seq<char>>,
    home: Option<Seq<char>>,
    profile: Option<Seq<char>>,
) -> Seq<char> {
    if set(hub_cache) {
        hub_cache->0
    } else if set(hf_home) {
        path_join(hf_home->0, "hub"@)
    } else {
        path_join(
            if set(home) {
                home->0
            } else if set(profile) {
                profile->0
            } else {
                "."@
            },
            ".cache/huggingface/hub"@,
        )
    }
}

/// A variable that is set and not empty.
fn is_set(v: Option<&str>) -> (r: bool)
    ensures
        r == set(shown(v)),
{
    match v {
        Some(s) => !s.is_empty(),
        None => false,
    }
}

/// The hub cache, from the variables it goes by.
pub fn cache_dir(
    hub_cache: Option<&str>,
    hf_home: Option<&str>,
    home: Option<&str>,
    profile: Option<&str>,
) -> (r: String)
    ensures
        r@ == cache_of(shown(hub_cache), shown(hf_home), shown(home), shown(profile)),
{
    if is_set(hub_cache) {
        if let Some(d) = hub_cache {
            return d.to_owned();
        }
    }
    if is_set(hf_home) {
        if let Some(d) = hf_home {
            return join_path(d, "hub");
        }
    }
    let base: &str = match (is_set(home), home, is_set(profile), profile) {
        (true, Some(h), _, _) => h,
        (false, _, true, Some(p)) => p,
        _ => ".",
    };
    join_path(base, ".cache/huggingface/hub")
}

/// The message for a name that is no path, reference or alias.
pub open spec fn unknown_text(name: Seq<char>) -> Seq<char> {
    "no model "@ + debug_text(name)
        + ": not a path, an hf:// reference or one of laya, laya-multilingual, laya-typed-decisions"@
}

/// The message for a model that is not in the cache.
pub open spec fn missing_text(name: Seq<char>, cache: Seq<char>) -> Seq<char> {
    name + " is not in "@ + cache + ", run kime pull "@ + name + " first"@
}

/// What a model name refers to: the path itself when it exists, else its checkpoint folder in the
/// cache when there is one. Otherwise the message says what was looked for and how to fetch it.
pub open spec fn resolved(
    name: Seq<char>,
    exists_here: bool,
    local: Option<Seq<char>>,
    cache: Seq<char>,
) -> Result<Seq<char>, Seq<char>> {
    if exists_here {
        Ok(name)
    } else if points_at(name) is None {
        Err(unknown_text(name))
    } else {
        match local {
            Some(dir) => Ok(dir),
            None => Err(missing_text(name, cache)),
        }
    }
}

/// The path a model name refers to, given whether the name is a path that exists, the checkpoint
/// folder that was found for it in the cache, and the cache.
pub fn resolve(name: &str, exists_here: bool, local: Option<&str>, cache: &str) -> (r: Result<
    String,
    String,
>)
    ensures
        match (r, resolved(name@, exists_here, shown(local), cache@)) {
            (Ok(p), Ok(w)) => p@ == w,
            (Err(e), Err(w)) => e@ == w,
            _ => false,
        },
{
    if exists_here {
        return Ok(name.to_owned());
    }
    if HubRef::parse(name).is_none() {
        return Err(
            join3(
                "no model ",
                debug_string(name).as_str(),
                ": not a path, an hf:// reference or one of laya, laya-multilingual, laya-typed-decisions",
            ),
        );
    }
    match local {
        Some(dir) => Ok(dir.to_owned()),
        None => {
            let mut e = join5(name, " is not in ", cache, ", run kime pull ", name);
            e.append(" first");
            Err(e)
        },
    }
}

/// What stands before the first `c` of a text is what `c` follows, and all of a text without one.
pub proof fn before_first(a: Seq<char>, c: char, rest: Seq<char>)
    requires
        !a.contains(c),
    ensures
        before(a + seq![c] + rest, seq![c]) == a,
        before(a, seq![c]) == a,
    decreases a.len(),
{
    let s = a + seq![c] + rest;
    let p = seq![c];
    if a.len() == 0 {
        assert(s.subrange(0, 1) =~= p);
        assert(has_at(s, p, 0));
        assert(before(s, p) =~= a);
        assert(before(a, p) =~= a);
    } else {
        assert(a.contains(a[0]));
        assert(s[0] == a[0]);
        if has_at(s, p, 0) {
            assert(s.subrange(0, 1)[0] == a[0]);
        }
        if has_at(a, p, 0) {
            assert(a.subrange(0, 1)[0] == a[0]);
        }
        let b = a.drop_first();
        assert forall|x: char| b.contains(x) implies a.contains(x) by {
            let i = choose|i: int| 0 <= i < b.len() && b[i] == x;
            assert(a[i + 1] == x);
        }
        assert(!b.contains(c));
        before_first(b, c, rest);
        assert(s.drop_first() =~= b + seq![c] + rest);
        assert(before(s, p) =~= a);
        assert(before(a, p) =~= a);
    }
}

/// A reference names what it spells: the organisation, the repo and the folder in it, with or
/// without a slash at the end.
pub proof fn a_reference_is_read(org: Seq<char>, repo: Seq<char>, sub: Seq<char>)
    requires
        org.len() > 0 && !org.contains('/'),
        repo.len() > 0 && !repo.contains('/'),
        sub.len() > 0 && sub[0] != '/' && sub.last() != '/',
    ensures
        points_at("hf://"@ + (org + "/"@ + repo)) == Some(
            (org + "/"@ + repo, Seq::<char>::empty()),
        ),
        points_at("hf://"@ + (org + "/"@ + (repo + "/"@ + sub))) == Some((org + "/"@ + repo, sub)),
        points_at("hf://"@ + (org + "/"@ + (repo + "/"@ + (sub + "/"@)))) == Some(
            (org + "/"@ + repo, sub),
        ),
{
    let none = Seq::<char>::empty();
    bare_read(org, repo);
    spelled(org + "/"@ + repo);
    deep_read(org, repo, sub);
    spelled(org + "/"@ + (repo + "/"@ + sub));
    deep_read(org, repo, sub + "/"@);
    spelled(org + "/"@ + (repo + "/"@ + (sub + "/"@)));
    assert(trimmed(sub, Class::One('/')) == sub) by {
        trim_core(none, sub, none, Class::One('/'));
        assert(none + sub + none =~= sub);
    }
    assert(trimmed(sub + "/"@, Class::One('/')) == sub) by {
        reveal_strlit("/");
        trim_core(none, sub, "/"@, Class::One('/'));
        assert(none + sub + "/"@ =~= sub + "/"@);
    }
}

/// A reference without a folder.
proof fn bare_read(org: Seq<char>, repo: Seq<char>)
    requires
        org.len() > 0 && !org.contains('/'),
        repo.len() > 0 && !repo.contains('/'),
    ensures
        reference(org + "/"@ + repo) == Some((org + "/"@ + repo, Seq::<char>::empty())),
{
    reveal_strlit("/");
    assert("/"@ =~= seq!['/']);
    let all = org + "/"@ + repo;
    before_first(org, '/', repo);
    before_first(repo, '/', seq![]);
    assert(all.skip(org.len() as int + 1) =~= repo);
}

/// A reference with a folder.
proof fn deep_read(org: Seq<char>, repo: Seq<char>, tail: Seq<char>)
    requires
        org.len() > 0 && !org.contains('/'),
        repo.len() > 0 && !repo.contains('/'),
    ensures
        reference(org + "/"@ + (repo + "/"@ + tail)) == Some(
            (org + "/"@ + repo, trimmed(tail, Class::One('/'))),
        ),
{
    reveal_strlit("/");
    assert("/"@ =~= seq!['/']);
    let deep = repo + "/"@ + tail;
    let all = org + "/"@ + deep;
    before_first(org, '/', deep);
    before_first(repo, '/', tail);
    assert(all.skip(org.len() as int + 1) =~= deep);
    assert(deep.skip(repo.len() as int + 1) =~= tail);
}

/// No reference is an alias.
proof fn spelled(rest: Seq<char>)
    ensures
        points_at("hf://"@ + rest) == reference(rest),
{
    reveal_strlit("hf://");
    reveal_strlit("laya");
    reveal_strlit("laya-multilingual");
    reveal_strlit("laya-typed-decisions");
    let name = "hf://"@ + rest;
    assert(name[0] == 'h');
    assert(name.subrange(0, 5) =~= "hf://"@);
    assert(name.skip(5) =~= rest);
}

/// A name that is neither an alias nor a reference points nowhere, and a reference without an
/// organisation or without a repo does not either.
pub proof fn other_names_point_nowhere(name: Seq<char>)
    requires
        name != "laya"@ && name != "laya-multilingual"@ && name != "laya-typed-decisions"@,
        !has_at(name, "hf://"@, 0) || !name.skip(5).contains('/') || name.skip(5)[0] == '/',
    ensures
        points_at(name) is None,
{
    reveal_strlit("hf://");
    reveal_strlit("/");
    assert("/"@ =~= seq!['/']);
    if has_at(name, "hf://"@, 0) {
        let rest = name.skip(5);
        if !rest.contains('/') {
            before_first(rest, '/', seq![]);
        } else {
            assert(rest.len() > 0);
            assert(rest.subrange(0, 1) =~= seq!['/']);
            assert(has_at(rest, "/"@, 0));
        }
    }
}

/// A repo has one folder under the cache, named after its two parts.
pub proof fn a_repo_has_its_folder(org: Seq<char>, repo: Seq<char>, cache: Seq<char>)
    requires
        !org.contains('/') && !repo.contains('/'),
        cache.len() > 0 && cache.last() != '/',
    ensures
        repo_folder(org + "/"@ + repo, cache) == cache + "/models--"@ + org + "--"@ + repo,
{
    reveal_strlit("/");
    reveal_strlit("--");
    reveal_strlit("models--");
    reveal_strlit("/models--");
    assert("/"@ =~= seq!['/']);
    slash_replaced(org, repo);
    assert("models--"@ + (org + "--"@ + repo) =~= "models--"@ + org + "--"@ + repo);
    assert(("models--"@ + (org + "--"@ + repo))[0] == 'm');
    assert("/"@ + "models--"@ =~= "/models--"@);
    assert(repo_folder(org + "/"@ + repo, cache) =~= cache + "/models--"@ + org + "--"@ + repo);
}

/// The one slash between two parts is replaced.
proof fn slash_replaced(org: Seq<char>, repo: Seq<char>)
    requires
        !org.contains('/') && !repo.contains('/'),
    ensures
        replaced(org + "/"@ + repo, "/"@, "--"@) == org + "--"@ + repo,
    decreases org.len(),
{
    reveal_strlit("/");
    reveal_strlit("--");
    assert("/"@ =~= seq!['/']);
    let s = org + "/"@ + repo;
    if org.len() == 0 {
        assert(s.subrange(0, 1) =~= "/"@);
        assert(has_at(s, "/"@, 0));
        assert(s.skip(1) =~= repo);
        assert forall|i: int| !#[trigger] has_at(repo, "/"@, i) by {
            if has_at(repo, "/"@, i) {
                assert(repo.subrange(i, i + 1)[0] == repo[i]);
                assert(repo.contains('/'));
            }
        }
        replaced_absent(repo, "/"@, "--"@);
        assert(org + "--"@ + repo =~= "--"@ + repo);
    } else {
        assert(org.contains(org[0]));
        assert(s[0] == org[0]);
        if has_at(s, "/"@, 0) {
            assert(s.subrange(0, 1)[0] == s[0]);
        }
        let b = org.drop_first();
        assert forall|x: char| b.contains(x) implies org.contains(x) by {
            let i = choose|i: int| 0 <= i < b.len() && b[i] == x;
            assert(org[i + 1] == x);
        }
        assert(!b.contains('/'));
        slash_replaced(b, repo);
        assert(s.drop_first() =~= b + "/"@ + repo);
        assert(replaced(s, "/"@, "--"@) =~= org + "--"@ + repo);
    }
}

/// The cache is where the first variable that is set says: the cache itself, the folder that holds
/// it, or the home folder. An empty variable counts as one that is not set.
pub proof fn the_first_variable_decides(
    a: Option<Seq<char>>,
    b: Option<Seq<char>>,
    c: Option<Seq<char>>,
    d: Option<Seq<char>>,
    x: Seq<char>,
)
    requires
        x.len() > 0 && x.last() != '/',
    ensures
        cache_of(Some(x), b, c, d) == x,
        cache_of(None, Some(x), c, d) == x + "/hub"@,
        cache_of(None, None, Some(x), d) == x + "/.cache/huggingface/hub"@,
        cache_of(None, None, None, Some(x)) == x + "/.cache/huggingface/hub"@,
        cache_of(None, None, None, None) == "./.cache/huggingface/hub"@,
        cache_of(Some(seq![]), b, c, d) == cache_of(None, b, c, d),
        cache_of(a, Some(seq![]), c, d) == cache_of(a, None, c, d),
        cache_of(a, b, Some(seq![]), d) == cache_of(a, b, None, d),
        cache_of(a, b, c, Some(seq![])) == cache_of(a, b, c, None),
{
    reveal_strlit("hub");
    reveal_strlit("/hub");
    reveal_strlit(".");
    reveal_strlit("/");
    reveal_strlit(".cache/huggingface/hub");
    reveal_strlit("/.cache/huggingface/hub");
    reveal_strlit("./.cache/huggingface/hub");
    assert(x + "/"@ + "hub"@ =~= x + "/hub"@);
    assert(x + "/"@ + ".cache/huggingface/hub"@ =~= x + "/.cache/huggingface/hub"@);
    assert("."@ + "/"@ + ".cache/huggingface/hub"@ =~= "./.cache/huggingface/hub"@);
    assert("."@.last() == '.');
}

} // verus!
