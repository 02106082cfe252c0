//! `kime pull`: what to download, from where, and where it goes in the Hugging Face cache.
//!
//! The cache is laid out the way `huggingface_hub` lays it out: `blobs/<etag>`,
//! `snapshots/<commit>/<path>` linking to the blob, and `refs/<branch>`. A file that the hub names
//! by its SHA-256 is checked against it before it is kept. The transfers themselves are the
//! caller's.

use crate::hub::{debug_string, debug_text, join_path, path_join, points_at, shown, HubRef};
use crate::pyjson::{hex as digit, hex_digit, hex_value};
use crate::text::{
    ascii_lower, before, chars_of, full_of, has_at, join2, join3, join5, join7, piece, replace, replaced,
    same, split, split_by, stands_at, text_before, text_of, texts, to_ascii_lower, trim, trim_core,
    trim_end, trim_right, trimmed, white, Class,
};
use vstd::prelude::*;

verus! {

/// How the command is called.
pub const USAGE: &'static str = "usage: kime pull <laya | laya-multilingual | org/repo[/subfolder] | hf://org/repo[/subfolder]> [--revision main]
The cache is $HF_HUB_CACHE, else $HF_HOME/hub, else ~/.cache/huggingface/hub. HF_TOKEN is sent when set, and HF_ENDPOINT replaces https://huggingface.co.";

/// What to download.
#[derive(Debug)]
pub struct Wanted {
    /// The name as it was given.
    pub name: String,
    /// The branch, tag or commit.
    pub revision: String,
    /// Where the name points.
    pub hub: HubRef,
}

/// The name and the revision that arguments give, from the `i`th on.
pub open spec fn named(
    args: Seq<Seq<char>>,
    i: int,
    name: Option<Seq<char>>,
    revision: Seq<char>,
) -> Result<(Seq<char>, Seq<char>), Seq<char>>
    decreases args.len() - i,
{
    if i >= args.len() {
        match name {
            Some(n) => Ok((n, revision)),
            None => Err(USAGE@),
        }
    } else if args[i] == "--revision"@ {
        if i + 1 >= args.len() {
            Err("--revision needs a value"@)
        } else {
            named(args, i + 2, name, args[i + 1])
        }
    } else if (args[i].len() > 0 && args[i][0] == '-') || name is Some {
        Err(USAGE@)
    } else {
        named(args, i + 1, Some(args[i]), revision)
    }
}

/// Where a name points: an alias, an `hf://` reference, or the `org/repo` of one.
pub open spec fn place_of(name: Seq<char>) -> Option<(Seq<char>, Seq<char>)> {
    match points_at(name) {
        Some(p) => Some(p),
        None => points_at("hf://"@ + name),
    }
}

/// What arguments ask for: the name, the revision, the repo and the subfolder.
pub open spec fn wanted_by(args: Seq<Seq<char>>) -> Result<
    (Seq<char>, Seq<char>, Seq<char>, Seq<char>),
    Seq<char>,
> {
    match named(args, 0, None, "main"@) {
        Err(e) => Err(e),
        Ok((name, revision)) => match place_of(name) {
            Some((repo, sub)) => Ok((name, revision, repo, sub)),
            None => Err(debug_text(name) + " is not an alias or org/repo\n"@ + USAGE@),
        },
    }
}

/// A text that may be there.
pub open spec fn maybe(s: Option<String>) -> Option<Seq<char>> {
    match s {
        Some(s) => Some(s@),
        None => None,
    }
}

/// Reads the arguments.
pub fn wanted(args: &Vec<String>) -> (r: Result<Wanted, String>)
    ensures
        match (r, wanted_by(texts(args@))) {
            (Ok(w), Ok((name, revision, repo, sub))) => w.name@ == name && w.revision@ == revision
                && w.hub.repo@ == repo && w.hub.subfolder@ == sub,
            (Err(e), Err(m)) => e@ == m,
            _ => false,
        },
{
    let ghost all = texts(args@);
    let mut name: Option<String> = None;
    let mut revision = "main".to_owned();
    let mut i: usize = 0;
    while i < args.len()
        invariant
            i <= args@.len(),
            all == texts(args@),
            named(all, i as int, maybe(name), revision@) == named(all, 0, None, "main"@),
        decreases args@.len() - i,
    {
        let a = args[i].as_str();
        assert(all[i as int] == a@);
        if same(a, "--revision") {
            if i + 1 >= args.len() {
                return Err("--revision needs a value".to_owned());
            }
            assert(all[i + 1] == args@[i + 1]@);
            revision = args[i + 1].as_str().to_owned();
            i += 2;
        } else {
            let cs = chars_of(a);
            if (cs.len() > 0 && cs[0] == '-') || name.is_some() {
                return Err(USAGE.to_owned());
            }
            name = Some(a.to_owned());
            i += 1;
        }
    }
    let name = match name {
        Some(n) => n,
        None => return Err(USAGE.to_owned()),
    };
    let hub = match HubRef::parse(name.as_str()) {
        Some(h) => Some(h),
        None => HubRef::parse(join2("hf://", name.as_str()).as_str()),
    };
    match hub {
        Some(hub) => Ok(Wanted { name, revision, hub }),
        None => Err(
            join3(
                debug_string(name.as_str()).as_str(),
                " is not an alias or org/repo\n",
                USAGE,
            ),
        ),
    }
}

/// The hub's address: `HF_ENDPOINT` when it is set and not empty, without slashes at its end.
pub open spec fn endpoint_of(var: Option<Seq<char>>) -> Seq<char> {
    trim_end(
        if crate::hub::set(var) {
            var->0
        } else {
            "https://huggingface.co"@
        },
        Class::One('/'),
    )
}

/// The hub's address.
pub fn endpoint(var: Option<&str>) -> (r: String)
    ensures
        r@ == endpoint_of(shown(var)),
{
    let base: &str = match var {
        Some(e) => if e.is_empty() {
            "https://huggingface.co"
        } else {
            e
        },
        None => "https://huggingface.co",
    };
    text_of(&trim_right(&chars_of(base), Class::One('/')))
}

/// Where the hub describes a repo at a revision.
pub fn info_url(endpoint: &str, repo: &str, revision: &str) -> (r: String)
    ensures
        r@ == endpoint@ + "/api/models/"@ + repo@ + "/revision/"@ + revision@,
{
    join5(endpoint, "/api/models/", repo, "/revision/", revision)
}

/// Whether `s` has `p` somewhere.
pub open spec fn holds(s: Seq<char>, p: Seq<char>) -> bool {
    exists|i: int| has_at(s, p, i)
}

/// Whether `s` has `p` somewhere.
fn contains(s: &str, p: &str) -> (r: bool)
    ensures
        r == holds(s@, p@),
{
    let cs = chars_of(s);
    let pat = chars_of(p);
    let mut i: usize = 0;
    while i < cs.len()
        invariant
            cs@ == s@,
            pat@ == p@,
            i <= cs@.len(),
            forall|k: int| 0 <= k < i ==> !has_at(s@, p@, k),
        decreases cs@.len() - i,
    {
        if stands_at(&cs, &pat, i) {
            return true;
        }
        i += 1;
    }
    stands_at(&cs, &pat, i)
}

/// What is said when the hub does not describe a repo: it answers 401 or 404 both to a repo that
/// is not there and to one that is private. Anything else is passed on.
pub fn info_error(e: &str, repo: &str, revision: &str) -> (r: String)
    ensures
        r@ == if holds(e@, "error: 401"@) || holds(e@, "error: 404"@) {
            repo@ + " at "@ + revision@
                + " is not on the hub, or is private and HF_TOKEN is not set"@
        } else {
            e@
        },
{
    if contains(e, "error: 401") || contains(e, "error: 404") {
        let mut r = join3(repo, " at ", revision);
        r.append(" is not on the hub, or is private and HF_TOKEN is not set");
        r
    } else {
        e.to_owned()
    }
}

/// Whether a character is a hexadecimal digit.
pub open spec fn is_hex(c: char) -> bool {
    ('0' <= c && c <= '9') || ('a' <= c && c <= 'f') || ('A' <= c && c <= 'F')
}

/// Whether a text is the name of a commit.
pub open spec fn is_commit(s: Seq<char>) -> bool {
    s.len() == 40 && forall|i: int| 0 <= i < s.len() ==> is_hex(#[trigger] s[i])
}

/// Whether a text is the name of a commit: forty hexadecimal digits.
pub fn names_commit(s: &str) -> (r: bool)
    ensures
        r == is_commit(s@),
{
    let cs = chars_of(s);
    if cs.len() != 40 {
        return false;
    }
    let mut i: usize = 0;
    while i < cs.len()
        invariant
            cs@ == s@,
            i <= cs@.len(),
            forall|k: int| 0 <= k < i ==> is_hex(#[trigger] s@[k]),
        decreases cs@.len() - i,
    {
        let c = cs[i];
        if !(('0' <= c && c <= '9') || ('a' <= c && c <= 'f') || ('A' <= c && c <= 'F')) {
            assert(!is_hex(s@[i as int]));
            return false;
        }
        i += 1;
    }
    true
}

/// The commit of a revision, from the `sha` of the hub's description.
pub fn commit(sha: Option<&str>, repo: &str, revision: &str) -> (r: Result<String, String>)
    ensures
        match r {
            Ok(c) => shown(sha) == Some(c@) && is_commit(c@),
            Err(e) => !(shown(sha) matches Some(c) && is_commit(c)) && e@ == repo@
                + ": no commit for revision "@ + revision@,
        },
{
    match sha {
        Some(s) => {
            if names_commit(s) {
                return Ok(s.to_owned());
            }
        },
        None => {},
    }
    Err(join3(repo, ": no commit for revision ", revision))
}

/// The text under a key of a JSON object, or the message for bytes that are not JSON.
pub uninterp spec fn field_of(bytes: Seq<u8>, key: Seq<char>) -> Result<
    Option<Seq<char>>,
    Seq<char>,
>;

/// `serde_json::from_slice` and `Value::as_str`, a function of the bytes and the key alone: the
/// string under the key, `None` when the value is no object, has no such key or holds no string
/// there, and the parser's message when the bytes are not JSON.
#[verifier::external_body]
fn text_field(bytes: &Vec<u8>, key: &str) -> (r: Result<Option<String>, String>)
    ensures
        field_view(r) == field_of(bytes@, key@),
{
    match serde_json::from_slice::<serde_json::Value>(bytes) {
        Ok(v) => Ok(v[key].as_str().map(str::to_string)),
        Err(e) => Err(e.to_string()),
    }
}

/// What was read under a key, as plain values.
pub open spec fn field_view(f: Result<Option<String>, String>) -> Result<
    Option<Seq<char>>,
    Seq<char>,
> {
    match f {
        Ok(Some(s)) => Ok(Some(s@)),
        Ok(None) => Ok(None),
        Err(e) => Err(e@),
    }
}

/// Whether this is the commit of a revision, or the error, for what was read of the hub's answer.
pub open spec fn answers_commit(
    r: Result<String, String>,
    field: Result<Option<Seq<char>>, Seq<char>>,
    repo: Seq<char>,
    revision: Seq<char>,
) -> bool {
    match (r, field) {
        (Err(e), Err(m)) => e@ == repo + ": the hub answered with something that is not JSON: "@
            + m,
        (Ok(c), Ok(Some(s))) => c@ == s && is_commit(s),
        (Err(e), Ok(s)) => !(s matches Some(c) && is_commit(c)) && e@ == repo
            + ": no commit for revision "@ + revision,
        _ => false,
    }
}

/// The commit of a revision, by what was read under `sha` of the hub's answer.
pub fn commit_of(field: Result<Option<String>, String>, repo: &str, revision: &str) -> (r: Result<
    String,
    String,
>)
    ensures
        answers_commit(r, field_view(field), repo@, revision@),
{
    match field {
        Err(e) => Err(
            join3(repo, ": the hub answered with something that is not JSON: ", e.as_str()),
        ),
        Ok(None) => commit(None, repo, revision),
        Ok(Some(s)) => commit(Some(s.as_str()), repo, revision),
    }
}

/// The commit of a revision, from the hub's answer: the text under `sha`.
pub fn commit_in(answer: &Vec<u8>, repo: &str, revision: &str) -> (r: Result<String, String>)
    ensures
        answers_commit(r, field_of(answer@, "sha"@), repo@, revision@),
{
    commit_of(text_field(answer, "sha"), repo, revision)
}

/// A file's path in the repo.
pub fn file_path(subfolder: &str, file: &str) -> (r: String)
    ensures
        r@ == if subfolder@.len() == 0 {
            file@
        } else {
            subfolder@ + "/"@ + file@
        },
{
    if subfolder.is_empty() {
        file.to_owned()
    } else {
        join3(subfolder, "/", file)
    }
}

/// Where a file of a commit is.
pub fn file_url(endpoint: &str, repo: &str, commit: &str, path: &str) -> (r: String)
    ensures
        r@ == endpoint@ + "/"@ + repo@ + "/resolve/"@ + commit@ + "/"@ + path@,
{
    join7(endpoint, "/", repo, "/resolve/", commit, "/", path)
}

/// The configuration handed to curl: the address in double quotes, and the token, when there is
/// one, in a header.
pub open spec fn config_text(url: Seq<char>, token: Option<Seq<char>>) -> Seq<char> {
    let head = "url = \""@ + replaced(replaced(url, "\\"@, "\\\\"@), "\""@, "\\\""@) + "\"\n"@;
    if crate::hub::set(token) {
        head + "header = \"Authorization: Bearer "@ + trimmed(token->0, Class::White) + "\"\n"@
    } else {
        head
    }
}

/// The configuration handed to curl.
pub fn curl_config(url: &str, token: Option<&str>) -> (r: String)
    ensures
        r@ == config_text(url@, shown(token)),
{
    let quoted = replace(replace(url, "\\", "\\\\").as_str(), "\"", "\\\"");
    let head = join3("url = \"", quoted.as_str(), "\"\n");
    match token {
        Some(t) => {
            if !t.is_empty() {
                let t = text_of(&trim(&chars_of(t), Class::White));
                let mut r = head;
                r.append("header = \"Authorization: Bearer ");
                r.append(t.as_str());
                r.append("\"\n");
                return r;
            }
        },
        None => {},
    }
    head
}

/// A text without the weak marks at its start.
pub open spec fn strong(s: Seq<char>) -> Seq<char>
    decreases s.len(),
{
    if s.len() >= 2 && s[0] == 'W' && s[1] == '/' {
        strong(s.skip(2))
    } else {
        s
    }
}

/// The value of a header in one line, when the line is that header. Names go without regard to
/// case.
pub open spec fn header_value(line: Seq<char>, name: Seq<char>) -> Option<Seq<char>> {
    let key = before(line, ":"@);
    if key.len() < line.len() && ascii_lower(trimmed(key, Class::White)) == name {
        Some(
            trimmed(
                strong(trimmed(line.skip(key.len() as int + 1), Class::White)),
                Class::One('"'),
            ),
        )
    } else {
        None
    }
}

/// The value of the first header of a name among the lines from the `i`th on.
pub open spec fn header_from(lines: Seq<Seq<char>>, name: Seq<char>, i: int) -> Option<Seq<char>>
    decreases lines.len() - i,
{
    if i >= lines.len() {
        None
    } else {
        match header_value(lines[i], name) {
            Some(v) => Some(v),
            None => header_from(lines, name, i + 1),
        }
    }
}

/// The value of the first header of a name.
pub open spec fn header_in(head: Seq<char>, name: Seq<char>) -> Option<Seq<char>> {
    header_from(split_by(head, Class::One('\n')), name, 0)
}

/// What stands before something is no longer than the text.
proof fn before_bound(s: Seq<char>, p: Seq<char>)
    ensures
        before(s, p).len() <= s.len(),
    decreases s.len(),
{
    if s.len() > 0 && !has_at(s, p, 0) {
        before_bound(s.drop_first(), p);
    }
}

/// A text without the weak marks at its start.
fn without_weak(s: &Vec<char>) -> (r: Vec<char>)
    ensures
        r@ == strong(s@),
{
    let mut i: usize = 0;
    assert(s@.skip(0) =~= s@);
    while s.len() - i >= 2 && s[i] == 'W' && s[i + 1] == '/'
        invariant
            i <= s@.len(),
            strong(s@) == strong(s@.skip(i as int)),
        decreases s@.len() - i,
    {
        assert(s@.skip(i as int).skip(2) =~= s@.skip(i + 2));
        i += 2;
    }
    let r = piece(s, i, s.len());
    assert(r@ =~= s@.skip(i as int));
    r
}

/// The value of a header in one line.
fn value_in(line: &Vec<char>, name: &str) -> (r: Option<String>)
    ensures
        maybe(r) == header_value(line@, name@),
{
    let key = text_before(line, &chars_of(":"));
    proof {
        before_bound(line@, ":"@);
    }
    if key.len() >= line.len() {
        return None;
    }
    let low = to_ascii_lower(text_of(&trim(&key, Class::White)).as_str());
    if !same(low.as_str(), name) {
        return None;
    }
    let rest = piece(line, key.len() + 1, line.len());
    assert(rest@ =~= line@.skip(key@.len() as int + 1));
    let value = without_weak(&trim(&rest, Class::White));
    Some(text_of(&trim(&value, Class::One('"'))))
}

/// The value of the first header of a name, which is in lower case.
pub fn header(head: &str, name: &str) -> (r: Option<String>)
    ensures
        maybe(r) == header_in(head@, name@),
{
    let lines = split(&chars_of(head), Class::One('\n'));
    let ghost all = split_by(head@, Class::One('\n'));
    let mut i: usize = 0;
    while i < lines.len()
        invariant
            i <= lines@.len(),
            crate::text::parts(lines@) == all,
            all == split_by(head@, Class::One('\n')),
            header_from(all, name@, i as int) == header_from(all, name@, 0),
        decreases lines@.len() - i,
    {
        assert(all[i as int] == lines@[i as int]@);
        let v = value_in(&lines[i], name);
        if v.is_some() {
            return v;
        }
        i += 1;
    }
    assert(all.len() == lines@.len());
    None
}

/// Whether a tag can name a blob.
pub open spec fn is_tag(s: Seq<char>) -> bool {
    s.len() > 0 && forall|i: int| 0 <= i < s.len() ==> tag_char(#[trigger] s[i])
}

/// Whether a character can stand in the name of a blob.
pub open spec fn tag_char(c: char) -> bool {
    ('0' <= c && c <= '9') || ('a' <= c && c <= 'z') || ('A' <= c && c <= 'Z') || c == '-'
}

/// Whether a tag can name a blob.
fn names_blob(s: &str) -> (r: bool)
    ensures
        r == is_tag(s@),
{
    let cs = chars_of(s);
    let mut i: usize = 0;
    while i < cs.len()
        invariant
            cs@ == s@,
            i <= cs@.len(),
            forall|k: int| 0 <= k < i ==> tag_char(#[trigger] s@[k]),
        decreases cs@.len() - i,
    {
        let c = cs[i];
        if !(('0' <= c && c <= '9') || ('a' <= c && c <= 'z') || ('A' <= c && c <= 'Z') || c
            == '-') {
            assert(!tag_char(s@[i as int]));
            return false;
        }
        i += 1;
    }
    cs.len() > 0
}

/// A blob's name leads nowhere but into its folder: it has no separator and no dot.
pub proof fn a_tag_stays_in_its_folder(t: Seq<char>)
    requires
        is_tag(t),
    ensures
        !t.contains('/'),
        !t.contains('\\'),
        !t.contains('.'),
{
    assert forall|c: char| #[trigger] t.contains(c) implies tag_char(c) by {
        let i = choose|i: int| 0 <= i < t.len() && t[i] == c;
        assert(tag_char(t[i]));
    }
}

/// The tag of a file: the hash of a linked one, else the hub's own.
pub open spec fn tag_in(head: Seq<char>) -> Option<Seq<char>> {
    match header_in(head, "x-linked-etag"@) {
        Some(t) => Some(t),
        None => header_in(head, "etag"@),
    }
}

/// The blob name of a file, from the headers that the hub answers with: the SHA-256 in
/// `X-Linked-Etag` of a large file, else the `ETag`. A name that could lead out of its folder is
/// refused.
pub fn etag(url: &str, head: &str) -> (r: Result<String, String>)
    ensures
        match (r, tag_in(head@)) {
            (Ok(t), Some(w)) => t@ == w && is_tag(w),
            (Err(e), Some(w)) => !is_tag(w) && e@ == url@ + ": unexpected ETag "@ + debug_text(w),
            (Err(e), None) => e@ == url@ + ": no ETag"@,
            (Ok(_), None) => false,
        },
{
    let tag = match header(head, "x-linked-etag") {
        Some(t) => Some(t),
        None => header(head, "etag"),
    };
    match tag {
        Some(t) => {
            if names_blob(t.as_str()) {
                Ok(t)
            } else {
                Err(join3(url, ": unexpected ETag ", debug_string(t.as_str()).as_str()))
            }
        },
        None => Err(join2(url, ": no ETag")),
    }
}

/// The SHA-256 of bytes.
pub uninterp spec fn sha256_of(bytes: Seq<u8>) -> Seq<u8>;

/// `sha2::Sha256::digest`, a function of the bytes alone: their SHA-256, which is 32 bytes long.
#[verifier::external_body]
fn sha256_digest(bytes: &Vec<u8>) -> (r: Vec<u8>)
    ensures
        r@ == sha256_of(bytes@),
        r@.len() == 32,
{
    <sha2::Sha256 as sha2::Digest>::digest(bytes).to_vec()
}

/// Bytes in hexadecimal, two digits each.
pub open spec fn hex(b: Seq<u8>) -> Seq<char> {
    Seq::new(
        2 * b.len(),
        |i: int|
            hex_digit(
                if i % 2 == 0 {
                    b[i / 2] as int / 16
                } else {
                    b[i / 2] as int % 16
                },
            ),
    )
}

/// Bytes in hexadecimal.
pub fn to_hex(b: &Vec<u8>) -> (r: String)
    ensures
        r@ == hex(b@),
{
    let mut r = String::new();
    let mut i: usize = 0;
    assert(r@ =~= hex(b@.take(0)));
    while i < b.len()
        invariant
            i <= b@.len(),
            r@ == hex(b@.take(i as int)),
        decreases b@.len() - i,
    {
        r.push(digit(b[i] as u32 / 16));
        r.push(digit(b[i] as u32 % 16));
        i += 1;
        assert(r@ =~= hex(b@.take(i as int)));
    }
    assert(b@.take(b@.len() as int) =~= b@);
    r
}

/// The SHA-256 of bytes in hexadecimal.
pub fn sha256(bytes: &Vec<u8>) -> (r: String)
    ensures
        r@ == hex(sha256_of(bytes@)),
{
    to_hex(&sha256_digest(bytes))
}

/// Whether a file is named by its SHA-256: those are 64 digits long. Other files are named by
/// the hash of the git blob.
pub fn is_hash(etag: &str) -> (r: bool)
    ensures
        r == (etag@.len() == 64),
{
    chars_of(etag).len() == 64
}

/// Checks a downloaded file before it is kept: one that is named by a SHA-256 must have it.
pub fn check_blob(path: &str, etag: &str, bytes: &Vec<u8>) -> (r: Result<(), String>)
    ensures
        match r {
            Ok(_) => etag@.len() == 64 ==> hex(sha256_of(bytes@)) == etag@,
            Err(e) => etag@.len() == 64 && hex(sha256_of(bytes@)) != etag@ && e@ == path@
                + ": SHA-256 is "@ + hex(sha256_of(bytes@)) + ", the hub says "@ + etag@,
        },
{
    if is_hash(etag) {
        let got = sha256(bytes);
        if !same(got.as_str(), etag) {
            return Err(join5(path, ": SHA-256 is ", got.as_str(), ", the hub says ", etag));
        }
    }
    Ok(())
}

/// The folders in the first `n` characters of a path.
pub open spec fn folders(path: Seq<char>, n: int) -> nat
    decreases n,
{
    if n <= 0 {
        0
    } else {
        folders(path, n - 1) + (if path[n - 1] == '/' {
            1nat
        } else {
            0
        })
    }
}

/// The way up through `n` folders.
pub open spec fn up(n: nat) -> Seq<char>
    decreases n,
{
    if n == 0 {
        seq![]
    } else {
        up((n - 1) as nat) + "../"@
    }
}

/// Where the link of a file in a snapshot leads: out of the file's folders, the commit and
/// `snapshots`, and into `blobs`.
pub fn link_target(path: &str, blob: &str) -> (r: String)
    ensures
        r@ == up(folders(path@, path@.len() as int) + 2) + "blobs/"@ + blob@,
{
    let cs = chars_of(path);
    let mut r = String::new();
    let ghost mut n: nat = 0;
    let mut i: usize = 0;
    assert(r@ =~= up(0));
    while i < cs.len()
        invariant
            cs@ == path@,
            i <= cs@.len(),
            n == folders(path@, i as int),
            r@ == up(n),
        decreases cs@.len() - i,
    {
        if cs[i] == '/' {
            r.append("../");
            proof {
                n = n + 1;
            }
        }
        i += 1;
    }
    r.append("../");
    assert(r@ == up(n + 1));
    r.append("../");
    assert(r@ == up(n + 2));
    r.append("blobs/");
    r.append(blob);
    r
}

/// Where the parts of a download go in the cache.
#[derive(Debug, PartialEq, Eq)]
pub struct Places {
    /// The folder of the blobs.
    pub blobs: String,
    /// The folder of the snapshot.
    pub snapshot: String,
    /// The folder of the checkpoint in the snapshot.
    pub checkpoint: String,
    /// The file that names the commit of the revision, `None` when the revision is a commit.
    pub reference: Option<String>,
}

/// Where the parts of a download go, under the folder of the repo.
pub fn places(repo: &str, commit: &str, subfolder: &str, revision: &str) -> (r: Places)
    ensures
        r.blobs@ == path_join(repo@, "blobs"@),
        r.snapshot@ == path_join(path_join(repo@, "snapshots"@), commit@),
        r.checkpoint@ == if subfolder@.len() == 0 {
            r.snapshot@
        } else {
            path_join(r.snapshot@, subfolder@)
        },
        match r.reference {
            Some(f) => !is_commit(revision@) && f@ == path_join(
                path_join(repo@, "refs"@),
                revision@,
            ),
            None => is_commit(revision@),
        },
{
    let snapshot = join_path(join_path(repo, "snapshots").as_str(), commit);
    let checkpoint = if subfolder.is_empty() {
        snapshot.as_str().to_owned()
    } else {
        join_path(snapshot.as_str(), subfolder)
    };
    let reference = if names_commit(revision) {
        None
    } else {
        Some(join_path(join_path(repo, "refs").as_str(), revision))
    };
    Places { blobs: join_path(repo, "blobs"), snapshot, checkpoint, reference }
}

/// A download of the branch `main` is found by its name afterwards: [`crate::hub::HubRef`] reads the
/// file that the download writes, and looks for the checkpoint where the download puts it. Without a
/// subfolder the path it looks at has a slash at its end.
pub proof fn a_download_is_found(dir: Seq<char>, commit: Seq<char>, subfolder: Seq<char>)
    requires
        is_commit(commit),
    ensures
        path_join(path_join(dir, "refs"@), "main"@) == path_join(dir, "refs/main"@),
        ({
            let all = path_join(dir, "snapshots"@);
            let there = path_join(all, commit);
            path_join(path_join(all, trimmed(commit, Class::White)), subfolder) == if subfolder.len()
                == 0 {
                there + "/"@
            } else {
                path_join(there, subfolder)
            }
        }),
{
    reveal_strlit("refs");
    reveal_strlit("main");
    reveal_strlit("refs/main");
    reveal_strlit("snapshots");
    reveal_strlit("/");
    assert("refs"@ + "/"@ + "main"@ =~= "refs/main"@);
    let refs = path_join(dir, "refs"@);
    assert(refs.last() == 's');
    assert(refs + "/"@ + "main"@ =~= path_join(dir, "refs/main"@));
    assert(is_hex(commit[0]) && is_hex(commit.last()));
    trim_core(seq![], commit, seq![], Class::White);
    assert(Seq::<char>::empty() + commit + Seq::<char>::empty() =~= commit);
    let all = path_join(dir, "snapshots"@);
    let there = path_join(all, commit);
    assert(there.last() == commit.last());
    if subfolder.len() == 0 {
        assert(there + "/"@ + subfolder =~= there + "/"@);
    }
}

/// What is done for one file.
#[derive(Debug, Clone, Copy, PartialEq, Eq, Structural)]
pub enum Todo {
    /// It is in the snapshot.
    Nothing,
    /// Its blob is there, and the snapshot gets a link.
    Link,
    /// Its blob is fetched, checked and linked.
    Fetch,
}

/// What is done for one file, by whether the snapshot has it and whether its blob is there.
pub fn todo(in_snapshot: bool, has_blob: bool) -> (r: Todo)
    ensures
        r == if in_snapshot {
            Todo::Nothing
        } else if has_blob {
            Todo::Link
        } else {
            Todo::Fetch
        },
{
    if in_snapshot {
        Todo::Nothing
    } else if has_blob {
        Todo::Link
    } else {
        Todo::Fetch
    }
}

/// Where a blob is written until it is whole.
pub fn incomplete(blob: &str) -> (r: String)
    ensures
        r@ == blob@ + ".incomplete"@,
        r@ != blob@,
{
    proof {
        reveal_strlit(".incomplete");
    }
    let r = join2(blob, ".incomplete");
    assert(r@.len() == blob@.len() + 11);
    r
}

/// A commit as it is shown: its first twelve digits.
pub fn short(commit: &str) -> (r: String)
    ensures
        r@ == if commit@.len() < 12 {
            commit@
        } else {
            commit@.take(12)
        },
{
    let cs = chars_of(commit);
    if cs.len() < 12 {
        return commit.to_owned();
    }
    let head = piece(&cs, 0, 12);
    assert(head@ =~= commit@.take(12));
    text_of(&head)
}

/// The arguments may come in any order, and the revision is `main` when none is given.
pub proof fn arguments_come_in_any_order(name: Seq<char>, revision: Seq<char>)
    requires
        name.len() > 0 && name[0] != '-',
    ensures
        named(seq![name], 0, None, "main"@) == Ok::<_, Seq<char>>((name, "main"@)),
        named(seq![name, "--revision"@, revision], 0, None, "main"@) == Ok::<_, Seq<char>>(
            (name, revision),
        ),
        named(seq!["--revision"@, revision, name], 0, None, "main"@) == Ok::<_, Seq<char>>(
            (name, revision),
        ),
        named(seq![name, "--revision"@], 0, None, "main"@) is Err,
        named(seq![name, name], 0, None, "main"@) is Err,
        named(seq![], 0, None, "main"@) is Err,
{
    reveal_strlit("--revision");
    assert("--revision"@[0] == '-');
    reveal_with_fuel(named, 4);
}

/// The hub's address has no slash at its end, however many it was given with, and is the public
/// one when none is set.
pub proof fn an_endpoint_has_no_slash_at_its_end(e: Seq<char>, slashes: Seq<char>)
    requires
        e.len() > 0 && e.last() != '/',
        forall|i: int| 0 <= i < slashes.len() ==> #[trigger] slashes[i] == '/',
    ensures
        endpoint_of(Some(e + slashes)) == e,
        endpoint_of(None) == "https://huggingface.co"@,
        endpoint_of(Some(seq![])) == "https://huggingface.co"@,
    decreases slashes.len(),
{
    reveal_strlit("https://huggingface.co");
    assert("https://huggingface.co"@.last() == 'o');
    let s = e + slashes;
    if slashes.len() > 0 {
        let less = slashes.drop_last();
        assert forall|i: int| 0 <= i < less.len() implies #[trigger] less[i] == '/' by {
            assert(less[i] == slashes[i]);
        }
        an_endpoint_has_no_slash_at_its_end(e, less);
        assert(s.last() == slashes[slashes.len() - 1]);
        assert(s.drop_last() =~= e + less);
    } else {
        assert(s =~= e);
    }
}

/// The header of a name is found in whatever case its line writes the name, with whatever blanks
/// stand around the name and the value, and its value comes without quotes and without the mark of
/// a weak tag.
pub proof fn a_header_is_found(
    key: Seq<char>,
    blank: Seq<char>,
    more: Seq<char>,
    tag: Seq<char>,
    weak: bool,
    quoted: bool,
)
    requires
        key.len() > 0 && !key.contains(':') && !white(key[0]) && !white(key.last()),
        full_of(blank, Class::White),
        full_of(more, Class::White),
        is_tag(tag),
    ensures
        ({
            let value = (if weak {
                "W/"@
            } else {
                seq![]
            }) + (if quoted {
                seq!['"'] + tag + seq!['"']
            } else {
                tag
            });
            header_value(key + ":"@ + blank + value + more, ascii_lower(key)) == Some(tag)
        }),
{
    reveal_strlit(":");
    reveal_strlit("W/");
    assert(":"@ =~= seq![':']);
    let none = Seq::<char>::empty();
    let core = if quoted {
        seq!['"'] + tag + seq!['"']
    } else {
        tag
    };
    let mark = if weak {
        "W/"@
    } else {
        none
    };
    let value = mark + core;
    let rest = blank + value + more;
    let line = key + ":"@ + blank + value + more;
    assert(line =~= key + seq![':'] + rest);
    crate::hub::before_first(key, ':', rest);
    trim_core(none, key, none, Class::White);
    assert(none + key + none =~= key);
    assert(line.skip(key.len() as int + 1) =~= rest);
    assert(tag_char(tag[0]) && tag_char(tag[tag.len() - 1]));
    assert(core[0] == '"' || core[0] == tag[0]);
    assert(core.last() == '"' || core.last() == tag[tag.len() - 1]);
    assert(value.last() == core.last());
    assert(value[0] == 'W' || value[0] == core[0]);
    trim_core(blank, value, more, Class::White);
    tag_is_strong(core, tag, quoted);
    if weak {
        assert(value[0] == 'W' && value[1] == '/');
        assert(value.skip(2) =~= core);
        assert(strong(value) == strong(core));
    } else {
        assert(value =~= core);
    }
    let q = seq!['"'];
    if quoted {
        trim_core(q, tag, q, Class::One('"'));
    } else {
        trim_core(none, tag, none, Class::One('"'));
        assert(none + tag + none =~= tag);
    }
}

/// A tag carries no weak mark of its own.
proof fn tag_is_strong(core: Seq<char>, tag: Seq<char>, quoted: bool)
    requires
        is_tag(tag),
        core == if quoted {
            seq!['"'] + tag + seq!['"']
        } else {
            tag
        },
    ensures
        strong(core) == core,
{
    if quoted {
        assert(core[0] == '"');
    } else if tag.len() >= 2 {
        assert(tag_char(tag[1]));
    }
}

/// A large file is named by the hash that the hub links it under, whatever its own tag is, and
/// another file by its own tag.
pub proof fn a_linked_file_goes_by_its_hash(head: Seq<char>, linked: Seq<char>)
    ensures
        header_in(head, "x-linked-etag"@) == Some(linked) ==> tag_in(head) == Some(linked),
        header_in(head, "x-linked-etag"@) is None ==> tag_in(head) == header_in(head, "etag"@),
{
}

/// Of two headers of a name the first one counts.
pub proof fn the_first_header_counts(
    lines: Seq<Seq<char>>,
    name: Seq<char>,
    i: int,
    v: Seq<char>,
)
    requires
        0 <= i < lines.len(),
        header_value(lines[i], name) == Some(v),
        forall|k: int| #![trigger lines[k]]
            0 <= k < i ==> header_value(lines[k], name) is None,
    ensures
        header_from(lines, name, 0) == Some(v),
{
    first_from(lines, name, 0, i);
}

/// Lines without the header are passed over.
proof fn first_from(lines: Seq<Seq<char>>, name: Seq<char>, from: int, i: int)
    requires
        0 <= from <= i < lines.len(),
        header_value(lines[i], name) is Some,
        forall|k: int| #![trigger lines[k]]
            from <= k < i ==> header_value(lines[k], name) is None,
    ensures
        header_from(lines, name, from) == header_value(lines[i], name),
    decreases i - from,
{
    if from < i {
        first_from(lines, name, from + 1, i);
    }
}

/// Bytes in hexadecimal read back: two digits for each, the high one first.
pub proof fn hexadecimal_reads_back(b: Seq<u8>, i: int)
    requires
        0 <= i < b.len(),
    ensures
        hex(b).len() == 2 * b.len(),
        16 * hex_value(hex(b)[2 * i]) + hex_value(hex(b)[2 * i + 1]) == b[i],
{
    let x = b[i] as int;
    assert(hex(b)[2 * i] == hex_digit(x / 16));
    assert(hex(b)[2 * i + 1] == hex_digit(x % 16));
    assert(0 <= x / 16 < 16 && 0 <= x % 16 < 16);
}

/// Where a relative path leads from a folder: up as often as it starts with `../`, and then on.
pub open spec fn walked(at: Seq<Seq<char>>, way: Seq<char>) -> (Seq<Seq<char>>, Seq<char>)
    decreases way.len(),
{
    if way.len() >= 3 && way[0] == '.' && way[1] == '.' && way[2] == '/' {
        walked(at.drop_last(), way.skip(3))
    } else {
        (at, way)
    }
}

/// The link of a file leads from the file's folder in the snapshot to the blob under the folder of
/// the repo.
pub proof fn a_link_leads_to_its_blob(path: Seq<char>, commit: Seq<char>, blob: Seq<char>)
    ensures
        walked(
            seq!["snapshots"@, commit] + split_by(path, Class::One('/')).drop_last(),
            up(folders(path, path.len() as int) + 2) + "blobs/"@ + blob,
        ) == (Seq::<Seq<char>>::empty(), "blobs/"@ + blob),
{
    let at = seq!["snapshots"@, commit] + split_by(path, Class::One('/')).drop_last();
    let n = folders(path, path.len() as int) + 2;
    folders_are_pieces(path);
    assert(at.len() == n);
    reveal_strlit("blobs/");
    assert(("blobs/"@ + blob)[0] == 'b');
    way_up(at, n, "blobs/"@ + blob);
    assert(up(n) + "blobs/"@ + blob =~= up(n) + ("blobs/"@ + blob));
}

/// The folders of a path are its pieces but the last.
proof fn folders_are_pieces(path: Seq<char>)
    ensures
        split_by(path, Class::One('/')).len() == folders(path, path.len() as int) + 1,
    decreases path.len(),
{
    if path.len() > 0 {
        let less = path.drop_last();
        folders_are_pieces(less);
        folders_of_start(path, less, less.len() as int);
    }
}

/// The folders in a part go by that part alone.
proof fn folders_of_start(a: Seq<char>, b: Seq<char>, n: int)
    requires
        n <= a.len() && n <= b.len(),
        forall|i: int| 0 <= i < n ==> a[i] == #[trigger] b[i],
    ensures
        folders(a, n) == folders(b, n),
    decreases n,
{
    if n > 0 {
        folders_of_start(a, b, n - 1);
        assert(a[n - 1] == b[n - 1]);
    }
}

/// The way up through `n` folders leaves `n` folders.
proof fn way_up(at: Seq<Seq<char>>, n: nat, rest: Seq<char>)
    requires
        at.len() == n,
        rest.len() > 0 && rest[0] != '.',
    ensures
        walked(at, up(n) + rest) == (Seq::<Seq<char>>::empty(), rest),
    decreases n,
{
    reveal_strlit("../");
    if n == 0 {
        assert(up(n) + rest =~= rest);
        assert(at =~= Seq::<Seq<char>>::empty());
    } else {
        let less = (n - 1) as nat;
        up_starts(n);
        way_up(at.drop_last(), less, rest);
        let way = up(n) + rest;
        assert(way =~= "../"@ + (up(less) + rest));
        assert(way.skip(3) =~= up(less) + rest);
    }
}

/// The way up starts with a step up.
proof fn up_starts(n: nat)
    requires
        n > 0,
    ensures
        up(n) == "../"@ + up((n - 1) as nat),
    decreases n,
{
    if n > 1 {
        up_starts((n - 1) as nat);
        assert(up(n) =~= "../"@ + up((n - 1) as nat));
    } else {
        assert(up(0) =~= seq![]);
        assert(up(n) =~= "../"@ + up(0));
    }
}

} // verus!
