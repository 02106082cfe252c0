//! An email cleaner. It drops quoted history, signatures, device footers and confidentiality
//! disclaimers in English, Portuguese and Spanish, so the model reads the new message and not the
//! thread under it.
//!
//! The patterns are Python's. Its `\s` also takes the four separators U+001C to U+001F, so
//! [`py`] adds them wherever a pattern says `\s`. The two lookaheads and the sentence split's
//! lookbehind are done by hand.

use crate::json::{entries, find, find_at, insert, put, put_get, Json, Value};
use crate::text::{
    chars_of, free_of, full_of, has_at, in_class, is_in, parts, piece, replace, replaced, replaced_absent,
    split, split_behind, split_by, split_free, text_of, texts, trim, trim_end, trim_left,
    trim_right, trim_start, trimmed, Class,
};
use vstd::prelude::*;

verus! {

/// How much of a cleaned body is kept by default.
pub const MAX_CHARS: usize = 3000;

/// An English attribution line.
pub const ON_WROTE: &'static str = r"(?i)^\s*On .{0,300}wrote:\s*$";

/// An English forwarding line.
pub const FORWARDED: &'static str = r"(?i)^\s*-{2,}\s*(Original|Forwarded) Message\s*-{2,}";

/// A Portuguese or Spanish forwarding line.
pub const FORWARDED_PT_ES: &'static str = r"(?i)^\s*-{2,}\s*(Mensagem (original|encaminhada)|Mensaje (original|reenviado))\s*-{2,}";

/// A line of underscores.
pub const RULE: &'static str = r"^\s*_{8,}\s*$";

/// An English header line.
pub const FROM: &'static str = r"(?i)^\s*From:\s.+$";

/// A Portuguese or Spanish header line with an address.
pub const DE_ADDRESS: &'static str = r"(?i)^\s*De:\s.*[@<]";

/// The start of a Portuguese attribution line.
pub const EM: &'static str = r"(?i)^\s*Em ";

/// A Portuguese attribution line.
pub const EM_WROTE: &'static str = r"(?i)^\s*Em .{0,300}escreveu:\s*$";

/// The start of a Spanish attribution line.
pub const EL: &'static str = r"(?i)^\s*El ";

/// A Spanish attribution line.
pub const EL_WROTE: &'static str = r"(?i)^\s*El .{0,300}escribi[óo]:\s*$";

/// The second line of an attribution.
pub const ATTRIBUTION_TAIL: &'static str = r"(?i)^.{0,120}\S@\S+\s+(wrote|escreveu|escribi[óo]):\s*$";

/// The first line of an attribution.
pub const ATTRIBUTION_HEAD: &'static str = r"(?i)^\s*(On|Em|El) ";

/// A Portuguese or Spanish header line with a name.
pub const DE_NAME: &'static str = r"(?i)^\s*De:\s+\S";

/// The header line after it.
pub const HEADER_NEXT: &'static str = r"(?i)^\s*(Enviad[oa]( em| el)?:\s|(Data|Fecha):\s.*\d{4})";

/// The dashes above a signature.
pub const DASHES: &'static str = r"^\s*--\s*$";

/// An English sign-off.
pub const REGARDS: &'static str = r"^\s*(?i:best|kind|warmest|warm|many thanks|thanks|thank you|regards|cheers|sincerely)(?i:\s+(?:and|&)\s+regards|\s+(?:regards|wishes|again|in advance|a lot|so much|very much))?[\s,;:!.]*(?:[^\W\d_a-zß-öø-ÿ][\w'-]*[\s,.]*){0,3}$";

/// A phone's sign-off.
pub const SENT_FROM: &'static str = r"(?i)^\s*sent from my (iphone|android|mobile|ipad)";

/// A Portuguese or Spanish sign-off.
pub const SALUTATION: &'static str = r"(?i)^\s*(atenciosamente|att|abraços?|abs|um abraço|cordialmente|grat[oa]|(muito )?obrigad[oa]s?( desde já| pela atenção)?|(com os melhores )?cumprimentos|saudações|(un )?saludos?( cordiales)?|atentamente|(muchas )?gracias( de antemano)?)[\s,!.]*$";

/// A device's footer.
pub const DEVICE_FOOTER: &'static str = r"(?i)^\s*((enviad[oa] (do|pelo|pela|via|desde|a partir do)( meu| minha| mi)?|sent from( my)?) (iphone|ipad|android|ios|celular|telemóvel|móvil|galaxy|smartphone|samsung|tablet|outlook|yahoo|mail|e-?mail|gmail|windows)( (iphone|ipad|android|ios|celular|telemóvel|móvil|galaxy|smartphone|samsung|tablet|outlook|yahoo|mail|e-?mail|gmail|windows|para|for|no|na|\d+))*|(obter o|get) outlook (para|for) (ios|android))[\s.!]*$";

/// A confidentiality disclaimer.
pub const DISCLAIMER: &'static str = r"(?i)(\b(e-?mail|message|information|communication|transmission|contents?)\b[^.]{0,60}\bconfidential\b[^.]{0,60}\b(intended|solely|addressee|recipient|privileged|disclos|unauthori[sz]ed)|\bconfidential\b[^.]{0,60}\b(and (may|is) (also )?privileged)|if you (have )?received this (e-?mail|message) in error|\b(esta|este) (mensagem|e-?mail|mensaje|correo)\b[^.]{0,80}(confidencia|sigilos|privilegiad)|\b(uso exclusivo|exclusivamente|únicamente|unicamente)\b[^.]{0,30}(destinatári|destinatari|pessoa|persona|entidade|entidad)|\b(recebeu|recebido|receber) (esta|este) (mensagem|e-?mail)\b[^.]{0,20} por (engano|erro)|\b(ha recibido|recibió|recibe) (este|esta) (mensaje|correo)\b[^.]{0,20} por error|\bantes de imprimir\b[^.]{0,100}(meio ambiente|medio ambiente|natureza|planeta|realmente necess)|\b(meio|medio) ambiente\b[^.]{0,30}antes de imprimir)";

/// What stands between paragraphs.
pub const PARAGRAPH: &'static str = r"\n\s*\n";

/// A run of blanks.
pub const BLANKS: &'static str = r"[ \t]+";

/// A digit.
pub const DIGIT: &'static str = r"\d";

/// Whether a pattern is found in a text: `regex::Regex::is_match`.
pub uninterp spec fn found(pattern: Seq<char>, text: Seq<char>) -> Option<bool>;

/// The text behind the first match of a pattern: from the end of `regex::Regex::find`.
pub uninterp spec fn behind(pattern: Seq<char>, text: Seq<char>) -> Option<Option<Seq<char>>>;

/// The pieces of a text between the matches of a pattern: `regex::Regex::split`.
pub uninterp spec fn pieces(pattern: Seq<char>, text: Seq<char>) -> Option<Seq<Seq<char>>>;

/// A text with every match of a pattern replaced: `regex::Regex::replace_all`.
pub uninterp spec fn swapped(pattern: Seq<char>, text: Seq<char>, with: Seq<char>) -> Option<Seq<char>>;

/// `regex::Regex::is_match`: whether the pattern has a match in the text, or `None` for a pattern
/// that does not compile. The result is a function of the two texts.
#[verifier::external_body]
fn regex_is_match(pattern: &str, text: &str) -> (r: Option<bool>)
    ensures
        r == found(pattern@, text@),
{
    let re = regex::RegexBuilder::new(pattern).dfa_size_limit(67_108_864).build().ok()?;
    Some(re.is_match(text))
}

/// `regex::Regex::find`: the text behind the leftmost match, if there is one, or `None` for a
/// pattern that does not compile. The result is a function of the two texts.
#[verifier::external_body]
fn regex_find(pattern: &str, text: &str) -> (r: Option<Option<String>>)
    ensures
        match r {
            None => behind(pattern@, text@) is None,
            Some(None) => behind(pattern@, text@) == Some(None::<Seq<char>>),
            Some(Some(s)) => behind(pattern@, text@) == Some(Some(s@)),
        },
{
    let re = regex::RegexBuilder::new(pattern).dfa_size_limit(67_108_864).build().ok()?;
    Some(re.find(text).map(|m| text[m.end()..].to_string()))
}

/// `regex::Regex::split`: the pieces of the text between the matches, or `None` for a pattern that
/// does not compile. The result is a function of the two texts.
#[verifier::external_body]
fn regex_split(pattern: &str, text: &str) -> (r: Option<Vec<String>>)
    ensures
        match r {
            None => pieces(pattern@, text@) is None,
            Some(v) => pieces(pattern@, text@) == Some(texts(v@)),
        },
{
    let re = regex::RegexBuilder::new(pattern).dfa_size_limit(67_108_864).build().ok()?;
    Some(re.split(text).map(str::to_string).collect())
}

/// `regex::Regex::replace_all` with a replacement that has no `$`: the text with every match
/// replaced by it, or `None` for a pattern that does not compile. The result is a function of the
/// three texts.
#[verifier::external_body]
fn regex_replace_all(pattern: &str, text: &str, with: &str) -> (r: Option<String>)
    requires
        !with@.contains('$'),
    ensures
        match r {
            None => swapped(pattern@, text@, with@) is None,
            Some(s) => swapped(pattern@, text@, with@) == Some(s@),
        },
{
    let re = regex::RegexBuilder::new(pattern).dfa_size_limit(67_108_864).build().ok()?;
    Some(re.replace_all(text, with).into_owned())
}

/// `char::is_alphabetic`.
pub uninterp spec fn alphabetic(c: char) -> bool;

/// `char::is_alphabetic` is a function of the character alone: whether it has the Unicode property
/// Alphabetic.
pub assume_specification[ char::is_alphabetic ](c: char) -> (r: bool)
    ensures
        r == alphabetic(c),
;

/// `char::is_uppercase`.
pub uninterp spec fn uppercase(c: char) -> bool;

/// `char::is_uppercase` is a function of the character alone: whether it has the Unicode property
/// Uppercase.
pub assume_specification[ char::is_uppercase ](c: char) -> (r: bool)
    ensures
        r == uppercase(c),
;

/// Python's `str.isspace` of a character.
pub fn space(c: char) -> (r: bool)
    ensures
        r == in_class(c, Class::Python),
{
    is_in(c, Class::Python)
}

/// A text without the space at both ends.
pub fn strip(s: &str) -> (r: String)
    ensures
        r@ == trimmed(s@, Class::Python),
{
    text_of(&trim(&chars_of(s), Class::Python))
}

/// A Python pattern as one that takes Python's four extra separators, inside `depth` brackets.
pub open spec fn py_text(s: Seq<char>, depth: nat) -> Seq<char>
    decreases s.len(),
{
    if s.len() == 0 {
        seq![]
    } else if s[0] == '\\' {
        if s.len() == 1 {
            seq!['\\']
        } else {
            (if s[1] == 's' && depth > 0 {
                r"\s\x1c-\x1f"@
            } else if s[1] == 's' {
                r"[\s\x1c-\x1f]"@
            } else if s[1] == 'S' {
                r"[^\s\x1c-\x1f]"@
            } else {
                seq!['\\', s[1]]
            }) + py_text(s.skip(2), depth)
        }
    } else if s[0] == '[' {
        seq!['['] + py_text(s.drop_first(), depth + 1)
    } else if s[0] == ']' && depth > 0 {
        seq![']'] + py_text(s.drop_first(), (depth - 1) as nat)
    } else {
        seq![s[0]] + py_text(s.drop_first(), depth)
    }
}

/// A Python pattern as one that takes Python's four extra separators wherever it says `\s` or `\S`.
pub fn py(pattern: &str) -> (r: String)
    ensures
        r@ == py_text(pattern@, 0),
{
    let cs = chars_of(pattern);
    let mut out = String::new();
    let mut depth: usize = 0;
    let mut i: usize = 0;
    assert(cs@.skip(0) =~= cs@);
    assert(out@ + py_text(cs@.skip(0), 0) =~= py_text(cs@, 0));
    while i < cs.len()
        invariant
            i <= cs@.len(),
            depth <= i,
            out@ + py_text(cs@.skip(i as int), depth as nat) == py_text(cs@, 0),
        decreases cs@.len() - i,
    {
        let ghost rest = cs@.skip(i as int);
        let ghost done = out@;
        let ghost d = depth as nat;
        let c = cs[i];
        assert(rest[0] == c);
        assert(rest.drop_first() =~= cs@.skip(i + 1));
        if c == '\\' {
            if i + 1 == cs.len() {
                out.push('\\');
                i += 1;
                assert(cs@.skip(i as int) =~= seq![]);
                assert(out@ + py_text(cs@.skip(i as int), depth as nat) =~= done + py_text(rest, d));
            } else {
                let n = cs[i + 1];
                assert(rest[1] == n);
                if n == 's' && depth > 0 {
                    out.append(r"\s\x1c-\x1f");
                } else if n == 's' {
                    out.append(r"[\s\x1c-\x1f]");
                } else if n == 'S' {
                    out.append(r"[^\s\x1c-\x1f]");
                } else {
                    out.push('\\');
                    out.push(n);
                }
                i += 2;
                assert(rest.skip(2) =~= cs@.skip(i as int));
                assert(out@ + py_text(cs@.skip(i as int), depth as nat) =~= done + py_text(rest, d));
            }
        } else {
            if c == '[' {
                depth += 1;
            } else if c == ']' && depth > 0 {
                depth -= 1;
            }
            out.push(c);
            i += 1;
            assert(out@ + py_text(cs@.skip(i as int), depth as nat) =~= done + py_text(rest, d));
        }
    }
    assert(cs@.skip(i as int) =~= seq![]);
    assert(out@ + seq![] =~= out@);
    out
}

/// Whether a Python pattern is found in a line.
pub open spec fn hits(pattern: Seq<char>, line: Seq<char>) -> bool {
    found(py_text(pattern, 0), line) == Some(true)
}

/// Whether a Python pattern is found in a line.
fn hit(pattern: &str, line: &str) -> (r: bool)
    ensures
        r == hits(pattern@, line@),
{
    match regex_is_match(py(pattern).as_str(), line) {
        Some(b) => b,
        None => false,
    }
}

/// Whether a line has a digit behind the first match of `prefix`, and `full` is found in it.
pub open spec fn dated(prefix: Seq<char>, full: Seq<char>, line: Seq<char>) -> bool {
    (behind(py_text(prefix, 0), line) matches Some(Some(rest)) && hits(DIGIT@, rest)) && hits(
        full,
        line,
    )
}

/// Whether a line has a digit behind the first match of `prefix`, and `full` is found in it.
fn is_dated(prefix: &str, full: &str, line: &str) -> (r: bool)
    ensures
        r == dated(prefix@, full@, line@),
{
    match regex_find(py(prefix).as_str(), line) {
        Some(Some(rest)) => hit(DIGIT, rest.as_str()) && hit(full, line),
        _ => false,
    }
}

/// Whether a line starts quoted history.
pub open spec fn quotes(line: Seq<char>) -> bool {
    hits(ON_WROTE@, line) || hits(FORWARDED@, line) || hits(FORWARDED_PT_ES@, line) || hits(
        RULE@,
        line,
    ) || hits(FROM@, line) || hits(DE_ADDRESS@, line) || dated(EM@, EM_WROTE@, line) || dated(
        EL@,
        EL_WROTE@,
        line,
    )
}

/// Whether a line starts quoted history.
fn is_quote(line: &str) -> (r: bool)
    ensures
        r == quotes(line@),
{
    hit(ON_WROTE, line) || hit(FORWARDED, line) || hit(FORWARDED_PT_ES, line) || hit(RULE, line)
        || hit(FROM, line) || hit(DE_ADDRESS, line) || is_dated(EM, EM_WROTE, line) || is_dated(
        EL,
        EL_WROTE,
        line,
    )
}

/// Whether a line is a sign-off, by how long it is without the space around it and what is found
/// in it: a short one of those that start a signature, or a device's footer.
pub open spec fn is_closing(n: int, phrase: bool, footer: bool) -> bool {
    (n <= 40 && phrase) || (n <= 60 && footer)
}

/// Whether a line is a sign-off, by how long it is without the space around it and what is found
/// in it.
pub fn closing(n: usize, phrase: bool, footer: bool) -> (r: bool)
    ensures
        r == is_closing(n as int, phrase, footer),
{
    (n <= 40 && phrase) || (n <= 60 && footer)
}

/// Whether a phrase that starts a signature is found in a line.
pub open spec fn parts_with(line: Seq<char>) -> bool {
    hits(DASHES@, line) || hits(REGARDS@, line) || hits(SENT_FROM@, line) || hits(SALUTATION@, line)
}

/// Whether a line is a sign-off.
pub open spec fn signs_off(line: Seq<char>) -> bool {
    is_closing(
        trimmed(line, Class::Python).len() as int,
        parts_with(line),
        hits(DEVICE_FOOTER@, line),
    )
}

/// Whether a line is a sign-off.
fn is_sign_off(line: &str) -> (r: bool)
    ensures
        r == signs_off(line@),
{
    let n: usize = trim(&chars_of(line), Class::Python).len();
    let phrase = n <= 40 && (hit(DASHES, line) || hit(REGARDS, line) || hit(SENT_FROM, line) || hit(
        SALUTATION,
        line,
    ));
    let footer = !phrase && n <= 60 && hit(DEVICE_FOOTER, line);
    closing(n, phrase, footer)
}

/// Whether a character ends a sentence.
pub open spec fn stops(c: char) -> bool {
    c == '.' || c == '!' || c == '?'
}

/// The first space behind a stop, or the length.
pub open spec fn break_at(s: Seq<char>, i: int) -> int
    decreases s.len() - i,
{
    if i >= s.len() {
        s.len() as int
    } else if i > 0 && stops(s[i - 1]) && in_class(s[i], Class::Python) {
        i
    } else {
        break_at(s, i + 1)
    }
}

/// A break is within the text.
proof fn break_bound(s: Seq<char>, i: int)
    requires
        0 <= i <= s.len(),
    ensures
        i <= break_at(s, i) <= s.len(),
        break_at(s, i) < s.len() ==> break_at(s, i) > 0 && in_class(
            s[break_at(s, i)],
            Class::Python,
        ),
    decreases s.len() - i,
{
    if i < s.len() && !(i > 0 && stops(s[i - 1]) && in_class(s[i], Class::Python)) {
        break_bound(s, i + 1);
    }
}

/// Trimming does not lengthen.
proof fn trim_start_bound(s: Seq<char>, k: Class)
    ensures
        trim_start(s, k).len() <= s.len(),
    decreases s.len(),
{
    if s.len() > 0 && in_class(s[0], k) {
        trim_start_bound(s.drop_first(), k);
    }
}

/// The sentences of a text: it is split at every run of space that follows a full stop, a question
/// mark or an exclamation mark.
pub open spec fn sentences_of(s: Seq<char>) -> Seq<Seq<char>>
    decreases s.len(),
{
    let i = break_at(s, 0);
    if i <= 0 || i >= s.len() {
        seq![s]
    } else {
        let rest = trim_start(s.skip(i), Class::Python);
        if rest.len() < s.len() {
            seq![s.take(i)] + sentences_of(rest)
        } else {
            seq![s]
        }
    }
}

/// The sentences of a text.
pub fn sentences(text: &str) -> (r: Vec<String>)
    ensures
        texts(r@) == sentences_of(text@),
{
    let mut rest = chars_of(text);
    let mut out: Vec<String> = Vec::new();
    assert(texts(out@) + sentences_of(rest@) =~= sentences_of(text@));
    loop
        invariant
            texts(out@) + sentences_of(rest@) == sentences_of(text@),
        decreases rest@.len(),
    {
        let ghost s = rest@;
        let ghost so_far = texts(out@);
        let mut i: usize = 0;
        while i < rest.len() && !(i > 0 && (rest[i - 1] == '.' || rest[i - 1] == '!' || rest[i - 1]
            == '?') && space(rest[i]))
            invariant
                i <= rest@.len(),
                rest@ == s,
                break_at(s, 0) == break_at(s, i as int),
            decreases rest@.len() - i,
        {
            i += 1;
        }
        assert(break_at(s, 0) == i);
        if i == rest.len() {
            let last = text_of(&rest);
            out.push(last);
            assert(texts(out@) =~= so_far + seq![s]);
            return out;
        }
        let first = text_of(&piece(&rest, 0, i));
        assert(first@ =~= s.take(i as int));
        out.push(first);
        assert(texts(out@) =~= so_far.push(s.take(i as int)));
        let tail = piece(&rest, i, rest.len());
        assert(tail@ =~= s.skip(i as int));
        rest = trim_left(&tail, Class::Python);
        proof {
            trim_start_bound(tail@, Class::Python);
            assert(texts(out@) + sentences_of(rest@) =~= so_far + (seq![s.take(i as int)]
                + sentences_of(rest@)));
        }
    }
}

/// The first letter of a line.
pub open spec fn first_letter(s: Seq<char>) -> Option<char>
    decreases s.len(),
{
    if s.len() == 0 {
        None
    } else if alphabetic(s[0]) {
        Some(s[0])
    } else {
        first_letter(s.drop_first())
    }
}

/// Whether the first letter of a line is upper case.
pub open spec fn fresh(s: Seq<char>) -> bool {
    first_letter(s) matches Some(c) && uppercase(c)
}

/// Whether the first letter of a line is upper case: a new sentence, not a wrapped line.
pub fn starts_new_sentence(line: &str) -> (r: bool)
    ensures
        r == fresh(line@),
{
    let cs = chars_of(line);
    let mut i: usize = 0;
    assert(cs@.skip(0) =~= cs@);
    while i < cs.len()
        invariant
            i <= cs@.len(),
            cs@ == line@,
            first_letter(cs@) == first_letter(cs@.skip(i as int)),
        decreases cs@.len() - i,
    {
        assert(cs@.skip(i as int)[0] == cs@[i as int]);
        assert(cs@.skip(i as int).drop_first() =~= cs@.skip(i + 1));
        if cs[i].is_alphabetic() {
            return cs[i].is_uppercase();
        }
        i += 1;
    }
    false
}

/// The pieces of the first `n` lines, and the one that is still growing: a line that starts a new
/// sentence starts a new piece, and any other is put behind the last with a blank.
pub open spec fn fused(lines: Seq<Seq<char>>, n: int) -> (Seq<Seq<char>>, Seq<char>)
    decreases n,
{
    if n <= 0 {
        (seq![], seq![])
    } else {
        let (done, now) = fused(lines, n - 1);
        let line = trimmed(lines[n - 1], Class::Python);
        if line.len() == 0 {
            (done, now)
        } else if now.len() == 0 {
            (done, line)
        } else if fresh(line) {
            (done.push(now), line)
        } else {
            (done, now + seq![' '] + line)
        }
    }
}

/// The pieces of a sentence that the disclaimer was found in.
pub open spec fn fused_pieces(s: Seq<char>) -> Seq<Seq<char>> {
    let lines = split_by(s, Class::One('\n'));
    if !s.contains('\n') {
        seq![s]
    } else {
        let (done, now) = fused(lines, lines.len() as int);
        if now.len() == 0 {
            done
        } else {
            done.push(now)
        }
    }
}

/// Splits a sentence that the disclaimer was found in at each newline that starts a new sentence,
/// so a request line glued to a footer line survives and a wrapped footer still drops whole.
pub fn split_fused_lines(sentence: &str) -> (r: Vec<String>)
    ensures
        texts(r@) == fused_pieces(sentence@),
{
    let cs = chars_of(sentence);
    let mut any = false;
    let mut i: usize = 0;
    while i < cs.len() && !any
        invariant
            i <= cs@.len(),
            any ==> cs@.contains('\n'),
            !any ==> forall|k: int| 0 <= k < i ==> cs@[k] != '\n',
        decreases cs@.len() - i + if any {
            0int
        } else {
            1
        },
    {
        if cs[i] == '\n' {
            any = true;
        } else {
            i += 1;
        }
    }
    let mut done: Vec<String> = Vec::new();
    if !any {
        done.push(sentence.to_owned());
        assert(texts(done@) =~= fused_pieces(sentence@));
        return done;
    }
    let lines = split(&cs, Class::One('\n'));
    let ghost all = parts(lines@);
    let mut now = String::new();
    let mut k: usize = 0;
    assert(texts(done@) =~= seq![]);
    while k < lines.len()
        invariant
            k <= lines@.len(),
            all == parts(lines@),
            (texts(done@), now@) == fused(all, k as int),
        decreases lines@.len() - k,
    {
        let ghost before = texts(done@);
        let ghost held = now@;
        assert(all[k as int] == lines@[k as int]@);
        let line = text_of(&trim(&lines[k], Class::Python));
        if line.as_str().is_empty() {
        } else if now.as_str().is_empty() {
            now = line;
        } else if starts_new_sentence(line.as_str()) {
            done.push(now);
            assert(texts(done@) =~= before.push(held));
            now = line;
        } else {
            now.push(' ');
            now.append(line.as_str());
            assert(now@ =~= held + seq![' '] + line@);
        }
        k += 1;
    }
    assert(all.len() == lines@.len());
    let ghost before = texts(done@);
    let ghost held = now@;
    if !now.as_str().is_empty() {
        done.push(now);
        assert(texts(done@) =~= before.push(held));
    }
    done
}

/// The texts without the space around them.
pub open spec fn stripped(s: Seq<Seq<char>>) -> Seq<Seq<char>> {
    Seq::new(s.len(), |i: int| trimmed(s[i], Class::Python))
}

/// In which of the texts the disclaimer is found.
pub open spec fn disclaims(s: Seq<Seq<char>>) -> Seq<bool> {
    Seq::new(s.len(), |i: int| hits(DISCLAIMER@, s[i]))
}

/// The pieces of the first `n` texts: those that the disclaimer is found in split further, and
/// empty ones left out.
pub open spec fn split_where(s: Seq<Seq<char>>, found: Seq<bool>, n: int) -> Seq<Seq<char>>
    decreases n,
{
    if n <= 0 {
        seq![]
    } else {
        split_where(s, found, n - 1) + (if s[n - 1].len() == 0 {
            seq![]
        } else if found[n - 1] {
            fused_pieces(s[n - 1])
        } else {
            seq![s[n - 1]]
        })
    }
}

/// The first `n` texts that the disclaimer is not found in.
pub open spec fn kept_where(p: Seq<Seq<char>>, found: Seq<bool>, n: int) -> Seq<Seq<char>>
    decreases n,
{
    if n <= 0 {
        seq![]
    } else if found[n - 1] {
        kept_where(p, found, n - 1)
    } else {
        kept_where(p, found, n - 1).push(p[n - 1])
    }
}

/// The first `n` texts with `sep` between them.
pub open spec fn joined(p: Seq<Seq<char>>, sep: Seq<char>, n: int) -> Seq<char>
    decreases n,
{
    if n <= 0 {
        seq![]
    } else if n == 1 {
        p[0]
    } else {
        joined(p, sep, n - 1) + sep + p[n - 1]
    }
}

/// The first `n` texts with `sep` between them.
fn join(v: &Vec<String>, sep: &str, n: usize) -> (r: String)
    requires
        n <= v@.len(),
    ensures
        r@ == joined(texts(v@), sep@, n as int),
{
    let mut out = String::new();
    let ghost all = texts(v@);
    let mut i: usize = 0;
    assert(out@ =~= joined(all, sep@, 0));
    while i < n
        invariant
            i <= n <= v@.len(),
            all == texts(v@),
            out@ == joined(all, sep@, i as int),
        decreases n - i,
    {
        let ghost before = out@;
        if i > 0 {
            out.append(sep);
        }
        out.append(v[i].as_str());
        i += 1;
        assert(out@ =~= joined(all, sep@, i as int));
    }
    out
}

/// A paragraph without its disclaimer sentences.
pub open spec fn disclaimed(p: Seq<char>) -> Seq<char> {
    if !hits(DISCLAIMER@, p) {
        p
    } else {
        let s = stripped(sentences_of(p));
        let all = split_where(s, disclaims(s), s.len() as int);
        let kept = kept_where(all, disclaims(all), all.len() as int);
        joined(kept, " "@, kept.len() as int)
    }
}

/// The pieces of sentences without the space around them, by which of them the disclaimer is found
/// in: those are split further, and empty ones are left out.
pub fn sentence_pieces(list: &Vec<String>, found: &Vec<bool>) -> (r: Vec<String>)
    requires
        found@.len() == list@.len(),
    ensures
        texts(r@) == split_where(texts(list@), found@, list@.len() as int),
{
    let ghost s = texts(list@);
    let mut all: Vec<String> = Vec::new();
    let mut i: usize = 0;
    assert(texts(all@) =~= split_where(s, found@, 0));
    while i < list.len()
        invariant
            i <= list@.len(),
            found@.len() == list@.len(),
            s == texts(list@),
            texts(all@) == split_where(s, found@, i as int),
        decreases list@.len() - i,
    {
        let ghost before = texts(all@);
        assert(s[i as int] == list@[i as int]@);
        let p = list[i].as_str();
        if p.is_empty() {
            assert(texts(all@) =~= before + seq![]);
        } else if found[i] {
            let mut more = split_fused_lines(p);
            let ghost listed = all@;
            let ghost added = more@;
            all.append(&mut more);
            assert(all@ =~= listed + added);
            assert(texts(all@) =~= before + texts(added));
        } else {
            all.push(p.to_owned());
            assert(texts(all@) =~= before + seq![p@]);
        }
        i += 1;
    }
    all
}

/// The pieces that the disclaimer is not found in, with a space between them.
pub fn kept_pieces(list: &Vec<String>, found: &Vec<bool>) -> (r: String)
    requires
        found@.len() == list@.len(),
    ensures
        ({
            let kept = kept_where(texts(list@), found@, list@.len() as int);
            r@ == joined(kept, " "@, kept.len() as int)
        }),
{
    let ghost av = texts(list@);
    let mut kept: Vec<String> = Vec::new();
    let mut k: usize = 0;
    assert(texts(kept@) =~= kept_where(av, found@, 0));
    while k < list.len()
        invariant
            k <= list@.len(),
            found@.len() == list@.len(),
            av == texts(list@),
            texts(kept@) == kept_where(av, found@, k as int),
        decreases list@.len() - k,
    {
        let ghost before = texts(kept@);
        assert(av[k as int] == list@[k as int]@);
        if !found[k] {
            kept.push(list[k].as_str().to_owned());
            assert(texts(kept@) =~= before.push(av[k as int]));
        }
        k += 1;
    }
    assert(texts(kept@).len() == kept@.len());
    join(&kept, " ", kept.len())
}

/// In which of the texts the disclaimer is found.
fn disclaimers(list: &Vec<String>) -> (r: Vec<bool>)
    ensures
        r@ == disclaims(texts(list@)),
{
    let mut r: Vec<bool> = Vec::new();
    let mut i: usize = 0;
    while i < list.len()
        invariant
            i <= list@.len(),
            r@ == disclaims(texts(list@)).take(i as int),
        decreases list@.len() - i,
    {
        assert(texts(list@)[i as int] == list@[i as int]@);
        r.push(hit(DISCLAIMER, list[i].as_str()));
        i += 1;
        assert(r@ =~= disclaims(texts(list@)).take(i as int));
    }
    assert(r@ =~= disclaims(texts(list@)));
    r
}

/// Drops the disclaimer sentences from one paragraph, and keeps the rest.
pub fn strip_disclaimer(paragraph: &str) -> (r: String)
    ensures
        r@ == disclaimed(paragraph@),
{
    if !hit(DISCLAIMER, paragraph) {
        return paragraph.to_owned();
    }
    let list = sentences(paragraph);
    let ghost s = stripped(texts(list@));
    let mut bare: Vec<String> = Vec::new();
    let mut i: usize = 0;
    while i < list.len()
        invariant
            i <= list@.len(),
            s == stripped(texts(list@)),
            texts(bare@) == s.take(i as int),
        decreases list@.len() - i,
    {
        let ghost before = texts(bare@);
        assert(texts(list@)[i as int] == list@[i as int]@);
        let p = strip(list[i].as_str());
        let ghost shown = p@;
        bare.push(p);
        i += 1;
        assert(texts(bare@) =~= before.push(shown));
        assert(texts(bare@) =~= s.take(i as int));
    }
    assert(s.take(i as int) =~= s);
    assert(texts(bare@).len() == bare@.len());
    let all = sentence_pieces(&bare, &disclaimers(&bare));
    assert(texts(all@).len() == all@.len());
    kept_pieces(&all, &disclaimers(&all))
}

/// The first `n` characters of a text.
pub open spec fn head_of(s: Seq<char>, n: int) -> Seq<char> {
    if n < s.len() {
        s.take(n)
    } else {
        s
    }
}

/// The first `n` characters of `s`.
pub fn head(s: &str, n: usize) -> (r: String)
    ensures
        r@ == head_of(s@, n as int),
{
    let cs = chars_of(s);
    if n < cs.len() {
        let t = piece(&cs, 0, n);
        assert(t@ =~= s@.take(n as int));
        text_of(&t)
    } else {
        s.to_owned()
    }
}

/// A body with its line ends as newlines, written out ones too.
pub open spec fn with_newlines(body: Seq<char>) -> Seq<char> {
    replaced(replaced(replaced(body, "\r\n"@, "\n"@), "\r"@, "\n"@), "\\n"@, "\n"@)
}

/// Whether a line is quoted with a `>`.
pub open spec fn quoted(line: Seq<char>) -> bool {
    let t = trim_start(line, Class::Python);
    t.len() > 0 && t[0] == '>'
}

/// What the patterns find in a line of a body.
#[derive(Debug, Clone, Copy, PartialEq, Eq, Structural)]
pub struct Marks {
    /// Whether it starts quoted history.
    pub quote: bool,
    /// Whether it is a name header with a date header behind it.
    pub header: bool,
    /// Whether it is the tail of an attribution.
    pub tail: bool,
    /// Whether the line kept before it is the head of one.
    pub head: bool,
}

/// The kept lines behind a line, and whether the message goes on: it ends where quoted history
/// starts, and the head of an attribution goes with its tail. Quoted lines are left out.
pub open spec fn taken(lines: Seq<Seq<char>>, line: Seq<char>, m: Marks) -> (Seq<Seq<char>>, bool) {
    if lines.len() > 0 && (m.quote || m.header) {
        (lines, false)
    } else if lines.len() > 0 && m.tail {
        (
            if m.head {
                lines.drop_last()
            } else {
                lines
            },
            false,
        )
    } else if quoted(line) {
        (lines, true)
    } else {
        (lines.push(trim_end(line, Class::Python)), true)
    }
}

/// Takes a line into a message, by what the patterns find in it. Whether the message goes on.
pub fn take_line(lines: &mut Vec<String>, line: &str, m: Marks) -> (on: bool)
    ensures
        (texts(final(lines)@), on) == taken(texts(old(lines)@), line@, m),
{
    let ghost kept = texts(lines@);
    let some = lines.len() > 0;
    if some && (m.quote || m.header) {
        return false;
    }
    if some && m.tail {
        if m.head {
            let _last = lines.pop();
            assert(texts(lines@) =~= kept.drop_last());
        }
        return false;
    }
    let cs = chars_of(line);
    let t = trim_left(&cs, Class::Python);
    if !(t.len() > 0 && t[0] == '>') {
        let bare = text_of(&trim_right(&cs, Class::Python));
        let ghost shown = bare@;
        lines.push(bare);
        assert(texts(lines@) =~= kept.push(shown));
    }
    true
}

/// What the patterns find in line `i`, with `lines` kept before it.
pub open spec fn marks_of(src: Seq<Seq<char>>, i: int, lines: Seq<Seq<char>>) -> Marks {
    Marks {
        quote: quotes(src[i]),
        header: hits(DE_NAME@, src[i]) && i + 1 < src.len() && hits(HEADER_NEXT@, src[i + 1]),
        tail: hits(ATTRIBUTION_TAIL@, src[i]),
        head: lines.len() > 0 && dated(ATTRIBUTION_HEAD@, ATTRIBUTION_HEAD@, lines.last()),
    }
}

/// The lines of the new message, from line `i` on with `lines` kept so far.
pub open spec fn message(src: Seq<Seq<char>>, i: int, lines: Seq<Seq<char>>) -> Seq<Seq<char>>
    decreases src.len() - i,
{
    if i >= src.len() {
        lines
    } else {
        let (next, on) = taken(lines, src[i], marks_of(src, i, lines));
        if on {
            message(src, i + 1, next)
        } else {
            next
        }
    }
}

/// The first line that a signature may start at: three fifths down or eight from the end,
/// whichever is earlier, but never the first.
pub open spec fn cut_from(n: int) -> int {
    let a = if 3 * n / 5 < n - 8 {
        3 * n / 5
    } else {
        n - 8
    };
    if a > 1 {
        a
    } else {
        1
    }
}

/// The first sign-off from line `i` on, or the end.
pub open spec fn cut_at(lines: Seq<Seq<char>>, i: int) -> int
    decreases lines.len() - i,
{
    if i >= lines.len() {
        lines.len() as int
    } else if signs_off(lines[i]) {
        i
    } else {
        cut_at(lines, i + 1)
    }
}

/// How many of the answers stand before the first that is true.
pub open spec fn first_true(v: Seq<bool>) -> int
    decreases v.len(),
{
    if v.len() == 0 || v[0] {
        0
    } else {
        1 + first_true(v.drop_first())
    }
}

/// The first `n` paragraphs without the space around them, and without those that are empty.
pub open spec fn full_paragraphs(p: Seq<Seq<char>>, n: int) -> Seq<Seq<char>>
    decreases n,
{
    if n <= 0 {
        seq![]
    } else {
        let t = trimmed(p[n - 1], Class::Python);
        if t.len() == 0 {
            full_paragraphs(p, n - 1)
        } else {
            full_paragraphs(p, n - 1).push(t)
        }
    }
}

/// The paragraphs without their disclaimers.
pub open spec fn without_disclaimers(p: Seq<Seq<char>>) -> Seq<Seq<char>> {
    Seq::new(p.len(), |i: int| disclaimed(p[i]))
}

/// The paragraphs of a text: the pieces it was split into, or the whole text where it was not
/// split.
pub open spec fn split_or_whole(whole: Seq<char>, p: Option<Seq<Seq<char>>>) -> Seq<Seq<char>> {
    match p {
        Some(p) => p,
        None => seq![whole],
    }
}

/// The text of paragraphs.
pub open spec fn text_of_paragraphs(p: Seq<Seq<char>>) -> Seq<char> {
    let kept = full_paragraphs(p, p.len() as int);
    joined(kept, "\n\n"@, kept.len() as int)
}

/// A text after a replacement, or as it was where there was none.
pub open spec fn changed(text: Seq<char>, with: Option<Seq<char>>) -> Seq<char> {
    match with {
        Some(t) => t,
        None => text,
    }
}

/// The text of a message's lines: up to the signature, paragraph by paragraph, with runs of blanks
/// made one.
pub open spec fn text_of_lines(lines: Seq<Seq<char>>) -> Seq<char> {
    let whole = joined(lines, "\n"@, cut_at(lines, cut_from(lines.len() as int)));
    let p = split_or_whole(whole, pieces(py_text(PARAGRAPH@, 0), whole));
    let text = text_of_paragraphs(without_disclaimers(p));
    changed(text, swapped(py_text(BLANKS@, 0), text, " "@))
}

/// A cleaned body.
pub open spec fn cleaned(body: Seq<char>, max_chars: int) -> Seq<char> {
    let most = if max_chars * 4 > usize::MAX {
        usize::MAX as int
    } else {
        max_chars * 4
    };
    let text = head_of(with_newlines(body), most);
    let lines = message(split_by(text, Class::One('\n')), 0, seq![]);
    head_of(text_of_lines(lines), max_chars)
}

/// The lines of the new message.
fn message_lines(src: &Vec<String>) -> (r: Vec<String>)
    ensures
        texts(r@) == message(texts(src@), 0, seq![]),
{
    let ghost all = texts(src@);
    let mut lines: Vec<String> = Vec::new();
    let mut i: usize = 0;
    assert(texts(lines@) =~= seq![]);
    while i < src.len()
        invariant
            i <= src@.len(),
            all == texts(src@),
            message(all, i as int, texts(lines@)) == message(all, 0, seq![]),
        decreases src@.len() - i,
    {
        let ghost kept = texts(lines@);
        let line = src[i].as_str();
        assert(all[i as int] == line@);
        let some = lines.len() > 0;
        let quote = some && is_quote(line);
        let mut header = some && !quote && hit(DE_NAME, line) && i + 1 < src.len();
        if header {
            assert(all[i + 1] == src@[i + 1]@);
            header = hit(HEADER_NEXT, src[i + 1].as_str());
        }
        let tail = some && !quote && !header && hit(ATTRIBUTION_TAIL, line);
        let mut head = false;
        if tail {
            assert(kept.last() == lines@[lines@.len() - 1]@);
            head =
            is_dated(ATTRIBUTION_HEAD, ATTRIBUTION_HEAD, lines[lines.len() - 1].as_str());
        }
        let m = Marks { quote, header, tail, head };
        assert(taken(kept, line@, m) == taken(kept, line@, marks_of(all, i as int, kept)));
        if !take_line(&mut lines, line, m) {
            return lines;
        }
        i += 1;
    }
    lines
}

/// The first line that a signature may start at.
pub fn signature_start(n: usize) -> (r: usize)
    ensures
        r == cut_from(n as int),
{
    let three: usize = n / 5 * 3 + n % 5 * 3 / 5;
    assert(three == 3 * n / 5);
    let from: usize = if n < 8 {
        0
    } else if three < n - 8 {
        three
    } else {
        n - 8
    };
    if from < 1 {
        1
    } else {
        from
    }
}

/// The line that a signature starts at among `n` lines, or the end, by which of the lines from
/// [`signature_start`] on are sign-offs. The lines behind the first sign-off need no answer.
pub fn signature_at(n: usize, signs: &Vec<bool>) -> (r: usize)
    requires
        signs@.len() == 0 || cut_from(n as int) + signs@.len() <= n,
    ensures
        r <= n,
        r == if first_true(signs@) < signs@.len() {
            cut_from(n as int) + first_true(signs@)
        } else {
            n as int
        },
{
    let from: usize = signature_start(n);
    let mut i: usize = 0;
    assert(signs@.skip(0) =~= signs@);
    while i < signs.len()
        invariant
            i <= signs@.len(),
            signs@.len() == 0 || from + signs@.len() <= n,
            from == cut_from(n as int),
            first_true(signs@) == i + first_true(signs@.skip(i as int)),
        decreases signs@.len() - i,
    {
        if signs[i] {
            return from + i;
        }
        assert(signs@.skip(i as int).drop_first() =~= signs@.skip(i + 1));
        i += 1;
    }
    n
}

/// An answer that is not true counts among those before the first that is.
proof fn first_true_push(v: Seq<bool>, b: bool)
    requires
        first_true(v) == v.len(),
    ensures
        first_true(v.push(b)) == if b {
            v.len() as int
        } else {
            v.len() as int + 1
        },
    decreases v.len(),
{
    if v.len() > 0 {
        first_true_push(v.drop_first(), b);
        assert(v.push(b).drop_first() =~= v.drop_first().push(b));
    } else {
        assert(v.push(b).drop_first() =~= seq![]);
        reveal_with_fuel(first_true, 2);
    }
}

/// The line that a signature starts at, or the end.
fn signature_line(lines: &Vec<String>) -> (r: usize)
    ensures
        r <= lines@.len(),
        r == cut_at(texts(lines@), cut_from(lines@.len() as int)),
{
    let ghost all = texts(lines@);
    let n: usize = lines.len();
    let from: usize = signature_start(n);
    let mut signs: Vec<bool> = Vec::new();
    let mut i: usize = from;
    while i < n
        invariant
            n == lines@.len(),
            all == texts(lines@),
            from == cut_from(n as int),
            i == from + signs@.len(),
            i <= n || signs@.len() == 0,
            first_true(signs@) == signs@.len(),
            cut_at(all, i as int) == cut_at(all, from as int),
        decreases n - i,
    {
        assert(all[i as int] == lines@[i as int]@);
        let sign = is_sign_off(lines[i].as_str());
        proof {
            first_true_push(signs@, sign);
        }
        signs.push(sign);
        if sign {
            return signature_at(n, &signs);
        }
        i += 1;
    }
    signature_at(n, &signs)
}

/// The paragraphs of a text, by the pieces it was split into.
pub fn paragraphs(whole: &str, found: Option<Vec<String>>) -> (r: Vec<String>)
    ensures
        texts(r@) == split_or_whole(
            whole@,
            match found {
                Some(v) => Some(texts(v@)),
                None => None,
            },
        ),
{
    match found {
        Some(v) => v,
        None => {
            let mut v: Vec<String> = Vec::new();
            v.push(whole.to_owned());
            assert(texts(v@) =~= seq![whole@]);
            v
        },
    }
}

/// The text of paragraphs: each without the space around it, the empty ones left out, and an empty
/// line between them.
pub fn paragraphs_text(list: &Vec<String>) -> (r: String)
    ensures
        r@ == text_of_paragraphs(texts(list@)),
{
    let ghost p = texts(list@);
    let mut kept: Vec<String> = Vec::new();
    let mut i: usize = 0;
    assert(texts(kept@) =~= full_paragraphs(p, 0));
    while i < list.len()
        invariant
            i <= list@.len(),
            p == texts(list@),
            texts(kept@) == full_paragraphs(p, i as int),
        decreases list@.len() - i,
    {
        let ghost before = texts(kept@);
        assert(p[i as int] == list@[i as int]@);
        let t = strip(list[i].as_str());
        if !t.as_str().is_empty() {
            let ghost shown = t@;
            kept.push(t);
            assert(texts(kept@) =~= before.push(shown));
        }
        i += 1;
    }
    assert(p.len() == list@.len());
    assert(texts(kept@).len() == kept@.len());
    join(&kept, "\n\n", kept.len())
}

/// The first `max_chars` characters of a text after a replacement, or of the text as it was where
/// there was none.
pub fn finished(text: String, with: Option<String>, max_chars: usize) -> (r: String)
    ensures
        r@ == head_of(
            changed(
                text@,
                match with {
                    Some(t) => Some(t@),
                    None => None,
                },
            ),
            max_chars as int,
        ),
{
    match with {
        Some(t) => head(t.as_str(), max_chars),
        None => head(text.as_str(), max_chars),
    }
}

/// The first `max_chars` characters of the text of a message's lines.
fn lines_text(lines: &Vec<String>, max_chars: usize) -> (r: String)
    ensures
        r@ == head_of(text_of_lines(texts(lines@)), max_chars as int),
{
    let cut: usize = signature_line(lines);
    let whole = join(lines, "\n", cut);
    let list = paragraphs(whole.as_str(), regex_split(py(PARAGRAPH).as_str(), whole.as_str()));
    let ghost p = without_disclaimers(texts(list@));
    let mut bare: Vec<String> = Vec::new();
    let mut i: usize = 0;
    while i < list.len()
        invariant
            i <= list@.len(),
            p == without_disclaimers(texts(list@)),
            texts(bare@) == p.take(i as int),
        decreases list@.len() - i,
    {
        let ghost before = texts(bare@);
        assert(texts(list@)[i as int] == list@[i as int]@);
        let t = strip_disclaimer(list[i].as_str());
        let ghost shown = t@;
        bare.push(t);
        i += 1;
        assert(texts(bare@) =~= before.push(shown));
        assert(texts(bare@) =~= p.take(i as int));
    }
    assert(p.take(i as int) =~= p);
    let text = paragraphs_text(&bare);
    proof {
        reveal_strlit(" ");
        assert(!" "@.contains('$'));
    }
    let with = regex_replace_all(py(BLANKS).as_str(), text.as_str(), " ");
    finished(text, with, max_chars)
}

/// Lists of characters as strings.
fn as_strings(v: &Vec<Vec<char>>) -> (r: Vec<String>)
    ensures
        texts(r@) == parts(v@),
{
    let mut r: Vec<String> = Vec::new();
    let mut i: usize = 0;
    while i < v.len()
        invariant
            i <= v@.len(),
            texts(r@) == parts(v@).take(i as int),
        decreases v@.len() - i,
    {
        let ghost before = texts(r@);
        let t = text_of(&v[i]);
        let ghost shown = t@;
        r.push(t);
        i += 1;
        assert(texts(r@) =~= before.push(shown));
        assert(texts(r@) =~= parts(v@).take(i as int));
    }
    assert(parts(v@).take(i as int) =~= parts(v@));
    r
}

/// Removes quoted history, signatures and disclaimers, and keeps at most `max_chars` characters.
/// The default is [`MAX_CHARS`].
pub fn clean_email_body(body: &str, max_chars: usize) -> (r: String)
    ensures
        r@ == cleaned(body@, max_chars as int),
        r@.len() <= max_chars,
{
    let text = replace(
        replace(replace(body, "\r\n", "\n").as_str(), "\r", "\n").as_str(),
        "\\n",
        "\n",
    );
    let most: usize = if max_chars > usize::MAX / 4 {
        usize::MAX
    } else {
        max_chars * 4
    };
    let bounded = head(text.as_str(), most);
    let src = as_strings(&split(&chars_of(bounded.as_str()), Class::One('\n')));
    let lines = message_lines(&src);
    lines_text(&lines, max_chars)
}

/// The fields of the first `n` extra entries that are not null set in `m`.
pub open spec fn with_extra(m: Seq<(Seq<char>, Value)>, extra: Seq<(Seq<char>, Value)>, n: int) -> Seq<
    (Seq<char>, Value),
>
    decreases n,
{
    if n <= 0 {
        m
    } else {
        let before = with_extra(m, extra, n - 1);
        if extra[n - 1].1 == Value::Null {
            before
        } else {
            put(before, extra[n - 1].0, extra[n - 1].1)
        }
    }
}

/// The subject, the body and the sender of an email state.
pub open spec fn email_fields(subject: Seq<char>, body: Seq<char>, sender: Option<Seq<char>>) -> Seq<
    (Seq<char>, Value),
> {
    let base = seq![
        ("subject"@, Value::Str(trimmed(subject, Class::Python))),
        ("body"@, Value::Str(body)),
    ];
    match sender {
        Some(s) => if s.len() == 0 {
            base
        } else {
            base.push(("from"@, Value::Str(s)))
        },
        None => base,
    }
}

/// A state for email questions: the subject, the body, cleaned when `clean`, the sender when there
/// is one, and any other fields, which replace these when they share a name. Fields whose value is
/// null are left out.
pub fn email_state(
    subject: &str,
    body: &str,
    sender: Option<&str>,
    clean: bool,
    extra: &Vec<(String, Json)>,
) -> (r: Vec<(String, Json)>)
    ensures
        ({
            let text = if clean {
                cleaned(body@, MAX_CHARS as int)
            } else {
                body@
            };
            let from = match sender {
                Some(s) => Some(s@),
                None => None,
            };
            entries(r@) == with_extra(
                email_fields(subject@, text, from),
                entries(extra@),
                extra@.len() as int,
            )
        }),
{
    let mut m: Vec<(String, Json)> = Vec::new();
    let text = if clean {
        clean_email_body(body, MAX_CHARS)
    } else {
        body.to_owned()
    };
    let ghost tv = text@;
    let ghost from = match sender {
        Some(s) => Some(s@),
        None => None::<Seq<char>>,
    };
    m.push(("subject".to_owned(), Json::Str(strip(subject))));
    m.push(("body".to_owned(), Json::Str(text)));
    if let Some(s) = sender {
        if !s.is_empty() {
            m.push(("from".to_owned(), Json::Str(s.to_owned())));
        }
    }
    let ghost base = email_fields(subject@, tv, from);
    assert(entries(m@) =~= base);
    let ghost e = entries(extra@);
    let mut i: usize = 0;
    while i < extra.len()
        invariant
            i <= extra@.len(),
            e == entries(extra@),
            entries(m@) == with_extra(base, e, i as int),
        decreases extra@.len() - i,
    {
        let pair = &extra[i];
        assert(e[i as int] == (pair.0@, pair.1@));
        if !pair.1.is_null() {
            insert(&mut m, pair.0.as_str(), pair.1.copy());
        }
        i += 1;
    }
    m
}

/// Whether a text is a line of the source without the space at its end.
pub open spec fn is_line(src: Seq<Seq<char>>, t: Seq<char>) -> bool {
    exists|j: int| 0 <= j < src.len() && t == trim_end(#[trigger] src[j], Class::Python)
}

/// Nothing is added to a message: every kept line is a line of the source without the space at its
/// end.
pub proof fn a_message_is_made_of_its_lines(src: Seq<Seq<char>>, i: int, lines: Seq<Seq<char>>)
    requires
        0 <= i <= src.len(),
        forall|k: int| 0 <= k < lines.len() ==> is_line(src, #[trigger] lines[k]),
    ensures
        forall|k: int|
            0 <= k < message(src, i, lines).len() ==> is_line(
                src,
                #[trigger] message(src, i, lines)[k],
            ),
    decreases src.len() - i,
{
    if i < src.len() {
        let next = lines.push(trim_end(src[i], Class::Python));
        assert(is_line(src, trim_end(src[i], Class::Python)));
        assert forall|k: int| 0 <= k < next.len() implies is_line(src, #[trigger] next[k]) by {
            if k < lines.len() {
                assert(next[k] == lines[k]);
            }
        }
        a_message_is_made_of_its_lines(src, i + 1, lines);
        a_message_is_made_of_its_lines(src, i + 1, next);
        let all = message(src, i, lines);
        assert(all == lines || (lines.len() > 0 && all == lines.drop_last()) || all == message(
            src,
            i + 1,
            lines,
        ) || all == message(src, i + 1, next));
        assert forall|k: int| 0 <= k < all.len() implies is_line(src, #[trigger] all[k]) by {
            if lines.len() > 0 && all == lines.drop_last() {
                assert(all[k] == lines[k]);
            }
        }
    }
}

/// No disclaimer survives: it is found in none of the pieces that are kept of a paragraph.
pub proof fn no_kept_piece_is_a_disclaimer(p: Seq<Seq<char>>, n: int, k: int)
    requires
        0 <= n <= p.len(),
        0 <= k < kept_where(p, disclaims(p), n).len(),
    ensures
        !hits(DISCLAIMER@, kept_where(p, disclaims(p), n)[k]),
    decreases n,
{
    if n > 0 {
        let before = kept_where(p, disclaims(p), n - 1);
        if k < before.len() {
            no_kept_piece_is_a_disclaimer(p, n - 1, k);
        }
    }
}

/// A text with every line end written as `end`.
pub open spec fn ended(s: Seq<char>, end: Seq<char>) -> Seq<char>
    decreases s.len(),
{
    if s.len() == 0 {
        seq![]
    } else if s[0] == '\n' {
        end + ended(s.drop_first(), end)
    } else {
        seq![s[0]] + ended(s.drop_first(), end)
    }
}

/// Line ends written as something whose first character the text does not have read back.
proof fn ends_read_back(s: Seq<char>, end: Seq<char>)
    requires
        end.len() > 0,
        !s.contains(end[0]),
    ensures
        replaced(ended(s, end), end, seq!['\n']) == s,
    decreases s.len(),
{
    if s.len() > 0 {
        let rest = s.drop_first();
        let all = ended(s, end);
        assert(!rest.contains(end[0])) by {
            if rest.contains(end[0]) {
                let i = choose|i: int| 0 <= i < rest.len() && rest[i] == end[0];
                assert(s[i + 1] == end[0]);
            }
        }
        ends_read_back(rest, end);
        assert(s.contains(s[0]));
        if s[0] == '\n' {
            assert(all.subrange(0, end.len() as int) =~= end);
            assert(has_at(all, end, 0));
            assert(all.skip(end.len() as int) =~= ended(rest, end));
        } else {
            assert(all[0] == s[0]);
            if has_at(all, end, 0) {
                assert(all.subrange(0, end.len() as int)[0] == end[0]);
            }
            assert(all.drop_first() =~= ended(rest, end));
        }
        assert(seq![s[0]] + rest =~= s);
    } else {
        assert(s =~= seq![]);
    }
}

/// A pattern whose first character a text does not have stands nowhere in it.
proof fn first_is_missing(s: Seq<char>, p: Seq<char>)
    requires
        p.len() > 0,
        !s.contains(p[0]),
    ensures
        replaced(s, p, seq!['\n']) == s,
{
    assert forall|i: int| !#[trigger] has_at(s, p, i) by {
        if has_at(s, p, i) {
            assert(s.subrange(i, i + p.len())[0] == s[i]);
            assert(s.contains(p[0]));
        }
    }
    replaced_absent(s, p, seq!['\n']);
}

/// What a text with its line ends written otherwise holds: nothing that the text and the end do
/// not, and no line end that the end has not.
proof fn ended_holds(s: Seq<char>, end: Seq<char>, c: char)
    requires
        ended(s, end).contains(c),
    ensures
        end.contains(c) || (s.contains(c) && c != '\n'),
    decreases s.len(),
{
    let all = ended(s, end);
    let i = choose|i: int| 0 <= i < all.len() && all[i] == c;
    if s.len() > 0 {
        let rest = s.drop_first();
        let n = if s[0] == '\n' {
            end.len() as int
        } else {
            1
        };
        if i < n {
            if s[0] == '\n' {
                assert(end[i] == c);
            } else {
                assert(s[0] == c);
            }
        } else {
            assert(ended(rest, end)[i - n] == c);
            ended_holds(rest, end, c);
            if rest.contains(c) {
                let k = choose|k: int| 0 <= k < rest.len() && rest[k] == c;
                assert(s[k + 1] == c);
            }
        }
    }
}

/// How line ends are written does not matter: a body without a carriage return is cleaned the same
/// with every line end as CRLF or as CR, and one without a backslash with every line end written
/// out as a backslash and an n.
pub proof fn line_ends_do_not_matter(body: Seq<char>, max_chars: int)
    requires
        !body.contains('\r'),
    ensures
        cleaned(ended(body, seq!['\r', '\n']), max_chars) == cleaned(body, max_chars),
        cleaned(ended(body, seq!['\r']), max_chars) == cleaned(body, max_chars),
        !body.contains('\\') ==> cleaned(ended(body, seq!['\\', 'n']), max_chars) == cleaned(
            body,
            max_chars,
        ),
{
    ends_as_newlines(body);
}

/// The three ways to write a line end come to the same text.
proof fn ends_as_newlines(body: Seq<char>)
    requires
        !body.contains('\r'),
    ensures
        with_newlines(ended(body, seq!['\r', '\n'])) == with_newlines(body),
        with_newlines(ended(body, seq!['\r'])) == with_newlines(body),
        !body.contains('\\') ==> with_newlines(ended(body, seq!['\\', 'n'])) == body,
        !body.contains('\\') ==> with_newlines(body) == body,
{
    reveal_strlit("\r\n");
    reveal_strlit("\r");
    reveal_strlit("\\n");
    reveal_strlit("\n");
    let (crlf, cr, out) = (seq!['\r', '\n'], seq!['\r'], seq!['\\', 'n']);
    assert("\r\n"@ =~= crlf);
    assert("\r"@ =~= cr);
    assert("\\n"@ =~= out);
    assert("\n"@ =~= seq!['\n']);
    first_is_missing(body, crlf);
    first_is_missing(body, cr);
    ends_read_back(body, crlf);
    ends_read_back(body, cr);
    let c = ended(body, cr);
    assert forall|i: int| !#[trigger] has_at(c, crlf, i) by {
        if has_at(c, crlf, i) {
            assert(c.subrange(i, i + 2)[1] == c[i + 1]);
            ended_holds(body, cr, '\n');
            assert(cr[0] != '\n');
        }
    }
    replaced_absent(c, crlf, seq!['\n']);
    if !body.contains('\\') {
        first_is_missing(body, out);
        ends_read_back(body, out);
        let e = ended(body, out);
        if e.contains('\r') {
            ended_holds(body, out, '\r');
        }
        first_is_missing(e, crlf);
        first_is_missing(e, cr);
    }
}

/// Lines between line ends are the lines.
proof fn lines_read_back(lines: Seq<Seq<char>>, n: int)
    requires
        0 < n <= lines.len(),
        forall|i: int| 0 <= i < lines.len() ==> free_of(#[trigger] lines[i], Class::One('\n')),
    ensures
        split_by(joined(lines, "\n"@, n), Class::One('\n')) == lines.take(n),
    decreases n,
{
    reveal_strlit("\n");
    let k = Class::One('\n');
    if n == 1 {
        split_free(lines[0], k);
        assert(lines.take(1) =~= seq![lines[0]]);
    } else {
        lines_read_back(lines, n - 1);
        let before = joined(lines, "\n"@, n - 1);
        assert(before + "\n"@ + lines[n - 1] =~= before.push('\n') + lines[n - 1]);
        split_behind(before, '\n', lines[n - 1], k);
        assert(lines.take(n) =~= lines.take(n - 1).push(lines[n - 1]));
    }
}

/// Joined lines hold what a line or the line end holds.
proof fn joined_holds(lines: Seq<Seq<char>>, n: int, c: char)
    requires
        0 <= n <= lines.len(),
        c != '\n',
        joined(lines, "\n"@, n).contains(c),
    ensures
        exists|i: int| 0 <= i < n && (#[trigger] lines[i]).contains(c),
    decreases n,
{
    reveal_strlit("\n");
    if n == 1 {
        assert(lines[0].contains(c));
    } else if n > 1 {
        let before = joined(lines, "\n"@, n - 1);
        let all = joined(lines, "\n"@, n);
        let i = choose|i: int| 0 <= i < all.len() && all[i] == c;
        if i < before.len() {
            assert(before[i] == c);
            joined_holds(lines, n - 1, c);
        } else {
            assert(lines[n - 1][i - before.len() - 1] == c);
            assert(lines[n - 1].contains(c));
        }
    }
}

/// A body is cleaned line by line: one of lines without carriage returns and backslashes, with a
/// line end between them and within the bound on the work, comes to the text of the message that
/// these lines hold.
pub proof fn a_body_is_cleaned_by_lines(lines: Seq<Seq<char>>, max_chars: int)
    requires
        lines.len() > 0,
        forall|i: int| 0 <= i < lines.len() ==> free_of(#[trigger] lines[i], Class::One('\n'))
            && !lines[i].contains('\r') && !lines[i].contains('\\'),
        joined(lines, "\n"@, lines.len() as int).len() <= 4 * max_chars <= usize::MAX,
    ensures
        cleaned(joined(lines, "\n"@, lines.len() as int), max_chars) == head_of(
            text_of_lines(message(lines, 0, seq![])),
            max_chars,
        ),
{
    let n = lines.len() as int;
    let body = joined(lines, "\n"@, n);
    if body.contains('\r') {
        joined_holds(lines, n, '\r');
    }
    if body.contains('\\') {
        joined_holds(lines, n, '\\');
    }
    ends_as_newlines(body);
    lines_read_back(lines, n);
    assert(lines.take(n) =~= lines);
}

/// Whether nothing is found in a line that ends a message, and it is not quoted.
pub open spec fn unmarked(src: Seq<Seq<char>>, i: int) -> bool {
    &&& !quotes(src[i])
    &&& !hits(DE_NAME@, src[i])
    &&& !hits(ATTRIBUTION_TAIL@, src[i])
    &&& !quoted(src[i])
}

/// Lines without the space at their ends.
pub open spec fn bare_lines(src: Seq<Seq<char>>) -> Seq<Seq<char>> {
    Seq::new(src.len(), |i: int| trim_end(src[i], Class::Python))
}

/// Unmarked lines are kept from any line on.
proof fn unmarked_from(src: Seq<Seq<char>>, i: int)
    requires
        0 <= i <= src.len(),
        forall|k: int| 0 <= k < src.len() ==> #[trigger] unmarked(src, k),
    ensures
        message(src, i, bare_lines(src).take(i)) == bare_lines(src),
    decreases src.len() - i,
{
    let all = bare_lines(src);
    if i < src.len() {
        assert(unmarked(src, i));
        assert(all.take(i).push(trim_end(src[i], Class::Python)) =~= all.take(i + 1));
        unmarked_from(src, i + 1);
    } else {
        assert(all.take(i) =~= all);
    }
}

/// Nothing is lost of a message in which nothing is found: every line is kept in order, without the
/// space at its end.
pub proof fn an_unmarked_message_is_kept(src: Seq<Seq<char>>)
    requires
        forall|k: int| 0 <= k < src.len() ==> #[trigger] unmarked(src, k),
    ensures
        message(src, 0, seq![]).len() == src.len(),
        forall|k: int|
            0 <= k < src.len() ==> #[trigger] message(src, 0, seq![])[k] == trim_end(
                src[k],
                Class::Python,
            ),
{
    unmarked_from(src, 0);
    assert(bare_lines(src).take(0) =~= seq![]);
}

/// Space at the end of a line does not make it quoted or not.
proof fn quoted_bare(line: Seq<char>)
    ensures
        quoted(trim_end(line, Class::Python)) == quoted(line),
    decreases line.len(),
{
    let k = Class::Python;
    if line.len() > 0 && in_class(line.last(), k) {
        let less = line.drop_last();
        quoted_bare(less);
        quoted_less(line);
    }
}

/// A space at the end of a line does not make it quoted or not.
proof fn quoted_less(line: Seq<char>)
    requires
        line.len() > 0,
        in_class(line.last(), Class::Python),
    ensures
        quoted(line.drop_last()) == quoted(line),
    decreases line.len(),
{
    let k = Class::Python;
    if in_class(line[0], k) {
        if line.len() > 1 {
            assert(line.drop_last().drop_first() =~= line.drop_first().drop_last());
            quoted_less(line.drop_first());
            assert(line.drop_last()[0] == line[0]);
        } else {
            assert(line.drop_first() =~= seq![]);
            assert(line.drop_last() =~= seq![]);
            assert(trim_start(line.drop_first(), k) =~= seq![]);
        }
    } else {
        assert(line.drop_last().len() > 0 ==> line.drop_last()[0] == line[0]);
        assert(line.len() > 1) by {
            if line.len() == 1 {
                assert(line.last() == line[0]);
            }
        }
    }
}

/// No quoted line is kept.
pub proof fn no_quoted_line_is_kept(src: Seq<Seq<char>>, i: int, lines: Seq<Seq<char>>, k: int)
    requires
        0 <= i <= src.len(),
        forall|j: int| 0 <= j < lines.len() ==> !quoted(#[trigger] lines[j]),
        0 <= k < message(src, i, lines).len(),
    ensures
        !quoted(message(src, i, lines)[k]),
    decreases src.len() - i,
{
    if i < src.len() {
        let (next, on) = taken(lines, src[i], marks_of(src, i, lines));
        assert forall|j: int| 0 <= j < next.len() implies !quoted(#[trigger] next[j]) by {
            if j < lines.len() {
                assert(next[j] == lines[j]);
            } else {
                quoted_bare(src[i]);
            }
        }
        if on {
            no_quoted_line_is_kept(src, i + 1, next, k);
        }
    }
}

/// The lines before a line are taken as they are without it and what follows.
proof fn taken_alike(src: Seq<Seq<char>>, k: int, i: int, lines: Seq<Seq<char>>)
    requires
        0 <= i <= k < src.len(),
        quotes(src[k]),
        !hits(HEADER_NEXT@, src[k]),
        message(src.take(k), i, lines).len() > 0,
    ensures
        message(src, i, lines) == message(src.take(k), i, lines),
    decreases k - i,
{
    let short = src.take(k);
    if i < k {
        assert(short[i] == src[i]);
        assert(i + 1 < k ==> short[i + 1] == src[i + 1]);
        assert(marks_of(src, i, lines) == marks_of(short, i, lines));
        let (next, on) = taken(lines, src[i], marks_of(src, i, lines));
        if on {
            taken_alike(src, k, i + 1, next);
        }
    }
}

/// A line that starts quoted history ends the message: behind a line that was kept, neither it nor
/// anything after it is in the message, which is that of the lines before it.
pub proof fn quoted_history_is_cut(src: Seq<Seq<char>>, k: int)
    requires
        0 <= k < src.len(),
        quotes(src[k]),
        !hits(HEADER_NEXT@, src[k]),
        message(src.take(k), 0, seq![]).len() > 0,
    ensures
        message(src, 0, seq![]) == message(src.take(k), 0, seq![]),
{
    taken_alike(src, k, 0, seq![]);
}

/// A first sign-off from a line on is one, with none before it.
proof fn cut_is_first(lines: Seq<Seq<char>>, i: int)
    requires
        0 <= i,
    ensures
        ({
            let c = cut_at(lines, i);
            &&& c <= lines.len()
            &&& i <= lines.len() ==> i <= c
            &&& forall|j: int| i <= j < c ==> !signs_off(#[trigger] lines[j])
            &&& c < lines.len() ==> signs_off(lines[c])
        }),
    decreases lines.len() - i,
{
    if i < lines.len() && !signs_off(lines[i]) {
        cut_is_first(lines, i + 1);
    }
}

/// A signature is cut at the first sign-off among the last eight lines or those from three fifths
/// down, whichever are more, but never at the first line. Without one the whole message stays.
pub proof fn the_signature_is_cut(lines: Seq<Seq<char>>)
    ensures
        ({
            let n = lines.len() as int;
            let c = cut_at(lines, cut_from(n));
            &&& c <= n
            &&& n > 0 ==> c > 0
            &&& c < n ==> signs_off(lines[c]) && (n - c <= 8 || 5 * (c + 1) > 3 * n)
            &&& forall|j: int|
                0 < j < c && (n - j <= 8 || 5 * j >= 3 * n) ==> !signs_off(#[trigger] lines[j])
        }),
{
    cut_is_first(lines, cut_from(lines.len() as int));
}

/// A piece that is not found stays among those that are kept.
proof fn kept_stays(p: Seq<Seq<char>>, found: Seq<bool>, n: int, i: int)
    requires
        0 <= i < n <= p.len(),
        found.len() == p.len(),
        !found[i],
    ensures
        kept_where(p, found, n).contains(p[i]),
    decreases n,
{
    if i < n - 1 {
        kept_stays(p, found, n - 1, i);
        let before = kept_where(p, found, n - 1);
        let k = choose|k: int| 0 <= k < before.len() && before[k] == p[i];
        assert(kept_where(p, found, n)[k] == p[i]);
    } else {
        let all = kept_where(p, found, n);
        assert(all[all.len() - 1] == p[i]);
    }
}

/// A text that the disclaimer is not found in is a piece of its own.
proof fn piece_stays(p: Seq<Seq<char>>, found: Seq<bool>, n: int, i: int)
    requires
        0 <= i < n <= p.len(),
        found.len() == p.len(),
        !found[i],
        p[i].len() > 0,
    ensures
        split_where(p, found, n).contains(p[i]),
    decreases n,
{
    let before = split_where(p, found, n - 1);
    let all = split_where(p, found, n);
    if i < n - 1 {
        piece_stays(p, found, n - 1, i);
        let k = choose|k: int| 0 <= k < before.len() && before[k] == p[i];
        assert(all[k] == p[i]);
    } else {
        assert(all[before.len() as int] == p[i]);
    }
}

/// A sentence that the disclaimer is not found in is kept, and a paragraph in which it is not found
/// is left as it is.
pub proof fn an_honest_sentence_is_kept(p: Seq<char>, i: int)
    requires
        0 <= i < sentences_of(p).len(),
        trimmed(sentences_of(p)[i], Class::Python).len() > 0,
        !hits(DISCLAIMER@, trimmed(sentences_of(p)[i], Class::Python)),
    ensures
        !hits(DISCLAIMER@, p) ==> disclaimed(p) == p,
        hits(DISCLAIMER@, p) ==> exists|kept: Seq<Seq<char>>|
            disclaimed(p) == #[trigger] joined(kept, " "@, kept.len() as int) && kept.contains(
                trimmed(sentences_of(p)[i], Class::Python),
            ) && (forall|k: int| 0 <= k < kept.len() ==> !hits(DISCLAIMER@, #[trigger] kept[k])),
{
    let s = stripped(sentences_of(p));
    let all = split_where(s, disclaims(s), s.len() as int);
    let kept = kept_where(all, disclaims(all), all.len() as int);
    piece_stays(s, disclaims(s), s.len() as int, i);
    let k = choose|k: int| 0 <= k < all.len() && all[k] == s[i];
    kept_stays(all, disclaims(all), all.len() as int, k);
    assert forall|k: int| 0 <= k < kept.len() implies !hits(DISCLAIMER@, #[trigger] kept[k]) by {
        no_kept_piece_is_a_disclaimer(all, all.len() as int, k);
    }
    if hits(DISCLAIMER@, p) {
        assert(disclaimed(p) == joined(kept, " "@, kept.len() as int));
    }
}

/// Paragraphs that have something in them and no space around it come out as they are.
proof fn full_stays(p: Seq<Seq<char>>, n: int)
    requires
        0 <= n <= p.len(),
        forall|i: int|
            0 <= i < p.len() ==> (#[trigger] p[i]).len() > 0 && trimmed(p[i], Class::Python)
                == p[i],
    ensures
        full_paragraphs(p, n) == p.take(n),
    decreases n,
{
    if n > 0 {
        full_stays(p, n - 1);
        assert(p.take(n) =~= p.take(n - 1).push(p[n - 1]));
    } else {
        assert(p.take(0) =~= seq![]);
    }
}

/// Paragraphs that have something in them and no space around it come out with an empty line between
/// them, and nothing comes of those that are all space.
pub proof fn paragraphs_stand_apart(p: Seq<Seq<char>>, a: Seq<char>, b: Seq<char>)
    requires
        a.len() > 0,
        b.len() > 0,
        trimmed(a, Class::Python) == a,
        trimmed(b, Class::Python) == b,
        forall|i: int|
            0 <= i < p.len() ==> trimmed(#[trigger] p[i], Class::Python).len() == 0,
    ensures
        text_of_paragraphs(seq![a, b]) == a + seq!['\n', '\n'] + b,
        text_of_paragraphs(seq![a]) == a,
        text_of_paragraphs(p) == Seq::<char>::empty(),
{
    reveal_strlit("\n\n");
    assert("\n\n"@ =~= seq!['\n', '\n']);
    let two = seq![a, b];
    full_stays(two, 2);
    assert(two.take(2) =~= two);
    reveal_with_fuel(joined, 3);
    assert(joined(two, "\n\n"@, 2) =~= a + seq!['\n', '\n'] + b);
    full_stays(seq![a], 1);
    assert(seq![a].take(1) =~= seq![a]);
    blank_goes(p, p.len() as int);
}

/// Nothing comes of paragraphs that are all space.
proof fn blank_goes(p: Seq<Seq<char>>, n: int)
    requires
        0 <= n <= p.len(),
        forall|i: int|
            0 <= i < p.len() ==> trimmed(#[trigger] p[i], Class::Python).len() == 0,
    ensures
        full_paragraphs(p, n) == Seq::<Seq<char>>::empty(),
    decreases n,
{
    if n > 0 {
        blank_goes(p, n - 1);
        assert(trimmed(p[n - 1], Class::Python).len() == 0);
    }
}

/// An extra field that is not null is found with the last value it was given, and any other field as
/// it was before.
proof fn extra_is_found(m: Seq<(Seq<char>, Value)>, extra: Seq<(Seq<char>, Value)>, n: int, key: Seq<char>)
    requires
        0 <= n <= extra.len(),
    ensures
        (forall|i: int|
            0 <= i < n ==> (#[trigger] extra[i]).0 != key || extra[i].1 == Value::Null) ==> find(
            with_extra(m, extra, n),
            key,
        ) == find(m, key),
        forall|i: int|
            0 <= i < n && (#[trigger] extra[i]).0 == key && extra[i].1 != Value::Null && (forall|
                j: int,
            |
                i < j < n ==> (#[trigger] extra[j]).0 != key || extra[j].1 == Value::Null) ==> find(
                with_extra(m, extra, n),
                key,
            ) == Some(extra[i].1),
    decreases n,
{
    if n > 0 {
        extra_is_found(m, extra, n - 1, key);
        let e = extra[n - 1];
        if e.1 != Value::Null {
            put_get(with_extra(m, extra, n - 1), e.0, e.1, key);
        }
    }
}

/// A state for email questions holds the subject without the space around it, the body, and the
/// sender when there is one, each unless an extra field of its name replaces it; and every extra
/// field that is not null, with the last value it was given.
pub proof fn an_email_state_holds_its_fields(
    subject: Seq<char>,
    body: Seq<char>,
    sender: Option<Seq<char>>,
    extra: Seq<(Seq<char>, Value)>,
    key: Seq<char>,
    i: int,
)
    ensures
        ({
            let m = with_extra(email_fields(subject, body, sender), extra, extra.len() as int);
            let other = forall|j: int|
                0 <= j < extra.len() ==> (#[trigger] extra[j]).0 != key || extra[j].1
                    == Value::Null;
            &&& other && key == "subject"@ ==> find(m, key) == Some(
                Value::Str(trimmed(subject, Class::Python)),
            )
            &&& other && key == "body"@ ==> find(m, key) == Some(Value::Str(body))
            &&& other && key == "from"@ ==> find(m, key) == (match sender {
                Some(s) => if s.len() > 0 {
                    Some(Value::Str(s))
                } else {
                    None
                },
                None => None,
            })
            &&& 0 <= i < extra.len() && extra[i].0 == key && extra[i].1 != Value::Null && (forall|
                j: int,
            |
                i < j < extra.len() ==> (#[trigger] extra[j]).0 != key || extra[j].1
                    == Value::Null) ==> find(m, key) == Some(extra[i].1)
        }),
{
    reveal_strlit("subject");
    reveal_strlit("body");
    reveal_strlit("from");
    assert("subject"@.len() == 7);
    assert("body"@[0] == 'b' && "from"@[0] == 'f');
    let base = email_fields(subject, body, sender);
    extra_is_found(base, extra, extra.len() as int, key);
    find_at(base, "subject"@, 0);
    find_at(base, "body"@, 1);
    find_at(base, "from"@, 2);
}

/// A sign-off is short: at most forty characters for a phrase that starts a signature, and at most
/// sixty for a device's footer, the space around it not counted.
pub proof fn a_sign_off_is_short(line: Seq<char>)
    ensures
        ({
            let n = trimmed(line, Class::Python).len();
            &&& n <= 40 && hits(DASHES@, line) ==> signs_off(line)
            &&& n <= 40 && hits(REGARDS@, line) ==> signs_off(line)
            &&& n <= 40 && hits(SENT_FROM@, line) ==> signs_off(line)
            &&& n <= 40 && hits(SALUTATION@, line) ==> signs_off(line)
            &&& n <= 60 && hits(DEVICE_FOOTER@, line) ==> signs_off(line)
            &&& n > 60 ==> !signs_off(line)
            &&& n > 40 && signs_off(line) ==> hits(DEVICE_FOOTER@, line)
            &&& signs_off(line) ==> hits(DASHES@, line) || hits(REGARDS@, line) || hits(
                SENT_FROM@,
                line,
            ) || hits(SALUTATION@, line) || hits(DEVICE_FOOTER@, line)
        }),
{
}

/// A message never ends at its first line. Behind it, a line that starts quoted history ends it and
/// is left out with what follows, and the tail of an attribution takes its head with it.
pub proof fn a_message_ends_at_quoted_history(
    lines: Seq<Seq<char>>,
    line: Seq<char>,
    m: Marks,
)
    ensures
        taken(lines, line, m).1 <==> lines.len() == 0 || !(m.quote || m.header || m.tail),
        !taken(lines, line, m).1 && (m.quote || m.header || !m.head) ==> taken(lines, line, m).0
            == lines,
        !taken(lines, line, m).1 && !(m.quote || m.header) && m.head ==> taken(lines, line, m).0
            == lines.drop_last(),
        taken(lines, line, m).1 && quoted(line) ==> taken(lines, line, m).0 == lines,
        taken(lines, line, m).1 && !quoted(line) ==> taken(lines, line, m).0.len() == lines.len()
            + 1 && taken(lines, line, m).0.drop_last() == lines,
{
    assert(lines.push(trim_end(line, Class::Python)).drop_last() =~= lines);
}

/// Whether a text has a stop with space behind it.
pub open spec fn breaks(s: Seq<char>) -> bool {
    exists|k: int| 0 < k < s.len() && stops(s[k - 1]) && in_class(#[trigger] s[k], Class::Python)
}

/// The first break from a place on.
proof fn break_found(s: Seq<char>, i: int, k: int)
    requires
        0 <= i <= k <= s.len(),
        k < s.len() ==> k > 0 && stops(s[k - 1]) && in_class(s[k], Class::Python),
        forall|m: int|
            i <= m < k && m > 0 ==> !(stops(s[m - 1]) && in_class(#[trigger] s[m], Class::Python)),
    ensures
        break_at(s, i) == k,
    decreases k - i,
{
    if i < k {
        assert(i > 0 ==> !(stops(s[i - 1]) && in_class(s[i], Class::Python)));
        break_found(s, i + 1, k);
    }
}

/// Space before a text is trimmed.
proof fn space_goes(blank: Seq<char>, b: Seq<char>)
    requires
        full_of(blank, Class::Python),
        b.len() > 0 && !in_class(b[0], Class::Python),
    ensures
        trim_start(blank + b, Class::Python) == b,
    decreases blank.len(),
{
    let s = blank + b;
    if blank.len() > 0 {
        assert(s[0] == blank[0]);
        assert(s.drop_first() =~= blank.drop_first() + b);
        space_goes(blank.drop_first(), b);
    } else {
        assert(s =~= b);
    }
}

/// A sentence ends at a stop with space behind it, and nowhere else: the first sentence of a text is
/// what stands before that space, and the others are those of what stands behind it.
pub proof fn a_sentence_ends_at_a_stop(a: Seq<char>, blank: Seq<char>, b: Seq<char>)
    requires
        a.len() > 0 && stops(a.last()),
        !breaks(a),
        blank.len() > 0 && full_of(blank, Class::Python),
        b.len() > 0 && !in_class(b[0], Class::Python),
    ensures
        sentences_of(a + blank + b) == seq![a] + sentences_of(b),
        sentences_of(a) == seq![a],
{
    let s = a + blank + b;
    let k = a.len() as int;
    assert(s[k] == blank[0]);
    assert(s[k - 1] == a.last());
    assert forall|m: int| 0 <= m < k && m > 0 implies !(stops(s[m - 1]) && in_class(
        #[trigger] s[m],
        Class::Python,
    )) by {
        assert(s[m] == a[m] && s[m - 1] == a[m - 1]);
    }
    break_found(s, 0, k);
    assert(s.skip(k) =~= blank + b);
    assert(s.take(k) =~= a);
    space_goes(blank, b);
    assert forall|m: int| 0 <= m < k && m > 0 implies !(stops(a[m - 1]) && in_class(
        #[trigger] a[m],
        Class::Python,
    )) by {}
    break_found(a, 0, k);
}

/// A line that starts a new sentence starts a new piece, and one that does not belongs to the piece
/// before it, with a blank between.
pub proof fn a_wrapped_line_is_joined(a: Seq<char>, b: Seq<char>)
    requires
        trimmed(a, Class::Python).len() > 0,
        trimmed(b, Class::Python).len() > 0,
    ensures
        ({
            let (x, y) = (trimmed(a, Class::Python), trimmed(b, Class::Python));
            let (done, now) = fused(seq![a, b], 2);
            if fresh(y) {
                done == seq![x] && now == y
            } else {
                done == Seq::<Seq<char>>::empty() && now == x + seq![' '] + y
            }
        }),
{
    let two = seq![a, b];
    assert(two[0] == a && two[1] == b);
    reveal_with_fuel(fused, 3);
    assert(fused(two, 1) == (Seq::<Seq<char>>::empty(), trimmed(a, Class::Python)));
    assert(Seq::<Seq<char>>::empty().push(trimmed(a, Class::Python)) =~= seq![
        trimmed(a, Class::Python),
    ]);
}

} // verus!
