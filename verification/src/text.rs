//! Text helpers shared by the other modules.

use vstd::prelude::*;

verus! {

/// `String::push` appends one character.
pub assume_specification[ String::push ](s: &mut String, c: char)
    ensures
        final(s)@ == old(s)@.push(c),
;

/// `str` equality compares the characters.
pub assume_specification[ <str as PartialEq<str>>::eq ](a: &str, b: &str) -> (r: bool)
    ensures
        r == (a@ == b@),
;

/// Whether two texts are the same.
pub fn same(a: &str, b: &str) -> (r: bool)
    ensures
        r == (a@ == b@),
{
    *a == *b
}

/// The characters of a text.
pub fn chars_of(s: &str) -> (r: Vec<char>)
    ensures
        r@ == s@,
{
    let mut r: Vec<char> = Vec::new();
    for c in it: s.chars()
        invariant
            r@ == it.seq().take(it.index() as int),
            it.seq() == s@,
    {
        r.push(c);
    }
    r
}

/// The text of some characters.
pub fn text_of(cs: &[char]) -> (r: String)
    ensures
        r@ == cs@,
{
    let mut r = String::new();
    let mut i: usize = 0;
    while i < cs.len()
        invariant
            i <= cs@.len(),
            r@ == cs@.take(i as int),
        decreases cs@.len() - i,
    {
        r.push(cs[i]);
        i += 1;
        assert(cs@.take(i as int) =~= cs@.take(i - 1).push(cs@[i - 1]));
    }
    assert(cs@.take(i as int) =~= cs@);
    r
}

/// The character of a decimal digit.
pub open spec fn digit(d: nat) -> char {
    ((48 + d) as u8) as char
}

/// `n` in decimal.
pub open spec fn dec(n: nat) -> Seq<char>
    decreases n,
{
    if n < 10 {
        seq![digit(n)]
    } else {
        dec(n / 10).push(digit(n % 10))
    }
}

/// `n` in decimal.
pub fn decimal(n: u64) -> (r: String)
    ensures
        r@ == dec(n as nat),
    decreases n,
{
    if n < 10 {
        let mut r = String::new();
        r.push((48 + n as u8) as char);
        assert(r@ =~= dec(n as nat));
        r
    } else {
        let mut r = decimal(n / 10);
        r.push((48 + (n % 10) as u8) as char);
        r
    }
}

/// `a` followed by `b`.
pub fn join2(a: &str, b: &str) -> (r: String)
    ensures
        r@ == a@ + b@,
{
    let mut r = a.to_owned();
    r.append(b);
    r
}

/// Three texts, one after the other.
pub fn join3(a: &str, b: &str, c: &str) -> (r: String)
    ensures
        r@ == a@ + b@ + c@,
{
    let mut r = a.to_owned();
    r.append(b);
    r.append(c);
    r
}

/// Five texts, one after the other.
pub fn join5(a: &str, b: &str, c: &str, d: &str, e: &str) -> (r: String)
    ensures
        r@ == a@ + b@ + c@ + d@ + e@,
{
    let mut r = join3(a, b, c);
    r.append(d);
    r.append(e);
    r
}

/// Seven texts, one after the other.
pub fn join7(a: &str, b: &str, c: &str, d: &str, e: &str, f: &str, g: &str) -> (r: String)
    ensures
        r@ == a@ + b@ + c@ + d@ + e@ + f@ + g@,
{
    let mut r = join5(a, b, c, d, e);
    r.append(f);
    r.append(g);
    r
}

/// `str::to_lowercase`.
pub uninterp spec fn lower(s: Seq<char>) -> Seq<char>;

/// `str::to_lowercase` is a function of the text alone: its lower case form by Unicode's rules.
pub assume_specification[ str::to_lowercase ](s: &str) -> (r: String)
    ensures
        r@ == lower(s@),
;

/// The characters with the Unicode property White_Space.
pub open spec fn white(c: char) -> bool {
    ||| '\u{9}' <= c && c <= '\u{d}'
    ||| c == ' '
    ||| c == '\u{85}'
    ||| c == '\u{a0}'
    ||| c == '\u{1680}'
    ||| '\u{2000}' <= c && c <= '\u{200a}'
    ||| c == '\u{2028}'
    ||| c == '\u{2029}'
    ||| c == '\u{202f}'
    ||| c == '\u{205f}'
    ||| c == '\u{3000}'
}

/// `char::is_whitespace`: whether a character has the Unicode property White_Space, which the
/// Unicode Character Database lists.
pub assume_specification[ char::is_whitespace ](c: char) -> (r: bool)
    ensures
        r == white(c),
;

/// A class of characters.
#[derive(Debug, Clone, Copy)]
pub enum Class {
    /// Whitespace.
    White,
    /// One character.
    One(char),
    /// What Python's `str.isspace` takes: whitespace and the four information separators.
    Python,
}

/// Whether a character is in a class.
pub open spec fn in_class(c: char, k: Class) -> bool {
    match k {
        Class::White => white(c),
        Class::One(x) => c == x,
        Class::Python => white(c) || ('\u{1c}' <= c && c <= '\u{1f}'),
    }
}

/// Whether a character is in a class.
pub fn is_in(c: char, k: Class) -> (r: bool)
    ensures
        r == in_class(c, k),
{
    match k {
        Class::White => c.is_whitespace(),
        Class::One(x) => c == x,
        Class::Python => c.is_whitespace() || ('\u{1c}' <= c && c <= '\u{1f}'),
    }
}

/// The text without the characters of the class at its start.
pub open spec fn trim_start(s: Seq<char>, k: Class) -> Seq<char>
    decreases s.len(),
{
    if s.len() > 0 && in_class(s[0], k) {
        trim_start(s.drop_first(), k)
    } else {
        s
    }
}

/// The text without the characters of the class at its end.
pub open spec fn trim_end(s: Seq<char>, k: Class) -> Seq<char>
    decreases s.len(),
{
    if s.len() > 0 && in_class(s.last(), k) {
        trim_end(s.drop_last(), k)
    } else {
        s
    }
}

/// The text without the characters of the class at both ends.
pub open spec fn trimmed(s: Seq<char>, k: Class) -> Seq<char> {
    trim_end(trim_start(s, k), k)
}

/// The pieces of a text between the characters of a class.
pub open spec fn split_by(s: Seq<char>, k: Class) -> Seq<Seq<char>>
    decreases s.len(),
{
    if s.len() == 0 {
        seq![seq![]]
    } else {
        let p = split_by(s.drop_last(), k);
        if in_class(s.last(), k) {
            p.push(seq![])
        } else {
            p.update(p.len() - 1, p.last().push(s.last()))
        }
    }
}

/// The pieces of a text between whitespace that are not empty.
pub open spec fn words_of(s: Seq<char>) -> Seq<Seq<char>> {
    nonempty(split_by(s, Class::White))
}

/// The pieces that are not empty.
pub open spec fn nonempty(p: Seq<Seq<char>>) -> Seq<Seq<char>>
    decreases p.len(),
{
    if p.len() == 0 {
        seq![]
    } else if p.last().len() == 0 {
        nonempty(p.drop_last())
    } else {
        nonempty(p.drop_last()).push(p.last())
    }
}

/// Lists of characters as texts.
pub open spec fn parts(v: Seq<Vec<char>>) -> Seq<Seq<char>> {
    Seq::new(v.len(), |i: int| v[i]@)
}

/// Strings as texts.
pub open spec fn texts(v: Seq<String>) -> Seq<Seq<char>> {
    Seq::new(v.len(), |i: int| v[i]@)
}

/// A split has at least one piece.
pub proof fn split_some(s: Seq<char>, k: Class)
    ensures
        split_by(s, k).len() >= 1,
    decreases s.len(),
{
    if s.len() > 0 {
        split_some(s.drop_last(), k);
    }
}

/// Whether no character of a text is in a class.
pub open spec fn free_of(s: Seq<char>, k: Class) -> bool {
    forall|i: int| 0 <= i < s.len() ==> !in_class(#[trigger] s[i], k)
}

/// Whether every character of a text is in a class.
pub open spec fn full_of(s: Seq<char>, k: Class) -> bool {
    forall|i: int| 0 <= i < s.len() ==> in_class(#[trigger] s[i], k)
}

/// A text with no character of the class is its own one piece.
pub proof fn split_free(s: Seq<char>, k: Class)
    requires
        free_of(s, k),
    ensures
        split_by(s, k) == seq![s],
    decreases s.len(),
{
    if s.len() > 0 {
        split_free(s.drop_last(), k);
        assert(s.drop_last().push(s.last()) =~= s);
        assert(split_by(s, k) =~= seq![s]);
    } else {
        assert(s =~= seq![]);
        assert(split_by(s, k) =~= seq![s]);
    }
}

/// What stands behind the last character of the class is the last piece.
pub proof fn split_behind(s: Seq<char>, x: char, t: Seq<char>, k: Class)
    requires
        in_class(x, k),
        free_of(t, k),
    ensures
        split_by(s.push(x) + t, k) == split_by(s, k).push(t),
    decreases t.len(),
{
    let all = s.push(x) + t;
    if t.len() > 0 {
        split_behind(s, x, t.drop_last(), k);
        assert(all.drop_last() =~= s.push(x) + t.drop_last());
        assert(t.drop_last().push(t.last()) =~= t);
        assert(split_by(all, k) =~= split_by(s, k).push(t));
    } else {
        assert(all =~= s.push(x));
        assert(all.drop_last() =~= s);
        assert(t =~= seq![]);
    }
}

/// What stands before the first character of the class is the first piece.
pub proof fn split_before(s: Seq<char>, x: char, t: Seq<char>, k: Class)
    requires
        free_of(s, k),
        in_class(x, k),
    ensures
        split_by(s.push(x) + t, k).len() >= 2,
        split_by(s.push(x) + t, k)[0] == s,
    decreases t.len(),
{
    let all = s.push(x) + t;
    if t.len() > 0 {
        split_before(s, x, t.drop_last(), k);
        assert(all.drop_last() =~= s.push(x) + t.drop_last());
    } else {
        assert(all =~= s.push(x));
        assert(all.drop_last() =~= s);
        split_free(s, k);
    }
}

/// Trimming drops what is in the class at the ends, and nothing within.
pub proof fn trim_core(a: Seq<char>, s: Seq<char>, b: Seq<char>, k: Class)
    requires
        full_of(a, k),
        full_of(b, k),
        s.len() > 0,
        !in_class(s[0], k),
        !in_class(s.last(), k),
    ensures
        trimmed(a + s + b, k) == s,
    decreases a.len() + b.len(),
{
    let all = a + s + b;
    if a.len() > 0 {
        assert(all[0] == a[0]);
        assert(all.drop_first() =~= a.drop_first() + s + b);
        trim_core(a.drop_first(), s, b, k);
    } else {
        assert(all[0] == s[0]);
        assert(trim_start(all, k) == all);
        if b.len() > 0 {
            assert(all.last() == b.last());
            assert(all.drop_last() =~= a + s + b.drop_last());
            trim_core(a, s, b.drop_last(), k);
            assert(trim_start(all.drop_last(), k) == all.drop_last());
        } else {
            assert(all =~= s);
        }
    }
}

/// Trimming makes no text longer.
proof fn trim_shortens(s: Seq<char>, k: Class)
    ensures
        trim_start(s, k).len() <= s.len(),
        trim_end(s, k).len() <= s.len(),
    decreases s.len(),
{
    if s.len() > 0 {
        trim_shortens(s.drop_first(), k);
        trim_shortens(s.drop_last(), k);
    }
}

/// A text that trimming leaves as it is has no character of the class at its ends.
pub proof fn trimmed_ends(s: Seq<char>, k: Class)
    requires
        trimmed(s, k) == s,
        s.len() > 0,
    ensures
        !in_class(s[0], k),
        !in_class(s.last(), k),
{
    trim_shortens(s.drop_first(), k);
    trim_shortens(s.drop_last(), k);
    trim_shortens(trim_start(s, k), k);
}

/// Three words with a space between them are read as those words.
pub proof fn three_words(a: Seq<char>, b: Seq<char>, c: Seq<char>)
    requires
        free_of(a, Class::White),
        free_of(b, Class::White),
        free_of(c, Class::White),
        a.len() > 0,
        b.len() > 0,
        c.len() > 0,
    ensures
        words_of(a.push(' ') + b.push(' ') + c) == seq![a, b, c],
{
    let k = Class::White;
    split_free(a, k);
    split_behind(a, ' ', b, k);
    split_behind(a.push(' ') + b, ' ', c, k);
    assert((a.push(' ') + b).push(' ') + c =~= a.push(' ') + b.push(' ') + c);
    let p = split_by(a.push(' ') + b.push(' ') + c, k);
    assert(p =~= seq![a, b, c]);
    assert(p.drop_last() =~= seq![a, b]);
    assert(p.drop_last().drop_last() =~= seq![a]);
    assert(p.drop_last().drop_last().drop_last() =~= seq![]);
    reveal_with_fuel(nonempty, 4);
    assert(nonempty(p) =~= seq![a, b, c]);
}

/// Characters `from..to`.
pub fn piece(cs: &[char], from: usize, to: usize) -> (r: Vec<char>)
    requires
        from <= to <= cs@.len(),
    ensures
        r@ == cs@.subrange(from as int, to as int),
{
    let mut r: Vec<char> = Vec::new();
    let mut i: usize = from;
    while i < to
        invariant
            from <= i <= to <= cs@.len(),
            r@ == cs@.subrange(from as int, i as int),
        decreases to - i,
    {
        r.push(cs[i]);
        i += 1;
        assert(r@ =~= cs@.subrange(from as int, i as int));
    }
    r
}

/// The text without the characters of the class at its start.
pub fn trim_left(cs: &[char], k: Class) -> (r: Vec<char>)
    ensures
        r@ == trim_start(cs@, k),
{
    let mut i: usize = 0;
    assert(cs@.skip(0) =~= cs@);
    while i < cs.len() && is_in(cs[i], k)
        invariant
            i <= cs@.len(),
            trim_start(cs@, k) == trim_start(cs@.skip(i as int), k),
        decreases cs@.len() - i,
    {
        assert(cs@.skip(i as int).drop_first() =~= cs@.skip(i + 1));
        i += 1;
    }
    assert(cs@.skip(i as int) =~= cs@.subrange(i as int, cs@.len() as int));
    piece(cs, i, cs.len())
}

/// The text without the characters of the class at its end.
pub fn trim_right(cs: &[char], k: Class) -> (r: Vec<char>)
    ensures
        r@ == trim_end(cs@, k),
{
    let mut n: usize = cs.len();
    assert(cs@.take(n as int) =~= cs@);
    while n > 0 && is_in(cs[n - 1], k)
        invariant
            n <= cs@.len(),
            trim_end(cs@, k) == trim_end(cs@.take(n as int), k),
        decreases n,
    {
        assert(cs@.take(n as int).drop_last() =~= cs@.take(n - 1));
        n -= 1;
    }
    assert(cs@.take(n as int) =~= cs@.subrange(0, n as int));
    piece(cs, 0, n)
}

/// The text without the characters of the class at both ends.
pub fn trim(cs: &[char], k: Class) -> (r: Vec<char>)
    ensures
        r@ == trimmed(cs@, k),
{
    let left = trim_left(cs, k);
    trim_right(&left, k)
}

/// The pieces of a text between the characters of a class.
pub fn split(cs: &[char], k: Class) -> (r: Vec<Vec<char>>)
    ensures
        parts(r@) == split_by(cs@, k),
{
    let mut done: Vec<Vec<char>> = Vec::new();
    let mut now: Vec<char> = Vec::new();
    let mut i: usize = 0;
    assert(parts(done@).push(now@) =~= split_by(cs@.take(0), k));
    while i < cs.len()
        invariant
            i <= cs@.len(),
            parts(done@).push(now@) == split_by(cs@.take(i as int), k),
        decreases cs@.len() - i,
    {
        let ghost before = parts(done@);
        let ghost held = now@;
        let c = cs[i];
        if is_in(c, k) {
            done.push(now);
            now = Vec::new();
            assert(parts(done@) =~= before.push(held));
        } else {
            now.push(c);
        }
        i += 1;
        proof {
            let t = cs@.take(i as int);
            assert(t.drop_last() =~= cs@.take(i - 1));
            assert(t.last() == c);
            assert(parts(done@).push(now@) =~= split_by(t, k));
        }
    }
    assert(cs@.take(i as int) =~= cs@);
    let ghost before = parts(done@);
    let ghost held = now@;
    done.push(now);
    assert(parts(done@) =~= before.push(held));
    done
}

/// The pieces of a text between whitespace that are not empty.
pub fn words(cs: &[char]) -> (r: Vec<Vec<char>>)
    ensures
        parts(r@) == words_of(cs@),
{
    let all = split(cs, Class::White);
    let mut r: Vec<Vec<char>> = Vec::new();
    let mut i: usize = 0;
    assert(parts(r@) =~= nonempty(parts(all@).take(0)));
    while i < all.len()
        invariant
            i <= all@.len(),
            parts(r@) == nonempty(parts(all@).take(i as int)),
        decreases all@.len() - i,
    {
        let ghost before = parts(r@);
        if all[i].len() > 0 {
            r.push(piece(&all[i], 0, all[i].len()));
            assert(r@.last()@ =~= all@[i as int]@);
            assert(parts(r@) =~= before.push(all@[i as int]@));
        }
        i += 1;
        proof {
            let t = parts(all@).take(i as int);
            assert(t.drop_last() =~= parts(all@).take(i - 1));
            assert(t.last() == all@[i - 1]@);
        }
    }
    assert(parts(all@).take(i as int) =~= parts(all@));
    r
}

/// Whether a character is an ASCII digit.
pub open spec fn is_digit(c: char) -> bool {
    '0' <= c && c <= '9'
}

/// The value of a digit.
pub open spec fn digit_value(c: char) -> nat {
    (c as u32 - 48) as nat
}

/// The number that digits write.
pub open spec fn number(s: Seq<char>) -> nat
    decreases s.len(),
{
    if s.len() == 0 {
        0
    } else {
        number(s.drop_last()) * 10 + digit_value(s.last())
    }
}

/// Whether a text is digits, and has one.
pub open spec fn all_digits(s: Seq<char>) -> bool {
    s.len() > 0 && forall|i: int| 0 <= i < s.len() ==> is_digit(#[trigger] s[i])
}

/// A text without a plus sign at its start.
pub open spec fn after_plus(s: Seq<char>) -> Seq<char> {
    if s.len() > 0 && s[0] == '+' {
        s.drop_first()
    } else {
        s
    }
}

/// The number a text writes: digits, with a plus sign before them or without, and at most `max`.
pub open spec fn parsed(s: Seq<char>, max: nat) -> Option<nat> {
    let d = after_plus(s);
    if all_digits(d) && number(d) <= max {
        Some(number(d))
    } else {
        None
    }
}

/// The decimal writing of a number is digits that write it.
pub proof fn dec_reads(n: nat)
    ensures
        all_digits(dec(n)),
        number(dec(n)) == n,
    decreases n,
{
    let d = dec(n);
    assert(is_digit(digit(n % 10)) && digit_value(digit(n % 10)) == n % 10);
    if n < 10 {
        assert(d.drop_last() =~= seq![]);
        reveal_with_fuel(number, 2);
    } else {
        dec_reads(n / 10);
        assert(d.drop_last() =~= dec(n / 10));
    }
}

/// A number reads back from its decimal writing.
pub proof fn dec_parses(n: nat, max: nat)
    requires
        n <= max,
    ensures
        parsed(dec(n), max) == Some(n),
{
    dec_reads(n);
    assert(is_digit(dec(n)[0]));
}

/// More digits write no smaller a number.
pub proof fn number_grows(s: Seq<char>, m: int, n: int)
    requires
        0 <= m <= n <= s.len(),
    ensures
        number(s.take(m)) <= number(s.take(n)),
    decreases n - m,
{
    if m < n {
        number_grows(s, m, n - 1);
        assert(s.take(n).drop_last() =~= s.take(n - 1));
    }
}

/// The number a text writes, when it is one of at most `max`.
pub fn parse_u64(cs: &[char], max: u64) -> (r: Option<u64>)
    ensures
        match r {
            Some(n) => parsed(cs@, max as nat) == Some(n as nat),
            None => parsed(cs@, max as nat) is None,
        },
{
    let start: usize = if cs.len() > 0 && cs[0] == '+' {
        1
    } else {
        0
    };
    let ghost d = after_plus(cs@);
    assert(d =~= cs@.skip(start as int));
    if start >= cs.len() {
        return None;
    }
    let mut n: u64 = 0;
    let mut i: usize = start;
    assert(d.take(0) =~= seq![]);
    while i < cs.len()
        invariant
            start <= i <= cs@.len(),
            start < cs@.len(),
            d == cs@.skip(start as int),
            d == after_plus(cs@),
            n <= max,
            n == number(d.take(i - start)),
            forall|k: int| 0 <= k < i - start ==> is_digit(#[trigger] d[k]),
        decreases cs@.len() - i,
    {
        let c = cs[i];
        assert(d[i - start] == c);
        if !('0' <= c && c <= '9') {
            return None;
        }
        let v: u64 = (c as u32 - 48) as u64;
        proof {
            let t = d.take(i - start + 1);
            assert(t.drop_last() =~= d.take(i - start));
            assert(t.last() == c);
            assert(number(t) == n * 10 + v);
            number_grows(d, i - start + 1, d.len() as int);
            assert(d.take(d.len() as int) =~= d);
        }
        if v > max || n > max / 10 || n * 10 > max - v {
            return None;
        }
        n = n * 10 + v;
        i += 1;
    }
    assert(d.take(i - start) =~= d);
    Some(n)
}

/// The number a text writes, when it is an index.
pub fn parse_usize(cs: &[char]) -> (r: Option<usize>)
    ensures
        match r {
            Some(n) => parsed(cs@, usize::MAX as nat) == Some(n as nat),
            None => parsed(cs@, usize::MAX as nat) is None,
        },
{
    match parse_u64(cs, usize::MAX as u64) {
        Some(n) => Some(n as usize),
        None => None,
    }
}

/// Whether characters are those of a text.
pub fn is_text(cs: &[char], t: &str) -> (r: bool)
    ensures
        r == (cs@ == t@),
{
    let u = chars_of(t);
    if cs.len() != u.len() {
        return false;
    }
    let mut i: usize = 0;
    while i < cs.len()
        invariant
            i <= cs@.len() == u@.len(),
            u@ == t@,
            forall|k: int| 0 <= k < i ==> cs@[k] == u@[k],
        decreases cs@.len() - i,
    {
        if cs[i] != u[i] {
            return false;
        }
        i += 1;
    }
    assert(cs@ =~= u@);
    true
}

/// `str::to_uppercase`.
pub uninterp spec fn upper(s: Seq<char>) -> Seq<char>;

/// `str::to_uppercase` is a function of the text alone: its upper case form by Unicode's rules.
pub assume_specification[ str::to_uppercase ](s: &str) -> (r: String)
    ensures
        r@ == upper(s@),
;

/// Whether `s` has `p` at `i`.
pub open spec fn has_at(s: Seq<char>, p: Seq<char>, i: int) -> bool {
    0 <= i && i + p.len() <= s.len() && s.subrange(i, i + p.len()) == p
}

/// Whether `s` has `p` at `i`.
pub fn stands_at(s: &[char], p: &[char], i: usize) -> (r: bool)
    requires
        i <= s@.len(),
    ensures
        r == has_at(s@, p@, i as int),
{
    if p.len() > s.len() - i {
        return false;
    }
    let mut k: usize = 0;
    let n: usize = s.len();
    while k < p.len()
        invariant
            k <= p@.len(),
            i + p@.len() <= s@.len() == n,
            forall|j: int| 0 <= j < k ==> s@[i + j] == p@[j],
        decreases p@.len() - k,
    {
        if s[i + k] != p[k] {
            assert(s@.subrange(i as int, i + p@.len())[k as int] != p@[k as int]);
            return false;
        }
        k += 1;
    }
    assert(s@.subrange(i as int, i + p@.len()) =~= p@);
    true
}

/// The text before the first `p`, or all of it.
pub open spec fn before(s: Seq<char>, p: Seq<char>) -> Seq<char>
    decreases s.len(),
{
    if s.len() == 0 || has_at(s, p, 0) {
        seq![]
    } else {
        seq![s[0]] + before(s.drop_first(), p)
    }
}

/// The text before the first `p`, or all of it.
pub fn text_before(s: &[char], p: &[char]) -> (r: Vec<char>)
    ensures
        r@ == before(s@, p@),
{
    let mut i: usize = 0;
    assert(s@.take(0) + before(s@.skip(0), p@) =~= before(s@, p@)) by {
        assert(s@.skip(0) =~= s@);
    }
    while i < s.len() && !stands_at(s, p, i)
        invariant
            i <= s@.len(),
            s@.take(i as int) + before(s@.skip(i as int), p@) == before(s@, p@),
        decreases s@.len() - i,
    {
        proof {
            let rest = s@.skip(i as int);
            skip_has(s@, p@, i as int);
            assert(rest.drop_first() =~= s@.skip(i + 1));
            assert(s@.take(i + 1) + before(s@.skip(i + 1), p@) =~= s@.take(i as int) + (seq![rest[0]]
                + before(rest.drop_first(), p@)));
        }
        i += 1;
    }
    proof {
        if i < s@.len() {
            skip_has(s@, p@, i as int);
        }
        assert(s@.take(i as int) + seq![] =~= s@.subrange(0, i as int));
    }
    piece(s, 0, i)
}

/// A text from `i` on has `p` at its start when the text has it at `i`.
pub proof fn skip_has(s: Seq<char>, p: Seq<char>, i: int)
    requires
        0 <= i <= s.len(),
    ensures
        has_at(s.skip(i), p, 0) == has_at(s, p, i),
{
    if i + p.len() <= s.len() {
        assert(s.skip(i).subrange(0, p.len() as int) =~= s.subrange(i, i + p.len()));
    }
}

/// Every `p` replaced by `r`, from the left and without overlaps. An empty `p` stands before every
/// character and at the end.
pub open spec fn replaced(s: Seq<char>, p: Seq<char>, r: Seq<char>) -> Seq<char>
    decreases s.len(),
{
    if p.len() == 0 {
        if s.len() == 0 {
            r
        } else {
            r + seq![s[0]] + replaced(s.drop_first(), p, r)
        }
    } else if s.len() == 0 {
        seq![]
    } else if has_at(s, p, 0) {
        r + replaced(s.skip(p.len() as int), p, r)
    } else {
        seq![s[0]] + replaced(s.drop_first(), p, r)
    }
}

/// `s` with every `p` replaced by `r`.
pub fn replace(s: &str, p: &str, r: &str) -> (out: String)
    ensures
        out@ == replaced(s@, p@, r@),
{
    let cs = chars_of(s);
    let pat = chars_of(p);
    let mut out = String::new();
    let mut i: usize = 0;
    assert(cs@.skip(0) =~= cs@);
    assert(out@ + replaced(cs@.skip(0), p@, r@) =~= replaced(s@, p@, r@));
    while i < cs.len()
        invariant
            i <= cs@.len(),
            cs@ == s@,
            pat@ == p@,
            out@ + replaced(cs@.skip(i as int), p@, r@) == replaced(s@, p@, r@),
        decreases cs@.len() - i,
    {
        let ghost rest = cs@.skip(i as int);
        let ghost done = out@;
        proof {
            skip_has(cs@, p@, i as int);
            assert(rest[0] == cs@[i as int]);
            assert(rest.drop_first() =~= cs@.skip(i + 1));
        }
        if pat.len() == 0 {
            out.append(r);
            out.push(cs[i]);
            i += 1;
            assert(out@ + replaced(rest.drop_first(), p@, r@) =~= done + replaced(rest, p@, r@));
        } else if stands_at(&cs, &pat, i) {
            out.append(r);
            i += pat.len();
            assert(rest.skip(p@.len() as int) =~= cs@.skip(i as int));
            assert(out@ + replaced(cs@.skip(i as int), p@, r@) =~= done + replaced(rest, p@, r@));
        } else {
            out.push(cs[i]);
            i += 1;
            assert(out@ + replaced(rest.drop_first(), p@, r@) =~= done + replaced(rest, p@, r@));
        }
    }
    assert(cs@.skip(i as int) =~= seq![]);
    if pat.len() == 0 {
        out.append(r);
    } else {
        assert(out@ + seq![] =~= out@);
    }
    out
}

/// The result of a replacement by a space starts like the text, up to its first space.
proof fn starts_alike(s: Seq<char>, p: Seq<char>, m: int)
    requires
        p.len() > 0,
        0 <= m <= replaced(s, p, seq![' ']).len(),
        forall|k: int| 0 <= k < m ==> replaced(s, p, seq![' '])[k] != ' ',
    ensures
        m <= s.len(),
        s.take(m) == replaced(s, p, seq![' ']).take(m),
    decreases s.len(),
{
    let all = replaced(s, p, seq![' ']);
    if m > 0 {
        assert(s.len() > 0);
        if has_at(s, p, 0) {
            assert(all[0] == ' ');
        } else {
            let rest = s.drop_first();
            let tail = replaced(rest, p, seq![' ']);
            assert forall|k: int| 0 <= k < m - 1 implies tail[k] != ' ' by {
                assert(all[k + 1] == tail[k]);
            }
            starts_alike(rest, p, m - 1);
            assert forall|k: int| 0 <= k < m implies s[k] == all[k] by {
                if k > 0 {
                    assert(rest.take(m - 1)[k - 1] == tail.take(m - 1)[k - 1]);
                }
            }
        }
    }
    assert(s.take(m) =~= all.take(m));
}

/// A text without spaces that was replaced by a space is nowhere in the result.
pub proof fn replaced_is_gone(s: Seq<char>, p: Seq<char>, i: int)
    requires
        p.len() > 0,
        !p.contains(' '),
    ensures
        !has_at(replaced(s, p, seq![' ']), p, i),
    decreases s.len(),
{
    let all = replaced(s, p, seq![' ']);
    if has_at(all, p, i) {
        let m = p.len() as int;
        let found = all.subrange(i, i + m);
        if s.len() == 0 {
        } else if has_at(s, p, 0) {
            let tail = replaced(s.skip(m), p, seq![' ']);
            if i == 0 {
                assert(found[0] == ' ');
                assert(p[0] == ' ');
            } else {
                assert(tail.subrange(i - 1, i - 1 + m) =~= found);
                replaced_is_gone(s.skip(m), p, i - 1);
            }
        } else {
            let tail = replaced(s.drop_first(), p, seq![' ']);
            if i == 0 {
                assert forall|k: int| 0 <= k < m implies all[k] != ' ' by {
                    assert(found[k] == all[k]);
                    assert(p[k] == all[k]);
                }
                starts_alike(s, p, m);
                assert(s.subrange(0, m) =~= s.take(m));
                assert(all.subrange(0, m) =~= all.take(m));
            } else {
                assert(tail.subrange(i - 1, i - 1 + m) =~= found);
                replaced_is_gone(s.drop_first(), p, i - 1);
            }
        }
    }
}

/// A character in ASCII lower case.
pub open spec fn lower_char(c: char) -> char {
    if 'A' <= c && c <= 'Z' {
        ((c as u8) + 32) as u8 as char
    } else {
        c
    }
}

/// A text in ASCII lower case.
pub open spec fn ascii_lower(s: Seq<char>) -> Seq<char> {
    Seq::new(s.len(), |i: int| lower_char(s[i]))
}

/// A text in ASCII lower case.
pub fn to_ascii_lower(s: &str) -> (r: String)
    ensures
        r@ == ascii_lower(s@),
{
    let cs = chars_of(s);
    let mut r = String::new();
    let mut i: usize = 0;
    while i < cs.len()
        invariant
            i <= cs@.len(),
            cs@ == s@,
            r@ == ascii_lower(s@).take(i as int),
        decreases cs@.len() - i,
    {
        let c = cs[i];
        if 'A' <= c && c <= 'Z' {
            r.push((c as u8 + 32) as char);
        } else {
            r.push(c);
        }
        i += 1;
        assert(r@ =~= ascii_lower(s@).take(i as int));
    }
    assert(ascii_lower(s@).take(i as int) =~= ascii_lower(s@));
    r
}

/// A text without the space around it.
pub fn bare(s: &str) -> (r: String)
    ensures
        r@ == trimmed(s@, Class::White),
{
    text_of(&trim(&chars_of(s), Class::White))
}

/// Whether a text starts with another.
pub fn starts_with(s: &str, p: &str) -> (r: bool)
    ensures
        r == has_at(s@, p@, 0),
{
    stands_at(&chars_of(s), &chars_of(p), 0)
}

/// A text that a pattern does not stand in is left as it is.
pub proof fn replaced_absent(s: Seq<char>, p: Seq<char>, r: Seq<char>)
    requires
        p.len() > 0,
        forall|i: int| !#[trigger] has_at(s, p, i),
    ensures
        replaced(s, p, r) == s,
    decreases s.len(),
{
    if s.len() > 0 {
        let rest = s.drop_first();
        assert(!has_at(s, p, 0));
        assert forall|i: int| !#[trigger] has_at(rest, p, i) by {
            if has_at(rest, p, i) {
                assert(s.subrange(i + 1, i + 1 + p.len()) =~= rest.subrange(i, i + p.len()));
                assert(has_at(s, p, i + 1));
            }
        }
        replaced_absent(rest, p, r);
        assert(seq![s[0]] + rest =~= s);
    } else {
        assert(s =~= seq![]);
    }
}

} // verus!
