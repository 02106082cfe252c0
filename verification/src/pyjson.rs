//! Python's `json.dumps`, character for character, for the values a request can hold.
//!
//! The models were trained on exactly that text. A different float spelling or a different escape
//! changes the token ids, so this writer makes Python's choices.

use crate::json::{entries, int_text, int_to_text, values, Json, Num, Number, Sci, Value};
use crate::text::{
    all_digits, chars_of, dec, dec_reads, decimal, is_digit, number, parse_u64, parsed, parts, piece,
    same, split, split_by, split_some, Class,
};
use vstd::arithmetic::power::{lemma_pow_adds, pow};
use vstd::prelude::*;

verus! {

/// The options of `json.dumps` that vary. The separators are always `", "` and `": "`.
#[derive(Debug, Clone, Copy, PartialEq, Eq, Structural)]
pub struct Dumps {
    /// Escape everything outside printable ASCII as `\uXXXX`, as `json.dumps` does by default.
    pub ensure_ascii: bool,
}

/// The character of a hexadecimal digit.
pub open spec fn hex_digit(d: int) -> char {
    if d < 10 {
        (48 + d) as u8 as char
    } else {
        (87 + d) as u8 as char
    }
}

/// `\uXXXX` for a UTF-16 unit.
pub open spec fn unit_text(u: int) -> Seq<char> {
    seq![
        '\\',
        'u',
        hex_digit(u / 4096),
        hex_digit(u / 256 % 16),
        hex_digit(u / 16 % 16),
        hex_digit(u % 16),
    ]
}

/// The UTF-16 units of a character: itself, or a surrogate pair above `0xffff`.
pub open spec fn units(c: char) -> Seq<int> {
    let u = c as u32 as int;
    if u < 0x10000 {
        seq![u]
    } else {
        seq![0xd800 + (u - 0x10000) / 1024, 0xdc00 + (u - 0x10000) % 1024]
    }
}

/// The `\uXXXX` escapes of a character.
pub open spec fn unit_texts(c: char) -> Seq<char> {
    let u = units(c);
    if u.len() == 1 {
        unit_text(u[0])
    } else {
        unit_text(u[0]) + unit_text(u[1])
    }
}

/// A character inside a JSON string.
pub open spec fn escaped(c: char, ascii: bool) -> Seq<char> {
    if c == '"' {
        seq!['\\', '"']
    } else if c == '\\' {
        seq!['\\', '\\']
    } else if c == '\n' {
        seq!['\\', 'n']
    } else if c == '\r' {
        seq!['\\', 'r']
    } else if c == '\t' {
        seq!['\\', 't']
    } else if c == '\u{8}' {
        seq!['\\', 'b']
    } else if c == '\u{c}' {
        seq!['\\', 'f']
    } else if (c as u32) < 0x20 {
        unit_text(c as u32 as int)
    } else if ascii && !(' ' <= c && c <= '~') {
        unit_texts(c)
    } else {
        seq![c]
    }
}

/// The characters of a JSON string between its quotes.
pub open spec fn all_escaped(s: Seq<char>, ascii: bool) -> Seq<char>
    decreases s.len(),
{
    if s.len() == 0 {
        seq![]
    } else {
        all_escaped(s.drop_last(), ascii) + escaped(s.last(), ascii)
    }
}

/// A JSON string.
pub open spec fn string_text(s: Seq<char>, ascii: bool) -> Seq<char> {
    seq!['"'] + all_escaped(s, ascii) + seq!['"']
}

/// `n` zeros.
pub open spec fn zeros(n: int) -> Seq<char> {
    Seq::new(
        (if n > 0 {
            n
        } else {
            0
        }) as nat,
        |i: int| '0',
    )
}

/// The first digit, if there is one.
pub open spec fn lead(d: Seq<char>) -> Seq<char> {
    if d.len() > 0 {
        seq![d[0]]
    } else {
        seq![]
    }
}

/// A minus sign, or nothing.
pub open spec fn sign(neg: bool) -> Seq<char> {
    if neg {
        seq!['-']
    } else {
        seq![]
    }
}

/// Scientific notation: a sign and at least two digits in the power.
pub open spec fn scientific(d: Seq<char>, exp: int) -> Seq<char> {
    let size = if exp < 0 {
        -exp
    } else {
        exp
    };
    lead(d) + (if d.len() > 1 {
        seq!['.'] + d.skip(1)
    } else {
        seq![]
    }) + seq!['e', if exp < 0 {
        '-'
    } else {
        '+'
    }] + (if size < 10 {
        seq!['0']
    } else {
        seq![]
    }) + dec(size as nat)
}

/// Fixed notation, with a `.0` for a whole number.
pub open spec fn fixed(d: Seq<char>, exp: int) -> Seq<char> {
    if exp < 0 {
        seq!['0', '.'] + zeros(-exp - 1) + d
    } else if d.len() <= exp + 1 {
        d + zeros(exp + 1 - d.len()) + seq!['.', '0']
    } else {
        d.take(exp + 1) + seq!['.'] + d.skip(exp + 1)
    }
}

/// Python's `repr` of a number given by its shortest digits: fixed notation when the power of ten
/// is from -4 to 15, and scientific notation otherwise.
pub open spec fn repr(neg: bool, d: Seq<char>, exp: int) -> Seq<char> {
    sign(neg) + (if -4 <= exp < 16 {
        fixed(d, exp)
    } else {
        scientific(d, exp)
    })
}

/// The digits of a text.
pub open spec fn digits_of(s: Seq<char>) -> Seq<char>
    decreases s.len(),
{
    if s.len() == 0 {
        seq![]
    } else if is_digit(s.last()) {
        digits_of(s.drop_last()).push(s.last())
    } else {
        digits_of(s.drop_last())
    }
}

/// The number that a text writes with a sign or without, from `-2^31 + 1` to `2^31 - 1`.
pub open spec fn signed(s: Seq<char>) -> Option<int> {
    if s.len() > 0 && s[0] == '-' {
        let d = s.drop_first();
        if d.len() > 0 && d[0] == '+' {
            None
        } else {
            match parsed(d, 0x7fff_ffff) {
                Some(n) => Some(-(n as int)),
                None => None,
            }
        }
    } else {
        match parsed(s, 0x7fff_ffff) {
            Some(n) => Some(n as int),
            None => None,
        }
    }
}

/// The parts of `d.ddde-x`: the sign, the digits and the power of ten.
pub open spec fn sci_of(s: Seq<char>) -> Option<(bool, Seq<char>, int)> {
    let p = split_by(s, Class::One('e'));
    let neg = p[0].len() > 0 && p[0][0] == '-';
    if p.len() != 2 {
        None
    } else {
        match signed(p[1]) {
            Some(e) => Some((neg, digits_of(p[0]), e)),
            None => None,
        }
    }
}

/// Python's `repr` of the number that a text in scientific notation writes.
pub open spec fn float_text(s: Seq<char>) -> Seq<char> {
    if s == "inf"@ {
        "Infinity"@
    } else if s == "-inf"@ {
        "-Infinity"@
    } else {
        match sci_of(s) {
            Some((neg, d, e)) => repr(neg, d, e),
            None => "NaN"@,
        }
    }
}

/// `json.dumps` of a number.
pub open spec fn number_text(n: Num) -> Seq<char> {
    match n {
        Num::Int(i) => int_text(i),
        Num::Real(_, neg, digits, exp, _) => repr(neg, digits, exp),
    }
}

/// `json.dumps` of a value.
pub open spec fn dumps(v: Value, ascii: bool) -> Seq<char>
    decreases v, 0int,
{
    match v {
        Value::Null => "null"@,
        Value::Bool(true) => "true"@,
        Value::Bool(false) => "false"@,
        Value::Num(n) => number_text(n),
        Value::Str(s) => string_text(s, ascii),
        Value::Array(items) => seq!['['] + items_text(items, items.len() as int, ascii) + seq![']'],
        Value::Object(m) => seq!['{'] + entries_text(m, m.len() as int, ascii) + seq!['}'],
    }
}

/// The first `n` values with `", "` between them.
pub open spec fn items_text(items: Seq<Value>, n: int, ascii: bool) -> Seq<char>
    decreases items, n,
{
    if n <= 0 || n > items.len() {
        seq![]
    } else {
        items_text(items, n - 1, ascii) + (if n > 1 {
            ", "@
        } else {
            seq![]
        }) + dumps(items[n - 1], ascii)
    }
}

/// The first `n` entries with `", "` between them.
pub open spec fn entries_text(m: Seq<(Seq<char>, Value)>, n: int, ascii: bool) -> Seq<char>
    decreases m, n,
{
    if n <= 0 || n > m.len() {
        seq![]
    } else {
        entries_text(m, n - 1, ascii) + (if n > 1 {
            ", "@
        } else {
            seq![]
        }) + string_text(m[n - 1].0, ascii) + ": "@ + dumps(m[n - 1].1, ascii)
    }
}

/// Whether every character of a text is printable ASCII.
pub open spec fn printable(s: Seq<char>) -> bool {
    forall|i: int| 0 <= i < s.len() ==> ' ' <= #[trigger] s[i] && s[i] <= '~'
}

/// The escapes of a character are printable.
proof fn escapes_are_printable(c: char)
    ensures
        printable(escaped(c, true)),
{
    assert forall|d: int| 0 <= d < 16 implies ' ' <= #[trigger] hex_digit(d) && hex_digit(d)
        <= '~' by {}
    assert forall|u: int| 0 <= u < 0x10000 implies #[trigger] printable(unit_text(u)) by {
        assert(0 <= u / 4096 < 16);
        assert(0 <= u / 256 % 16 < 16);
        assert(0 <= u / 16 % 16 < 16);
        assert(0 <= u % 16 < 16);
    }
    let u = c as u32 as int;
    assert(u <= 0x10ffff);
    assert(units(c).len() == 2 ==> 0xd800 <= units(c)[0] < 0xdc00 && 0xdc00 <= units(c)[1] < 0xe000);
}

/// With `ensure_ascii` a string is printable ASCII, whatever it holds.
pub proof fn ascii_strings_are_ascii(s: Seq<char>)
    ensures
        printable(string_text(s, true)),
{
    ascii_escapes(s);
}

/// The escapes of a text are printable.
proof fn ascii_escapes(s: Seq<char>)
    ensures
        printable(all_escaped(s, true)),
    decreases s.len(),
{
    if s.len() > 0 {
        ascii_escapes(s.drop_last());
        escapes_are_printable(s.last());
    }
}

/// The digit that a lower case hexadecimal character stands for.
pub open spec fn hex_value(c: char) -> int {
    if '0' <= c && c <= '9' {
        c as u32 - 48
    } else if 'a' <= c && c <= 'f' {
        c as u32 - 87
    } else {
        -0x10000
    }
}

/// The UTF-16 unit that four hexadecimal digits from `i` on write.
pub open spec fn unit_at(t: Seq<char>, i: int) -> int {
    hex_value(t[i]) * 4096 + hex_value(t[i + 1]) * 256 + hex_value(t[i + 2]) * 16 + hex_value(
        t[i + 3],
    )
}

/// The code point that a JSON reader takes from the front of a text inside quotes, and how many
/// characters it reads for it.
pub open spec fn read_one(t: Seq<char>) -> (int, int) {
    if t[0] != '\\' {
        (t[0] as u32 as int, 1)
    } else if t[1] == 'u' {
        let u = unit_at(t, 2);
        let low = unit_at(t, 8);
        if 0xd800 <= u < 0xdc00 && t[6] == '\\' && t[7] == 'u' && 0xdc00 <= low < 0xe000 {
            (0x10000 + (u - 0xd800) * 1024 + (low - 0xdc00), 12)
        } else {
            (u, 6)
        }
    } else if t[1] == 'n' {
        (0xa, 2)
    } else if t[1] == 'r' {
        (0xd, 2)
    } else if t[1] == 't' {
        (0x9, 2)
    } else if t[1] == 'b' {
        (0x8, 2)
    } else if t[1] == 'f' {
        (0xc, 2)
    } else {
        (t[1] as u32 as int, 2)
    }
}

/// The code points that a JSON reader takes from a text up to the first quote that no escape
/// holds.
pub open spec fn read_string(t: Seq<char>) -> Seq<int>
    decreases t.len(),
{
    if t.len() == 0 || t[0] == '"' || read_one(t).1 > t.len() {
        seq![]
    } else {
        seq![read_one(t).0] + read_string(t.skip(read_one(t).1))
    }
}

/// The code points of a text.
pub open spec fn code_points(s: Seq<char>) -> Seq<int> {
    Seq::new(s.len(), |i: int| s[i] as u32 as int)
}

/// A hexadecimal digit reads back.
proof fn hex_reads(d: int)
    requires
        0 <= d < 16,
    ensures
        hex_value(hex_digit(d)) == d,
{
}

/// A unit reads back, wherever it stands.
proof fn unit_reads(u: int, t: Seq<char>, i: int)
    requires
        0 <= u < 0x10000,
        0 <= i,
        i + 6 <= t.len(),
        t.subrange(i, i + 6) == unit_text(u),
    ensures
        t[i] == '\\',
        t[i + 1] == 'u',
        unit_at(t, i + 2) == u,
{
    let e = t.subrange(i, i + 6);
    assert(e[0] == t[i] && e[1] == t[i + 1] && e[2] == t[i + 2]);
    assert(e[3] == t[i + 3] && e[4] == t[i + 4] && e[5] == t[i + 5]);
    hex_reads(u / 4096);
    hex_reads(u / 256 % 16);
    hex_reads(u / 16 % 16);
    hex_reads(u % 16);
}

/// One escaped character reads back, whatever follows.
proof fn escape_reads(c: char, ascii: bool, rest: Seq<char>)
    ensures
        escaped(c, ascii).len() > 0,
        escaped(c, ascii)[0] != '"',
        read_one(escaped(c, ascii) + rest) == (c as u32 as int, escaped(c, ascii).len() as int),
{
    let e = escaped(c, ascii);
    let t = e + rest;
    let u = c as u32 as int;
    assert(u < 0xd800 || 0xe000 <= u <= 0x10ffff);
    assert(t[0] == e[0]);
    if e.len() > 1 {
        assert(t[1] == e[1]);
    }
    if e.len() == 6 {
        assert(t.subrange(0, 6) =~= e);
        unit_reads(u, t, 0);
    } else if e.len() == 12 {
        let us = units(c);
        assert(0xd800 <= us[0] < 0xdc00 && 0xdc00 <= us[1] < 0xe000);
        assert(t.subrange(0, 6) =~= unit_text(us[0]));
        assert(t.subrange(6, 12) =~= unit_text(us[1]));
        unit_reads(us[0], t, 0);
        unit_reads(us[1], t, 6);
    }
}

/// The escapes of a text start with those of its first character.
proof fn escapes_start(s: Seq<char>, ascii: bool)
    requires
        s.len() > 0,
    ensures
        all_escaped(s, ascii) == escaped(s[0], ascii) + all_escaped(s.skip(1), ascii),
    decreases s.len(),
{
    if s.len() == 1 {
        assert(s.drop_last() =~= seq![]);
        assert(s.skip(1) =~= seq![]);
        assert(all_escaped(s.drop_last(), ascii) =~= seq![]);
        assert(all_escaped(s, ascii) =~= escaped(s[0], ascii) + all_escaped(s.skip(1), ascii));
    } else {
        escapes_start(s.drop_last(), ascii);
        assert(s.drop_last().skip(1) =~= s.skip(1).drop_last());
        assert(s.skip(1).last() == s.last());
        assert(all_escaped(s, ascii) =~= escaped(s[0], ascii) + all_escaped(s.skip(1), ascii));
    }
}

/// A written string reads back: between its quotes a JSON reader finds exactly its characters, and
/// stops at the quote that closes it, whatever follows.
pub proof fn a_string_reads_back(s: Seq<char>, ascii: bool, rest: Seq<char>)
    ensures
        string_text(s, ascii)[0] == '"',
        read_string((string_text(s, ascii) + rest).skip(1)) == code_points(s),
{
    let t = (string_text(s, ascii) + rest).skip(1);
    assert(t =~= all_escaped(s, ascii) + (seq!['"'] + rest));
    escapes_read(s, ascii, rest);
}

/// The escapes of a text read back up to the quote behind them.
proof fn escapes_read(s: Seq<char>, ascii: bool, rest: Seq<char>)
    ensures
        read_string(all_escaped(s, ascii) + (seq!['"'] + rest)) == code_points(s),
    decreases s.len(),
{
    let q = seq!['"'] + rest;
    let t = all_escaped(s, ascii) + q;
    if s.len() == 0 {
        assert(t =~= q);
        assert(q[0] == '"');
        assert(read_string(t) =~= code_points(s));
    } else {
        let tail = all_escaped(s.skip(1), ascii) + q;
        escapes_start(s, ascii);
        assert(t =~= escaped(s[0], ascii) + tail);
        escape_reads(s[0], ascii, tail);
        escapes_read(s.skip(1), ascii, rest);
        assert(t.skip(read_one(t).1) =~= tail);
        assert(read_string(t) =~= seq![s[0] as u32 as int] + code_points(s.skip(1)));
        assert(seq![s[0] as u32 as int] + code_points(s.skip(1)) =~= code_points(s));
    }
}

/// No more is escaped than must be: a text of printable characters without a quote and without a
/// backslash stands in its quotes as it is, and above ASCII too where ASCII is not asked for.
pub proof fn a_plain_string_is_kept(s: Seq<char>, ascii: bool)
    requires
        forall|i: int| #![trigger s[i]]
            0 <= i < s.len() ==> s[i] >= ' ' && s[i] != '"' && s[i] != '\\' && (ascii ==> s[i]
                <= '~'),
    ensures
        string_text(s, ascii) == seq!['"'] + s + seq!['"'],
{
    plain_escapes(s, ascii);
}

/// A plain character is not escaped.
proof fn plain_escape(c: char, ascii: bool)
    requires
        c >= ' ' && c != '"' && c != '\\' && (ascii ==> c <= '~'),
    ensures
        escaped(c, ascii) == seq![c],
{
}

/// Nothing in a plain text is escaped.
proof fn plain_escapes(s: Seq<char>, ascii: bool)
    requires
        forall|i: int| #![trigger s[i]]
            0 <= i < s.len() ==> s[i] >= ' ' && s[i] != '"' && s[i] != '\\' && (ascii ==> s[i]
                <= '~'),
    ensures
        all_escaped(s, ascii) == s,
    decreases s.len(),
{
    if s.len() > 0 {
        assert forall|i: int| #![trigger s.drop_last()[i]]
            0 <= i < s.drop_last().len() implies s.drop_last()[i] == s[i] by {}
        plain_escapes(s.drop_last(), ascii);
        let c = s[s.len() - 1];
        assert(s.last() == c);
        plain_escape(c, ascii);
        assert(s =~= s.drop_last() + seq![c]);
    } else {
        assert(all_escaped(s, ascii) =~= s);
    }
}

/// The seven characters that JSON has a letter or a sign for are written with it.
pub proof fn usual_escapes_are_short(c: char, ascii: bool)
    requires
        c == '"' || c == '\\' || c == '\n' || c == '\r' || c == '\t' || c == '\u{8}' || c
            == '\u{c}',
    ensures
        all_escaped(seq![c], ascii).len() == 2,
{
    escapes_start(seq![c], ascii);
    assert(seq![c].skip(1) =~= seq![]);
    assert(all_escaped(seq![c].skip(1), ascii) =~= seq![]);
}

/// Zeros before digits change nothing.
proof fn zeros_before(d: Seq<char>, k: int)
    requires
        k >= 0,
    ensures
        number(zeros(k) + d) == number(d),
    decreases d.len() + k,
{
    let s = zeros(k) + d;
    if d.len() > 0 {
        zeros_before(d.drop_last(), k);
        assert(s.drop_last() =~= zeros(k) + d.drop_last());
        assert(s.last() == d.last());
    } else if k > 0 {
        zeros_before(d, k - 1);
        assert(s.drop_last() =~= zeros(k - 1) + d);
        assert(s.last() == '0');
    } else {
        assert(s =~= d);
    }
}

/// A zero behind digits makes ten times the number.
proof fn zeros_behind(d: Seq<char>, k: int)
    requires
        k >= 0,
    ensures
        number(d + zeros(k)) == number(d) * pow(10, k as nat),
    decreases k,
{
    let s = d + zeros(k);
    if k > 0 {
        zeros_behind(d, k - 1);
        assert(s.drop_last() =~= d + zeros(k - 1));
        assert(s.last() == '0');
        reveal(pow);
        let (n, p) = (number(d) as int, pow(10, (k - 1) as nat));
        assert(n * p * 10 == n * (10 * p)) by (nonlinear_arith);
    } else {
        assert(s =~= d);
        reveal(pow);
    }
}

/// A number from 0.0001 up to 10^16 is written in full: digits, a point and digits, which write the
/// value of the shortest digits at their power of ten.
pub proof fn a_number_is_written_in_full(neg: bool, d: Seq<char>, exp: int)
    requires
        all_digits(d),
        -4 <= exp < 16,
    ensures
        exists|whole: Seq<char>, frac: Seq<char>|
            #![trigger whole + frac]
            all_digits(whole) && all_digits(frac) && repr(neg, d, exp) == (if neg {
                seq!['-']
            } else {
                seq![]
            }) + (whole + seq!['.'] + frac) && exp + frac.len() >= 0 && number(whole + frac) * pow(
                10,
                (d.len() - 1) as nat,
            ) == number(d) * pow(10, (exp + frac.len()) as nat),
{
    let n = d.len() as int;
    if exp < 0 {
        let whole = seq!['0'];
        let frac = zeros(-exp - 1) + d;
        assert(whole + frac =~= zeros(-exp) + d);
        zeros_before(d, -exp);
        assert(is_digit('0'));
        assert(all_digits(whole));
        assert forall|i: int| 0 <= i < frac.len() implies is_digit(#[trigger] frac[i]) by {
            if i >= -exp - 1 {
                assert(frac[i] == d[i + exp + 1]);
            }
        }
        assert(fixed(d, exp) =~= whole + seq!['.'] + frac);
        assert(repr(neg, d, exp) == sign(neg) + (whole + seq!['.'] + frac));
        assert(all_digits(whole) && all_digits(frac) && number(whole + frac) == number(d));
    } else if n <= exp + 1 {
        let k = exp + 1 - n;
        let whole = d + zeros(k);
        let frac = seq!['0'];
        assert(whole + frac =~= d + zeros(k + 1));
        zeros_behind(d, k + 1);
        lemma_pow_adds(10, (k + 1) as nat, (n - 1) as nat);
        let (x, p, q) = (number(d) as int, pow(10, (k + 1) as nat), pow(10, (n - 1) as nat));
        assert(x * p * q == x * (p * q)) by (nonlinear_arith);
        assert(is_digit('0'));
        assert forall|i: int| 0 <= i < whole.len() implies is_digit(#[trigger] whole[i]) by {
            if i < n {
                assert(whole[i] == d[i]);
            }
        }
        assert(fixed(d, exp) =~= whole + seq!['.'] + frac);
        assert(repr(neg, d, exp) == sign(neg) + (whole + seq!['.'] + frac));
        assert(all_digits(whole) && all_digits(frac));
        assert((k + 1) + (n - 1) == exp + frac.len());
        assert(number(whole + frac) * q == x * pow(10, (exp + frac.len()) as nat));
    } else {
        let whole = d.take(exp + 1);
        let frac = d.skip(exp + 1);
        assert(whole + frac =~= d);
        assert(fixed(d, exp) =~= whole + seq!['.'] + frac);
        assert(repr(neg, d, exp) == sign(neg) + (whole + seq!['.'] + frac));
        assert(all_digits(whole) && all_digits(frac));
        assert(exp + frac.len() == n - 1);
    }
}

/// Any other number is written with its power of ten: one digit, the others behind a point when
/// there are others, and the power with its sign and at least two digits.
pub proof fn a_number_is_written_with_its_power(neg: bool, d: Seq<char>, exp: int)
    requires
        all_digits(d),
        exp < -4 || exp >= 16,
    ensures
        exists|power: Seq<char>|
            #[trigger] all_digits(power) && power.len() >= 2 && number(power) == (if exp < 0 {
                -exp
            } else {
                exp
            }) && repr(neg, d, exp) == (if neg {
                seq!['-']
            } else {
                seq![]
            }) + ((if d.len() == 1 {
                d
            } else {
                seq![d[0], '.'] + d.skip(1)
            }) + (seq!['e', if exp < 0 {
                '-'
            } else {
                '+'
            }] + power)),
{
    let size = (if exp < 0 {
        -exp
    } else {
        exp
    }) as nat;
    let power = (if size < 10 {
        seq!['0']
    } else {
        seq![]
    }) + dec(size);
    let e = seq!['e', if exp < 0 {
        '-'
    } else {
        '+'
    }];
    dec_reads(size);
    if size < 10 {
        zeros_before(dec(size), 1);
        assert(power =~= zeros(1) + dec(size));
        assert(is_digit('0'));
        assert forall|i: int| 0 <= i < power.len() implies is_digit(#[trigger] power[i]) by {
            if i >= 1 {
                assert(power[i] == dec(size)[i - 1]);
            }
        }
    } else {
        assert(power =~= dec(size));
        assert(dec(size).len() >= 2) by {
            assert(dec(size / 10).len() >= 1) by {
                dec_reads(size / 10);
            }
        }
    }
    let head = if d.len() == 1 {
        d
    } else {
        seq![d[0], '.'] + d.skip(1)
    };
    assert(scientific(d, exp) =~= head + (e + power));
    assert(repr(neg, d, exp) == sign(neg) + (head + (e + power)));
    assert(number(power) == size);
    assert(power.len() >= 2);
    assert(all_digits(power));
}

/// The first values of a list go by those values alone.
proof fn items_alike(a: Seq<Value>, b: Seq<Value>, n: int, ascii: bool)
    requires
        0 <= n <= a.len() && n <= b.len(),
        forall|i: int| 0 <= i < n ==> a[i] == #[trigger] b[i],
    ensures
        items_text(a, n, ascii) == items_text(b, n, ascii),
    decreases n,
{
    if n > 0 {
        items_alike(a, b, n - 1, ascii);
        assert(a[n - 1] == b[n - 1]);
    }
}

/// The first entries of an object go by those entries alone.
proof fn entries_alike(
    a: Seq<(Seq<char>, Value)>,
    b: Seq<(Seq<char>, Value)>,
    n: int,
    ascii: bool,
)
    requires
        0 <= n <= a.len() && n <= b.len(),
        forall|i: int| 0 <= i < n ==> a[i] == #[trigger] b[i],
    ensures
        entries_text(a, n, ascii) == entries_text(b, n, ascii),
    decreases n,
{
    if n > 0 {
        entries_alike(a, b, n - 1, ascii);
        assert(a[n - 1] == b[n - 1]);
    }
}

/// A list is written value by value: in brackets, with a comma and a blank before every value but
/// the first.
pub proof fn a_list_is_written_value_by_value(items: Seq<Value>, v: Value, ascii: bool)
    requires
        items.len() > 0,
    ensures
        dumps(Value::Array(seq![]), ascii) == "[]"@,
        dumps(Value::Array(seq![v]), ascii) == "["@ + dumps(v, ascii) + "]"@,
        dumps(Value::Array(items.push(v)), ascii) == dumps(Value::Array(items), ascii).drop_last()
            + ", "@ + dumps(v, ascii) + "]"@,
{
    reveal_strlit("[");
    reveal_strlit("]");
    reveal_strlit("[]");
    reveal_with_fuel(items_text, 2);
    let none = Seq::<Value>::empty();
    assert(items_text(none, 0, ascii) =~= seq![]);
    assert(dumps(Value::Array(none), ascii) =~= "[]"@);
    let one = seq![v];
    assert(items_text(one, 0, ascii) =~= seq![]);
    assert(items_text(one, 1, ascii) =~= dumps(v, ascii));
    assert(dumps(Value::Array(one), ascii) =~= "["@ + dumps(v, ascii) + "]"@);
    let more = items.push(v);
    let n = items.len() as int;
    items_alike(items, more, n, ascii);
    assert(more[n] == v);
    assert(items_text(more, n + 1, ascii) == items_text(items, n, ascii) + ", "@ + dumps(v, ascii));
    assert(dumps(Value::Array(more), ascii) =~= dumps(Value::Array(items), ascii).drop_last()
        + ", "@ + dumps(v, ascii) + "]"@);
}

/// An object is written entry by entry: in braces, with a comma and a blank before every entry but
/// the first, and with a colon and a blank between a key and its value.
pub proof fn an_object_is_written_entry_by_entry(
    m: Seq<(Seq<char>, Value)>,
    key: Seq<char>,
    v: Value,
    ascii: bool,
)
    requires
        m.len() > 0,
    ensures
        dumps(Value::Object(seq![]), ascii) == "{}"@,
        dumps(Value::Object(seq![(key, v)]), ascii) == "{"@ + string_text(key, ascii) + ": "@
            + dumps(v, ascii) + "}"@,
        dumps(Value::Object(m.push((key, v))), ascii) == dumps(
            Value::Object(m),
            ascii,
        ).drop_last() + ", "@ + string_text(key, ascii) + ": "@ + dumps(v, ascii) + "}"@,
{
    reveal_strlit("{");
    reveal_strlit("}");
    reveal_strlit("{}");
    reveal_with_fuel(entries_text, 2);
    let none = Seq::<(Seq<char>, Value)>::empty();
    assert(entries_text(none, 0, ascii) =~= seq![]);
    assert(dumps(Value::Object(none), ascii) =~= "{}"@);
    let one = seq![(key, v)];
    let pair = string_text(key, ascii) + ": "@ + dumps(v, ascii);
    assert(entries_text(one, 0, ascii) =~= seq![]);
    assert(entries_text(one, 1, ascii) =~= pair);
    assert(dumps(Value::Object(one), ascii) =~= "{"@ + string_text(key, ascii) + ": "@ + dumps(
        v,
        ascii,
    ) + "}"@);
    let more = m.push((key, v));
    let n = m.len() as int;
    entries_alike(m, more, n, ascii);
    assert(more[n] == (key, v));
    assert(entries_text(more, n + 1, ascii) == entries_text(m, n, ascii) + ", "@ + string_text(
        key,
        ascii,
    ) + ": "@ + dumps(v, ascii));
    assert(dumps(Value::Object(more), ascii) =~= dumps(Value::Object(m), ascii).drop_last() + ", "@
        + string_text(key, ascii) + ": "@ + dumps(v, ascii) + "}"@);
}

/// The character of a hexadecimal digit.
pub(crate) fn hex(d: u32) -> (c: char)
    requires
        d < 16,
    ensures
        c == hex_digit(d as int),
{
    if d < 10 {
        (48 + d as u8) as char
    } else {
        (87 + d as u8) as char
    }
}

/// Appends `\uXXXX` for a UTF-16 unit.
fn push_u(out: &mut String, unit: u32)
    requires
        unit < 0x10000,
    ensures
        final(out)@ == old(out)@ + unit_text(unit as int),
{
    let ghost before = out@;
    out.push('\\');
    out.push('u');
    out.push(hex(unit / 4096));
    out.push(hex(unit / 256 % 16));
    out.push(hex(unit / 16 % 16));
    out.push(hex(unit % 16));
    assert(out@ =~= before + unit_text(unit as int));
}

/// Appends `n` zeros.
fn push_zeros(out: &mut String, n: usize)
    ensures
        final(out)@ == old(out)@ + zeros(n as int),
{
    let ghost before = out@;
    let mut i: usize = 0;
    assert(out@ =~= before + zeros(0));
    while i < n
        invariant
            i <= n,
            out@ == before + zeros(i as int),
        decreases n - i,
    {
        out.push('0');
        i += 1;
        assert(out@ =~= before + zeros(i as int));
    }
}

/// Appends characters `from..to`.
fn push_chars(out: &mut String, cs: &Vec<char>, from: usize, to: usize)
    requires
        from <= to <= cs@.len(),
    ensures
        final(out)@ == old(out)@ + cs@.subrange(from as int, to as int),
{
    let ghost before = out@;
    let mut i: usize = from;
    assert(out@ =~= before + cs@.subrange(from as int, from as int));
    while i < to
        invariant
            from <= i <= to <= cs@.len(),
            out@ == before + cs@.subrange(from as int, i as int),
        decreases to - i,
    {
        out.push(cs[i]);
        i += 1;
        assert(out@ =~= before + cs@.subrange(from as int, i as int));
    }
}

/// Appends a number in scientific notation.
fn push_scientific(f: &Sci, out: &mut String)
    ensures
        final(out)@ == old(out)@ + scientific(f.digits@, f.exp as int),
{
    let ghost before = out@;
    let n: usize = f.digits.len();
    let ghost d = f.digits@;
    let exp: i64 = f.exp as i64;
    if n > 0 {
        out.push(f.digits[0]);
    }
    if n > 1 {
        out.push('.');
        push_chars(out, &f.digits, 1, n);
        assert(d.subrange(1, n as int) =~= d.skip(1));
    }
    out.push('e');
    out.push(
        if exp < 0 {
            '-'
        } else {
            '+'
        },
    );
    let size: u64 = if exp < 0 {
        (-exp) as u64
    } else {
        exp as u64
    };
    if size < 10 {
        out.push('0');
    }
    out.append(decimal(size).as_str());
    assert(out@ =~= before + scientific(d, f.exp as int));
}

/// Appends a number in fixed notation.
fn push_fixed(f: &Sci, out: &mut String)
    requires
        -4 <= f.exp < 16,
    ensures
        final(out)@ == old(out)@ + fixed(f.digits@, f.exp as int),
{
    let ghost before = out@;
    let n: usize = f.digits.len();
    let ghost d = f.digits@;
    assert(d.subrange(0, n as int) =~= d);
    if f.exp < 0 {
        out.push('0');
        out.push('.');
        push_zeros(out, (-f.exp - 1) as usize);
        push_chars(out, &f.digits, 0, n);
    } else {
        let point: usize = f.exp as usize + 1;
        if n <= point {
            push_chars(out, &f.digits, 0, n);
            push_zeros(out, point - n);
            out.push('.');
            out.push('0');
        } else {
            push_chars(out, &f.digits, 0, point);
            assert(d.subrange(0, point as int) =~= d.take(point as int));
            out.push('.');
            push_chars(out, &f.digits, point, n);
            assert(d.subrange(point as int, n as int) =~= d.skip(point as int));
        }
    }
    assert(out@ =~= before + fixed(d, f.exp as int));
}

/// Appends Python's `repr` of a finite number.
pub fn sci_repr(f: &Sci, out: &mut String)
    ensures
        final(out)@ == old(out)@ + repr(f.neg, f.digits@, f.exp as int),
{
    let ghost before = out@;
    if f.neg {
        out.push('-');
    }
    assert(out@ =~= before + sign(f.neg));
    if f.exp < -4 || f.exp >= 16 {
        push_scientific(f, out);
    } else {
        push_fixed(f, out);
    }
    assert(out@ =~= before + repr(f.neg, f.digits@, f.exp as int));
}

/// The number that a text writes with a sign or without.
fn parse_signed(cs: &Vec<char>) -> (r: Option<i32>)
    ensures
        match r {
            Some(e) => signed(cs@) == Some(e as int),
            None => signed(cs@) is None,
        },
{
    if cs.len() > 0 && cs[0] == '-' {
        let d = piece(cs, 1, cs.len());
        assert(d@ =~= cs@.drop_first());
        if d.len() > 0 && d[0] == '+' {
            return None;
        }
        match parse_u64(&d, 0x7fff_ffff) {
            Some(n) => Some(-(n as i32)),
            None => None,
        }
    } else {
        match parse_u64(cs, 0x7fff_ffff) {
            Some(n) => Some(n as i32),
            None => None,
        }
    }
}

impl Sci {
    /// The number that a text like `d.ddde-x` writes.
    pub fn parse(text: &str) -> (r: Option<Sci>)
        ensures
            match r {
                Some(f) => sci_of(text@) == Some((f.neg, f.digits@, f.exp as int)),
                None => sci_of(text@) is None,
            },
    {
        let cs = chars_of(text);
        let p = split(&cs, Class::One('e'));
        proof {
            split_some(cs@, Class::One('e'));
            assert(p@.len() == parts(p@).len());
            assert(p@[0]@ == parts(p@)[0]);
        }
        if p.len() != 2 {
            return None;
        }
        assert(p@[1]@ == parts(p@)[1]);
        let neg = p[0].len() > 0 && p[0][0] == '-';
        let mut digits: Vec<char> = Vec::new();
        let mut i: usize = 0;
        assert(digits@ =~= digits_of(p@[0]@.take(0)));
        while i < p[0].len()
            invariant
                p@.len() == 2,
                i <= p@[0]@.len(),
                digits@ == digits_of(p@[0]@.take(i as int)),
            decreases p@[0]@.len() - i,
        {
            let c = p[0][i];
            if '0' <= c && c <= '9' {
                digits.push(c);
            }
            i += 1;
            proof {
                let t = p@[0]@.take(i as int);
                assert(t.drop_last() =~= p@[0]@.take(i - 1));
                assert(t.last() == c);
            }
        }
        assert(p@[0]@.take(i as int) =~= p@[0]@);
        match parse_signed(&p[1]) {
            Some(exp) => Some(Sci { neg, digits, exp }),
            None => None,
        }
    }
}

/// Appends Python's `repr` of the number whose shortest digits that round trip are `text`, in
/// scientific notation as `d.ddde-x`, or `inf`, `-inf` or `NaN`.
pub fn float_repr(text: &str, out: &mut String)
    ensures
        final(out)@ == old(out)@ + float_text(text@),
{
    if same(text, "inf") {
        out.append("Infinity");
    } else if same(text, "-inf") {
        out.append("-Infinity");
    } else {
        match Sci::parse(text) {
            Some(f) => sci_repr(&f, out),
            None => out.append("NaN"),
        }
    }
}

impl Dumps {
    /// `json.dumps(value, ensure_ascii=...)`.
    pub fn to_string(self, value: &Json) -> (r: String)
        ensures
            r@ == dumps(value@, self.ensure_ascii),
    {
        let mut out = String::new();
        self.write(value, &mut out);
        assert(out@ =~= dumps(value@, self.ensure_ascii));
        out
    }

    /// Appends `json.dumps(value)` to `out`.
    pub fn write(self, value: &Json, out: &mut String)
        ensures
            final(out)@ == old(out)@ + dumps(value@, self.ensure_ascii),
        decreases value,
    {
        let ghost before = out@;
        match value {
            Json::Null => out.append("null"),
            Json::Bool(b) => {
                if *b {
                    out.append("true");
                } else {
                    out.append("false");
                }
            },
            Json::Num(n) => match n {
                Number::Int(i) => out.append(int_to_text(*i).as_str()),
                Number::Big(u) => out.append(decimal(*u).as_str()),
                Number::Real(_, s, _) => sci_repr(s, out),
            },
            Json::Str(s) => self.string(s.as_str(), out),
            Json::Array(items) => {
                proof {
                    crate::json::array_view(*items);
                }
                out.push('[');
                self.items(items, out);
                out.push(']');
                assert(out@ =~= before + dumps(value@, self.ensure_ascii));
            },
            Json::Object(m) => {
                proof {
                    crate::json::object_view(*m);
                }
                out.push('{');
                self.object(m, out);
                out.push('}');
                assert(out@ =~= before + dumps(value@, self.ensure_ascii));
            },
        }
    }

    /// Appends values with `", "` between them.
    fn items(self, v: &Vec<Json>, out: &mut String)
        ensures
            final(out)@ == old(out)@ + items_text(
                values(v@),
                v@.len() as int,
                self.ensure_ascii,
            ),
        decreases v,
    {
        let ghost before = out@;
        let mut i: usize = 0;
        assert(out@ =~= before + items_text(values(v@), 0, self.ensure_ascii));
        while i < v.len()
            invariant
                i <= v@.len(),
                out@ == before + items_text(values(v@), i as int, self.ensure_ascii),
            decreases v@.len() - i,
        {
            if i > 0 {
                out.append(", ");
            }
            assert(decreases_to!(v => v@[i as int]));
            self.write(&v[i], out);
            i += 1;
            assert(out@ =~= before + items_text(values(v@), i as int, self.ensure_ascii));
        }
    }

    /// Appends entries with `", "` between them.
    fn object(self, m: &Vec<(String, Json)>, out: &mut String)
        ensures
            final(out)@ == old(out)@ + entries_text(
                entries(m@),
                m@.len() as int,
                self.ensure_ascii,
            ),
        decreases m,
    {
        let ghost before = out@;
        let mut i: usize = 0;
        assert(out@ =~= before + entries_text(entries(m@), 0, self.ensure_ascii));
        while i < m.len()
            invariant
                i <= m@.len(),
                out@ == before + entries_text(entries(m@), i as int, self.ensure_ascii),
            decreases m@.len() - i,
        {
            if i > 0 {
                out.append(", ");
            }
            assert(decreases_to!(m => m@[i as int]));
            let e = &m[i];
            assert(decreases_to!(m@[i as int] => e.1));
            self.string(e.0.as_str(), out);
            out.append(": ");
            self.write(&e.1, out);
            i += 1;
            assert(out@ =~= before + entries_text(entries(m@), i as int, self.ensure_ascii));
        }
    }

    /// Appends a JSON string.
    fn string(self, s: &str, out: &mut String)
        ensures
            final(out)@ == old(out)@ + string_text(s@, self.ensure_ascii),
    {
        let ghost before = out@;
        out.push('"');
        let cs = chars_of(s);
        let mut i: usize = 0;
        let ghost start = out@;
        assert(out@ =~= start + all_escaped(cs@.take(0), self.ensure_ascii));
        while i < cs.len()
            invariant
                i <= cs@.len(),
                out@ == start + all_escaped(cs@.take(i as int), self.ensure_ascii),
            decreases cs@.len() - i,
        {
            self.escape(cs[i], out);
            i += 1;
            proof {
                let t = cs@.take(i as int);
                assert(t.drop_last() =~= cs@.take(i - 1));
                assert(out@ =~= start + all_escaped(t, self.ensure_ascii));
            }
        }
        assert(cs@.take(i as int) =~= cs@);
        out.push('"');
        assert(out@ =~= before + string_text(s@, self.ensure_ascii));
    }

    /// Appends a character of a JSON string.
    fn escape(self, c: char, out: &mut String)
        ensures
            final(out)@ == old(out)@ + escaped(c, self.ensure_ascii),
    {
        let ghost before = out@;
        let u: u32 = c as u32;
        let short: Option<char> = if c == '"' {
            Some('"')
        } else if c == '\\' {
            Some('\\')
        } else if c == '\n' {
            Some('n')
        } else if c == '\r' {
            Some('r')
        } else if c == '\t' {
            Some('t')
        } else if c == '\u{8}' {
            Some('b')
        } else if c == '\u{c}' {
            Some('f')
        } else {
            None
        };
        if let Some(s) = short {
            out.push('\\');
            out.push(s);
        } else if u < 0x20 {
            push_u(out, u);
        } else if self.ensure_ascii && !(' ' <= c && c <= '~') {
            if u < 0x10000 {
                push_u(out, u);
            } else {
                push_u(out, 0xd800 + (u - 0x10000) / 1024);
                push_u(out, 0xdc00 + (u - 0x10000) % 1024);
            }
        } else {
            out.push(c);
        }
        assert(out@ =~= before + escaped(c, self.ensure_ascii));
    }
}

} // verus!
