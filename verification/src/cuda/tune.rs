//! Which of the ranked algorithms each product runs.

use crate::cuda::types::Ty;
use crate::ieee::{above, greater, is_nan, rank};
use crate::text::{
    chars_of, dec, dec_parses, dec_reads, decimal, free_of, full_of, is_digit, is_text,
    parse_usize, parsed, parts, split, split_before, split_behind, split_by, split_free,
    split_some, three_words, trim, trim_core, trimmed, trimmed_ends, white, words, words_of, Class,
};
use vstd::prelude::*;

verus! {

/// Rows, inner size and columns of a product.
#[derive(Debug, Clone, Copy, PartialEq, Eq, Structural)]
pub struct Dims {
    /// Rows.
    pub m: usize,
    /// Inner size.
    pub k: usize,
    /// Columns.
    pub n: usize,
}

/// A product's shape: rows, inner size, columns, input type, output type and whether it
/// accumulates.
#[derive(Debug, Clone, Copy, PartialEq, Eq, Structural)]
pub struct Key {
    /// Rows, inner size and columns.
    pub dims: Dims,
    /// The type of the weight and the input.
    pub ab: Ty,
    /// The type of the output.
    pub c: Ty,
    /// Whether it accumulates.
    pub acc: bool,
}

/// The picks of one GPU, in the order of the table's lines.
#[derive(Debug)]
pub struct Picks {
    /// Shapes and ranks.
    pub lines: Vec<(Key, usize)>,
}

/// The rank of the last line for `key` among the first `n`, 0 when there is none.
pub open spec fn last_pick(lines: Seq<(Key, usize)>, n: int, key: Key) -> usize
    decreases n,
{
    if n <= 0 {
        0
    } else if lines[n - 1].0 == key {
        lines[n - 1].1
    } else {
        last_pick(lines, n - 1, key)
    }
}

impl Picks {
    /// The rank to run for `key`: that of its last line, 0 when the table has none.
    pub open spec fn spec_get(&self, key: Key) -> usize {
        last_pick(self.lines@, self.lines@.len() as int, key)
    }

    /// The rank to run for `key`, 0 when the table has none.
    pub fn get(&self, key: &Key) -> (r: usize)
        ensures
            r == self.spec_get(*key),
    {
        let mut n: usize = self.lines.len();
        while n > 0
            invariant
                n <= self.lines@.len(),
                self.spec_get(*key) == last_pick(self.lines@, n as int, *key),
            decreases n,
        {
            if self.lines[n - 1].0 == *key {
                return self.lines[n - 1].1;
            }
            n -= 1;
        }
        0
    }
}

/// The name of an element type.
pub open spec fn ty_name(t: Ty) -> Seq<char> {
    match t {
        Ty::F16 => "f16"@,
        Ty::F32 => "f32"@,
    }
}

/// The name of an element type.
fn ty_text(t: Ty) -> (r: &'static str)
    ensures
        r@ == ty_name(t),
{
    match t {
        Ty::F16 => "f16",
        Ty::F32 => "f32",
    }
}

/// How a line says whether a product accumulates.
pub open spec fn acc_name(acc: bool) -> Seq<char> {
    if acc {
        "add"@
    } else {
        "set"@
    }
}

/// `"{gpu} | {m} {k} {n} | {ab} {c} {acc} | {pick}"`.
pub open spec fn line_text(key: Key, gpu: Seq<char>, pick: int) -> Seq<char> {
    gpu + " | "@ + dec(key.dims.m as nat) + " "@ + dec(key.dims.k as nat) + " "@ + dec(
        key.dims.n as nat,
    ) + " | "@ + ty_name(key.ab) + " "@ + ty_name(key.c) + " "@ + acc_name(key.acc) + " | "@ + dec(
        pick as nat,
    )
}

impl Key {
    /// The table line that pins `pick` for this shape.
    pub fn line(&self, gpu: &str, pick: usize) -> (r: String)
        ensures
            r@ == line_text(*self, gpu@, pick as int),
    {
        let mut r = gpu.to_owned();
        r.append(" | ");
        r.append(decimal(self.dims.m as u64).as_str());
        r.append(" ");
        r.append(decimal(self.dims.k as u64).as_str());
        r.append(" ");
        r.append(decimal(self.dims.n as u64).as_str());
        r.append(" | ");
        r.append(ty_text(self.ab));
        r.append(" ");
        r.append(ty_text(self.c));
        r.append(" ");
        r.append(
            if self.acc {
                "add"
            } else {
                "set"
            },
        );
        r.append(" | ");
        r.append(decimal(pick as u64).as_str());
        r
    }
}

/// The element type of a name.
pub open spec fn ty_of(s: Seq<char>) -> Option<Ty> {
    if s == "f16"@ {
        Some(Ty::F16)
    } else if s == "f32"@ {
        Some(Ty::F32)
    } else {
        None
    }
}

/// The element type of a name.
fn ty_from(s: &Vec<char>) -> (r: Option<Ty>)
    ensures
        r == ty_of(s@),
{
    if is_text(s, "f16") {
        Some(Ty::F16)
    } else if is_text(s, "f32") {
        Some(Ty::F32)
    } else {
        None
    }
}

/// A line without its comment and the space around it.
pub open spec fn bare_line(line: Seq<char>) -> Seq<char> {
    trimmed(split_by(line, Class::One('#'))[0], Class::White)
}

/// What a line pins for a GPU: four fields between bars, of which the first is the GPU's name, the
/// second three sizes, the third two types and `add` or `set`, and the fourth a rank.
pub open spec fn line_pick(line: Seq<char>, gpu: Seq<char>) -> Option<(Key, usize)> {
    let f = split_by(bare_line(line), Class::One('|'));
    let d = words_of(trimmed(f[1], Class::White));
    let t = words_of(trimmed(f[2], Class::White));
    let max = usize::MAX as nat;
    let pick = parsed(trimmed(f[3], Class::White), max);
    if bare_line(line).len() == 0 || f.len() != 4 || trimmed(f[0], Class::White) != gpu {
        None
    } else if d.len() != 3 || t.len() != 3 {
        None
    } else if parsed(d[0], max) is None || parsed(d[1], max) is None || parsed(d[2], max) is None {
        None
    } else if ty_of(t[0]) is None || ty_of(t[1]) is None || (t[2] != "add"@ && t[2] != "set"@) {
        None
    } else if pick is None {
        None
    } else {
        Some(
            (
                Key {
                    dims: Dims {
                        m: parsed(d[0], max)->0 as usize,
                        k: parsed(d[1], max)->0 as usize,
                        n: parsed(d[2], max)->0 as usize,
                    },
                    ab: ty_of(t[0])->0,
                    c: ty_of(t[1])->0,
                    acc: t[2] == "add"@,
                },
                pick->0 as usize,
            ),
        )
    }
}

/// What a line pins for a GPU, if it does.
pub fn parse(line: &[char], gpu: &str) -> (r: Option<(Key, usize)>)
    ensures
        r == line_pick(line@, gpu@),
{
    let before = split(line, Class::One('#'));
    proof {
        split_some(line@, Class::One('#'));
        assert(before@.len() == parts(before@).len());
        assert(before@[0]@ == parts(before@)[0]);
    }
    let bare = trim(&before[0], Class::White);
    if bare.len() == 0 {
        return None;
    }
    let f = split(&bare, Class::One('|'));
    assert(f@.len() == parts(f@).len());
    if f.len() != 4 {
        return None;
    }
    assert(f@[0]@ == parts(f@)[0] && f@[1]@ == parts(f@)[1] && f@[2]@ == parts(f@)[2] && f@[3]@
        == parts(f@)[3]);
    let name = trim(&f[0], Class::White);
    if !is_text(&name, gpu) {
        return None;
    }
    let d = words(&trim(&f[1], Class::White));
    let t = words(&trim(&f[2], Class::White));
    assert(d@.len() == parts(d@).len());
    assert(t@.len() == parts(t@).len());
    if d.len() != 3 || t.len() != 3 {
        return None;
    }
    assert(d@[0]@ == parts(d@)[0] && d@[1]@ == parts(d@)[1] && d@[2]@ == parts(d@)[2]);
    assert(t@[0]@ == parts(t@)[0] && t@[1]@ == parts(t@)[1] && t@[2]@ == parts(t@)[2]);
    let (Some(m), Some(k), Some(n)) = (parse_usize(&d[0]), parse_usize(&d[1]), parse_usize(&d[2]))
        else {
        return None;
    };
    let add = is_text(&t[2], "add");
    if !add && !is_text(&t[2], "set") {
        return None;
    }
    let (Some(ab), Some(c)) = (ty_from(&t[0]), ty_from(&t[1])) else {
        return None;
    };
    let pick = trim(&f[3], Class::White);
    match parse_usize(&pick) {
        Some(pick) => Some((Key { dims: Dims { m, k, n }, ab, c, acc: add }, pick)),
        None => None,
    }
}

/// The sizes of a line: `"{m} {k} {n}"`.
spec fn sizes_text(d: Dims) -> Seq<char> {
    dec(d.m as nat).push(' ') + dec(d.k as nat).push(' ') + dec(d.n as nat)
}

/// The types of a line: `"{ab} {c} {acc}"`.
spec fn types_text(key: Key) -> Seq<char> {
    ty_name(key.ab).push(' ') + ty_name(key.c).push(' ') + acc_name(key.acc)
}

/// Whether a field has no bar, no hash sign, no line end and no whitespace at its ends.
spec fn plain_field(s: Seq<char>) -> bool {
    &&& s.len() > 0
    &&& !white(s[0])
    &&& !white(s.last())
    &&& free_of(s, Class::One('|'))
    &&& free_of(s, Class::One('#'))
    &&& free_of(s, Class::One('\n'))
}

/// A number is a word of digits.
proof fn number_word(n: nat)
    ensures
        dec(n).len() > 0,
        free_of(dec(n), Class::White),
        plain_field(dec(n)),
{
    dec_reads(n);
    assert forall|i: int| 0 <= i < dec(n).len() implies is_digit(#[trigger] dec(n)[i]) by {}
}

/// The sizes are read back.
proof fn sizes_read(d: Dims)
    ensures
        plain_field(sizes_text(d)),
        words_of(sizes_text(d)) == seq![dec(d.m as nat), dec(d.k as nat), dec(d.n as nat)],
{
    number_word(d.m as nat);
    number_word(d.k as nat);
    number_word(d.n as nat);
    three_words(dec(d.m as nat), dec(d.k as nat), dec(d.n as nat));
    assert(sizes_text(d)[0] == dec(d.m as nat)[0]);
    assert(sizes_text(d).last() == dec(d.n as nat).last());
}

/// The name of a type is a word that no other type has.
proof fn type_word(t: Ty)
    ensures
        ty_name(t).len() > 0,
        free_of(ty_name(t), Class::White),
        plain_field(ty_name(t)),
        ty_of(ty_name(t)) == Some(t),
{
    reveal_strlit("f16");
    reveal_strlit("f32");
    assert("f16"@[1] == '1' && "f32"@[1] == '3');
}

/// The word that says whether a product accumulates.
proof fn acc_word(acc: bool)
    ensures
        acc_name(acc).len() > 0,
        free_of(acc_name(acc), Class::White),
        plain_field(acc_name(acc)),
        acc_name(acc) == "add"@ || acc_name(acc) == "set"@,
        acc == (acc_name(acc) == "add"@),
{
    reveal_strlit("add");
    reveal_strlit("set");
    assert("add"@[0] == 'a' && "set"@[0] == 's');
}

/// The types are read back.
proof fn types_read(key: Key)
    ensures
        plain_field(types_text(key)),
        words_of(types_text(key)) == seq![ty_name(key.ab), ty_name(key.c), acc_name(key.acc)],
{
    type_word(key.ab);
    type_word(key.c);
    acc_word(key.acc);
    three_words(ty_name(key.ab), ty_name(key.c), acc_name(key.acc));
    assert(types_text(key)[0] == ty_name(key.ab)[0]);
    assert(types_text(key).last() == acc_name(key.acc).last());
}

/// Four fields between bars, each with a space around it, the first without the space before it
/// and the last without the one behind it. Where the first field is empty its space is gone too.
spec fn four_fields(g: Seq<char>, b: Seq<char>, c: Seq<char>, d: Seq<char>) -> Seq<char> {
    let first = if g.len() > 0 {
        g.push(' ')
    } else {
        g
    };
    first.push('|') + (seq![' '] + b).push(' ').push('|') + (seq![' '] + c).push(' ').push('|') + (
    seq![' '] + d)
}

/// Four fields are read back.
proof fn fields_read(g: Seq<char>, b: Seq<char>, c: Seq<char>, d: Seq<char>)
    requires
        free_of(g, Class::One('|')),
        trimmed(g, Class::White) == g,
        plain_field(b),
        plain_field(c),
        plain_field(d),
    ensures
        ({
            let f = split_by(four_fields(g, b, c, d), Class::One('|'));
            &&& f.len() == 4
            &&& trimmed(f[0], Class::White) == g
            &&& trimmed(f[1], Class::White) == b
            &&& trimmed(f[2], Class::White) == c
            &&& trimmed(f[3], Class::White) == d
        }),
{
    let (k, w) = (Class::One('|'), Class::White);
    let one = seq![' '];
    let none: Seq<char> = seq![];
    let f0 = if g.len() > 0 {
        g.push(' ')
    } else {
        g
    };
    let f1 = (one + b).push(' ');
    let f2 = (one + c).push(' ');
    let f3 = one + d;
    split_free(f0, k);
    split_behind(f0, '|', f1, k);
    let two = f0.push('|') + f1;
    split_behind(two, '|', f2, k);
    let three = two.push('|') + f2;
    split_behind(three, '|', f3, k);
    assert(three.push('|') + f3 =~= four_fields(g, b, c, d));
    assert(split_by(four_fields(g, b, c, d), k) =~= seq![f0, f1, f2, f3]);
    if g.len() > 0 {
        trimmed_ends(g, w);
        trim_core(none, g, one, w);
        assert(none + g + one =~= f0);
    }
    trim_core(one, b, one, w);
    assert(one + b + one =~= f1);
    trim_core(one, c, one, w);
    assert(one + c + one =~= f2);
    trim_core(one, d, none, w);
    assert(one + d + none =~= f3);
}

/// The bar between two fields, with a space on either side.
spec fn bar() -> Seq<char> {
    seq![' ', '|', ' ']
}

/// A table line in its four fields.
proof fn line_in_fields(key: Key, gpu: Seq<char>, pick: usize)
    ensures
        line_text(key, gpu, pick as int) == gpu + bar() + sizes_text(key.dims) + bar()
            + types_text(key) + bar() + dec(pick as nat),
{
    reveal_strlit(" | ");
    reveal_strlit(" ");
    assert(" | "@ =~= bar());
    let (m, k, n) = (dec(key.dims.m as nat), dec(key.dims.k as nat), dec(key.dims.n as nat));
    let (x, y, z) = (ty_name(key.ab), ty_name(key.c), acc_name(key.acc));
    let start = gpu + bar();
    let sizes = start + m + " "@ + k + " "@ + n;
    assert(sizes =~= start + sizes_text(key.dims));
    let next = sizes + bar();
    let types = next + x + " "@ + y + " "@ + z;
    assert(types =~= next + types_text(key));
}

/// Four fields with bars between them, without the space before an empty first one.
proof fn bars_are_fields(g: Seq<char>, b: Seq<char>, c: Seq<char>, d: Seq<char>)
    ensures
        ({
            let pre = if g.len() > 0 {
                seq![]
            } else {
                seq![' ']
            };
            g + bar() + b + bar() + c + bar() + d == pre + four_fields(g, b, c, d)
        }),
{
    let one = seq![' '];
    let pre = if g.len() > 0 {
        seq![]
    } else {
        one
    };
    let first = if g.len() > 0 {
        g.push(' ')
    } else {
        g
    };
    let x1 = g + bar();
    assert(x1 =~= pre + first.push('|') + one);
    let y2 = first.push('|') + (one + b).push(' ').push('|');
    let x2 = x1 + b + bar();
    assert(x2 =~= pre + y2 + one);
    let y3 = y2 + (one + c).push(' ').push('|');
    let x3 = x2 + c + bar();
    assert(x3 =~= pre + y3 + one);
    assert(x3 + d =~= pre + (y3 + (one + d)));
}

/// Four fields hold no hash sign where none of them does, and no whitespace at their ends.
proof fn fields_plain(g: Seq<char>, b: Seq<char>, c: Seq<char>, d: Seq<char>)
    requires
        free_of(g, Class::One('#')),
        trimmed(g, Class::White) == g,
        plain_field(b),
        plain_field(c),
        plain_field(d),
    ensures
        ({
            let f = four_fields(g, b, c, d);
            &&& f.len() > 0
            &&& free_of(f, Class::One('#'))
            &&& !white(f[0])
            &&& !white(f.last())
        }),
{
    let f = four_fields(g, b, c, d);
    assert(f.last() == d.last());
    if g.len() > 0 {
        trimmed_ends(g, Class::White);
        assert(f[0] == g[0]);
    } else {
        assert(f[0] == '|');
    }
}

/// A table line, with or without a comment behind it, is its four fields.
proof fn line_is_fields(key: Key, gpu: Seq<char>, pick: usize, pad: Seq<char>, note: Seq<char>)
    requires
        free_of(gpu, Class::One('#')),
        trimmed(gpu, Class::White) == gpu,
        full_of(pad, Class::White),
    ensures
        ({
            let line = line_text(key, gpu, pick as int);
            let f = four_fields(gpu, sizes_text(key.dims), types_text(key), dec(pick as nat));
            &&& bare_line(line) == f
            &&& bare_line(line + pad.push('#') + note) == f
            &&& f.len() > 0
        }),
{
    let (k, w) = (Class::One('#'), Class::White);
    let line = line_text(key, gpu, pick as int);
    let (b, c, d) = (sizes_text(key.dims), types_text(key), dec(pick as nat));
    let core = four_fields(gpu, b, c, d);
    let none: Seq<char> = seq![];
    let pre = if gpu.len() > 0 {
        none
    } else {
        seq![' ']
    };
    sizes_read(key.dims);
    types_read(key);
    number_word(pick as nat);
    line_in_fields(key, gpu, pick);
    bars_are_fields(gpu, b, c, d);
    fields_plain(gpu, b, c, d);
    assert(line == pre + core);
    assert(free_of(pre + core, k));
    split_free(line, k);
    trim_core(pre, core, none, w);
    assert(pre + core + none =~= line);
    assert(free_of(pre + core + pad, k));
    split_before(line + pad, '#', note, k);
    assert((line + pad).push('#') + note =~= line + pad.push('#') + note);
    trim_core(pre, core, pad, w);
}

/// A table line reads back as its key and its pick, with a comment behind it or without, and for
/// no other GPU: where the GPU's name has no bar, no hash sign and no whitespace at its ends.
pub proof fn a_line_reads_back(
    key: Key,
    gpu: Seq<char>,
    pick: usize,
    other: Seq<char>,
    pad: Seq<char>,
    note: Seq<char>,
)
    requires
        trimmed(gpu, Class::White) == gpu,
        free_of(gpu, Class::One('|')),
        free_of(gpu, Class::One('#')),
        full_of(pad, Class::White),
        other != gpu,
    ensures
        ({
            let line = line_text(key, gpu, pick as int);
            let noted = line + pad.push('#') + note;
            &&& line_pick(line, gpu) == Some((key, pick))
            &&& line_pick(noted, gpu) == Some((key, pick))
            &&& line_pick(line, other) is None
            &&& line_pick(noted, other) is None
        }),
{
    let (b, c, d) = (sizes_text(key.dims), types_text(key), dec(pick as nat));
    let max = usize::MAX as nat;
    line_is_fields(key, gpu, pick, pad, note);
    sizes_read(key.dims);
    types_read(key);
    number_word(pick as nat);
    fields_read(gpu, b, c, d);
    dec_parses(key.dims.m as nat, max);
    dec_parses(key.dims.k as nat, max);
    dec_parses(key.dims.n as nat, max);
    dec_parses(pick as nat, max);
    type_word(key.ab);
    type_word(key.c);
    acc_word(key.acc);
}

/// The picks of the first `n` lines.
pub open spec fn picks_of(lines: Seq<Seq<char>>, gpu: Seq<char>, n: int) -> Seq<(Key, usize)>
    decreases n,
{
    if n <= 0 {
        seq![]
    } else {
        match line_pick(lines[n - 1], gpu) {
            Some(p) => picks_of(lines, gpu, n - 1).push(p),
            None => picks_of(lines, gpu, n - 1),
        }
    }
}

/// The picks of the first `n` lines do not depend on the lines behind them.
proof fn picks_before(lines: Seq<Seq<char>>, line: Seq<char>, gpu: Seq<char>, n: int)
    requires
        0 <= n <= lines.len(),
    ensures
        picks_of(lines.push(line), gpu, n) == picks_of(lines, gpu, n),
    decreases n,
{
    if n > 0 {
        picks_before(lines, line, gpu, n - 1);
        assert(lines.push(line)[n - 1] == lines[n - 1]);
    }
}

/// A line added behind a table is what [`Picks::get`] then gives for its key, whatever the table
/// said before: where the GPU's name has no bar, no hash sign, no line end and no whitespace at its
/// ends.
pub proof fn an_added_line_is_picked(table: Seq<char>, key: Key, gpu: Seq<char>, pick: usize)
    requires
        trimmed(gpu, Class::White) == gpu,
        free_of(gpu, Class::One('|')),
        free_of(gpu, Class::One('#')),
        free_of(gpu, Class::One('\n')),
    ensures
        ({
            let line = line_text(key, gpu, pick as int);
            let lines = split_by(table.push('\n') + line, Class::One('\n'));
            let picks = picks_of(lines, gpu, lines.len() as int);
            last_pick(picks, picks.len() as int, key) == pick
        }),
{
    let line = line_text(key, gpu, pick as int);
    let k = Class::One('\n');
    sizes_read(key.dims);
    types_read(key);
    number_word(pick as nat);
    line_in_fields(key, gpu, pick);
    assert(free_of(line, k));
    split_behind(table, '\n', line, k);
    let before = split_by(table, k);
    let lines = split_by(table.push('\n') + line, k);
    picks_before(before, line, gpu, before.len() as int);
    assert(lines[lines.len() - 1] == line);
    let other = gpu.push(' ');
    a_line_reads_back(key, gpu, pick, other, seq![], seq![]);
}

impl Picks {
    /// The picks of a table for the GPU named `gpu`.
    pub fn for_gpu(table: &str, gpu: &str) -> (r: Self)
        ensures
            ({
                let lines = split_by(table@, Class::One('\n'));
                r.lines@ == picks_of(lines, gpu@, lines.len() as int)
            }),
    {
        let lines = split(&chars_of(table), Class::One('\n'));
        let mut r: Vec<(Key, usize)> = Vec::new();
        let mut i: usize = 0;
        while i < lines.len()
            invariant
                i <= lines@.len(),
                r@ == picks_of(parts(lines@), gpu@, i as int),
            decreases lines@.len() - i,
        {
            assert(parts(lines@)[i as int] == lines@[i as int]@);
            if let Some(p) = parse(&lines[i], gpu) {
                r.push(p);
            }
            i += 1;
        }
        assert(parts(lines@).len() == lines@.len());
        Picks { lines: r }
    }
}

/// How many algorithms a product keeps to choose from.
pub const CANDIDATES: usize = 8;

/// How many of the results a search reports are read: none when it reports a negative count, and
/// at most eight.
pub fn found(count: i32) -> (n: usize)
    ensures
        n == if count < 0 {
            0
        } else if count > 8 {
            8
        } else {
            count as int
        },
{
    if count < 0 {
        0
    } else if count > 8 {
        CANDIDATES
    } else {
        count as usize
    }
}

/// The indices below `n` of the results that are usable.
pub open spec fn usable(ok: Seq<bool>, n: int) -> Seq<usize>
    decreases n,
{
    if n <= 0 {
        seq![]
    } else if ok[n - 1] {
        usable(ok, n - 1).push((n - 1) as usize)
    } else {
        usable(ok, n - 1)
    }
}

/// The usable results of a search, and which of them runs: the `pick`th, or the first when there
/// are fewer. None when no result is usable.
pub fn candidates(ok: &Vec<bool>, count: i32, pick: usize) -> (r: Option<(Vec<usize>, usize)>)
    requires
        ok@.len() >= 8,
    ensures
        ({
            let n = if count < 0 {
                0
            } else if count > 8 {
                8
            } else {
                count as int
            };
            let all = usable(ok@, n);
            match r {
                None => all.len() == 0,
                Some((v, p)) => v@ == all && all.len() > 0 && p == if pick < all.len() {
                    pick
                } else {
                    0
                },
            }
        }),
{
    let n: usize = found(count);
    let mut v: Vec<usize> = Vec::new();
    let mut i: usize = 0;
    while i < n
        invariant
            i <= n <= 8 <= ok@.len(),
            v@ == usable(ok@, i as int),
        decreases n - i,
    {
        if ok[i] {
            v.push(i);
        }
        i += 1;
    }
    if v.len() == 0 {
        return None;
    }
    let p: usize = if pick < v.len() {
        pick
    } else {
        0
    };
    Some((v, p))
}

/// A column major matrix: rows, columns and the distance between columns.
#[derive(Debug, Clone, Copy, PartialEq, Eq, Structural)]
pub struct MatrixLayout {
    /// Rows.
    pub rows: u64,
    /// Columns.
    pub cols: u64,
    /// Elements from one column to the next.
    pub ld: i64,
    /// Element type.
    pub ty: Ty,
}

/// What a product is set up with. The library is column major, so `y = x wᵀ` is computed as
/// `yᵀ = w xᵀ`, with `w` transposed.
#[derive(Debug, Clone, Copy, PartialEq, Eq, Structural)]
pub struct Setup {
    /// The weight, read as `k` by `n`.
    pub a: MatrixLayout,
    /// The input, `k` by `m`.
    pub b: MatrixLayout,
    /// The output, `n` by `m`.
    pub c: MatrixLayout,
    /// Whether the output is added to.
    pub accumulate: bool,
}

/// The descriptors of a product.
pub fn setup(dims: Dims, ab: Ty, c: Ty, accumulate: bool) -> (r: Setup)
    requires
        dims.k <= i64::MAX,
        dims.n <= i64::MAX,
    ensures
        r.a == (MatrixLayout { rows: dims.k as u64, cols: dims.n as u64, ld: dims.k as i64, ty: ab }),
        r.b == (MatrixLayout { rows: dims.k as u64, cols: dims.m as u64, ld: dims.k as i64, ty: ab }),
        r.c == (MatrixLayout { rows: dims.n as u64, cols: dims.m as u64, ld: dims.n as i64, ty: c }),
        r.accumulate == accumulate,
{
    let (m, k, n): (u64, u64, u64) = (dims.m as u64, dims.k as u64, dims.n as u64);
    Setup {
        a: MatrixLayout { rows: k, cols: n, ld: dims.k as i64, ty: ab },
        b: MatrixLayout { rows: k, cols: m, ld: dims.k as i64, ty: ab },
        c: MatrixLayout { rows: n, cols: m, ld: dims.n as i64, ty: c },
        accumulate,
    }
}

/// Whether a rank replaces the one that is fastest so far: it is faster, and below the bound.
pub open spec fn replaces(x: u64, at: u64, bound: u64) -> bool {
    above(at, x) && above(bound, x)
}

/// The fastest of the first `n` ranks.
pub open spec fn fastest_of(times: Seq<u64>, bound: u64, n: int) -> int
    decreases n,
{
    if n <= 1 {
        0
    } else {
        let best = fastest_of(times, bound, n - 1);
        if replaces(times[n - 1], times[best], bound) {
            n - 1
        } else {
            best
        }
    }
}

/// The fastest rank, by the bits of its time. A rank replaces the first choice only below
/// `bound`, so that noise does not fill the table.
pub fn fastest(times: &Vec<u64>, bound: u64) -> (r: usize)
    requires
        times@.len() > 0,
    ensures
        r == fastest_of(times@, bound, times@.len() as int),
        r < times@.len(),
{
    let mut best: usize = 0;
    let mut i: usize = 1;
    while i < times.len()
        invariant
            1 <= i <= times@.len(),
            best < i,
            best == fastest_of(times@, bound, i as int),
        decreases times@.len() - i,
    {
        if greater(times[best], times[i]) && greater(bound, times[i]) {
            best = i;
        }
        i += 1;
    }
    best
}

/// The rank that runs is the first choice, or one below the bound that no other beats: every
/// rank below the bound takes at least as long, and those before it longer.
pub proof fn the_pick_is_the_fastest(times: Seq<u64>, bound: u64, n: int)
    requires
        1 <= n <= times.len(),
        forall|i: int| 0 <= i < n ==> !is_nan(#[trigger] times[i]),
        !is_nan(bound),
    ensures
        ({
            let r = fastest_of(times, bound, n);
            &&& 0 <= r < n
            &&& r != 0 ==> rank(times[r]) < rank(bound) && rank(times[r]) < rank(times[0])
            &&& forall|i: int|
                0 <= i < n && rank(#[trigger] times[i]) < rank(bound) ==> rank(times[r]) <= rank(
                    times[i],
                )
            &&& forall|i: int|
                0 < i < r && rank(#[trigger] times[i]) < rank(bound) ==> rank(times[r]) < rank(
                    times[i],
                )
        }),
    decreases n,
{
    if n > 1 {
        the_pick_is_the_fastest(times, bound, n - 1);
    }
}

/// The first of the products of the same shape, for every product: those are timed together and
/// run the same rank.
pub fn leaders(keys: &Vec<Key>) -> (r: Vec<usize>)
    ensures
        r@.len() == keys@.len(),
        forall|i: int| 0 <= i < r@.len() ==> {
            let k = #[trigger] r@[i];
            k <= i && keys@[k as int] == keys@[i] && (forall|j: int|
                0 <= j < k ==> keys@[j] != keys@[i])
        },
{
    let mut r: Vec<usize> = Vec::new();
    let mut i: usize = 0;
    while i < keys.len()
        invariant
            i <= keys@.len(),
            r@.len() == i,
            forall|i: int| 0 <= i < r@.len() ==> {
                let k = #[trigger] r@[i];
                k <= i && keys@[k as int] == keys@[i] && (forall|j: int|
                    0 <= j < k ==> keys@[j] != keys@[i])
            },
        decreases keys@.len() - i,
    {
        let mut k: usize = 0;
        while keys[k] != keys[i]
            invariant
                k <= i < keys@.len(),
                forall|j: int| 0 <= j < k ==> keys@[j] != keys@[i as int],
            decreases i - k,
        {
            k += 1;
        }
        r.push(k);
        i += 1;
    }
    r
}

/// Products of one shape have the same leader, and others have another.
pub proof fn leaders_tell_shapes_apart(keys: Seq<Key>, r: Seq<usize>, i: int, j: int)
    requires
        r.len() == keys.len(),
        forall|i: int| 0 <= i < r.len() ==> {
            let k = #[trigger] r[i];
            k <= i && keys[k as int] == keys[i] && (forall|j: int|
                0 <= j < k ==> keys[j] != keys[i])
        },
        0 <= i < keys.len(),
        0 <= j < keys.len(),
    ensures
        (r[i] == r[j]) == (keys[i] == keys[j]),
{
    let (a, b) = (r[i] as int, r[j] as int);
    if keys[i] == keys[j] {
        if a < b {
            assert(keys[a] != keys[j]);
        }
        if b < a {
            assert(keys[b] != keys[i]);
        }
    }
}

/// The usable results are all those that are usable, each once and in order.
pub proof fn every_usable_result_is_kept(ok: Seq<bool>, n: int)
    requires
        0 <= n <= ok.len(),
        n <= usize::MAX,
    ensures
        forall|i: int|
            0 <= i < usable(ok, n).len() ==> (#[trigger] usable(ok, n)[i]) < n && ok[usable(
                ok,
                n,
            )[i] as int],
        forall|i: int, j: int|
            0 <= i < j < usable(ok, n).len() ==> usable(ok, n)[i] < usable(ok, n)[j],
        forall|k: usize| k < n && ok[k as int] ==> #[trigger] usable(ok, n).contains(k),
    decreases n,
{
    if n > 0 {
        every_usable_result_is_kept(ok, n - 1);
        let before = usable(ok, n - 1);
        let now = usable(ok, n);
        assert forall|k: usize| k < n && ok[k as int] implies #[trigger] now.contains(k) by {
            if k < n - 1 {
                assert(before.contains(k));
                let i = choose|i: int| 0 <= i < before.len() && before[i] == k;
                assert(now[i] == k);
            } else {
                assert(now[now.len() - 1] == k);
            }
        }
    }
}

} // verus!
