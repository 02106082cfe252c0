//! Values that commands and settings are given.

use crate::engine::{Device, Precision};
use crate::hub::{debug_string, debug_text};
use crate::text::{
    after_plus, all_digits, chars_of, dec, dec_parses, has_at, in_class, is_digit, join2, number,
    number_grows, parse_usize, parsed, parts, piece, same, split, split_behind, split_by, split_free,
    text_of, texts, trim, trimmed, Class,
};
use vstd::prelude::*;

verus! {

/// What is wrong with digits from the `i`th on: the first that is no digit, or the first that
/// makes the number larger than `max`.
pub open spec fn digits_error(d: Seq<char>, max: nat, i: int) -> Option<Seq<char>>
    decreases d.len() - i,
{
    if i >= d.len() {
        None
    } else if !is_digit(d[i]) {
        Some("invalid digit found in string"@)
    } else if number(d.take(i + 1)) > max {
        Some("number too large to fit in target type"@)
    } else {
        digits_error(d, max, i + 1)
    }
}

/// What is wrong with a whole number of at most `max`, if something is.
pub open spec fn number_error(s: Seq<char>, max: nat) -> Option<Seq<char>> {
    if s.len() == 0 {
        Some("cannot parse integer from empty string"@)
    } else if after_plus(s).len() == 0 {
        Some("invalid digit found in string"@)
    } else {
        digits_error(after_plus(s), max, 0)
    }
}

/// A whole number of at most `max`, or what is wrong with it.
pub fn parse_number(s: &str, max: u64) -> (r: Result<u64, &'static str>)
    ensures
        match r {
            Ok(n) => parsed(s@, max as nat) == Some(n as nat) && number_error(s@, max as nat)
                is None,
            Err(e) => parsed(s@, max as nat) is None && number_error(s@, max as nat) == Some(e@),
        },
{
    let cs = chars_of(s);
    if cs.len() == 0 {
        return Err("cannot parse integer from empty string");
    }
    let start: usize = if cs[0] == '+' {
        1
    } else {
        0
    };
    let ghost d = after_plus(cs@);
    assert(d =~= cs@.skip(start as int));
    if start == cs.len() {
        return Err("invalid digit found in string");
    }
    let mut n: u64 = 0;
    let mut i: usize = start;
    assert(d.take(0) =~= seq![]);
    while i < cs.len()
        invariant
            start <= i <= cs@.len(),
            start < cs@.len(),
            cs@ == s@,
            cs@.len() > 0,
            d == cs@.skip(start as int),
            d == after_plus(cs@),
            n <= max,
            n == number(d.take(i - start)),
            number_error(s@, max as nat) == digits_error(d, max as nat, i - start),
            forall|k: int| 0 <= k < i - start ==> is_digit(#[trigger] d[k]),
        decreases cs@.len() - i,
    {
        let c = cs[i];
        assert(d[i - start] == c);
        if !('0' <= c && c <= '9') {
            return Err("invalid digit found in string");
        }
        let v: u64 = (c as u32 - 48) as u64;
        proof {
            let t = d.take(i - start + 1);
            assert(t.drop_last() =~= d.take(i - start));
            assert(t.last() == c);
            assert(number(t) == n * 10 + v);
            number_grows(d, i - start + 1, d.len() as int);
            assert(d.take(d.len() as int) =~= d);
        }
        if v > max || n > max / 10 || n * 10 > max - v {
            return Err("number too large to fit in target type");
        }
        n = n * 10 + v;
        i += 1;
    }
    assert(d.take(i - start) =~= d);
    Ok(n)
}

/// A device by name: `auto`, `cpu`, `cuda` or `cuda:N`.
pub open spec fn device_named(d: Seq<char>) -> Option<Device> {
    if d == "auto"@ {
        Some(Device::Auto)
    } else if d == "cpu"@ {
        Some(Device::Cpu { threads: 0 })
    } else if d == "cuda"@ {
        Some(Device::Cuda(0))
    } else if has_at(d, "cuda:"@, 0) {
        match parsed(d.skip(5), usize::MAX as nat) {
            Some(n) => Some(Device::Cuda(n as usize)),
            None => None,
        }
    } else {
        None
    }
}

/// A device by name, or a message that it is unknown.
pub fn device(d: &str) -> (r: Result<Device, String>)
    ensures
        match r {
            Ok(x) => device_named(d@) == Some(x),
            Err(e) => device_named(d@) is None && e@ == "unknown device "@ + debug_text(d@),
        },
{
    if same(d, "auto") {
        return Ok(Device::Auto);
    }
    if same(d, "cpu") {
        return Ok(Device::Cpu { threads: 0 });
    }
    if same(d, "cuda") {
        return Ok(Device::Cuda(0));
    }
    let cs = chars_of(d);
    let prefix = chars_of("cuda:");
    proof {
        reveal_strlit("cuda:");
    }
    if crate::text::stands_at(&cs, &prefix, 0) {
        let rest = piece(&cs, 5, cs.len());
        assert(rest@ =~= d@.skip(5));
        if let Some(n) = parse_usize(&rest) {
            return Ok(Device::Cuda(n));
        }
    }
    Err(join2("unknown device ", debug_string(d).as_str()))
}

/// A number format by name.
pub open spec fn precision_named(p: Seq<char>) -> Option<Precision> {
    if p == "f16"@ || p == "fp16"@ {
        Some(Precision::F16)
    } else if p == "f32"@ || p == "fp32"@ {
        Some(Precision::F32)
    } else if p == "int8"@ {
        Some(Precision::Int8)
    } else {
        None
    }
}

/// A number format by name, or a message that it is unknown.
pub fn precision(p: &str) -> (r: Result<Precision, String>)
    ensures
        match r {
            Ok(x) => precision_named(p@) == Some(x),
            Err(e) => precision_named(p@) is None && e@ == "unknown precision "@ + debug_text(p@),
        },
{
    if same(p, "f16") || same(p, "fp16") {
        Ok(Precision::F16)
    } else if same(p, "f32") || same(p, "fp32") {
        Ok(Precision::F32)
    } else if same(p, "int8") {
        Ok(Precision::Int8)
    } else {
        Err(join2("unknown precision ", debug_string(p).as_str()))
    }
}

/// A device with a thread count, which is for the CPU.
pub open spec fn with_threads(d: Device, threads: Option<usize>) -> Option<Device> {
    match (threads, d) {
        (None, _) => Some(d),
        (Some(t), Device::Auto) => Some(Device::Cpu { threads: t }),
        (Some(t), Device::Cpu { .. }) => Some(Device::Cpu { threads: t }),
        _ => None,
    }
}

/// A device with a thread count, none when it is not the CPU.
pub fn add_threads(d: Device, threads: Option<usize>) -> (r: Option<Device>)
    ensures
        r == with_threads(d, threads),
{
    match (threads, d) {
        (None, _) => Some(d),
        (Some(t), Device::Auto) => Some(Device::Cpu { threads: t }),
        (Some(t), Device::Cpu { .. }) => Some(Device::Cpu { threads: t }),
        _ => None,
    }
}

/// The first `n` pieces without the space around them, and without those that are empty then.
pub open spec fn bare_pieces(p: Seq<Seq<char>>, n: int) -> Seq<Seq<char>>
    decreases n,
{
    if n <= 0 {
        seq![]
    } else {
        let t = trimmed(p[n - 1], Class::White);
        if t.len() == 0 {
            bare_pieces(p, n - 1)
        } else {
            bare_pieces(p, n - 1).push(t)
        }
    }
}

/// The entries of a comma separated list.
pub open spec fn list_of(v: Seq<char>) -> Seq<Seq<char>> {
    let p = split_by(v, Class::One(','));
    bare_pieces(p, p.len() as int)
}

/// The entries of a comma separated list, without the space around them and without empty ones.
pub fn list(v: &str) -> (r: Vec<String>)
    ensures
        texts(r@) == list_of(v@),
{
    let p = split(&chars_of(v), Class::One(','));
    let ghost pv = parts(p@);
    let mut r: Vec<String> = Vec::new();
    let mut i: usize = 0;
    assert(texts(r@) =~= bare_pieces(pv, 0));
    while i < p.len()
        invariant
            i <= p@.len(),
            pv == parts(p@),
            texts(r@) == bare_pieces(pv, i as int),
        decreases p@.len() - i,
    {
        let ghost before = texts(r@);
        assert(pv[i as int] == p@[i as int]@);
        let t = trim(&p[i], Class::White);
        if t.len() > 0 {
            r.push(text_of(&t));
            assert(texts(r@) =~= before.push(t@));
        }
        i += 1;
    }
    assert(pv.len() == p@.len());
    r
}

/// A GPU is named by its number, and `cuda` alone is the first.
pub proof fn a_gpu_is_named_by_its_number(n: usize)
    ensures
        device_named("cuda:"@ + dec(n as nat)) == Some(Device::Cuda(n)),
        device_named("cuda"@) == Some(Device::Cuda(0)),
        device_named("cpu"@) == Some(Device::Cpu { threads: 0 }),
        device_named("auto"@) == Some(Device::Auto),
{
    reveal_strlit("cuda:");
    reveal_strlit("cuda");
    reveal_strlit("cpu");
    reveal_strlit("auto");
    let d = "cuda:"@ + dec(n as nat);
    assert(d.len() >= 5);
    assert(d[0] == 'c');
    assert(d[4] == ':');
    assert("auto"@[0] == 'a' && "cpu"@.len() == 3 && "cuda"@.len() == 4);
    assert(d.subrange(0, 5) =~= "cuda:"@);
    assert(d.skip(5) =~= dec(n as nat));
    dec_parses(n as nat, usize::MAX as nat);
}

/// Threads are for the CPU: asking for them picks it where nothing else was picked, and is refused
/// beside any other device. Without them a device stays as it is.
pub proof fn threads_are_for_the_cpu(d: Device, t: usize)
    ensures
        with_threads(d, None) == Some(d),
        with_threads(d, Some(t)) is Some <==> d is Auto || d is Cpu,
        with_threads(d, Some(t)) matches Some(x) ==> x == (Device::Cpu { threads: t }),
{
}

/// Every entry of a list is read without the space around it, behind those before it, and an entry
/// of nothing but space is left out.
pub proof fn a_list_is_read_entry_by_entry(v: Seq<char>, t: Seq<char>)
    requires
        !t.contains(','),
    ensures
        list_of(v.push(',') + t) == list_of(v) + list_of(t),
        list_of(t) == if trimmed(t, Class::White).len() == 0 {
            seq![]
        } else {
            seq![trimmed(t, Class::White)]
        },
{
    let k = Class::One(',');
    assert forall|i: int| 0 <= i < t.len() implies !in_class(#[trigger] t[i], k) by {
        if t[i] == ',' {
            assert(t.contains(','));
        }
    }
    split_behind(v, ',', t, k);
    split_free(t, k);
    let p = split_by(v, k);
    let q = p.push(t);
    pieces_alike(p, q, p.len() as int);
    reveal_with_fuel(bare_pieces, 2);
    assert(list_of(t) =~= if trimmed(t, Class::White).len() == 0 {
        seq![]
    } else {
        seq![trimmed(t, Class::White)]
    });
    assert(list_of(v.push(',') + t) =~= list_of(v) + list_of(t));
}

/// The first pieces go by those pieces alone.
proof fn pieces_alike(p: Seq<Seq<char>>, q: Seq<Seq<char>>, n: int)
    requires
        n <= p.len() && n <= q.len(),
        forall|i: int| 0 <= i < n ==> p[i] == #[trigger] q[i],
    ensures
        bare_pieces(p, n) == bare_pieces(q, n),
    decreases n,
{
    if n > 0 {
        pieces_alike(p, q, n - 1);
        assert(p[n - 1] == q[n - 1]);
    }
}

/// A number that is not read is refused with one message, and one that is read with none.
pub proof fn a_refused_number_has_a_reason(s: Seq<char>, max: nat)
    ensures
        number_error(s, max) is None <==> parsed(s, max) is Some,
{
    let d = after_plus(s);
    if s.len() > 0 && d.len() > 0 {
        digits_say_why(d, max, 0);
    }
}

/// Digits from the `i`th on are refused when one is no digit or the number is too large.
proof fn digits_say_why(d: Seq<char>, max: nat, i: int)
    requires
        0 <= i <= d.len(),
        d.len() > 0,
        forall|k: int| 0 <= k < i ==> is_digit(#[trigger] d[k]),
        i > 0 ==> number(d.take(i)) <= max,
    ensures
        digits_error(d, max, i) is None <==> (all_digits(d) && number(d) <= max),
    decreases d.len() - i,
{
    if i < d.len() {
        if is_digit(d[i]) {
            if number(d.take(i + 1)) > max {
                number_grows(d, i + 1, d.len() as int);
                assert(d.take(d.len() as int) =~= d);
            } else {
                digits_say_why(d, max, i + 1);
            }
        }
    } else {
        assert(d.take(i) =~= d);
    }
}

} // verus!
