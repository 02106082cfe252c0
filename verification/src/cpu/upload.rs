//! Which weights are packed, rounded and kept when a checkpoint is loaded.

use crate::cpu::plan::CpuBackend;
use crate::graph::{Graph, Op};
use crate::text::{dec, decimal};
use vstd::prelude::*;

verus! {

/// How a graph reads each weight.
#[derive(Debug)]
pub struct Readers {
    /// By an FP32 product.
    pub gemm: Vec<bool>,
    /// By an INT8 product.
    pub gemm8: Vec<bool>,
    /// Row by row or as a bias.
    pub other: Vec<bool>,
}

/// Whether an operation reads weight `w` as the matrix of a product in INT8, or in FP32.
pub open spec fn multiplies(be: CpuBackend, g: &Graph, op: Op, int8: bool, w: int) -> bool {
    op matches Op::Gemm { a, w: m, .. } && m == w && be.spec_int8_rows(g.spec_shape(a).rows)
        == int8
}

/// Whether an operation reads weight `w` in another way.
pub open spec fn reads(op: Op, w: int) -> bool {
    match op {
        Op::Gemm { b, .. } => b matches Some(b) && b == w,
        Op::Embed { table, .. } => table == w,
        Op::AddType { table, .. } => table == w,
        Op::LayerNorm { w: m, b, .. } => m == w || (b matches Some(b) && b == w),
        _ => false,
    }
}

impl Readers {
    /// The readers among the first `n` operations.
    pub open spec fn of(&self, be: CpuBackend, g: &Graph, n: int, weights: int) -> bool {
        &&& self.gemm@.len() == weights
        &&& self.gemm8@.len() == weights
        &&& self.other@.len() == weights
        &&& forall|w: int|
            0 <= w < weights ==> (#[trigger] self.gemm@[w] <==> exists|i: int|
                0 <= i < n && multiplies(be, g, #[trigger] g.ops@[i], false, w))
        &&& forall|w: int|
            0 <= w < weights ==> (#[trigger] self.gemm8@[w] <==> exists|i: int|
                0 <= i < n && multiplies(be, g, #[trigger] g.ops@[i], true, w))
        &&& forall|w: int|
            0 <= w < weights ==> (#[trigger] self.other@[w] <==> exists|i: int|
                0 <= i < n && reads(#[trigger] g.ops@[i], w))
    }
}

/// Sets a flag, if it exists.
fn mark(flags: &mut Vec<bool>, w: usize)
    ensures
        final(flags)@ == if w < old(flags)@.len() {
            old(flags)@.update(w as int, true)
        } else {
            old(flags)@
        },
{
    if w < flags.len() {
        flags.set(w, true);
    }
}

/// Sets a flag, if there is one to set.
fn mark_some(flags: &mut Vec<bool>, w: Option<usize>)
    ensures
        final(flags)@ == match w {
            Some(w) if w < old(flags)@.len() => old(flags)@.update(w as int, true),
            _ => old(flags)@,
        },
{
    if let Some(w) = w {
        mark(flags, w);
    }
}

/// How a graph reads each of `n` weights.
pub fn readers(be: CpuBackend, g: &Graph, n: usize) -> (r: Readers)
    requires
        g.wf(),
    ensures
        r.of(be, g, g.ops@.len() as int, n as int),
{
    let mut gemm: Vec<bool> = vec![false; n];
    let mut gemm8: Vec<bool> = vec![false; n];
    let mut other: Vec<bool> = vec![false; n];
    let mut i: usize = 0;
    while i < g.ops.len()
        invariant
            i <= g.ops@.len(),
            g.wf(),
            (Readers { gemm, gemm8, other }).of(be, g, i as int, n as int),
        decreases g.ops@.len() - i,
    {
        let ghost before = Readers { gemm, gemm8, other };
        proof {
            g.wf_op(i as int);
        }
        match g.ops[i] {
            Op::Gemm { a, w, b, epilogue: _, out: _ } => {
                if be.int8_rows(g.shape(a).rows) {
                    mark(&mut gemm8, w);
                } else {
                    mark(&mut gemm, w);
                }
                mark_some(&mut other, b);
            },
            Op::Embed { table, out: _ } => mark(&mut other, table),
            Op::AddType { h: _, table } => mark(&mut other, table),
            Op::LayerNorm { x: _, w, b, eps: _, out: _ } => {
                mark(&mut other, w);
                mark_some(&mut other, b);
            },
            _ => {},
        }
        proof {
            let now = Readers { gemm, gemm8, other };
            let op = g.ops@[i as int];
            assert forall|w: int| 0 <= w < n implies (#[trigger] now.gemm@[w] <==> exists|k: int|
                0 <= k < i + 1 && multiplies(be, g, #[trigger] g.ops@[k], false, w)) by {
                assert(now.gemm@[w] <==> before.gemm@[w] || multiplies(be, g, op, false, w));
            }
            assert forall|w: int| 0 <= w < n implies (#[trigger] now.gemm8@[w] <==> exists|k: int|
                0 <= k < i + 1 && multiplies(be, g, #[trigger] g.ops@[k], true, w)) by {
                assert(now.gemm8@[w] <==> before.gemm8@[w] || multiplies(be, g, op, true, w));
            }
            assert forall|w: int| 0 <= w < n implies (#[trigger] now.other@[w] <==> exists|k: int|
                0 <= k < i + 1 && reads(#[trigger] g.ops@[k], w)) by {
                assert(now.other@[w] <==> before.other@[w] || reads(op, w));
            }
        }
        i += 1;
    }
    Readers { gemm, gemm8, other }
}

/// The product of the first `n` sizes.
pub open spec fn product(shape: Seq<usize>, n: int) -> int
    decreases n,
{
    if n <= 0 {
        1
    } else {
        product(shape, n - 1) * shape[n - 1]
    }
}

/// The first `n` sizes with commas between them.
pub open spec fn sizes(shape: Seq<usize>, n: int) -> Seq<char>
    decreases n,
{
    if n <= 0 {
        seq![]
    } else if n == 1 {
        dec(shape[0] as nat)
    } else {
        sizes(shape, n - 1) + ", "@ + dec(shape[n - 1] as nat)
    }
}

/// `"tensor {i} has {n} values for [{shape}]"`.
pub open spec fn wrong_size_text(i: int, n: int, shape: Seq<usize>) -> Seq<char> {
    "tensor "@ + dec(i as nat) + " has "@ + dec(n as nat) + " values for ["@ + sizes(
        shape,
        shape.len() as int,
    ) + "]"@
}

/// The message for a tensor whose values are not as many as its shape says.
fn wrong_size(i: usize, n: usize, shape: &Vec<usize>) -> (r: String)
    ensures
        r@ == wrong_size_text(i as int, n as int, shape@),
{
    let mut r = "tensor ".to_owned();
    r.append(decimal(i as u64).as_str());
    r.append(" has ");
    r.append(decimal(n as u64).as_str());
    r.append(" values for [");
    let ghost head = r@;
    let mut k: usize = 0;
    while k < shape.len()
        invariant
            k <= shape@.len(),
            r@ == head + sizes(shape@, k as int),
        decreases shape@.len() - k,
    {
        if k > 0 {
            r.append(", ");
        }
        r.append(decimal(shape[k] as u64).as_str());
        k += 1;
        assert(r@ =~= head + sizes(shape@, k as int));
    }
    r.append("]");
    r
}

/// Refuses a tensor whose values are not as many as its shape says.
pub fn check_size(i: usize, n: usize, shape: &Vec<usize>) -> (r: Result<(), String>)
    requires
        forall|k: int| 0 <= k <= shape@.len() ==> product(shape@, k) <= usize::MAX,
    ensures
        match r {
            Err(e) => n != product(shape@, shape@.len() as int) && e@ == wrong_size_text(
                i as int,
                n as int,
                shape@,
            ),
            Ok(_) => n == product(shape@, shape@.len() as int),
        },
{
    let mut p: usize = 1;
    let mut k: usize = 0;
    while k < shape.len()
        invariant
            k <= shape@.len(),
            p == product(shape@, k as int),
            forall|k: int| 0 <= k <= shape@.len() ==> product(shape@, k) <= usize::MAX,
        decreases shape@.len() - k,
    {
        assert(product(shape@, k + 1) <= usize::MAX);
        p = p * shape[k];
        k += 1;
    }
    if n != p {
        return Err(wrong_size(i, n, shape));
    }
    Ok(())
}

/// What becomes of a tensor.
#[derive(Debug, Clone, Copy, PartialEq, Eq, Structural)]
pub struct Treat {
    /// It is packed for FP32 products.
    pub pack: bool,
    /// It is rounded for INT8 products.
    pub round: bool,
}

/// What becomes of tensor `i`, which has `n` values, or why it cannot be used. Only matrices are
/// packed or rounded.
pub fn treat(rd: &Readers, i: usize, n: usize, shape: &Vec<usize>) -> (r: Result<Treat, String>)
    requires
        i < rd.gemm@.len(),
        i < rd.gemm8@.len(),
        forall|k: int| 0 <= k <= shape@.len() ==> product(shape@, k) <= usize::MAX,
    ensures
        match r {
            Err(e) => n != product(shape@, shape@.len() as int) && e@ == wrong_size_text(
                i as int,
                n as int,
                shape@,
            ),
            Ok(t) => {
                &&& n == product(shape@, shape@.len() as int)
                &&& t.pack == (rd.gemm@[i as int] && shape@.len() == 2)
                &&& t.round == (rd.gemm8@[i as int] && shape@.len() == 2)
            },
        },
{
    if let Err(e) = check_size(i, n, shape) {
        return Err(e);
    }
    Ok(Treat { pack: rd.gemm[i] && shape.len() == 2, round: rd.gemm8[i] && shape.len() == 2 })
}

/// Whether the row major values of a weight stay, given its readers and the copies there are.
pub open spec fn rows_stay(gemm: bool, gemm8: bool, other: bool, packed: bool, rounded: bool) -> bool {
    other || (!gemm && !gemm8) || (gemm && !packed) || (gemm8 && !rounded)
}

/// Whether the row major values of tensor `i` stay: something other than products reads it, no
/// product does, or a product has no copy of its own. `packed` and `rounded` say which copies
/// there are.
pub fn keeps_rows(rd: &Readers, i: usize, packed: bool, rounded: bool) -> (r: bool)
    requires
        i < rd.gemm@.len(),
        i < rd.gemm8@.len(),
        i < rd.other@.len(),
    ensures
        r == rows_stay(
            rd.gemm@[i as int],
            rd.gemm8@[i as int],
            rd.other@[i as int],
            packed,
            rounded,
        ),
{
    let copied = (!rd.gemm[i] || packed) && (!rd.gemm8[i] || rounded);
    !((rd.gemm[i] || rd.gemm8[i]) && !rd.other[i] && copied)
}

/// No reader is left without the values it reads: a product has its own copy or the rows, and
/// everything else has the rows.
pub proof fn every_reader_is_served(gemm: bool, gemm8: bool, other: bool, packed: bool, rounded: bool)
    ensures
        gemm ==> packed || rows_stay(gemm, gemm8, other, packed, rounded),
        gemm8 ==> rounded || rows_stay(gemm, gemm8, other, packed, rounded),
        other ==> rows_stay(gemm, gemm8, other, packed, rounded),
{
}

/// What a weight holds in memory.
#[derive(Debug, Clone, Copy, PartialEq, Eq, Structural)]
pub struct Held {
    /// Row major values.
    pub data: usize,
    /// Packed values.
    pub packed: usize,
    /// Rounded values.
    pub rounded: usize,
    /// Scales of the rounded rows.
    pub scales: usize,
}

/// Bytes of the first `n` weights: four for a value or a scale, and one for a rounded value.
pub open spec fn held_bytes(w: Seq<Held>, n: int) -> int
    decreases n,
{
    if n <= 0 {
        0
    } else {
        let t = w[n - 1];
        held_bytes(w, n - 1) + 4 * (t.data + t.packed) + t.rounded + 4 * t.scales
    }
}

/// Fewer weights take no more.
proof fn held_grows(w: Seq<Held>, m: int, n: int)
    requires
        0 <= m <= n,
    ensures
        0 <= held_bytes(w, m) <= held_bytes(w, n),
    decreases n,
{
    if m < n {
        held_grows(w, m, n - 1);
    } else if m > 0 {
        held_grows(w, m - 1, n - 1);
    }
}

/// Bytes of the weights in memory.
pub fn weight_bytes(w: &Vec<Held>) -> (r: usize)
    requires
        held_bytes(w@, w@.len() as int) <= usize::MAX,
    ensures
        r == held_bytes(w@, w@.len() as int),
{
    let mut r: usize = 0;
    let mut i: usize = 0;
    while i < w.len()
        invariant
            i <= w@.len(),
            held_bytes(w@, w@.len() as int) <= usize::MAX,
            r == held_bytes(w@, i as int),
        decreases w@.len() - i,
    {
        proof {
            held_grows(w@, i + 1, w@.len() as int);
            held_grows(w@, 0, i as int);
        }
        let t = w[i];
        r = r + 4 * (t.data + t.packed) + t.rounded + 4 * t.scales;
        i += 1;
    }
    r
}

} // verus!
