//! Element types: which values of a graph run in FP16.

use crate::graph::{Epilogue, Graph, Op, Val};
use vstd::prelude::*;

verus! {

/// How much of the graph runs in FP16.
#[derive(Debug, Clone, Copy, PartialEq, Eq, Structural)]
pub enum Precision {
    /// FP32 values, weights and products.
    F32,
    /// FP16 weights and product inputs, with the residual stream, attention's qkv and the heads
    /// in FP32.
    F16,
}

impl Default for Precision {
    fn default() -> (r: Self)
        ensures
            r == Precision::F32,
    {
        Precision::F32
    }
}

/// Element types.
#[derive(Debug, Clone, Copy, PartialEq, Eq, Structural)]
pub enum Ty {
    /// FP16.
    F16,
    /// FP32.
    F32,
}

/// The virtual architecture the kernels are compiled for: the newest one that is no newer than
/// the device, from 7.5 to 9.0.
pub open spec fn arch_text(major: i32, minor: i32) -> Seq<char> {
    if major <= 7 {
        "compute_75"@
    } else if major == 8 && minor == 0 {
        "compute_80"@
    } else if major == 8 && 6 <= minor <= 8 {
        "compute_86"@
    } else if major == 8 {
        "compute_89"@
    } else {
        "compute_90"@
    }
}

/// The virtual architecture the kernels are compiled for. The driver compiles the result for the
/// actual device, so a newer GPU than any listed gets the newest one here.
pub fn arch_flag(arch: (i32, i32)) -> (r: &'static str)
    ensures
        r@ == arch_text(arch.0, arch.1),
{
    let (major, minor) = arch;
    if major <= 7 {
        "compute_75"
    } else if major == 8 && minor == 0 {
        "compute_80"
    } else if major == 8 && 6 <= minor && minor <= 8 {
        "compute_86"
    } else if major == 8 {
        "compute_89"
    } else {
        "compute_90"
    }
}

/// Whether an operation alone makes value `v` FP32: the embedding and the act features write it,
/// a product accumulates into it, the type embedding adds to it, or attention reads it.
pub open spec fn op_single(op: Op, v: int) -> bool {
    match op {
        Op::Embed { out, .. } => out.0 == v,
        Op::ActFeatures { out, .. } => out.0 == v,
        Op::Gemm { epilogue: Epilogue::Accumulate, out, .. } => out.0 == v,
        Op::AddType { h, .. } => h.0 == v,
        Op::Attention { qkv, .. } => qkv.0 == v,
        _ => false,
    }
}

/// Whether an operation wants value `v` in FP16: attention and the gated activation write it.
pub open spec fn op_half(op: Op, v: int) -> bool {
    match op {
        Op::Attention { out, .. } => out.0 == v,
        Op::GeGlu { out, .. } => out.0 == v,
        _ => false,
    }
}

/// The values a product or a gather reads and writes.
pub open spec fn op_flow(op: Op) -> Option<(Val, Val)> {
    match op {
        Op::Gemm { a, out, .. } => Some((a, out)),
        Op::GatherMarkers { h, out } => Some((h, out)),
        _ => None,
    }
}

/// Whether value `v` is FP32 by itself: by one of the first `n` operations, or as an output.
pub open spec fn single(g: &Graph, n: int, v: int) -> bool {
    exists|i: int| 0 <= i < n && op_single(#[trigger] g.ops@[i], v)
}

/// Whether value `v` is a graph output.
pub open spec fn output(g: &Graph, v: int) -> bool {
    (g.logits matches Some(l) && l.0 == v) || (g.act matches Some(a) && a.0 == v)
}

/// Whether value `v` is wanted in FP16 by one of the first `n` operations.
pub open spec fn half(g: &Graph, n: int, v: int) -> bool {
    exists|i: int| 0 <= i < n && op_half(#[trigger] g.ops@[i], v)
}

/// A set of values that holds every value FP32 by itself, and with the input of a product or a
/// gather its output too, unless that is wanted in FP16.
pub open spec fn closed_single(g: &Graph, s: Set<int>) -> bool {
    &&& forall|v: int| #[trigger] single(g, g.ops@.len() as int, v) ==> s.contains(v)
    &&& forall|v: int| #[trigger] output(g, v) ==> s.contains(v)
    &&& forall|i: int| #![trigger g.ops@[i]]
        0 <= i < g.ops@.len() ==> (op_flow(g.ops@[i]) matches Some((a, o)) ==> s.contains(
            a.0 as int,
        ) && !half(g, g.ops@.len() as int, o.0 as int) ==> s.contains(o.0 as int))
}

/// The types of the values in FP16 mode: the FP32 values are the smallest such set.
pub open spec fn typed(g: &Graph, ty: Seq<Ty>) -> bool {
    &&& ty.len() == g.vals@.len()
    &&& closed_single(g, singles(ty))
    &&& forall|s: Set<int>, v: int| #![trigger s.contains(v)]
        closed_single(g, s) && singles(ty).contains(v) ==> s.contains(v)
}

/// The values that are FP32.
pub open spec fn singles(ty: Seq<Ty>) -> Set<int> {
    Set::new(|v: int| 0 <= v < ty.len() && ty[v] == Ty::F32)
}

/// How many values are FP16.
spec fn halves(ty: Seq<Ty>) -> nat
    decreases ty.len(),
{
    if ty.len() == 0 {
        0
    } else {
        halves(ty.drop_last()) + (if ty.last() == Ty::F16 {
            1nat
        } else {
            0
        })
    }
}

/// One value turned to FP32 is one FP16 value less.
proof fn one_less(ty: Seq<Ty>, v: int)
    requires
        0 <= v < ty.len(),
        ty[v] == Ty::F16,
    ensures
        halves(ty.update(v, Ty::F32)) == halves(ty) - 1,
    decreases ty.len(),
{
    let now = ty.update(v, Ty::F32);
    if v == ty.len() - 1 {
        assert(now.drop_last() =~= ty.drop_last());
    } else {
        assert(now.drop_last() =~= ty.drop_last().update(v, Ty::F32));
        one_less(ty.drop_last(), v);
    }
}

/// The element type of every value.
///
/// With [`Precision::F32`] that is FP32 throughout. With [`Precision::F16`] a value is FP32 when
/// it is the residual stream (written by the embedding or accumulated into), the type embedding's
/// target, the act features, an output or attention's qkv, or is computed from an FP32 value by a
/// gather or a product and is no attention or gated output; every other value is FP16.
pub fn types(g: &Graph, precision: Precision) -> (r: Vec<Ty>)
    requires
        g.wf(),
    ensures
        r@.len() == g.vals@.len(),
        precision == Precision::F32 ==> forall|v: int|
            0 <= v < r@.len() ==> #[trigger] r@[v] == Ty::F32,
        precision == Precision::F16 ==> typed(g, r@),
{
    let n: usize = g.vals.len();
    if matches!(precision, Precision::F32) {
        return vec![Ty::F32; n];
    }
    let mut ty: Vec<Ty> = vec![Ty::F16; n];
    let mut wants: Vec<bool> = vec![false; n];
    let mut i: usize = 0;
    while i < g.ops.len()
        invariant
            i <= g.ops@.len(),
            g.wf(),
            n == g.vals@.len(),
            ty@.len() == n,
            wants@.len() == n,
            forall|v: int| 0 <= v < n ==> (#[trigger] ty@[v] == Ty::F32 <==> single(g, i as int, v)),
            forall|v: int| 0 <= v < n ==> (#[trigger] wants@[v] <==> half(g, i as int, v)),
        decreases g.ops@.len() - i,
    {
        proof {
            g.wf_op(i as int);
        }
        let ghost before = ty@;
        let ghost wanted = wants@;
        match g.ops[i] {
            Op::Embed { table: _, out } => ty.set(out.0 as usize, Ty::F32),
            Op::ActFeatures { h: _, logits: _, out } => ty.set(out.0 as usize, Ty::F32),
            Op::Gemm { a: _, w: _, b: _, epilogue, out } => {
                if matches!(epilogue, Epilogue::Accumulate) {
                    ty.set(out.0 as usize, Ty::F32);
                }
            },
            Op::AddType { h, table: _ } => ty.set(h.0 as usize, Ty::F32),
            Op::Attention { qkv, window: _, out } => {
                ty.set(qkv.0 as usize, Ty::F32);
                wants.set(out.0 as usize, true);
            },
            Op::GeGlu { x: _, out } => wants.set(out.0 as usize, true),
            _ => {},
        }
        proof {
            let op = g.ops@[i as int];
            assert forall|v: int| 0 <= v < n implies (#[trigger] ty@[v] == Ty::F32 <==> single(
                g,
                i + 1,
                v,
            )) by {
                assert(ty@[v] == Ty::F32 <==> before[v] == Ty::F32 || op_single(op, v));
            }
            assert forall|v: int| 0 <= v < n implies (#[trigger] wants@[v] <==> half(g, i + 1, v)) by {
                assert(wants@[v] <==> wanted[v] || op_half(op, v));
            }
        }
        i += 1;
    }
    if let Some(v) = g.logits {
        ty.set(v.0 as usize, Ty::F32);
    }
    if let Some(v) = g.act {
        ty.set(v.0 as usize, Ty::F32);
    }
    let ghost all = g.ops@.len() as int;
    proof {
        assert forall|v: int| single(g, all, v) implies 0 <= v < n by {
            let i = choose|i: int| 0 <= i < all && op_single(#[trigger] g.ops@[i], v);
            g.wf_op(i);
        }
    }
    assert forall|s: Set<int>, v: int| #![trigger s.contains(v)] closed_single(g, s) && singles(
        ty@,
    ).contains(v) implies s.contains(v) by {
        assert(single(g, all, v) || output(g, v));
    }
    loop
        invariant
            precision == Precision::F16,
            g.wf(),
            n == g.vals@.len(),
            all == g.ops@.len(),
            ty@.len() == n,
            wants@.len() == n,
            forall|v: int| 0 <= v < n ==> (#[trigger] wants@[v] <==> half(g, all, v)),
            forall|v: int| #[trigger] single(g, all, v) ==> singles(ty@).contains(v),
            forall|v: int| #[trigger] output(g, v) ==> singles(ty@).contains(v),
            forall|s: Set<int>, v: int| #![trigger s.contains(v)]
                closed_single(g, s) && singles(ty@).contains(v) ==> s.contains(v),
        decreases halves(ty@),
    {
        let ghost start = halves(ty@);
        let mut changed = false;
        let mut i: usize = 0;
        while i < g.ops.len()
            invariant
                i <= g.ops@.len(),
                g.wf(),
                n == g.vals@.len(),
                all == g.ops@.len(),
                ty@.len() == n,
                wants@.len() == n,
                forall|v: int| 0 <= v < n ==> (#[trigger] wants@[v] <==> half(g, all, v)),
                forall|v: int| #[trigger] single(g, all, v) ==> singles(ty@).contains(v),
                forall|v: int| #[trigger] output(g, v) ==> singles(ty@).contains(v),
                forall|s: Set<int>, v: int| #![trigger s.contains(v)]
                    closed_single(g, s) && singles(ty@).contains(v) ==> s.contains(v),
                halves(ty@) <= start,
                changed ==> halves(ty@) < start,
                !changed ==> forall|k: int| #![trigger g.ops@[k]]
                    0 <= k < i ==> (op_flow(g.ops@[k]) matches Some((a, o)) ==> singles(
                        ty@,
                    ).contains(a.0 as int) && !half(g, all, o.0 as int) ==> singles(ty@).contains(
                        o.0 as int,
                    )),
            decreases g.ops@.len() - i,
        {
            proof {
                g.wf_op(i as int);
            }
            let flow: Option<(Val, Val)> = match g.ops[i] {
                Op::Gemm { a, w: _, b: _, epilogue: _, out } => Some((a, out)),
                Op::GatherMarkers { h, out } => Some((h, out)),
                _ => None,
            };
            if let Some((a, out)) = flow {
                let o: usize = out.0 as usize;
                if matches!(ty[a.0 as usize], Ty::F32) && matches!(ty[o], Ty::F16) && !wants[o] {
                    let ghost before = ty@;
                    proof {
                        one_less(ty@, o as int);
                    }
                    ty.set(o, Ty::F32);
                    changed = true;
                    assert(forall|v: int|
                        #[trigger] singles(ty@).contains(v) <==> singles(before).contains(v) || v
                            == o);
                    assert forall|s: Set<int>, v: int| #![trigger s.contains(v)]
                        closed_single(g, s) && singles(ty@).contains(v) implies s.contains(v) by {
                        if v == o {
                            assert(singles(before).contains(a.0 as int));
                            assert(s.contains(a.0 as int));
                            assert(op_flow(g.ops@[i as int]) == Some((a, out)));
                        }
                    }
                }
            }
            i += 1;
        }
        if !changed {
            return ty;
        }
    }
}

} // verus!
