//! How an FP32 product is cut into tasks and tiles.
//!
//! Every output is one dot product, and it is computed the same way wherever it lands. Tasks and
//! tiles only decide which dots run side by side, so the result is the same for any thread count.

use crate::cpu::attention::{ceil_div, div_ceil};
use vstd::arithmetic::div_mod::{
    lemma_fundamental_div_mod, lemma_fundamental_div_mod_converse, lemma_mod_bound,
    lemma_multiply_divide_lt,
};
use vstd::prelude::*;

verus! {

/// Rows of the input per tile.
pub const MR: usize = 4;

/// Rows of the weight per tile.
pub const NR: usize = 3;

/// Rows of the weight per task, a multiple of those per tile.
pub const NB: usize = 48;

/// Rows of the input per task.
pub const MB: usize = 128;

/// A part of the output: its rows and its columns.
#[derive(Debug, Clone, Copy, PartialEq, Eq, Structural)]
pub struct Part {
    /// The first row.
    pub r0: usize,
    /// The end of the rows.
    pub r1: usize,
    /// The first column.
    pub c0: usize,
    /// The end of the columns.
    pub c1: usize,
}

impl Part {
    /// Whether an output is in the part.
    pub open spec fn contains(self, i: int, j: int) -> bool {
        self.r0 <= i < self.r1 && self.c0 <= j < self.c1
    }
}

/// How many tasks an `[m, n]` output has.
pub open spec fn task_count(m: int, n: int) -> int {
    ceil_div(m, 128) * ceil_div(n, 48)
}

/// How many tasks an `[m, n]` output has.
pub fn tasks(m: usize, n: usize) -> (r: usize)
    requires
        task_count(m as int, n as int) <= usize::MAX,
    ensures
        r == task_count(m as int, n as int),
{
    div_ceil(m, MB) * div_ceil(n, NB)
}

/// The smaller of two.
pub open spec fn least(a: int, b: int) -> int {
    if a < b {
        a
    } else {
        b
    }
}

/// Whether `p` is task `t` of an `[m, n]` output: blocks of rows come first.
pub open spec fn is_task(p: Part, m: int, n: int, t: int) -> bool {
    let mt = ceil_div(m, 128);
    let (bi, bj) = (t % mt, t / mt);
    &&& p.r0 == bi * 128
    &&& p.r1 == least(bi * 128 + 128, m)
    &&& p.c0 == bj * 48
    &&& p.c1 == least(bj * 48 + 48, n)
}

/// The rows and columns of a task lie in the output.
proof fn task_bounds(m: int, n: int, t: int)
    requires
        m > 0,
        n > 0,
        0 <= t < task_count(m, n),
    ensures
        ({
            let mt = ceil_div(m, 128);
            &&& mt > 0
            &&& 0 <= t % mt < mt
            &&& 0 <= t / mt < ceil_div(n, 48)
            &&& (t % mt) * 128 < m
            &&& (t / mt) * 48 < n
            &&& t == mt * (t / mt) + t % mt
        }),
{
    let (mt, nt) = (ceil_div(m, 128), ceil_div(n, 48));
    assert(mt > 0 && nt > 0);
    lemma_mod_bound(t, mt);
    lemma_fundamental_div_mod(t, mt);
    lemma_multiply_divide_lt(t, mt, nt);
    assert(t / mt >= 0) by {
        vstd::arithmetic::div_mod::lemma_div_pos_is_pos(t, mt);
    }
}

/// Task `t` of an `[m, n]` output.
pub fn task(m: usize, n: usize, t: usize) -> (p: Part)
    requires
        m > 0,
        n > 0,
        t < task_count(m as int, n as int),
    ensures
        is_task(p, m as int, n as int, t as int),
        p.r0 < p.r1 <= m,
        p.c0 < p.c1 <= n,
{
    let mt: usize = div_ceil(m, MB);
    proof {
        task_bounds(m as int, n as int, t as int);
    }
    let (bi, bj): (usize, usize) = (t % mt, t / mt);
    let r0: usize = bi * MB;
    let c0: usize = bj * NB;
    Part {
        r0,
        r1: if m - r0 > MB {
            r0 + MB
        } else {
            m
        },
        c0,
        c1: if n - c0 > NB {
            c0 + NB
        } else {
            n
        },
    }
}

/// Task `t` computes output `i`, `j`.
pub open spec fn in_task(m: int, n: int, t: int, i: int, j: int) -> bool {
    let mt = ceil_div(m, 128);
    &&& (t % mt) * 128 <= i < least((t % mt) * 128 + 128, m)
    &&& (t / mt) * 48 <= j < least((t / mt) * 48 + 48, n)
}

/// Every output belongs to exactly one task.
pub proof fn every_output_in_one_task(m: int, n: int, i: int, j: int)
    requires
        0 <= i < m,
        0 <= j < n,
    ensures
        exists|t: int| 0 <= t < task_count(m, n) && #[trigger] in_task(m, n, t, i, j),
        forall|t: int, u: int|
            0 <= t < task_count(m, n) && 0 <= u < task_count(m, n) && #[trigger] in_task(
                m,
                n,
                t,
                i,
                j,
            ) && #[trigger] in_task(m, n, u, i, j) ==> t == u,
{
    let (mt, nt) = (ceil_div(m, 128), ceil_div(n, 48));
    let (bi, bj) = (i / 128, j / 48);
    assert(0 <= bi < mt && 0 <= bj < nt);
    let t = bj * mt + bi;
    lemma_fundamental_div_mod_converse(t, mt, bj, bi);
    assert(0 <= t < mt * nt) by (nonlinear_arith)
        requires
            t == bj * mt + bi,
            0 <= bi < mt,
            0 <= bj,
            bj + 1 <= nt,
    ;
    assert(in_task(m, n, t, i, j));
    assert forall|a: int, b: int|
        0 <= a < task_count(m, n) && 0 <= b < task_count(m, n) && #[trigger] in_task(m, n, a, i, j)
            && #[trigger] in_task(m, n, b, i, j) implies a == b by {
        task_bounds(m, n, a);
        task_bounds(m, n, b);
        assert(a % mt == b % mt);
        assert(a / mt == b / mt);
    }
}

/// Two parts share no output.
pub open spec fn apart(a: Part, b: Part) -> bool {
    a.r1 <= b.r0 || b.r1 <= a.r0 || a.c1 <= b.c0 || b.c1 <= a.c0
}

/// One of the tiles computes output `i`, `j`.
pub open spec fn covered(tiles: Seq<Part>, i: int, j: int) -> bool {
    exists|k: int| 0 <= k < tiles.len() && (#[trigger] tiles[k]).contains(i, j)
}

/// Tiles of one of the four sizes that the kernels have.
pub open spec fn sized(t: Part) -> bool {
    &&& t.r0 < t.r1
    &&& t.c0 < t.c1
    &&& t.r1 - t.r0 == 4 || t.r1 - t.r0 == 1
    &&& t.c1 - t.c0 == 3 || t.c1 - t.c0 == 1
}

/// Tiles of known sizes inside a part, no two of which share an output.
pub open spec fn tiles_ok(tiles: Seq<Part>, p: Part) -> bool {
    &&& forall|k: int| 0 <= k < tiles.len() ==> {
        let t = #[trigger] tiles[k];
        sized(t) && p.r0 <= t.r0 && t.r1 <= p.r1 && p.c0 <= t.c0 && t.c1 <= p.c1
    }
    &&& forall|a: int, b: int|
        0 <= a < b < tiles.len() ==> apart(#[trigger] tiles[a], #[trigger] tiles[b])
}

/// What is covered stays covered.
proof fn still_covered(tiles: Seq<Part>, t: Part, i: int, j: int)
    ensures
        covered(tiles, i, j) ==> covered(tiles.push(t), i, j),
        t.contains(i, j) ==> covered(tiles.push(t), i, j),
{
    let now = tiles.push(t);
    if covered(tiles, i, j) {
        let k = choose|k: int| 0 <= k < tiles.len() && (#[trigger] tiles[k]).contains(i, j);
        assert(now[k].contains(i, j));
    }
    if t.contains(i, j) {
        assert(now[tiles.len() as int].contains(i, j));
    }
}

/// Appends the tiles of the columns `j..end` of a part: three columns wide, or one by one.
fn strip(out: &mut Vec<Part>, p: Part, j: usize, end: usize)
    requires
        p.c0 <= j < end <= p.c1,
        p.r0 <= p.r1,
        end - j <= 3,
        tiles_ok(old(out)@, p),
        forall|k: int| 0 <= k < old(out)@.len() ==> (#[trigger] old(out)@[k]).c1 <= j,
        forall|a: int, b: int|
            p.r0 <= a < p.r1 && p.c0 <= b < j ==> #[trigger] covered(old(out)@, a, b),
    ensures
        tiles_ok(final(out)@, p),
        forall|k: int| 0 <= k < final(out)@.len() ==> (#[trigger] final(out)@[k]).c1 <= end,
        forall|a: int, b: int|
            p.r0 <= a < p.r1 && p.c0 <= b < end ==> #[trigger] covered(final(out)@, a, b),
{
    let step: usize = if end - j >= NR {
        NR
    } else {
        1
    };
    let mut i: usize = p.r0;
    while i < p.r1
        invariant
            p.r0 <= i <= p.r1,
            p.c0 <= j < end <= p.c1,
            step == 1 || (step == 3 && end - j == 3),
            tiles_ok(out@, p),
            forall|k: int|
                0 <= k < out@.len() ==> (#[trigger] out@[k]).c1 <= end && (out@[k].c1 <= j
                    || out@[k].r1 <= i),
            forall|a: int, b: int|
                p.r0 <= a < p.r1 && p.c0 <= b < j ==> #[trigger] covered(out@, a, b),
            forall|a: int, b: int|
                p.r0 <= a < i && j <= b < end ==> #[trigger] covered(out@, a, b),
        decreases p.r1 - i,
    {
        let rows: usize = if p.r1 - i >= MR {
            MR
        } else {
            1
        };
        let mut c: usize = j;
        while c < end
            invariant
                p.r0 <= i,
                i + rows <= p.r1,
                rows == 4 || rows == 1,
                p.c0 <= j <= c <= end <= p.c1,
                step == 1 || (step == 3 && end - j == 3 && (c == j || c == end)),
                tiles_ok(out@, p),
                forall|k: int|
                    0 <= k < out@.len() ==> (#[trigger] out@[k]).c1 <= end && (out@[k].c1 <= j
                        || out@[k].r1 <= i || (out@[k].r1 <= i + rows && out@[k].c1 <= c)),
                forall|a: int, b: int|
                    p.r0 <= a < p.r1 && p.c0 <= b < j ==> #[trigger] covered(out@, a, b),
                forall|a: int, b: int|
                    p.r0 <= a < i && j <= b < end ==> #[trigger] covered(out@, a, b),
                forall|a: int, b: int|
                    i <= a < i + rows && j <= b < c ==> #[trigger] covered(out@, a, b),
            decreases end - c,
        {
            let ghost before = out@;
            let t = Part { r0: i, r1: i + rows, c0: c, c1: c + step };
            out.push(t);
            proof {
                assert forall|a: int, b: int| #[trigger] covered(before, a, b) || t.contains(
                    a,
                    b,
                ) implies covered(out@, a, b) by {
                    still_covered(before, t, a, b);
                }
                assert forall|a: int, b: int|
                    i <= a < i + rows && j <= b < c + step implies #[trigger] covered(out@, a, b) by {
                    still_covered(before, t, a, b);
                    if b < c {
                        assert(covered(before, a, b));
                    } else {
                        assert(t.contains(a, b));
                    }
                }
                assert forall|a: int, b: int|
                    p.r0 <= a < p.r1 && p.c0 <= b < j implies #[trigger] covered(out@, a, b) by {
                    assert(covered(before, a, b));
                }
                assert forall|a: int, b: int|
                    p.r0 <= a < i && j <= b < end implies #[trigger] covered(out@, a, b) by {
                    assert(covered(before, a, b));
                }
            }
            c += step;
        }
        i += rows;
    }
}

/// The tiles of a part, in the order they run.
pub fn tiles(p: Part) -> (r: Vec<Part>)
    requires
        p.r0 <= p.r1,
        p.c0 <= p.c1,
    ensures
        tiles_ok(r@, p),
        forall|i: int, j: int| p.contains(i, j) ==> #[trigger] covered(r@, i, j),
{
    let mut out: Vec<Part> = Vec::new();
    let mut j: usize = p.c0;
    while j < p.c1
        invariant
            p.c0 <= j <= p.c1,
            p.r0 <= p.r1,
            tiles_ok(out@, p),
            forall|k: int| 0 <= k < out@.len() ==> (#[trigger] out@[k]).c1 <= j,
            forall|a: int, b: int|
                p.r0 <= a < p.r1 && p.c0 <= b < j ==> #[trigger] covered(out@, a, b),
        decreases p.c1 - j,
    {
        let end: usize = if p.c1 - j >= NR {
            j + NR
        } else {
            p.c1
        };
        strip(&mut out, p, j, end);
        j = end;
    }
    out
}

/// No output of a part is in two of its tiles.
pub proof fn no_output_in_two_tiles(tiles: Seq<Part>, p: Part, a: int, b: int, i: int, j: int)
    requires
        tiles_ok(tiles, p),
        0 <= a < tiles.len(),
        0 <= b < tiles.len(),
        tiles[a].contains(i, j),
        tiles[b].contains(i, j),
    ensures
        a == b,
{
    if a < b {
        assert(apart(tiles[a], tiles[b]));
    } else if b < a {
        assert(apart(tiles[b], tiles[a]));
    }
}

} // verus!
