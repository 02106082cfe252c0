//! The index arithmetic of multi head self attention over sequences packed end to end.

use vstd::arithmetic::div_mod::*;
use vstd::prelude::*;

verus! {

/// Query rows per task.
pub const QB: usize = 32;

/// Queries taken together.
pub const QT: usize = 4;

/// Keys per tile.
pub const KT: usize = 4;

/// `n` rounded up to a multiple of `m`.
pub open spec fn round_up(n: int, m: int) -> int {
    (n + m - 1) / m * m
}

/// `n` rounded up to a multiple of `m`.
pub fn next_multiple(n: usize, m: usize) -> (r: usize)
    requires
        m > 0,
        round_up(n as int, m as int) <= usize::MAX,
    ensures
        r == round_up(n as int, m as int),
{
    let rest: usize = n % m;
    proof {
        lemma_fundamental_div_mod(n as int, m as int);
        let q = n as int / m as int;
        assert(m * q == q * m) by (nonlinear_arith);
        if rest == 0 {
            assert((n + m - 1) / m as int == q) by {
                lemma_fundamental_div_mod_converse(n + m - 1, m as int, q, m - 1);
            }
        } else {
            assert((q + 1) * m == q * m + m) by (nonlinear_arith);
            assert((n + m - 1) / m as int == q + 1) by {
                lemma_fundamental_div_mod_converse(n + m - 1, m as int, q + 1, rest - 1);
            }
        }
    }
    if rest == 0 {
        n
    } else {
        n + (m - rest)
    }
}

/// `n / m` rounded up.
pub open spec fn ceil_div(n: int, m: int) -> int {
    (n + m - 1) / m
}

/// `n / m` rounded up.
pub fn div_ceil(n: usize, m: usize) -> (r: usize)
    requires
        m > 0,
    ensures
        r == ceil_div(n as int, m as int),
        r <= n,
{
    let q: usize = n / m;
    let rest: usize = n % m;
    proof {
        lemma_fundamental_div_mod(n as int, m as int);
        assert(m * q == q * m) by (nonlinear_arith);
        if rest == 0 {
            lemma_fundamental_div_mod_converse(n + m - 1, m as int, q as int, m - 1);
        } else {
            assert((q + 1) * m == q * m + m) by (nonlinear_arith);
            lemma_fundamental_div_mod_converse(n + m - 1, m as int, q + 1, rest - 1);
        }
        assert(q * m >= q) by (nonlinear_arith)
            requires
                m > 0,
                q >= 0,
        ;
        assert(rest > 0 ==> q < n);
    }
    if rest == 0 {
        q
    } else {
        q + 1
    }
}

/// Floats of scratch each task needs over sequences of at most `tokens` tokens.
pub fn scratch_len(tokens: usize) -> (r: usize)
    requires
        4 * round_up(tokens as int, 4) <= usize::MAX,
    ensures
        r == 4 * round_up(tokens as int, 4),
{
    QT * next_multiple(tokens, KT)
}

/// Whether query row `i` of the sequence in rows `lo..hi` sees key row `j`: both are rows of it,
/// and with a window they are at most that far apart.
pub open spec fn sees(lo: int, hi: int, window: Option<usize>, i: int, j: int) -> bool {
    &&& lo <= j < hi
    &&& window matches Some(w) ==> j - i <= w && i - j <= w
}

/// The first key row that query row `i` sees.
pub open spec fn span_start(lo: int, window: Option<usize>, i: int) -> int {
    match window {
        Some(w) => if i - w > lo {
            i - w
        } else {
            lo
        },
        None => lo,
    }
}

/// The end of the key rows that query row `i` sees.
pub open spec fn span_end(hi: int, window: Option<usize>, i: int) -> int {
    match window {
        Some(w) => if i + w + 1 < hi {
            i + w + 1
        } else {
            hi
        },
        None => hi,
    }
}

/// The rows `a..b` of the keys that query row `i` sees.
pub fn span(lo: usize, hi: usize, window: Option<usize>, i: usize) -> (r: (usize, usize))
    requires
        lo <= i < hi,
    ensures
        lo <= r.0 <= i < r.1 <= hi,
        r.0 == span_start(lo as int, window, i as int),
        r.1 == span_end(hi as int, window, i as int),
        forall|j: int| r.0 <= j < r.1 <==> sees(lo as int, hi as int, window, i as int, j),
{
    match window {
        Some(w) => {
            let low: usize = if i >= w {
                i - w
            } else {
                0
            };
            let a: usize = if low > lo {
                low
            } else {
                lo
            };
            let b: usize = if w < hi - i {
                i + w + 1
            } else {
                hi
            };
            (a, b)
        },
        None => (lo, hi),
    }
}

/// The key tiles one group of queries runs over.
#[derive(Debug, Clone, Copy, PartialEq, Eq, Structural)]
pub struct Group {
    /// The first query row.
    pub i0: usize,
    /// Queries in the group.
    pub m: usize,
    /// The first key column, counted from the task's first key and a multiple of the tile.
    pub t0: usize,
    /// The end of the key columns, a multiple of the tile.
    pub t1: usize,
}

/// One attention task: the keys its queries see, the columns of its score rows, and its groups.
#[derive(Debug)]
pub struct Block {
    /// The first key row.
    pub ka: usize,
    /// The end of the key rows.
    pub kb: usize,
    /// Columns of a score row: the keys, rounded up to whole tiles.
    pub np: usize,
    /// The groups, in order.
    pub groups: Vec<Group>,
}

/// The key row that column `j` of a task reads: past the last key, the last key again.
pub fn key_row(ka: usize, kb: usize, j: usize) -> (r: usize)
    requires
        ka < kb,
        ka + j <= usize::MAX,
    ensures
        r == if ka + j < kb {
            ka + j
        } else {
            kb - 1
        },
        ka <= r < kb,
{
    if ka + j < kb {
        ka + j
    } else {
        kb - 1
    }
}

/// What group `g` of a task is: up to four queries in order, and the whole tiles of columns from
/// the first key of its first query to the last key of its last. They hold every key one of the
/// queries sees and stay within the score row of `np` columns.
pub open spec fn group_ok(
    lo: int,
    hi: int,
    window: Option<usize>,
    q0: int,
    q1: int,
    ka: int,
    np: int,
    x: Group,
    g: int,
) -> bool {
    &&& x.i0 == q0 + 4 * g
    &&& x.m == if q1 - x.i0 < 4 {
        q1 - x.i0
    } else {
        4
    }
    &&& x.t0 == (span_start(lo, window, x.i0 as int) - ka) / 4 * 4
    &&& x.t1 == round_up(span_end(hi, window, x.i0 + x.m - 1) - ka, 4)
    &&& x.t0 <= x.t1 <= np
    &&& forall|i: int, j: int| #![trigger covers(x, ka, i, j)]
        x.i0 <= i < x.i0 + x.m && sees(lo, hi, window, i, j) ==> covers(x, ka, i, j)
}

/// Column `j - ka` lies in the group's tiles.
pub open spec fn covers(x: Group, ka: int, i: int, j: int) -> bool {
    ka + x.t0 <= j < ka + x.t1
}

/// The keys and tiles of the task for query rows `q0..q0 + 32` of the sequence in rows `lo..hi`.
/// The key range goes from the first key of the first query to the last key of the last. Every
/// query of the task is in exactly one group, and every key that one of them sees is in the key
/// range and in the tiles of its group. The score rows fit the scratch.
pub fn block(lo: usize, hi: usize, q0: usize, window: Option<usize>) -> (b: Block)
    requires
        lo <= q0 < hi,
        hi + 32 <= usize::MAX,
        16 * (hi + 4) <= usize::MAX,
    ensures
        ({
            let q1 = if q0 + 32 < hi {
                q0 + 32
            } else {
                hi as int
            };
            &&& b.ka == span_start(lo as int, window, q0 as int)
            &&& b.kb == span_end(hi as int, window, q1 - 1)
            &&& lo <= b.ka < b.kb <= hi
            &&& forall|i: int, j: int|
                q0 <= i < q1 && sees(lo as int, hi as int, window, i, j) ==> b.ka <= j < b.kb
            &&& b.np == round_up(b.kb - b.ka, 4)
            &&& 4 * b.np <= 4 * round_up(hi - lo, 4)
            &&& b.groups@.len() == ceil_div(q1 - q0, 4)
            &&& forall|g: int|
                0 <= g < b.groups@.len() ==> #[trigger] group_ok(
                    lo as int,
                    hi as int,
                    window,
                    q0 as int,
                    q1,
                    b.ka as int,
                    b.np as int,
                    b.groups@[g],
                    g,
                )
        }),
{
    let q1: usize = if q0 + QB < hi {
        q0 + QB
    } else {
        hi
    };
    let first = span(lo, hi, window, q0);
    let last = span(lo, hi, window, q1 - 1);
    let ka: usize = first.0;
    let kb: usize = last.1;
    assert(sees(lo as int, hi as int, window, q0 as int, q0 as int));
    assert(sees(lo as int, hi as int, window, q1 - 1, q1 - 1));
    let np: usize = next_multiple(kb - ka, KT);
    let mut groups: Vec<Group> = Vec::new();
    let mut i0: usize = q0;
    assert forall|i: int, j: int| q0 <= i < q1 && sees(lo as int, hi as int, window, i, j) implies ka
        <= j < kb by {
        if j < q0 {
            assert(sees(lo as int, hi as int, window, q0 as int, j));
        }
        if j > q1 - 1 {
            assert(sees(lo as int, hi as int, window, q1 - 1, j));
        }
    }
    while i0 < q1
        invariant
            lo <= q0 <= i0,
            q0 < q1 <= hi,
            q1 <= q0 + 32,
            hi + 32 <= usize::MAX,
            16 * (hi + 4) <= usize::MAX,
            lo <= ka <= q0,
            q1 <= kb <= hi,
            np == round_up(kb - ka, 4),
            i0 == q0 + 4 * groups@.len(),
            groups@.len() <= ceil_div(q1 - q0, 4),
            forall|i: int, j: int|
                q0 <= i < q1 && sees(lo as int, hi as int, window, i, j) ==> ka <= j < kb,
            forall|g: int|
                0 <= g < groups@.len() ==> #[trigger] group_ok(
                    lo as int,
                    hi as int,
                    window,
                    q0 as int,
                    q1 as int,
                    ka as int,
                    np as int,
                    groups@[g],
                    g,
                ),
        decreases q1 + 4 - i0,
    {
        let m: usize = if q1 - i0 < QT {
            q1 - i0
        } else {
            QT
        };
        let s0 = span(lo, hi, window, i0);
        let s1 = span(lo, hi, window, i0 + m - 1);
        assert(sees(lo as int, hi as int, window, i0 as int, s0.0 as int));
        assert(sees(lo as int, hi as int, window, i0 + m - 1, s1.1 - 1));
        let t0: usize = (s0.0 - ka) / KT * KT;
        let t1: usize = next_multiple(s1.1 - ka, KT);
        let g = Group { i0, m, t0, t1 };
        groups.push(g);
        assert(group_ok(
            lo as int,
            hi as int,
            window,
            q0 as int,
            q1 as int,
            ka as int,
            np as int,
            g,
            groups@.len() - 1,
        )) by {
            assert forall|i: int, j: int| #![trigger covers(g, ka as int, i, j)]
                g.i0 <= i < g.i0 + g.m && sees(lo as int, hi as int, window, i, j) implies covers(
                g,
                ka as int,
                i,
                j,
            ) by {
                if j < s0.0 {
                    assert(!sees(lo as int, hi as int, window, i0 as int, j));
                }
                if j >= s1.1 {
                    assert(!sees(lo as int, hi as int, window, i0 + m - 1, j));
                }
            }
            assert(s1.1 <= kb);
        }
        i0 += QT;
    }
    Block { ka, kb, np, groups }
}

/// One task of attention over a batch.
#[derive(Debug, Clone, Copy, PartialEq, Eq, Structural)]
pub struct Task {
    /// The sequence.
    pub s: usize,
    /// The head.
    pub h: usize,
    /// The first query row.
    pub q0: usize,
}

/// The tasks of the first `n` heads at a query row.
pub open spec fn head_tasks(s: int, q0: int, n: int) -> Seq<Task>
    decreases n,
{
    if n <= 0 {
        seq![]
    } else {
        head_tasks(s, q0, n - 1).push(Task { s: s as usize, h: (n - 1) as usize, q0: q0 as usize })
    }
}

/// The tasks of the first `n` blocks of queries of the sequence that starts at row `lo`.
pub open spec fn block_tasks(s: int, lo: int, heads: int, n: int) -> Seq<Task>
    decreases n,
{
    if n <= 0 {
        seq![]
    } else {
        block_tasks(s, lo, heads, n - 1) + head_tasks(s, lo + 32 * (n - 1), heads)
    }
}

/// The tasks of the first `n` sequences: every head of every block of queries.
pub open spec fn batch_tasks(cu: Seq<usize>, heads: int, n: int) -> Seq<Task>
    decreases n,
{
    if n <= 0 {
        seq![]
    } else {
        batch_tasks(cu, heads, n - 1) + block_tasks(
            n - 1,
            cu[n - 1] as int,
            heads,
            ceil_div(cu[n] - cu[n - 1], 32),
        )
    }
}

/// The tasks of attention over the sequences that `cu` bounds.
pub fn tasks(cu: &Vec<usize>, heads: usize) -> (r: Vec<Task>)
    requires
        cu@.len() > 0,
        forall|i: int, j: int| 0 <= i <= j < cu@.len() ==> cu@[i] <= cu@[j],
        cu@[cu@.len() - 1] + 32 <= usize::MAX,
    ensures
        r@ == batch_tasks(cu@, heads as int, cu@.len() - 1),
{
    let mut out: Vec<Task> = Vec::new();
    let mut s: usize = 0;
    while s < cu.len() - 1
        invariant
            s <= cu@.len() - 1,
            cu@.len() > 0,
            forall|i: int, j: int| 0 <= i <= j < cu@.len() ==> cu@[i] <= cu@[j],
            cu@[cu@.len() - 1] + 32 <= usize::MAX,
            out@ == batch_tasks(cu@, heads as int, s as int),
        decreases cu@.len() - s,
    {
        let (lo, hi): (usize, usize) = (cu[s], cu[s + 1]);
        let ghost before = out@;
        let ghost mut n: int = 0;
        let mut q0: usize = lo;
        assert(cu@[s + 1] <= cu@[cu@.len() - 1]);
        assert(out@ =~= before + block_tasks(s as int, lo as int, heads as int, 0));
        while q0 < hi
            invariant
                lo <= hi,
                hi + 32 <= usize::MAX,
                n >= 0,
                q0 == lo + 32 * n,
                n <= ceil_div(hi - lo, 32),
                out@ == before + block_tasks(s as int, lo as int, heads as int, n),
            decreases hi + 32 - q0,
        {
            let ghost inner = out@;
            let mut h: usize = 0;
            assert(out@ =~= inner + head_tasks(s as int, q0 as int, 0));
            while h < heads
                invariant
                    h <= heads,
                    out@ == inner + head_tasks(s as int, q0 as int, h as int),
                decreases heads - h,
            {
                out.push(Task { s, h, q0 });
                h += 1;
                assert(out@ =~= inner + head_tasks(s as int, q0 as int, h as int));
            }
            q0 += QB;
            proof {
                n = n + 1;
                assert(out@ =~= before + block_tasks(s as int, lo as int, heads as int, n));
            }
        }
        s += 1;
        assert(n == ceil_div(hi - lo, 32));
        assert(out@ =~= batch_tasks(cu@, heads as int, s as int));
    }
    out
}

/// Everything a window attention over one sequence has to do is done once: query row `i` is in
/// the one task that starts at a multiple of 32 from `lo`, and in one group of it.
pub proof fn every_query_in_one_task(lo: int, hi: int, i: int)
    requires
        lo <= i < hi,
    ensures
        exists|t: int|
            0 <= t < ceil_div(hi - lo, 32) && #[trigger] task_has(lo, hi, t, i),
        forall|t: int, u: int|
            #[trigger] task_has(lo, hi, t, i) && #[trigger] task_has(lo, hi, u, i) ==> t == u,
{
    let t = (i - lo) / 32;
    assert(task_has(lo, hi, t, i));
}

/// Task `t` of the sequence in rows `lo..hi` covers query row `i`.
pub open spec fn task_has(lo: int, hi: int, t: int, i: int) -> bool {
    lo + 32 * t <= i < lo + 32 * t + 32 && i < hi
}

} // verus!
