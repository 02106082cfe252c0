//! What a plan does for one batch: the index tables, and the kernel calls of every step.
//!
//! A step becomes a list of tasks that may run at the same time, each a list of calls to run in
//! order. Offsets are in elements of the arena, or of a weight for the two table calls.

use crate::batch::{bounds, one_sequence, seq_of, Batch};
use crate::cpu::attention::ceil_div;
use crate::cpu::plan::{loc_of, CpuBackend, Dump, Loc, Step, Weight};
use crate::graph::{Bucket, Epilogue, Graph, Layout, Rows, Val};
use vstd::prelude::*;

verus! {

/// Rows per task for the row wise steps.
pub const ROWS: usize = 16;

/// The index tables of a batch.
#[derive(Debug)]
pub struct Tables {
    /// Token starts of each sequence, and the end.
    pub cu: Vec<usize>,
    /// Marker starts of each sequence, and the end.
    pub mcu: Vec<usize>,
    /// The sequence of each token.
    pub row_seq: Vec<u32>,
    /// The query blocks of attention: the sequence and the first row.
    pub blocks: Vec<(u32, u32)>,
}

/// Blocks of 32 rows of the rows `lo..hi` of sequence `q`.
pub open spec fn seq_blocks(q: int, lo: int, hi: int) -> Seq<(u32, u32)> {
    Seq::new(ceil_div(hi - lo, 32) as nat, |k: int| (q as u32, (lo + 32 * k) as u32))
}

/// The blocks of the first `n` sequences.
pub open spec fn all_blocks(cu: Seq<u32>, n: int) -> Seq<(u32, u32)>
    decreases n,
{
    if n <= 0 {
        seq![]
    } else {
        all_blocks(cu, n - 1) + seq_blocks(n - 1, cu[n - 1] as int, cu[n] as int)
    }
}

impl Tables {
    /// The tables of a batch.
    pub open spec fn of(&self, b: &Batch) -> bool {
        &&& self.cu@ == Seq::new(b.cu@.len(), |i: int| b.cu@[i] as usize)
        &&& self.mcu@ == Seq::new(b.mcu@.len(), |i: int| b.mcu@[i] as usize)
        &&& self.row_seq@.len() == b.ids@.len()
        &&& forall|r: int|
            0 <= r < self.row_seq@.len() ==> seq_of(b.cu@, #[trigger] self.row_seq@[r] as int, r)
        &&& self.blocks@ == all_blocks(b.cu@, b.count())
    }
}

/// Bounds as indices.
fn as_indices(v: &Vec<u32>) -> (r: Vec<usize>)
    ensures
        r@ == Seq::new(v@.len(), |i: int| v@[i] as usize),
{
    let mut r: Vec<usize> = Vec::new();
    let mut i: usize = 0;
    while i < v.len()
        invariant
            i <= v@.len(),
            r@ == Seq::new(i as nat, |k: int| v@[k] as usize),
        decreases v@.len() - i,
    {
        r.push(v[i] as usize);
        i += 1;
        assert(r@ =~= Seq::new(i as nat, |k: int| v@[k] as usize));
    }
    r
}

/// The tables of a batch, or nothing when it does not fit the bucket.
pub fn tables(batch: &Batch, bucket: Bucket) -> (r: Option<Tables>)
    requires
        batch.wf(),
        batch.ids@.len() + 32 <= u32::MAX,
        batch.count() <= u32::MAX,
    ensures
        r is Some <==> bucket.spec_holds(
            batch.ids@.len() as int,
            batch.count(),
            batch.markers@.len() as int,
        ),
        r matches Some(t) ==> t.of(batch),
{
    let s: usize = batch.seqs();
    if !bucket.holds(batch.ids.len(), s, batch.markers.len()) {
        return None;
    }
    let cu = as_indices(&batch.cu);
    let mcu = as_indices(&batch.mcu);
    let mut row_seq: Vec<u32> = Vec::new();
    let mut blocks: Vec<(u32, u32)> = Vec::new();
    let mut q: usize = 0;
    while q < s
        invariant
            q <= s == batch.count(),
            batch.wf(),
            batch.ids@.len() + 32 <= u32::MAX,
            s <= u32::MAX,
            cu@ == Seq::new(batch.cu@.len(), |i: int| batch.cu@[i] as usize),
            row_seq@.len() == cu@[q as int],
            forall|r: int|
                0 <= r < row_seq@.len() ==> seq_of(batch.cu@, #[trigger] row_seq@[r] as int, r),
            blocks@ == all_blocks(batch.cu@, q as int),
        decreases s - q,
    {
        let lo: usize = cu[q];
        let hi: usize = cu[q + 1];
        assert(batch.cu@[q as int] <= batch.cu@[q + 1]);
        assert(batch.cu@[q + 1] <= batch.cu@[s as int]);
        let mut r: usize = lo;
        while r < hi
            invariant
                lo <= r <= hi,
                lo == batch.cu@[q as int],
                hi == batch.cu@[q + 1],
                q < s == batch.count(),
                s <= u32::MAX,
                batch.wf(),
                row_seq@.len() == r,
                forall|r: int|
                    0 <= r < row_seq@.len() ==> seq_of(
                        batch.cu@,
                        #[trigger] row_seq@[r] as int,
                        r,
                    ),
            decreases hi - r,
        {
            row_seq.push(q as u32);
            r += 1;
        }
        let mut q0: usize = lo;
        let ghost before = blocks@;
        while q0 < hi
            invariant
                lo <= q0,
                hi + 32 <= u32::MAX,
                q < s <= u32::MAX,
                q0 == lo + 32 * (blocks@.len() - before.len()),
                blocks@.len() - before.len() <= ceil_div(hi - lo, 32),
                lo <= hi,
                before == all_blocks(batch.cu@, q as int),
                blocks@ == before + Seq::new(
                    (blocks@.len() - before.len()) as nat,
                    |k: int| (q as u32, (lo + 32 * k) as u32),
                ),
            decreases hi + 32 - q0,
        {
            blocks.push((q as u32, q0 as u32));
            q0 += 32;
            assert(blocks@ =~= before + Seq::new(
                (blocks@.len() - before.len()) as nat,
                |k: int| (q as u32, (lo + 32 * k) as u32),
            ));
        }
        assert(blocks@ =~= all_blocks(batch.cu@, q + 1));
        q += 1;
    }
    Some(Tables { cu, mcu, row_seq, blocks })
}

/// One kernel call.
#[derive(Debug, Clone, Copy, PartialEq, Eq, Structural)]
pub enum Call {
    /// `len` values of a weight at `from`, copied to `to`.
    CopyTable { table: usize, from: usize, to: usize, len: usize },
    /// `len` values of a weight at `from`, added to those at `to`.
    AddTable { table: usize, from: usize, to: usize, len: usize },
    /// Layer norm of `len` values in rows of `width`.
    LayerNorm { x: usize, w: usize, b: Option<usize>, eps: u64, width: usize, out: usize, len: usize },
    /// A product of `m` rows of `k` with a weight of `n` rows, in FP32.
    Gemm { x: usize, m: usize, k: usize, w: usize, b: Option<usize>, ep: Epilogue, out: usize, n: usize },
    /// The same in INT8.
    Gemm8 { x: usize, m: usize, k: usize, w: usize, b: Option<usize>, ep: Epilogue, out: usize, n: usize },
    /// The first `heads` heads of the row at `at` rotated to position `pos`.
    Rope { rope: usize, at: usize, heads: usize, pos: usize },
    /// Attention of the query rows `q0..q0 + 32` of head `h` of the sequence in rows `lo..hi`.
    Attention { x: usize, heads: usize, lo: usize, hi: usize, q0: usize, h: usize, window: Option<usize>, out: usize },
    /// The gated activation into `len` values in rows of `width`.
    GeGlu { x: usize, width: usize, out: usize, len: usize },
    /// `len` values at `from`, copied to `to`.
    Move { from: usize, to: usize, len: usize },
    /// `len` zeros at `to`.
    Zero { to: usize, len: usize },
    /// The four numbers about the `k` logits at `logits`, put at `to`.
    Features { logits: usize, k: usize, to: usize },
}

/// The list of calls in tasks of 16.
pub open spec fn in_blocks(calls: Seq<Call>) -> Seq<Seq<Call>> {
    Seq::new(
        ceil_div(calls.len() as int, 16) as nat,
        |t: int|
            calls.subrange(
                16 * t,
                if 16 * t + 16 < calls.len() {
                    16 * t + 16
                } else {
                    calls.len() as int
                },
            ),
    )
}

/// The list of calls, each a task of its own.
pub open spec fn each_alone(calls: Seq<Call>) -> Seq<Seq<Call>> {
    Seq::new(calls.len(), |t: int| seq![calls[t]])
}

/// Tasks as sequences.
pub open spec fn tasks_view(v: Seq<Vec<Call>>) -> Seq<Seq<Call>> {
    Seq::new(v.len(), |t: int| v[t]@)
}

/// Splits calls into tasks of 16.
fn blocks_of(calls: &Vec<Call>) -> (r: Vec<Vec<Call>>)
    ensures
        tasks_view(r@) == in_blocks(calls@),
{
    let mut r: Vec<Vec<Call>> = Vec::new();
    let mut i: usize = 0;
    while i < calls.len()
        invariant
            i <= calls@.len(),
            i == 16 * r@.len() || i == calls@.len(),
            i == calls@.len() ==> r@.len() == ceil_div(calls@.len() as int, 16),
            forall|t: int| 0 <= t < r@.len() ==> (#[trigger] r@[t])@ == in_blocks(calls@)[t],
            r@.len() <= ceil_div(calls@.len() as int, 16),
        decreases calls@.len() - i,
    {
        let ghost start = i;
        let mut task: Vec<Call> = Vec::new();
        let mut k: usize = 0;
        while k < ROWS && i < calls.len()
            invariant
                k <= 16,
                start == 16 * r@.len(),
                i == start + k,
                i <= calls@.len(),
                task@ == calls@.subrange(start as int, i as int),
            decreases 16 - k,
        {
            task.push(calls[i]);
            i += 1;
            k += 1;
            assert(task@ =~= calls@.subrange(start as int, i as int));
        }
        r.push(task);
    }
    assert(tasks_view(r@) =~= in_blocks(calls@));
    r
}

/// Makes a task of each call.
fn alone(calls: &Vec<Call>) -> (r: Vec<Vec<Call>>)
    ensures
        tasks_view(r@) == each_alone(calls@),
{
    let mut r: Vec<Vec<Call>> = Vec::new();
    let mut i: usize = 0;
    while i < calls.len()
        invariant
            i == r@.len(),
            i <= calls@.len(),
            forall|t: int| 0 <= t < i ==> (#[trigger] r@[t])@ == seq![calls@[t]],
        decreases calls@.len() - i,
    {
        let mut task: Vec<Call> = Vec::new();
        task.push(calls[i]);
        assert(task@ =~= seq![calls@[i as int]]);
        r.push(task);
        i += 1;
    }
    assert(tasks_view(r@) =~= each_alone(calls@));
    r
}

/// One task of all the calls.
fn together(calls: Vec<Call>) -> (r: Vec<Vec<Call>>)
    ensures
        tasks_view(r@) == seq![calls@],
{
    let mut r: Vec<Vec<Call>> = Vec::new();
    r.push(calls);
    assert(tasks_view(r@) =~= seq![r@[0]@]);
    r
}

/// How many rows of a kind a batch has.
pub open spec fn live(b: &Batch, r: Rows) -> int {
    match r {
        Rows::Tokens => b.ids@.len() as int,
        Rows::Seqs => b.count(),
        Rows::Markers => b.markers@.len() as int,
    }
}

/// How many rows of a kind a batch has.
fn live_rows(b: &Batch, r: Rows) -> (n: usize)
    ensures
        n == live(b, r),
{
    match r {
        Rows::Tokens => b.ids.len(),
        Rows::Seqs => b.seqs(),
        Rows::Markers => b.markers.len(),
    }
}

/// The live rows of a value end within `len` elements.
pub open spec fn inside(b: &Batch, l: Loc, len: int) -> bool {
    l.off + live(b, l.rows) * l.width <= len
}

/// The embedding row of token `r`.
pub open spec fn embed_call(b: &Batch, table: usize, out: Loc, r: int) -> Call {
    Call::CopyTable {
        table,
        from: (b.ids@[r] * out.width) as usize,
        to: (out.off + r * out.width) as usize,
        len: out.width,
    }
}

/// The rows of task `t` over `n` rows.
pub open spec fn task_rows(n: int, t: int) -> int {
    if n - 16 * t < 16 {
        n - 16 * t
    } else {
        16
    }
}

/// The layer norm of task `t`.
pub open spec fn norm_call(b: &Batch, x: Loc, w: usize, bias: Option<usize>, eps: u64, out: Loc, t: int) -> Call {
    let n = task_rows(live(b, out.rows), t);
    Call::LayerNorm {
        x: (x.off + 16 * t * out.width) as usize,
        w,
        b: bias,
        eps,
        width: out.width,
        out: (out.off + 16 * t * out.width) as usize,
        len: (n * out.width) as usize,
    }
}

/// The gated activation of task `t`.
pub open spec fn geglu_call(b: &Batch, x: Loc, out: Loc, t: int) -> Call {
    let n = task_rows(live(b, out.rows), t);
    Call::GeGlu {
        x: (x.off + 2 * (16 * t * out.width)) as usize,
        width: out.width,
        out: (out.off + 16 * t * out.width) as usize,
        len: (n * out.width) as usize,
    }
}

/// The rotation of token `r`: its q and k heads, at its place in its sequence.
pub open spec fn rope_call(b: &Batch, tb: &Tables, qkv: Loc, rope: usize, r: int) -> Call {
    Call::Rope {
        rope,
        at: (qkv.off + r * qkv.width) as usize,
        heads: (2 * (qkv.width / 3) / 64) as usize,
        pos: (r - b.cu@[tb.row_seq@[r] as int]) as usize,
    }
}

/// The type row added to token `r`.
pub open spec fn type_call(b: &Batch, tb: &Tables, h: Loc, table: usize, r: int) -> Call {
    Call::AddTable {
        table,
        from: (b.qtype@[tb.row_seq@[r] as int] * h.width) as usize,
        to: (h.off + r * h.width) as usize,
        len: h.width,
    }
}

/// Task `t` of attention: block `t / heads`, head `t % heads`.
pub open spec fn attention_call(tb: &Tables, qkv: Loc, window: Option<usize>, out: Loc, t: int) -> Call {
    let heads = out.width as int / 64;
    let (s, q0) = tb.blocks@[t / heads];
    Call::Attention {
        x: qkv.off,
        heads: heads as usize,
        lo: tb.cu@[s as int],
        hi: tb.cu@[s + 1],
        q0: q0 as usize,
        h: (t % heads) as usize,
        window,
        out: out.off,
    }
}

/// The token row of marker `k`, which belongs to sequence `s`.
pub open spec fn gather_call(b: &Batch, h: Loc, out: Loc, s: int, k: int) -> Call {
    Call::Move {
        from: (h.off + (b.cu@[s] + b.markers@[k]) * h.width) as usize,
        to: (out.off + k * h.width) as usize,
        len: h.width,
    }
}

/// The first row of sequence `s`, or zeros for an empty one, then the numbers about its logits.
pub open spec fn feature_calls(b: &Batch, h: Loc, logits: Loc, out: Loc, s: int) -> Seq<Call> {
    let to = (out.off + s * out.width) as usize;
    seq![
        if b.cu@[s + 1] > b.cu@[s] {
            Call::Move { from: (h.off + b.cu@[s] * h.width) as usize, to, len: h.width }
        } else {
            Call::Zero { to, len: h.width }
        },
        Call::Features {
            logits: (logits.off + b.mcu@[s]) as usize,
            k: (b.mcu@[s + 1] - b.mcu@[s]) as usize,
            to: (to + h.width) as usize,
        },
    ]
}

/// The calls of the markers of the first `n` sequences.
pub open spec fn gather_calls(b: &Batch, h: Loc, out: Loc, n: int) -> Seq<Call>
    decreases n,
{
    if n <= 0 {
        seq![]
    } else {
        gather_calls(b, h, out, n - 1) + Seq::new(
            (b.mcu@[n] - b.mcu@[n - 1]) as nat,
            |k: int| gather_call(b, h, out, n - 1, b.mcu@[n - 1] + k),
        )
    }
}

/// The feature calls of the first `n` sequences.
pub open spec fn all_features(b: &Batch, h: Loc, logits: Loc, out: Loc, n: int) -> Seq<Call>
    decreases n,
{
    if n <= 0 {
        seq![]
    } else {
        all_features(b, h, logits, out, n - 1) + feature_calls(b, h, logits, out, n - 1)
    }
}

/// The tasks of a step.
pub open spec fn step_tasks(step: Step, b: &Batch, tb: &Tables) -> Seq<Seq<Call>> {
    match step {
        Step::Embed { table, out } => in_blocks(
            Seq::new(b.ids@.len(), |r: int| embed_call(b, table, out, r)),
        ),
        Step::LayerNorm { x, w, b: bias, eps, out } => each_alone(
            Seq::new(
                ceil_div(live(b, out.rows), 16) as nat,
                |t: int| norm_call(b, x, w, bias, eps, out, t),
            ),
        ),
        Step::Gemm { a, w, b: bias, ep, out } => seq![
            seq![
                Call::Gemm {
                    x: a.off,
                    m: live(b, a.rows) as usize,
                    k: a.width,
                    w,
                    b: bias,
                    ep,
                    out: out.off,
                    n: out.width,
                },
            ],
        ],
        Step::Gemm8 { a, w, b: bias, ep, out } => seq![
            seq![
                Call::Gemm8 {
                    x: a.off,
                    m: live(b, a.rows) as usize,
                    k: a.width,
                    w,
                    b: bias,
                    ep,
                    out: out.off,
                    n: out.width,
                },
            ],
        ],
        Step::Rope { qkv, rope } => in_blocks(
            Seq::new(b.ids@.len(), |r: int| rope_call(b, tb, qkv, rope, r)),
        ),
        Step::Attention { qkv, window, out } => each_alone(
            Seq::new(
                (tb.blocks@.len() * (out.width as int / 64)) as nat,
                |t: int| attention_call(tb, qkv, window, out, t),
            ),
        ),
        Step::GeGlu { x, out } => each_alone(
            Seq::new(
                ceil_div(live(b, out.rows), 16) as nat,
                |t: int| geglu_call(b, x, out, t),
            ),
        ),
        Step::AddType { h, table } => in_blocks(
            Seq::new(b.ids@.len(), |r: int| type_call(b, tb, h, table, r)),
        ),
        Step::Gather { h, out } => seq![gather_calls(b, h, out, b.count())],
        Step::ActFeatures { h, logits, out } => seq![
            all_features(b, h, logits, out, b.count()),
        ],
    }
}

/// What running a step needs: shapes that match, an arena that holds the live rows of its values,
/// and tables that hold the rows it reads.
pub open spec fn step_ok(step: Step, b: &Batch, len: int, weights: Seq<usize>) -> bool {
    match step {
        Step::Embed { table, out } => {
            &&& out.rows == Rows::Tokens
            &&& out.width > 0
            &&& inside(b, out, len)
            &&& table < weights.len()
            &&& forall|r: int|
                0 <= r < b.ids@.len() ==> (#[trigger] b.ids@[r] + 1) * out.width
                    <= weights[table as int]
        },
        Step::LayerNorm { x, out, .. } => {
            &&& x.rows == out.rows
            &&& x.width == out.width
            &&& inside(b, x, len)
            &&& inside(b, out, len)
        },
        Step::Gemm { a, out, .. } => a.rows == out.rows && inside(b, a, len) && inside(b, out, len),
        Step::Gemm8 { a, out, .. } => a.rows == out.rows && inside(b, a, len) && inside(b, out, len),
        Step::Rope { qkv, .. } => {
            &&& qkv.rows == Rows::Tokens
            &&& qkv.width > 0
            &&& qkv.width % 192 == 0
            &&& inside(b, qkv, len)
        },
        Step::Attention { qkv, out, .. } => {
            &&& qkv.rows == Rows::Tokens
            &&& out.rows == Rows::Tokens
            &&& qkv.width % 192 == 0
            &&& out.width * 3 == qkv.width
            &&& inside(b, qkv, len)
            &&& inside(b, out, len)
            &&& (b.ids@.len() + 32) * (out.width + 1) <= usize::MAX
        },
        Step::GeGlu { x, out } => {
            &&& x.rows == out.rows
            &&& x.width == 2 * out.width
            &&& inside(b, x, len)
            &&& inside(b, out, len)
        },
        Step::AddType { h, table } => {
            &&& h.rows == Rows::Tokens
            &&& h.width > 0
            &&& inside(b, h, len)
            &&& table < weights.len()
            &&& forall|s: int|
                0 <= s < b.count() ==> (#[trigger] b.qtype@[s] + 1) * h.width
                    <= weights[table as int]
        },
        Step::Gather { h, out } => {
            &&& h.rows == Rows::Tokens
            &&& out.rows == Rows::Markers
            &&& h.width == out.width
            &&& inside(b, h, len)
            &&& inside(b, out, len)
        },
        Step::ActFeatures { h, logits, out } => {
            &&& h.rows == Rows::Tokens
            &&& logits.rows == Rows::Markers
            &&& logits.width == 1
            &&& out.rows == Rows::Seqs
            &&& out.width == h.width + 4
            &&& inside(b, h, len)
            &&& inside(b, logits, len)
            &&& inside(b, out, len)
        },
    }
}

/// A row ends within its value.
proof fn row_inside(n: int, r: int, width: int, off: int, len: int)
    requires
        0 <= r < n,
        0 <= width,
        0 <= off,
        off + n * width <= len,
    ensures
        0 <= r * width,
        (r + 1) * width == r * width + width,
        off + r * width + width <= len,
{
    assert((r + 1) * width == r * width + width) by (nonlinear_arith);
    assert((r + 1) * width <= n * width) by (nonlinear_arith)
        requires
            r + 1 <= n,
            0 <= width,
    ;
    assert(0 <= r * width) by (nonlinear_arith)
        requires
            0 <= r,
            0 <= width,
    ;
}

/// The calls of [`Step::Embed`].
fn embed_rows(b: &Batch, table: usize, out: Loc, Ghost(len): Ghost<int>, weight: usize) -> (v: Vec<Call>)
    requires
        inside(b, out, len),
        len <= usize::MAX,
        out.rows == Rows::Tokens,
        forall|r: int|
            0 <= r < b.ids@.len() ==> (#[trigger] b.ids@[r] + 1) * out.width <= weight,
    ensures
        v@ == Seq::new(b.ids@.len(), |r: int| embed_call(b, table, out, r)),
{
    let mut v: Vec<Call> = Vec::new();
    let n: usize = b.ids.len();
    let d: usize = out.width;
    let mut r: usize = 0;
    while r < n
        invariant
            r <= n == b.ids@.len(),
            d == out.width,
            inside(b, out, len),
            len <= usize::MAX,
            out.rows == Rows::Tokens,
            forall|r: int|
                0 <= r < b.ids@.len() ==> (#[trigger] b.ids@[r] + 1) * out.width <= weight,
            v@ == Seq::new(r as nat, |r: int| embed_call(b, table, out, r)),
        decreases n - r,
    {
        let id: usize = b.ids[r] as usize;
        proof {
            row_inside(n as int, r as int, d as int, out.off as int, len);
            row_inside(id + 1, id as int, d as int, 0, (id + 1) * d);
        }
        v.push(Call::CopyTable { table, from: id * d, to: out.off + r * d, len: d });
        r += 1;
        assert(v@ =~= Seq::new(r as nat, |r: int| embed_call(b, table, out, r)));
    }
    v
}

/// The calls of [`Step::LayerNorm`].
fn norm_rows(
    b: &Batch,
    x: Loc,
    w: usize,
    bias: Option<usize>,
    eps: u64,
    out: Loc,
    Ghost(len): Ghost<int>,
) -> (v: Vec<Call>)
    requires
        x.rows == out.rows,
        x.width == out.width,
        inside(b, x, len),
        inside(b, out, len),
        len <= usize::MAX,
        live(b, out.rows) + 16 <= usize::MAX,
    ensures
        v@ == Seq::new(
            ceil_div(live(b, out.rows), 16) as nat,
            |t: int| norm_call(b, x, w, bias, eps, out, t),
        ),
{
    let mut v: Vec<Call> = Vec::new();
    let n: usize = live_rows(b, out.rows);
    let d: usize = out.width;
    let mut r0: usize = 0;
    while r0 < n
        invariant
            n == live(b, out.rows),
            n + 16 <= usize::MAX,
            d == out.width,
            x.rows == out.rows,
            x.width == out.width,
            inside(b, x, len),
            inside(b, out, len),
            len <= usize::MAX,
            r0 == 16 * v@.len(),
            v@.len() <= ceil_div(n as int, 16),
            v@ == Seq::new(v@.len(), |t: int| norm_call(b, x, w, bias, eps, out, t)),
        decreases n + 16 - r0,
    {
        let rows: usize = if n - r0 < ROWS {
            n - r0
        } else {
            ROWS
        };
        proof {
            row_inside(n as int, r0 as int, d as int, x.off as int, len);
            row_inside(n as int, r0 as int, d as int, out.off as int, len);
            assert(0 <= rows * d <= n * d) by (nonlinear_arith)
                requires
                    0 <= rows <= n,
                    0 <= d,
            ;
            assert(16 * v@.len() * d == r0 * d);
        }
        v.push(
            Call::LayerNorm {
                x: x.off + r0 * d,
                w,
                b: bias,
                eps,
                width: d,
                out: out.off + r0 * d,
                len: rows * d,
            },
        );
        r0 += ROWS;
        assert(v@ =~= Seq::new(v@.len(), |t: int| norm_call(b, x, w, bias, eps, out, t)));
    }
    v
}

/// The calls of [`Step::GeGlu`].
fn geglu_rows(b: &Batch, x: Loc, out: Loc, Ghost(len): Ghost<int>) -> (v: Vec<Call>)
    requires
        x.rows == out.rows,
        x.width == 2 * out.width,
        inside(b, x, len),
        inside(b, out, len),
        len <= usize::MAX,
        live(b, out.rows) + 16 <= usize::MAX,
    ensures
        v@ == Seq::new(
            ceil_div(live(b, out.rows), 16) as nat,
            |t: int| geglu_call(b, x, out, t),
        ),
{
    let mut v: Vec<Call> = Vec::new();
    let n: usize = live_rows(b, out.rows);
    let d: usize = out.width;
    let mut r0: usize = 0;
    while r0 < n
        invariant
            n == live(b, out.rows),
            n + 16 <= usize::MAX,
            d == out.width,
            x.rows == out.rows,
            x.width == 2 * out.width,
            inside(b, x, len),
            inside(b, out, len),
            len <= usize::MAX,
            r0 == 16 * v@.len(),
            v@.len() <= ceil_div(n as int, 16),
            v@ == Seq::new(v@.len(), |t: int| geglu_call(b, x, out, t)),
        decreases n + 16 - r0,
    {
        let rows: usize = if n - r0 < ROWS {
            n - r0
        } else {
            ROWS
        };
        proof {
            row_inside(n as int, r0 as int, x.width as int, x.off as int, len);
            row_inside(n as int, r0 as int, d as int, out.off as int, len);
            assert(0 <= rows * d <= n * d) by (nonlinear_arith)
                requires
                    0 <= rows <= n,
                    0 <= d,
            ;
            assert(16 * v@.len() * d == r0 * d);
            assert(r0 * (2 * d) == 2 * (r0 * d)) by (nonlinear_arith);
        }
        v.push(
            Call::GeGlu {
                x: x.off + 2 * (r0 * d),
                width: d,
                out: out.off + r0 * d,
                len: rows * d,
            },
        );
        r0 += ROWS;
        assert(v@ =~= Seq::new(v@.len(), |t: int| geglu_call(b, x, out, t)));
    }
    v
}

/// The calls of [`Step::Rope`].
fn rope_rows(b: &Batch, tb: &Tables, qkv: Loc, rope: usize, Ghost(len): Ghost<int>) -> (v: Vec<Call>)
    requires
        b.wf(),
        tb.of(b),
        qkv.rows == Rows::Tokens,
        inside(b, qkv, len),
        len <= usize::MAX,
    ensures
        v@ == Seq::new(b.ids@.len(), |r: int| rope_call(b, tb, qkv, rope, r)),
{
    let mut v: Vec<Call> = Vec::new();
    let n: usize = b.ids.len();
    let w: usize = qkv.width;
    let mut r: usize = 0;
    while r < n
        invariant
            r <= n == b.ids@.len(),
            w == qkv.width,
            b.wf(),
            tb.of(b),
            qkv.rows == Rows::Tokens,
            inside(b, qkv, len),
            len <= usize::MAX,
            v@ == Seq::new(r as nat, |r: int| rope_call(b, tb, qkv, rope, r)),
        decreases n - r,
    {
        proof {
            row_inside(n as int, r as int, w as int, qkv.off as int, len);
            assert(seq_of(b.cu@, tb.row_seq@[r as int] as int, r as int));
        }
        let s: usize = tb.row_seq[r] as usize;
        v.push(
            Call::Rope {
                rope,
                at: qkv.off + r * w,
                heads: 2 * (w / 3) / 64,
                pos: r - tb.cu[s],
            },
        );
        r += 1;
        assert(v@ =~= Seq::new(r as nat, |r: int| rope_call(b, tb, qkv, rope, r)));
    }
    v
}

/// The calls of [`Step::AddType`].
fn type_rows(
    b: &Batch,
    tb: &Tables,
    h: Loc,
    table: usize,
    Ghost(len): Ghost<int>,
    weight: usize,
) -> (v: Vec<Call>)
    requires
        b.wf(),
        tb.of(b),
        h.rows == Rows::Tokens,
        inside(b, h, len),
        len <= usize::MAX,
        forall|s: int|
            0 <= s < b.count() ==> (#[trigger] b.qtype@[s] + 1) * h.width <= weight,
    ensures
        v@ == Seq::new(b.ids@.len(), |r: int| type_call(b, tb, h, table, r)),
{
    let mut v: Vec<Call> = Vec::new();
    let n: usize = b.ids.len();
    let d: usize = h.width;
    let mut r: usize = 0;
    while r < n
        invariant
            r <= n == b.ids@.len(),
            d == h.width,
            b.wf(),
            tb.of(b),
            h.rows == Rows::Tokens,
            inside(b, h, len),
            len <= usize::MAX,
            forall|s: int|
                0 <= s < b.count() ==> (#[trigger] b.qtype@[s] + 1) * h.width <= weight,
            v@ == Seq::new(r as nat, |r: int| type_call(b, tb, h, table, r)),
        decreases n - r,
    {
        proof {
            assert(seq_of(b.cu@, tb.row_seq@[r as int] as int, r as int));
        }
        let s: usize = tb.row_seq[r] as usize;
        let q: usize = b.qtype[s] as usize;
        proof {
            row_inside(n as int, r as int, d as int, h.off as int, len);
            row_inside(q + 1, q as int, d as int, 0, (q + 1) * d);
        }
        v.push(Call::AddTable { table, from: q * d, to: h.off + r * d, len: d });
        r += 1;
        assert(v@ =~= Seq::new(r as nat, |r: int| type_call(b, tb, h, table, r)));
    }
    v
}

/// The blocks name sequences of the batch and rows of theirs.
pub proof fn blocks_in(cu: Seq<u32>, end: int, n: int)
    requires
        bounds(cu, end),
        end + 32 <= u32::MAX,
        cu.len() <= u32::MAX,
        0 <= n < cu.len(),
    ensures
        forall|i: int| #![trigger all_blocks(cu, n)[i]]
            0 <= i < all_blocks(cu, n).len() ==> all_blocks(cu, n)[i].0 < n && seq_of(
                cu,
                all_blocks(cu, n)[i].0 as int,
                all_blocks(cu, n)[i].1 as int,
            ) && (all_blocks(cu, n)[i].1 - cu[all_blocks(cu, n)[i].0 as int]) % 32 == 0,
    decreases n,
{
    if n > 0 {
        blocks_in(cu, end, n - 1);
        let before = all_blocks(cu, n - 1);
        let now = all_blocks(cu, n);
        assert(cu[n - 1] <= cu[n] <= cu[cu.len() - 1]);
        assert forall|i: int| #![trigger now[i]] 0 <= i < now.len() implies now[i].0 < n && seq_of(
            cu,
            now[i].0 as int,
            now[i].1 as int,
        ) && (now[i].1 - cu[now[i].0 as int]) % 32 == 0 by {
            if i < before.len() {
                assert(now[i] == before[i]);
            } else {
                let k = i - before.len();
                assert(now[i] == seq_blocks(n - 1, cu[n - 1] as int, cu[n] as int)[k]);
            }
        }
    }
}

/// The calls of [`Step::Attention`].
fn attention_blocks(b: &Batch, tb: &Tables, qkv: Loc, window: Option<usize>, out: Loc) -> (v: Vec<Call>)
    requires
        b.wf(),
        tb.of(b),
        b.ids@.len() + 32 <= u32::MAX,
        b.cu@.len() <= u32::MAX,
        tb.blocks@.len() * (out.width as int / 64) <= usize::MAX,
    ensures
        v@ == Seq::new(
            (tb.blocks@.len() * (out.width as int / 64)) as nat,
            |t: int| attention_call(tb, qkv, window, out, t),
        ),
{
    let mut v: Vec<Call> = Vec::new();
    let heads: usize = out.width / 64;
    let n: usize = tb.blocks.len() * heads;
    let mut t: usize = 0;
    proof {
        blocks_in(b.cu@, b.ids@.len() as int, b.count());
    }
    while t < n
        invariant
            t <= n == tb.blocks@.len() * heads,
            heads == out.width / 64,
            b.wf(),
            tb.of(b),
            b.cu@.len() <= u32::MAX,
            forall|i: int| #![trigger tb.blocks@[i]]
                0 <= i < tb.blocks@.len() ==> tb.blocks@[i].0 < b.count(),
            v@ == Seq::new(t as nat, |t: int| attention_call(tb, qkv, window, out, t)),
        decreases n - t,
    {
        proof {
            if heads == 0 {
                assert(tb.blocks@.len() * heads == 0) by (nonlinear_arith)
                    requires
                        heads == 0,
                ;
            }
            vstd::arithmetic::div_mod::lemma_multiply_divide_lt(
                t as int,
                heads as int,
                tb.blocks@.len() as int,
            );
        }
        let block = tb.blocks[t / heads];
        let s: usize = block.0 as usize;
        let q0: usize = block.1 as usize;
        v.push(
            Call::Attention {
                x: qkv.off,
                heads,
                lo: tb.cu[s],
                hi: tb.cu[s + 1],
                q0,
                h: t % heads,
                window,
                out: out.off,
            },
        );
        t += 1;
        assert(v@ =~= Seq::new(t as nat, |t: int| attention_call(tb, qkv, window, out, t)));
    }
    v
}

/// The calls of [`Step::Gather`].
fn gather_rows(b: &Batch, tb: &Tables, h: Loc, out: Loc, Ghost(len): Ghost<int>) -> (v: Vec<Call>)
    requires
        b.wf(),
        tb.of(b),
        h.rows == Rows::Tokens,
        out.rows == Rows::Markers,
        h.width == out.width,
        inside(b, h, len),
        inside(b, out, len),
        len <= usize::MAX,
    ensures
        v@ == gather_calls(b, h, out, b.count()),
{
    let mut v: Vec<Call> = Vec::new();
    let n: usize = b.seqs();
    let d: usize = h.width;
    let mut s: usize = 0;
    while s < n
        invariant
            s <= n == b.count(),
            d == h.width,
            b.wf(),
            tb.of(b),
            h.rows == Rows::Tokens,
            out.rows == Rows::Markers,
            h.width == out.width,
            inside(b, h, len),
            inside(b, out, len),
            len <= usize::MAX,
            v@ == gather_calls(b, h, out, s as int),
        decreases n - s,
    {
        let lo: usize = tb.mcu[s];
        let hi: usize = tb.mcu[s + 1];
        assert(b.mcu@[s as int] <= b.mcu@[s + 1] <= b.mcu@[n as int]);
        assert(b.cu@[s + 1] <= b.cu@[n as int]);
        let ghost before = v@;
        let mut k: usize = lo;
        while k < hi
            invariant
                lo <= k <= hi,
                lo == b.mcu@[s as int],
                hi == b.mcu@[s + 1],
                hi <= b.markers@.len(),
                s < n == b.count(),
                b.cu@[s + 1] <= b.ids@.len(),
                d == h.width,
                b.wf(),
                tb.of(b),
                h.rows == Rows::Tokens,
                out.rows == Rows::Markers,
                h.width == out.width,
                inside(b, h, len),
                inside(b, out, len),
                len <= usize::MAX,
                v@ == before + Seq::new(
                    (k - lo) as nat,
                    |i: int| gather_call(b, h, out, s as int, lo + i),
                ),
            decreases hi - k,
        {
            assert(b.cu@[s as int] + b.markers@[k as int] < b.cu@[s + 1]);
            let r: usize = tb.cu[s] + b.markers[k] as usize;
            proof {
                row_inside(b.ids@.len() as int, r as int, d as int, h.off as int, len);
                row_inside(b.markers@.len() as int, k as int, d as int, out.off as int, len);
            }
            v.push(Call::Move { from: h.off + r * d, to: out.off + k * d, len: d });
            k += 1;
            assert(v@ =~= before + Seq::new(
                (k - lo) as nat,
                |i: int| gather_call(b, h, out, s as int, lo + i),
            ));
        }
        s += 1;
    }
    v
}

/// The calls of [`Step::ActFeatures`].
fn feature_rows(
    b: &Batch,
    tb: &Tables,
    h: Loc,
    logits: Loc,
    out: Loc,
    Ghost(len): Ghost<int>,
) -> (v: Vec<Call>)
    requires
        b.wf(),
        tb.of(b),
        h.rows == Rows::Tokens,
        logits.rows == Rows::Markers,
        logits.width == 1,
        out.rows == Rows::Seqs,
        out.width == h.width + 4,
        inside(b, h, len),
        inside(b, logits, len),
        inside(b, out, len),
        len <= usize::MAX,
    ensures
        v@ == all_features(b, h, logits, out, b.count()),
{
    let mut v: Vec<Call> = Vec::new();
    let n: usize = b.seqs();
    let d: usize = h.width;
    let mut s: usize = 0;
    while s < n
        invariant
            s <= n == b.count(),
            d == h.width,
            b.wf(),
            tb.of(b),
            h.rows == Rows::Tokens,
            logits.rows == Rows::Markers,
            logits.width == 1,
            out.rows == Rows::Seqs,
            out.width == h.width + 4,
            inside(b, h, len),
            inside(b, logits, len),
            inside(b, out, len),
            len <= usize::MAX,
            v@ == all_features(b, h, logits, out, s as int),
        decreases n - s,
    {
        let ghost before = v@;
        let lo: usize = tb.cu[s];
        let hi: usize = tb.cu[s + 1];
        assert(b.mcu@[s as int] <= b.mcu@[s + 1] <= b.mcu@[n as int]);
        assert(b.cu@[s as int] <= b.cu@[s + 1] <= b.cu@[n as int]);
        proof {
            row_inside(n as int, s as int, out.width as int, out.off as int, len);
            if hi > lo {
                row_inside(b.ids@.len() as int, lo as int, d as int, h.off as int, len);
            }
        }
        let to: usize = out.off + s * out.width;
        if hi > lo {
            v.push(Call::Move { from: h.off + lo * d, to, len: d });
        } else {
            v.push(Call::Zero { to, len: d });
        }
        v.push(
            Call::Features {
                logits: logits.off + tb.mcu[s],
                k: tb.mcu[s + 1] - tb.mcu[s],
                to: to + d,
            },
        );
        assert(v@ =~= before + feature_calls(b, h, logits, out, s as int));
        s += 1;
    }
    v
}

/// The tasks of a step over a batch, with the number of values of every weight given.
pub fn tasks_of(
    step: Step,
    b: &Batch,
    tb: &Tables,
    arena_len: usize,
    weights: &Vec<usize>,
) -> (r: Vec<Vec<Call>>)
    requires
        b.wf(),
        tb.of(b),
        b.ids@.len() + 32 <= u32::MAX,
        b.cu@.len() + 16 <= u32::MAX,
        b.markers@.len() + 16 <= u32::MAX,
        step_ok(step, b, arena_len as int, weights@),
    ensures
        tasks_view(r@) == step_tasks(step, b, tb),
{
    let ghost len = arena_len as int;
    match step {
        Step::Embed { table, out } => {
            let calls = embed_rows(b, table, out, Ghost(len), weights[table]);
            blocks_of(&calls)
        },
        Step::LayerNorm { x, w, b: bias, eps, out } => {
            let calls = norm_rows(b, x, w, bias, eps, out, Ghost(len));
            alone(&calls)
        },
        Step::Gemm { a, w, b: bias, ep, out } => {
            let m: usize = live_rows(b, a.rows);
            let mut v: Vec<Call> = Vec::new();
            v.push(
                Call::Gemm { x: a.off, m, k: a.width, w, b: bias, ep, out: out.off, n: out.width },
            );
            let r = together(v);
            assert(tasks_view(r@) =~= step_tasks(step, b, tb)) by {
                assert(v@ =~= step_tasks(step, b, tb)[0]);
            }
            r
        },
        Step::Gemm8 { a, w, b: bias, ep, out } => {
            let m: usize = live_rows(b, a.rows);
            let mut v: Vec<Call> = Vec::new();
            v.push(
                Call::Gemm8 { x: a.off, m, k: a.width, w, b: bias, ep, out: out.off, n: out.width },
            );
            let r = together(v);
            assert(tasks_view(r@) =~= step_tasks(step, b, tb)) by {
                assert(v@ =~= step_tasks(step, b, tb)[0]);
            }
            r
        },
        Step::Rope { qkv, rope } => {
            let calls = rope_rows(b, tb, qkv, rope, Ghost(len));
            blocks_of(&calls)
        },
        Step::Attention { qkv, window, out } => {
            proof {
                blocks_bound(b.cu@, b.ids@.len() as int, b.count());
                let heads = out.width as int / 64;
                assert(tb.blocks@.len() * heads <= (b.ids@.len() + 32) * (out.width + 1))
                    by (nonlinear_arith)
                    requires
                        0 <= tb.blocks@.len() <= b.ids@.len(),
                        0 <= heads <= out.width,
                ;
            }
            let calls = attention_blocks(b, tb, qkv, window, out);
            alone(&calls)
        },
        Step::GeGlu { x, out } => {
            let calls = geglu_rows(b, x, out, Ghost(len));
            alone(&calls)
        },
        Step::AddType { h, table } => {
            let calls = type_rows(b, tb, h, table, Ghost(len), weights[table]);
            blocks_of(&calls)
        },
        Step::Gather { h, out } => together(gather_rows(b, tb, h, out, Ghost(len))),
        Step::ActFeatures { h, logits, out } => together(
            feature_rows(b, tb, h, logits, out, Ghost(len)),
        ),
    }
}

/// There are no more blocks than rows.
proof fn blocks_bound(cu: Seq<u32>, end: int, n: int)
    requires
        bounds(cu, end),
        0 <= n < cu.len(),
    ensures
        all_blocks(cu, n).len() <= cu[n],
    decreases n,
{
    if n > 0 {
        blocks_bound(cu, end, n - 1);
        assert(cu[n - 1] <= cu[n]);
    }
}

/// Whether a call writes element `a` of the arena.
pub open spec fn writes(c: Call, a: int) -> bool {
    match c {
        Call::CopyTable { to, len, .. } => to <= a < to + len,
        Call::AddTable { to, len, .. } => to <= a < to + len,
        Call::LayerNorm { out, len, .. } => out <= a < out + len,
        Call::Gemm { out, m, n, .. } => out <= a < out + m * n,
        Call::Gemm8 { out, m, n, .. } => out <= a < out + m * n,
        Call::Rope { at, heads, .. } => at <= a < at + heads * 64,
        Call::Attention { heads, hi, q0, h, out, .. } => exists|i: int, k: int|
            #[trigger] attention_cell(heads as int, hi as int, q0 as int, h as int, out as int, i, k)
                == a && in_attention(hi as int, q0 as int, i, k),
        Call::GeGlu { out, len, .. } => out <= a < out + len,
        Call::Move { to, len, .. } => to <= a < to + len,
        Call::Zero { to, len } => to <= a < to + len,
        Call::Features { to, .. } => to <= a < to + 4,
    }
}

/// Query row `i` and channel `k` belong to an attention call.
pub open spec fn in_attention(hi: int, q0: int, i: int, k: int) -> bool {
    q0 <= i < q0 + 32 && i < hi && 0 <= k < 64
}

/// Where channel `k` of head `h` of row `i` is written.
pub open spec fn attention_cell(heads: int, hi: int, q0: int, h: int, out: int, i: int, k: int) -> int {
    out + i * (heads * 64) + h * 64 + k
}

/// Later blocks are of later sequences, or of later rows of the same one.
proof fn blocks_apart(cu: Seq<u32>, end: int, n: int, i: int, j: int)
    requires
        bounds(cu, end),
        end + 32 <= u32::MAX,
        cu.len() <= u32::MAX,
        0 <= n < cu.len(),
        0 <= i < j < all_blocks(cu, n).len(),
    ensures
        ({
            let (x, y) = (all_blocks(cu, n)[i], all_blocks(cu, n)[j]);
            x.0 < y.0 || (x.0 == y.0 && x.1 + 32 <= y.1)
        }),
    decreases n,
{
    if n > 0 {
        let before = all_blocks(cu, n - 1);
        let now = all_blocks(cu, n);
        assert(cu[n - 1] <= cu[n] <= cu[cu.len() - 1]);
        let last = seq_blocks(n - 1, cu[n - 1] as int, cu[n] as int);
        if j < before.len() {
            blocks_apart(cu, end, n - 1, i, j);
            assert(now[i] == before[i] && now[j] == before[j]);
        } else if i < before.len() {
            blocks_in(cu, end, n - 1);
            assert(now[i] == before[i]);
            assert(now[j] == last[j - before.len()]);
        } else {
            assert(now[i] == last[i - before.len()]);
            assert(now[j] == last[j - before.len()]);
        }
    }
}

/// Rows of a value lie one after the other.
proof fn rows_apart(r: int, s: int, width: int)
    requires
        r < s,
        0 <= width,
    ensures
        r * width + width <= s * width,
{
    assert((r + 1) * width == r * width + width) by (nonlinear_arith);
    assert((r + 1) * width <= s * width) by (nonlinear_arith)
        requires
            r + 1 <= s,
            0 <= width,
    ;
}

/// A cell of attention output names its row and its head.
proof fn cells_apart(heads: int, i: int, h: int, k: int, j: int, g: int, l: int)
    requires
        0 < heads,
        0 <= h < heads,
        0 <= g < heads,
        0 <= k < 64,
        0 <= l < 64,
        i * (heads * 64) + h * 64 + k == j * (heads * 64) + g * 64 + l,
    ensures
        i == j && h == g,
{
    let d = heads * 64;
    if i < j {
        rows_apart(i, j, d);
    }
    if j < i {
        rows_apart(j, i, d);
    }
}

/// Call `i` of task `t` of calls in tasks of 16.
proof fn in_blocks_at(calls: Seq<Call>, t: int, i: int)
    requires
        0 <= t < in_blocks(calls).len(),
        0 <= i < in_blocks(calls)[t].len(),
    ensures
        0 <= i < 16,
        16 * t + i < calls.len(),
        in_blocks(calls)[t][i] == calls[16 * t + i],
{
}

/// Two tasks of a step never write the same element, so they may run at the same time.
#[verifier::rlimit(60)]
pub proof fn tasks_write_apart(
    step: Step,
    b: &Batch,
    tb: &Tables,
    arena_len: usize,
    weights: Seq<usize>,
    t: int,
    i: int,
    u: int,
    j: int,
    a: int,
)
    requires
        b.wf(),
        tb.of(b),
        b.ids@.len() + 32 <= u32::MAX,
        b.cu@.len() + 16 <= u32::MAX,
        b.markers@.len() + 16 <= u32::MAX,
        step_ok(step, b, arena_len as int, weights),
        0 <= t < u < step_tasks(step, b, tb).len(),
        0 <= i < step_tasks(step, b, tb)[t].len(),
        0 <= j < step_tasks(step, b, tb)[u].len(),
    ensures
        !(writes(step_tasks(step, b, tb)[t][i], a) && writes(step_tasks(step, b, tb)[u][j], a)),
{
    let n = b.ids@.len() as int;
    let len = arena_len as int;
    match step {
        Step::Embed { table, out } => {
            let calls = Seq::new(b.ids@.len(), |r: int| embed_call(b, table, out, r));
            in_blocks_at(calls, t, i);
            in_blocks_at(calls, u, j);
            row_inside(n, 16 * t + i, out.width as int, out.off as int, len);
            row_inside(n, 16 * u + j, out.width as int, out.off as int, len);
            rows_apart(16 * t + i, 16 * u + j, out.width as int);
        },
        Step::AddType { h, table } => {
            let calls = Seq::new(b.ids@.len(), |r: int| type_call(b, tb, h, table, r));
            in_blocks_at(calls, t, i);
            in_blocks_at(calls, u, j);
            row_inside(n, 16 * t + i, h.width as int, h.off as int, len);
            row_inside(n, 16 * u + j, h.width as int, h.off as int, len);
            rows_apart(16 * t + i, 16 * u + j, h.width as int);
        },
        Step::Rope { qkv, rope } => {
            let calls = Seq::new(b.ids@.len(), |r: int| rope_call(b, tb, qkv, rope, r));
            in_blocks_at(calls, t, i);
            in_blocks_at(calls, u, j);
            row_inside(n, 16 * t + i, qkv.width as int, qkv.off as int, len);
            row_inside(n, 16 * u + j, qkv.width as int, qkv.off as int, len);
            rows_apart(16 * t + i, 16 * u + j, qkv.width as int);
        },
        Step::LayerNorm { x, w, b: bias, eps, out } => {
            block_rows_apart(live(b, out.rows), t, u, out.width as int, out.off as int, len);
            assert(step_tasks(step, b, tb)[t][i] == norm_call(b, x, w, bias, eps, out, t));
            assert(step_tasks(step, b, tb)[u][j] == norm_call(b, x, w, bias, eps, out, u));
        },
        Step::GeGlu { x, out } => {
            block_rows_apart(live(b, out.rows), t, u, out.width as int, out.off as int, len);
            assert(step_tasks(step, b, tb)[t][i] == geglu_call(b, x, out, t));
            assert(step_tasks(step, b, tb)[u][j] == geglu_call(b, x, out, u));
        },
        Step::Attention { qkv, window, out } => {
            let heads = out.width as int / 64;
            let x = step_tasks(step, b, tb)[t][i];
            let y = step_tasks(step, b, tb)[u][j];
            assert(x == attention_call(tb, qkv, window, out, t));
            assert(y == attention_call(tb, qkv, window, out, u));
            attention_apart(b, tb, qkv, window, out, t, u, a);
        },
        _ => {},
    }
}

/// Blocks of 16 rows lie one after the other.
proof fn block_rows_apart(n: int, t: int, u: int, width: int, off: int, len: int)
    requires
        0 <= t < u,
        16 * u < n,
        0 <= width,
        0 <= off,
        off + n * width <= len,
        len <= usize::MAX,
    ensures
        0 <= 16 * t * width,
        off + 16 * t * width + task_rows(n, t) * width <= off + 16 * u * width <= len,
        0 <= task_rows(n, t) * width <= len,
        0 <= task_rows(n, u) * width <= len,
{
    row_inside(n, 16 * t, width, off, len);
    row_inside(n, 16 * u, width, off, len);
    assert(16 * t * width + 16 * width <= 16 * u * width) by (nonlinear_arith)
        requires
            t + 1 <= u,
            0 <= width,
    ;
    assert(0 <= task_rows(n, t) * width <= 16 * width && task_rows(n, t) * width <= n * width)
        by (nonlinear_arith)
        requires
            0 <= task_rows(n, t) <= 16,
            task_rows(n, t) <= n,
            0 <= width,
    ;
    assert(0 <= task_rows(n, u) * width <= n * width) by (nonlinear_arith)
        requires
            0 <= task_rows(n, u) <= n,
            0 <= width,
    ;
}

/// No element is written by two attention tasks.
proof fn attention_apart(
    b: &Batch,
    tb: &Tables,
    qkv: Loc,
    window: Option<usize>,
    out: Loc,
    t: int,
    u: int,
    a: int,
)
    requires
        b.wf(),
        tb.of(b),
        b.ids@.len() + 32 <= u32::MAX,
        b.cu@.len() + 16 <= u32::MAX,
        0 <= t < u < tb.blocks@.len() * (out.width as int / 64),
    ensures
        !(writes(attention_call(tb, qkv, window, out, t), a) && writes(
            attention_call(tb, qkv, window, out, u),
            a,
        )),
{
    let heads = out.width as int / 64;
    assert(heads > 0) by (nonlinear_arith)
        requires
            0 < tb.blocks@.len() * heads,
            tb.blocks@.len() >= 0,
    ;
    vstd::arithmetic::div_mod::lemma_multiply_divide_lt(t, heads, tb.blocks@.len() as int);
    vstd::arithmetic::div_mod::lemma_multiply_divide_lt(u, heads, tb.blocks@.len() as int);
    vstd::arithmetic::div_mod::lemma_fundamental_div_mod(t, heads);
    vstd::arithmetic::div_mod::lemma_fundamental_div_mod(u, heads);
    vstd::arithmetic::div_mod::lemma_mod_bound(t, heads);
    vstd::arithmetic::div_mod::lemma_mod_bound(u, heads);
    vstd::arithmetic::div_mod::lemma_div_pos_is_pos(t, heads);
    vstd::arithmetic::div_mod::lemma_div_pos_is_pos(u, heads);
    let (x, y) = (tb.blocks@[t / heads], tb.blocks@[u / heads]);
    blocks_in(b.cu@, b.ids@.len() as int, b.count());
    let (hx, hy) = (tb.cu@[x.0 + 1] as int, tb.cu@[y.0 + 1] as int);
    let o = out.off as int;
    if writes(attention_call(tb, qkv, window, out, t), a) && writes(
        attention_call(tb, qkv, window, out, u),
        a,
    ) {
        let (i, k) = choose|i: int, k: int|
            #[trigger] attention_cell(heads, hx, x.1 as int, t % heads, o, i, k) == a && in_attention(
                hx,
                x.1 as int,
                i,
                k,
            );
        let (j, l) = choose|j: int, l: int|
            #[trigger] attention_cell(heads, hy, y.1 as int, u % heads, o, j, l) == a && in_attention(
                hy,
                y.1 as int,
                j,
                l,
            );
        cells_apart(heads, i, t % heads, k, j, u % heads, l);
        if t / heads == u / heads {
            assert(t == u);
        } else {
            let (p, q) = if t / heads < u / heads {
                (t / heads, u / heads)
            } else {
                (u / heads, t / heads)
            };
            blocks_apart(b.cu@, b.ids@.len() as int, b.count(), p, q);
            assert(x == tb.blocks@[t / heads]);
            assert(seq_of(b.cu@, x.0 as int, x.1 as int));
            assert(seq_of(b.cu@, y.0 as int, y.1 as int));
            if x.0 < y.0 {
                assert(b.cu@[x.0 + 1] <= b.cu@[y.0 as int]);
            }
            if y.0 < x.0 {
                assert(b.cu@[y.0 + 1] <= b.cu@[x.0 as int]);
            }
        }
    }
}

/// What a step wrote: the live rows of its output.
pub fn dump_of(step: Step, b: &Batch, arena: &Vec<u32>) -> (r: Dump)
    requires
        inside(b, step.spec_out(), arena@.len() as int),
    ensures
        r.name@ == step.spec_name(),
        r.rows == step.spec_out().rows,
        r.width == step.spec_out().width,
        ({
            let l = step.spec_out();
            r.data@ == arena@.subrange(l.off as int, l.off + live(b, l.rows) * l.width)
        }),
{
    let l = step.out();
    let rows: usize = live_rows(b, l.rows);
    proof {
        assert(0 <= rows * l.width) by (nonlinear_arith)
            requires
                0 <= rows,
                0 <= l.width,
        ;
    }
    let size: usize = arena.len();
    let end: usize = l.off + rows * l.width;
    let mut data: Vec<u32> = Vec::new();
    let mut i: usize = l.off;
    assert(data@ =~= arena@.subrange(l.off as int, l.off as int));
    while i < end
        invariant
            l.off <= i <= end <= size == arena@.len(),
            data@ == arena@.subrange(l.off as int, i as int),
        decreases end - i,
    {
        data.push(arena[i]);
        i += 1;
        assert(data@ =~= arena@.subrange(l.off as int, i as int));
    }
    Dump { name: step.name(), rows: l.rows, width: l.width, data }
}

/// The tables of a step hold every row that a batch reads of them.
pub open spec fn reads_inside(step: Step, b: &Batch, weights: Seq<usize>) -> bool {
    match step {
        Step::Embed { table, out } => forall|r: int|
            0 <= r < b.ids@.len() ==> (#[trigger] b.ids@[r] + 1) * out.width
                <= weights[table as int],
        Step::AddType { h, table } => forall|s: int|
            0 <= s < b.count() ==> (#[trigger] b.qtype@[s] + 1) * h.width
                <= weights[table as int],
        _ => true,
    }
}

/// What running a step needs of its shapes beyond what lowering checks: rows that are not empty
/// where they are walked one by one, act features of token rows, and a number of attention tasks
/// that can be counted.
pub open spec fn walkable(step: Step, b: &Batch) -> bool {
    match step {
        Step::Embed { out, .. } => out.width > 0,
        Step::Rope { qkv, .. } => qkv.width > 0,
        Step::AddType { h, .. } => h.width > 0,
        Step::Attention { out, .. } => (b.ids@.len() + 32) * (out.width + 1) <= usize::MAX,
        Step::ActFeatures { h, .. } => h.rows == Rows::Tokens,
        _ => true,
    }
}

/// The live rows of a value lie in the arena that a bucket's layout needs.
proof fn live_inside(g: &Graph, lay: &Layout, bucket: Bucket, b: &Batch, v: Val)
    requires
        g.has(v),
        lay.fits(g, bucket),
        bucket.spec_holds(b.ids@.len() as int, b.count(), b.markers@.len() as int),
    ensures
        inside(b, loc_of(g, lay, v), lay.len as int),
{
    let x = g.vals@[v.0 as int];
    let (n, most, w) = (live(b, x.rows), bucket.spec_rows(x.rows) as int, x.width as int);
    assert(n * w <= most * w) by (nonlinear_arith)
        requires
            n <= most,
            0 <= w,
    ;
}

/// Nothing is refused where nothing of it is.
proof fn not_refused(be: CpuBackend, w: Seq<Weight>, g: &Graph, n: int, i: int)
    requires
        be.first_refusal(w, g, n) is None,
        0 <= i < n,
    ensures
        be.refusal(w, g, i) is None,
    decreases n,
{
    if i < n - 1 {
        not_refused(be, w, g, n - 1, i);
    }
}

/// Lowering checks every shape: a step of a graph that is not refused runs on any batch that its
/// bucket holds, whose tokens and types are in their tables.
pub proof fn a_lowered_step_runs(
    be: CpuBackend,
    w: Seq<Weight>,
    g: &Graph,
    lay: &Layout,
    bucket: Bucket,
    b: &Batch,
    sizes: Seq<usize>,
    i: int,
)
    requires
        g.wf(),
        lay.fits(g, bucket),
        be.lower_refusal(w, g) is None,
        bucket.spec_holds(b.ids@.len() as int, b.count(), b.markers@.len() as int),
        sizes.len() == w.len(),
        0 <= i < g.ops@.len(),
        reads_inside(be.step_of(g, lay, i), b, sizes),
        walkable(be.step_of(g, lay, i), b),
    ensures
        step_ok(be.step_of(g, lay, i), b, lay.len as int, sizes),
{
    g.wf_op(i);
    not_refused(be, w, g, g.ops@.len() as int, i);
    assert forall|v: Val| g.has(v) implies inside(
        b,
        #[trigger] loc_of(g, lay, v),
        lay.len as int,
    ) by {
        live_inside(g, lay, bucket, b, v);
    }
}

/// Whether `rows` rows of `width` elements from `off` on end within `len`.
fn ends_within(off: usize, rows: usize, width: usize, len: usize) -> (r: bool)
    ensures
        r == (off + rows * width <= len),
{
    proof {
        assert(0 <= rows * width <= 0xffff_ffff_ffff_ffff * 0xffff_ffff_ffff_ffff)
            by (nonlinear_arith)
            requires
                0 <= rows <= 0xffff_ffff_ffff_ffff,
                0 <= width <= 0xffff_ffff_ffff_ffff,
        ;
    }
    off as u128 + rows as u128 * width as u128 <= len as u128
}

/// Whether the live rows of a value end within `len` elements.
fn lies_inside(b: &Batch, l: Loc, len: usize) -> (r: bool)
    ensures
        r == inside(b, l, len as int),
{
    ends_within(l.off, live_rows(b, l.rows), l.width, len)
}

/// Whether a table of `size` values has every token's row of `width`.
fn has_tokens(b: &Batch, width: usize, size: usize) -> (r: bool)
    ensures
        r == forall|k: int| 0 <= k < b.ids@.len() ==> (#[trigger] b.ids@[k] + 1) * width <= size,
{
    let mut i: usize = 0;
    while i < b.ids.len()
        invariant
            i <= b.ids@.len(),
            forall|k: int| 0 <= k < i ==> (#[trigger] b.ids@[k] + 1) * width <= size,
        decreases b.ids@.len() - i,
    {
        if !row_within(b.ids[i], width, size) {
            assert(!((b.ids@[i as int] + 1) * width <= size));
            return false;
        }
        i += 1;
    }
    true
}

/// Whether a table of `size` values has every question type's row of `width`.
fn has_types(b: &Batch, width: usize, size: usize) -> (r: bool)
    ensures
        r == forall|k: int| 0 <= k < b.count() ==> (#[trigger] b.qtype@[k] + 1) * width <= size,
{
    let mut i: usize = 0;
    while i < b.qtype.len()
        invariant
            i <= b.qtype@.len(),
            forall|k: int| 0 <= k < i ==> (#[trigger] b.qtype@[k] + 1) * width <= size,
        decreases b.qtype@.len() - i,
    {
        if !row_within(b.qtype[i] as u32, width, size) {
            assert(!((b.qtype@[i as int] + 1) * width <= size));
            return false;
        }
        i += 1;
    }
    true
}

/// Whether row `id` of `width` values ends within `size` values.
fn row_within(id: u32, width: usize, size: usize) -> (r: bool)
    ensures
        r == ((id + 1) * width <= size),
{
    proof {
        assert(0 <= (id + 1) * width <= 0x1_0000_0000 * 0xffff_ffff_ffff_ffff) by (nonlinear_arith)
            requires
                0 <= id <= 0xffff_ffff,
                0 <= width <= 0xffff_ffff_ffff_ffff,
        ;
    }
    (id as u128 + 1) * (width as u128) <= size as u128
}

/// Whether the attention tasks over `n` tokens can be counted.
fn countable_tasks(n: usize, width: usize) -> (r: bool)
    ensures
        r == ((n + 32) * (width + 1) <= usize::MAX),
{
    if n > usize::MAX - 32 {
        proof {
            assert((n + 32) * (width + 1) >= n + 32) by (nonlinear_arith)
                requires
                    0 <= n,
                    0 <= width,
            ;
        }
        return false;
    }
    proof {
        assert(0 <= (n + 32) * (width + 1) <= 0xffff_ffff_ffff_ffff * 0x1_0000_0000_0000_0000)
            by (nonlinear_arith)
            requires
                0 <= n + 32 <= 0xffff_ffff_ffff_ffff,
                0 <= width <= 0xffff_ffff_ffff_ffff,
        ;
    }
    (n as u128 + 32) * (width as u128 + 1) <= usize::MAX as u128
}

/// Whether a step can run on a batch: what [`tasks_of`] asks of it.
pub fn step_fits(step: Step, b: &Batch, arena_len: usize, weights: &Vec<usize>) -> (r: bool)
    ensures
        r == step_ok(step, b, arena_len as int, weights@),
{
    match step {
        Step::Embed { table, out } => matches!(out.rows, Rows::Tokens) && out.width > 0
            && lies_inside(b, out, arena_len) && table < weights.len() && has_tokens(
            b,
            out.width,
            weights[table],
        ),
        Step::LayerNorm { x, w: _, b: _, eps: _, out } => x.rows == out.rows && x.width == out.width
            && lies_inside(b, x, arena_len) && lies_inside(b, out, arena_len),
        Step::Gemm { a, w: _, b: _, ep: _, out } => a.rows == out.rows && lies_inside(
            b,
            a,
            arena_len,
        ) && lies_inside(b, out, arena_len),
        Step::Gemm8 { a, w: _, b: _, ep: _, out } => a.rows == out.rows && lies_inside(
            b,
            a,
            arena_len,
        ) && lies_inside(b, out, arena_len),
        Step::Rope { qkv, rope: _ } => matches!(qkv.rows, Rows::Tokens) && qkv.width > 0
            && qkv.width % 192 == 0 && lies_inside(b, qkv, arena_len),
        Step::Attention { qkv, window: _, out } => matches!(qkv.rows, Rows::Tokens) && matches!(
            out.rows,
            Rows::Tokens
        ) && qkv.width % 192 == 0 && qkv.width / 3 == out.width && lies_inside(b, qkv, arena_len)
            && lies_inside(b, out, arena_len) && countable_tasks(b.ids.len(), out.width),
        Step::GeGlu { x, out } => x.rows == out.rows && x.width % 2 == 0 && x.width / 2 == out.width
            && lies_inside(b, x, arena_len) && lies_inside(b, out, arena_len),
        Step::AddType { h, table } => matches!(h.rows, Rows::Tokens) && h.width > 0 && lies_inside(
            b,
            h,
            arena_len,
        ) && table < weights.len() && has_types(b, h.width, weights[table]),
        Step::Gather { h, out } => matches!(h.rows, Rows::Tokens) && matches!(
            out.rows,
            Rows::Markers
        ) && h.width == out.width && lies_inside(b, h, arena_len) && lies_inside(b, out, arena_len),
        Step::ActFeatures { h, logits, out } => matches!(h.rows, Rows::Tokens) && matches!(
            logits.rows,
            Rows::Markers
        ) && logits.width == 1 && matches!(out.rows, Rows::Seqs) && out.width >= 4 && out.width - 4
            == h.width && lies_inside(b, h, arena_len) && lies_inside(b, logits, arena_len)
            && lies_inside(b, out, arena_len),
    }
}

/// Whether a call is in some task.
pub open spec fn has_call(tasks: Seq<Seq<Call>>, c: Call) -> bool {
    exists|t: int, i: int|
        0 <= t < tasks.len() && 0 <= i < tasks[t].len() && #[trigger] tasks[t][i] == c
}

/// Every call is in some task of 16.
proof fn in_some_block(calls: Seq<Call>, r: int)
    requires
        0 <= r < calls.len(),
    ensures
        has_call(in_blocks(calls), calls[r]),
{
    let (t, i) = (r / 16, r % 16);
    assert(16 * t + i == r);
    assert(0 <= t < in_blocks(calls).len());
    assert(in_blocks(calls)[t][i] == calls[r]);
}

/// The call of a token's embedding is in some task.
proof fn token_copies(
    b: &Batch,
    tb: &Tables,
    table: usize,
    out: Loc,
    arena_len: usize,
    weights: Seq<usize>,
    r: int,
)
    requires
        step_ok(Step::Embed { table, out }, b, arena_len as int, weights),
        0 <= r < b.ids@.len(),
    ensures
        has_call(step_tasks(Step::Embed { table, out }, b, tb), embed_call(b, table, out, r)),
        embed_call(b, table, out, r) matches Call::CopyTable { table: t, from, to, len } && t
            == table && from == b.ids@[r] * out.width && to == out.off + r * out.width && len
            == out.width,
{
    let n = b.ids@.len() as int;
    let calls = Seq::new(b.ids@.len(), |r: int| embed_call(b, table, out, r));
    row_inside(n, r, out.width as int, out.off as int, arena_len as int);
    let x = b.ids@[r] as int;
    assert(x * out.width + out.width == (x + 1) * out.width) by (nonlinear_arith);
    assert(0 <= x * out.width) by (nonlinear_arith)
        requires
            0 <= x,
            0 <= out.width,
    ;
    let most = weights[table as int];
    assert((x + 1) * out.width <= most);
    in_some_block(calls, r);
}

/// Every token gets what a step does to token rows: the row of the embedding table that its id
/// names, the row of the type table that its sequence's type names, and the turn of its place in its
/// sequence.
pub proof fn every_token_gets_its_own(
    step: Step,
    b: &Batch,
    tb: &Tables,
    arena_len: usize,
    weights: Seq<usize>,
    q: int,
    r: int,
)
    requires
        b.wf(),
        tb.of(b),
        step_ok(step, b, arena_len as int, weights),
        seq_of(b.cu@, q, r),
    ensures
        step matches Step::Embed { table, out } ==> exists|c: Call| #[trigger]
            has_call(step_tasks(step, b, tb), c) && (c matches Call::CopyTable {
                table: t,
                from,
                to,
                len,
            } && t == table && from == b.ids@[r] * out.width && to == out.off + r * out.width && len
                == out.width),
        step matches Step::AddType { h, table } ==> exists|c: Call| #[trigger]
            has_call(step_tasks(step, b, tb), c) && (c matches Call::AddTable {
                table: t,
                from,
                to,
                len,
            } && t == table && from == b.qtype@[q] * h.width && to == h.off + r * h.width && len
                == h.width),
        step matches Step::Rope { qkv, rope } ==> exists|c: Call| #[trigger]
            has_call(step_tasks(step, b, tb), c) && (c matches Call::Rope {
                rope: t,
                at,
                heads,
                pos,
            } && t == rope && at == qkv.off + r * qkv.width && 192 * heads == 2 * qkv.width && pos
                == r - b.cu@[q]),
{
    let n = b.ids@.len() as int;
    let tasks = step_tasks(step, b, tb);
    assert(b.cu@[q + 1] <= b.cu@[b.cu@.len() - 1]);
    assert(seq_of(b.cu@, tb.row_seq@[r] as int, r));
    one_sequence(b.cu@, n, r, q, tb.row_seq@[r] as int);
    match step {
        Step::Embed { table, out } => {
            token_copies(b, tb, table, out, arena_len, weights, r);
            let c = embed_call(b, table, out, r);
            assert(has_call(tasks, c));
        },
        Step::AddType { h, table } => {
            let calls = Seq::new(b.ids@.len(), |r: int| type_call(b, tb, h, table, r));
            row_inside(n, r, h.width as int, h.off as int, arena_len as int);
            let x = b.qtype@[q] as int;
            assert(x * h.width + h.width == (x + 1) * h.width) by (nonlinear_arith);
            assert(0 <= x * h.width) by (nonlinear_arith)
                requires
                    0 <= x,
                    0 <= h.width,
            ;
            in_some_block(calls, r);
            assert(has_call(tasks, type_call(b, tb, h, table, r)));
        },
        Step::Rope { qkv, rope } => {
            let calls = Seq::new(b.ids@.len(), |r: int| rope_call(b, tb, qkv, rope, r));
            row_inside(n, r, qkv.width as int, qkv.off as int, arena_len as int);
            let w = qkv.width as int;
            assert(w == 192 * (w / 192));
            assert(2 * (w / 3) / 64 == 2 * (w / 192));
            in_some_block(calls, r);
            let c = rope_call(b, tb, qkv, rope, r);
            assert(has_call(tasks, c));
        },
        _ => {},
    }
}

/// Every row that a layer norm or a gated activation makes is in one call, which reads it where its
/// row of the input is.
pub proof fn every_row_is_in_a_block(
    step: Step,
    b: &Batch,
    tb: &Tables,
    arena_len: usize,
    weights: Seq<usize>,
    r: int,
)
    requires
        step_ok(step, b, arena_len as int, weights),
    ensures
        ({
            let tasks = step_tasks(step, b, tb);
            match step {
                Step::LayerNorm { x, w, b: bias, eps, out } => 0 <= r < live(b, out.rows) ==> exists|
                    c: Call,
                | #[trigger]
                    has_call(tasks, c) && (c matches Call::LayerNorm {
                        x: from,
                        w: v,
                        b: a,
                        eps: e,
                        width,
                        out: to,
                        len,
                    } && (v, a, e, width) == (w, bias, eps, out.width) && to <= out.off + r
                        * out.width && out.off + r * out.width + out.width <= to + len && from
                        - x.off == to - out.off),
                Step::GeGlu { x, out } => 0 <= r < live(b, out.rows) ==> exists|c: Call| #[trigger]
                    has_call(tasks, c) && (c matches Call::GeGlu { x: from, width, out: to, len }
                        && width == out.width && to <= out.off + r * out.width && out.off + r
                        * out.width + out.width <= to + len && from - x.off == 2 * (to - out.off)),
                _ => true,
            }
        }),
{
    let tasks = step_tasks(step, b, tb);
    let t = r / 16;
    match step {
        Step::LayerNorm { x, w, b: bias, eps, out } => {
            if 0 <= r < live(b, out.rows) {
                let n = live(b, out.rows);
                block_holds(n, r, out.width as int, out.off as int, arena_len as int);
                row_inside(n, 16 * t, out.width as int, x.off as int, arena_len as int);
                let c = norm_call(b, x, w, bias, eps, out, t);
                assert(tasks[t][0] == c);
                assert(has_call(tasks, c));
            }
        },
        Step::GeGlu { x, out } => {
            if 0 <= r < live(b, out.rows) {
                let n = live(b, out.rows);
                block_holds(n, r, out.width as int, out.off as int, arena_len as int);
                row_inside(n, 16 * t, x.width as int, x.off as int, arena_len as int);
                assert(16 * t * x.width == 2 * (16 * t * out.width)) by (nonlinear_arith)
                    requires
                        x.width == 2 * out.width,
                ;
                let c = geglu_call(b, x, out, t);
                assert(tasks[t][0] == c);
                assert(has_call(tasks, c));
            }
        },
        _ => {},
    }
}

/// A row lies in the block of its sixteen.
proof fn block_holds(n: int, r: int, width: int, off: int, len: int)
    requires
        0 <= r < n,
        0 <= width,
        0 <= off,
        off + n * width <= len,
        len <= usize::MAX,
    ensures
        0 <= r / 16 < ceil_div(n, 16),
        0 <= 16 * (r / 16) * width <= r * width,
        0 <= task_rows(n, r / 16) * width,
        off + 16 * (r / 16) * width + task_rows(n, r / 16) * width <= len,
        r * width + width <= 16 * (r / 16) * width + task_rows(n, r / 16) * width,
{
    let t = r / 16;
    let k = task_rows(n, t);
    assert(16 * t <= r < 16 * t + k && 16 * t + k <= n);
    assert(0 <= 16 * t * width <= r * width) by (nonlinear_arith)
        requires
            0 <= 16 * t <= r,
            0 <= width,
    ;
    assert(0 <= k * width) by (nonlinear_arith)
        requires
            0 <= k,
            0 <= width,
    ;
    assert(16 * t * width + k * width == (16 * t + k) * width) by (nonlinear_arith);
    assert((16 * t + k) * width <= n * width) by (nonlinear_arith)
        requires
            16 * t + k <= n,
            0 <= width,
    ;
    assert(r * width + width == (r + 1) * width) by (nonlinear_arith);
    assert((r + 1) * width <= (16 * t + k) * width) by (nonlinear_arith)
        requires
            r + 1 <= 16 * t + k,
            0 <= width,
    ;
}

/// The call of a marker is among those of its sequence.
proof fn marker_has_call(b: &Batch, h: Loc, out: Loc, n: int, s: int, k: int) -> (i: int)
    requires
        0 <= s < n < b.mcu@.len(),
        seq_of(b.mcu@, s, k),
    ensures
        0 <= i < gather_calls(b, h, out, n).len(),
        gather_calls(b, h, out, n)[i] == gather_call(b, h, out, s, k),
    decreases n,
{
    let before = gather_calls(b, h, out, n - 1);
    if s < n - 1 {
        let i = marker_has_call(b, h, out, n - 1, s, k);
        assert(gather_calls(b, h, out, n)[i] == before[i]);
        i
    } else {
        let i = before.len() + (k - b.mcu@[s]);
        assert(gather_calls(b, h, out, n)[i] == gather_call(b, h, out, s, b.mcu@[s] + (k
            - b.mcu@[s])));
        i
    }
}

/// The calls of a sequence's features stand together.
proof fn features_have_calls(b: &Batch, h: Loc, logits: Loc, out: Loc, n: int, s: int)
    requires
        0 <= s < n,
    ensures
        all_features(b, h, logits, out, n).len() == 2 * n,
        all_features(b, h, logits, out, n)[2 * s] == feature_calls(b, h, logits, out, s)[0],
        all_features(b, h, logits, out, n)[2 * s + 1] == feature_calls(b, h, logits, out, s)[1],
    decreases n,
{
    if n > 1 {
        features_have_calls(b, h, logits, out, n - 1, if s < n - 1 {
            s
        } else {
            0
        });
    } else {
        assert(all_features(b, h, logits, out, 0).len() == 0);
    }
}

/// Every marker gets the row of its token, and every sequence the row it starts with, or zeros when
/// it has none, and behind it the numbers about its own logits.
pub proof fn every_marker_and_sequence_gets_its_own(
    step: Step,
    b: &Batch,
    tb: &Tables,
    arena_len: usize,
    weights: Seq<usize>,
    s: int,
    k: int,
)
    requires
        b.wf(),
        step_ok(step, b, arena_len as int, weights),
        0 <= s < b.count(),
    ensures
        ({
            let tasks = step_tasks(step, b, tb);
            match step {
                Step::Gather { h, out } => seq_of(b.mcu@, s, k) ==> exists|c: Call| #[trigger]
                    has_call(tasks, c) && (c matches Call::Move { from, to, len } && from == h.off + (
                    b.cu@[s] + b.markers@[k]) * h.width && to == out.off + k * out.width && len
                        == out.width),
                Step::ActFeatures { h, logits, out } => {
                    let at = out.off + s * out.width;
                    &&& exists|c: Call| #[trigger]
                        has_call(tasks, c) && (c matches Call::Features { logits: l, k: m, to } && l
                            == logits.off + b.mcu@[s] && l + m == logits.off + b.mcu@[s + 1] && to
                            == at + h.width)
                    &&& b.cu@[s] < b.cu@[s + 1] ==> exists|c: Call| #[trigger]
                        has_call(tasks, c) && (c matches Call::Move { from, to, len } && from
                            == h.off + b.cu@[s] * h.width && to == at && len == h.width)
                    &&& b.cu@[s] == b.cu@[s + 1] ==> exists|c: Call| #[trigger]
                        has_call(tasks, c) && (c matches Call::Zero { to, len } && to == at && len
                            == h.width)
                },
                _ => true,
            }
        }),
{
    match step {
        Step::Gather { h, out } => {
            if seq_of(b.mcu@, s, k) {
                marker_moves(b, tb, h, out, arena_len, s, k);
            }
        },
        Step::ActFeatures { h, logits, out } => {
            sequence_features(b, tb, h, logits, out, arena_len, s);
        },
        _ => {},
    }
}

/// The call of a marker is in the task.
proof fn marker_moves(
    b: &Batch,
    tb: &Tables,
    h: Loc,
    out: Loc,
    arena_len: usize,
    s: int,
    k: int,
)
    requires
        b.wf(),
        step_ok(Step::Gather { h, out }, b, arena_len as int, seq![]),
        0 <= s < b.count(),
        seq_of(b.mcu@, s, k),
    ensures
        has_call(step_tasks(Step::Gather { h, out }, b, tb), gather_call(b, h, out, s, k)),
        gather_call(b, h, out, s, k) matches Call::Move { from, to, len } && from == h.off + (
        b.cu@[s] + b.markers@[k]) * h.width && to == out.off + k * out.width && len == out.width,
{
    let tasks = step_tasks(Step::Gather { h, out }, b, tb);
    let len = arena_len as int;
    assert(b.mcu@[s + 1] <= b.mcu@[b.mcu@.len() - 1]);
    assert(b.cu@[s + 1] <= b.cu@[b.cu@.len() - 1]);
    assert(b.cu@[s] + b.markers@[k] < b.cu@[s + 1]);
    row_inside(
        b.ids@.len() as int,
        b.cu@[s] + b.markers@[k],
        h.width as int,
        h.off as int,
        len,
    );
    row_inside(b.markers@.len() as int, k, out.width as int, out.off as int, len);
    let i = marker_has_call(b, h, out, b.count(), s, k);
    assert(tasks[0][i] == gather_call(b, h, out, s, k));
}

/// The calls of a sequence's features are in the task.
proof fn sequence_features(
    b: &Batch,
    tb: &Tables,
    h: Loc,
    logits: Loc,
    out: Loc,
    arena_len: usize,
    s: int,
)
    requires
        b.wf(),
        step_ok(Step::ActFeatures { h, logits, out }, b, arena_len as int, seq![]),
        0 <= s < b.count(),
    ensures
        ({
            let tasks = step_tasks(Step::ActFeatures { h, logits, out }, b, tb);
            let two = feature_calls(b, h, logits, out, s);
            let at = out.off + s * out.width;
            &&& has_call(tasks, two[0])
            &&& has_call(tasks, two[1])
            &&& two[1] matches Call::Features { logits: l, k: m, to } && l == logits.off + b.mcu@[s]
                && l + m == logits.off + b.mcu@[s + 1] && to == at + h.width
            &&& b.cu@[s] < b.cu@[s + 1] ==> (two[0] matches Call::Move { from, to, len } && from
                == h.off + b.cu@[s] * h.width && to == at && len == h.width)
            &&& b.cu@[s] == b.cu@[s + 1] ==> (two[0] matches Call::Zero { to, len } && to == at
                && len == h.width)
        }),
{
    let tasks = step_tasks(Step::ActFeatures { h, logits, out }, b, tb);
    let len = arena_len as int;
    assert(b.mcu@[s] <= b.mcu@[s + 1] <= b.mcu@[b.mcu@.len() - 1]);
    assert(b.cu@[s] <= b.cu@[s + 1] <= b.cu@[b.cu@.len() - 1]);
    row_inside(b.count(), s, out.width as int, out.off as int, len);
    if b.cu@[s] < b.cu@[s + 1] {
        row_inside(b.ids@.len() as int, b.cu@[s] as int, h.width as int, h.off as int, len);
    }
    features_have_calls(b, h, logits, out, b.count(), s);
    let two = feature_calls(b, h, logits, out, s);
    assert(tasks[0][2 * s] == two[0]);
    assert(tasks[0][2 * s + 1] == two[1]);
}

/// A row has its block.
proof fn row_has_block(cu: Seq<u32>, end: int, n: int, q: int, r: int) -> (i: int)
    requires
        bounds(cu, end),
        end + 32 <= u32::MAX,
        cu.len() <= u32::MAX,
        0 <= q < n < cu.len(),
        seq_of(cu, q, r),
    ensures
        0 <= i < all_blocks(cu, n).len(),
        all_blocks(cu, n)[i].0 == q,
        all_blocks(cu, n)[i].1 <= r < all_blocks(cu, n)[i].1 + 32,
    decreases n,
{
    let before = all_blocks(cu, n - 1);
    if q < n - 1 {
        let i = row_has_block(cu, end, n - 1, q, r);
        assert(all_blocks(cu, n)[i] == before[i]);
        i
    } else {
        let lo = cu[q] as int;
        let k = (r - lo) / 32;
        let last = seq_blocks(q, lo, cu[q + 1] as int);
        assert(cu[q + 1] <= cu[cu.len() - 1]);
        assert(0 <= k < last.len());
        assert(all_blocks(cu, n)[before.len() + k] == last[k]);
        before.len() + k
    }
}

/// Every token attends with every head, within its own sequence.
pub proof fn every_token_attends_in_its_sequence(
    b: &Batch,
    tb: &Tables,
    qkv: Loc,
    window: Option<usize>,
    out: Loc,
    q: int,
    r: int,
    h: int,
)
    requires
        b.wf(),
        tb.of(b),
        b.ids@.len() + 32 <= u32::MAX,
        b.cu@.len() <= u32::MAX,
        seq_of(b.cu@, q, r),
        0 <= h < out.width / 64,
    ensures
        exists|c: Call| #[trigger]
            has_call(step_tasks(Step::Attention { qkv, window, out }, b, tb), c) && (
            c matches Call::Attention { x, heads, lo, hi, q0, h: head, window: w, out: to } && x
                == qkv.off && heads == out.width / 64 && lo == b.cu@[q] && hi == b.cu@[q + 1] && q0
                <= r < q0 + 32 && head == h && w == window && to == out.off),
{
    let heads = out.width as int / 64;
    let i = row_has_block(b.cu@, b.ids@.len() as int, b.count(), q, r);
    let t = i * heads + h;
    let tasks = step_tasks(Step::Attention { qkv, window, out }, b, tb);
    assert(0 <= t < tb.blocks@.len() * heads) by (nonlinear_arith)
        requires
            t == i * heads + h,
            0 <= i,
            i + 1 <= tb.blocks@.len(),
            0 <= h < heads,
    ;
    vstd::arithmetic::div_mod::lemma_fundamental_div_mod_converse(t, heads, i, h);
    let c = attention_call(tb, qkv, window, out, t);
    assert(tasks[t][0] == c);
    assert(has_call(tasks, c));
}

} // verus!
