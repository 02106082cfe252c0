//! The launches of each step, and the index tables of a batch.

use crate::batch::{bounds, seq_of, Batch};
use crate::cpu::attention::{ceil_div, div_ceil};
use crate::cuda::plan::{Index, Loc, Ptrs, Step};
use crate::graph::{Bucket, Rows, HEAD};
use vstd::prelude::*;

verus! {

/// Query rows per attention block.
pub const ATT_Q: usize = 16;

/// Warps per attention block.
pub const ATT_W: u32 = 8;

/// Rows per layer norm block, one warp each.
pub const LN_ROWS: usize = 4;

/// The kernels. The number says which of a kernel's variants runs: with one typed value, whether
/// it is FP16; with an input and an output, twice the input's plus the output's.
#[derive(Debug, Clone, Copy, PartialEq, Eq, Structural)]
pub enum Kernel {
    /// Table rows.
    Embed,
    /// Layer norm.
    Ln(usize),
    /// FP32 to FP16.
    ToF16,
    /// Bias and activation.
    BiasAct(usize),
    /// Rotary positions.
    Rope(usize),
    /// Attention.
    Attention(usize),
    /// The gated activation.
    GeGlu(usize),
    /// The type embedding.
    AddType,
    /// Marker rows.
    Gather(usize),
    /// The act head's input.
    ActFeatures,
}

/// One argument of a launch.
#[derive(Debug, Clone, Copy, PartialEq, Eq, Structural)]
pub enum Arg {
    /// An address.
    Ptr(u64),
    /// A number.
    Int(i32),
    /// A length.
    Len(u64),
    /// The bits of a real number.
    Real(u64),
}

/// A kernel launch: its arguments in order, a grid of blocks and the threads of a block.
#[derive(Debug)]
pub struct Launch {
    /// The kernel.
    pub kernel: Kernel,
    /// Its arguments.
    pub args: Vec<Arg>,
    /// Blocks along x.
    pub grid_x: u32,
    /// Blocks along y.
    pub grid_y: u32,
    /// Threads of a block.
    pub threads: u32,
}

/// One thing a step puts on the stream.
#[derive(Debug)]
pub enum Item {
    /// A product of the plan.
    Product(usize),
    /// A kernel.
    Run(Launch),
}

/// An item, as plain values.
pub ghost enum Shown {
    /// A product of the plan.
    Product(int),
    /// A kernel, its arguments, the grid and the threads.
    Run(Kernel, Seq<Arg>, int, int, int),
}

impl Item {
    /// The item as plain values.
    pub open spec fn shown(self) -> Shown {
        match self {
            Item::Product(g) => Shown::Product(g as int),
            Item::Run(l) => Shown::Run(
                l.kernel,
                l.args@,
                l.grid_x as int,
                l.grid_y as int,
                l.threads as int,
            ),
        }
    }
}

/// The items as plain values.
pub open spec fn shown(v: Seq<Item>) -> Seq<Shown> {
    Seq::new(v.len(), |i: int| v[i].shown())
}

/// The number a kernel is told for a kind of rows.
pub open spec fn kind_code(r: Rows) -> i32 {
    match r {
        Rows::Tokens => 0,
        Rows::Seqs => 1,
        Rows::Markers => 2,
    }
}

/// The number a kernel is told for a kind of rows.
pub fn kind(r: Rows) -> (k: i32)
    ensures
        k == kind_code(r),
{
    match r {
        Rows::Tokens => 0,
        Rows::Seqs => 1,
        Rows::Markers => 2,
    }
}

/// 1 for an FP16 value.
pub open spec fn bit(l: Loc) -> usize {
    if l.spec_half() {
        1
    } else {
        0
    }
}

/// The variant for an input and an output.
pub open spec fn both(x: Loc, out: Loc) -> usize {
    (2 * bit(x) + bit(out)) as usize
}

/// 1 for an FP16 value.
fn half_bit(l: Loc) -> (r: usize)
    ensures
        r == bit(l),
{
    if l.half() {
        1
    } else {
        0
    }
}

/// Blocks for `len` values at 256 a block, at most 65,535.
pub open spec fn flat_blocks(len: int) -> int {
    if ceil_div(len, 256) < 65535 {
        ceil_div(len, 256)
    } else {
        65535
    }
}

/// What a step puts on the stream.
pub open spec fn launches(b: Bucket, p: Ptrs, stage: u64, step: Step) -> Seq<Shown> {
    match step {
        Step::Embed { table, out } => seq![
            Shown::Run(
                Kernel::Embed,
                seq![
                    Arg::Ptr(out.ptr),
                    Arg::Ptr(table),
                    Arg::Ptr(p.ids),
                    Arg::Ptr(p.n),
                    Arg::Int(out.width as i32),
                ],
                b.tokens as int,
                1,
                256,
            ),
        ],
        Step::LayerNorm { x, w, b: bias, eps, out } => seq![
            Shown::Run(
                Kernel::Ln(both(x, out)),
                seq![
                    Arg::Ptr(out.ptr),
                    Arg::Ptr(x.ptr),
                    Arg::Ptr(w),
                    Arg::Ptr(bias),
                    Arg::Ptr(p.n),
                    Arg::Int(kind_code(x.rows)),
                    Arg::Int(x.width as i32),
                    Arg::Real(eps),
                ],
                ceil_div(b.spec_rows(x.rows) as int, 4),
                1,
                128,
            ),
        ],
        Step::ToHalf { from, len } => seq![
            Shown::Run(
                Kernel::ToF16,
                seq![Arg::Ptr(stage), Arg::Ptr(from), Arg::Len(len)],
                flat_blocks(len as int),
                1,
                256,
            ),
        ],
        Step::Gemm { gemm, b: bias, act, out } => if bias != 0 || act != 0 {
            seq![
                Shown::Product(gemm as int),
                Shown::Run(
                    Kernel::BiasAct(bit(out)),
                    seq![
                        Arg::Ptr(out.ptr),
                        Arg::Ptr(bias),
                        Arg::Ptr(p.n),
                        Arg::Int(kind_code(out.rows)),
                        Arg::Int(out.width as i32),
                        Arg::Int(act),
                    ],
                    b.spec_rows(out.rows) as int,
                    1,
                    256,
                ),
            ]
        } else {
            seq![Shown::Product(gemm as int)]
        },
        Step::Rope { qkv, cos, sin } => seq![
            Shown::Run(
                Kernel::Rope(bit(qkv)),
                seq![
                    Arg::Ptr(qkv.ptr),
                    Arg::Ptr(cos),
                    Arg::Ptr(sin),
                    Arg::Ptr(p.pos),
                    Arg::Ptr(p.n),
                    Arg::Int((qkv.width / 3 / 64) as i32),
                ],
                b.tokens as int,
                1,
                256,
            ),
        ],
        Step::Attention { qkv, cos, sin, window, out } => seq![
            Shown::Run(
                Kernel::Attention(both(qkv, out)),
                seq![
                    Arg::Ptr(out.ptr),
                    Arg::Ptr(qkv.ptr),
                    Arg::Ptr(cos),
                    Arg::Ptr(sin),
                    Arg::Ptr(p.pos),
                    Arg::Ptr(p.seq),
                    Arg::Ptr(p.cu),
                    Arg::Ptr(p.n),
                    Arg::Int((out.width / 64) as i32),
                    Arg::Int(window),
                ],
                ceil_div(b.tokens as int, 16),
                (out.width / 64) as int,
                256,
            ),
        ],
        Step::GeGlu { x, out } => seq![
            Shown::Run(
                Kernel::GeGlu(both(x, out)),
                seq![
                    Arg::Ptr(out.ptr),
                    Arg::Ptr(x.ptr),
                    Arg::Ptr(p.n),
                    Arg::Int(out.width as i32),
                ],
                b.tokens as int,
                1,
                256,
            ),
        ],
        Step::AddType { h, table } => seq![
            Shown::Run(
                Kernel::AddType,
                seq![
                    Arg::Ptr(h.ptr),
                    Arg::Ptr(table),
                    Arg::Ptr(p.seq),
                    Arg::Ptr(p.qtype),
                    Arg::Ptr(p.n),
                    Arg::Int(h.width as i32),
                ],
                b.tokens as int,
                1,
                256,
            ),
        ],
        Step::Gather { h, out } => seq![
            Shown::Run(
                Kernel::Gather(bit(h)),
                seq![
                    Arg::Ptr(out.ptr),
                    Arg::Ptr(h.ptr),
                    Arg::Ptr(p.mrow),
                    Arg::Ptr(p.n),
                    Arg::Int(h.width as i32),
                ],
                b.markers as int,
                1,
                256,
            ),
        ],
        Step::ActFeatures { h, logits, out } => seq![
            Shown::Run(
                Kernel::ActFeatures,
                seq![
                    Arg::Ptr(out.ptr),
                    Arg::Ptr(h.ptr),
                    Arg::Ptr(logits.ptr),
                    Arg::Ptr(p.cu),
                    Arg::Ptr(p.mcu),
                    Arg::Ptr(p.n),
                    Arg::Int(h.width as i32),
                ],
                b.seqs as int,
                1,
                256,
            ),
        ],
    }
}

/// The values of a step.
pub open spec fn step_width(step: Step) -> int {
    match step {
        Step::Embed { out, .. } => out.width as int,
        Step::LayerNorm { x, .. } => x.width as int,
        Step::ToHalf { .. } => 0,
        Step::Gemm { out, .. } => out.width as int,
        Step::Rope { qkv, .. } => qkv.width as int,
        Step::Attention { out, .. } => out.width as int,
        Step::GeGlu { out, .. } => out.width as int,
        Step::AddType { h, .. } => h.width as int,
        Step::Gather { h, .. } => h.width as int,
        Step::ActFeatures { h, .. } => h.width as int,
    }
}

/// Whether the launches of a step fit the numbers that launches count with.
pub fn step_fits(b: Bucket, step: Step) -> (r: bool)
    ensures
        r == (b.tokens <= u32::MAX && b.seqs <= u32::MAX && b.markers <= u32::MAX && step_width(step)
            <= i32::MAX),
{
    let width: usize = match step {
        Step::Embed { table: _, out } => out.width,
        Step::LayerNorm { x, w: _, b: _, eps: _, out: _ } => x.width,
        Step::ToHalf { from: _, len: _ } => 0,
        Step::Gemm { gemm: _, b: _, act: _, out } => out.width,
        Step::Rope { qkv, cos: _, sin: _ } => qkv.width,
        Step::Attention { qkv: _, cos: _, sin: _, window: _, out } => out.width,
        Step::GeGlu { x: _, out } => out.width,
        Step::AddType { h, table: _ } => h.width,
        Step::Gather { h, out: _ } => h.width,
        Step::ActFeatures { h, logits: _, out: _ } => h.width,
    };
    b.tokens <= u32::MAX as usize && b.seqs <= u32::MAX as usize && b.markers <= u32::MAX as usize
        && width <= i32::MAX as usize
}

/// One launch.
fn run(kernel: Kernel, args: Vec<Arg>, grid_x: u32, grid_y: u32, threads: u32) -> (r: Item)
    ensures
        r.shown() == Shown::Run(kernel, args@, grid_x as int, grid_y as int, threads as int),
{
    Item::Run(Launch { kernel, args, grid_x, grid_y, threads })
}

/// What a step puts on the stream, in order: every launch is sized for the bucket, and the
/// kernels read the batch's counts from the device.
#[verifier::rlimit(60)]
pub fn launch_step(b: Bucket, p: Ptrs, stage: u64, step: Step) -> (r: Vec<Item>)
    requires
        b.tokens <= u32::MAX,
        b.seqs <= u32::MAX,
        b.markers <= u32::MAX,
        step_width(step) <= i32::MAX,
    ensures
        shown(r@) == launches(b, p, stage, step),
{
    let mut r: Vec<Item> = Vec::new();
    match step {
        Step::Embed { table, out } => {
            let args: Vec<Arg> = vec![
                Arg::Ptr(out.ptr), Arg::Ptr(table), Arg::Ptr(p.ids), Arg::Ptr(p.n),
                Arg::Int(out.width as i32),
            ];
            r.push(run(Kernel::Embed, args, b.tokens as u32, 1, 256));
        },
        Step::LayerNorm { x, w, b: bias, eps, out } => {
            let args: Vec<Arg> = vec![
                Arg::Ptr(out.ptr), Arg::Ptr(x.ptr), Arg::Ptr(w), Arg::Ptr(bias), Arg::Ptr(p.n),
                Arg::Int(kind(x.rows)), Arg::Int(x.width as i32), Arg::Real(eps),
            ];
            let blocks: usize = div_ceil(b.rows(x.rows), LN_ROWS);
            let v: usize = 2 * half_bit(x) + half_bit(out);
            r.push(run(Kernel::Ln(v), args, blocks as u32, 1, 32 * 4));
        },
        Step::ToHalf { from, len } => {
            let args: Vec<Arg> = vec![Arg::Ptr(stage), Arg::Ptr(from), Arg::Len(len)];
            let blocks: u64 = if len > 65535 * 256 {
                65535
            } else {
                (len + 255) / 256
            };
            r.push(run(Kernel::ToF16, args, blocks as u32, 1, 256));
        },
        Step::Gemm { gemm, b: bias, act, out } => {
            r.push(Item::Product(gemm));
            if bias != 0 || act != 0 {
                let args: Vec<Arg> = vec![
                    Arg::Ptr(out.ptr), Arg::Ptr(bias), Arg::Ptr(p.n), Arg::Int(kind(out.rows)),
                    Arg::Int(out.width as i32), Arg::Int(act),
                ];
                r.push(run(Kernel::BiasAct(half_bit(out)), args, b.rows(out.rows) as u32, 1, 256));
            }
        },
        Step::Rope { qkv, cos, sin } => {
            let heads: i32 = (qkv.width / 3 / HEAD) as i32;
            let args: Vec<Arg> = vec![
                Arg::Ptr(qkv.ptr), Arg::Ptr(cos), Arg::Ptr(sin), Arg::Ptr(p.pos), Arg::Ptr(p.n),
                Arg::Int(heads),
            ];
            r.push(run(Kernel::Rope(half_bit(qkv)), args, b.tokens as u32, 1, 256));
        },
        Step::Attention { qkv, cos, sin, window, out } => {
            let heads: i32 = (out.width / HEAD) as i32;
            let args: Vec<Arg> = vec![
                Arg::Ptr(out.ptr), Arg::Ptr(qkv.ptr), Arg::Ptr(cos), Arg::Ptr(sin), Arg::Ptr(p.pos),
                Arg::Ptr(p.seq), Arg::Ptr(p.cu), Arg::Ptr(p.n), Arg::Int(heads), Arg::Int(window),
            ];
            let blocks: usize = div_ceil(b.tokens, ATT_Q);
            let v: usize = 2 * half_bit(qkv) + half_bit(out);
            r.push(run(Kernel::Attention(v), args, blocks as u32, heads as u32, 32 * ATT_W));
        },
        Step::GeGlu { x, out } => {
            let args: Vec<Arg> = vec![
                Arg::Ptr(out.ptr), Arg::Ptr(x.ptr), Arg::Ptr(p.n), Arg::Int(out.width as i32),
            ];
            let v: usize = 2 * half_bit(x) + half_bit(out);
            r.push(run(Kernel::GeGlu(v), args, b.tokens as u32, 1, 256));
        },
        Step::AddType { h, table } => {
            let args: Vec<Arg> = vec![
                Arg::Ptr(h.ptr), Arg::Ptr(table), Arg::Ptr(p.seq), Arg::Ptr(p.qtype), Arg::Ptr(p.n),
                Arg::Int(h.width as i32),
            ];
            r.push(run(Kernel::AddType, args, b.tokens as u32, 1, 256));
        },
        Step::Gather { h, out } => {
            let args: Vec<Arg> = vec![
                Arg::Ptr(out.ptr), Arg::Ptr(h.ptr), Arg::Ptr(p.mrow), Arg::Ptr(p.n),
                Arg::Int(h.width as i32),
            ];
            r.push(run(Kernel::Gather(half_bit(h)), args, b.markers as u32, 1, 256));
        },
        Step::ActFeatures { h, logits, out } => {
            let args: Vec<Arg> = vec![
                Arg::Ptr(out.ptr), Arg::Ptr(h.ptr), Arg::Ptr(logits.ptr), Arg::Ptr(p.cu),
                Arg::Ptr(p.mcu), Arg::Ptr(p.n), Arg::Int(h.width as i32),
            ];
            r.push(run(Kernel::ActFeatures, args, b.seqs as u32, 1, 256));
        },
    }
    proof {
        let want = launches(b, p, stage, step);
        assert(r@.len() == want.len());
        assert forall|i: int| 0 <= i < want.len() implies shown(r@)[i] == want[i] by {
            match (r@[i], want[i]) {
                (Item::Run(l), Shown::Run(_, args, _, _, _)) => {
                    assert(l.args@ =~= args);
                },
                _ => {},
            }
        }
        assert(shown(r@) =~= want);
    }
    r
}

/// Every row of a bucket has a block: the layer norm's blocks of four rows and attention's of
/// sixteen reach the last one.
pub proof fn blocks_reach_every_row(rows: int, tokens: int, row: int, token: int)
    requires
        0 <= row < rows,
        0 <= token < tokens,
    ensures
        0 <= row / 4 < ceil_div(rows, 4),
        0 <= token / 16 < ceil_div(tokens, 16),
{
}

/// Whether element `i` of the tables is one that a batch sets.
pub open spec fn set_by(at: Index, b: &Batch, i: int) -> bool {
    let (t, s, m) = (b.ids@.len() as int, b.count(), b.markers@.len() as int);
    ||| 0 <= i < 4
    ||| at.ids <= i < at.ids + t
    ||| at.pos <= i < at.pos + t
    ||| at.seq <= i < at.seq + t
    ||| at.cu <= i <= at.cu + s
    ||| at.mcu <= i <= at.mcu + s
    ||| at.mrow <= i < at.mrow + m
    ||| at.qtype <= i < at.qtype + s
}

/// The tables hold a batch: the counts, the ids, the bounds, each token's position and sequence,
/// each marker's row and each question type.
pub open spec fn filled(h: Seq<u32>, at: Index, b: &Batch) -> bool {
    let (t, s, m) = (b.ids@.len() as int, b.count(), b.markers@.len() as int);
    &&& h[0] == t && h[1] == s && h[2] == m && h[3] == 0
    &&& forall|r: int| 0 <= r < t ==> h[at.ids + r] == #[trigger] b.ids@[r]
    &&& forall|q: int| 0 <= q <= s ==> h[at.cu + q] == #[trigger] b.cu@[q]
    &&& forall|q: int| 0 <= q <= s ==> h[at.mcu + q] == #[trigger] b.mcu@[q]
    &&& forall|q: int, r: int|
        #[trigger] seq_of(b.cu@, q, r) ==> h[at.pos + r] == r - b.cu@[q] && h[at.seq + r] == q
    &&& forall|q: int, k: int|
        #[trigger] seq_of(b.mcu@, q, k) ==> h[at.mrow + k] == b.cu@[q] + b.markers@[k]
    &&& forall|q: int| 0 <= q < s ==> h[at.qtype + q] == #[trigger] b.qtype@[q]
}

/// `h` with `src` at `to`.
#[verifier::opaque]
pub open spec fn overlay(h: Seq<u32>, to: int, src: Seq<u32>) -> Seq<u32> {
    Seq::new(
        h.len(),
        |i: int|
            if to <= i < to + src.len() {
                src[i - to]
            } else {
                h[i]
            },
    )
}

/// Element `i` of an overlay.
proof fn overlay_at(h: Seq<u32>, to: int, src: Seq<u32>, i: int)
    requires
        0 <= i < h.len(),
    ensures
        overlay(h, to, src).len() == h.len(),
        overlay(h, to, src)[i] == if to <= i < to + src.len() {
            src[i - to]
        } else {
            h[i]
        },
{
    reveal(overlay);
}

/// Copies `src` to `h` at `to`.
fn copy_in(h: &mut Vec<u32>, to: usize, src: &Vec<u32>)
    requires
        to + src@.len() <= old(h)@.len(),
    ensures
        final(h)@.len() == old(h)@.len(),
        final(h)@ == overlay(old(h)@, to as int, src@),
{
    let ghost before = h@;
    let mut k: usize = 0;
    while k < src.len()
        invariant
            k <= src@.len(),
            h@.len() == before.len(),
            to + src@.len() <= h@.len(),
            forall|i: int|
                0 <= i < h@.len() ==> #[trigger] h@[i] == if to <= i < to + k {
                    src@[i - to]
                } else {
                    before[i]
                },
        decreases src@.len() - k,
    {
        let _whole: usize = h.len();
        h.set(to + k, src[k]);
        k += 1;
    }
    proof {
        reveal(overlay);
    }
    assert(h@ =~= overlay(before, to as int, src@));
}

/// The seven tables of a batch behind its counts, laid over what the buffer held.
#[verifier::opaque]
pub open spec fn layered(
    h: Seq<u32>,
    at: Index,
    counts: Seq<u32>,
    b: &Batch,
    pos: Seq<u32>,
    seq: Seq<u32>,
    rows: Seq<u32>,
    kinds: Seq<u32>,
) -> Seq<u32> {
    let h = overlay(h, 0, counts);
    let h = overlay(h, at.ids as int, b.ids@);
    let h = overlay(h, at.cu as int, b.cu@);
    let h = overlay(h, at.mcu as int, b.mcu@);
    let h = overlay(h, at.pos as int, pos);
    let h = overlay(h, at.seq as int, seq);
    let h = overlay(h, at.mrow as int, rows);
    overlay(h, at.qtype as int, kinds)
}

/// Element `i` of the layers: the element of the one table it lies in, or of the buffer.
proof fn layered_at(
    h: Seq<u32>,
    at: Index,
    bucket: Bucket,
    counts: Seq<u32>,
    b: &Batch,
    pos: Seq<u32>,
    seq: Seq<u32>,
    rows: Seq<u32>,
    kinds: Seq<u32>,
    i: int,
)
    requires
        0 <= i < h.len(),
        at.of(bucket),
        counts.len() == 4,
        b.ids@.len() <= bucket.tokens,
        pos.len() == b.ids@.len(),
        seq.len() == b.ids@.len(),
        b.cu@.len() <= bucket.seqs + 1,
        b.mcu@.len() <= bucket.seqs + 1,
        rows.len() <= bucket.markers,
        kinds.len() <= bucket.seqs,
    ensures
        layered(h, at, counts, b, pos, seq, rows, kinds)[i] == if i < 4 {
            counts[i]
        } else if at.ids <= i < at.ids + b.ids@.len() {
            b.ids@[i - at.ids]
        } else if at.pos <= i < at.pos + pos.len() {
            pos[i - at.pos]
        } else if at.seq <= i < at.seq + seq.len() {
            seq[i - at.seq]
        } else if at.cu <= i < at.cu + b.cu@.len() {
            b.cu@[i - at.cu]
        } else if at.mcu <= i < at.mcu + b.mcu@.len() {
            b.mcu@[i - at.mcu]
        } else if at.mrow <= i < at.mrow + rows.len() {
            rows[i - at.mrow]
        } else if at.qtype <= i < at.qtype + kinds.len() {
            kinds[i - at.qtype]
        } else {
            h[i]
        },
{
    reveal(layered);
    let h1 = overlay(h, 0, counts);
    overlay_at(h, 0, counts, i);
    let h2 = overlay(h1, at.ids as int, b.ids@);
    overlay_at(h1, at.ids as int, b.ids@, i);
    let h3 = overlay(h2, at.cu as int, b.cu@);
    overlay_at(h2, at.cu as int, b.cu@, i);
    let h4 = overlay(h3, at.mcu as int, b.mcu@);
    overlay_at(h3, at.mcu as int, b.mcu@, i);
    let h5 = overlay(h4, at.pos as int, pos);
    overlay_at(h4, at.pos as int, pos, i);
    let h6 = overlay(h5, at.seq as int, seq);
    overlay_at(h5, at.seq as int, seq, i);
    let h7 = overlay(h6, at.mrow as int, rows);
    overlay_at(h6, at.mrow as int, rows, i);
    overlay_at(h7, at.qtype as int, kinds, i);
}

/// Each token's position in its sequence, and its sequence.
fn token_tables(b: &Batch) -> (r: (Vec<u32>, Vec<u32>))
    requires
        b.wf(),
        b.ids@.len() <= u32::MAX,
        b.count() < u32::MAX,
    ensures
        r.0@.len() == b.ids@.len(),
        r.1@.len() == b.ids@.len(),
        forall|q: int, k: int|
            #[trigger] seq_of(b.cu@, q, k) ==> r.0@[k] == k - b.cu@[q] && r.1@[k] == q,
{
    let mut pos: Vec<u32> = Vec::new();
    let mut seq: Vec<u32> = Vec::new();
    let s: usize = b.seqs();
    let mut q: usize = 0;
    while q < s
        invariant
            q <= s == b.count(),
            s < u32::MAX,
            b.wf(),
            b.ids@.len() <= u32::MAX,
            pos@.len() == b.cu@[q as int],
            seq@.len() == pos@.len(),
            forall|p: int, k: int|
                #[trigger] seq_of(b.cu@, p, k) && p < q ==> pos@[k] == k - b.cu@[p] && seq@[k] == p,
        decreases s - q,
    {
        let lo: u32 = b.cu[q];
        let hi: u32 = b.cu[q + 1];
        assert(b.cu@[q as int] <= b.cu@[q + 1]);
        let ghost pos0 = pos@;
        let ghost seq0 = seq@;
        let mut r: u32 = lo;
        while r < hi
            invariant
                lo <= r <= hi,
                q < s < u32::MAX,
                pos@.len() == r,
                seq@.len() == r,
                pos0.len() == lo,
                seq0.len() == lo,
                forall|k: int|
                    0 <= k < r ==> #[trigger] pos@[k] == if k < lo {
                        pos0[k] as int
                    } else {
                        k - lo
                    },
                forall|k: int|
                    0 <= k < r ==> #[trigger] seq@[k] == if k < lo {
                        seq0[k] as int
                    } else {
                        q as int
                    },
            decreases hi - r,
        {
            pos.push(r - lo);
            seq.push(q as u32);
            r += 1;
        }
        assert forall|p: int, k: int| #[trigger] seq_of(b.cu@, p, k) && p < q + 1 implies pos@[k]
            == k - b.cu@[p] && seq@[k] == p by {
            assert(0 <= b.cu@[p]);
            if p < q {
                assert(b.cu@[p + 1] <= b.cu@[q as int]);
            }
        }
        q += 1;
    }
    (pos, seq)
}

/// The token row of each marker.
fn marker_table(b: &Batch) -> (r: Vec<u32>)
    requires
        b.wf(),
        b.ids@.len() <= u32::MAX,
    ensures
        r@.len() == b.markers@.len(),
        forall|q: int, k: int|
            #[trigger] seq_of(b.mcu@, q, k) ==> r@[k] == b.cu@[q] + b.markers@[k],
{
    let mut rows: Vec<u32> = Vec::new();
    let s: usize = b.seqs();
    let mut q: usize = 0;
    while q < s
        invariant
            q <= s == b.count(),
            b.wf(),
            b.ids@.len() <= u32::MAX,
            rows@.len() == b.mcu@[q as int],
            forall|p: int, k: int|
                #[trigger] seq_of(b.mcu@, p, k) && p < q ==> rows@[k] == b.cu@[p] + b.markers@[k],
        decreases s - q,
    {
        let lo: u32 = b.mcu[q];
        let hi: u32 = b.mcu[q + 1];
        assert(b.mcu@[q as int] <= b.mcu@[q + 1] <= b.mcu@[s as int]);
        let first: u32 = b.cu[q];
        let ghost rows0 = rows@;
        let mut k: u32 = lo;
        while k < hi
            invariant
                lo <= k <= hi <= b.markers@.len(),
                q < s == b.count(),
                b.wf(),
                lo == b.mcu@[q as int],
                hi == b.mcu@[q + 1],
                first == b.cu@[q as int],
                rows@.len() == k,
                rows0.len() == lo,
                forall|i: int|
                    0 <= i < k ==> #[trigger] rows@[i] == if i < lo {
                        rows0[i] as int
                    } else {
                        first + b.markers@[i]
                    },
            decreases hi - k,
        {
            assert(b.cu@[q as int] + b.markers@[k as int] < b.cu@[q + 1]);
            rows.push(first + b.markers[k as usize]);
            k += 1;
        }
        assert forall|p: int, k: int| #[trigger] seq_of(b.mcu@, p, k) && p < q + 1 implies rows@[k]
            == b.cu@[p] + b.markers@[k] by {
            assert(0 <= b.mcu@[p]);
            if p < q {
                assert(b.mcu@[p + 1] <= b.mcu@[q as int]);
            }
        }
        q += 1;
    }
    rows
}

/// The question types as table elements.
fn type_table(b: &Batch) -> (r: Vec<u32>)
    ensures
        r@.len() == b.qtype@.len(),
        forall|q: int| 0 <= q < r@.len() ==> r@[q] == #[trigger] b.qtype@[q],
{
    let mut r: Vec<u32> = Vec::new();
    let mut q: usize = 0;
    while q < b.qtype.len()
        invariant
            q <= b.qtype@.len(),
            r@.len() == q,
            forall|k: int| 0 <= k < q ==> r@[k] == #[trigger] b.qtype@[k],
        decreases b.qtype@.len() - q,
    {
        r.push(b.qtype[q] as u32);
        q += 1;
    }
    r
}

/// Writes a batch into the index tables, and leaves every other element as it was.
pub fn fill(h: &mut Vec<u32>, at: Index, bucket: Bucket, b: &Batch)
    requires
        at.of(bucket),
        old(h)@.len() == at.len,
        b.wf(),
        bucket.spec_holds(b.ids@.len() as int, b.count(), b.markers@.len() as int),
        b.ids@.len() <= u32::MAX,
        b.count() < u32::MAX,
        b.markers@.len() <= u32::MAX,
    ensures
        final(h)@.len() == old(h)@.len(),
        filled(final(h)@, at, b),
        forall|i: int|
            0 <= i < old(h)@.len() && !set_by(at, b, i) ==> #[trigger] final(h)@[i] == old(h)@[i],
{
    let ghost start = h@;
    let (t, s, m): (usize, usize, usize) = (b.ids.len(), b.seqs(), b.markers.len());
    let (pos, seq) = token_tables(b);
    let rows = marker_table(b);
    let kinds = type_table(b);
    let counts: Vec<u32> = vec![t as u32, s as u32, m as u32, 0];
    copy_in(h, 0, &counts);
    copy_in(h, at.ids, &b.ids);
    copy_in(h, at.cu, &b.cu);
    copy_in(h, at.mcu, &b.mcu);
    copy_in(h, at.pos, &pos);
    copy_in(h, at.seq, &seq);
    copy_in(h, at.mrow, &rows);
    copy_in(h, at.qtype, &kinds);
    proof {
        reveal(layered);
        assert forall|q: int, k: int| #[trigger] seq_of(b.cu@, q, k) implies 0 <= k < t by {
            rows_within(b.cu@, t as int, q, k);
        }
        assert forall|q: int, k: int| #[trigger] seq_of(b.mcu@, q, k) implies 0 <= k < m by {
            rows_within(b.mcu@, m as int, q, k);
        }
        assert(h@ == layered(start, at, counts@, b, pos@, seq@, rows@, kinds@));
        fill_holds(start, at, bucket, counts@, b, pos@, seq@, rows@, kinds@);
    }
}

/// A row of a sequence is a row of the batch.
proof fn rows_within(cu: Seq<u32>, end: int, q: int, r: int)
    requires
        bounds(cu, end),
        seq_of(cu, q, r),
    ensures
        0 <= r < end,
{
    assert(cu[q + 1] <= cu[cu.len() - 1]);
}

/// The layers hold the batch.
proof fn fill_holds(
    start: Seq<u32>,
    at: Index,
    bucket: Bucket,
    counts: Seq<u32>,
    b: &Batch,
    pos: Seq<u32>,
    seq: Seq<u32>,
    rows: Seq<u32>,
    kinds: Seq<u32>,
)
    requires
        at.of(bucket),
        start.len() == at.len,
        b.cu@.len() == b.count() + 1,
        b.mcu@.len() == b.count() + 1,
        bucket.spec_holds(b.ids@.len() as int, b.count(), b.markers@.len() as int),
        counts.len() == 4,
        counts[0] == b.ids@.len(),
        counts[1] == b.count(),
        counts[2] == b.markers@.len(),
        counts[3] == 0,
        pos.len() == b.ids@.len(),
        seq.len() == b.ids@.len(),
        rows.len() == b.markers@.len(),
        kinds.len() == b.count(),
        forall|q: int, k: int|
            #[trigger] seq_of(b.cu@, q, k) ==> 0 <= k < pos.len() && pos[k] == k - b.cu@[q]
                && seq[k] == q,
        forall|q: int, k: int|
            #[trigger] seq_of(b.mcu@, q, k) ==> 0 <= k < rows.len() && rows[k] == b.cu@[q]
                + b.markers@[k],
        forall|q: int| 0 <= q < kinds.len() ==> kinds[q] == #[trigger] b.qtype@[q],
    ensures
        filled(layered(start, at, counts, b, pos, seq, rows, kinds), at, b),
        forall|i: int|
            0 <= i < start.len() && !set_by(at, b, i) ==> #[trigger] layered(
                start,
                at,
                counts,
                b,
                pos,
                seq,
                rows,
                kinds,
            )[i] == start[i],
{
    let h = layered(start, at, counts, b, pos, seq, rows, kinds);
    let (t, s, m) = (b.ids@.len() as int, b.count(), b.markers@.len() as int);
    assert forall|i: int| 0 <= i < start.len() && !set_by(at, b, i) implies #[trigger] h[i]
        == start[i] by {
        layered_at(start, at, bucket, counts, b, pos, seq, rows, kinds, i);
    }
    layered_at(start, at, bucket, counts, b, pos, seq, rows, kinds, 0);
    layered_at(start, at, bucket, counts, b, pos, seq, rows, kinds, 1);
    layered_at(start, at, bucket, counts, b, pos, seq, rows, kinds, 2);
    layered_at(start, at, bucket, counts, b, pos, seq, rows, kinds, 3);
    assert forall|r: int| 0 <= r < t implies h[at.ids + r] == #[trigger] b.ids@[r] by {
        layered_at(start, at, bucket, counts, b, pos, seq, rows, kinds, at.ids + r);
    }
    assert forall|q: int| 0 <= q <= s implies h[at.cu + q] == #[trigger] b.cu@[q] by {
        layered_at(start, at, bucket, counts, b, pos, seq, rows, kinds, at.cu + q);
    }
    assert forall|q: int| 0 <= q <= s implies h[at.mcu + q] == #[trigger] b.mcu@[q] by {
        layered_at(start, at, bucket, counts, b, pos, seq, rows, kinds, at.mcu + q);
    }
    assert forall|q: int, r: int| #[trigger] seq_of(b.cu@, q, r) implies h[at.pos + r] == r
        - b.cu@[q] && h[at.seq + r] == q by {
        layered_at(start, at, bucket, counts, b, pos, seq, rows, kinds, at.pos + r);
        layered_at(start, at, bucket, counts, b, pos, seq, rows, kinds, at.seq + r);
    }
    assert forall|q: int, k: int| #[trigger] seq_of(b.mcu@, q, k) implies h[at.mrow + k] == b.cu@[q]
        + b.markers@[k] by {
        layered_at(start, at, bucket, counts, b, pos, seq, rows, kinds, at.mrow + k);
    }
    assert forall|q: int| 0 <= q < s implies h[at.qtype + q] == #[trigger] b.qtype@[q] by {
        layered_at(start, at, bucket, counts, b, pos, seq, rows, kinds, at.qtype + q);
    }
}

/// Whether the last launch of a step writes `out`, is handed the addresses it reads, and has a
/// block for every `per` of its rows and none to spare.
pub open spec fn told(v: Seq<Shown>, out: u64, reads: Seq<u64>, rows: int, per: int) -> bool {
    &&& v.len() > 0
    &&& v.last() matches Shown::Run(_, args, x, _, _) && args.len() > 0 && args[0] == Arg::Ptr(out)
        && (forall|i: int|
        0 <= i < reads.len() ==> args.contains(Arg::Ptr(#[trigger] reads[i]))) && rows <= x * per
        < rows + per
}

/// A launch is handed what its step reads and writes, with the counts and the tables of the batch
/// that it goes by, and has blocks for all rows that the step makes.
pub proof fn a_launch_is_told_its_step(b: Bucket, p: Ptrs, stage: u64, step: Step)
    ensures
        ({
            let v = launches(b, p, stage, step);
            match step {
                Step::Embed { table, out } => told(
                    v,
                    out.ptr,
                    seq![table, p.ids, p.n],
                    b.tokens as int,
                    1,
                ),
                Step::LayerNorm { x, w, b: bias, out, .. } => told(
                    v,
                    out.ptr,
                    seq![x.ptr, w, bias, p.n],
                    b.spec_rows(x.rows) as int,
                    4,
                ),
                Step::ToHalf { from, len } => len <= 256 * 65535 ==> told(
                    v,
                    stage,
                    seq![from],
                    len as int,
                    256,
                ),
                Step::Gemm { gemm, b: bias, act, out } => v.len() > 0 && v[0] == Shown::Product(
                    gemm as int,
                ) && (if bias == 0 && act == 0 {
                    v.len() == 1
                } else {
                    told(v, out.ptr, seq![bias, p.n], b.spec_rows(out.rows) as int, 1)
                }),
                Step::Rope { qkv, cos, sin } => told(
                    v,
                    qkv.ptr,
                    seq![cos, sin, p.pos, p.n],
                    b.tokens as int,
                    1,
                ),
                Step::Attention { qkv, cos, sin, out, .. } => told(
                    v,
                    out.ptr,
                    seq![qkv.ptr, cos, sin, p.pos, p.seq, p.cu, p.n],
                    b.tokens as int,
                    16,
                ),
                Step::GeGlu { x, out } => told(
                    v,
                    out.ptr,
                    seq![x.ptr, p.n],
                    b.tokens as int,
                    1,
                ),
                Step::AddType { h, table } => told(
                    v,
                    h.ptr,
                    seq![table, p.seq, p.qtype, p.n],
                    b.tokens as int,
                    1,
                ),
                Step::Gather { h, out } => told(
                    v,
                    out.ptr,
                    seq![h.ptr, p.mrow, p.n],
                    b.markers as int,
                    1,
                ),
                Step::ActFeatures { h, logits, out } => told(
                    v,
                    out.ptr,
                    seq![h.ptr, logits.ptr, p.cu, p.mcu, p.n],
                    b.seqs as int,
                    1,
                ),
            }
        }),
{
    let v = launches(b, p, stage, step);
    if let Shown::Run(_, args, _, _, _) = v.last() {
        assert forall|i: int| 0 <= i < args.len() implies args.contains(#[trigger] args[i]) by {}
        match step {
            Step::Embed { .. } => {
                assert(args.contains(args[1]) && args.contains(args[2]));
                assert(args.contains(args[3]));
            },
            Step::LayerNorm { .. } => {
                assert(args.contains(args[1]) && args.contains(args[2]));
                assert(args.contains(args[3]) && args.contains(args[4]));
            },
            Step::ToHalf { .. } => {
                assert(args.contains(args[1]));
            },
            Step::Gemm { .. } => {
                assert(args.contains(args[1]) && args.contains(args[2]));
            },
            Step::Rope { .. } => {
                assert(args.contains(args[1]) && args.contains(args[2]));
                assert(args.contains(args[3]) && args.contains(args[4]));
            },
            Step::Attention { .. } => {
                assert(args.contains(args[1]) && args.contains(args[2]));
                assert(args.contains(args[3]) && args.contains(args[4]));
                assert(args.contains(args[5]) && args.contains(args[6]));
                assert(args.contains(args[7]));
            },
            Step::GeGlu { .. } => {
                assert(args.contains(args[1]) && args.contains(args[2]));
            },
            Step::AddType { .. } => {
                assert(args.contains(args[1]) && args.contains(args[2]));
                assert(args.contains(args[3]) && args.contains(args[4]));
            },
            Step::Gather { .. } => {
                assert(args.contains(args[1]) && args.contains(args[2]));
                assert(args.contains(args[3]));
            },
            Step::ActFeatures { .. } => {
                assert(args.contains(args[1]) && args.contains(args[2]));
                assert(args.contains(args[3]) && args.contains(args[4]));
                assert(args.contains(args[5]));
            },
        }
    }
}

} // verus!
