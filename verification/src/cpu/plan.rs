//! Graphs lowered to a list of steps over one arena.
//!
//! Lowering resolves every value to an arena offset and every rope base to its table, and checks
//! every shape, so running a step is a match and a call.

use crate::cpu::{attention, qgemm};
use crate::cpu::attention::round_up;
use crate::cpu::compat::Term;
use crate::graph::{
    after_product, no_weight, no_weight_text, op_message, op_text, place, place_is_first, place_unique, thetas,
    thetas_are_the_ropes, thetas_grow, Bucket, Epilogue, Graph, Layout, Op, Rows, Val, HEAD,
};
use crate::times::{by_name, grouped, named, names_of, paired, sorted_from, total};
use vstd::prelude::*;

verus! {

/// What lowering reads of a weight.
#[derive(Debug)]
pub struct Weight {
    /// Shape.
    pub shape: Vec<usize>,
    /// Whether it was packed for FP32 products.
    pub packed: bool,
    /// Whether it was rounded for INT8 products.
    pub quant: bool,
}

/// A value resolved to its place in the arena.
#[derive(Debug, Clone, Copy, PartialEq, Eq, Structural)]
pub struct Loc {
    /// The first element.
    pub off: usize,
    /// What its rows are.
    pub rows: Rows,
    /// Values per row.
    pub width: usize,
}

/// One step of a plan.
#[derive(Debug, Clone, Copy, PartialEq, Eq, Structural)]
pub enum Step {
    /// Table rows picked by token id.
    Embed { table: usize, out: Loc },
    /// Layer norm.
    LayerNorm { x: Loc, w: usize, b: Option<usize>, eps: u64, out: Loc },
    /// A matrix product in FP32.
    Gemm { a: Loc, w: usize, b: Option<usize>, ep: Epilogue, out: Loc },
    /// A matrix product in INT8.
    Gemm8 { a: Loc, w: usize, b: Option<usize>, ep: Epilogue, out: Loc },
    /// Rotary positions with one of the plan's tables.
    Rope { qkv: Loc, rope: usize },
    /// Self attention.
    Attention { qkv: Loc, window: Option<usize>, out: Loc },
    /// The gated activation.
    GeGlu { x: Loc, out: Loc },
    /// The question type's row added.
    AddType { h: Loc, table: usize },
    /// The token rows at the markers.
    Gather { h: Loc, out: Loc },
    /// The act head's input rows.
    ActFeatures { h: Loc, logits: Loc, out: Loc },
}

impl Step {
    /// The kind of step.
    pub open spec fn spec_name(self) -> Seq<char> {
        match self {
            Step::Embed { .. } => "embed"@,
            Step::LayerNorm { .. } => "layer norm"@,
            Step::Gemm { .. } => "gemm"@,
            Step::Gemm8 { .. } => "gemm int8"@,
            Step::Rope { .. } => "rope"@,
            Step::Attention { .. } => "attention"@,
            Step::GeGlu { .. } => "geglu"@,
            Step::AddType { .. } => "type embedding"@,
            Step::Gather { .. } => "gather markers"@,
            Step::ActFeatures { .. } => "act features"@,
        }
    }

    /// The kind of step.
    pub fn name(&self) -> (r: &'static str)
        ensures
            r@ == self.spec_name(),
    {
        match self {
            Step::Embed { .. } => "embed",
            Step::LayerNorm { .. } => "layer norm",
            Step::Gemm { .. } => "gemm",
            Step::Gemm8 { .. } => "gemm int8",
            Step::Rope { .. } => "rope",
            Step::Attention { .. } => "attention",
            Step::GeGlu { .. } => "geglu",
            Step::AddType { .. } => "type embedding",
            Step::Gather { .. } => "gather markers",
            Step::ActFeatures { .. } => "act features",
        }
    }

    /// Where the step writes.
    pub open spec fn spec_out(self) -> Loc {
        match self {
            Step::Embed { out, .. } => out,
            Step::LayerNorm { out, .. } => out,
            Step::Gemm { out, .. } => out,
            Step::Gemm8 { out, .. } => out,
            Step::Attention { out, .. } => out,
            Step::GeGlu { out, .. } => out,
            Step::Gather { out, .. } => out,
            Step::ActFeatures { out, .. } => out,
            Step::Rope { qkv, .. } => qkv,
            Step::AddType { h, .. } => h,
        }
    }

    /// Where the step writes.
    pub fn out(&self) -> (r: Loc)
        ensures
            r == self.spec_out(),
    {
        match *self {
            Step::Embed { out, .. } => out,
            Step::LayerNorm { out, .. } => out,
            Step::Gemm { out, .. } => out,
            Step::Gemm8 { out, .. } => out,
            Step::Attention { out, .. } => out,
            Step::GeGlu { out, .. } => out,
            Step::Gather { out, .. } => out,
            Step::ActFeatures { out, .. } => out,
            Step::Rope { qkv, .. } => qkv,
            Step::AddType { h, .. } => h,
        }
    }
}

/// A graph lowered for one bucket.
#[derive(Debug)]
pub struct CpuPlan {
    /// The bucket it was built for.
    pub bucket: Bucket,
    /// The steps, in order.
    pub steps: Vec<Step>,
    /// Elements of the arena.
    pub arena_len: usize,
    /// The bits of the theta of each rope table.
    pub ropes: Vec<u64>,
    /// Floats of scratch a worker needs.
    pub scratch: usize,
    /// The option logits.
    pub logits: Loc,
    /// The act logits.
    pub act: Loc,
    /// Nanoseconds per step, summed over runs, when profiling.
    pub profile: Option<Vec<u64>>,
    /// What every step wrote in the last run, when that is kept.
    pub dumps: Option<Vec<Dump>>,
}

/// What one step wrote in one run, from [`CpuPlan::dumps`].
#[derive(Debug)]
pub struct Dump {
    /// The kind of step.
    pub name: &'static str,
    /// Whether the rows are tokens, sequences or markers.
    pub rows: Rows,
    /// Values per row.
    pub width: usize,
    /// The bits of the live rows, row major.
    pub data: Vec<u32>,
}

/// The CPU backend's settings.
#[derive(Debug, Clone, Copy, PartialEq, Eq, Structural)]
pub struct CpuBackend {
    /// Threads, the calling thread counted.
    pub threads: usize,
    /// Whether the products over token rows run in INT8.
    pub int8: bool,
}

/// The place of a value.
pub open spec fn loc_of(g: &Graph, lay: &Layout, v: Val) -> Loc {
    Loc {
        off: lay.offsets@[v.0 as int],
        rows: g.spec_shape(v).rows,
        width: g.spec_shape(v).width,
    }
}

/// The message when `bias` is named but missing.
pub open spec fn bias_missing(w: Seq<Weight>, bias: Option<usize>) -> Option<Seq<char>> {
    match bias {
        Some(b) if b >= w.len() => Some(no_weight_text(b as int)),
        _ => None,
    }
}

/// There is no bias, or it is a vector of `width`.
pub open spec fn bias_fits(w: Seq<Weight>, bias: Option<usize>, width: usize) -> bool {
    bias matches Some(b) ==> w[b as int].shape@ == seq![width]
}

/// A table of rows of `width`.
pub open spec fn table_fits(w: Seq<Weight>, table: usize, width: usize) -> bool {
    w[table as int].shape@.len() > 1 && w[table as int].shape@[1] == width
}

/// Whether a shape is `[a]`.
fn is_vector(s: &Vec<usize>, a: usize) -> (r: bool)
    ensures
        r == (s@ == seq![a]),
{
    let r = s.len() == 1 && s[0] == a;
    assert(r ==> s@ =~= seq![a]);
    r
}

/// Whether a shape is `[a, b]`.
fn is_matrix(s: &Vec<usize>, a: usize, b: usize) -> (r: bool)
    ensures
        r == (s@ == seq![a, b]),
{
    let r = s.len() == 2 && s[0] == a && s[1] == b;
    assert(r ==> s@ =~= seq![a, b]);
    assert(s@ == seq![a, b] ==> s@[0] == a && s@[1] == b);
    r
}

/// Whether a bias fits, or the message when it is missing.
fn check_bias(w: &Vec<Weight>, bias: Option<usize>, width: usize) -> (r: Result<bool, String>)
    ensures
        match r {
            Err(e) => bias_missing(w@, bias) == Some(e@),
            Ok(t) => bias_missing(w@, bias) is None && t == bias_fits(w@, bias, width),
        },
{
    match bias {
        None => Ok(true),
        Some(b) => {
            if b >= w.len() {
                Err(no_weight(b))
            } else {
                Ok(is_vector(&w[b].shape, width))
            }
        },
    }
}

/// A whole number of heads for q, k and v.
pub open spec fn three_heads(width: usize) -> bool {
    width % 192 == 0
}

impl CpuBackend {
    /// A backend on `threads` threads, the calling thread counted, and on one at least.
    pub fn new(threads: usize) -> (r: Self)
        ensures
            r.threads == if threads == 0 {
                1
            } else {
                threads
            },
            !r.int8,
    {
        CpuBackend {
            threads: if threads == 0 {
                1
            } else {
                threads
            },
            int8: false,
        }
    }

    /// The same backend with the products over token rows in INT8 when `on`.
    pub fn with_int8(self, on: bool) -> (r: Self)
        ensures
            r == (CpuBackend { int8: on, ..self }),
    {
        CpuBackend { threads: self.threads, int8: on }
    }

    /// Whether the products over token rows run in INT8.
    pub fn int8(&self) -> (r: bool)
        ensures
            r == self.int8,
    {
        self.int8
    }

    /// Threads.
    pub fn threads(&self) -> (r: usize)
        ensures
            r == self.threads,
    {
        self.threads
    }

    /// Whether a product reading these rows runs in INT8.
    pub open spec fn spec_int8_rows(self, rows: Rows) -> bool {
        self.int8 && rows == Rows::Tokens
    }

    /// Whether a product reading these rows runs in INT8.
    pub fn int8_rows(&self, rows: Rows) -> (r: bool)
        ensures
            r == self.spec_int8_rows(rows),
    {
        self.int8 && matches!(rows, Rows::Tokens)
    }

    /// Why operation `i` cannot be lowered, if it cannot.
    pub open spec fn refusal(self, w: Seq<Weight>, g: &Graph, i: int) -> Option<Seq<char>> {
        match g.ops@[i] {
            Op::Embed { table, out } => {
                let out = g.spec_shape(out);
                if table >= w.len() {
                    Some(no_weight_text(table as int))
                } else if !table_fits(w, table, out.width) || out.rows != Rows::Tokens {
                    Some(op_text(i, "embedding table does not match its output"@))
                } else {
                    None
                }
            },
            Op::LayerNorm { x, w: nw, b, out, .. } => {
                let (x, out) = (g.spec_shape(x), g.spec_shape(out));
                if nw >= w.len() {
                    Some(no_weight_text(nw as int))
                } else if w[nw as int].shape@ != seq![x.width] {
                    Some(op_text(i, "layer norm shapes do not match"@))
                } else if bias_missing(w, b) is Some {
                    bias_missing(w, b)
                } else if !bias_fits(w, b, x.width) || x != out {
                    Some(op_text(i, "layer norm shapes do not match"@))
                } else {
                    None
                }
            },
            Op::Gemm { a, w: gw, b, out, .. } => {
                let (a, out) = (g.spec_shape(a), g.spec_shape(out));
                if gw >= w.len() {
                    Some(no_weight_text(gw as int))
                } else if w[gw as int].shape@ != seq![out.width, a.width] {
                    Some(op_text(i, "gemm shapes do not match"@))
                } else if bias_missing(w, b) is Some {
                    bias_missing(w, b)
                } else if !bias_fits(w, b, out.width) || a.rows != out.rows {
                    Some(op_text(i, "gemm shapes do not match"@))
                } else if self.spec_int8_rows(a.rows) && !w[gw as int].quant {
                    Some(
                        op_text(
                            i,
                            "gemm weight "@ + crate::text::dec(gw as nat) + " was not rounded"@,
                        ),
                    )
                } else if !self.spec_int8_rows(a.rows) && !w[gw as int].packed && a.width > 0
                    && out.width > 0 {
                    Some(
                        op_text(
                            i,
                            "gemm weight "@ + crate::text::dec(gw as nat) + " was not packed"@,
                        ),
                    )
                } else {
                    None
                }
            },
            Op::Rope { qkv, .. } => {
                let qkv = g.spec_shape(qkv);
                if !three_heads(qkv.width) || qkv.rows != Rows::Tokens {
                    Some(op_text(i, "rope needs token rows of 3 heads 64"@))
                } else {
                    None
                }
            },
            Op::Attention { qkv, out, .. } => {
                let (qkv, out) = (g.spec_shape(qkv), g.spec_shape(out));
                if !three_heads(qkv.width) || out.width * 3 != qkv.width || qkv.rows != Rows::Tokens
                    || out.rows != Rows::Tokens {
                    Some(op_text(i, "attention shapes do not match"@))
                } else {
                    None
                }
            },
            Op::GeGlu { x, out } => {
                let (x, out) = (g.spec_shape(x), g.spec_shape(out));
                if x.width != 2 * out.width || x.rows != out.rows {
                    Some(op_text(i, "geglu input is not twice its output"@))
                } else {
                    None
                }
            },
            Op::AddType { h, table } => {
                let h = g.spec_shape(h);
                if table >= w.len() {
                    Some(no_weight_text(table as int))
                } else if !table_fits(w, table, h.width) || h.rows != Rows::Tokens {
                    Some(op_text(i, "type table does not match"@))
                } else {
                    None
                }
            },
            Op::GatherMarkers { h, out } => {
                let (h, out) = (g.spec_shape(h), g.spec_shape(out));
                if h.width != out.width || h.rows != Rows::Tokens || out.rows != Rows::Markers {
                    Some(op_text(i, "gather shapes do not match"@))
                } else {
                    None
                }
            },
            Op::ActFeatures { h, logits, out } => {
                let (h, logits, out) = (g.spec_shape(h), g.spec_shape(logits), g.spec_shape(out));
                if out.width != h.width + 4 || logits.width != 1 || logits.rows != Rows::Markers
                    || out.rows != Rows::Seqs {
                    Some(op_text(i, "act feature shapes do not match"@))
                } else {
                    None
                }
            },
            Op::MeanPool { .. } => Some(op_text(i, "mean pool is not on the CPU yet"@)),
        }
    }

    /// Why the first of the first `n` operations that cannot be lowered cannot.
    pub open spec fn first_refusal(self, w: Seq<Weight>, g: &Graph, n: int) -> Option<Seq<char>>
        decreases n,
    {
        if n <= 0 {
            None
        } else {
            match self.first_refusal(w, g, n - 1) {
                Some(m) => Some(m),
                None => self.refusal(w, g, n - 1),
            }
        }
    }

    /// Why a graph cannot be lowered, if it cannot: its first refused operation, or its outputs.
    pub open spec fn lower_refusal(self, w: Seq<Weight>, g: &Graph) -> Option<Seq<char>> {
        match self.first_refusal(w, g, g.ops@.len() as int) {
            Some(m) => Some(m),
            None => match (g.logits, g.act) {
                (Some(l), Some(a)) => if g.spec_shape(l).width != 1 || g.spec_shape(l).rows
                    != Rows::Markers || g.spec_shape(a).width != 2 || g.spec_shape(a).rows
                    != Rows::Seqs {
                    Some(
                        "outputs must be one logit per marker and two act logits per sequence"@,
                    )
                } else {
                    None
                },
                _ => Some("the graph has no logits or act output"@),
            },
        }
    }

    /// What operation `i` becomes.
    pub open spec fn step_of(self, g: &Graph, lay: &Layout, i: int) -> Step {
        match g.ops@[i] {
            Op::Embed { table, out } => Step::Embed { table, out: loc_of(g, lay, out) },
            Op::LayerNorm { x, w, b, eps, out } => Step::LayerNorm {
                x: loc_of(g, lay, x),
                w,
                b,
                eps,
                out: loc_of(g, lay, out),
            },
            Op::Gemm { a, w, b, epilogue, out } => if self.spec_int8_rows(g.spec_shape(a).rows) {
                Step::Gemm8 {
                    a: loc_of(g, lay, a),
                    w,
                    b,
                    ep: epilogue,
                    out: loc_of(g, lay, out),
                }
            } else {
                Step::Gemm { a: loc_of(g, lay, a), w, b, ep: epilogue, out: loc_of(g, lay, out) }
            },
            Op::Rope { qkv, theta } => Step::Rope {
                qkv: loc_of(g, lay, qkv),
                rope: place(thetas(g.ops@, g.ops@.len() as int), theta) as usize,
            },
            Op::Attention { qkv, window, out } => Step::Attention {
                qkv: loc_of(g, lay, qkv),
                window,
                out: loc_of(g, lay, out),
            },
            Op::GeGlu { x, out } => Step::GeGlu { x: loc_of(g, lay, x), out: loc_of(g, lay, out) },
            Op::AddType { h, table } => Step::AddType { h: loc_of(g, lay, h), table },
            Op::GatherMarkers { h, out } => Step::Gather {
                h: loc_of(g, lay, h),
                out: loc_of(g, lay, out),
            },
            Op::ActFeatures { h, logits, out } => Step::ActFeatures {
                h: loc_of(g, lay, h),
                logits: loc_of(g, lay, logits),
                out: loc_of(g, lay, out),
            },
            Op::MeanPool { .. } => arbitrary(),
        }
    }

    /// Floats of scratch that operation `i` asks for, with what FP32 products ask for given.
    pub open spec fn need(self, g: &Graph, fp32: Seq<usize>, i: int) -> int {
        match g.ops@[i] {
            Op::Gemm { a, .. } => if self.spec_int8_rows(g.spec_shape(a).rows) {
                16 * round_up(g.spec_shape(a).width as int, 8) + 64
            } else {
                fp32[i] as int
            },
            _ => 0,
        }
    }

    /// The most scratch that attention or one of the first `n` operations asks for.
    pub open spec fn most_scratch(self, g: &Graph, b: Bucket, fp32: Seq<usize>, n: int) -> int
        decreases n,
    {
        if n <= 0 {
            4 * round_up(b.tokens as int, 4)
        } else {
            let before = self.most_scratch(g, b, fp32, n - 1);
            let x = self.need(g, fp32, n - 1);
            if before > x {
                before
            } else {
                x
            }
        }
    }

    /// A refused operation stays the first one.
    proof fn refusal_stays(self, w: Seq<Weight>, g: &Graph, m: int, n: int)
        requires
            0 <= m <= n,
            self.first_refusal(w, g, m) is Some,
        ensures
            self.first_refusal(w, g, n) == self.first_refusal(w, g, m),
        decreases n - m,
    {
        if m < n {
            self.refusal_stays(w, g, m, n - 1);
        }
    }

    /// The step of one operation whose shapes are right, or why they are not.
    #[verifier::rlimit(60)]
    fn lower_op(
        &self,
        w: &Vec<Weight>,
        g: &Graph,
        lay: &Layout,
        i: usize,
        rope: usize,
    ) -> (r: Result<Step, String>)
        requires
            g.wf(),
            lay.offsets@.len() == g.vals@.len(),
            i < g.ops@.len(),
        ensures
            match r {
                Err(e) => self.refusal(w@, g, i as int) == Some(e@),
                Ok(s) => self.refusal(w@, g, i as int) is None && match g.ops@[i as int] {
                    Op::Rope { qkv, .. } => s == (Step::Rope { qkv: loc_of(g, lay, qkv), rope }),
                    _ => s == self.step_of(g, lay, i as int),
                },
            },
    {
        proof {
            g.wf_op(i as int);
        }
        match g.ops[i] {
            Op::Embed { table, out } => {
                let out = loc(g, lay, out);
                if table >= w.len() {
                    return Err(no_weight(table));
                }
                if w[table].shape.len() <= 1 || w[table].shape[1] != out.width || !is_tokens(
                    out.rows,
                ) {
                    return Err(op_message(i, "embedding table does not match its output"));
                }
                Ok(Step::Embed { table, out })
            },
            Op::LayerNorm { x, w: nw, b, eps, out } => {
                let x = loc(g, lay, x);
                let out = loc(g, lay, out);
                if nw >= w.len() {
                    return Err(no_weight(nw));
                }
                let ok = is_vector(&w[nw].shape, x.width) && check_bias(w, b, x.width)? && x.width
                    == out.width && x.rows == out.rows;
                if !ok {
                    return Err(op_message(i, "layer norm shapes do not match"));
                }
                Ok(Step::LayerNorm { x, w: nw, b, eps, out })
            },
            Op::Gemm { a, w: gw, b, epilogue, out } => {
                let a = loc(g, lay, a);
                let out = loc(g, lay, out);
                if gw >= w.len() {
                    return Err(no_weight(gw));
                }
                let ok = is_matrix(&w[gw].shape, out.width, a.width) && check_bias(
                    w,
                    b,
                    out.width,
                )? && a.rows == out.rows;
                if !ok {
                    return Err(op_message(i, "gemm shapes do not match"));
                }
                if self.int8_rows(a.rows) {
                    if !w[gw].quant {
                        let mut tail = "gemm weight ".to_owned();
                        tail.append(crate::text::decimal(gw as u64).as_str());
                        tail.append(" was not rounded");
                        return Err(op_message(i, tail.as_str()));
                    }
                    Ok(Step::Gemm8 { a, w: gw, b, ep: epilogue, out })
                } else {
                    if !w[gw].packed && a.width > 0 && out.width > 0 {
                        let mut tail = "gemm weight ".to_owned();
                        tail.append(crate::text::decimal(gw as u64).as_str());
                        tail.append(" was not packed");
                        return Err(op_message(i, tail.as_str()));
                    }
                    Ok(Step::Gemm { a, w: gw, b, ep: epilogue, out })
                }
            },
            Op::Rope { qkv, theta: _ } => {
                let qkv = loc(g, lay, qkv);
                if qkv.width % (3 * HEAD) != 0 || !is_tokens(qkv.rows) {
                    return Err(op_message(i, "rope needs token rows of 3 heads 64"));
                }
                Ok(Step::Rope { qkv, rope })
            },
            Op::Attention { qkv, window, out } => {
                let qkv = loc(g, lay, qkv);
                let out = loc(g, lay, out);
                let ok = qkv.width % (3 * HEAD) == 0 && qkv.width / 3 == out.width && is_tokens(
                    qkv.rows,
                ) && is_tokens(out.rows);
                if !ok {
                    return Err(op_message(i, "attention shapes do not match"));
                }
                Ok(Step::Attention { qkv, window, out })
            },
            Op::GeGlu { x, out } => {
                let x = loc(g, lay, x);
                let out = loc(g, lay, out);
                if x.width % 2 != 0 || x.width / 2 != out.width || x.rows != out.rows {
                    return Err(op_message(i, "geglu input is not twice its output"));
                }
                Ok(Step::GeGlu { x, out })
            },
            Op::AddType { h, table } => {
                let h = loc(g, lay, h);
                if table >= w.len() {
                    return Err(no_weight(table));
                }
                if w[table].shape.len() <= 1 || w[table].shape[1] != h.width || !is_tokens(
                    h.rows,
                ) {
                    return Err(op_message(i, "type table does not match"));
                }
                Ok(Step::AddType { h, table })
            },
            Op::GatherMarkers { h, out } => {
                let h = loc(g, lay, h);
                let out = loc(g, lay, out);
                if h.width != out.width || !is_tokens(h.rows) || !matches!(
                    out.rows,
                    Rows::Markers
                ) {
                    return Err(op_message(i, "gather shapes do not match"));
                }
                Ok(Step::Gather { h, out })
            },
            Op::ActFeatures { h, logits, out } => {
                let h = loc(g, lay, h);
                let logits = loc(g, lay, logits);
                let out = loc(g, lay, out);
                let ok = out.width >= 4 && out.width - 4 == h.width && logits.width == 1
                    && matches!(logits.rows, Rows::Markers) && matches!(out.rows, Rows::Seqs);
                if !ok {
                    return Err(op_message(i, "act feature shapes do not match"));
                }
                Ok(Step::ActFeatures { h, logits, out })
            },
            Op::MeanPool { h: _, out: _ } => Err(op_message(i, "mean pool is not on the CPU yet")),
        }
    }

    /// Lowers a graph. It is refused with the message of its first operation whose shapes or
    /// weights do not fit or that the CPU does not run, then for its outputs. Otherwise every operation becomes
    /// one step, and the plan has one table per rope base and the scratch the largest step needs.
    /// `fp32` is the scratch the FP32 product asks for at each operation.
    pub fn lower(
        &self,
        w: &Vec<Weight>,
        g: &Graph,
        lay: &Layout,
        bucket: Bucket,
        fp32: &Vec<usize>,
    ) -> (r: Result<CpuPlan, String>)
        requires
            g.wf(),
            lay.offsets@.len() == g.vals@.len(),
            fp32@.len() == g.ops@.len(),
            4 * round_up(bucket.tokens as int, 4) <= usize::MAX,
            forall|v: int|
                0 <= v < g.vals@.len() ==> 64 * round_up((#[trigger] g.vals@[v]).width as int, 8)
                    <= usize::MAX,
        ensures
            match r {
                Err(e) => self.lower_refusal(w@, g) == Some(e@),
                Ok(p) => {
                    &&& self.lower_refusal(w@, g) is None
                    &&& p.bucket == bucket
                    &&& p.steps@ == Seq::new(
                        g.ops@.len(),
                        |i: int| self.step_of(g, lay, i),
                    )
                    &&& p.arena_len == lay.len
                    &&& p.ropes@ == thetas(g.ops@, g.ops@.len() as int)
                    &&& p.scratch == self.most_scratch(g, bucket, fp32@, g.ops@.len() as int)
                    &&& Some(p.logits) == (match g.logits {
                        Some(v) => Some(loc_of(g, lay, v)),
                        None => None,
                    })
                    &&& Some(p.act) == (match g.act {
                        Some(v) => Some(loc_of(g, lay, v)),
                        None => None,
                    })
                    &&& p.profile is None
                    &&& p.dumps is None
                },
            },
    {
        let mut ropes: Vec<u64> = Vec::new();
        let mut scratch: usize = attention::scratch_len(bucket.tokens);
        let mut steps: Vec<Step> = Vec::new();
        let n: usize = g.ops.len();
        let mut i: usize = 0;
        while i < n
            invariant
                i <= n == g.ops@.len(),
                g.wf(),
                lay.offsets@.len() == g.vals@.len(),
                fp32@.len() == g.ops@.len(),
                    forall|v: int|
                    0 <= v < g.vals@.len() ==> 64 * round_up(
                        (#[trigger] g.vals@[v]).width as int,
                        8,
                    ) <= usize::MAX,
                self.first_refusal(w@, g, i as int) is None,
                ropes@ == thetas(g.ops@, i as int),
                scratch == self.most_scratch(g, bucket, fp32@, i as int),
                steps@.len() == i,
                forall|k: int| 0 <= k < i ==> #[trigger] steps@[k] == self.step_of(g, lay, k),
            decreases n - i,
        {
            proof {
                g.wf_op(i as int);
                thetas_are_the_ropes(g.ops@, i as int);
            }
            let mut rope: usize = 0;
            let mut fresh = false;
            let op = g.ops[i];
            if let Op::Rope { qkv: _, theta } = op {
                while rope < ropes.len() && ropes[rope] != theta
                    invariant
                        rope <= ropes@.len(),
                        forall|k: int| 0 <= k < rope ==> ropes@[k] != theta,
                    decreases ropes@.len() - rope,
                {
                    rope += 1;
                }
                fresh = rope == ropes.len();
                proof {
                    place_is_first(ropes@, theta);
                }
            }
            match self.lower_op(w, g, lay, i, rope) {
                Err(e) => {
                    proof {
                        self.refusal_stays(w@, g, i + 1, n as int);
                    }
                    return Err(e);
                },
                Ok(step) => {
                    if let Op::Rope { qkv: _, theta } = op {
                        if fresh {
                            ropes.push(theta);
                        }
                        proof {
                            assert(ropes@ == thetas(g.ops@, i + 1));
                            thetas_grow(g.ops@, i + 1, n as int);
                            thetas_are_the_ropes(g.ops@, n as int);
                            let all = thetas(g.ops@, n as int);
                            assert(ropes@[rope as int] == theta);
                            assert(all[rope as int] == all.subrange(0, ropes@.len() as int)[rope as int]);
                            place_unique(thetas(g.ops@, n as int), theta, rope as int);
                        }
                    }
                    if let Op::Gemm { a, w: _, b: _, epilogue: _, out: _ } = op {
                        let a = g.shape(a);
                        let x: usize = if self.int8_rows(a.rows) {
                            qgemm::scratch_len(a.width)
                        } else {
                            fp32[i]
                        };
                        if x > scratch {
                            scratch = x;
                        }
                    }
                    steps.push(step);
                },
            }
            i += 1;
        }
        let (Some(logits), Some(act)) = (g.logits, g.act) else {
            return Err("the graph has no logits or act output".to_owned());
        };
        let logits = loc(g, lay, logits);
        let act = loc(g, lay, act);
        if logits.width != 1 || !matches!(logits.rows, Rows::Markers) || act.width != 2 || !matches!(
            act.rows,
            Rows::Seqs
        ) {
            return Err(
                "outputs must be one logit per marker and two act logits per sequence".to_owned(),
            );
        }
        assert(steps@ =~= Seq::new(g.ops@.len(), |i: int| self.step_of(g, lay, i)));
        Ok(
            CpuPlan {
                bucket,
                steps,
                arena_len: lay.len,
                ropes,
                scratch,
                logits,
                act,
                profile: None,
                dumps: None,
            },
        )
    }
}

/// The place of a value.
fn loc(g: &Graph, lay: &Layout, v: Val) -> (r: Loc)
    requires
        g.has(v),
        lay.offsets@.len() == g.vals@.len(),
    ensures
        r == loc_of(g, lay, v),
{
    let s = g.shape(v);
    Loc { off: lay.offsets[v.0 as usize], rows: s.rows, width: s.width }
}

/// Whether rows are tokens.
fn is_tokens(r: Rows) -> (b: bool)
    ensures
        b == (r == Rows::Tokens),
{
    matches!(r, Rows::Tokens)
}

impl CpuPlan {
    /// The bucket it was built for.
    pub fn bucket(&self) -> (r: Bucket)
        ensures
            r == self.bucket,
    {
        self.bucket
    }

    /// Arena size in bytes.
    pub fn arena_bytes(&self) -> (r: usize)
        requires
            self.arena_len * 4 <= usize::MAX,
        ensures
            r == self.arena_len * 4,
    {
        self.arena_len * 4
    }

    /// Starts timing every step from zero.
    pub fn profile(&mut self)
        ensures
            *final(self) == (CpuPlan { profile: final(self).profile, ..*old(self) }),
            final(self).profile matches Some(p) && p@ == Seq::new(
                old(self).steps@.len(),
                |i: int| 0u64,
            ),
    {
        let p: Vec<u64> = vec![0; self.steps.len()];
        assert(p@ =~= Seq::new(self.steps@.len(), |i: int| 0u64));
        self.profile = Some(p);
    }

    /// Keeps a copy of what every step writes from now on, for finding the first step where two
    /// runs differ.
    pub fn dump(&mut self)
        ensures
            *final(self) == (CpuPlan { dumps: final(self).dumps, ..*old(self) }),
            final(self).dumps matches Some(d) && d@.len() == 0,
    {
        self.dumps = Some(Vec::new());
    }

    /// What every step wrote in the last run since [`CpuPlan::dump`], in order.
    pub fn dumps(&self) -> (r: &[Dump])
        ensures
            r@ == (match self.dumps {
                Some(d) => d@,
                None => Seq::<Dump>::empty(),
            }),
    {
        match &self.dumps {
            Some(d) => d.as_slice(),
            None => {
                let none: &[Dump] = &[];
                assert(none@ =~= Seq::<Dump>::empty());
                none
            },
        }
    }

    /// The times measured so far, none without profiling.
    pub open spec fn times(&self) -> Seq<u64> {
        match self.profile {
            Some(p) => p@,
            None => seq![],
        }
    }

    /// Time per kind of step since [`CpuPlan::profile`], in nanoseconds, largest first, and kinds
    /// of the same time in the order of their first step.
    pub fn timings(&self) -> (r: Vec<(&'static str, u64)>)
        requires
            total(self.times(), self.times().len() as int) <= u64::MAX,
        ensures
            ({
                let kinds = kinds(self.steps@);
                sorted_from(
                    named(r@),
                    grouped(kinds, self.times(), paired(kinds, self.times())),
                )
            }),
    {
        let mut names: Vec<&'static str> = Vec::new();
        let mut i: usize = 0;
        while i < self.steps.len()
            invariant
                i <= self.steps@.len(),
                names@.len() == i,
                forall|k: int| 0 <= k < i ==> (#[trigger] names@[k])@ == self.steps@[k].spec_name(),
            decreases self.steps@.len() - i,
        {
            names.push(self.steps[i].name());
            i += 1;
        }
        assert(names_of(names@) =~= kinds(self.steps@));
        let none: Vec<u64> = Vec::new();
        let times: &Vec<u64> = match &self.profile {
            Some(p) => p,
            None => &none,
        };
        assert(times@ == self.times());
        by_name(&names, times)
    }
}

/// The kind of every step.
pub open spec fn kinds(steps: Seq<Step>) -> Seq<Seq<char>> {
    Seq::new(steps.len(), |i: int| steps[i].spec_name())
}

/// What the arena holds after a step, by where a value starts, with the base of every rope table. A
/// product in INT8 is the product it rounds.
pub open spec fn after_step(m: Map<usize, Term>, ropes: Seq<u64>, step: Step) -> Map<usize, Term> {
    match step {
        Step::Embed { table, out } => m.insert(out.off, Term::Tokens { table }),
        Step::LayerNorm { x, w, b, eps, out } => m.insert(
            out.off,
            Term::Normed { x: Box::new(m[x.off]), w, b, eps },
        ),
        Step::Gemm { a, w, b, ep, out } => m.insert(
            out.off,
            after_product(
                ep,
                m[out.off],
                Term::Product { x: Box::new(m[a.off]), k: Some(a.width), w, b },
            ),
        ),
        Step::Gemm8 { a, w, b, ep, out } => m.insert(
            out.off,
            after_product(
                ep,
                m[out.off],
                Term::Product { x: Box::new(m[a.off]), k: Some(a.width), w, b },
            ),
        ),
        Step::Rope { qkv, rope } => m.insert(
            qkv.off,
            Term::Turned { x: Box::new(m[qkv.off]), theta: ropes[rope as int] },
        ),
        Step::Attention { qkv, window, out } => m.insert(
            out.off,
            Term::Attention { x: Box::new(m[qkv.off]), reach: window },
        ),
        Step::GeGlu { x, out } => m.insert(
            out.off,
            Term::Gated { x: Box::new(m[x.off]), width: out.width },
        ),
        Step::AddType { h, table } => m.insert(
            h.off,
            Term::Sum { x: Box::new(m[h.off]), y: Box::new(Term::Types { table }) },
        ),
        Step::Gather { h, out } => m.insert(out.off, Term::Marked { x: Box::new(m[h.off]) }),
        Step::ActFeatures { h, logits, out } => m.insert(
            out.off,
            Term::Features { x: Box::new(m[h.off]), logits: Box::new(m[logits.off]) },
        ),
    }
}

impl CpuBackend {
    /// What the arena holds after the steps of the first `n` operations.
    pub open spec fn after_steps(self, m: Map<usize, Term>, g: &Graph, lay: &Layout, n: int) -> Map<
        usize,
        Term,
    >
        decreases n,
    {
        if n <= 0 {
            m
        } else {
            after_step(
                self.after_steps(m, g, lay, n - 1),
                thetas(g.ops@, g.ops@.len() as int),
                self.step_of(g, lay, n - 1),
            )
        }
    }

    /// The steps of a lowered graph compute the graph: where no two values share a place in the
    /// arena, every value's place holds what the value is after as many operations.
    pub proof fn the_steps_compute_the_graph(
        self,
        w: Seq<Weight>,
        g: &Graph,
        lay: &Layout,
        vals: Map<u32, Term>,
        arena: Map<usize, Term>,
        n: int,
        v: u32,
    )
        requires
            g.wf(),
            lay.offsets@.len() == g.vals@.len(),
            self.first_refusal(w, g, g.ops@.len() as int) is None,
            0 <= n <= g.ops@.len(),
            v < g.vals@.len(),
            forall|i: int, j: int|
                0 <= i < j < lay.offsets@.len() ==> #[trigger] lay.offsets@[i]
                    != #[trigger] lay.offsets@[j],
            forall|i: u32|
                i < g.vals@.len() ==> arena[#[trigger] lay.offsets@[i as int]] == vals[i],
        ensures
            self.after_steps(arena, g, lay, n)[lay.offsets@[v as int]] == g.after_ops(vals, n)[v],
        decreases n,
    {
        if n > 0 {
            let ropes = thetas(g.ops@, g.ops@.len() as int);
            let a = self.after_steps(arena, g, lay, n - 1);
            let m = g.after_ops(vals, n - 1);
            assert forall|i: u32| i < g.vals@.len() implies a[#[trigger] lay.offsets@[i as int]]
                == m[i] by {
                self.the_steps_compute_the_graph(w, g, lay, vals, arena, n - 1, i);
            }
            g.wf_op(n - 1);
            if self.refusal(w, g, n - 1) is Some {
                assert(self.first_refusal(w, g, n) is Some);
                self.refusal_stays(w, g, n, g.ops@.len() as int);
            }
            let op = g.ops@[n - 1];
            if let Op::Rope { theta, .. } = op {
                thetas_are_the_ropes(g.ops@, g.ops@.len() as int);
                place_is_first(ropes, theta);
                assert(ropes.contains(theta));
                assert(g.ops.len() == g.ops@.len());
            }
            assert(after_step(a, ropes, self.step_of(g, lay, n - 1))[lay.offsets@[v as int]]
                == g.after_op(m, op)[v]) by {
                match op {
                    Op::Embed { out, .. } => {
                        assert(g.has(out));
                    },
                    Op::LayerNorm { x, out, .. } => {
                        assert(a[lay.offsets@[x.0 as int]] == m[x.0]);
                    },
                    Op::Gemm { a: x, out, .. } => {
                        assert(a[lay.offsets@[x.0 as int]] == m[x.0]);
                        assert(a[lay.offsets@[out.0 as int]] == m[out.0]);
                    },
                    Op::Rope { qkv, .. } => {
                        assert(a[lay.offsets@[qkv.0 as int]] == m[qkv.0]);
                    },
                    Op::Attention { qkv, out, .. } => {
                        assert(a[lay.offsets@[qkv.0 as int]] == m[qkv.0]);
                    },
                    Op::GeGlu { x, out } => {
                        assert(a[lay.offsets@[x.0 as int]] == m[x.0]);
                    },
                    Op::AddType { h, .. } => {
                        assert(a[lay.offsets@[h.0 as int]] == m[h.0]);
                    },
                    Op::GatherMarkers { h, out } => {
                        assert(a[lay.offsets@[h.0 as int]] == m[h.0]);
                    },
                    Op::ActFeatures { h, logits, out } => {
                        assert(a[lay.offsets@[h.0 as int]] == m[h.0]);
                        assert(a[lay.offsets@[logits.0 as int]] == m[logits.0]);
                    },
                    Op::MeanPool { h, out } => {
                        assert(self.refusal(w, g, n - 1) is Some);
                    },
                }
            }
        }
    }
}

} // verus!
