//! Graphs lowered for the GPU: every value gets an element type and a place in one device arena,
//! and a run is a copy of the batch's index tables, a fixed list of launches and a copy back.

use crate::cpu::compat::Term;
use crate::cuda::tune::{Dims, Key, Picks};
use crate::cuda::types::Ty;
use crate::graph::{
    no_weight, no_weight_text, op_message, op_text, place, place_is_first, thetas,
    thetas_are_the_ropes, Bucket, Epilogue, Graph, Layout, Op, Rows, Val, HEAD,
};
use crate::times::{
    added, by_name, by_size, grouped, is_first, largest_first, named, names_of, paired, same_order,
    sorted_from, taken, total,
};
use vstd::prelude::*;

verus! {

/// A value resolved to its type and place.
#[derive(Debug, Clone, Copy, PartialEq, Eq, Structural)]
pub struct Loc {
    /// Its device address.
    pub ptr: u64,
    /// What its rows are.
    pub rows: Rows,
    /// Values per row.
    pub width: usize,
    /// Its element type.
    pub ty: Ty,
}

impl Loc {
    /// Whether the value is FP16.
    pub open spec fn spec_half(self) -> bool {
        self.ty == Ty::F16
    }

    /// Whether the value is FP16.
    pub fn half(self) -> (r: bool)
        ensures
            r == self.spec_half(),
    {
        matches!(self.ty, Ty::F16)
    }
}

/// One step of a plan. Addresses are device addresses, and 0 stands for no table.
#[derive(Debug, Clone, Copy, PartialEq, Eq, Structural)]
pub enum Step {
    /// Table rows picked by token id.
    Embed { table: u64, out: Loc },
    /// Layer norm, with the bits of its epsilon.
    LayerNorm { x: Loc, w: u64, b: u64, eps: u64, out: Loc },
    /// FP32 values to FP16 in the staging buffer.
    ToHalf { from: u64, len: u64 },
    /// A product, then the bias and activation when there are any.
    Gemm { gemm: usize, b: u64, act: i32, out: Loc },
    /// Rotary positions.
    Rope { qkv: Loc, cos: u64, sin: u64 },
    /// Attention, with rope applied as q and k are loaded when the tables are not 0.
    Attention { qkv: Loc, cos: u64, sin: u64, window: i32, out: Loc },
    /// The gated activation.
    GeGlu { x: Loc, out: Loc },
    /// The question type's row added.
    AddType { h: Loc, table: u64 },
    /// The token rows at the markers.
    Gather { h: Loc, out: Loc },
    /// The act head's input rows.
    ActFeatures { h: Loc, logits: Loc, out: Loc },
}

impl Step {
    /// The kind of step.
    pub open spec fn spec_name(self) -> Seq<char> {
        match self {
            Step::Embed { .. } => "embed"@,
            Step::LayerNorm { .. } => "layer norm"@,
            Step::ToHalf { .. } => "to half"@,
            Step::Gemm { .. } => "gemm"@,
            Step::Rope { .. } => "rope"@,
            Step::Attention { .. } => "attention"@,
            Step::GeGlu { .. } => "geglu"@,
            Step::AddType { .. } => "type embedding"@,
            Step::Gather { .. } => "gather markers"@,
            Step::ActFeatures { .. } => "act features"@,
        }
    }

    /// The kind of step.
    pub fn name(&self) -> (r: &'static str)
        ensures
            r@ == self.spec_name(),
    {
        match self {
            Step::Embed { .. } => "embed",
            Step::LayerNorm { .. } => "layer norm",
            Step::ToHalf { .. } => "to half",
            Step::Gemm { .. } => "gemm",
            Step::Rope { .. } => "rope",
            Step::Attention { .. } => "attention",
            Step::GeGlu { .. } => "geglu",
            Step::AddType { .. } => "type embedding",
            Step::Gather { .. } => "gather markers",
            Step::ActFeatures { .. } => "act features",
        }
    }
}

/// The device addresses of a product.
#[derive(Debug, Clone, Copy, PartialEq, Eq, Structural)]
pub struct Places {
    /// The weight.
    pub w: u64,
    /// The input.
    pub x: u64,
    /// The output.
    pub y: u64,
}

/// One product: its rows, inner size and columns, the types, the addresses of the weight, the
/// input and the output, and the rank of the algorithm it runs.
#[derive(Debug, Clone, Copy, PartialEq, Eq, Structural)]
pub struct GemmSpec {
    /// Rows, inner size and columns.
    pub dims: Dims,
    /// What picks are looked up by.
    pub key: Key,
    /// Addresses of the weight, the input and the output.
    pub at: Places,
    /// The rank.
    pub pick: usize,
}

/// The device addresses lowering works with.
#[derive(Debug)]
pub struct Device {
    /// The arena.
    pub arena: u64,
    /// The staging buffer.
    pub stage: u64,
    /// Each weight in FP32.
    pub w32: Vec<u64>,
    /// Each weight in FP16, for those a product reads so.
    pub w16: Vec<u64>,
    /// The cosine and sine tables of each rope base, in the order the bases first appear.
    pub ropes: Vec<(u64, u64)>,
    /// The row count that picks are kept under.
    pub ranked_rows: usize,
}

/// Where each index table sits in the staging buffer, in 4 byte elements.
#[derive(Debug, Clone, Copy, PartialEq, Eq, Structural)]
pub struct Index {
    /// Token ids.
    pub ids: usize,
    /// Positions.
    pub pos: usize,
    /// The sequence of each token.
    pub seq: usize,
    /// Sequence bounds.
    pub cu: usize,
    /// Marker bounds.
    pub mcu: usize,
    /// The token row of each marker.
    pub mrow: usize,
    /// Question types.
    pub qtype: usize,
    /// Elements in all.
    pub len: usize,
}

/// Elements that the index tables of a bucket take.
pub open spec fn index_len(b: Bucket) -> int {
    6 + 3 * b.tokens + 3 * b.seqs + b.markers
}

impl Index {
    /// The tables lie one after the other behind four counts.
    pub open spec fn of(self, b: Bucket) -> bool {
        &&& self.ids == 4
        &&& self.pos == self.ids + b.tokens
        &&& self.seq == self.pos + b.tokens
        &&& self.cu == self.seq + b.tokens
        &&& self.mcu == self.cu + b.seqs + 1
        &&& self.mrow == self.mcu + b.seqs + 1
        &&& self.qtype == self.mrow + b.markers
        &&& self.len == self.qtype + b.seqs
    }

    /// The places of the tables of a bucket.
    pub fn new(b: Bucket) -> (r: Self)
        requires
            index_len(b) <= usize::MAX,
        ensures
            r.of(b),
            r.len == index_len(b),
    {
        let ids: usize = 4;
        let pos: usize = ids + b.tokens;
        let seq: usize = pos + b.tokens;
        let cu: usize = seq + b.tokens;
        let mcu: usize = cu + b.seqs + 1;
        let mrow: usize = mcu + b.seqs + 1;
        let qtype: usize = mrow + b.markers;
        Index { ids, pos, seq, cu, mcu, mrow, qtype, len: qtype + b.seqs }
    }
}

/// Device addresses of the batch's counts and index tables.
#[derive(Debug, Clone, Copy, PartialEq, Eq, Structural)]
pub struct Ptrs {
    /// The counts.
    pub n: u64,
    /// Token ids.
    pub ids: u64,
    /// Positions.
    pub pos: u64,
    /// The sequence of each token.
    pub seq: u64,
    /// Sequence bounds.
    pub cu: u64,
    /// Marker bounds.
    pub mcu: u64,
    /// The token row of each marker.
    pub mrow: u64,
    /// Question types.
    pub qtype: u64,
}

impl Ptrs {
    /// The addresses of tables that start at `base`.
    pub fn new(base: u64, at: Index) -> (r: Self)
        requires
            base + 4 * at.ids <= u64::MAX,
            base + 4 * at.pos <= u64::MAX,
            base + 4 * at.seq <= u64::MAX,
            base + 4 * at.cu <= u64::MAX,
            base + 4 * at.mcu <= u64::MAX,
            base + 4 * at.mrow <= u64::MAX,
            base + 4 * at.qtype <= u64::MAX,
        ensures
            r.n == base,
            r.ids == base + 4 * at.ids,
            r.pos == base + 4 * at.pos,
            r.seq == base + 4 * at.seq,
            r.cu == base + 4 * at.cu,
            r.mcu == base + 4 * at.mcu,
            r.mrow == base + 4 * at.mrow,
            r.qtype == base + 4 * at.qtype,
    {
        Ptrs {
            n: base,
            ids: base + 4 * at.ids as u64,
            pos: base + 4 * at.pos as u64,
            seq: base + 4 * at.seq as u64,
            cu: base + 4 * at.cu as u64,
            mcu: base + 4 * at.mcu as u64,
            mrow: base + 4 * at.mrow as u64,
            qtype: base + 4 * at.qtype as u64,
        }
    }
}

/// A graph lowered for one bucket on one GPU.
#[derive(Debug)]
pub struct CudaPlan {
    /// The bucket it was built for.
    pub bucket: Bucket,
    /// The steps, in order.
    pub steps: Vec<Step>,
    /// The products of the steps.
    pub gemms: Vec<GemmSpec>,
    /// The index tables.
    pub at: Index,
    /// The option logits.
    pub logits: Loc,
    /// The act logits.
    pub act: Loc,
    /// Elements of the host buffer that the outputs are copied to.
    pub host_out: usize,
    /// Arena size in bytes.
    pub arena: usize,
    /// Elements of the staging buffer.
    pub stage: usize,
    /// The time of every step since profiling started.
    pub profile: Option<Vec<u64>>,
    /// Runs timed since profiling started.
    pub profiled: u64,
}

/// What lowering goes by: the shapes of the weights, the graph, where its values lie and of what
/// type they are, the bucket, the addresses and the picks.
#[derive(Debug)]
pub struct Input<'a> {
    /// The shape of every weight.
    pub w: &'a Vec<Vec<usize>>,
    /// The graph.
    pub g: &'a Graph,
    /// The arena's layout.
    pub lay: &'a Layout,
    /// The type of every value.
    pub ty: &'a Vec<Ty>,
    /// The bucket.
    pub bucket: Bucket,
    /// The addresses.
    pub dev: &'a Device,
    /// The picks for this GPU.
    pub picks: &'a Picks,
}

/// The activation a launch is told.
pub open spec fn act_code(e: Epilogue) -> i32 {
    match e {
        Epilogue::Plain => 0,
        Epilogue::Gelu => 1,
        Epilogue::Relu => 2,
        Epilogue::Accumulate => 0,
    }
}

/// There is no bias, or there is one among `n` weights.
pub open spec fn bias_missing(n: int, bias: Option<usize>) -> Option<Seq<char>> {
    match bias {
        Some(b) if b >= n => Some(no_weight_text(b as int)),
        _ => None,
    }
}

impl<'a> Input<'a> {
    /// The parts agree in length, and the addresses fit.
    pub open spec fn wf(&self) -> bool {
        &&& self.g.wf()
        &&& self.lay.fits(self.g, self.bucket)
        &&& self.ty@.len() == self.g.vals@.len()
        &&& self.dev.w32@.len() == self.w@.len()
        &&& self.dev.w16@.len() == self.w@.len()
        &&& self.dev.ropes@.len() == thetas(self.g.ops@, self.g.ops@.len() as int).len()
        &&& self.dev.arena + 4 * self.lay.len <= u64::MAX
        &&& 4 * self.lay.len <= usize::MAX
        &&& index_len(self.bucket) <= usize::MAX
    }

    /// Whether the parts agree: what [`Input::wf`] says.
    pub fn is_whole(&self) -> (r: bool)
        ensures
            r == self.wf(),
    {
        let bases = crate::graph::rope_bases(&self.g.ops);
        let n: usize = self.g.vals.len();
        let b = self.bucket;
        self.g.is_whole() && self.lay.covers(self.g, b) && self.ty.len() == n && self.dev.w32.len()
            == self.w.len() && self.dev.w16.len() == self.w.len() && self.dev.ropes.len()
            == bases.len() && self.dev.arena as u128 + 4 * self.lay.len as u128 <= u64::MAX as u128
            && 4 * self.lay.len as u128 <= usize::MAX as u128 && 6 + 3 * b.tokens as u128 + 3
            * b.seqs as u128 + b.markers as u128 <= usize::MAX as u128
    }

    /// The place and type of a value.
    pub open spec fn loc_of(&self, v: Val) -> Loc {
        Loc {
            ptr: (self.dev.arena + 4 * self.lay.offsets@[v.0 as int]) as u64,
            rows: self.g.spec_shape(v).rows,
            width: self.g.spec_shape(v).width,
            ty: self.ty@[v.0 as int],
        }
    }

    /// The place and type of a value.
    fn loc(&self, v: Val) -> (r: Loc)
        requires
            self.wf(),
            self.g.has(v),
        ensures
            r == self.loc_of(v),
    {
        let s = self.g.shape(v);
        let i: usize = v.0 as usize;
        proof {
            let x = self.g.vals@[i as int];
            assert(0 <= self.bucket.spec_rows(x.rows) * x.width) by (nonlinear_arith)
                requires
                    0 <= self.bucket.spec_rows(x.rows),
                    0 <= x.width,
            ;
        }
        Loc {
            ptr: self.dev.arena + 4 * self.lay.offsets[i] as u64,
            rows: s.rows,
            width: s.width,
            ty: self.ty[i],
        }
    }

    /// The address of a bias, 0 for none.
    pub open spec fn bias_at(&self, b: Option<usize>) -> u64 {
        match b {
            Some(b) => self.dev.w32@[b as int],
            None => 0,
        }
    }

    /// There is no bias, or it is a vector of `width`.
    pub open spec fn bias_fits(&self, bias: Option<usize>, width: usize) -> bool {
        bias matches Some(b) ==> self.w@[b as int]@ == seq![width]
    }

    /// A table of rows of `width`.
    pub open spec fn table_fits(&self, table: usize, width: usize) -> bool {
        self.w@[table as int]@.len() > 1 && self.w@[table as int]@[1] == width
    }

    /// Why operation `i` cannot be lowered, if it cannot.
    pub open spec fn refusal(&self, i: int) -> Option<Seq<char>> {
        let n = self.w@.len() as int;
        match self.g.ops@[i] {
            Op::Embed { table, out } => {
                let out = self.loc_of(out);
                if table >= n {
                    Some(no_weight_text(table as int))
                } else if !self.table_fits(table, out.width) || out.rows != Rows::Tokens {
                    Some(op_text(i, "embedding table does not match its output"@))
                } else {
                    None
                }
            },
            Op::LayerNorm { x, w, b, out, .. } => {
                let (x, out) = (self.loc_of(x), self.loc_of(out));
                let text = "layer norm shapes do not match or are over 1024"@;
                if w >= n {
                    Some(no_weight_text(w as int))
                } else if self.w@[w as int]@ != seq![x.width] {
                    Some(op_text(i, text))
                } else if bias_missing(n, b) is Some {
                    bias_missing(n, b)
                } else if !self.bias_fits(b, x.width) || x.width != out.width || x.width > 1024
                    || x.rows != out.rows {
                    Some(op_text(i, text))
                } else {
                    None
                }
            },
            Op::Gemm { a, w, b, out, .. } => {
                let (a, out) = (self.loc_of(a), self.loc_of(out));
                if w >= n {
                    Some(no_weight_text(w as int))
                } else if self.w@[w as int]@ != seq![out.width, a.width] {
                    Some(op_text(i, "gemm shapes do not match"@))
                } else if bias_missing(n, b) is Some {
                    bias_missing(n, b)
                } else if !self.bias_fits(b, out.width) || a.rows != out.rows {
                    Some(op_text(i, "gemm shapes do not match"@))
                } else {
                    None
                }
            },
            Op::Rope { qkv, .. } => {
                let qkv = self.loc_of(qkv);
                if qkv.width % 192 != 0 || qkv.rows != Rows::Tokens {
                    Some(op_text(i, "rope needs token rows of 3 heads 64"@))
                } else {
                    None
                }
            },
            Op::Attention { qkv, window, out } => {
                let (qkv, out) = (self.loc_of(qkv), self.loc_of(out));
                if qkv.width % 192 != 0 || out.width * 3 != qkv.width || qkv.rows != Rows::Tokens
                    || out.rows != Rows::Tokens {
                    Some(op_text(i, "attention shapes or types do not match"@))
                } else if window matches Some(w) && w > i32::MAX {
                    Some(op_text(i, "window"@))
                } else {
                    None
                }
            },
            Op::GeGlu { x, out } => {
                let (x, out) = (self.loc_of(x), self.loc_of(out));
                if x.width != 2 * out.width || x.rows != out.rows {
                    Some(op_text(i, "geglu needs an input twice its output"@))
                } else {
                    None
                }
            },
            Op::AddType { h, table } => {
                let h = self.loc_of(h);
                if table >= n {
                    Some(no_weight_text(table as int))
                } else if !self.table_fits(table, h.width) || h.rows != Rows::Tokens {
                    Some(op_text(i, "type table does not match"@))
                } else {
                    None
                }
            },
            Op::GatherMarkers { h, out } => {
                let (h, out) = (self.loc_of(h), self.loc_of(out));
                if h.width != out.width || h.rows != Rows::Tokens || out.rows != Rows::Markers
                    || h.ty != out.ty {
                    Some(op_text(i, "gather shapes do not match"@))
                } else {
                    None
                }
            },
            Op::ActFeatures { h, logits, out } => {
                let (h, logits, out) = (self.loc_of(h), self.loc_of(logits), self.loc_of(out));
                if out.width != h.width + 4 || logits.width != 1 || logits.rows != Rows::Markers
                    || out.rows != Rows::Seqs || h.spec_half() || logits.spec_half() {
                    Some(op_text(i, "act feature shapes do not match"@))
                } else {
                    None
                }
            },
            Op::MeanPool { .. } => Some(op_text(i, "mean pool is not on CUDA yet"@)),
        }
    }

    /// Why the first of the first `n` operations that cannot be lowered cannot.
    pub open spec fn first_refusal(&self, n: int) -> Option<Seq<char>>
        decreases n,
    {
        if n <= 0 {
            None
        } else {
            match self.first_refusal(n - 1) {
                Some(m) => Some(m),
                None => self.refusal(n - 1),
            }
        }
    }

    /// Why the graph cannot be lowered, if it cannot: its first refused operation, or its outputs.
    pub open spec fn lower_refusal(&self) -> Option<Seq<char>> {
        match self.first_refusal(self.g.ops@.len() as int) {
            Some(m) => Some(m),
            None => match (self.g.logits, self.g.act) {
                (Some(l), Some(a)) => if self.loc_of(l).width != 1 || self.loc_of(l).rows
                    != Rows::Markers || self.loc_of(a).width != 2 || self.loc_of(a).rows
                    != Rows::Seqs {
                    Some("outputs are not one logit per marker and two per sequence"@)
                } else {
                    None
                },
                _ => Some("the graph has no logits or act output"@),
            },
        }
    }

    /// Whether operation `i` is a rope that the attention right after it applies as it loads.
    pub open spec fn fuses(&self, i: int) -> bool {
        &&& 0 <= i < self.g.ops@.len() - 1
        &&& match (self.g.ops@[i], self.g.ops@[i + 1]) {
            (Op::Rope { qkv, .. }, Op::Attention { qkv: v, .. }) => self.loc_of(v).ptr
                == self.loc_of(qkv).ptr,
            _ => false,
        }
    }

    /// The tables of the rope at operation `i`.
    pub open spec fn tables_at(&self, i: int) -> (u64, u64) {
        match self.g.ops@[i] {
            Op::Rope { theta, .. } => self.dev.ropes@[place(
                thetas(self.g.ops@, self.g.ops@.len() as int),
                theta,
            )],
            _ => (0, 0),
        }
    }

    /// Whether operation `i` is a product with rows to run on.
    pub open spec fn runs_gemm(&self, i: int) -> bool {
        self.g.ops@[i] matches Op::Gemm { a, .. } && self.bucket.spec_rows(self.loc_of(a).rows) > 0
    }

    /// The product of operation `i`. One with an FP32 input and an FP16 output reads the staging
    /// buffer.
    pub open spec fn gemm_of(&self, i: int) -> GemmSpec {
        match self.g.ops@[i] {
            Op::Gemm { a, w, epilogue, out, .. } => {
                let (a, out) = (self.loc_of(a), self.loc_of(out));
                let m = self.bucket.spec_rows(a.rows);
                let single = a.ty == Ty::F32 && out.ty == Ty::F32;
                let key = Key {
                    dims: Dims { m: self.dev.ranked_rows, k: a.width, n: out.width },
                    ab: if single {
                        Ty::F32
                    } else {
                        Ty::F16
                    },
                    c: out.ty,
                    acc: epilogue == Epilogue::Accumulate,
                };
                GemmSpec {
                    dims: Dims { m, k: a.width, n: out.width },
                    key,
                    at: Places {
                        w: if single {
                            self.dev.w32@[w as int]
                        } else {
                            self.dev.w16@[w as int]
                        },
                        x: if a.ty == Ty::F32 && out.ty == Ty::F16 {
                            self.dev.stage
                        } else {
                            a.ptr
                        },
                        y: out.ptr,
                    },
                    pick: self.picks.spec_get(key),
                }
            },
            _ => arbitrary(),
        }
    }

    /// The products of the first `n` operations.
    pub open spec fn gemms_of(&self, n: int) -> Seq<GemmSpec>
        decreases n,
    {
        if n <= 0 {
            seq![]
        } else if self.runs_gemm(n - 1) {
            self.gemms_of(n - 1).push(self.gemm_of(n - 1))
        } else {
            self.gemms_of(n - 1)
        }
    }

    /// The steps of operation `i`: none for a product without rows and for a rope that the next
    /// operation applies, two for a product whose input is converted first, and one otherwise.
    pub open spec fn steps_of(&self, i: int) -> Seq<Step> {
        match self.g.ops@[i] {
            Op::Embed { table, out } => seq![
                Step::Embed { table: self.dev.w32@[table as int], out: self.loc_of(out) },
            ],
            Op::LayerNorm { x, w, b, eps, out } => seq![
                Step::LayerNorm {
                    x: self.loc_of(x),
                    w: self.dev.w32@[w as int],
                    b: self.bias_at(b),
                    eps,
                    out: self.loc_of(out),
                },
            ],
            Op::Gemm { a, b, epilogue, out, .. } => {
                let (a, out) = (self.loc_of(a), self.loc_of(out));
                let m = self.bucket.spec_rows(a.rows);
                let step = Step::Gemm {
                    gemm: self.gemms_of(i).len() as usize,
                    b: self.bias_at(b),
                    act: act_code(epilogue),
                    out,
                };
                if m == 0 {
                    seq![]
                } else if a.ty == Ty::F32 && out.ty == Ty::F16 {
                    seq![Step::ToHalf { from: a.ptr, len: (m * a.width) as u64 }, step]
                } else {
                    seq![step]
                }
            },
            Op::Rope { qkv, .. } => if self.fuses(i) {
                seq![]
            } else {
                let (cos, sin) = self.tables_at(i);
                seq![Step::Rope { qkv: self.loc_of(qkv), cos, sin }]
            },
            Op::Attention { qkv, window, out } => {
                let (cos, sin) = if self.fuses(i - 1) {
                    self.tables_at(i - 1)
                } else {
                    (0, 0)
                };
                seq![
                    Step::Attention {
                        qkv: self.loc_of(qkv),
                        cos,
                        sin,
                        window: match window {
                            Some(w) => w as i32,
                            None => -1i32,
                        },
                        out: self.loc_of(out),
                    },
                ]
            },
            Op::GeGlu { x, out } => seq![Step::GeGlu { x: self.loc_of(x), out: self.loc_of(out) }],
            Op::AddType { h, table } => seq![
                Step::AddType { h: self.loc_of(h), table: self.dev.w32@[table as int] },
            ],
            Op::GatherMarkers { h, out } => seq![
                Step::Gather { h: self.loc_of(h), out: self.loc_of(out) },
            ],
            Op::ActFeatures { h, logits, out } => seq![
                Step::ActFeatures {
                    h: self.loc_of(h),
                    logits: self.loc_of(logits),
                    out: self.loc_of(out),
                },
            ],
            Op::MeanPool { .. } => seq![],
        }
    }

    /// The steps of the first `n` operations.
    pub open spec fn all_steps(&self, n: int) -> Seq<Step>
        decreases n,
    {
        if n <= 0 {
            seq![]
        } else {
            self.all_steps(n - 1) + self.steps_of(n - 1)
        }
    }

    /// Elements the staging buffer needs for operation `i`.
    pub open spec fn stages(&self, i: int) -> int {
        match self.g.ops@[i] {
            Op::Gemm { a, out, .. } => if self.ty@[a.0 as int] == Ty::F32 && self.ty@[out.0 as int]
                == Ty::F16 {
                self.bucket.spec_rows(self.g.spec_shape(a).rows) * self.g.spec_shape(a).width
            } else {
                0
            },
            _ => 0,
        }
    }

    /// More operations have no fewer products.
    proof fn gemms_grow(&self, m: int, n: int)
        requires
            0 <= m <= n,
        ensures
            self.gemms_of(m).len() <= self.gemms_of(n).len() <= n,
        decreases n,
    {
        if m < n {
            self.gemms_grow(m, n - 1);
        } else if n > 0 {
            self.gemms_grow(n - 1, n - 1);
        }
    }

    /// The product of every step is there.
    proof fn steps_have_products(&self, n: int)
        requires
            self.wf(),
            0 <= n <= self.g.ops@.len(),
        ensures
            forall|k: int| #![trigger self.all_steps(n)[k]]
                0 <= k < self.all_steps(n).len() ==> (match self.all_steps(n)[k] {
                    Step::Gemm { gemm, .. } => gemm < self.gemms_of(n).len(),
                    _ => true,
                }),
        decreases n,
    {
        if n > 0 {
            self.steps_have_products(n - 1);
            self.gemms_grow(n - 1, n);
            let (before, now) = (self.all_steps(n - 1), self.steps_of(n - 1));
            assert forall|k: int| #![trigger self.all_steps(n)[k]]
                0 <= k < self.all_steps(n).len() implies (match self.all_steps(n)[k] {
                Step::Gemm { gemm, .. } => gemm < self.gemms_of(n).len(),
                _ => true,
            }) by {
                if k < before.len() {
                    assert(self.all_steps(n)[k] == before[k]);
                } else {
                    assert(self.all_steps(n)[k] == now[k - before.len()]);
                }
            }
        }
    }

    /// A refused operation stays the first one.
    proof fn refusal_stays(&self, m: int, n: int)
        requires
            0 <= m <= n,
            self.first_refusal(m) is Some,
        ensures
            self.first_refusal(n) == self.first_refusal(m),
        decreases n - m,
    {
        if m < n {
            self.refusal_stays(m, n - 1);
        }
    }

    /// Whether `n` is the most elements that an input which is converted has.
    pub open spec fn most_staged(&self, n: usize) -> bool {
        &&& forall|i: int| 0 <= i < self.g.ops@.len() ==> self.stages(i) <= n
        &&& n == 0 || exists|i: int| 0 <= i < self.g.ops@.len() && self.stages(i) == n
    }

    /// Whether `n` is the size of the staging buffer, which is never empty.
    pub open spec fn stage_of(&self, n: usize) -> bool {
        exists|m: usize| #[trigger] self.most_staged(m) && n == at_least_one(m as int)
    }

    /// Elements of the staging buffer: enough for the largest input that is converted.
    pub fn stage_len(&self) -> (r: usize)
        requires
            self.wf(),
        ensures
            self.most_staged(r),
    {
        let mut most: usize = 0;
        let mut i: usize = 0;
        while i < self.g.ops.len()
            invariant
                i <= self.g.ops@.len(),
                self.wf(),
                forall|k: int| 0 <= k < i ==> self.stages(k) <= most,
                most == 0 || exists|k: int| 0 <= k < i && self.stages(k) == most,
            decreases self.g.ops@.len() - i,
        {
            proof {
                self.g.wf_op(i as int);
            }
            if let Op::Gemm { a, w: _, b: _, epilogue: _, out } = self.g.ops[i] {
                if matches!(self.ty[a.0 as usize], Ty::F32) && matches!(
                    self.ty[out.0 as usize],
                    Ty::F16
                ) {
                    let s = self.g.shape(a);
                    assert(self.g.vals@[a.0 as int] == s);
                    let n: usize = self.bucket.rows(s.rows) * s.width;
                    assert(self.stages(i as int) == n);
                    if n > most {
                        most = n;
                    }
                }
            }
            i += 1;
        }
        most
    }
}

impl<'a> Input<'a> {
    /// Whether a weight's shape is `[a]`.
    fn is_vector(&self, i: usize, a: usize) -> (r: bool)
        requires
            i < self.w@.len(),
        ensures
            r == (self.w@[i as int]@ == seq![a]),
    {
        let s = &self.w[i];
        let r = s.len() == 1 && s[0] == a;
        assert(r ==> s@ =~= seq![a]);
        r
    }

    /// Whether a weight's shape is `[a, b]`.
    fn is_matrix(&self, i: usize, a: usize, b: usize) -> (r: bool)
        requires
            i < self.w@.len(),
        ensures
            r == (self.w@[i as int]@ == seq![a, b]),
    {
        let s = &self.w[i];
        let r = s.len() == 2 && s[0] == a && s[1] == b;
        assert(r ==> s@ =~= seq![a, b]);
        assert(s@ == seq![a, b] ==> s@[0] == a && s@[1] == b);
        r
    }

    /// Whether a bias fits, or the message when it is missing.
    fn check_bias(&self, bias: Option<usize>, width: usize) -> (r: Result<bool, String>)
        ensures
            match r {
                Err(e) => bias_missing(self.w@.len() as int, bias) == Some(e@),
                Ok(t) => bias_missing(self.w@.len() as int, bias) is None && t == self.bias_fits(
                    bias,
                    width,
                ),
            },
    {
        match bias {
            None => Ok(true),
            Some(b) => {
                if b >= self.w.len() {
                    Err(no_weight(b))
                } else {
                    Ok(self.is_vector(b, width))
                }
            },
        }
    }

    /// Why a layer norm cannot be lowered, if it cannot.
    fn check_norm(&self, i: usize, x: Val, w: usize, b: Option<usize>, eps: u64, out: Val) -> (r:
        Result<(), String>)
        requires
            self.wf(),
            i < self.g.ops@.len(),
            self.g.has(x),
            self.g.has(out),
            self.g.ops@[i as int] == (Op::LayerNorm { x, w, b, eps, out }),
        ensures
            match r {
                Err(e) => self.refusal(i as int) == Some(e@),
                Ok(_) => self.refusal(i as int) is None,
            },
    {
        let x = self.loc(x);
        let out = self.loc(out);
        if w >= self.w.len() {
            return Err(no_weight(w));
        }
        let ok = self.is_vector(w, x.width) && self.check_bias(b, x.width)? && x.width == out.width
            && x.width <= 1024 && x.rows == out.rows;
        if !ok {
            return Err(op_message(i, "layer norm shapes do not match or are over 1024"));
        }
        Ok(())
    }

    /// Why a product cannot be lowered, if it cannot.
    fn check_gemm(
        &self,
        i: usize,
        a: Val,
        w: usize,
        b: Option<usize>,
        epilogue: Epilogue,
        out: Val,
    ) -> (r: Result<(), String>)
        requires
            self.wf(),
            i < self.g.ops@.len(),
            self.g.has(a),
            self.g.has(out),
            self.g.ops@[i as int] == (Op::Gemm { a, w, b, epilogue, out }),
        ensures
            match r {
                Err(e) => self.refusal(i as int) == Some(e@),
                Ok(_) => self.refusal(i as int) is None,
            },
    {
        let a = self.loc(a);
        let out = self.loc(out);
        if w >= self.w.len() {
            return Err(no_weight(w));
        }
        let ok = self.is_matrix(w, out.width, a.width) && self.check_bias(b, out.width)? && a.rows
            == out.rows;
        if !ok {
            return Err(op_message(i, "gemm shapes do not match"));
        }
        Ok(())
    }

    /// Why operation `i` cannot be lowered, if it cannot.
    #[verifier::rlimit(60)]
    fn check(&self, i: usize) -> (r: Result<(), String>)
        requires
            self.wf(),
            i < self.g.ops@.len(),
        ensures
            match r {
                Err(e) => self.refusal(i as int) == Some(e@),
                Ok(_) => self.refusal(i as int) is None,
            },
    {
        proof {
            self.g.wf_op(i as int);
        }
        let n: usize = self.w.len();
        match self.g.ops[i] {
            Op::Embed { table, out } => {
                let out = self.loc(out);
                if table >= n {
                    return Err(no_weight(table));
                }
                if self.w[table].len() <= 1 || self.w[table][1] != out.width || !is_tokens(
                    out.rows,
                ) {
                    return Err(op_message(i, "embedding table does not match its output"));
                }
                Ok(())
            },
            Op::LayerNorm { x, w, b, eps, out } => self.check_norm(i, x, w, b, eps, out),
            Op::Gemm { a, w, b, epilogue, out } => self.check_gemm(i, a, w, b, epilogue, out),
            Op::Rope { qkv, theta: _ } => {
                let qkv = self.loc(qkv);
                if qkv.width % (3 * HEAD) != 0 || !is_tokens(qkv.rows) {
                    return Err(op_message(i, "rope needs token rows of 3 heads 64"));
                }
                Ok(())
            },
            Op::Attention { qkv, window, out } => {
                let qkv = self.loc(qkv);
                let out = self.loc(out);
                let ok = qkv.width % (3 * HEAD) == 0 && qkv.width / 3 == out.width && is_tokens(
                    qkv.rows,
                ) && is_tokens(out.rows);
                if !ok {
                    return Err(op_message(i, "attention shapes or types do not match"));
                }
                if let Some(w) = window {
                    if w > 0x7fff_ffff {
                        return Err(op_message(i, "window"));
                    }
                }
                Ok(())
            },
            Op::GeGlu { x, out } => {
                let x = self.loc(x);
                let out = self.loc(out);
                if x.width % 2 != 0 || x.width / 2 != out.width || x.rows != out.rows {
                    return Err(op_message(i, "geglu needs an input twice its output"));
                }
                Ok(())
            },
            Op::AddType { h, table } => {
                let h = self.loc(h);
                if table >= n {
                    return Err(no_weight(table));
                }
                if self.w[table].len() <= 1 || self.w[table][1] != h.width || !is_tokens(h.rows) {
                    return Err(op_message(i, "type table does not match"));
                }
                Ok(())
            },
            Op::GatherMarkers { h, out } => {
                let h = self.loc(h);
                let out = self.loc(out);
                let ok = h.width == out.width && is_tokens(h.rows) && matches!(
                    out.rows,
                    Rows::Markers
                ) && h.ty == out.ty;
                if !ok {
                    return Err(op_message(i, "gather shapes do not match"));
                }
                Ok(())
            },
            Op::ActFeatures { h, logits, out } => {
                let h = self.loc(h);
                let logits = self.loc(logits);
                let out = self.loc(out);
                let ok = out.width >= 4 && out.width - 4 == h.width && logits.width == 1
                    && matches!(logits.rows, Rows::Markers) && matches!(out.rows, Rows::Seqs)
                    && !h.half() && !logits.half();
                if !ok {
                    return Err(op_message(i, "act feature shapes do not match"));
                }
                Ok(())
            },
            Op::MeanPool { h: _, out: _ } => Err(op_message(i, "mean pool is not on CUDA yet")),
        }
    }

    /// Whether operation `i` is a rope that the attention right after it applies.
    fn fuses_at(&self, i: usize) -> (r: bool)
        requires
            self.wf(),
            i < self.g.ops@.len(),
        ensures
            r == self.fuses(i as int),
    {
        if i >= self.g.ops.len() - 1 {
            return false;
        }
        proof {
            self.g.wf_op(i as int);
            self.g.wf_op(i + 1);
        }
        match (self.g.ops[i], self.g.ops[i + 1]) {
            (Op::Rope { qkv, theta: _ }, Op::Attention { qkv: v, window: _, out: _ }) => self.loc(
                v,
            ).ptr == self.loc(qkv).ptr,
            _ => false,
        }
    }

    /// The tables of the rope at operation `i`, with the rope bases given.
    fn rope_tables(&self, i: usize, bases: &Vec<u64>) -> (r: (u64, u64))
        requires
            self.wf(),
            i < self.g.ops@.len(),
            bases@ == thetas(self.g.ops@, self.g.ops@.len() as int),
        ensures
            r == self.tables_at(i as int),
    {
        match self.g.ops[i] {
            Op::Rope { qkv: _, theta } => {
                let mut at: usize = 0;
                proof {
                    thetas_are_the_ropes(self.g.ops@, self.g.ops@.len() as int);
                    place_is_first(bases@, theta);
                    assert(bases@.contains(theta));
                }
                let count: usize = bases.len();
                while bases[at] != theta
                    invariant
                        count == bases@.len(),
                        at <= place(bases@, theta) < bases@.len(),
                        bases@[place(bases@, theta)] == theta,
                        forall|k: int| 0 <= k < place(bases@, theta) ==> bases@[k] != theta,
                    decreases bases@.len() - at,
                {
                    at += 1;
                }
                self.dev.ropes[at]
            },
            _ => (0, 0),
        }
    }

    /// The address of a bias, 0 for none.
    fn bias(&self, b: Option<usize>) -> (r: u64)
        requires
            self.wf(),
            bias_missing(self.w@.len() as int, b) is None,
        ensures
            r == self.bias_at(b),
    {
        match b {
            Some(b) => self.dev.w32[b],
            None => 0,
        }
    }

    /// Appends the steps and the product of operation `i`.
    #[verifier::rlimit(60)]
    fn emit(&self, i: usize, bases: &Vec<u64>, steps: &mut Vec<Step>, gemms: &mut Vec<GemmSpec>)
        requires
            self.wf(),
            i < self.g.ops@.len(),
            self.refusal(i as int) is None,
            bases@ == thetas(self.g.ops@, self.g.ops@.len() as int),
            old(gemms)@ == self.gemms_of(i as int),
        ensures
            final(steps)@ == old(steps)@ + self.steps_of(i as int),
            final(gemms)@ == self.gemms_of(i + 1),
    {
        proof {
            self.g.wf_op(i as int);
        }
        let ghost before = steps@;
        match self.g.ops[i] {
            Op::Embed { table, out } => {
                steps.push(Step::Embed { table: self.dev.w32[table], out: self.loc(out) });
            },
            Op::LayerNorm { x, w, b, eps, out } => {
                let step = Step::LayerNorm {
                    x: self.loc(x),
                    w: self.dev.w32[w],
                    b: self.bias(b),
                    eps,
                    out: self.loc(out),
                };
                steps.push(step);
            },
            Op::Gemm { a, w, b, epilogue, out } => {
                let v = a;
                let a = self.loc(a);
                let out = self.loc(out);
                let m: usize = self.bucket.rows(a.rows);
                if m > 0 {
                    let mut x: u64 = a.ptr;
                    let single = matches!(a.ty, Ty::F32) && matches!(out.ty, Ty::F32);
                    if matches!(a.ty, Ty::F32) && matches!(out.ty, Ty::F16) {
                        assert(self.g.vals@[v.0 as int] == self.g.spec_shape(v));
                        let len: usize = m * a.width;
                        steps.push(Step::ToHalf { from: x, len: len as u64 });
                        x = self.dev.stage;
                    }
                    let wp: u64 = if single {
                        self.dev.w32[w]
                    } else {
                        self.dev.w16[w]
                    };
                    let (act, acc): (i32, bool) = match epilogue {
                        Epilogue::Plain => (0, false),
                        Epilogue::Gelu => (1, false),
                        Epilogue::Relu => (2, false),
                        Epilogue::Accumulate => (0, true),
                    };
                    let key = Key {
                        dims: Dims { m: self.dev.ranked_rows, k: a.width, n: out.width },
                        ab: if single {
                            Ty::F32
                        } else {
                            Ty::F16
                        },
                        c: out.ty,
                        acc,
                    };
                    let gemm: usize = gemms.len();
                    gemms.push(
                        GemmSpec {
                            dims: Dims { m, k: a.width, n: out.width },
                            key,
                            at: Places { w: wp, x, y: out.ptr },
                            pick: self.picks.get(&key),
                        },
                    );
                    steps.push(Step::Gemm { gemm, b: self.bias(b), act, out });
                }
            },
            Op::Rope { qkv, theta: _ } => {
                if !self.fuses_at(i) {
                    let (cos, sin) = self.rope_tables(i, bases);
                    steps.push(Step::Rope { qkv: self.loc(qkv), cos, sin });
                }
            },
            Op::Attention { qkv, window, out } => {
                let (cos, sin) = if i > 0 && self.fuses_at(i - 1) {
                    self.rope_tables(i - 1, bases)
                } else {
                    (0, 0)
                };
                let window: i32 = match window {
                    Some(w) => w as i32,
                    None => -1,
                };
                let step = Step::Attention {
                    qkv: self.loc(qkv),
                    cos,
                    sin,
                    window,
                    out: self.loc(out),
                };
                steps.push(step);
            },
            Op::GeGlu { x, out } => {
                steps.push(Step::GeGlu { x: self.loc(x), out: self.loc(out) });
            },
            Op::AddType { h, table } => {
                steps.push(Step::AddType { h: self.loc(h), table: self.dev.w32[table] });
            },
            Op::GatherMarkers { h, out } => {
                steps.push(Step::Gather { h: self.loc(h), out: self.loc(out) });
            },
            Op::ActFeatures { h, logits, out } => {
                let step = Step::ActFeatures {
                    h: self.loc(h),
                    logits: self.loc(logits),
                    out: self.loc(out),
                };
                steps.push(step);
            },
            Op::MeanPool { h: _, out: _ } => {},
        }
        assert(steps@ =~= before + self.steps_of(i as int));
    }

    /// Lowers the graph. It is refused with the message of its first operation whose shapes, types
    /// or weights do not fit, then for its outputs. Otherwise the plan holds the steps and the
    /// products of every operation, in order.
    pub fn lower(&self) -> (r: Result<CudaPlan, String>)
        requires
            self.wf(),
        ensures
            match r {
                Err(e) => self.lower_refusal() == Some(e@),
                Ok(p) => {
                    let n = self.g.ops@.len() as int;
                    &&& self.lower_refusal() is None
                    &&& p.bucket == self.bucket
                    &&& p.steps@ == self.all_steps(n)
                    &&& p.gemms@ == self.gemms_of(n)
                    &&& p.at.of(self.bucket)
                    &&& Some(p.logits) == (match self.g.logits {
                        Some(v) => Some(self.loc_of(v)),
                        None => None,
                    })
                    &&& Some(p.act) == (match self.g.act {
                        Some(v) => Some(self.loc_of(v)),
                        None => None,
                    })
                    &&& p.host_out == self.bucket.markers + 2 * self.bucket.seqs
                    &&& p.arena == 4 * at_least_one(self.lay.len as int)
                    &&& self.stage_of(p.stage)
                    &&& p.profile is None
                    &&& p.profiled == 0
                    &&& p.wf()
                },
            },
    {
        let bases = crate::graph::rope_bases(&self.g.ops);
        let n: usize = self.g.ops.len();
        let mut steps: Vec<Step> = Vec::new();
        let mut gemms: Vec<GemmSpec> = Vec::new();
        let mut i: usize = 0;
        while i < n
            invariant
                i <= n == self.g.ops@.len(),
                self.wf(),
                bases@ == thetas(self.g.ops@, n as int),
                self.first_refusal(i as int) is None,
                steps@ == self.all_steps(i as int),
                gemms@ == self.gemms_of(i as int),
            decreases n - i,
        {
            if let Err(e) = self.check(i) {
                proof {
                    self.refusal_stays(i + 1, n as int);
                }
                return Err(e);
            }
            self.emit(i, &bases, &mut steps, &mut gemms);
            i += 1;
        }
        let (Some(logits), Some(act)) = (self.g.logits, self.g.act) else {
            return Err("the graph has no logits or act output".to_owned());
        };
        let logits = self.loc(logits);
        let act = self.loc(act);
        if logits.width != 1 || !matches!(logits.rows, Rows::Markers) || act.width != 2 || !matches!(
            act.rows,
            Rows::Seqs
        ) {
            return Err("outputs are not one logit per marker and two per sequence".to_owned());
        }
        let at = Index::new(self.bucket);
        let staged: usize = self.stage_len();
        proof {
            self.steps_have_products(n as int);
        }
        Ok(
            CudaPlan {
                bucket: self.bucket,
                steps,
                gemms,
                at,
                logits,
                act,
                host_out: self.bucket.markers + 2 * self.bucket.seqs,
                arena: if self.lay.len == 0 {
                    4
                } else {
                    4 * self.lay.len
                },
                stage: if staged == 0 {
                    1
                } else {
                    staged
                },
                profile: None,
                profiled: 0,
            },
        )
    }
}

/// A size, or one where there is nothing.
pub open spec fn at_least_one(n: int) -> int {
    if n < 1 {
        1
    } else {
        n
    }
}

/// The kind of every step.
pub open spec fn kinds(steps: Seq<Step>) -> Seq<Seq<char>> {
    Seq::new(steps.len(), |i: int| steps[i].spec_name())
}

/// The first `n` steps that are products: their sizes and their times.
pub open spec fn products(steps: Seq<Step>, gemms: Seq<GemmSpec>, times: Seq<u64>, n: int) -> (
    Seq<Dims>,
    Seq<u64>,
)
    decreases n,
{
    if n <= 0 {
        (seq![], seq![])
    } else {
        let (d, t) = products(steps, gemms, times, n - 1);
        match steps[n - 1] {
            Step::Gemm { gemm, .. } => (d.push(gemms[gemm as int].dims), t.push(times[n - 1])),
            _ => (d, t),
        }
    }
}

/// Products are no more than steps, and take no longer.
proof fn products_bound(steps: Seq<Step>, gemms: Seq<GemmSpec>, times: Seq<u64>, n: int)
    requires
        0 <= n <= steps.len(),
        n <= times.len(),
    ensures
        ({
            let (d, t) = products(steps, gemms, times, n);
            d.len() == t.len() && d.len() <= n && total(t, t.len() as int) <= total(times, n)
        }),
    decreases n,
{
    if n > 0 {
        products_bound(steps, gemms, times, n - 1);
        let (d, t) = products(steps, gemms, times, n - 1);
        let x = times[n - 1];
        assert(total(t.push(x), t.len() as int) == total(t, t.len() as int)) by {
            total_prefix(t, x, t.len() as int);
        }
    }
}

/// A sum does not depend on what comes behind it.
proof fn total_prefix(t: Seq<u64>, x: u64, n: int)
    requires
        n <= t.len(),
    ensures
        total(t.push(x), n) == total(t, n),
    decreases n,
{
    if n > 0 {
        total_prefix(t, x, n - 1);
    }
}

/// Sizes with their times.
pub open spec fn dims_times(v: Seq<(Dims, u64, u64)>) -> Seq<(Dims, int)> {
    Seq::new(v.len(), |i: int| (v[i].0, v[i].2 as int))
}

/// Sizes with their calls.
pub open spec fn dims_calls(v: Seq<(Dims, u64, u64)>) -> Seq<(Dims, int)> {
    Seq::new(v.len(), |i: int| (v[i].0, v[i].1 as int))
}

/// The calls of `n` products, each as often as there were runs.
pub open spec fn runs(n: nat, profiled: u64) -> Seq<u64> {
    Seq::new(n, |i: int| profiled)
}

/// Calls and times per size, longest time first.
pub open spec fn by_dims(r: Seq<(Dims, u64, u64)>, dims: Seq<Dims>, times: Seq<u64>, profiled: u64) -> bool {
    let n = dims.len() as int;
    let long = grouped(dims, times, n);
    exists|order: Seq<usize>| #[trigger]
        by_size(long, order) && taken(dims_times(r), long, order) && taken(
            dims_calls(r),
            grouped(dims, runs(dims.len(), profiled), n),
            order,
        )
}

impl CudaPlan {
    /// Whether every product is one of the plan's.
    pub open spec fn wf(&self) -> bool {
        forall|i: int| 0 <= i < self.steps@.len() ==> (match #[trigger] self.steps@[i] {
            Step::Gemm { gemm, .. } => gemm < self.gemms@.len(),
            _ => true,
        })
    }

    /// The times measured so far, none without profiling.
    pub open spec fn times(&self) -> Seq<u64> {
        match self.profile {
            Some(p) => p@,
            None => seq![],
        }
    }

    /// The bucket it was built for.
    pub fn bucket(&self) -> (r: Bucket)
        ensures
            r == self.bucket,
    {
        self.bucket
    }

    /// Arena size in bytes.
    pub fn arena_bytes(&self) -> (r: usize)
        ensures
            r == self.arena,
    {
        self.arena
    }

    /// Bytes the plan holds on the device: the arena and the staging buffer.
    pub fn plan_bytes(&self) -> (r: usize)
        requires
            self.arena + 2 * self.stage <= usize::MAX,
        ensures
            r == self.arena + 2 * self.stage,
    {
        self.arena + 2 * self.stage
    }

    /// Times every step from now on, from zero.
    pub fn profile(&mut self)
        ensures
            *final(self) == (CudaPlan {
                profile: final(self).profile,
                profiled: 0,
                ..*old(self)
            }),
            final(self).profile matches Some(p) && p@ == Seq::new(
                old(self).steps@.len(),
                |i: int| 0u64,
            ),
    {
        let p: Vec<u64> = vec![0; self.steps.len()];
        assert(p@ =~= Seq::new(self.steps@.len(), |i: int| 0u64));
        self.profile = Some(p);
        self.profiled = 0;
    }

    /// Time per kind of step since [`CudaPlan::profile`], in nanoseconds, largest first, and kinds
    /// of the same time in the order of their first step.
    pub fn timings(&self) -> (r: Vec<(&'static str, u64)>)
        requires
            total(self.times(), self.times().len() as int) <= u64::MAX,
        ensures
            ({
                let kinds = kinds(self.steps@);
                sorted_from(
                    named(r@),
                    grouped(kinds, self.times(), paired(kinds, self.times())),
                )
            }),
    {
        let mut names: Vec<&'static str> = Vec::new();
        let mut i: usize = 0;
        while i < self.steps.len()
            invariant
                i <= self.steps@.len(),
                names@.len() == i,
                forall|k: int| 0 <= k < i ==> (#[trigger] names@[k])@ == self.steps@[k].spec_name(),
            decreases self.steps@.len() - i,
        {
            names.push(self.steps[i].name());
            i += 1;
        }
        assert(names_of(names@) =~= kinds(self.steps@));
        let none: Vec<u64> = Vec::new();
        let times: &Vec<u64> = match &self.profile {
            Some(p) => p,
            None => &none,
        };
        assert(times@ == self.times());
        by_name(&names, times)
    }

    /// Time per product size since [`CudaPlan::profile`]: the size, the calls over all timed runs
    /// and nanoseconds, longest first.
    pub fn gemm_timings(&self) -> (r: Vec<(Dims, u64, u64)>)
        requires
            self.wf(),
            total(self.times(), self.times().len() as int) <= u64::MAX,
            self.steps@.len() * self.profiled <= u64::MAX,
        ensures
            ({
                let n = paired(self.steps@, self.times());
                let (dims, times) = products(self.steps@, self.gemms@, self.times(), n);
                by_dims(r@, dims, times, self.profiled)
            }),
    {
        let none: Vec<u64> = Vec::new();
        let times: &Vec<u64> = match &self.profile {
            Some(p) => p,
            None => &none,
        };
        assert(times@ == self.times());
        let n: usize = if times.len() < self.steps.len() {
            times.len()
        } else {
            self.steps.len()
        };
        let mut dims: Vec<Dims> = Vec::new();
        let mut ns: Vec<u64> = Vec::new();
        let mut i: usize = 0;
        while i < n
            invariant
                i <= n == paired(self.steps@, times@),
                self.wf(),
                (dims@, ns@) == products(self.steps@, self.gemms@, times@, i as int),
            decreases n - i,
        {
            match self.steps[i] {
                Step::Gemm { gemm, b: _, act: _, out: _ } => {
                    assert(self.steps@[i as int] is Gemm);
                    dims.push(self.gemms[gemm].dims);
                    ns.push(times[i]);
                },
                _ => {},
            }
            i += 1;
        }
        proof {
            products_bound(self.steps@, self.gemms@, times@, n as int);
            crate::times::total_grows(times@, n as int, times@.len() as int);
            assert(dims@.len() * self.profiled <= self.steps@.len() * self.profiled)
                by (nonlinear_arith)
                requires
                    dims@.len() <= self.steps@.len(),
                    0 <= self.profiled,
            ;
        }
        group_dims(&dims, &ns, self.profiled)
    }
}

/// Calls and times per size, longest time first.
fn group_dims(dims: &Vec<Dims>, ns: &Vec<u64>, profiled: u64) -> (r: Vec<(Dims, u64, u64)>)
    requires
        dims@.len() == ns@.len(),
        total(ns@, ns@.len() as int) <= u64::MAX,
        dims@.len() * profiled <= u64::MAX,
    ensures
        by_dims(r@, dims@, ns@, profiled),
{
    let ghost each = runs(dims@.len(), profiled);
    let mut by: Vec<Dims> = Vec::new();
    let mut calls: Vec<u64> = Vec::new();
    let mut sums: Vec<u64> = Vec::new();
    let ghost mut long: Seq<(Dims, int)> = seq![];
    let ghost mut often: Seq<(Dims, int)> = seq![];
    let mut i: usize = 0;
    while i < dims.len()
        invariant
            i <= dims@.len() == ns@.len(),
            each == runs(dims@.len(), profiled),
            total(ns@, ns@.len() as int) <= u64::MAX,
            dims@.len() * profiled <= u64::MAX,
            by@.len() == sums@.len() == calls@.len(),
            long == grouped(dims@, ns@, i as int),
            often == grouped(dims@, each, i as int),
            long == Seq::new(by@.len(), |k: int| (by@[k], sums@[k] as int)),
            often == Seq::new(by@.len(), |k: int| (by@[k], calls@[k] as int)),
            forall|k: int| 0 <= k < sums@.len() ==> sums@[k] <= total(ns@, i as int),
            forall|k: int| 0 <= k < calls@.len() ==> calls@[k] <= i * profiled,
        decreases dims@.len() - i,
    {
        let d = dims[i];
        let t: u64 = ns[i];
        proof {
            crate::times::total_grows(ns@, i + 1, ns@.len() as int);
            crate::times::total_grows(ns@, 0, i as int);
            assert(total(ns@, i + 1) == total(ns@, i as int) + t);
            assert(i * profiled + profiled == (i + 1) * profiled && (i + 1) * profiled
                <= dims@.len() * profiled && 0 <= i * profiled) by (nonlinear_arith)
                requires
                    i < dims@.len(),
                    0 <= profiled,
                    0 <= i,
            ;
        }
        let mut k: usize = 0;
        while k < by.len() && by[k] != d
            invariant
                k <= by@.len() == long.len(),
                by@.len() == often.len(),
                by@.len() == sums@.len() == calls@.len(),
                long == Seq::new(by@.len(), |k: int| (by@[k], sums@[k] as int)),
                often == Seq::new(by@.len(), |k: int| (by@[k], calls@[k] as int)),
                forall|j: int| 0 <= j < k ==> by@[j] != d,
            decreases by@.len() - k,
        {
            k += 1;
        }
        proof {
            is_first(long, d, k as int);
            is_first(often, d, k as int);
            long = added(long, d, t as int);
            often = added(often, d, profiled as int);
        }
        if k < by.len() {
            let (a, b): (u64, u64) = (calls[k] + profiled, sums[k] + t);
            calls.set(k, a);
            sums.set(k, b);
        } else {
            by.push(d);
            calls.push(profiled);
            sums.push(t);
        }
        assert(long =~= Seq::new(by@.len(), |k: int| (by@[k], sums@[k] as int)));
        assert(often =~= Seq::new(by@.len(), |k: int| (by@[k], calls@[k] as int)));
        i += 1;
    }
    let order = largest_first(&sums);
    let ghost plain = Seq::new(sums@.len(), |i: int| ((), sums@[i] as int));
    let mut out: Vec<(Dims, u64, u64)> = Vec::new();
    let mut k: usize = 0;
    while k < order.len()
        invariant
            k <= order@.len() == sums@.len() == by@.len() == calls@.len(),
            plain == Seq::new(sums@.len(), |i: int| ((), sums@[i] as int)),
            by_size(plain, order@),
            out@ == Seq::new(
                k as nat,
                |j: int|
                    (by@[order@[j] as int], calls@[order@[j] as int], sums@[order@[j] as int]),
            ),
        decreases order@.len() - k,
    {
        let at: usize = order[k];
        out.push((by[at], calls[at], sums[at]));
        k += 1;
        assert(out@ =~= Seq::new(
            k as nat,
            |j: int| (by@[order@[j] as int], calls@[order@[j] as int], sums@[order@[j] as int]),
        ));
    }
    proof {
        same_order(plain, long, order@);
        assert(dims_times(out@) =~= Seq::new(order@.len(), |i: int| long[order@[i] as int]));
        assert(dims_calls(out@) =~= Seq::new(order@.len(), |i: int| often[order@[i] as int]));
        assert(by_size(long, order@) && taken(dims_times(out@), long, order@) && taken(
            dims_calls(out@),
            often,
            order@,
        ));
    }
    out
}

/// The elements of weights on the device: of FP32 ones, and of FP16 copies.
pub open spec fn weight_size(f32s: Seq<usize>, f16s: Seq<Option<usize>>, n: int) -> int
    decreases n,
{
    if n <= 0 {
        0
    } else {
        weight_size(f32s, f16s, n - 1) + 4 * f32s[n - 1] + (match f16s[n - 1] {
            Some(h) => 2 * h,
            None => 0,
        })
    }
}

/// Fewer weights take no more.
proof fn weight_size_grows(f32s: Seq<usize>, f16s: Seq<Option<usize>>, m: int, n: int)
    requires
        0 <= m <= n,
    ensures
        0 <= weight_size(f32s, f16s, m) <= weight_size(f32s, f16s, n),
    decreases n,
{
    if m < n {
        weight_size_grows(f32s, f16s, m, n - 1);
    } else if m > 0 {
        weight_size_grows(f32s, f16s, m - 1, n - 1);
    }
}

/// Bytes of the weights on the device: four for every FP32 element, and two for every element of
/// an FP16 copy that was made.
pub fn weight_bytes(f32s: &Vec<usize>, f16s: &Vec<Option<usize>>) -> (r: usize)
    requires
        f32s@.len() == f16s@.len(),
        weight_size(f32s@, f16s@, f32s@.len() as int) <= usize::MAX,
    ensures
        r == weight_size(f32s@, f16s@, f32s@.len() as int),
{
    let mut r: usize = 0;
    let mut i: usize = 0;
    while i < f32s.len()
        invariant
            i <= f32s@.len() == f16s@.len(),
            weight_size(f32s@, f16s@, f32s@.len() as int) <= usize::MAX,
            r == weight_size(f32s@, f16s@, i as int),
        decreases f32s@.len() - i,
    {
        proof {
            weight_size_grows(f32s@, f16s@, i + 1, f32s@.len() as int);
            weight_size_grows(f32s@, f16s@, 0, i as int);
        }
        r = r + 4 * f32s[i];
        if let Some(h) = f16s[i] {
            r = r + 2 * h;
        }
        i += 1;
    }
    r
}

/// Whether rows are tokens.
fn is_tokens(r: Rows) -> (b: bool)
    ensures
        b == (r == Rows::Tokens),
{
    matches!(r, Rows::Tokens)
}

/// What a device holds that steps read and never write: which weight stands at an address, and
/// which base the cosine and sine tables at two addresses were made for.
pub struct Holding {
    /// The weight at an address.
    pub weight: spec_fn(u64) -> usize,
    /// The base of two tables.
    pub base: spec_fn(u64, u64) -> u64,
}

impl Holding {
    /// The bias at an address, where 0 stands for none.
    pub open spec fn bias(self, b: u64) -> Option<usize> {
        if b == 0 {
            None
        } else {
            Some((self.weight)(b))
        }
    }
}

impl<'a> Input<'a> {
    /// Whether a device holds what lowering was told: every weight and every table at its address,
    /// none of them at 0.
    pub open spec fn held(&self, h: Holding) -> bool {
        let bases = thetas(self.g.ops@, self.g.ops@.len() as int);
        &&& forall|i: int| #![trigger self.dev.w32@[i]]
            0 <= i < self.w@.len() ==> self.dev.w32@[i] != 0 && (h.weight)(self.dev.w32@[i]) == i
        &&& forall|i: int| #![trigger self.dev.w16@[i]]
            0 <= i < self.w@.len() ==> (h.weight)(self.dev.w16@[i]) == i
        &&& forall|i: int| #![trigger self.dev.ropes@[i]]
            0 <= i < bases.len() ==> self.dev.ropes@[i].0 != 0 && (h.base)(
                self.dev.ropes@[i].0,
                self.dev.ropes@[i].1,
            ) == bases[i]
    }

    /// Whether every value has its own address, and none has that of the staging buffer.
    pub open spec fn apart(&self) -> bool {
        &&& forall|u: Val, v: Val|
            self.g.has(u) && self.g.has(v) && u != v ==> (#[trigger] self.loc_of(u)).ptr != (
            #[trigger] self.loc_of(v)).ptr
        &&& forall|u: Val| self.g.has(u) ==> (#[trigger] self.loc_of(u)).ptr != self.dev.stage
    }

    /// Whether the memory holds the values, each at its address.
    pub open spec fn holds(&self, m: Map<u64, Term>, vals: Map<u32, Term>) -> bool {
        forall|v: Val| self.g.has(v) ==> m[(#[trigger] self.loc_of(v)).ptr] == vals[v.0]
    }

    /// What the memory holds after a step, by address. A value in FP16 is the value it rounds.
    /// Attention turns what it reads when it is given tables, and leaves it as it was.
    pub open spec fn after_step(&self, h: Holding, m: Map<u64, Term>, step: Step) -> Map<
        u64,
        Term,
    > {
        match step {
            Step::Embed { table, out } => m.insert(
                out.ptr,
                Term::Tokens { table: (h.weight)(table) },
            ),
            Step::LayerNorm { x, w, b, eps, out } => m.insert(
                out.ptr,
                Term::Normed { x: Box::new(m[x.ptr]), w: (h.weight)(w), b: h.bias(b), eps },
            ),
            Step::ToHalf { from, .. } => m.insert(self.dev.stage, m[from]),
            Step::Gemm { gemm, b, act, .. } => {
                let s = self.gemms_of(self.g.ops@.len() as int)[gemm as int];
                let p = Term::Product {
                    x: Box::new(m[s.at.x]),
                    k: Some(s.dims.k),
                    w: (h.weight)(s.at.w),
                    b: h.bias(b),
                };
                m.insert(
                    s.at.y,
                    if s.key.acc {
                        Term::Sum { x: Box::new(m[s.at.y]), y: Box::new(p) }
                    } else if act == 1 {
                        Term::Gelu { x: Box::new(p) }
                    } else if act == 2 {
                        Term::Relu { x: Box::new(p) }
                    } else {
                        p
                    },
                )
            },
            Step::Rope { qkv, cos, sin } => m.insert(
                qkv.ptr,
                Term::Turned { x: Box::new(m[qkv.ptr]), theta: (h.base)(cos, sin) },
            ),
            Step::Attention { qkv, cos, sin, window, out } => m.insert(
                out.ptr,
                Term::Attention {
                    x: Box::new(
                        if cos == 0 {
                            m[qkv.ptr]
                        } else {
                            Term::Turned { x: Box::new(m[qkv.ptr]), theta: (h.base)(cos, sin) }
                        },
                    ),
                    reach: if window < 0 {
                        None
                    } else {
                        Some(window as usize)
                    },
                },
            ),
            Step::GeGlu { x, out } => m.insert(
                out.ptr,
                Term::Gated { x: Box::new(m[x.ptr]), width: out.width },
            ),
            Step::AddType { h: x, table } => m.insert(
                x.ptr,
                Term::Sum {
                    x: Box::new(m[x.ptr]),
                    y: Box::new(Term::Types { table: (h.weight)(table) }),
                },
            ),
            Step::Gather { h: x, out } => m.insert(
                out.ptr,
                Term::Marked { x: Box::new(m[x.ptr]) },
            ),
            Step::ActFeatures { h: x, logits, out } => m.insert(
                out.ptr,
                Term::Features { x: Box::new(m[x.ptr]), logits: Box::new(m[logits.ptr]) },
            ),
        }
    }

    /// What the memory holds after steps.
    pub open spec fn after_steps(&self, h: Holding, m: Map<u64, Term>, steps: Seq<Step>) -> Map<
        u64,
        Term,
    >
        decreases steps.len(),
    {
        if steps.len() == 0 {
            m
        } else {
            self.after_step(h, self.after_steps(h, m, steps.drop_last()), steps.last())
        }
    }

    /// A product keeps its number as operations follow.
    proof fn products_stay(&self, i: int, n: int)
        requires
            0 <= i < n <= self.g.ops@.len(),
            self.runs_gemm(i),
        ensures
            self.gemms_of(i).len() < self.gemms_of(n).len(),
            self.gemms_of(n)[self.gemms_of(i).len() as int] == self.gemm_of(i),
        decreases n,
    {
        if n > i + 1 {
            self.products_stay(i, n - 1);
        }
    }

    /// No operation before a refusal is refused.
    proof fn none_refused(&self, i: int)
        requires
            0 <= i < self.g.ops@.len(),
            self.first_refusal(self.g.ops@.len() as int) is None,
        ensures
            self.refusal(i) is None,
    {
        if self.refusal(i) is Some {
            assert(self.first_refusal(i + 1) is Some);
            self.refusal_stays(i + 1, self.g.ops@.len() as int);
        }
    }

    /// Tables were made for every rope.
    proof fn rope_has_tables(&self, h: Holding, i: int)
        requires
            self.wf(),
            self.held(h),
            0 <= i < self.g.ops@.len(),
            self.g.ops@[i] is Rope,
        ensures
            self.tables_at(i).0 != 0,
            (h.base)(self.tables_at(i).0, self.tables_at(i).1) == self.g.ops@[i]->theta,
    {
        let bases = thetas(self.g.ops@, self.g.ops@.len() as int);
        let theta = self.g.ops@[i]->theta;
        thetas_are_the_ropes(self.g.ops@, self.g.ops@.len() as int);
        assert(bases.contains(theta));
        place_is_first(bases, theta);
        assert(self.dev.ropes@[place(bases, theta)].0 != 0);
    }

    /// The steps of an operation compute it: on a memory that holds the values they leave one that
    /// holds the values after the operation. A product has rows to run on, and a rope is not one
    /// that the attention behind it applies.
    pub proof fn the_steps_compute_the_operation(
        &self,
        h: Holding,
        m: Map<u64, Term>,
        vals: Map<u32, Term>,
        i: int,
    )
        requires
            self.wf(),
            self.held(h),
            self.apart(),
            self.holds(m, vals),
            self.first_refusal(self.g.ops@.len() as int) is None,
            0 <= i < self.g.ops@.len(),
            self.g.ops@[i] is Gemm ==> self.runs_gemm(i),
            !self.fuses(i),
            !self.fuses(i - 1),
        ensures
            self.holds(
                self.after_steps(h, m, self.steps_of(i)),
                self.g.after_op(vals, self.g.ops@[i]),
            ),
    {
        let op = self.g.ops@[i];
        let steps = self.steps_of(i);
        self.g.wf_op(i);
        self.none_refused(i);
        assert(self.g.ops.len() == self.g.ops@.len());
        reveal_with_fuel(Input::after_steps, 3);
        match op {
            Op::Gemm { a, w, b, epilogue, out } => {
                self.products_stay(i, self.g.ops@.len() as int);
                self.gemms_grow(i, i);
                assert(self.loc_of(a).ptr != self.dev.stage);
                assert(self.loc_of(out).ptr != self.dev.stage);
                if steps.len() == 2 {
                    assert(steps.drop_last() =~= seq![steps[0]]);
                    assert(steps.drop_last().drop_last() =~= seq![]);
                } else {
                    assert(steps.drop_last() =~= seq![]);
                }
                if let Some(b) = b {
                    assert(self.dev.w32@[b as int] != 0);
                }
            },
            Op::Rope { qkv, theta } => {
                self.rope_has_tables(h, i);
                assert(steps.drop_last() =~= seq![]);
            },
            Op::LayerNorm { b, .. } => {
                assert(steps.drop_last() =~= seq![]);
                if let Some(b) = b {
                    assert(self.dev.w32@[b as int] != 0);
                }
            },
            _ => {
                assert(steps.len() == 1);
                assert(steps.drop_last() =~= seq![]);
            },
        }
    }

    /// A rope and the attention that applies it as it loads compute both operations: the memory
    /// then holds every value but the rope's own, which no rope has turned there.
    pub proof fn a_fused_rope_is_applied(
        &self,
        h: Holding,
        m: Map<u64, Term>,
        vals: Map<u32, Term>,
        i: int,
        v: Val,
    )
        requires
            self.wf(),
            self.held(h),
            self.apart(),
            self.holds(m, vals),
            self.first_refusal(self.g.ops@.len() as int) is None,
            self.fuses(i),
            self.g.has(v),
            self.g.ops@[i] matches Op::Rope { qkv, .. } && qkv != v,
        ensures
            self.after_steps(h, m, self.steps_of(i) + self.steps_of(i + 1))[self.loc_of(v).ptr]
                == self.g.after_op(
                self.g.after_op(vals, self.g.ops@[i]),
                self.g.ops@[i + 1],
            )[v.0],
    {
        let steps = self.steps_of(i) + self.steps_of(i + 1);
        self.g.wf_op(i);
        self.g.wf_op(i + 1);
        self.none_refused(i + 1);
        self.rope_has_tables(h, i);
        reveal_with_fuel(Input::after_steps, 2);
        assert(steps =~= self.steps_of(i + 1));
        assert(steps.drop_last() =~= seq![]);
        if let Op::Attention { qkv, out, .. } = self.g.ops@[i + 1] {
            assert(m[self.loc_of(qkv).ptr] == vals[qkv.0]);
            assert(self.g.has(out));
        }
    }
}

} // verus!
