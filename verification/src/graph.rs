//! The graph a backend lowers: values, operations over them, and the buckets plans are built for.

use crate::cpu::compat::Term;
use vstd::prelude::*;

verus! {

/// Width of one attention head.
pub const HEAD: usize = 64;

/// What the rows of a value stand for.
#[derive(Debug, Clone, Copy, PartialEq, Eq, Structural)]
pub enum Rows {
    /// One row per token.
    Tokens,
    /// One row per sequence.
    Seqs,
    /// One row per option marker.
    Markers,
}

/// The shape of a value.
#[derive(Debug, Clone, Copy, PartialEq, Eq, Structural)]
pub struct Shape {
    /// What its rows are.
    pub rows: Rows,
    /// Values per row.
    pub width: usize,
}

/// A value of a graph, by its number.
#[derive(Debug, Clone, Copy, PartialEq, Eq, Structural)]
pub struct Val(pub u32);

/// What happens to each result of a matrix product.
#[derive(Debug, Clone, Copy, PartialEq, Eq, Structural)]
pub enum Epilogue {
    /// Nothing.
    Plain,
    /// GELU.
    Gelu,
    /// ReLU.
    Relu,
    /// Added to what the output holds.
    Accumulate,
}

/// One operation. Weights are named by their number in the checkpoint, and real numbers are kept
/// as the bits of an IEEE double.
#[derive(Debug, Clone, Copy, PartialEq, Eq, Structural)]
pub enum Op {
    /// Rows of a table, picked by token id.
    Embed { table: usize, out: Val },
    /// Layer norm.
    LayerNorm { x: Val, w: usize, b: Option<usize>, eps: u64, out: Val },
    /// A matrix product with a weight.
    Gemm { a: Val, w: usize, b: Option<usize>, epilogue: Epilogue, out: Val },
    /// Rotary positions, in place on q and k.
    Rope { qkv: Val, theta: u64 },
    /// Self attention.
    Attention { qkv: Val, window: Option<usize>, out: Val },
    /// The gated activation.
    GeGlu { x: Val, out: Val },
    /// The question type's row added to every token row, in place.
    AddType { h: Val, table: usize },
    /// The token rows at the markers.
    GatherMarkers { h: Val, out: Val },
    /// The first token row of each sequence and four numbers about its logits.
    ActFeatures { h: Val, logits: Val, out: Val },
    /// The mean of each sequence's token rows.
    MeanPool { h: Val, out: Val },
}

/// A list of operations over values.
#[derive(Debug)]
pub struct Graph {
    /// The operations, in order.
    pub ops: Vec<Op>,
    /// The shape of every value.
    pub vals: Vec<Shape>,
    /// The option logits.
    pub logits: Option<Val>,
    /// The act logits.
    pub act: Option<Val>,
}

/// The row counts a plan is built for.
#[derive(Debug, Clone, Copy, PartialEq, Eq, Structural)]
pub struct Bucket {
    /// Tokens.
    pub tokens: usize,
    /// Sequences.
    pub seqs: usize,
    /// Markers.
    pub markers: usize,
}

impl Bucket {
    /// How many rows of a kind the bucket has.
    pub open spec fn spec_rows(self, r: Rows) -> usize {
        match r {
            Rows::Tokens => self.tokens,
            Rows::Seqs => self.seqs,
            Rows::Markers => self.markers,
        }
    }

    /// How many rows of a kind the bucket has.
    #[verifier::when_used_as_spec(spec_rows)]
    pub fn rows(self, r: Rows) -> (n: usize)
        ensures
            n == self.spec_rows(r),
    {
        match r {
            Rows::Tokens => self.tokens,
            Rows::Seqs => self.seqs,
            Rows::Markers => self.markers,
        }
    }

    /// Whether a batch of these counts fits.
    pub open spec fn spec_holds(self, tokens: int, seqs: int, markers: int) -> bool {
        tokens <= self.tokens && seqs <= self.seqs && markers <= self.markers
    }

    /// Whether a batch of these counts fits.
    pub fn holds(self, tokens: usize, seqs: usize, markers: usize) -> (r: bool)
        ensures
            r == self.spec_holds(tokens as int, seqs as int, markers as int),
    {
        tokens <= self.tokens && seqs <= self.seqs && markers <= self.markers
    }
}

/// Where an arena keeps each value, in elements, and how long it is.
#[derive(Debug)]
pub struct Layout {
    /// The offset of every value.
    pub offsets: Vec<usize>,
    /// Elements in all.
    pub len: usize,
}

impl Layout {
    /// Every value of the graph has a place that holds its rows in the bucket.
    pub open spec fn fits(&self, g: &Graph, b: Bucket) -> bool {
        &&& self.offsets@.len() == g.vals@.len()
        &&& forall|v: int| #![trigger g.vals@[v]]
            0 <= v < g.vals@.len() ==> self.offsets@[v] + b.spec_rows(g.vals@[v].rows)
                * g.vals@[v].width <= self.len
    }
}

/// The values an operation names.
pub open spec fn op_vals(op: Op) -> Seq<Val> {
    match op {
        Op::Embed { out, .. } => seq![out],
        Op::LayerNorm { x, out, .. } => seq![x, out],
        Op::Gemm { a, out, .. } => seq![a, out],
        Op::Rope { qkv, .. } => seq![qkv],
        Op::Attention { qkv, out, .. } => seq![qkv, out],
        Op::GeGlu { x, out } => seq![x, out],
        Op::AddType { h, .. } => seq![h],
        Op::GatherMarkers { h, out } => seq![h, out],
        Op::ActFeatures { h, logits, out } => seq![h, logits, out],
        Op::MeanPool { h, out } => seq![h, out],
    }
}

impl Graph {
    /// Whether a value exists.
    pub open spec fn has(&self, v: Val) -> bool {
        v.0 < self.vals@.len()
    }

    /// Every value that is named exists.
    pub open spec fn wf(&self) -> bool {
        &&& forall|i: int, j: int|
            0 <= i < self.ops@.len() && 0 <= j < op_vals(self.ops@[i]).len() ==> self.has(
                #[trigger] op_vals(self.ops@[i])[j],
            )
        &&& self.logits matches Some(v) ==> self.has(v)
        &&& self.act matches Some(v) ==> self.has(v)
    }

    /// The shape of a value.
    pub open spec fn spec_shape(&self, v: Val) -> Shape {
        self.vals@[v.0 as int]
    }

    /// The shape of a value.
    pub fn shape(&self, v: Val) -> (s: Shape)
        requires
            self.has(v),
        ensures
            s == self.spec_shape(v),
    {
        self.vals[v.0 as usize]
    }

    /// What [`wf`](Graph::wf) says of one operation.
    pub proof fn wf_op(&self, i: int)
        requires
            self.wf(),
            0 <= i < self.ops@.len(),
        ensures
            match self.ops@[i] {
                Op::Embed { out, .. } => self.has(out),
                Op::LayerNorm { x, out, .. } => self.has(x) && self.has(out),
                Op::Gemm { a, out, .. } => self.has(a) && self.has(out),
                Op::Rope { qkv, .. } => self.has(qkv),
                Op::Attention { qkv, out, .. } => self.has(qkv) && self.has(out),
                Op::GeGlu { x, out } => self.has(x) && self.has(out),
                Op::AddType { h, .. } => self.has(h),
                Op::GatherMarkers { h, out } => self.has(h) && self.has(out),
                Op::ActFeatures { h, logits, out } => self.has(h) && self.has(logits) && self.has(
                    out,
                ),
                Op::MeanPool { h, out } => self.has(h) && self.has(out),
            },
    {
        let vs = op_vals(self.ops@[i]);
        assert(vs.len() > 0 ==> self.has(vs[0]));
        assert(vs.len() > 1 ==> self.has(vs[1]));
        assert(vs.len() > 2 ==> self.has(vs[2]));
    }
}

/// `"op {i}: {tail}"`.
pub open spec fn op_text(i: int, tail: Seq<char>) -> Seq<char> {
    "op "@ + crate::text::dec(i as nat) + ": "@ + tail
}

/// `"op {i}: {tail}"`.
pub fn op_message(i: usize, tail: &str) -> (r: String)
    ensures
        r@ == op_text(i as int, tail@),
{
    let mut r = "op ".to_owned();
    r.append(crate::text::decimal(i as u64).as_str());
    r.append(": ");
    r.append(tail);
    r
}

/// `"weight {i} is not in the checkpoint"`.
pub open spec fn no_weight_text(i: int) -> Seq<char> {
    "weight "@ + crate::text::dec(i as nat) + " is not in the checkpoint"@
}

/// `"weight {i} is not in the checkpoint"`.
pub fn no_weight(i: usize) -> (r: String)
    ensures
        r@ == no_weight_text(i as int),
{
    let mut r = "weight ".to_owned();
    r.append(crate::text::decimal(i as u64).as_str());
    r.append(" is not in the checkpoint");
    r
}

/// The bits of the theta of every rope in the first `n` operations, each once, in the order they
/// first appear.
pub open spec fn thetas(ops: Seq<Op>, n: int) -> Seq<u64>
    decreases n,
{
    if n <= 0 {
        seq![]
    } else {
        let before = thetas(ops, n - 1);
        match ops[n - 1] {
            Op::Rope { theta, .. } => if before.contains(theta) {
                before
            } else {
                before.push(theta)
            },
            _ => before,
        }
    }
}

/// The bits of the theta of every rope, each once, in the order they first appear.
pub fn rope_bases(ops: &Vec<Op>) -> (r: Vec<u64>)
    ensures
        r@ == thetas(ops@, ops@.len() as int),
{
    let mut r: Vec<u64> = Vec::new();
    let mut i: usize = 0;
    while i < ops.len()
        invariant
            i <= ops@.len(),
            r@ == thetas(ops@, i as int),
        decreases ops@.len() - i,
    {
        if let Op::Rope { qkv: _, theta } = ops[i] {
            let mut k: usize = 0;
            while k < r.len() && r[k] != theta
                invariant
                    k <= r@.len(),
                    forall|j: int| 0 <= j < k ==> r@[j] != theta,
                decreases r@.len() - k,
            {
                k += 1;
            }
            if k == r.len() {
                r.push(theta);
            }
        }
        i += 1;
    }
    r
}

/// The theta lists only grow.
pub proof fn thetas_grow(ops: Seq<Op>, m: int, n: int)
    requires
        0 <= m <= n,
    ensures
        thetas(ops, m).is_prefix_of(thetas(ops, n)),
    decreases n - m,
{
    if m < n {
        thetas_grow(ops, m, n - 1);
    }
}

/// No theta appears twice, every rope's theta appears, and nothing else does.
pub proof fn thetas_are_the_ropes(ops: Seq<Op>, n: int)
    requires
        0 <= n <= ops.len(),
    ensures
        thetas(ops, n).no_duplicates(),
        thetas(ops, n).len() <= n,
        forall|i: int| #![trigger ops[i]]
            0 <= i < n ==> (ops[i] matches Op::Rope { theta, .. } ==> thetas(ops, n).contains(
                theta,
            )),
        forall|t: u64| #[trigger] thetas(ops, n).contains(t) ==> exists|i: int| #![trigger ops[i]]
            0 <= i < n && (ops[i] matches Op::Rope { theta, .. } && theta == t),
    decreases n,
{
    if n > 0 {
        thetas_are_the_ropes(ops, n - 1);
        let before = thetas(ops, n - 1);
        let after = thetas(ops, n);
        assert(after.last() == after[after.len() - 1] || after.len() == 0);
        assert forall|i: int| #![trigger ops[i]] 0 <= i < n implies (ops[i] matches Op::Rope {
            theta,
            ..
        } ==> after.contains(theta)) by {
            if let Op::Rope { theta, .. } = ops[i] {
                if i < n - 1 {
                    assert(before.contains(theta));
                    let k = choose|k: int| 0 <= k < before.len() && before[k] == theta;
                    assert(after[k] == theta);
                } else if !before.contains(theta) {
                    assert(after[before.len() as int] == theta);
                }
            }
        }
        assert forall|t: u64| #[trigger] after.contains(t) implies exists|i: int|
            #![trigger ops[i]]
            0 <= i < n && (ops[i] matches Op::Rope { theta, .. } && theta == t) by {
            if before.contains(t) {
                let i = choose|i: int| #![trigger ops[i]]
                    0 <= i < n - 1 && (ops[i] matches Op::Rope { theta, .. } && theta == t);
                assert(0 <= i < n);
            } else {
                assert(ops[n - 1] matches Op::Rope { theta, .. } && theta == t);
            }
        }
    }
}

/// Where `t` stands in `ts`, or the length.
pub open spec fn place(ts: Seq<u64>, t: u64) -> int
    decreases ts.len(),
{
    if ts.len() == 0 {
        0
    } else if ts[0] == t {
        0
    } else {
        1 + place(ts.drop_first(), t)
    }
}

/// [`place`] is the first index that holds `t`.
pub proof fn place_is_first(ts: Seq<u64>, t: u64)
    ensures
        0 <= place(ts, t) <= ts.len(),
        ts.contains(t) <==> place(ts, t) < ts.len(),
        place(ts, t) < ts.len() ==> ts[place(ts, t)] == t,
        forall|i: int| 0 <= i < place(ts, t) ==> ts[i] != t,
    decreases ts.len(),
{
    if ts.len() > 0 {
        let rest = ts.drop_first();
        place_is_first(rest, t);
        if ts[0] == t {
            assert(ts.contains(t));
        } else {
            let p = place(rest, t);
            if p < rest.len() {
                assert(ts[p + 1] == t);
            }
            assert forall|i: int| 0 <= i < p + 1 implies ts[i] != t by {
                if i > 0 {
                    assert(ts[i] == rest[i - 1]);
                }
            }
            if ts.contains(t) {
                let k = choose|k: int| 0 <= k < ts.len() && ts[k] == t;
                assert(rest[k - 1] == t);
            }
        }
    }
}

/// The index of `t` in a list without repeats.
pub proof fn place_unique(ts: Seq<u64>, t: u64, i: int)
    requires
        0 <= i < ts.len(),
        ts[i] == t,
        ts.no_duplicates(),
    ensures
        place(ts, t) == i,
{
    place_is_first(ts, t);
    assert(ts.contains(t));
}

/// The values an operation names.
fn names(op: Op) -> (r: Vec<Val>)
    ensures
        r@ == op_vals(op),
{
    let mut r: Vec<Val> = Vec::new();
    match op {
        Op::Embed { table: _, out } => r.push(out),
        Op::LayerNorm { x, w: _, b: _, eps: _, out } => {
            r.push(x);
            r.push(out);
        },
        Op::Gemm { a, w: _, b: _, epilogue: _, out } => {
            r.push(a);
            r.push(out);
        },
        Op::Rope { qkv, theta: _ } => r.push(qkv),
        Op::Attention { qkv, window: _, out } => {
            r.push(qkv);
            r.push(out);
        },
        Op::GeGlu { x, out } => {
            r.push(x);
            r.push(out);
        },
        Op::AddType { h, table: _ } => r.push(h),
        Op::GatherMarkers { h, out } => {
            r.push(h);
            r.push(out);
        },
        Op::ActFeatures { h, logits, out } => {
            r.push(h);
            r.push(logits);
            r.push(out);
        },
        Op::MeanPool { h, out } => {
            r.push(h);
            r.push(out);
        },
    }
    assert(r@ =~= op_vals(op));
    r
}

impl Graph {
    /// Whether every value that is named is there: what [`Graph::wf`] says.
    pub fn is_whole(&self) -> (r: bool)
        ensures
            r == self.wf(),
    {
        let n: usize = self.vals.len();
        let mut i: usize = 0;
        while i < self.ops.len()
            invariant
                i <= self.ops@.len(),
                n == self.vals@.len(),
                forall|k: int, j: int|
                    0 <= k < i && 0 <= j < op_vals(self.ops@[k]).len() ==> self.has(
                        #[trigger] op_vals(self.ops@[k])[j],
                    ),
            decreases self.ops@.len() - i,
        {
            let v = names(self.ops[i]);
            let mut j: usize = 0;
            while j < v.len()
                invariant
                    i < self.ops@.len(),
                    j <= v@.len(),
                    v@ == op_vals(self.ops@[i as int]),
                    n == self.vals@.len(),
                    forall|k: int| 0 <= k < j ==> self.has(#[trigger] v@[k]),
                decreases v@.len() - j,
            {
                if v[j].0 as usize >= n {
                    assert(!self.has(op_vals(self.ops@[i as int])[j as int]));
                    return false;
                }
                assert(self.has(v@[j as int]));
                j += 1;
            }
            assert forall|k: int, j: int|
                0 <= k < i + 1 && 0 <= j < op_vals(self.ops@[k]).len() implies self.has(
                #[trigger] op_vals(self.ops@[k])[j],
            ) by {
                if k == i {
                    assert(self.has(v@[j]));
                }
            }
            i += 1;
        }
        let logits = match self.logits {
            Some(v) => (v.0 as usize) < n,
            None => true,
        };
        let act = match self.act {
            Some(v) => (v.0 as usize) < n,
            None => true,
        };
        logits && act
    }
}

impl Layout {
    /// Whether the arena holds every value of a bucket: what [`Layout::fits`] says.
    pub fn covers(&self, g: &Graph, b: Bucket) -> (r: bool)
        ensures
            r == self.fits(g, b),
    {
        if self.offsets.len() != g.vals.len() {
            return false;
        }
        let mut i: usize = 0;
        while i < g.vals.len()
            invariant
                i <= g.vals@.len() == self.offsets@.len(),
                forall|v: int| #![trigger g.vals@[v]]
                    0 <= v < i ==> self.offsets@[v] + b.spec_rows(g.vals@[v].rows)
                        * g.vals@[v].width <= self.len,
            decreases g.vals@.len() - i,
        {
            let s = g.vals[i];
            let rows: usize = b.rows(s.rows);
            let width: usize = s.width;
            let off: usize = self.offsets[i];
            proof {
                assert(0 <= rows * width <= 0xffff_ffff_ffff_ffff * 0xffff_ffff_ffff_ffff)
                    by (nonlinear_arith)
                    requires
                        0 <= rows <= 0xffff_ffff_ffff_ffff,
                        0 <= width <= 0xffff_ffff_ffff_ffff,
                ;
            }
            if off as u128 + rows as u128 * width as u128 > self.len as u128 {
                assert(!(self.offsets@[i as int] + b.spec_rows(g.vals@[i as int].rows)
                    * g.vals@[i as int].width <= self.len));
                return false;
            }
            i += 1;
        }
        true
    }
}

/// What a product's result becomes, with what the output held before.
pub open spec fn after_product(e: Epilogue, held: Term, p: Term) -> Term {
    match e {
        Epilogue::Plain => p,
        Epilogue::Gelu => Term::Gelu { x: Box::new(p) },
        Epilogue::Relu => Term::Relu { x: Box::new(p) },
        Epilogue::Accumulate => Term::Sum { x: Box::new(held), y: Box::new(p) },
    }
}

impl Graph {
    /// What the values are after an operation, written as what they were computed from. The mean of
    /// rows has no term, since nothing runs it.
    pub open spec fn after_op(&self, m: Map<u32, Term>, op: Op) -> Map<u32, Term> {
        match op {
            Op::Embed { table, out } => m.insert(out.0, Term::Tokens { table }),
            Op::LayerNorm { x, w, b, eps, out } => m.insert(
                out.0,
                Term::Normed { x: Box::new(m[x.0]), w, b, eps },
            ),
            Op::Gemm { a, w, b, epilogue, out } => m.insert(
                out.0,
                after_product(
                    epilogue,
                    m[out.0],
                    Term::Product {
                        x: Box::new(m[a.0]),
                        k: Some(self.spec_shape(a).width),
                        w,
                        b,
                    },
                ),
            ),
            Op::Rope { qkv, theta } => m.insert(
                qkv.0,
                Term::Turned { x: Box::new(m[qkv.0]), theta },
            ),
            Op::Attention { qkv, window, out } => m.insert(
                out.0,
                Term::Attention { x: Box::new(m[qkv.0]), reach: window },
            ),
            Op::GeGlu { x, out } => m.insert(
                out.0,
                Term::Gated { x: Box::new(m[x.0]), width: self.spec_shape(out).width },
            ),
            Op::AddType { h, table } => m.insert(
                h.0,
                Term::Sum { x: Box::new(m[h.0]), y: Box::new(Term::Types { table }) },
            ),
            Op::GatherMarkers { h, out } => m.insert(out.0, Term::Marked { x: Box::new(m[h.0]) }),
            Op::ActFeatures { h, logits, out } => m.insert(
                out.0,
                Term::Features { x: Box::new(m[h.0]), logits: Box::new(m[logits.0]) },
            ),
            Op::MeanPool { h, out } => m.insert(out.0, Term::Empty),
        }
    }

    /// What the values are after the first `n` operations.
    pub open spec fn after_ops(&self, m: Map<u32, Term>, n: int) -> Map<u32, Term>
        decreases n,
    {
        if n <= 0 {
            m
        } else {
            self.after_op(self.after_ops(m, n - 1), self.ops@[n - 1])
        }
    }
}

} // verus!
