//! Which rows the reference forward pass reads and writes.
//!
//! Sequences are packed end to end, so a batch costs what its tokens cost.

use vstd::prelude::*;

verus! {

/// One question, laid out as Laya lays it out.
#[derive(Debug)]
pub struct Input {
    /// Token ids, `[CLS] ... [SEP]`.
    pub ids: Vec<u32>,
    /// The position of each option's mask token.
    pub markers: Vec<u32>,
    /// 0 for choice, 1 for score, 2 for noul.
    pub qtype: usize,
}

impl Input {
    /// Every token is in the vocabulary, every marker in the sequence, and the type is known.
    pub open spec fn fits(&self, vocab: usize) -> bool {
        &&& forall|i: int| 0 <= i < self.ids@.len() ==> #[trigger] self.ids@[i] < vocab
        &&& forall|i: int| 0 <= i < self.markers@.len() ==> #[trigger] self.markers@[i] < self.ids@.len()
        &&& self.qtype < 3
    }
}

/// The tokens of the first `n` sequences.
pub open spec fn tokens(batch: Seq<Input>, n: int) -> int
    decreases n,
{
    if n <= 0 {
        0
    } else {
        tokens(batch, n - 1) + batch[n - 1].ids@.len()
    }
}

/// The markers of the first `n` sequences.
pub open spec fn marks(batch: Seq<Input>, n: int) -> int
    decreases n,
{
    if n <= 0 {
        0
    } else {
        marks(batch, n - 1) + batch[n - 1].markers@.len()
    }
}

/// More sequences have no fewer tokens and markers.
proof fn counts_grow(batch: Seq<Input>, m: int, n: int)
    requires
        0 <= m <= n,
    ensures
        0 <= tokens(batch, m) <= tokens(batch, n),
        0 <= marks(batch, m) <= marks(batch, n),
    decreases n,
{
    if m < n {
        counts_grow(batch, m, n - 1);
    } else if m > 0 {
        counts_grow(batch, m - 1, n - 1);
    }
}

/// The rows of a batch.
#[derive(Debug)]
pub struct Packed {
    /// The first row of every sequence, and the number of rows.
    pub cu: Vec<usize>,
    /// The rows of the longest sequence.
    pub longest: usize,
    /// The embedding of every row.
    pub embed: Vec<usize>,
    /// The position of every row in its sequence.
    pub pos: Vec<usize>,
    /// The question type of every row.
    pub types: Vec<usize>,
    /// The row of every marker.
    pub markers: Vec<usize>,
    /// The first logit of every sequence, and the number of logits.
    pub mcu: Vec<usize>,
}

impl Packed {
    /// The first `n` sequences stand one after the other: row `cu[s] + i` is token `i` of sequence
    /// `s`, and logit `mcu[s] + k` is its marker `k`.
    pub open spec fn of(&self, batch: Seq<Input>, n: int) -> bool {
        &&& self.cu@.len() == n + 1
        &&& self.mcu@.len() == n + 1
        &&& forall|s: int| 0 <= s <= n ==> #[trigger] self.cu@[s] == tokens(batch, s)
        &&& forall|s: int| 0 <= s <= n ==> #[trigger] self.mcu@[s] == marks(batch, s)
        &&& self.embed@.len() == tokens(batch, n)
        &&& self.pos@.len() == tokens(batch, n)
        &&& self.types@.len() == tokens(batch, n)
        &&& self.markers@.len() == marks(batch, n)
        &&& forall|s: int, i: int| #![trigger batch[s].ids@[i]]
            0 <= s < n && 0 <= i < batch[s].ids@.len() ==> {
                let r = tokens(batch, s) + i;
                self.embed@[r] == batch[s].ids@[i] && self.pos@[r] == i && self.types@[r]
                    == batch[s].qtype
            }
        &&& forall|s: int, k: int| #![trigger batch[s].markers@[k]]
            0 <= s < n && 0 <= k < batch[s].markers@.len() ==> self.markers@[marks(batch, s) + k]
                == tokens(batch, s) + batch[s].markers@[k]
        &&& forall|s: int| 0 <= s < n ==> (#[trigger] batch[s]).ids@.len() <= self.longest
        &&& self.longest == 0 || exists|s: int|
            0 <= s < n && (#[trigger] batch[s]).ids@.len() == self.longest
    }
}

/// Packs a batch.
pub fn pack(batch: &Vec<Input>, vocab: usize) -> (r: Packed)
    requires
        forall|s: int| 0 <= s < batch@.len() ==> (#[trigger] batch@[s]).fits(vocab),
        tokens(batch@, batch@.len() as int) <= usize::MAX,
        marks(batch@, batch@.len() as int) <= usize::MAX,
    ensures
        r.of(batch@, batch@.len() as int),
{
    let mut cu: Vec<usize> = Vec::new();
    let mut mcu: Vec<usize> = Vec::new();
    cu.push(0);
    mcu.push(0);
    let mut p = Packed {
        cu,
        longest: 0,
        embed: Vec::new(),
        pos: Vec::new(),
        types: Vec::new(),
        markers: Vec::new(),
        mcu,
    };
    let mut s: usize = 0;
    while s < batch.len()
        invariant
            s <= batch@.len(),
            tokens(batch@, batch@.len() as int) <= usize::MAX,
            marks(batch@, batch@.len() as int) <= usize::MAX,
            forall|s: int| 0 <= s < batch@.len() ==> (#[trigger] batch@[s]).fits(vocab),
            p.of(batch@, s as int),
        decreases batch@.len() - s,
    {
        append(&mut p, batch, s, vocab);
        s += 1;
    }
    p
}

/// Appends a sequence.
#[verifier::rlimit(40)]
fn append(p: &mut Packed, batch: &Vec<Input>, s: usize, vocab: usize)
    requires
        s < batch@.len(),
        batch@[s as int].fits(vocab),
        tokens(batch@, batch@.len() as int) <= usize::MAX,
        marks(batch@, batch@.len() as int) <= usize::MAX,
        old(p).of(batch@, s as int),
    ensures
        final(p).of(batch@, s + 1),
{
    let x = &batch[s];
    let ghost before = *p;
    proof {
        counts_grow(batch@, s + 1, batch@.len() as int);
        counts_grow(batch@, 0, s as int);
    }
    let row: usize = p.embed.len();
    let logit: usize = p.markers.len();
    let n: usize = x.ids.len();
    let m: usize = x.markers.len();
    let mut i: usize = 0;
    while i < n
        invariant
            i <= n == x.ids@.len(),
            x == batch@[s as int],
            row == before.embed@.len() == before.pos@.len() == before.types@.len(),
            p.cu == before.cu,
            p.mcu == before.mcu,
            p.markers == before.markers,
            p.longest == before.longest,
            p.embed@ == before.embed@ + Seq::new(i as nat, |k: int| x.ids@[k] as usize),
            p.pos@ == before.pos@ + Seq::new(i as nat, |k: int| k as usize),
            p.types@ == before.types@ + Seq::new(i as nat, |k: int| x.qtype),
        decreases n - i,
    {
        p.embed.push(x.ids[i] as usize);
        p.pos.push(i);
        p.types.push(x.qtype);
        i += 1;
        assert(p.embed@ =~= before.embed@ + Seq::new(i as nat, |k: int| x.ids@[k] as usize));
        assert(p.pos@ =~= before.pos@ + Seq::new(i as nat, |k: int| k as usize));
        assert(p.types@ =~= before.types@ + Seq::new(i as nat, |k: int| x.qtype));
    }
    let mut k: usize = 0;
    while k < m
        invariant
            k <= m == x.markers@.len(),
            x == batch@[s as int],
            x.fits(vocab),
            row == before.embed@.len(),
            row + x.ids@.len() <= usize::MAX,
            p.cu == before.cu,
            p.mcu == before.mcu,
            p.longest == before.longest,
            p.embed@ == before.embed@ + Seq::new(n as nat, |k: int| x.ids@[k] as usize),
            p.pos@ == before.pos@ + Seq::new(n as nat, |k: int| k as usize),
            p.types@ == before.types@ + Seq::new(n as nat, |k: int| x.qtype),
            p.markers@ == before.markers@ + Seq::new(
                k as nat,
                |k: int| (row + x.markers@[k]) as usize,
            ),
        decreases m - k,
    {
        assert(x.markers@[k as int] < x.ids@.len());
        p.markers.push(row + x.markers[k] as usize);
        k += 1;
        assert(p.markers@ =~= before.markers@ + Seq::new(
            k as nat,
            |k: int| (row + x.markers@[k]) as usize,
        ));
    }
    p.cu.push(row + n);
    p.mcu.push(logit + m);
    if n > p.longest {
        p.longest = n;
    }
    proof {
        assert forall|t: int, i: int| #![trigger batch@[t].ids@[i]]
            0 <= t < s + 1 && 0 <= i < batch@[t].ids@.len() implies {
            let r = tokens(batch@, t) + i;
            p.embed@[r] == batch@[t].ids@[i] && p.pos@[r] == i && p.types@[r] == batch@[t].qtype
        } by {
            if t < s {
                let r = tokens(batch@, t) + i;
                counts_grow(batch@, t + 1, s as int);
                counts_grow(batch@, 0, t);
                assert(before.embed@[r] == batch@[t].ids@[i]);
            }
        }
        assert forall|t: int, k: int| #![trigger batch@[t].markers@[k]]
            0 <= t < s + 1 && 0 <= k < batch@[t].markers@.len() implies p.markers@[marks(batch@, t)
            + k] == tokens(batch@, t) + batch@[t].markers@[k] by {
            if t < s {
                counts_grow(batch@, t + 1, s as int);
                counts_grow(batch@, 0, t);
                assert(before.markers@[marks(batch@, t) + k] == tokens(batch@, t)
                    + batch@[t].markers@[k]);
            } else {
                assert(batch@[t].markers@[k] < batch@[t].ids@.len());
            }
        }
        if p.longest == n {
            assert(batch@[s as int].ids@.len() == p.longest);
        } else if before.longest != 0 {
            let t = choose|t: int|
                0 <= t < s && (#[trigger] batch@[t]).ids@.len() == before.longest;
            assert(batch@[t].ids@.len() == p.longest);
        }
        assert forall|t: int| 0 <= t < s + 1 implies (#[trigger] batch@[t]).ids@.len()
            <= p.longest by {
            if t < s {
                assert(batch@[t].ids@.len() <= before.longest);
            }
        }
        assert forall|t: int| 0 <= t <= s + 1 implies #[trigger] p.cu@[t] == tokens(batch@, t) by {
            if t <= s {
                assert(p.cu@[t] == before.cu@[t]);
            }
        }
        assert forall|t: int| 0 <= t <= s + 1 implies #[trigger] p.mcu@[t] == marks(batch@, t) by {
            if t <= s {
                assert(p.mcu@[t] == before.mcu@[t]);
            }
        }
    }
}

/// How far a layer's attention reaches to either side: a global one has no bound, and a local one
/// sees half its window.
pub fn reach(global: bool, window: usize) -> (r: Option<usize>)
    ensures
        r == if global {
            None
        } else {
            Some((window / 2) as usize)
        },
{
    if global {
        None
    } else {
        Some(window / 2)
    }
}

/// The rope table of a layer, by the bits of its base, among those of the global and the local
/// layers.
pub fn rope_of(global: u64, local: u64, theta: u64) -> (r: Option<usize>)
    ensures
        r == if theta == global {
            Some(0usize)
        } else if theta == local {
            Some(1usize)
        } else {
            None
        },
{
    if theta == global {
        Some(0)
    } else if theta == local {
        Some(1)
    } else {
        None
    }
}

/// LayerNorm's epsilon in the head and the scorer, 1e-5, by its bits.
pub const HEAD_EPS: u64 = 0x3ee4_f8b5_88e3_68f1;

/// A weight and its bias.
#[derive(Debug, Clone, Copy, PartialEq, Eq, Structural)]
pub struct Affine {
    /// The weight.
    pub w: usize,
    /// The bias.
    pub b: usize,
}

/// The weights of an encoder layer.
#[derive(Debug, Clone, Copy, PartialEq, Eq, Structural)]
pub struct Layer {
    /// The norm before attention. The first layer has none.
    pub attn_norm: Option<usize>,
    /// Queries, keys and values.
    pub wqkv: usize,
    /// The base of its rope, by its bits.
    pub rope_theta: u64,
    /// Whether its attention sees the whole sequence.
    pub global: bool,
    /// The attention's output.
    pub wo: usize,
    /// The norm before the feed forward part.
    pub mlp_norm: usize,
    /// Into the feed forward part.
    pub wi: usize,
    /// Out of it.
    pub mlp_wo: usize,
}

/// The weights of a layer of the decision head.
#[derive(Debug, Clone, Copy, PartialEq, Eq, Structural)]
pub struct HeadLayer {
    /// The norm before attention.
    pub norm1: Affine,
    /// Queries, keys and values.
    pub in_proj: Affine,
    /// The attention's output.
    pub out_proj: Affine,
    /// The norm before the feed forward part.
    pub norm2: Affine,
    /// Into the feed forward part.
    pub linear1: Affine,
    /// Out of it.
    pub linear2: Affine,
}

/// The weights of a checkpoint, and the sizes a forward pass goes by.
#[derive(Debug)]
pub struct Model {
    /// The width of a row.
    pub d: usize,
    /// The width of the feed forward part.
    pub inter: usize,
    /// The window of local attention.
    pub window: usize,
    /// The encoder's epsilon, by its bits.
    pub norm_eps: u64,
    /// The rope base of global layers, by its bits.
    pub rope_global: u64,
    /// The rope base of local layers, by its bits.
    pub rope_local: u64,
    /// The token embeddings.
    pub tok_embeddings: usize,
    /// The norm behind them.
    pub embed_norm: usize,
    /// The encoder.
    pub layers: Vec<Layer>,
    /// The norm behind it.
    pub final_norm: usize,
    /// The type embedding.
    pub type_emb: usize,
    /// The decision head.
    pub head: Vec<HeadLayer>,
    /// The norm before the scorer.
    pub scorer_norm: Affine,
    /// Into the scorer.
    pub scorer_in: Affine,
    /// Out of it.
    pub scorer_out: Affine,
    /// Into the act head.
    pub act_in: Affine,
    /// Out of it.
    pub act_out: Affine,
}

/// A buffer of a forward pass.
#[derive(Debug, Clone, Copy, PartialEq, Eq, Structural)]
pub enum Slot {
    /// The residual stream.
    Stream,
    /// A normalized copy of it.
    Normed,
    /// Queries, keys and values.
    Qkv,
    /// What attention gives.
    Attended,
    /// What is added to the stream.
    Delta,
    /// The inside of a feed forward part.
    Inner,
    /// Its activation.
    Active,
    /// The rows of the markers.
    Marked,
    /// The logits.
    Logits,
    /// The input of the act head.
    Features,
    /// Two numbers per question.
    Act,
}

/// One stage of a forward pass.
#[derive(Debug, Clone, Copy, PartialEq, Eq, Structural)]
pub enum Stage {
    /// The rows of a table.
    Embed { table: usize, to: Slot },
    /// LayerNorm.
    Norm { from: Slot, w: usize, b: Option<usize>, eps: u64, to: Slot },
    /// A product with a weight, over rows of width `k`, or of their own width.
    Linear { x: Slot, k: Option<usize>, w: usize, b: Option<usize>, to: Slot },
    /// Rotary positions, from the table of the global layers or of the local ones.
    Rope { table: usize },
    /// Attention.
    Attend { window: Option<usize> },
    /// Adds a buffer to the stream.
    Extend { from: Slot },
    /// The gated activation.
    GeGlu { width: usize },
    /// GELU in place.
    Gelu { at: Slot },
    /// ReLU in place.
    Relu { at: Slot },
    /// Adds the type's row to every row of the stream.
    AddType { table: usize },
    /// The rows of the markers.
    Gather,
    /// The first row of every question, and four numbers about its logits.
    Features,
}

impl Model {
    /// Every layer's rope base is one of the two.
    pub open spec fn wf(&self) -> bool {
        &&& self.d + 4 <= usize::MAX
        &&& forall|i: int|
            0 <= i < self.layers@.len() ==> (#[trigger] self.layers@[i]).rope_theta
                == self.rope_global || self.layers@[i].rope_theta == self.rope_local
    }

    /// A norm of the encoder.
    pub open spec fn enc_norm(&self, from: Slot, w: usize, to: Slot) -> Stage {
        Stage::Norm { from, w, b: None, eps: self.norm_eps, to }
    }

    /// The stages of an encoder layer: attention and the feed forward part, each added to the
    /// stream. A layer without a norm before attention reads the stream itself.
    pub open spec fn layer_stages(&self, l: Layer) -> Seq<Stage> {
        let d = Some(self.d);
        let (norm, from) = match l.attn_norm {
            Some(w) => (seq![self.enc_norm(Slot::Stream, w, Slot::Normed)], Slot::Normed),
            None => (seq![], Slot::Stream),
        };
        norm + seq![
            Stage::Linear { x: from, k: d, w: l.wqkv, b: None, to: Slot::Qkv },
            Stage::Rope {
                table: if l.rope_theta == self.rope_global {
                    0
                } else {
                    1
                },
            },
            Stage::Attend {
                window: if l.global {
                    None
                } else {
                    Some((self.window / 2) as usize)
                },
            },
            Stage::Linear { x: Slot::Attended, k: d, w: l.wo, b: None, to: Slot::Delta },
            Stage::Extend { from: Slot::Delta },
            self.enc_norm(Slot::Stream, l.mlp_norm, Slot::Normed),
            Stage::Linear { x: Slot::Normed, k: d, w: l.wi, b: None, to: Slot::Inner },
            Stage::GeGlu { width: self.inter },
            Stage::Linear { x: Slot::Active, k: Some(self.inter), w: l.mlp_wo, b: None, to: Slot::Delta },
            Stage::Extend { from: Slot::Delta },
        ]
    }

    /// The stages of a layer of the decision head, which has biases, sees the whole sequence, has
    /// no rope and activates with ReLU.
    pub open spec fn head_stages(&self, l: HeadLayer) -> Seq<Stage> {
        let d = Some(self.d);
        seq![
            norm_stage(Slot::Stream, l.norm1, Slot::Normed),
            linear_stage(Slot::Normed, d, l.in_proj, Slot::Qkv),
            Stage::Attend { window: None },
            linear_stage(Slot::Attended, d, l.out_proj, Slot::Delta),
            Stage::Extend { from: Slot::Delta },
            norm_stage(Slot::Stream, l.norm2, Slot::Normed),
            linear_stage(Slot::Normed, d, l.linear1, Slot::Inner),
            Stage::Relu { at: Slot::Inner },
            linear_stage(Slot::Inner, None, l.linear2, Slot::Delta),
            Stage::Extend { from: Slot::Delta },
        ]
    }

    /// The stages of the first `n` encoder layers.
    pub open spec fn encoder_stages(&self, n: int) -> Seq<Stage>
        decreases n,
    {
        if n <= 0 {
            seq![]
        } else {
            self.encoder_stages(n - 1) + self.layer_stages(self.layers@[n - 1])
        }
    }

    /// The stages of the first `n` layers of the decision head.
    pub open spec fn decision_stages(&self, n: int) -> Seq<Stage>
        decreases n,
    {
        if n <= 0 {
            seq![]
        } else {
            self.decision_stages(n - 1) + self.head_stages(self.head@[n - 1])
        }
    }

    /// A forward pass: the embeddings, the encoder, the question type, the decision head, the
    /// scorer on the markers and the act head.
    pub open spec fn all_stages(&self) -> Seq<Stage> {
        seq![
            Stage::Embed { table: self.tok_embeddings, to: Slot::Stream },
            self.enc_norm(Slot::Stream, self.embed_norm, Slot::Stream),
        ] + self.encoder_stages(self.layers@.len() as int) + seq![
            self.enc_norm(Slot::Stream, self.final_norm, Slot::Stream),
            Stage::AddType { table: self.type_emb },
        ] + self.decision_stages(self.head@.len() as int) + seq![
            Stage::Gather,
            norm_stage(Slot::Marked, self.scorer_norm, Slot::Normed),
            linear_stage(Slot::Normed, Some(self.d), self.scorer_in, Slot::Inner),
            Stage::Gelu { at: Slot::Inner },
            linear_stage(Slot::Inner, Some(self.d), self.scorer_out, Slot::Logits),
            Stage::Features,
            linear_stage(Slot::Features, Some((self.d + 4) as usize), self.act_in, Slot::Inner),
            Stage::Gelu { at: Slot::Inner },
            linear_stage(Slot::Inner, None, self.act_out, Slot::Act),
        ]
    }

    /// A norm of the encoder.
    fn norm(&self, from: Slot, w: usize, to: Slot) -> (r: Stage)
        ensures
            r == self.enc_norm(from, w, to),
    {
        Stage::Norm { from, w, b: None, eps: self.norm_eps, to }
    }

    /// Appends the stages of an encoder layer.
    fn put_layer(&self, l: Layer, out: &mut Vec<Stage>)
        requires
            l.rope_theta == self.rope_global || l.rope_theta == self.rope_local,
        ensures
            final(out)@ == old(out)@ + self.layer_stages(l),
    {
        let ghost before = out@;
        let d = Some(self.d);
        let from = match l.attn_norm {
            Some(w) => {
                out.push(self.norm(Slot::Stream, w, Slot::Normed));
                Slot::Normed
            },
            None => Slot::Stream,
        };
        out.push(Stage::Linear { x: from, k: d, w: l.wqkv, b: None, to: Slot::Qkv });
        let table: usize = match rope_of(self.rope_global, self.rope_local, l.rope_theta) {
            Some(t) => t,
            None => 0,
        };
        out.push(Stage::Rope { table });
        out.push(Stage::Attend { window: reach(l.global, self.window) });
        out.push(Stage::Linear { x: Slot::Attended, k: d, w: l.wo, b: None, to: Slot::Delta });
        out.push(Stage::Extend { from: Slot::Delta });
        out.push(self.norm(Slot::Stream, l.mlp_norm, Slot::Normed));
        out.push(Stage::Linear { x: Slot::Normed, k: d, w: l.wi, b: None, to: Slot::Inner });
        out.push(Stage::GeGlu { width: self.inter });
        let k = Some(self.inter);
        out.push(Stage::Linear { x: Slot::Active, k, w: l.mlp_wo, b: None, to: Slot::Delta });
        out.push(Stage::Extend { from: Slot::Delta });
        assert(out@ =~= before + self.layer_stages(l));
    }

    /// Appends the stages of a layer of the decision head.
    fn put_head(&self, l: HeadLayer, out: &mut Vec<Stage>)
        ensures
            final(out)@ == old(out)@ + self.head_stages(l),
    {
        let ghost before = out@;
        let d = Some(self.d);
        out.push(norm_with(Slot::Stream, l.norm1, Slot::Normed));
        out.push(linear_with(Slot::Normed, d, l.in_proj, Slot::Qkv));
        out.push(Stage::Attend { window: None });
        out.push(linear_with(Slot::Attended, d, l.out_proj, Slot::Delta));
        out.push(Stage::Extend { from: Slot::Delta });
        out.push(norm_with(Slot::Stream, l.norm2, Slot::Normed));
        out.push(linear_with(Slot::Normed, d, l.linear1, Slot::Inner));
        out.push(Stage::Relu { at: Slot::Inner });
        out.push(linear_with(Slot::Inner, None, l.linear2, Slot::Delta));
        out.push(Stage::Extend { from: Slot::Delta });
        assert(out@ =~= before + self.head_stages(l));
    }

    /// The stages of a forward pass, in order.
    pub fn stages(&self) -> (r: Vec<Stage>)
        requires
            self.wf(),
        ensures
            r@ == self.all_stages(),
    {
        let mut out: Vec<Stage> = Vec::new();
        out.push(Stage::Embed { table: self.tok_embeddings, to: Slot::Stream });
        out.push(self.norm(Slot::Stream, self.embed_norm, Slot::Stream));
        let ghost start = out@;
        let mut i: usize = 0;
        assert(out@ =~= start + self.encoder_stages(0));
        while i < self.layers.len()
            invariant
                i <= self.layers@.len(),
                self.wf(),
                out@ == start + self.encoder_stages(i as int),
            decreases self.layers@.len() - i,
        {
            self.put_layer(self.layers[i], &mut out);
            i += 1;
            assert(out@ =~= start + self.encoder_stages(i as int));
        }
        out.push(self.norm(Slot::Stream, self.final_norm, Slot::Stream));
        out.push(Stage::AddType { table: self.type_emb });
        let ghost middle = out@;
        let mut k: usize = 0;
        assert(out@ =~= middle + self.decision_stages(0));
        while k < self.head.len()
            invariant
                k <= self.head@.len(),
                out@ == middle + self.decision_stages(k as int),
            decreases self.head@.len() - k,
        {
            self.put_head(self.head[k], &mut out);
            k += 1;
            assert(out@ =~= middle + self.decision_stages(k as int));
        }
        out.push(Stage::Gather);
        out.push(norm_with(Slot::Marked, self.scorer_norm, Slot::Normed));
        out.push(linear_with(Slot::Normed, Some(self.d), self.scorer_in, Slot::Inner));
        out.push(Stage::Gelu { at: Slot::Inner });
        out.push(linear_with(Slot::Inner, Some(self.d), self.scorer_out, Slot::Logits));
        out.push(Stage::Features);
        out.push(linear_with(Slot::Features, Some(self.d + 4), self.act_in, Slot::Inner));
        out.push(Stage::Gelu { at: Slot::Inner });
        out.push(linear_with(Slot::Inner, None, self.act_out, Slot::Act));
        assert(out@ =~= self.all_stages());
        out
    }
}

/// A norm with a bias.
pub open spec fn norm_stage(from: Slot, a: Affine, to: Slot) -> Stage {
    Stage::Norm { from, w: a.w, b: Some(a.b), eps: HEAD_EPS, to }
}

/// A product with a bias.
pub open spec fn linear_stage(x: Slot, k: Option<usize>, a: Affine, to: Slot) -> Stage {
    Stage::Linear { x, k, w: a.w, b: Some(a.b), to }
}

/// A norm with a bias.
fn norm_with(from: Slot, a: Affine, to: Slot) -> (r: Stage)
    ensures
        r == norm_stage(from, a, to),
{
    Stage::Norm { from, w: a.w, b: Some(a.b), eps: HEAD_EPS, to }
}

/// A product with a bias.
fn linear_with(x: Slot, k: Option<usize>, a: Affine, to: Slot) -> (r: Stage)
    ensures
        r == linear_stage(x, k, a, to),
{
    Stage::Linear { x, k, w: a.w, b: Some(a.b), to }
}

/// What a buffer holds, written as what it was computed from.
pub enum Term {
    /// Nothing yet.
    Empty,
    /// For every row, the row of a table that its token names.
    Tokens { table: usize },
    /// For every row, the row of a table that its question's type names.
    Types { table: usize },
    /// LayerNorm with a weight, a bias and an epsilon.
    Normed { x: Box<Term>, w: usize, b: Option<usize>, eps: u64 },
    /// A product with a weight, over rows of width `k` or of their own width, and a bias.
    Product { x: Box<Term>, k: Option<usize>, w: usize, b: Option<usize> },
    /// Queries and keys turned by their positions, with a base.
    Turned { x: Box<Term>, theta: u64 },
    /// Attention over keys at most `reach` rows away, or over the whole sequence.
    Attention { x: Box<Term>, reach: Option<usize> },
    /// A sum, value by value.
    Sum { x: Box<Term>, y: Box<Term> },
    /// The gated activation.
    Gated { x: Box<Term>, width: usize },
    /// GELU.
    Gelu { x: Box<Term> },
    /// ReLU.
    Relu { x: Box<Term> },
    /// The rows of the markers.
    Marked { x: Box<Term> },
    /// The first row of every question with four numbers about its logits.
    Features { x: Box<Term>, logits: Box<Term> },
}

impl Model {
    /// What the buffers hold after a stage. Rope turns the queries and keys in place, attention
    /// reads them, the gated activation reads the inside of a feed forward part, and what is added
    /// goes to the stream.
    pub open spec fn after(&self, m: Map<Slot, Term>, stage: Stage) -> Map<Slot, Term> {
        match stage {
            Stage::Embed { table, to } => m.insert(to, Term::Tokens { table }),
            Stage::Norm { from, w, b, eps, to } => m.insert(
                to,
                Term::Normed { x: Box::new(m[from]), w, b, eps },
            ),
            Stage::Linear { x, k, w, b, to } => m.insert(
                to,
                Term::Product { x: Box::new(m[x]), k, w, b },
            ),
            Stage::Rope { table } => m.insert(
                Slot::Qkv,
                Term::Turned {
                    x: Box::new(m[Slot::Qkv]),
                    theta: if table == 0 {
                        self.rope_global
                    } else {
                        self.rope_local
                    },
                },
            ),
            Stage::Attend { window } => m.insert(
                Slot::Attended,
                Term::Attention { x: Box::new(m[Slot::Qkv]), reach: window },
            ),
            Stage::Extend { from } => m.insert(
                Slot::Stream,
                Term::Sum { x: Box::new(m[Slot::Stream]), y: Box::new(m[from]) },
            ),
            Stage::GeGlu { width } => m.insert(
                Slot::Active,
                Term::Gated { x: Box::new(m[Slot::Inner]), width },
            ),
            Stage::Gelu { at } => m.insert(at, Term::Gelu { x: Box::new(m[at]) }),
            Stage::Relu { at } => m.insert(at, Term::Relu { x: Box::new(m[at]) }),
            Stage::AddType { table } => m.insert(
                Slot::Stream,
                Term::Sum {
                    x: Box::new(m[Slot::Stream]),
                    y: Box::new(Term::Types { table }),
                },
            ),
            Stage::Gather => m.insert(Slot::Marked, Term::Marked { x: Box::new(m[Slot::Stream]) }),
            Stage::Features => m.insert(
                Slot::Features,
                Term::Features {
                    x: Box::new(m[Slot::Stream]),
                    logits: Box::new(m[Slot::Logits]),
                },
            ),
        }
    }

    /// What the buffers hold after stages in order.
    pub open spec fn after_all(&self, m: Map<Slot, Term>, s: Seq<Stage>) -> Map<Slot, Term>
        decreases s.len(),
    {
        if s.len() == 0 {
            m
        } else {
            self.after(self.after_all(m, s.drop_last()), s.last())
        }
    }

    /// A norm of the encoder, which has no bias.
    pub open spec fn plain_norm(&self, x: Term, w: usize) -> Term {
        Term::Normed { x: Box::new(x), w, b: None, eps: self.norm_eps }
    }

    /// An encoder layer: what its attention gives of the normed stream is added to the stream, and
    /// then what its gated feed forward part gives of the normed result. A layer without a norm
    /// before attention gives it the stream itself.
    pub open spec fn encode(&self, l: Layer, h: Term) -> Term {
        let seen = match l.attn_norm {
            Some(w) => self.plain_norm(h, w),
            None => h,
        };
        let qkv = Term::Turned { x: Box::new(rows_by(seen, self.d, l.wqkv)), theta: l.rope_theta };
        let reach = if l.global {
            None
        } else {
            Some((self.window / 2) as usize)
        };
        let mixed = sum_of(
            h,
            rows_by(Term::Attention { x: Box::new(qkv), reach }, self.d, l.wo),
        );
        let wide = rows_by(self.plain_norm(mixed, l.mlp_norm), self.d, l.wi);
        sum_of(
            mixed,
            rows_by(
                Term::Gated { x: Box::new(wide), width: self.inter },
                self.inter,
                l.mlp_wo,
            ),
        )
    }

    /// The encoder's first `n` layers on the normed token embeddings.
    pub open spec fn encoded(&self, n: int) -> Term
        decreases n,
    {
        if n <= 0 {
            self.plain_norm(Term::Tokens { table: self.tok_embeddings }, self.embed_norm)
        } else {
            self.encode(self.layers@[n - 1], self.encoded(n - 1))
        }
    }

    /// A layer of the decision head: attention over the whole sequence without positions, then a
    /// feed forward part with ReLU, each on the normed stream, with biases, and added to it.
    pub open spec fn decide_on(&self, l: HeadLayer, h: Term) -> Term {
        let qkv = biased(normed_by(h, l.norm1), Some(self.d), l.in_proj);
        let mixed = sum_of(
            h,
            biased(Term::Attention { x: Box::new(qkv), reach: None }, Some(self.d), l.out_proj),
        );
        let wide = biased(normed_by(mixed, l.norm2), Some(self.d), l.linear1);
        sum_of(mixed, biased(Term::Relu { x: Box::new(wide) }, None, l.linear2))
    }

    /// What the decision head reads: the encoder's output, normed, plus the embedding of the
    /// question's type.
    pub open spec fn head_input(&self) -> Term {
        sum_of(
            self.plain_norm(self.encoded(self.layers@.len() as int), self.final_norm),
            Term::Types { table: self.type_emb },
        )
    }

    /// The decision head's first `n` layers on what it reads.
    pub open spec fn decided(&self, n: int) -> Term
        decreases n,
    {
        if n <= 0 {
            self.head_input()
        } else {
            self.decide_on(self.head@[n - 1], self.decided(n - 1))
        }
    }

    /// The logits: the scorer, a GELU between two products, on the normed rows of the markers.
    pub open spec fn logits_term(&self) -> Term {
        let h = self.decided(self.head@.len() as int);
        let x = normed_by(Term::Marked { x: Box::new(h) }, self.scorer_norm);
        biased(
            Term::Gelu { x: Box::new(biased(x, Some(self.d), self.scorer_in)) },
            Some(self.d),
            self.scorer_out,
        )
    }

    /// The act logits: a GELU between two products, on the first row of every question with four
    /// numbers about its logits.
    pub open spec fn act_term(&self) -> Term {
        let h = self.decided(self.head@.len() as int);
        let f = Term::Features { x: Box::new(h), logits: Box::new(self.logits_term()) };
        biased(
            Term::Gelu { x: Box::new(biased(f, Some((self.d + 4) as usize), self.act_in)) },
            None,
            self.act_out,
        )
    }

    /// Stages after others.
    proof fn after_both(&self, m: Map<Slot, Term>, a: Seq<Stage>, b: Seq<Stage>)
        ensures
            self.after_all(m, a + b) == self.after_all(self.after_all(m, a), b),
        decreases b.len(),
    {
        if b.len() == 0 {
            assert(a + b =~= a);
        } else {
            assert((a + b).drop_last() =~= a + b.drop_last());
            self.after_both(m, a, b.drop_last());
        }
    }

    /// One more stage.
    proof fn after_one(&self, m: Map<Slot, Term>, a: Seq<Stage>, x: Stage)
        ensures
            self.after_all(m, a.push(x)) == self.after(self.after_all(m, a), x),
    {
        assert(a.push(x).drop_last() =~= a);
    }

    /// The last ten stages of an encoder layer do what the layer does with what it reads.
    proof fn layer_body(&self, m: Map<Slot, Term>, l: Layer)
        requires
            l.rope_theta == self.rope_global || l.rope_theta == self.rope_local,
            l.attn_norm matches Some(w) ==> m[Slot::Normed] == self.plain_norm(m[Slot::Stream], w),
        ensures
            ({
                let s = self.layer_stages(l);
                self.after_all(m, s.skip(s.len() - 10))[Slot::Stream] == self.encode(
                    l,
                    m[Slot::Stream],
                )
            }),
    {
        let all = self.layer_stages(l);
        let s = all.skip(all.len() - 10);
        assert forall|k: int| 0 < k <= 10 implies self.after_all(m, #[trigger] s.take(k))
            == self.after(self.after_all(m, s.take(k - 1)), s[k - 1]) by {
            assert(s.take(k).drop_last() =~= s.take(k - 1));
        }
        assert(s.take(0) =~= seq![]);
        assert(s.take(10) =~= s);
        let a1 = self.after_all(m, s.take(1));
        let a2 = self.after_all(m, s.take(2));
        let a3 = self.after_all(m, s.take(3));
        let a4 = self.after_all(m, s.take(4));
        let a5 = self.after_all(m, s.take(5));
        assert(a5[Slot::Stream] == sum_of(
            m[Slot::Stream],
            rows_by(
                Term::Attention {
                    x: Box::new(
                        Term::Turned {
                            x: Box::new(
                                rows_by(
                                    match l.attn_norm {
                                        Some(w) => self.plain_norm(m[Slot::Stream], w),
                                        None => m[Slot::Stream],
                                    },
                                    self.d,
                                    l.wqkv,
                                ),
                            ),
                            theta: l.rope_theta,
                        },
                    ),
                    reach: if l.global {
                        None
                    } else {
                        Some((self.window / 2) as usize)
                    },
                },
                self.d,
                l.wo,
            ),
        ));
        let a6 = self.after_all(m, s.take(6));
        let a7 = self.after_all(m, s.take(7));
        let a8 = self.after_all(m, s.take(8));
        let a9 = self.after_all(m, s.take(9));
    }

    /// The stages of an encoder layer do what the layer does.
    proof fn layer_encodes(&self, m: Map<Slot, Term>, l: Layer)
        requires
            l.rope_theta == self.rope_global || l.rope_theta == self.rope_local,
        ensures
            self.after_all(m, self.layer_stages(l))[Slot::Stream] == self.encode(
                l,
                m[Slot::Stream],
            ),
    {
        let s = self.layer_stages(l);
        let n = s.len() - 10;
        assert(s =~= s.take(n) + s.skip(n));
        self.after_both(m, s.take(n), s.skip(n));
        if l.attn_norm is Some {
            assert(s.take(n) =~= seq![].push(s[0]));
            self.after_one(m, seq![], s[0]);
        } else {
            assert(s.take(n) =~= seq![]);
        }
        self.layer_body(self.after_all(m, s.take(n)), l);
    }

    /// The stages of a layer of the decision head do what the layer does.
    proof fn head_decides(&self, m: Map<Slot, Term>, l: HeadLayer)
        ensures
            self.after_all(m, self.head_stages(l))[Slot::Stream] == self.decide_on(
                l,
                m[Slot::Stream],
            ),
    {
        let s = self.head_stages(l);
        assert forall|k: int| 0 < k <= 10 implies self.after_all(m, #[trigger] s.take(k))
            == self.after(self.after_all(m, s.take(k - 1)), s[k - 1]) by {
            assert(s.take(k).drop_last() =~= s.take(k - 1));
        }
        assert(s.take(0) =~= seq![]);
        assert(s.take(10) =~= s);
        let a1 = self.after_all(m, s.take(1));
        let a2 = self.after_all(m, s.take(2));
        let a3 = self.after_all(m, s.take(3));
        let a4 = self.after_all(m, s.take(4));
        let a5 = self.after_all(m, s.take(5));
        let a6 = self.after_all(m, s.take(6));
        let a7 = self.after_all(m, s.take(7));
        let a8 = self.after_all(m, s.take(8));
        let a9 = self.after_all(m, s.take(9));
    }

    /// The encoder's stages do what its layers do.
    proof fn encoder_encodes(&self, m: Map<Slot, Term>, n: int)
        requires
            self.wf(),
            0 <= n <= self.layers@.len(),
            m[Slot::Stream] == self.encoded(0),
        ensures
            self.after_all(m, self.encoder_stages(n))[Slot::Stream] == self.encoded(n),
        decreases n,
    {
        if n > 0 {
            let l = self.layers@[n - 1];
            self.encoder_encodes(m, n - 1);
            self.after_both(m, self.encoder_stages(n - 1), self.layer_stages(l));
            self.layer_encodes(self.after_all(m, self.encoder_stages(n - 1)), l);
        }
    }

    /// The decision head's stages do what its layers do.
    proof fn decisions_decide(&self, m: Map<Slot, Term>, n: int)
        requires
            0 <= n <= self.head@.len(),
            m[Slot::Stream] == self.head_input(),
        ensures
            self.after_all(m, self.decision_stages(n))[Slot::Stream] == self.decided(n),
        decreases n,
    {
        if n > 0 {
            let l = self.head@[n - 1];
            self.decisions_decide(m, n - 1);
            self.after_both(m, self.decision_stages(n - 1), self.head_stages(l));
            self.head_decides(self.after_all(m, self.decision_stages(n - 1)), l);
        }
    }
}

impl Model {
    /// The last nine stages: the scorer and the act head on the decision head's output.
    proof fn ends_score(&self, m: Map<Slot, Term>)
        requires
            self.wf(),
            m[Slot::Stream] == self.decided(self.head@.len() as int),
        ensures
            ({
                let s = self.all_stages();
                let r = self.after_all(m, s.skip(s.len() - 9));
                r[Slot::Logits] == self.logits_term() && r[Slot::Act] == self.act_term()
            }),
    {
        let all = self.all_stages();
        let s = all.skip(all.len() - 9);
        assert forall|k: int| 0 < k <= 9 implies self.after_all(m, #[trigger] s.take(k))
            == self.after(self.after_all(m, s.take(k - 1)), s[k - 1]) by {
            assert(s.take(k).drop_last() =~= s.take(k - 1));
        }
        assert(s.take(0) =~= seq![]);
        assert(s.take(9) =~= s);
        let a1 = self.after_all(m, s.take(1));
        let a2 = self.after_all(m, s.take(2));
        let a3 = self.after_all(m, s.take(3));
        let a4 = self.after_all(m, s.take(4));
        let a5 = self.after_all(m, s.take(5));
        assert(a5[Slot::Logits] == self.logits_term());
        let a6 = self.after_all(m, s.take(6));
        let a7 = self.after_all(m, s.take(7));
        let a8 = self.after_all(m, s.take(8));
    }

    /// The stages of a forward pass compute the model, whatever the buffers held before: the
    /// encoder reads the normed embeddings, the decision head reads the normed output of the
    /// encoder plus the embedding of the question's type, the scorer gives the logits of the
    /// markers, and the act head reads the first row of every question and its logits.
    pub proof fn the_stages_compute_the_model(&self, m: Map<Slot, Term>)
        requires
            self.wf(),
        ensures
            self.after_all(m, self.all_stages())[Slot::Logits] == self.logits_term(),
            self.after_all(m, self.all_stages())[Slot::Act] == self.act_term(),
    {
        let all = self.all_stages();
        let n = all.len() as int;
        let enc = self.encoder_stages(self.layers@.len() as int);
        let dec = self.decision_stages(self.head@.len() as int);
        let (e, d) = (enc.len() as int, dec.len() as int);
        let start = all.take(2);
        let middle = all.subrange(2 + e, 4 + e);
        let end = all.skip(n - 9);
        assert(n == 13 + e + d);
        assert(all =~= start + enc + middle + dec + end);
        self.after_both(m, start + enc + middle + dec, end);
        self.after_both(m, start + enc + middle, dec);
        self.after_both(m, start + enc, middle);
        self.after_both(m, start, enc);
        assert(start =~= seq![].push(all[0]).push(all[1]));
        self.after_one(m, seq![], all[0]);
        self.after_one(m, seq![].push(all[0]), all[1]);
        let m1 = self.after_all(m, start);
        self.encoder_encodes(m1, self.layers@.len() as int);
        let m2 = self.after_all(m1, enc);
        assert(middle =~= seq![].push(all[2 + e]).push(all[3 + e]));
        self.after_one(m2, seq![], all[2 + e]);
        self.after_one(m2, seq![].push(all[2 + e]), all[3 + e]);
        let m3 = self.after_all(m2, middle);
        self.decisions_decide(m3, self.head@.len() as int);
        self.ends_score(self.after_all(m3, dec));
    }
}

/// A sum.
pub open spec fn sum_of(x: Term, y: Term) -> Term {
    Term::Sum { x: Box::new(x), y: Box::new(y) }
}

/// A product over rows of width `k`, without a bias.
pub open spec fn rows_by(x: Term, k: usize, w: usize) -> Term {
    Term::Product { x: Box::new(x), k: Some(k), w, b: None }
}

/// A product with a bias.
pub open spec fn biased(x: Term, k: Option<usize>, a: Affine) -> Term {
    Term::Product { x: Box::new(x), k, w: a.w, b: Some(a.b) }
}

/// A norm of the head or the scorer, which has a bias.
pub open spec fn normed_by(x: Term, a: Affine) -> Term {
    Term::Normed { x: Box::new(x), w: a.w, b: Some(a.b), eps: HEAD_EPS }
}

/// Where a question's row of act features comes from.
#[derive(Debug, Clone, Copy, PartialEq, Eq, Structural)]
pub struct FeatureRow {
    /// Its first row, `None` for an empty question, which has zeros there.
    pub first: Option<usize>,
    /// Its first logit.
    pub logit: usize,
    /// Its logits.
    pub count: usize,
}

/// The act feature rows of a packed batch: a question's first row, and its logits.
pub fn feature_rows(batch: &Vec<Input>, p: &Packed) -> (r: Vec<FeatureRow>)
    requires
        p.of(batch@, batch@.len() as int),
    ensures
        r@.len() == batch@.len(),
        forall|s: int| #![trigger r@[s]]
            0 <= s < r@.len() ==> {
                &&& r@[s].first == if batch@[s].ids@.len() > 0 {
                    Some(tokens(batch@, s) as usize)
                } else {
                    None
                }
                &&& r@[s].logit == marks(batch@, s)
                &&& r@[s].count == batch@[s].markers@.len()
            },
{
    let mut r: Vec<FeatureRow> = Vec::new();
    let mut s: usize = 0;
    while s < batch.len()
        invariant
            s <= batch@.len(),
            p.of(batch@, batch@.len() as int),
            r@.len() == s,
            forall|s: int| #![trigger r@[s]]
                0 <= s < r@.len() ==> {
                    &&& r@[s].first == if batch@[s].ids@.len() > 0 {
                        Some(tokens(batch@, s) as usize)
                    } else {
                        None
                    }
                    &&& r@[s].logit == marks(batch@, s)
                    &&& r@[s].count == batch@[s].markers@.len()
                },
        decreases batch@.len() - s,
    {
        assert(p.cu@[s as int] == tokens(batch@, s as int) && p.cu@[s + 1] == tokens(
            batch@,
            s + 1,
        ));
        assert(p.mcu@[s as int] == marks(batch@, s as int) && p.mcu@[s + 1] == marks(batch@, s + 1));
        r.push(
            FeatureRow {
                first: if p.cu[s + 1] > p.cu[s] {
                    Some(p.cu[s])
                } else {
                    None
                },
                logit: p.mcu[s],
                count: p.mcu[s + 1] - p.mcu[s],
            },
        );
        s += 1;
    }
    r
}

/// Packing keeps questions apart: no row and no logit belongs to two of them.
pub proof fn questions_stay_apart(batch: Seq<Input>, s: int, t: int)
    requires
        0 <= s < t < batch.len(),
    ensures
        tokens(batch, s) + batch[s].ids@.len() <= tokens(batch, t),
        marks(batch, s) + batch[s].markers@.len() <= marks(batch, t),
{
    counts_grow(batch, s + 1, t);
}

} // verus!
