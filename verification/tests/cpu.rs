use kime::batch::{outputs, Batch};
use kime::cpu::attention::{self, block, div_ceil, key_row, next_multiple, span};
use kime::cpu::compat::{self, feature_rows, Affine, HeadLayer, Input, Layer, Model, Slot, Stage};
use kime::cpu::gemm::{task, tasks, tiles};
use kime::cpu::par::{claim_next, publish, rounds, unpack, used, ROUND};
use kime::cpu::plan::{CpuBackend, CpuPlan, Loc, Step, Weight};
use kime::cpu::qgemm::{self, at, part_sums, place_row, tile_scalar, tiled_len};
use kime::cpu::run::{dump_of, step_fits, tables, tasks_of, Call};
use kime::cpu::upload::{check_size, keeps_rows, readers, treat, weight_bytes, Held};
use kime::graph::{Bucket, Epilogue, Graph, Layout, Op, Rows, Shape, Val};
use kime::times::by_name;

#[test]
fn every_task_runs_once() {
    for threads in [1, 2, 7] {
        for n in [0, 1, 5, 100] {
            let got = kime::cpu::par::map(n, threads, |i| i * 2);
            assert_eq!(got, (0..n).map(|i| i * 2).collect::<Vec<_>>());
        }
    }
}

#[test]
fn long_jobs_run_in_rounds() {
    assert_eq!(rounds(5), vec![(0, 5)]);
    assert_eq!(rounds(ROUND + 1), vec![(0, ROUND), (ROUND, 1)]);
    assert_eq!((used(3, 8), used(9, 4)), (3, 4));
}

#[test]
fn a_job_hands_out_its_tasks_in_order() {
    let mut word = publish(0, 2);
    let (g, n, next) = unpack(word);
    assert_eq!((n, next), (2, 0));
    let (w, t) = claim_next(word).unwrap();
    assert_eq!(t, 0);
    word = w;
    let (w, t) = claim_next(word).unwrap();
    assert_eq!(t, 1);
    word = w;
    assert_eq!(claim_next(word), None);
    assert_ne!(unpack(publish(word, 2)).0, g);
}

#[test]
fn tiles_cover_an_awkward_output_once() {
    for (m, n) in [(1, 1), (3, 2), (5, 7), (130, 50), (129, 49), (256, 96)] {
        let mut hits = vec![0u8; m * n];
        for t in 0..tasks(m, n) {
            for x in tiles(task(m, n, t)) {
                assert!(x.r1 - x.r0 == 4 || x.r1 - x.r0 == 1);
                for i in x.r0..x.r1 {
                    for j in x.c0..x.c1 {
                        hits[i * n + j] += 1;
                    }
                }
            }
        }
        assert!(hits.iter().all(|&h| h == 1), "{m} {n}");
    }
    assert_eq!(tasks(130, 50), 4);
}

#[test]
fn attention_sees_its_window() {
    assert_eq!(span(10, 90, Some(64), 10), (10, 75));
    assert_eq!(span(10, 90, Some(1), 40), (39, 42));
    assert_eq!(span(10, 90, None, 40), (10, 90));
    assert_eq!((next_multiple(9, 4), div_ceil(9, 4)), (12, 3));
    let b = block(0, 70, 32, Some(1));
    assert_eq!((b.ka, b.kb, b.np, b.groups.len()), (31, 65, 36, 8));
    assert_eq!((b.groups[0].i0, b.groups[0].m), (32, 4));
    assert_eq!(key_row(31, 65, 35), 64);
    assert_eq!(attention::scratch_len(70), 288);
}

#[test]
fn attention_has_a_task_per_head_and_block() {
    let t = attention::tasks(&vec![0, 0, 1, 34], 2);
    let got: Vec<(usize, usize, usize)> = t.iter().map(|t| (t.s, t.h, t.q0)).collect();
    assert_eq!(got, [(1, 0, 0), (1, 1, 0), (2, 0, 1), (2, 1, 1), (2, 0, 33), (2, 1, 33)]);
}

#[test]
fn tiled_values_are_multiplied() {
    let k = 17;
    let row = |s: usize| -> Vec<i8> { (0..k).map(|p| ((p * 7 + s * 13) % 255) as i8).collect() };
    let mut x = vec![0i8; tiled_len(8, k)];
    let mut w = vec![0i8; tiled_len(8, k)];
    for r in 0..8 {
        place_row(&row(r), r, &mut x);
        place_row(&row(r + 40), r, &mut w);
    }
    let got = tile_scalar(&x, &w);
    for i in 0..8 {
        for j in 0..8 {
            let want: i32 =
                row(i).iter().zip(row(j + 40)).map(|(a, b)| i32::from(*a) * i32::from(b)).sum();
            assert_eq!(got[i][j], want, "{i} {j}");
            let s: i32 =
                (0..k).map(|p| i32::from(x[at(i, p, k)]) * i32::from(w[at(j, p, k)])).sum();
            assert_eq!(s, want);
        }
    }
}

/// The xorshift generator of the kernel tests.
struct Rng(u64);

impl Rng {
    fn next(&mut self) -> u64 {
        self.0 ^= self.0 << 13;
        self.0 ^= self.0 >> 7;
        self.0 ^= self.0 << 17;
        self.0
    }

    fn vec(&mut self, n: usize) -> Vec<f32> {
        (0..n).map(|_| (self.next() >> 40) as f32 / (1u64 << 23) as f32 - 1.0).collect()
    }
}

/// A matrix rounded row by row: the tiled values and the scales.
struct Rounded {
    rows: usize,
    k: usize,
    q: Vec<i8>,
    scale: Vec<f32>,
}

fn round_row(row: &[f32]) -> (Vec<i8>, f32) {
    let most = row.iter().fold(0f32, |m, v| m.max(v.abs()));
    let inv = 127.0 / most;
    (row.iter().map(|v| (v * inv).round() as i8).collect(), most / 127.0)
}

fn quantize(x: &[f32], rows: usize, k: usize) -> Rounded {
    let mut q = vec![0; tiled_len(rows, k)];
    let mut scale = Vec::new();
    for (r, row) in x.chunks_exact(k).enumerate() {
        let (v, s) = round_row(row);
        place_row(&v, r, &mut q);
        scale.push(s);
    }
    Rounded { rows, k, q, scale }
}

/// The exact result from the rounded values.
fn want(x: &Rounded, w: &Rounded, b: Option<&[f32]>) -> Vec<f32> {
    let k = x.k;
    let mut y = vec![0.0; x.rows * w.rows];
    for i in 0..x.rows {
        for j in 0..w.rows {
            let s: i64 =
                (0..k).map(|p| i64::from(x.q[at(i, p, k)]) * i64::from(w.q[at(j, p, k)])).sum();
            let v = s as f32 * (x.scale[i] * w.scale[j]);
            y[i * w.rows + j] = b.map_or(v, |b| v + b[j]);
        }
    }
    y
}

fn linear(x: &[f32], m: usize, w: &Rounded, b: Option<&[f32]>, threads: usize) -> Vec<f32> {
    let (k, n) = (w.k, w.rows);
    let mut y = vec![f32::NAN; m * n];
    let s = qgemm::split(m, n, threads);
    for t in 0..s.mt * s.nt {
        let p = s.part(m, n, t);
        let rows = quantize(&x[p.r0 * k..(p.r0 + p.rows) * k], p.rows, k);
        for (i, row) in part_sums(&rows.q, &w.q, k, n, p).iter().enumerate() {
            for (c, sum) in row.iter().enumerate() {
                let j = 8 * p.t0 + c;
                let v = *sum as f32 * (rows.scale[i] * w.scale[j]);
                y[(p.r0 + i) * n + j] = b.map_or(v, |b| v + b[j]);
            }
        }
    }
    y
}

#[test]
fn exact_on_awkward_shapes() {
    let mut rng = Rng(7);
    for (m, k, n) in [(1, 1, 1), (3, 5, 2), (9, 17, 9), (64, 64, 64), (70, 300, 130), (130, 8, 7)] {
        let (x, w, b) = (rng.vec(m * k), rng.vec(n * k), rng.vec(n));
        let (xq, wq) = (quantize(&x, m, k), quantize(&w, n, k));
        for bias in [None, Some(&b[..])] {
            let want = want(&xq, &wq, bias);
            for threads in [1, 3, 16] {
                let y = linear(&x, m, &wq, bias, threads);
                assert!(
                    y.iter().zip(&want).all(|(a, b)| a.to_bits() == b.to_bits()),
                    "{m}x{k}x{n} on {threads}"
                );
            }
        }
    }
}

#[test]
fn kernels_agree() {
    let mut rng = Rng(9);
    for k in [8, 64, 1024] {
        let (x, w) = (rng.vec(8 * k), rng.vec(8 * k));
        let (x, w) = (quantize(&x, 8, k), quantize(&w, 8, k));
        let got = tile_scalar(&x.q, &w.q);
        for (i, row) in got.iter().enumerate() {
            for (j, &s) in row.iter().enumerate() {
                let want: i64 =
                    (0..k).map(|p| i64::from(x.q[at(i, p, k)]) * i64::from(w.q[at(j, p, k)])).sum();
                assert_eq!(i64::from(s), want, "k {k}");
            }
        }
    }
}

#[test]
fn products_are_split_over_threads() {
    for (m, n, threads) in [(1, 1, 1), (70, 130, 3), (130, 7, 16)] {
        let s = qgemm::split(m, n, threads);
        let mut hits = vec![0u8; m * s.tiles];
        for t in 0..s.mt * s.nt {
            let p = s.part(m, n, t);
            for r in p.r0..p.r0 + p.rows {
                for c in p.t0..p.t1 {
                    hits[r * s.tiles + c] += 1;
                }
            }
        }
        assert!(hits.iter().all(|&h| h == 1), "{m} {n} {threads}");
    }
}

#[test]
fn questions_are_packed_end_to_end() {
    let batch = vec![
        Input { ids: vec![5, 6, 7], markers: vec![1, 2], qtype: 2 },
        Input { ids: vec![], markers: vec![], qtype: 0 },
        Input { ids: vec![9], markers: vec![0], qtype: 1 },
    ];
    let p = compat::pack(&batch, 10);
    assert_eq!(p.cu, [0, 3, 3, 4]);
    assert_eq!(p.embed, [5, 6, 7, 9]);
    assert_eq!(p.pos, [0, 1, 2, 0]);
    assert_eq!(p.types, [2, 2, 2, 1]);
    assert_eq!(p.markers, [1, 2, 3]);
    assert_eq!((p.mcu.clone(), p.longest), (vec![0, 2, 2, 3], 3));
    let f = feature_rows(&batch, &p);
    assert_eq!((f[0].first, f[0].logit, f[0].count), (Some(0), 0, 2));
    assert_eq!((f[1].first, f[1].count), (None, 0));
    assert_eq!((f[2].first, f[2].logit), (Some(3), 2));
    assert_eq!((compat::reach(true, 128), compat::reach(false, 128)), (None, Some(64)));
    assert_eq!(compat::rope_of(1, 2, 2), Some(1));
    assert_eq!(compat::rope_of(1, 2, 3), None);
}

#[test]
fn a_forward_pass_has_its_stages() {
    let a = |w| Affine { w, b: w + 1 };
    let m = Model {
        d: 64,
        inter: 96,
        window: 128,
        norm_eps: 7,
        rope_global: 1,
        rope_local: 2,
        tok_embeddings: 0,
        embed_norm: 1,
        layers: vec![
            Layer { attn_norm: None, wqkv: 2, rope_theta: 1, global: true, wo: 3, mlp_norm: 4, wi: 5, mlp_wo: 6 },
            Layer { attn_norm: Some(7), wqkv: 8, rope_theta: 2, global: false, wo: 9, mlp_norm: 10, wi: 11, mlp_wo: 12 },
        ],
        final_norm: 13,
        type_emb: 14,
        head: vec![HeadLayer { norm1: a(20), in_proj: a(22), out_proj: a(24), norm2: a(26), linear1: a(28), linear2: a(30) }],
        scorer_norm: a(40),
        scorer_in: a(42),
        scorer_out: a(44),
        act_in: a(46),
        act_out: a(48),
    };
    let s = m.stages();
    assert_eq!(s.len(), 2 + 10 + 11 + 2 + 10 + 9);
    assert_eq!(s[0], Stage::Embed { table: 0, to: Slot::Stream });
    // The first layer reads the stream itself, with the global table and no window.
    assert_eq!(s[2], Stage::Linear { x: Slot::Stream, k: Some(64), w: 2, b: None, to: Slot::Qkv });
    assert_eq!((s[3], s[4]), (Stage::Rope { table: 0 }, Stage::Attend { window: None }));
    assert_eq!(s[12], Stage::Norm { from: Slot::Stream, w: 7, b: None, eps: 7, to: Slot::Normed });
    assert_eq!((s[14], s[15]), (Stage::Rope { table: 1 }, Stage::Attend { window: Some(64) }));
    assert_eq!(
        s[25],
        Stage::Norm {
            from: Slot::Stream,
            w: 20,
            b: Some(21),
            eps: 1e-5f64.to_bits(),
            to: Slot::Normed
        }
    );
    assert_eq!(
        s[s.len() - 1],
        Stage::Linear { x: Slot::Inner, k: None, w: 48, b: Some(49), to: Slot::Act }
    );
}

fn val(i: u32) -> Val {
    Val(i)
}

/// An embedding, a norm, a product for the logits and the act rows.
fn tiny() -> (Graph, Layout, Bucket, Vec<Weight>) {
    let shape = |rows, width| Shape { rows, width };
    let g = Graph {
        ops: vec![
            Op::Embed { table: 0, out: val(0) },
            Op::LayerNorm { x: val(0), w: 1, b: None, eps: 1e-5f64.to_bits(), out: val(1) },
            Op::GatherMarkers { h: val(1), out: val(2) },
            Op::Gemm { a: val(2), w: 2, b: Some(3), epilogue: Epilogue::Plain, out: val(3) },
            Op::ActFeatures { h: val(1), logits: val(3), out: val(4) },
            Op::Gemm { a: val(4), w: 4, b: None, epilogue: Epilogue::Relu, out: val(5) },
        ],
        vals: vec![
            shape(Rows::Tokens, 8),
            shape(Rows::Tokens, 8),
            shape(Rows::Markers, 8),
            shape(Rows::Markers, 1),
            shape(Rows::Seqs, 12),
            shape(Rows::Seqs, 2),
        ],
        logits: Some(val(3)),
        act: Some(val(5)),
    };
    let bucket = Bucket { tokens: 16, seqs: 2, markers: 4 };
    let (mut offsets, mut len) = (Vec::new(), 0);
    for v in &g.vals {
        offsets.push(len);
        len += bucket.rows(v.rows) * v.width;
    }
    let w = [vec![20, 8], vec![8], vec![1, 8], vec![1], vec![2, 12]]
        .into_iter()
        .map(|shape| Weight { packed: shape.len() == 2, shape, quant: false })
        .collect();
    (g, Layout { offsets, len }, bucket, w)
}

#[test]
fn a_graph_becomes_steps() {
    let (g, lay, bucket, w) = tiny();
    let be = CpuBackend::new(2);
    let mut p: CpuPlan = be.lower(&w, &g, &lay, bucket, &vec![0; 6]).unwrap();
    let names: Vec<&str> = p.steps.iter().map(|s| s.name()).collect();
    assert_eq!(names, ["embed", "layer norm", "gather markers", "gemm", "act features", "gemm"]);
    assert_eq!(p.arena_bytes(), 4 * lay.len);
    assert_eq!(p.bucket(), bucket);
    assert_eq!(p.logits, Loc { off: lay.offsets[3], rows: Rows::Markers, width: 1 });
    assert!(matches!(p.steps[0].out(), Loc { off: 0, .. }));
    assert!(p.dumps().is_empty() && p.dumps.is_none());
    p.dump();
    assert!(p.dumps().is_empty() && p.dumps.is_some());
    p.profile();
    p.profile = Some(vec![5, 1, 2, 10, 3, 20]);
    assert_eq!(
        p.timings(),
        [("gemm", 30), ("embed", 5), ("act features", 3), ("gather markers", 2), ("layer norm", 1)]
    );
}

#[test]
fn shapes_that_do_not_fit_are_refused() {
    let (g, lay, bucket, mut w) = tiny();
    w[1].shape = vec![9];
    let e = CpuBackend::new(1).lower(&w, &g, &lay, bucket, &vec![0; 6]).unwrap_err();
    assert!(e.starts_with("op 1: "), "{e}");
    let (g, lay, bucket, mut w) = tiny();
    w.pop();
    let e = CpuBackend::new(1).lower(&w, &g, &lay, bucket, &vec![0; 6]).unwrap_err();
    assert!(e.contains('4'), "{e}");
    let (mut g, lay, bucket, w) = tiny();
    g.logits = None;
    assert!(CpuBackend::new(1).lower(&w, &g, &lay, bucket, &vec![0; 6]).is_err());
}

fn batch() -> Batch {
    Batch {
        ids: vec![3, 4, 5, 6],
        cu: vec![0, 3, 4],
        markers: vec![1, 2, 0],
        mcu: vec![0, 2, 3],
        qtype: vec![0, 2],
    }
}

#[test]
fn a_step_is_cut_into_calls() {
    let (g, lay, bucket, w) = tiny();
    let p = CpuBackend::new(2).lower(&w, &g, &lay, bucket, &vec![0; 6]).unwrap();
    let b = batch();
    assert_eq!(b.seqs(), 2);
    let tb = tables(&b, bucket).unwrap();
    assert_eq!((tb.cu, tb.row_seq), (vec![0, 3, 4], vec![0, 0, 0, 1]));
    assert!(tables(&b, Bucket { tokens: 3, seqs: 2, markers: 4 }).is_none());
    let tb = tables(&b, bucket).unwrap();
    let weights = vec![160, 8, 8, 1, 24];
    let calls: Vec<Call> =
        tasks_of(p.steps[0], &b, &tb, p.arena_len, &weights).into_iter().flatten().collect();
    assert_eq!(calls[1], Call::CopyTable { table: 0, from: 32, to: 8, len: 8 });
    assert_eq!(calls.len(), 4);
    let Step::Gather { out, .. } = p.steps[2] else { panic!() };
    let calls: Vec<Call> =
        tasks_of(p.steps[2], &b, &tb, p.arena_len, &weights).into_iter().flatten().collect();
    let arena: Vec<u32> = (0..p.arena_len as u32).collect();
    let d = dump_of(p.steps[2], &b, &arena);
    assert_eq!((d.name, d.width, d.data.len()), ("gather markers", 8, 24));
    assert_eq!(d.data[0] as usize, out.off);
    // The second question's marker is row 3.
    assert!(calls.iter().any(|c| matches!(c, Call::Move { from, to, len: 8 }
        if *from == lay.offsets[1] + 24 && *to == out.off + 16)));
}

#[test]
fn weights_are_treated_as_their_readers_need() {
    let (g, _, _, _) = tiny();
    let be = CpuBackend::new(1);
    let rd = readers(be, &g, 5);
    assert_eq!(rd.gemm, [false, false, true, false, true]);
    assert_eq!(rd.other, [true, true, false, true, false]);
    assert!(treat(&rd, 2, 8, &vec![1, 8]).unwrap().pack);
    assert!(!keeps_rows(&rd, 2, true, false));
    assert!(keeps_rows(&rd, 0, false, false));
    assert_eq!(treat(&rd, 2, 7, &vec![1, 8]).unwrap_err(), "tensor 2 has 7 values for [1, 8]");
    assert!(check_size(0, 1, &Vec::new()).is_ok());
    let int8 = CpuBackend::new(1).with_int8(true);
    assert!(int8.int8() && int8.int8_rows(Rows::Tokens) && int8.threads() == 1);
    let held = [Held { data: 2, packed: 3, rounded: 5, scales: 1 }];
    assert_eq!(weight_bytes(&held.to_vec()), 29);
}

#[test]
fn outputs_are_read_from_their_places() {
    let (l, a) = outputs(&vec![9, 1, 2, 3, 4, 5, 6], 1, 2, 3, 2);
    assert_eq!((l, a), (vec![1, 2], vec![[3, 4], [5, 6]]));
    assert_eq!(by_name(&vec!["a", "b", "a"], &vec![1, 2, 1]), [("a", 2), ("b", 2)]);
}

#[test]
fn a_mean_pool_is_refused() {
    let (mut g, mut lay, bucket, w) = tiny();
    g.vals.push(Shape { rows: Rows::Seqs, width: 8 });
    lay.offsets.push(lay.len);
    lay.len += bucket.seqs * 8;
    g.ops.push(Op::MeanPool { h: val(1), out: val(6) });
    let e = CpuBackend::new(1).lower(&w, &g, &lay, bucket, &vec![0; 7]).unwrap_err();
    assert_eq!(e, "op 6: mean pool is not on the CPU yet");
}

#[test]
fn the_steps_of_a_plan_fit_its_arena() {
    let (g, lay, bucket, w) = tiny();
    assert!(g.is_whole() && lay.covers(&g, bucket));
    let p = CpuBackend::new(2).lower(&w, &g, &lay, bucket, &vec![0; 6]).unwrap();
    let (b, weights) = (batch(), vec![160, 8, 8, 1, 24]);
    for s in &p.steps {
        assert!(step_fits(*s, &b, p.arena_len, &weights), "{}", s.name());
    }
    assert!(!step_fits(p.steps[0], &b, 16, &weights));
    assert!(!step_fits(p.steps[0], &b, p.arena_len, &vec![40, 8, 8, 1, 24]));
    assert!(!step_fits(p.steps[3], &b, lay.offsets[3], &weights));
}

#[test]
fn a_graph_with_a_value_it_does_not_have_is_not_whole() {
    let (mut g, mut lay, bucket, _) = tiny();
    lay.len -= 1;
    assert!(!lay.covers(&g, bucket));
    lay.offsets.pop();
    assert!(!lay.covers(&g, bucket));
    g.ops.push(Op::GatherMarkers { h: val(0), out: val(6) });
    assert!(!g.is_whole());
}

#[test]
fn a_block_takes_the_keys_its_queries_see_and_no_more() {
    let b = block(0, 100, 40, Some(1));
    assert_eq!((b.ka, b.kb, b.np, b.groups.len()), (39, 73, 36, 8));
    let tiles: Vec<_> = b.groups.iter().map(|g| (g.i0, g.m, g.t0, g.t1)).collect();
    assert_eq!(tiles[..2], [(40, 4, 0, 8), (44, 4, 4, 12)]);
    assert_eq!(tiles[7], (68, 4, 28, 36));
    let b = block(10, 90, 10, Some(64));
    assert_eq!((b.ka, b.kb, b.np), (10, 90, 80));
    assert_eq!((b.groups[0].t0, b.groups[0].t1), (0, 68));
    let b = block(10, 17, 10, None);
    assert_eq!((b.ka, b.kb, b.np, b.groups.len()), (10, 17, 8, 2));
    assert_eq!((b.groups[1].i0, b.groups[1].m, b.groups[1].t0, b.groups[1].t1), (14, 3, 0, 8));
}
