use kime::batch::Batch;
use kime::cuda::launch::{fill, kind, launch_step, step_fits, Arg, Item, Kernel};
use kime::cuda::plan::{weight_bytes, CudaPlan, Device, Index, Input, Loc, Ptrs, Step};
use kime::cuda::tune::{
    candidates, fastest, found, leaders, parse, setup, Dims, Key, Picks, CANDIDATES,
};
use kime::cuda::types::{arch_flag, types, Precision, Ty};
use kime::graph::{Bucket, Epilogue, Graph, Layout, Op, Rows, Shape, Val};

#[test]
fn arch_flags() {
    assert_eq!(arch_flag((7, 5)), "compute_75");
    assert_eq!(arch_flag((8, 6)), "compute_86");
    assert_eq!(arch_flag((8, 9)), "compute_89");
    assert_eq!(arch_flag((12, 0)), "compute_90");
}

fn graph() -> Graph {
    let shape = |rows, width| Shape { rows, width };
    Graph {
        ops: vec![
            Op::Embed { table: 0, out: Val(0) },
            Op::LayerNorm { x: Val(0), w: 1, b: None, eps: 1e-5f64.to_bits(), out: Val(1) },
            Op::Gemm { a: Val(1), w: 5, b: None, epilogue: Epilogue::Plain, out: Val(6) },
            Op::Rope { qkv: Val(6), theta: 1e4f64.to_bits() },
            Op::Attention { qkv: Val(6), window: Some(64), out: Val(7) },
            Op::Gemm { a: Val(7), w: 6, b: None, epilogue: Epilogue::Accumulate, out: Val(0) },
            Op::GatherMarkers { h: Val(0), out: Val(2) },
            Op::Gemm { a: Val(2), w: 2, b: Some(3), epilogue: Epilogue::Plain, out: Val(3) },
            Op::ActFeatures { h: Val(0), logits: Val(3), out: Val(4) },
            Op::Gemm { a: Val(4), w: 4, b: None, epilogue: Epilogue::Relu, out: Val(5) },
        ],
        vals: vec![
            shape(Rows::Tokens, 64),
            shape(Rows::Tokens, 64),
            shape(Rows::Markers, 64),
            shape(Rows::Markers, 1),
            shape(Rows::Seqs, 68),
            shape(Rows::Seqs, 2),
            shape(Rows::Tokens, 192),
            shape(Rows::Tokens, 64),
        ],
        logits: Some(Val(3)),
        act: Some(Val(5)),
    }
}

#[test]
fn values_keep_fp32_where_it_matters() {
    let g = graph();
    assert!(types(&g, Precision::F32).iter().all(|t| *t == Ty::F32));
    let t = types(&g, Precision::F16);
    // The residual stream, the act features, the outputs and attention's input are FP32, and so is
    // what is gathered from the stream.
    assert_eq!(t, [Ty::F32, Ty::F16, Ty::F32, Ty::F32, Ty::F32, Ty::F32, Ty::F32, Ty::F16]);
    assert_eq!(Precision::default(), Precision::F32);
}

fn lowered() -> (Result<CudaPlan, String>, Bucket) {
    let g = graph();
    let bucket = Bucket { tokens: 32, seqs: 2, markers: 4 };
    let (mut offsets, mut len) = (Vec::new(), 0);
    for v in &g.vals {
        offsets.push(len);
        len += bucket.rows(v.rows) * v.width;
    }
    let lay = Layout { offsets, len };
    let ty = types(&g, Precision::F16);
    let w = vec![
        vec![20, 64],
        vec![64],
        vec![1, 64],
        vec![1],
        vec![2, 68],
        vec![192, 64],
        vec![64, 64],
    ];
    let dev = Device {
        arena: 1 << 20,
        stage: 1 << 16,
        w32: (0..7).map(|i| 100 + i).collect(),
        w16: (0..7).map(|i| 200 + i).collect(),
        ropes: vec![(300, 301)],
        ranked_rows: 512,
    };
    let picks = Picks { lines: Vec::new() };
    let input = Input { w: &w, g: &g, lay: &lay, ty: &ty, bucket, dev: &dev, picks: &picks };
    (input.lower(), bucket)
}

#[test]
fn a_graph_becomes_launches() {
    let (p, bucket) = lowered();
    let mut p = p.unwrap();
    let names: Vec<&str> = p.steps.iter().map(|s| s.name()).collect();
    assert_eq!(
        names,
        [
            "embed",
            "layer norm",
            "gemm",
            "attention",
            "gemm",
            "gather markers",
            "gemm",
            "act features",
            "gemm"
        ]
    );
    assert_eq!(p.bucket(), bucket);
    assert_eq!(p.arena_bytes(), 4 * (32 * 64 * 3 + 4 * 65 + 2 * 70 + 32 * 192));
    assert_eq!(p.plan_bytes(), p.arena_bytes() + 2);
    assert_eq!(p.gemms[0].dims, Dims { m: 32, k: 64, n: 192 });
    // The rope is applied inside attention.
    assert!(matches!(p.steps[3], Step::Attention { cos: 300, sin: 301, window: 64, .. }));
    p.profile();
    p.profile = Some(vec![1, 2, 30, 4, 5, 6, 7, 8, 9]);
    p.profiled = 3;
    assert_eq!(p.timings()[0], ("gemm", 51));
    let t = p.gemm_timings();
    assert_eq!(t[0], (Dims { m: 32, k: 64, n: 192 }, 3, 30));
    assert_eq!(t[1], (Dims { m: 2, k: 68, n: 2 }, 3, 9));
    assert_eq!(t.len(), 4);
}

#[test]
fn index_tables_hold_the_batch() {
    let bucket = Bucket { tokens: 8, seqs: 2, markers: 4 };
    let at = Index::new(bucket);
    let b = Batch {
        ids: vec![3, 4, 5, 6],
        cu: vec![0, 3, 4],
        markers: vec![1, 2, 0],
        mcu: vec![0, 2, 3],
        qtype: vec![0, 2],
    };
    let mut h = vec![0u32; at.len];
    fill(&mut h, at, bucket, &b);
    assert_eq!(h[..4], [4, 2, 3, 0]);
    assert_eq!(h[at.ids..at.ids + 4], [3, 4, 5, 6]);
    assert_eq!(h[at.pos..at.pos + 4], [0, 1, 2, 0]);
    assert_eq!(h[at.seq..at.seq + 4], [0, 0, 0, 1]);
    assert_eq!(h[at.mrow..at.mrow + 3], [1, 2, 3]);
    assert_eq!(h[at.qtype..at.qtype + 2], [0, 2]);
    let p = Ptrs::new(1000, at);
    assert_eq!((p.n, p.ids), (1000, 1000 + 4 * at.ids as u64));
    let out = Loc { ptr: 77, rows: Rows::Tokens, width: 64, ty: Ty::F32 };
    assert!(!out.half());
    let items = launch_step(bucket, p, 0, Step::Embed { table: 5, out });
    let Item::Run(l) = &items[0] else { panic!() };
    assert_eq!(l.kernel, Kernel::Embed);
    assert_eq!(l.args[..2], [Arg::Ptr(77), Arg::Ptr(5)]);
    assert_eq!((l.grid_x, l.threads), (8, 256));
    assert_ne!(kind(Rows::Tokens), kind(Rows::Seqs));
}

fn key() -> Key {
    Key { dims: Dims { m: 512, k: 64, n: 192 }, ab: Ty::F16, c: Ty::F32, acc: true }
}

#[test]
fn picks_come_from_the_table() {
    let line = key().line("GPU X", 3);
    let cs: Vec<char> = line.chars().collect();
    assert_eq!(parse(&cs, "GPU X"), Some((key(), 3)));
    assert_eq!(parse(&cs, "GPU Y"), None);
    let table = format!("# a comment\n\n{line}\n");
    let p = Picks::for_gpu(&table, "GPU X");
    assert_eq!(p.get(&key()), 3);
    assert_eq!(p.get(&Key { acc: false, ..key() }), 0);
    assert_eq!(Picks::for_gpu(&table, "other").get(&key()), 0);
    // A line that is added wins over those before it.
    let more = format!("{table}{}", key().line("GPU X", 5));
    assert_eq!(Picks::for_gpu(&more, "GPU X").get(&key()), 5);
}

#[test]
fn ranks_are_counted_and_timed() {
    assert_eq!((found(-1), found(3)), (0, 3));
    assert!(found(100) <= CANDIDATES);
    let ok = vec![true, false, true, true, false, false, false, false];
    assert_eq!(candidates(&ok, 3, 1), Some((vec![0, 2], 1)));
    assert_eq!(candidates(&ok, 3, 5), Some((vec![0, 2], 0)));
    assert_eq!(candidates(&vec![false; 8], 8, 0), None);
    let bits = |v: &[f64]| -> Vec<u64> { v.iter().map(|x| x.to_bits()).collect() };
    let t = bits(&[1.0, 0.99, 0.9, 0.9, 2.0]);
    assert_eq!(fastest(&t, 0.98f64.to_bits()), 2);
    assert_eq!(fastest(&bits(&[1.0, 0.99]), 0.98f64.to_bits()), 0);
    let other = Key { acc: false, ..key() };
    assert_eq!(leaders(&vec![key(), other, key(), other]), [0, 1, 0, 1]);
    let s = setup(Dims { m: 2, k: 3, n: 4 }, Ty::F16, Ty::F32, true);
    assert!(s.accumulate);
    assert_eq!(weight_bytes(&vec![10, 4], &vec![None, Some(4)]), 64);
}

#[test]
fn a_line_reads_back_with_a_comment_and_for_its_gpu_only() {
    for gpu in ["", "NVIDIA L4", "a - b"] {
        for (acc, pick) in [(true, 0), (false, usize::MAX)] {
            let key = Key { dims: Dims { m: 0, k: usize::MAX, n: 7 }, ab: Ty::F32, c: Ty::F16, acc };
            let line = key.line(gpu, pick);
            for tail in ["", "#", "    # note", "\t# a | b # c"] {
                let cs: Vec<char> = format!("{line}{tail}").chars().collect();
                assert_eq!(parse(&cs, gpu), Some((key, pick)), "{line}{tail}");
                assert_eq!(parse(&cs, "other"), None);
            }
        }
    }
    // A name with a bar does not read back.
    let cs: Vec<char> = key().line("a|b", 1).chars().collect();
    assert_eq!(parse(&cs, "a|b"), None);
}

#[test]
fn what_the_launches_go_by_is_tested() {
    let g = graph();
    let bucket = Bucket { tokens: 32, seqs: 2, markers: 4 };
    let (mut offsets, mut len) = (Vec::new(), 0);
    for v in &g.vals {
        offsets.push(len);
        len += bucket.rows(v.rows) * v.width;
    }
    let lay = Layout { offsets, len };
    let ty = types(&g, Precision::F16);
    let w: Vec<Vec<usize>> = vec![vec![1]; 7];
    let picks = Picks { lines: Vec::new() };
    let dev = |ropes: usize, arena: u64| Device {
        arena,
        stage: 0,
        w32: vec![1; 7],
        w16: vec![2; 7],
        ropes: vec![(3, 4); ropes],
        ranked_rows: 512,
    };
    let whole = |dev: &Device, ty: &Vec<Ty>| {
        Input { w: &w, g: &g, lay: &lay, ty, bucket, dev, picks: &picks }.is_whole()
    };
    assert!(whole(&dev(1, 1 << 20), &ty));
    assert!(!whole(&dev(2, 1 << 20), &ty));
    assert!(!whole(&dev(1, u64::MAX), &ty));
    assert!(!whole(&dev(1, 1 << 20), &ty[1..].to_vec()));
    let (p, bucket) = lowered();
    assert!(p.unwrap().steps.iter().all(|s| step_fits(bucket, *s)));
    let wide = Loc { ptr: 0, rows: Rows::Tokens, width: 1 << 31, ty: Ty::F32 };
    assert!(!step_fits(bucket, Step::Embed { table: 0, out: wide }));
    let many = Bucket { tokens: 1 << 32, ..bucket };
    assert!(!step_fits(many, Step::Embed { table: 0, out: Loc { width: 64, ..wide } }));
}
