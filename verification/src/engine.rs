//! Answering requests: which device a model runs on, how questions are packed into batches, and how
//! what the device gives back becomes responses.

use crate::answer::{answers_view, Answer, AnswerView, Response, LAYA_MODEL};
use crate::batch::Batch;
use crate::cache::{Entry, EntryView};
use crate::compact::{compact, to_compact};
use crate::cuda::types::Precision as CudaPrecision;
use crate::graph::Bucket;
use crate::hub::{debug_string, debug_text};
use crate::json::Json;
use crate::request::{problem_json, problems_view, Problem, ProblemView, QType};
use crate::text::{dec, decimal, join2, join3, join5};
use vstd::prelude::*;

verus! {

/// Where a model runs.
#[derive(Debug, Clone, Copy, PartialEq, Eq, Structural)]
pub enum Device {
    /// The first CUDA GPU when there is one and this build has CUDA, the CPU otherwise.
    Auto,
    /// The CPU, on `threads` threads, or every core for 0.
    Cpu {
        /// Worker threads.
        threads: usize,
    },
    /// A CUDA GPU by ordinal.
    Cuda(usize),
    /// The Apple GPU.
    Metal,
    /// The Apple Neural Engine.
    Ane,
}

impl Default for Device {
    fn default() -> (r: Self)
        ensures
            r == Device::Auto,
    {
        Device::Auto
    }
}

/// The number format. The CPU computes in FP32 for both float settings.
#[derive(Debug, Clone, Copy, PartialEq, Eq, Structural)]
pub enum Precision {
    /// FP16 weights and product inputs with FP32 accumulation.
    F16,
    /// FP32 throughout.
    F32,
    /// INT8 weights and activations in the products over token rows, on the CPU only.
    Int8,
}

impl Default for Precision {
    fn default() -> (r: Self)
        ensures
            r == Precision::F16,
    {
        Precision::F16
    }
}

/// Why a request was not answered.
#[derive(Debug)]
pub enum Error {
    /// The request does not validate. Every problem is listed.
    Invalid(Vec<Problem>),
    /// The model name did not resolve.
    NotFound(String),
    /// The checkpoint did not load.
    Model(String),
    /// The checkpoint's tokenizer did not load.
    Tokenizer(String),
    /// The device failed, or the batch did not fit it.
    Backend(String),
    /// A question's head and options do not fit the checkpoint's budget, so some options have no
    /// marker.
    TooLong {
        /// The question id.
        question: String,
        /// Its options.
        options: usize,
        /// The options that fit.
        fit: usize,
    },
    /// The device asked for is not in this build or not on this machine.
    Unsupported(String),
}

/// The first `n` problems as text, each with a semicolon.
pub open spec fn problems_text(p: Seq<ProblemView>, n: int) -> Seq<char>
    decreases n,
{
    if n <= 0 {
        seq![]
    } else {
        problems_text(p, n - 1) + " "@ + compact(problem_json(p[n - 1])) + ";"@
    }
}

impl Error {
    /// The error in words.
    pub open spec fn text(self) -> Seq<char> {
        match self {
            Error::Invalid(p) => "invalid request:"@ + problems_text(
                problems_view(p@),
                p@.len() as int,
            ),
            Error::NotFound(m) => m@,
            Error::Model(m) => m@,
            Error::Tokenizer(m) => m@,
            Error::Backend(m) => m@,
            Error::Unsupported(m) => m@,
            Error::TooLong { question, options, fit } => "question "@ + debug_text(question@)
                + " has "@ + dec(options as nat) + " options but only "@ + dec(fit as nat)
                + " fit the head budget"@,
        }
    }

    /// The error in words.
    pub fn message(&self) -> (r: String)
        ensures
            r@ == self.text(),
    {
        match self {
            Error::Invalid(p) => {
                let mut out = "invalid request:".to_owned();
                let ghost pv = problems_view(p@);
                let ghost head = out@;
                let mut i: usize = 0;
                assert(out@ =~= head + problems_text(pv, 0));
                while i < p.len()
                    invariant
                        i <= p@.len(),
                        pv == problems_view(p@),
                        out@ == head + problems_text(pv, i as int),
                    decreases p@.len() - i,
                {
                    assert(pv[i as int] == p@[i as int]@);
                    out.append(" ");
                    out.append(to_compact(&p[i].to_json()).as_str());
                    out.append(";");
                    i += 1;
                    assert(out@ =~= head + problems_text(pv, i as int));
                }
                out
            },
            Error::NotFound(m) => m.as_str().to_owned(),
            Error::Model(m) => m.as_str().to_owned(),
            Error::Tokenizer(m) => m.as_str().to_owned(),
            Error::Backend(m) => m.as_str().to_owned(),
            Error::Unsupported(m) => m.as_str().to_owned(),
            Error::TooLong { question, options, fit } => {
                let mut out = join5(
                    "question ",
                    debug_string(question.as_str()).as_str(),
                    " has ",
                    decimal(*options as u64).as_str(),
                    " options but only ",
                );
                out.append(decimal(*fit as u64).as_str());
                out.append(" fit the head budget");
                out
            },
        }
    }
}

/// What a model is opened on.
#[derive(Debug)]
pub enum Opened {
    /// The CPU, on some threads, or every core for 0.
    Cpu {
        /// Threads.
        threads: usize,
        /// Whether the products over token rows run in INT8.
        int8: bool,
    },
    /// A CUDA GPU, and the CPU on every core when it cannot be opened and `fall_back` is set.
    Cuda {
        /// The GPU.
        ordinal: usize,
        /// What runs in FP16.
        precision: CudaPrecision,
        /// Whether the CPU takes its place.
        fall_back: bool,
    },
    /// Nothing, for this reason.
    Refused(String),
}

/// What CUDA runs at a number format, none for INT8.
pub open spec fn cuda_of(p: Precision) -> Option<CudaPrecision> {
    match p {
        Precision::F16 => Some(CudaPrecision::F16),
        Precision::F32 => Some(CudaPrecision::F32),
        Precision::Int8 => None,
    }
}

/// What CUDA runs at a number format, or why it does not.
pub fn cuda(p: Precision) -> (r: Result<CudaPrecision, Error>)
    ensures
        match r {
            Ok(c) => cuda_of(p) == Some(c),
            Err(e) => cuda_of(p) is None && e.text() == "INT8 runs on the CPU only for now"@,
        },
{
    match p {
        Precision::F16 => Ok(CudaPrecision::F16),
        Precision::F32 => Ok(CudaPrecision::F32),
        Precision::Int8 => Err(Error::Unsupported("INT8 runs on the CPU only for now".to_owned())),
    }
}

/// What a model is opened on: the device asked for, when this build has it. Without a wish it is
/// the first GPU in a build with CUDA, and the CPU when that cannot run the number format or be
/// opened.
pub fn open(device: Device, precision: Precision, has_cuda: bool) -> (r: Opened)
    ensures
        match device {
            Device::Cpu { threads } => r == (Opened::Cpu {
                threads,
                int8: precision == Precision::Int8,
            }),
            Device::Auto => if has_cuda && cuda_of(precision) is Some {
                r == (Opened::Cuda {
                    ordinal: 0,
                    precision: cuda_of(precision)->0,
                    fall_back: true,
                })
            } else {
                r == (Opened::Cpu { threads: 0, int8: precision == Precision::Int8 })
            },
            Device::Cuda(n) => if !has_cuda {
                r matches Opened::Refused(m) && m@ == "this build has no CUDA backend"@
            } else {
                match cuda_of(precision) {
                    Some(p) => r == (Opened::Cuda { ordinal: n, precision: p, fall_back: false }),
                    None => r matches Opened::Refused(m) && m@
                        == "INT8 runs on the CPU only for now"@,
                }
            },
            Device::Metal => r matches Opened::Refused(m) && m@
                == "the Apple backends arrive with M4"@,
            Device::Ane => r matches Opened::Refused(m) && m@
                == "the Apple backends arrive with M4"@,
        },
{
    let int8 = matches!(precision, Precision::Int8);
    match device {
        Device::Cpu { threads } => Opened::Cpu { threads, int8 },
        Device::Auto => {
            if has_cuda {
                match cuda(precision) {
                    Ok(p) => Opened::Cuda { ordinal: 0, precision: p, fall_back: true },
                    Err(_) => Opened::Cpu { threads: 0, int8 },
                }
            } else {
                Opened::Cpu { threads: 0, int8 }
            }
        },
        Device::Cuda(n) => {
            if !has_cuda {
                Opened::Refused("this build has no CUDA backend".to_owned())
            } else {
                match cuda(precision) {
                    Ok(p) => Opened::Cuda { ordinal: n, precision: p, fall_back: false },
                    Err(_) => Opened::Refused("INT8 runs on the CPU only for now".to_owned()),
                }
            }
        },
        Device::Metal => Opened::Refused("the Apple backends arrive with M4".to_owned()),
        Device::Ane => Opened::Refused("the Apple backends arrive with M4".to_owned()),
    }
}

/// The CPU in words.
pub fn describe_cpu(threads: usize, int8: bool) -> (r: String)
    ensures
        r@ == "cpu, "@ + dec(threads as nat) + " threads"@ + (if int8 {
            ", int8"@
        } else {
            ""@
        }),
{
    let mut r = join3("cpu, ", decimal(threads as u64).as_str(), " threads");
    r.append(
        if int8 {
            ", int8"
        } else {
            ""
        },
    );
    r
}

/// A GPU in words.
pub fn describe_cuda(name: &str) -> (r: String)
    ensures
        r@ == "cuda, "@ + name@,
{
    join2("cuda, ", name)
}

/// Where the time of a call went, in nanoseconds.
#[derive(Debug, Clone, Copy, PartialEq, Eq, Structural)]
pub struct Timing {
    /// Validating the requests and laying their questions out as token ids.
    pub tokenize: u64,
    /// The device batches, from the first upload to the last result copied back.
    pub device: u64,
    /// How many device batches the questions took.
    pub batches: usize,
    /// Questions whose state was cut to fit the model's sequence length.
    pub truncated: usize,
    /// State tokens left out of those questions.
    pub cut_tokens: usize,
    /// Questions answered from the answer cache.
    pub cached: usize,
}

/// Bytes a model holds on its device.
#[derive(Debug, Clone, Copy, PartialEq, Eq, Structural)]
pub struct Memory {
    /// The weights, in the device's layout.
    pub weights: usize,
    /// The plans built so far, one per bucket used: their arenas and staging buffers.
    pub plans: usize,
}

/// Which end of a state is cut when it is too long.
#[derive(Debug, Clone, Copy, PartialEq, Eq, Structural)]
pub enum Cut {
    /// The start, so the end stays.
    Head,
    /// The end, so the start stays.
    Tail,
}

/// Which end of a state is cut: the start of a conversation, which is a list, and the end of
/// anything else.
pub fn cut_of(state: &Json) -> (r: Cut)
    ensures
        r == if state@ is Array {
            Cut::Head
        } else {
            Cut::Tail
        },
{
    match state {
        Json::Array(_) => Cut::Head,
        _ => Cut::Tail,
    }
}

/// One laid out question.
#[derive(Debug)]
pub struct Item {
    /// The request it is of.
    pub req: usize,
    /// Its id.
    pub id: String,
    /// Its type.
    pub qtype: QType,
    /// Token ids.
    pub ids: Vec<u32>,
    /// Marker positions, one per option.
    pub markers: Vec<u32>,
    /// The state's tokens.
    pub state_tokens: usize,
    /// Those of them that fit.
    pub state_tokens_used: usize,
}

impl Item {
    /// Every marker is a position of the row, and no more state is used than there is.
    pub open spec fn wf(&self) -> bool {
        &&& forall|k: int|
            0 <= k < self.markers@.len() ==> #[trigger] self.markers@[k] < self.ids@.len()
        &&& self.state_tokens_used <= self.state_tokens
    }
}

/// A question that has a marker for every option, or the error that says how many fit.
pub fn check_fit(id: &str, options: usize, fit: usize) -> (r: Result<(), Error>)
    ensures
        match r {
            Ok(_) => options == fit,
            Err(Error::TooLong { question, options: o, fit: f }) => options != fit && question@
                == id@ && o == options && f == fit,
            _ => false,
        },
{
    if options != fit {
        return Err(Error::TooLong { question: id.to_owned(), options, fit });
    }
    Ok(())
}

/// The tokens and markers of each item.
pub fn sizes(items: &Vec<Item>) -> (r: Vec<(usize, usize)>)
    ensures
        r@ == Seq::new(
            items@.len(),
            |i: int| (items@[i].ids@.len() as usize, items@[i].markers@.len() as usize),
        ),
{
    let mut r: Vec<(usize, usize)> = Vec::new();
    let mut i: usize = 0;
    while i < items.len()
        invariant
            i <= items@.len(),
            r@ == Seq::new(
                i as nat,
                |i: int| (items@[i].ids@.len() as usize, items@[i].markers@.len() as usize),
            ),
        decreases items@.len() - i,
    {
        r.push((items[i].ids.len(), items[i].markers.len()));
        i += 1;
        assert(r@ =~= Seq::new(
            i as nat,
            |i: int| (items@[i].ids@.len() as usize, items@[i].markers@.len() as usize),
        ));
    }
    r
}

/// The ids of the first `n` items of a batch, one after the other.
pub open spec fn all_ids(items: Seq<Item>, at: Seq<usize>, n: int) -> Seq<u32>
    decreases n,
{
    if n <= 0 {
        seq![]
    } else {
        all_ids(items, at, n - 1) + items[at[n - 1] as int].ids@
    }
}

/// The markers of the first `n` items of a batch, one after the other.
pub open spec fn all_markers(items: Seq<Item>, at: Seq<usize>, n: int) -> Seq<u32>
    decreases n,
{
    if n <= 0 {
        seq![]
    } else {
        all_markers(items, at, n - 1) + items[at[n - 1] as int].markers@
    }
}

/// A batch of some items, in order.
pub open spec fn packed(b: &Batch, items: Seq<Item>, at: Seq<usize>) -> bool {
    let n = at.len() as int;
    &&& b.ids@ == all_ids(items, at, n)
    &&& b.markers@ == all_markers(items, at, n)
    &&& b.cu@ == Seq::new((n + 1) as nat, |k: int| all_ids(items, at, k).len() as u32)
    &&& b.mcu@ == Seq::new((n + 1) as nat, |k: int| all_markers(items, at, k).len() as u32)
    &&& b.qtype@ == Seq::new(n as nat, |k: int| items[at[k] as int].qtype.number() as u8)
}

/// Appends words.
fn extend(out: &mut Vec<u32>, v: &Vec<u32>)
    ensures
        final(out)@ == old(out)@ + v@,
{
    let ghost before = out@;
    let mut i: usize = 0;
    assert(out@ =~= before + v@.take(0));
    while i < v.len()
        invariant
            i <= v@.len(),
            out@ == before + v@.take(i as int),
        decreases v@.len() - i,
    {
        out.push(v[i]);
        i += 1;
        assert(out@ =~= before + v@.take(i as int));
    }
    assert(v@.take(i as int) =~= v@);
}

/// Longer prefixes of a batch have no fewer ids and markers.
proof fn prefixes_grow(items: Seq<Item>, at: Seq<usize>, m: int, n: int)
    requires
        0 <= m <= n,
    ensures
        all_ids(items, at, m).len() <= all_ids(items, at, n).len(),
        all_markers(items, at, m).len() <= all_markers(items, at, n).len(),
    decreases n - m,
{
    if m < n {
        prefixes_grow(items, at, m, n - 1);
    }
}

/// Packs items into a batch.
pub fn pack(items: &Vec<Item>, at: &Vec<usize>) -> (b: Batch)
    requires
        forall|k: int| 0 <= k < at@.len() ==> #[trigger] at@[k] < items@.len(),
        forall|i: int| 0 <= i < items@.len() ==> (#[trigger] items@[i]).wf(),
        all_ids(items@, at@, at@.len() as int).len() <= u32::MAX,
        all_markers(items@, at@, at@.len() as int).len() <= u32::MAX,
    ensures
        packed(&b, items@, at@),
        b.wf(),
{
    let mut ids: Vec<u32> = Vec::new();
    let mut markers: Vec<u32> = Vec::new();
    let mut cu: Vec<u32> = Vec::new();
    let mut mcu: Vec<u32> = Vec::new();
    let mut qtype: Vec<u8> = Vec::new();
    cu.push(0);
    mcu.push(0);
    let mut k: usize = 0;
    assert(ids@ =~= all_ids(items@, at@, 0));
    assert(markers@ =~= all_markers(items@, at@, 0));
    while k < at.len()
        invariant
            k <= at@.len(),
            forall|k: int| 0 <= k < at@.len() ==> #[trigger] at@[k] < items@.len(),
            all_ids(items@, at@, at@.len() as int).len() <= u32::MAX,
            all_markers(items@, at@, at@.len() as int).len() <= u32::MAX,
            ids@ == all_ids(items@, at@, k as int),
            markers@ == all_markers(items@, at@, k as int),
            cu@ == Seq::new((k + 1) as nat, |k: int| all_ids(items@, at@, k).len() as u32),
            mcu@ == Seq::new((k + 1) as nat, |k: int| all_markers(items@, at@, k).len() as u32),
            qtype@ == Seq::new(
                k as nat,
                |k: int| items@[at@[k] as int].qtype.number() as u8,
            ),
        decreases at@.len() - k,
    {
        let it = &items[at[k]];
        extend(&mut ids, &it.ids);
        extend(&mut markers, &it.markers);
        proof {
            prefixes_grow(items@, at@, k + 1, at@.len() as int);
        }
        cu.push(ids.len() as u32);
        mcu.push(markers.len() as u32);
        qtype.push(it.qtype.index() as u8);
        k += 1;
        assert(cu@ =~= Seq::new((k + 1) as nat, |k: int| all_ids(items@, at@, k).len() as u32));
        assert(mcu@ =~= Seq::new(
            (k + 1) as nat,
            |k: int| all_markers(items@, at@, k).len() as u32,
        ));
        assert(qtype@ =~= Seq::new(
            k as nat,
            |k: int| items@[at@[k] as int].qtype.number() as u8,
        ));
    }
    let b = Batch { ids, cu, markers, mcu, qtype };
    proof {
        packed_wf(&b, items@, at@);
    }
    b
}

/// A packed batch is whole: its bounds cover it, and its markers are positions of their rows.
proof fn packed_wf(b: &Batch, items: Seq<Item>, at: Seq<usize>)
    requires
        packed(b, items, at),
        forall|k: int| 0 <= k < at.len() ==> #[trigger] at[k] < items.len(),
        forall|i: int| 0 <= i < items.len() ==> (#[trigger] items[i]).wf(),
        all_ids(items, at, at.len() as int).len() <= u32::MAX,
        all_markers(items, at, at.len() as int).len() <= u32::MAX,
    ensures
        b.wf(),
{
    let n = at.len() as int;
    assert forall|i: int, j: int| 0 <= i <= j < b.cu@.len() implies b.cu@[i] <= b.cu@[j] by {
        prefixes_grow(items, at, i, j);
        prefixes_grow(items, at, j, n);
    }
    assert forall|i: int, j: int| 0 <= i <= j < b.mcu@.len() implies b.mcu@[i] <= b.mcu@[j] by {
        prefixes_grow(items, at, i, j);
        prefixes_grow(items, at, j, n);
    }
    assert forall|s: int, k: int| #![trigger b.mcu@[s], b.markers@[k]]
        0 <= s < b.count() && b.mcu@[s] <= k < b.mcu@[s + 1] implies b.cu@[s] + b.markers@[k]
        < b.cu@[s + 1] by {
        prefixes_grow(items, at, s, n);
        prefixes_grow(items, at, s + 1, n);
        let it = items[at[s] as int];
        assert(it.wf());
        let j = k - all_markers(items, at, s).len();
        marker_in(items, at, n, s, j);
        assert(b.markers@[k] == it.markers@[j]);
        assert(it.markers@[j] < it.ids@.len());
    }
}

/// Marker `j` of item `s` of a batch stands behind the markers of the items before it.
proof fn marker_in(items: Seq<Item>, at: Seq<usize>, n: int, s: int, j: int)
    requires
        0 <= s < n,
        0 <= j < items[at[s] as int].markers@.len(),
    ensures
        all_markers(items, at, n)[all_markers(items, at, s).len() + j] == items[at[s] as int].markers@[j],
        all_markers(items, at, s).len() + j < all_markers(items, at, n).len(),
    decreases n,
{
    if s < n - 1 {
        marker_in(items, at, n - 1, s, j);
    }
}

/// A row's ids in a batch are its own, whatever else is in the batch: the model sees the same row
/// alone as with others.
pub proof fn a_row_is_the_same_in_any_batch(b: &Batch, items: Seq<Item>, at: Seq<usize>, s: int)
    requires
        packed(b, items, at),
        0 <= s < at.len(),
        all_ids(items, at, at.len() as int).len() <= u32::MAX,
        all_markers(items, at, at.len() as int).len() <= u32::MAX,
    ensures
        b.ids@.subrange(b.cu@[s] as int, b.cu@[s + 1] as int) == items[at[s] as int].ids@,
        b.markers@.subrange(b.mcu@[s] as int, b.mcu@[s + 1] as int)
            == items[at[s] as int].markers@,
        b.qtype@[s] == items[at[s] as int].qtype.number(),
{
    let n = at.len() as int;
    prefixes_grow(items, at, s, n);
    prefixes_grow(items, at, s + 1, n);
    row_in(items, at, n, s);
}

/// The rows and markers of an item in a batch.
proof fn row_in(items: Seq<Item>, at: Seq<usize>, n: int, s: int)
    requires
        0 <= s < n,
    ensures
        ({
            let it = items[at[s] as int];
            let a = all_ids(items, at, s).len() as int;
            let m = all_markers(items, at, s).len() as int;
            &&& a + it.ids@.len() == all_ids(items, at, s + 1).len()
            &&& m + it.markers@.len() == all_markers(items, at, s + 1).len()
            &&& a + it.ids@.len() <= all_ids(items, at, n).len()
            &&& m + it.markers@.len() <= all_markers(items, at, n).len()
            &&& all_ids(items, at, n).subrange(a, a + it.ids@.len()) == it.ids@
            &&& all_markers(items, at, n).subrange(m, m + it.markers@.len()) == it.markers@
        }),
    decreases n,
{
    let it = items[at[s] as int];
    let a = all_ids(items, at, s).len() as int;
    let m = all_markers(items, at, s).len() as int;
    if s < n - 1 {
        row_in(items, at, n - 1, s);
        let before = all_ids(items, at, n - 1);
        let marks = all_markers(items, at, n - 1);
        assert(all_ids(items, at, n).subrange(a, a + it.ids@.len()) =~= before.subrange(
            a,
            a + it.ids@.len(),
        ));
        assert(all_markers(items, at, n).subrange(m, m + it.markers@.len()) =~= marks.subrange(
            m,
            m + it.markers@.len(),
        ));
    } else {
        assert(all_ids(items, at, n).subrange(a, a + it.ids@.len()) =~= it.ids@);
        assert(all_markers(items, at, n).subrange(m, m + it.markers@.len()) =~= it.markers@);
    }
}

/// Hands the outputs of a batch to its items: to each the logits at its markers, and its act
/// logits.
pub fn unpack(b: &Batch, logits: &Vec<u32>, act: &Vec<[u32; 2]>) -> (r: Vec<Entry>)
    requires
        b.wf(),
        logits@.len() == b.markers@.len(),
        act@.len() == b.count(),
    ensures
        r@.len() == b.count(),
        forall|s: int| #![trigger r@[s]]
            0 <= s < r@.len() ==> r@[s]@ == (EntryView {
                logits: logits@.subrange(b.mcu@[s] as int, b.mcu@[s + 1] as int),
                act: act@[s]@,
            }),
{
    let n: usize = b.seqs();
    let mut r: Vec<Entry> = Vec::new();
    let mut s: usize = 0;
    while s < n
        invariant
            s <= n == b.count(),
            b.wf(),
            logits@.len() == b.markers@.len(),
            act@.len() == b.count(),
            r@.len() == s,
            forall|s: int| #![trigger r@[s]]
                0 <= s < r@.len() ==> r@[s]@ == (EntryView {
                    logits: logits@.subrange(b.mcu@[s] as int, b.mcu@[s + 1] as int),
                    act: act@[s]@,
                }),
        decreases n - s,
    {
        let lo: usize = b.mcu[s] as usize;
        let hi: usize = b.mcu[s + 1] as usize;
        assert(b.mcu@[s as int] <= b.mcu@[s + 1] <= b.mcu@[n as int]);
        let mut own: Vec<u32> = Vec::new();
        let mut k: usize = lo;
        while k < hi
            invariant
                lo <= k <= hi <= logits@.len(),
                own@ == logits@.subrange(lo as int, k as int),
            decreases hi - k,
        {
            own.push(logits[k]);
            k += 1;
            assert(own@ =~= logits@.subrange(lo as int, k as int));
        }
        let a: [u32; 2] = [act[s][0], act[s][1]];
        assert(a@ =~= act@[s as int]@);
        r.push(Entry { logits: own, act: a });
        s += 1;
    }
    r
}

/// State tokens of the first `n` items that were cut.
pub open spec fn cut_total(items: Seq<Item>, n: int) -> int
    decreases n,
{
    if n <= 0 {
        0
    } else {
        cut_total(items, n - 1) + (items[n - 1].state_tokens - items[n - 1].state_tokens_used)
    }
}

/// How many of the first `n` items had their state cut.
pub open spec fn cut_count(items: Seq<Item>, n: int) -> int
    decreases n,
{
    if n <= 0 {
        0
    } else {
        cut_count(items, n - 1) + (if items[n - 1].state_tokens > items[n - 1].state_tokens_used {
            1int
        } else {
            0
        })
    }
}

/// Sums of more items are no smaller.
proof fn cuts_grow(items: Seq<Item>, m: int, n: int)
    requires
        0 <= m <= n <= items.len(),
        forall|i: int| 0 <= i < items.len() ==> (#[trigger] items[i]).wf(),
    ensures
        0 <= cut_total(items, m) <= cut_total(items, n),
    decreases n,
{
    if m < n {
        assert(items[n - 1].wf());
        cuts_grow(items, m, n - 1);
    } else if m > 0 {
        assert(items[m - 1].wf());
        cuts_grow(items, m - 1, n - 1);
    }
}

/// Where the time went and what was cut.
pub fn timing(
    items: &Vec<Item>,
    tokenize: u64,
    device: u64,
    batches: usize,
    cached: usize,
) -> (r: Timing)
    requires
        forall|i: int| 0 <= i < items@.len() ==> (#[trigger] items@[i]).wf(),
        cut_total(items@, items@.len() as int) <= usize::MAX,
    ensures
        r == (Timing {
            tokenize,
            device,
            batches,
            truncated: cut_count(items@, items@.len() as int) as usize,
            cut_tokens: cut_total(items@, items@.len() as int) as usize,
            cached,
        }),
        r.truncated == cut_count(items@, items@.len() as int),
{
    let mut truncated: usize = 0;
    let mut cut_tokens: usize = 0;
    let mut i: usize = 0;
    while i < items.len()
        invariant
            i <= items@.len(),
            forall|i: int| 0 <= i < items@.len() ==> (#[trigger] items@[i]).wf(),
            cut_total(items@, items@.len() as int) <= usize::MAX,
            truncated <= i,
            truncated == cut_count(items@, i as int),
            cut_tokens == cut_total(items@, i as int),
        decreases items@.len() - i,
    {
        proof {
            assert(items@[i as int].wf());
            cuts_grow(items@, i + 1, items@.len() as int);
        }
        let n: usize = items[i].state_tokens - items[i].state_tokens_used;
        if n > 0 {
            truncated = truncated + 1;
        }
        cut_tokens = cut_tokens + n;
        i += 1;
    }
    Timing { tokenize, device, batches, truncated, cut_tokens, cached }
}

/// One answer and the request it is for.
#[derive(Debug)]
pub struct Answered {
    /// The request.
    pub req: usize,
    /// The question's id.
    pub id: String,
    /// The answer.
    pub answer: Answer,
    /// The tokens of its row.
    pub tokens: usize,
}

/// The answers among the first `n` that are for request `r`, in order.
pub open spec fn answers_for(v: Seq<Answered>, r: int, n: int) -> Seq<(Seq<char>, AnswerView)>
    decreases n,
{
    if n <= 0 {
        seq![]
    } else if v[n - 1].req == r {
        answers_for(v, r, n - 1).push((v[n - 1].id@, v[n - 1].answer@))
    } else {
        answers_for(v, r, n - 1)
    }
}

/// The tokens among the first `n` that are for request `r`.
pub open spec fn tokens_for(v: Seq<Answered>, r: int, n: int) -> int
    decreases n,
{
    if n <= 0 {
        0
    } else if v[n - 1].req == r {
        tokens_for(v, r, n - 1) + v[n - 1].tokens
    } else {
        tokens_for(v, r, n - 1)
    }
}

/// The tokens of the first `n` answers.
pub open spec fn tokens_of(v: Seq<Answered>, n: int) -> int
    decreases n,
{
    if n <= 0 {
        0
    } else {
        tokens_of(v, n - 1) + v[n - 1].tokens
    }
}

/// The tokens of one request are among the tokens of all.
proof fn tokens_within(v: Seq<Answered>, r: int, m: int, n: int)
    requires
        0 <= m <= n <= v.len(),
    ensures
        0 <= tokens_for(v, r, m) <= tokens_of(v, m) <= tokens_of(v, n),
    decreases n,
{
    if n > 0 {
        if m == n {
            tokens_within(v, r, m - 1, n - 1);
        } else {
            tokens_within(v, r, m, n - 1);
        }
    }
}

/// Gathers answers into one response per request: each has its own answers in the order they came,
/// and the tokens of its rows.
pub fn gather(reqs: usize, list: Vec<Answered>) -> (r: Vec<Response>)
    requires
        forall|i: int| 0 <= i < list@.len() ==> (#[trigger] list@[i]).req < reqs,
        tokens_of(list@, list@.len() as int) <= usize::MAX,
    ensures
        r@.len() == reqs,
        forall|k: int| #![trigger r@[k]]
            0 <= k < reqs ==> r@[k].model@ == LAYA_MODEL@ && answers_view(r@[k].answers@)
                == answers_for(list@, k, list@.len() as int) && r@[k].input_tokens == tokens_for(
                list@,
                k,
                list@.len() as int,
            ),
{
    let mut out: Vec<Response> = Vec::new();
    let mut k: usize = 0;
    while k < reqs
        invariant
            k <= reqs,
            out@.len() == k,
            forall|j: int| #![trigger out@[j]]
                0 <= j < k ==> out@[j].model@ == LAYA_MODEL@ && answers_view(out@[j].answers@)
                    == answers_for(list@, j, 0) && out@[j].input_tokens == 0,
        decreases reqs - k,
    {
        let fresh = Response { model: LAYA_MODEL.to_owned(), answers: Vec::new(), input_tokens: 0 };
        assert(answers_view(fresh.answers@) =~= answers_for(list@, k as int, 0));
        out.push(fresh);
        k += 1;
    }
    let ghost all = list@;
    let mut rest: Vec<Answered> = Vec::new();
    let mut from = list;
    while from.len() > 0
        invariant
            from@.len() + rest@.len() == all.len(),
            from@ == all.take(from@.len() as int),
            forall|i: int| #![trigger rest@[i]]
                0 <= i < rest@.len() ==> rest@[i] == all[all.len() - 1 - i],
        decreases from@.len(),
    {
        let ghost before = from@;
        if let Some(a) = from.pop() {
            assert(a == all[before.len() - 1]);
            rest.push(a);
            assert(from@ =~= all.take(from@.len() as int));
        }
    }
    let ghost mut i: int = 0;
    while rest.len() > 0
        invariant
            0 <= i <= all.len(),
            i + rest@.len() == all.len(),
            out@.len() == reqs,
            forall|i: int| 0 <= i < all.len() ==> (#[trigger] all[i]).req < reqs,
            tokens_of(all, all.len() as int) <= usize::MAX,
            forall|j: int| #![trigger rest@[j]]
                0 <= j < rest@.len() ==> rest@[j] == all[all.len() - 1 - j],
            forall|k: int| #![trigger out@[k]]
                0 <= k < reqs ==> out@[k].model@ == LAYA_MODEL@ && answers_view(out@[k].answers@)
                    == answers_for(all, k, i) && out@[k].input_tokens == tokens_for(all, k, i),
        decreases rest@.len(),
    {
        let ghost before = out@;
        if let Some(a) = rest.pop() {
            assert(a == all[i]);
            let Answered { req, id, answer, tokens } = a;
            proof {
                tokens_within(all, req as int, i + 1, all.len() as int);
                tokens_within(all, req as int, i, all.len() as int);
            }
            let ghost (iv, av) = (id@, answer@);
            let res = &mut out[req];
            res.input_tokens = res.input_tokens + tokens;
            res.answers.push((id, answer));
            proof {
                assert(answers_view(out@[req as int].answers@) =~= answers_view(
                    before[req as int].answers@,
                ).push((iv, av)));
                i = i + 1;
                assert forall|k: int| #![trigger out@[k]] 0 <= k < reqs implies out@[k].model@
                    == LAYA_MODEL@ && answers_view(out@[k].answers@) == answers_for(all, k, i)
                    && out@[k].input_tokens == tokens_for(all, k, i) by {
                    assert(before[k].model@ == LAYA_MODEL@);
                    if k != req {
                        assert(out@[k] == before[k]);
                    }
                }
            }
        }
    }
    out
}

/// Settings for an engine.
#[derive(Debug, Clone)]
pub struct Builder {
    /// The model, when one is named.
    pub model: Option<String>,
    /// Where to run.
    pub device: Device,
    /// The number format.
    pub precision: Precision,
    /// Whether the plans for the smallest batches are built at once.
    pub preload: bool,
    /// Answers the cache keeps, 0 for none.
    pub answer_cache: usize,
}

impl Builder {
    /// The settings before any is given.
    pub fn new() -> (r: Self)
        ensures
            r.model is None,
            r.device == Device::Auto,
            r.precision == Precision::F16,
            !r.preload,
            r.answer_cache == 0,
    {
        Builder {
            model: None,
            device: Device::Auto,
            precision: Precision::F16,
            preload: false,
            answer_cache: 0,
        }
    }

    /// The model: an alias, a checkpoint directory, a `.kime` file or an `hf://` reference.
    pub fn model(self, name: String) -> (r: Self)
        ensures
            r == (Builder { model: Some(name), ..self }),
    {
        Builder { model: Some(name), ..self }
    }

    /// Where to run.
    pub fn device(self, d: Device) -> (r: Self)
        ensures
            r == (Builder { device: d, ..self }),
    {
        Builder { device: d, ..self }
    }

    /// The number format.
    pub fn precision(self, p: Precision) -> (r: Self)
        ensures
            r == (Builder { precision: p, ..self }),
    {
        Builder { precision: p, ..self }
    }

    /// Builds the plans for the smallest batch shapes at once.
    pub fn preload(self, yes: bool) -> (r: Self)
        ensures
            r == (Builder { preload: yes, ..self }),
    {
        Builder { preload: yes, ..self }
    }

    /// The answers the cache keeps, 0 for none.
    pub fn answer_cache(self, entries: usize) -> (r: Self)
        ensures
            r == (Builder { answer_cache: entries, ..self }),
    {
        Builder { answer_cache: entries, ..self }
    }

    /// The model to open: `laya` when none is named.
    pub fn name(&self) -> (r: String)
        ensures
            r@ == (match self.model {
                Some(m) => m@,
                None => "laya"@,
            }),
    {
        match &self.model {
            Some(m) => m.as_str().to_owned(),
            None => "laya".to_owned(),
        }
    }
}

/// The tokens of one question before anything is cut.
#[derive(Debug)]
pub struct QuestionTokens {
    /// Those of its head.
    pub head: usize,
    /// Those of each option.
    pub options: Vec<usize>,
}

/// The sum of the first `n` sizes.
pub open spec fn summed(v: Seq<usize>, n: int) -> int
    decreases n,
{
    if n <= 0 {
        0
    } else {
        summed(v, n - 1) + v[n - 1]
    }
}

/// The tokens of the first `n` questions.
pub open spec fn question_tokens(q: Seq<QuestionTokens>, n: int) -> int
    decreases n,
{
    if n <= 0 {
        0
    } else {
        let x = q[n - 1];
        question_tokens(q, n - 1) + x.head + summed(x.options@, x.options@.len() as int)
    }
}

/// More sizes sum to no less.
proof fn summed_grows(v: Seq<usize>, m: int, n: int)
    requires
        0 <= m <= n,
    ensures
        0 <= summed(v, m) <= summed(v, n),
    decreases n,
{
    if m < n {
        summed_grows(v, m, n - 1);
    } else if m > 0 {
        summed_grows(v, m - 1, n - 1);
    }
}

/// More questions have no fewer tokens.
proof fn question_tokens_grow(q: Seq<QuestionTokens>, m: int, n: int)
    requires
        0 <= m <= n,
    ensures
        0 <= question_tokens(q, m) <= question_tokens(q, n),
    decreases n,
{
    if n > 0 {
        let x = q[n - 1];
        summed_grows(x.options@, 0, x.options@.len() as int);
        if m < n {
            question_tokens_grow(q, m, n - 1);
        } else {
            question_tokens_grow(q, m - 1, n - 1);
        }
    }
}

/// The tokens a request holds before anything is cut: its state once plus every question with its
/// options.
pub fn count_tokens(state: usize, questions: &Vec<QuestionTokens>) -> (r: usize)
    requires
        state + question_tokens(questions@, questions@.len() as int) <= usize::MAX,
    ensures
        r == state + question_tokens(questions@, questions@.len() as int),
{
    let mut r: usize = state;
    let mut i: usize = 0;
    while i < questions.len()
        invariant
            i <= questions@.len(),
            state + question_tokens(questions@, questions@.len() as int) <= usize::MAX,
            r == state + question_tokens(questions@, i as int),
        decreases questions@.len() - i,
    {
        proof {
            question_tokens_grow(questions@, i + 1, questions@.len() as int);
            question_tokens_grow(questions@, 0, i as int);
        }
        let q = &questions[i];
        let ghost whole = summed(q.options@, q.options@.len() as int);
        let mut k: usize = 0;
        let mut n: usize = 0;
        while k < q.options.len()
            invariant
                k <= q.options@.len(),
                whole == summed(q.options@, q.options@.len() as int),
                whole <= usize::MAX,
                n == summed(q.options@, k as int),
            decreases q.options@.len() - k,
        {
            proof {
                summed_grows(q.options@, k + 1, q.options@.len() as int);
                summed_grows(q.options@, 0, k as int);
            }
            n = n + q.options[k];
            k += 1;
        }
        r = r + q.head + n;
        i += 1;
    }
    r
}

/// The buckets to prepare before the first request: the smallest four, when asked for.
pub fn to_prepare(buckets: &Vec<Bucket>, preload: bool) -> (r: Vec<Bucket>)
    ensures
        r@ == if !preload {
            Seq::<Bucket>::empty()
        } else if buckets@.len() < 4 {
            buckets@
        } else {
            buckets@.take(4)
        },
{
    let mut r: Vec<Bucket> = Vec::new();
    if !preload {
        return r;
    }
    let n: usize = if buckets.len() < 4 {
        buckets.len()
    } else {
        4
    };
    let mut i: usize = 0;
    while i < n
        invariant
            i <= n <= buckets@.len(),
            r@ == buckets@.take(i as int),
        decreases n - i,
    {
        r.push(buckets[i]);
        i += 1;
        assert(r@ =~= buckets@.take(i as int));
    }
    assert(buckets@.len() < 4 ==> buckets@.take(n as int) =~= buckets@);
    r
}

/// An answer stays where it is as others follow.
proof fn answers_stay(v: Seq<Answered>, r: int, m: int, n: int)
    requires
        0 <= m <= n <= v.len(),
    ensures
        answers_for(v, r, m).is_prefix_of(answers_for(v, r, n)),
    decreases n,
{
    if m < n {
        answers_stay(v, r, m, n - 1);
    }
}

/// Every answer reaches its own request, behind those of that request that came before it, and no
/// request gets an answer that is not its own.
pub proof fn every_answer_reaches_its_request(v: Seq<Answered>, i: int, r: int, k: int)
    requires
        0 <= i < v.len(),
    ensures
        ({
            let own = answers_for(v, v[i].req as int, v.len() as int);
            let before = answers_for(v, v[i].req as int, i).len() as int;
            before < own.len() && own[before] == (v[i].id@, v[i].answer@)
        }),
        0 <= k < answers_for(v, r, v.len() as int).len() ==> exists|j: int|
            0 <= j < v.len() && (#[trigger] v[j]).req == r && answers_for(v, r, v.len() as int)[k]
                == (v[j].id@, v[j].answer@),
{
    let own = answers_for(v, v[i].req as int, v.len() as int);
    let part = answers_for(v, v[i].req as int, i + 1);
    answers_stay(v, v[i].req as int, i + 1, v.len() as int);
    assert(own.subrange(0, part.len() as int)[part.len() - 1] == own[part.len() - 1]);
    if 0 <= k < answers_for(v, r, v.len() as int).len() {
        answer_has_source(v, r, v.len() as int, k);
    }
}

/// Every answer of a request came for it.
proof fn answer_has_source(v: Seq<Answered>, r: int, n: int, k: int)
    requires
        0 <= n <= v.len(),
        0 <= k < answers_for(v, r, n).len(),
    ensures
        exists|j: int|
            0 <= j < n && (#[trigger] v[j]).req == r && answers_for(v, r, n)[k] == (
                v[j].id@,
                v[j].answer@,
            ),
    decreases n,
{
    if n > 0 {
        if k < answers_for(v, r, n - 1).len() {
            answer_has_source(v, r, n - 1, k);
            let j = choose|j: int|
                0 <= j < n - 1 && (#[trigger] v[j]).req == r && answers_for(v, r, n - 1)[k] == (
                    v[j].id@,
                    v[j].answer@,
                );
            assert(v[j].req == r);
        } else {
            assert(v[n - 1].req == r);
        }
    }
}

/// The tokens of the first `reqs` requests.
pub open spec fn tokens_of_requests(v: Seq<Answered>, reqs: int, n: int) -> int
    decreases reqs,
{
    if reqs <= 0 {
        0
    } else {
        tokens_of_requests(v, reqs - 1, n) + tokens_for(v, reqs - 1, n)
    }
}

/// Every row's tokens are counted for one request and once: the requests' tokens are those of all
/// rows.
pub proof fn every_token_is_counted_once(v: Seq<Answered>, reqs: int, n: int)
    requires
        0 <= n <= v.len(),
        forall|i: int| 0 <= i < v.len() ==> (#[trigger] v[i]).req < reqs,
    ensures
        tokens_of_requests(v, reqs, n) == tokens_of(v, n),
    decreases n,
{
    if n > 0 {
        every_token_is_counted_once(v, reqs, n - 1);
        one_more_row(v, reqs, n);
        assert(v[n - 1].req < reqs);
    } else {
        no_rows(v, reqs);
    }
}

/// A row adds its tokens to one request.
proof fn one_more_row(v: Seq<Answered>, reqs: int, n: int)
    requires
        0 < n <= v.len(),
    ensures
        tokens_of_requests(v, reqs, n) == tokens_of_requests(v, reqs, n - 1) + (if v[n - 1].req
            < reqs {
            v[n - 1].tokens as int
        } else {
            0
        }),
    decreases reqs,
{
    if reqs > 0 {
        one_more_row(v, reqs - 1, n);
    }
}

/// No rows have no tokens.
proof fn no_rows(v: Seq<Answered>, reqs: int)
    ensures
        tokens_of_requests(v, reqs, 0) == 0,
    decreases reqs,
{
    if reqs > 0 {
        no_rows(v, reqs - 1);
    }
}

/// A call says that something was cut when some question's state was: the questions that it counts
/// are those, and it counts at least one token left out for each.
pub proof fn what_was_cut_is_said(items: Seq<Item>, n: int)
    requires
        0 <= n <= items.len(),
        forall|i: int| 0 <= i < items.len() ==> (#[trigger] items[i]).wf(),
    ensures
        0 <= cut_count(items, n) <= cut_total(items, n),
        cut_count(items, n) <= n,
        cut_total(items, n) == 0 <==> cut_count(items, n) == 0,
        cut_count(items, n) == 0 <==> forall|i: int|
            0 <= i < n ==> (#[trigger] items[i]).state_tokens_used == items[i].state_tokens,
        cut_count(items, n) == n <==> forall|i: int|
            0 <= i < n ==> (#[trigger] items[i]).state_tokens_used < items[i].state_tokens,
    decreases n,
{
    if n > 0 {
        what_was_cut_is_said(items, n - 1);
        assert(items[n - 1].wf());
    }
}

} // verus!
