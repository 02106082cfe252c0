//! A batch of questions, packed end to end.

use vstd::prelude::*;

verus! {

/// A batch: the token ids of every sequence one after the other, where each sequence starts, the
/// marker positions in the same way, and each sequence's question type.
#[derive(Debug)]
pub struct Batch {
    /// Token ids.
    pub ids: Vec<u32>,
    /// Where each sequence starts, and the end.
    pub cu: Vec<u32>,
    /// Marker positions, counted from the start of their sequence.
    pub markers: Vec<u32>,
    /// Where each sequence's markers start, and the end.
    pub mcu: Vec<u32>,
    /// Question types.
    pub qtype: Vec<u8>,
}

/// Bounds that start at 0, never go down and end at `end`.
pub open spec fn bounds(cu: Seq<u32>, end: int) -> bool {
    &&& cu.len() > 0
    &&& cu[0] == 0
    &&& cu[cu.len() - 1] == end
    &&& forall|i: int, j: int| 0 <= i <= j < cu.len() ==> cu[i] <= cu[j]
}

impl Batch {
    /// How many sequences there are.
    pub open spec fn count(&self) -> int {
        self.qtype@.len() as int
    }

    /// The parts agree: the bounds cover the ids and the markers, and every marker is a position
    /// of its sequence.
    pub open spec fn wf(&self) -> bool {
        &&& bounds(self.cu@, self.ids@.len() as int)
        &&& bounds(self.mcu@, self.markers@.len() as int)
        &&& self.cu@.len() == self.count() + 1
        &&& self.mcu@.len() == self.count() + 1
        &&& forall|s: int, k: int| #![trigger self.mcu@[s], self.markers@[k]]
            0 <= s < self.count() && self.mcu@[s] <= k < self.mcu@[s + 1] ==> self.cu@[s]
                + self.markers@[k] < self.cu@[s + 1]
    }

    /// How many sequences there are.
    pub fn seqs(&self) -> (n: usize)
        ensures
            n == self.count(),
    {
        self.qtype.len()
    }
}

/// The sequence of a row: the `q` with `cu[q] <= r < cu[q + 1]`.
pub open spec fn seq_of(cu: Seq<u32>, q: int, r: int) -> bool {
    0 <= q < cu.len() - 1 && cu[q] <= r < cu[q + 1]
}

/// A row is in one sequence only.
pub proof fn one_sequence(cu: Seq<u32>, end: int, r: int, p: int, q: int)
    requires
        bounds(cu, end),
        seq_of(cu, p, r),
        seq_of(cu, q, r),
    ensures
        p == q,
{
    if p < q {
        assert(cu[p + 1] <= cu[q]);
    }
    if q < p {
        assert(cu[q + 1] <= cu[p]);
    }
}

/// The outputs of a batch, read out of a buffer: `m` logits from `logits` on, and two values from
/// `act` on for each of `n` sequences.
pub fn outputs(values: &Vec<u32>, logits: usize, m: usize, act: usize, n: usize) -> (r: (
    Vec<u32>,
    Vec<[u32; 2]>,
))
    requires
        logits + m <= values@.len(),
        act + 2 * n <= values@.len(),
    ensures
        r.0@ == values@.subrange(logits as int, logits + m),
        r.1@ == Seq::new(n as nat, |i: int| [values@[act + 2 * i], values@[act + 2 * i + 1]]),
{
    let size: usize = values.len();
    let mut l: Vec<u32> = Vec::new();
    let mut i: usize = 0;
    while i < m
        invariant
            i <= m,
            logits + m <= values@.len() == size,
            l@ == values@.subrange(logits as int, logits + i),
        decreases m - i,
    {
        l.push(values[logits + i]);
        i += 1;
        assert(l@ =~= values@.subrange(logits as int, logits + i));
    }
    let mut a: Vec<[u32; 2]> = Vec::new();
    let mut k: usize = 0;
    while k < n
        invariant
            k <= n,
            act + 2 * n <= values@.len() == size,
            a@ == Seq::new(k as nat, |i: int| [values@[act + 2 * i], values@[act + 2 * i + 1]]),
        decreases n - k,
    {
        a.push([values[act + 2 * k], values[act + 2 * k + 1]]);
        k += 1;
        assert(a@ =~= Seq::new(
            k as nat,
            |i: int| [values@[act + 2 * i], values@[act + 2 * i + 1]],
        ));
    }
    (l, a)
}

} // verus!
