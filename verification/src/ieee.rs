//! The order of IEEE doubles, on their bits.

use vstd::prelude::*;

verus! {

/// Whether the bits are those of a NaN.
pub open spec fn is_nan(b: u64) -> bool {
    b % 0x8000_0000_0000_0000 > 0x7ff0_0000_0000_0000
}

/// Whether the bits are those of a finite number.
pub open spec fn is_finite(b: u64) -> bool {
    b % 0x8000_0000_0000_0000 < 0x7ff0_0000_0000_0000
}

/// A number that orders the bits of doubles as the doubles are ordered: the bits without the sign,
/// negative when the sign is set. Both zeros rank 0.
pub open spec fn rank(b: u64) -> int {
    if b < 0x8000_0000_0000_0000 {
        b as int
    } else {
        0x8000_0000_0000_0000 - b
    }
}

/// Whether one double is above another, which no NaN is.
pub open spec fn above(a: u64, b: u64) -> bool {
    !is_nan(a) && !is_nan(b) && rank(a) > rank(b)
}

/// Whether the bits are those of a finite number.
pub fn finite(b: u64) -> (r: bool)
    ensures
        r == is_finite(b),
{
    b % 0x8000_0000_0000_0000 < 0x7ff0_0000_0000_0000
}

/// Whether one double is above another.
pub fn greater(a: u64, b: u64) -> (r: bool)
    ensures
        r == above(a, b),
{
    let half: u64 = 0x8000_0000_0000_0000;
    if a % half > 0x7ff0_0000_0000_0000 || b % half > 0x7ff0_0000_0000_0000 {
        return false;
    }
    if a < half {
        if b < half {
            a > b
        } else {
            a > 0 || b > half
        }
    } else if b < half {
        false
    } else {
        a < b
    }
}

/// The largest of the first `n` values so far: the first that no later one is above.
pub open spec fn best_of(p: Seq<u64>, n: int) -> int
    decreases n,
{
    if n <= 1 {
        0
    } else {
        let b = best_of(p, n - 1);
        if above(p[n - 1], p[b]) {
            n - 1
        } else {
            b
        }
    }
}

/// The index of the largest value, the first one on a tie.
pub fn argmax(p: &Vec<u64>) -> (r: usize)
    ensures
        r == best_of(p@, p@.len() as int),
        p@.len() > 0 ==> r < p@.len(),
{
    let mut best: usize = 0;
    let mut i: usize = 0;
    while i < p.len()
        invariant
            i <= p@.len(),
            best == best_of(p@, i as int),
            p@.len() > 0 ==> best < p@.len(),
        decreases p@.len() - i,
    {
        if i > 0 && greater(p[i], p[best]) {
            best = i;
        }
        i += 1;
    }
    best
}

/// Among numbers, the argmax is a largest value and the first of them.
pub proof fn argmax_is_the_first_largest(p: Seq<u64>, n: int)
    requires
        0 < n <= p.len(),
        forall|i: int| 0 <= i < n ==> !is_nan(#[trigger] p[i]),
    ensures
        0 <= best_of(p, n) < n,
        forall|i: int| 0 <= i < n ==> rank(#[trigger] p[i]) <= rank(p[best_of(p, n)]),
        forall|i: int| 0 <= i < best_of(p, n) ==> rank(#[trigger] p[i]) < rank(p[best_of(p, n)]),
    decreases n,
{
    if n > 1 {
        argmax_is_the_first_largest(p, n - 1);
    }
}

} // verus!
