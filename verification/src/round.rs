//! Rounding a distribution so that the results sum to exactly one.
//!
//! Rounding each probability on its own can leave the rounded values summing to 0.99 or 1.01. So
//! the values are rounded as a whole with the largest remainder method: floor every scaled value,
//! then hand the units that are left to the values that lost the most to the floor.

use crate::order::{ahead, descending, in_order};
use vstd::prelude::*;

verus! {

/// A scaled probability: its floor, and the bits of what the floor took and of the value itself,
/// both doubles that are not negative, so that their bits are in their order.
#[derive(Debug, Clone, Copy, PartialEq, Eq, Structural)]
pub struct Scaled {
    /// The floor.
    pub floor: u64,
    /// What the floor took.
    pub rest: u64,
    /// The value.
    pub value: u64,
}

/// Ten to a power.
pub open spec fn pow10(n: nat) -> nat
    decreases n,
{
    if n == 0 {
        1
    } else {
        10 * pow10((n - 1) as nat)
    }
}

/// The units of a whole at a precision of at most 6 digits.
pub fn scale(digits: u32) -> (r: u64)
    requires
        digits <= 6,
    ensures
        r == pow10(digits as nat),
{
    reveal_with_fuel(pow10, 8);
    let mut r: u64 = 1;
    let mut i: u32 = 0;
    while i < digits
        invariant
            i <= digits <= 6,
            r == pow10(i as nat),
            r <= 1000000,
            i == 0 ==> r <= 1,
            i <= 1 ==> r <= 10,
            i <= 2 ==> r <= 100,
            i <= 3 ==> r <= 1000,
            i <= 4 ==> r <= 10000,
            i <= 5 ==> r <= 100000,
        decreases digits - i,
    {
        r = r * 10;
        i += 1;
    }
    r
}

/// The sum of the first `n` floors.
pub open spec fn floors(p: Seq<Scaled>, n: int) -> int
    decreases n,
{
    if n <= 0 {
        0
    } else {
        floors(p, n - 1) + p[n - 1].floor
    }
}

/// The sum of the first `n` units.
pub open spec fn total(u: Seq<u64>, n: int) -> int
    decreases n,
{
    if n <= 0 {
        0
    } else {
        total(u, n - 1) + u[n - 1]
    }
}

/// The keys that units are handed out by: the largest rest first, then the largest value.
pub open spec fn keys(p: Seq<Scaled>) -> Seq<(u64, u64)> {
    Seq::new(p.len(), |i: int| (p[i].rest, p[i].value))
}

/// The units left after the floors.
pub open spec fn left_over(p: Seq<Scaled>, whole: int) -> int {
    if floors(p, p.len() as int) < whole {
        whole - floors(p, p.len() as int)
    } else {
        0
    }
}

/// The floors, and one unit more for those that come among the first `left` of the order.
pub open spec fn handed(p: Seq<Scaled>, order: Seq<usize>, left: int, i: int) -> int {
    if exists|k: int| 0 <= k < left && k < order.len() && #[trigger] order[k] == i {
        p[i].floor + 1
    } else {
        p[i].floor as int
    }
}

/// Rounds scaled probabilities to units of a whole: every floor, and one unit more for as many as
/// are left of the whole, to the largest rests first, then to the larger values, then to the
/// earlier ones.
pub fn largest_remainder(p: &Vec<Scaled>, digits: u32) -> (r: Vec<u64>)
    requires
        digits <= 6,
        p@.len() > 0,
        floors(p@, p@.len() as int) <= u64::MAX,
        forall|i: int| 0 <= i < p@.len() ==> (#[trigger] p@[i]).floor < u64::MAX,
    ensures
        r@.len() == p@.len(),
        exists|order: Seq<usize>| #[trigger]
            in_order(keys(p@), order) && forall|i: int|
                0 <= i < p@.len() ==> #[trigger] r@[i] == handed(
                    p@,
                    order,
                    left_over(p@, pow10(digits as nat) as int),
                    i,
                ),
{
    let whole: u64 = scale(digits);
    let mut units: Vec<u64> = Vec::new();
    let mut ks: Vec<(u64, u64)> = Vec::new();
    let mut used: u64 = 0;
    let mut i: usize = 0;
    while i < p.len()
        invariant
            i <= p@.len(),
            floors(p@, p@.len() as int) <= u64::MAX,
            used == floors(p@, i as int),
            units@ == Seq::new(i as nat, |k: int| p@[k].floor),
            ks@ == Seq::new(i as nat, |k: int| (p@[k].rest, p@[k].value)),
        decreases p@.len() - i,
    {
        proof {
            floors_grow(p@, i + 1, p@.len() as int);
            floors_grow(p@, 0, i as int);
        }
        used = used + p[i].floor;
        units.push(p[i].floor);
        ks.push((p[i].rest, p[i].value));
        i += 1;
        assert(units@ =~= Seq::new(i as nat, |k: int| p@[k].floor));
        assert(ks@ =~= Seq::new(i as nat, |k: int| (p@[k].rest, p@[k].value)));
    }
    assert(ks@ =~= keys(p@));
    let left: u64 = if used < whole {
        whole - used
    } else {
        0
    };
    let order = descending(&ks);
    let ghost o = order@;
    let mut k: usize = 0;
    while k < order.len() && (k as u64) < left
        invariant
            k <= order@.len(),
            k <= left,
            o == order@,
            in_order(keys(p@), o),
            units@.len() == p@.len(),
            forall|i: int| 0 <= i < p@.len() ==> (#[trigger] p@[i]).floor < u64::MAX,
            forall|i: int| 0 <= i < p@.len() ==> #[trigger] units@[i] == handed(p@, o, k as int, i),
        decreases order@.len() - k,
    {
        let at: usize = order[k];
        let ghost before = units@;
        assert(handed(p@, o, k as int, at as int) == p@[at as int].floor);
        units.set(at, units[at] + 1);
        proof {
            assert forall|i: int| 0 <= i < p@.len() implies #[trigger] units@[i] == handed(
                p@,
                o,
                k + 1,
                i,
            ) by {
                if i == at {
                    assert(o[k as int] == i);
                } else if exists|j: int| 0 <= j < k && j < o.len() && #[trigger] o[j] == i {
                    let j = choose|j: int| 0 <= j < k && j < o.len() && #[trigger] o[j] == i;
                    assert(0 <= j < k + 1 && o[j] == i);
                }
            }
        }
        k += 1;
    }
    proof {
        let want = left_over(p@, whole as int);
        assert forall|i: int| 0 <= i < p@.len() implies #[trigger] units@[i] == handed(
            p@,
            o,
            want,
            i,
        ) by {
            if exists|j: int| 0 <= j < want && j < o.len() && #[trigger] o[j] == i {
                let j = choose|j: int| 0 <= j < want && j < o.len() && #[trigger] o[j] == i;
                assert(0 <= j < k && o[j] == i);
            } else if exists|j: int| 0 <= j < k && j < o.len() && #[trigger] o[j] == i {
                let j = choose|j: int| 0 <= j < k && j < o.len() && #[trigger] o[j] == i;
                assert(0 <= j < want && o[j] == i);
            }
        }
    }
    units
}

/// Sums of more floors are no smaller.
proof fn floors_grow(p: Seq<Scaled>, m: int, n: int)
    requires
        0 <= m <= n <= p.len(),
    ensures
        0 <= floors(p, m) <= floors(p, n),
    decreases n,
{
    if m < n {
        floors_grow(p, m, n - 1);
    } else if m > 0 {
        floors_grow(p, m - 1, n - 1);
    }
}

/// How many of the first `n` values are among the first `left` of the order.
spec fn lucky(order: Seq<usize>, left: int, n: int) -> int
    decreases n,
{
    if n <= 0 {
        0
    } else {
        lucky(order, left, n - 1) + (if exists|k: int|
            0 <= k < left && k < order.len() && #[trigger] order[k] == n - 1 {
            1int
        } else {
            0
        })
    }
}

/// One more unit in the order is one more lucky value.
proof fn one_more_lucky(order: Seq<usize>, left: int, n: int)
    requires
        order.no_duplicates(),
        0 <= left < order.len(),
        0 <= n,
    ensures
        lucky(order, left + 1, n) == lucky(order, left, n) + (if order[left] < n {
            1int
        } else {
            0
        }),
    decreases n,
{
    if n > 0 {
        one_more_lucky(order, left, n - 1);
        let now = exists|k: int|
            0 <= k < left + 1 && k < order.len() && #[trigger] order[k] == n - 1;
        let was = exists|k: int| 0 <= k < left && k < order.len() && #[trigger] order[k] == n - 1;
        if now {
            let k = choose|k: int|
                0 <= k < left + 1 && k < order.len() && #[trigger] order[k] == n - 1;
            if k < left {
                assert(was);
            }
        }
        if order[left] == n - 1 {
            assert(now);
            assert(!was);
        } else if was {
            let k = choose|k: int| 0 <= k < left && k < order.len() && #[trigger] order[k] == n - 1;
            assert(0 <= k < left + 1);
        }
    }
}

/// As many values are lucky as units are handed out.
proof fn lucky_count(order: Seq<usize>, left: int)
    requires
        order.no_duplicates(),
        0 <= left <= order.len(),
        forall|i: int| 0 <= i < order.len() ==> #[trigger] order[i] < order.len(),
    ensures
        lucky(order, left, order.len() as int) == left,
    decreases left,
{
    if left == 0 {
        none_lucky(order, order.len() as int);
    } else {
        lucky_count(order, left - 1);
        one_more_lucky(order, left - 1, order.len() as int);
    }
}

/// Without units nothing is lucky.
proof fn none_lucky(order: Seq<usize>, n: int)
    ensures
        lucky(order, 0, n) == 0,
    decreases n,
{
    if n > 0 {
        none_lucky(order, n - 1);
    }
}

/// Units are floors and luck.
proof fn total_splits(p: Seq<Scaled>, u: Seq<u64>, order: Seq<usize>, left: int, n: int)
    requires
        0 <= n <= p.len(),
        u.len() == p.len(),
        forall|i: int| 0 <= i < p.len() ==> #[trigger] u[i] == handed(p, order, left, i),
    ensures
        total(u, n) == floors(p, n) + lucky(order, left, n),
    decreases n,
{
    if n > 0 {
        total_splits(p, u, order, left, n - 1);
        assert(u[n - 1] == handed(p, order, left, n - 1));
    }
}

/// The rounded values sum to exactly the whole, whenever the floors leave at most one unit for each
/// value, as the floors of a distribution do.
pub proof fn units_sum_to_the_whole(p: Seq<Scaled>, u: Seq<u64>, order: Seq<usize>, whole: int)
    requires
        in_order(keys(p), order),
        floors(p, p.len() as int) <= whole <= floors(p, p.len() as int) + p.len(),
        u.len() == p.len(),
        forall|i: int|
            0 <= i < p.len() ==> #[trigger] u[i] == handed(p, order, left_over(p, whole), i),
    ensures
        total(u, u.len() as int) == whole,
{
    let left = left_over(p, whole);
    total_splits(p, u, order, left, p.len() as int);
    assert(order.len() == p.len());
    lucky_count(order, left);
}

/// The parts of a scaled value belong together: a larger value has no smaller floor, and of two
/// values with the same floor the larger has the larger rest.
pub open spec fn consistent(p: Seq<Scaled>) -> bool {
    forall|i: int, j: int|
        0 <= i < p.len() && 0 <= j < p.len() && (#[trigger] p[i]).value >= (#[trigger] p[j]).value
            ==> p[i].floor >= p[j].floor && (p[i].floor == p[j].floor ==> p[i].rest >= p[j].rest)
}

/// The largest value keeps a largest share: no value rounds above the first largest one.
pub proof fn no_value_rounds_above_the_largest(
    p: Seq<Scaled>,
    u: Seq<u64>,
    order: Seq<usize>,
    left: int,
    m: int,
    j: int,
)
    requires
        in_order(keys(p), order),
        consistent(p),
        0 <= m < p.len(),
        0 <= j < p.len(),
        forall|i: int| 0 <= i < p.len() ==> (#[trigger] p[i]).value <= p[m].value,
        forall|i: int| 0 <= i < m ==> (#[trigger] p[i]).value < p[m].value,
        u.len() == p.len(),
        forall|i: int| 0 <= i < p.len() ==> #[trigger] u[i] == handed(p, order, left, i),
    ensures
        u[j] <= u[m],
{
    assert(p[m].value >= p[j].value);
    assert(u[j] == handed(p, order, left, j));
    assert(u[m] == handed(p, order, left, m));
    if p[m].floor == p[j].floor && j != m && (exists|k: int|
        0 <= k < left && k < order.len() && #[trigger] order[k] == j) {
        let k = choose|k: int| 0 <= k < left && k < order.len() && #[trigger] order[k] == j;
        every_index_is_in(order, m);
        let q = choose|q: int| 0 <= q < order.len() && #[trigger] order[q] == m;
        if q > k {
            let (a, b) = (keys(p)[order[k] as int], keys(p)[order[q] as int]);
            assert(ahead(a, b) || (a == b && order[k] < order[q]));
            assert(p[j].rest <= p[m].rest);
            if j < m {
                assert(p[j].value < p[m].value);
                assert(p[j].rest == p[m].rest ==> a.1 < b.1);
            }
        }
        assert(0 <= q < left && order[q] == m);
    }
}

/// The index of the first largest rounded value is that of the first largest value, unless an
/// earlier value rounds to the same units.
pub proof fn the_argmax_survives(
    p: Seq<Scaled>,
    u: Seq<u64>,
    order: Seq<usize>,
    left: int,
    m: int,
)
    requires
        in_order(keys(p), order),
        consistent(p),
        0 <= m < p.len(),
        forall|i: int| 0 <= i < p.len() ==> (#[trigger] p[i]).value <= p[m].value,
        forall|i: int| 0 <= i < m ==> (#[trigger] p[i]).value < p[m].value,
        u.len() == p.len(),
        forall|i: int| 0 <= i < p.len() ==> #[trigger] u[i] == handed(p, order, left, i),
        forall|i: int| 0 <= i < m ==> #[trigger] u[i] != u[m],
    ensures
        forall|i: int| 0 <= i < u.len() ==> #[trigger] u[i] <= u[m],
        forall|i: int| 0 <= i < m ==> #[trigger] u[i] < u[m],
{
    assert forall|i: int| 0 <= i < u.len() implies #[trigger] u[i] <= u[m] by {
        no_value_rounds_above_the_largest(p, u, order, left, m, i);
    }
}

/// An order of all the indices has every one of them.
proof fn every_index_is_in(order: Seq<usize>, m: int)
    requires
        order.no_duplicates(),
        forall|i: int| 0 <= i < order.len() ==> #[trigger] order[i] < order.len(),
        0 <= m < order.len(),
    ensures
        exists|q: int| 0 <= q < order.len() && #[trigger] order[q] == m,
{
    lucky_count(order, order.len() as int);
    if !(exists|q: int| 0 <= q < order.len() && #[trigger] order[q] == m) {
        lucky_below(order, order.len() as int, m);
    }
}

/// A value that is not in the order keeps the count of lucky values below the count of values.
proof fn lucky_below(order: Seq<usize>, n: int, m: int)
    requires
        0 <= m < n,
        !(exists|q: int| 0 <= q < order.len() && #[trigger] order[q] == m),
    ensures
        lucky(order, order.len() as int, n) < n,
    decreases n,
{
    if n - 1 > m {
        lucky_below(order, n - 1, m);
    } else {
        lucky_most(order, order.len() as int, n - 1);
        if exists|k: int| 0 <= k < order.len() && k < order.len() && #[trigger] order[k] == n - 1 {
            let k = choose|k: int|
                0 <= k < order.len() && k < order.len() && #[trigger] order[k] == n - 1;
            assert(order[k] == m);
        }
    }
}

/// At most every value is lucky.
proof fn lucky_most(order: Seq<usize>, left: int, n: int)
    requires
        0 <= n,
    ensures
        lucky(order, left, n) <= n,
    decreases n,
{
    if n > 0 {
        lucky_most(order, left, n - 1);
    }
}

} // verus!
