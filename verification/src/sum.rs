//! Sums in pairwise order, which is the order numpy adds contiguous values in.

use vstd::prelude::*;

verus! {

/// Whether `r` is a sum that `plus` gives for two values.
pub open spec fn adds<T, F: Fn(T, T) -> T>(plus: F, a: T, b: T, r: T) -> bool {
    call_ensures(plus, (a, b), r)
}

/// Whether `r` is the first `n` values added to `zero` from the left.
pub open spec fn left_sum<T, F: Fn(T, T) -> T>(plus: F, x: Seq<T>, zero: T, n: int, r: T) -> bool
    decreases n,
{
    if n <= 0 {
        r == zero
    } else {
        exists|m: T| #[trigger] adds(plus, m, x[n - 1], r) && left_sum(plus, x, zero, n - 1, m)
    }
}

/// Whether `r` is every eighth value from `j` on, the first `c` of them added from the left.
pub open spec fn lane_sum<T, F: Fn(T, T) -> T>(plus: F, x: Seq<T>, j: int, c: int, r: T) -> bool
    decreases c,
{
    if c <= 1 {
        r == x[j]
    } else {
        exists|m: T| #[trigger] adds(plus, m, x[8 * (c - 1) + j], r) && lane_sum(plus, x, j, c - 1, m)
    }
}

/// Whether `m` are the sums on the way from eight values to `r`, as a tree.
pub open spec fn tree<T, F: Fn(T, T) -> T>(plus: F, v: Seq<T>, m: Seq<T>, r: T) -> bool {
    &&& m.len() == 6
    &&& adds(plus, v[0], v[1], m[0])
    &&& adds(plus, v[2], v[3], m[1])
    &&& adds(plus, v[4], v[5], m[2])
    &&& adds(plus, v[6], v[7], m[3])
    &&& adds(plus, m[0], m[1], m[4])
    &&& adds(plus, m[2], m[3], m[5])
    &&& adds(plus, m[4], m[5], r)
}

/// Whether `v` are the sums of the eight lanes.
pub open spec fn lanes<T, F: Fn(T, T) -> T>(plus: F, x: Seq<T>, c: int, v: Seq<T>) -> bool {
    &&& v.len() == 8
    &&& forall|j: int| 0 <= j < 8 ==> lane_sum(plus, x, j, c, #[trigger] v[j])
}

/// Whether `r` is the sum of eight lanes of `c` values, added as a tree.
pub open spec fn lanes_sum<T, F: Fn(T, T) -> T>(plus: F, x: Seq<T>, c: int, r: T) -> bool {
    exists|v: Seq<T>, m: Seq<T>| #[trigger] lanes(plus, x, c, v) && #[trigger] tree(plus, v, m, r)
}

/// Where a long list is halved: the middle, down to a multiple of eight.
pub open spec fn half_of(n: int) -> int {
    n / 2 - (n / 2) % 8
}

/// Whether `r` is the pairwise sum: from the left below eight values, in eight lanes with the tail
/// behind them up to 128, and the sum of two halves above.
pub open spec fn pairwise_sum<T, F: Fn(T, T) -> T>(plus: F, x: Seq<T>, zero: T, r: T) -> bool
    decreases x.len(),
{
    let n = x.len() as int;
    if n < 8 {
        left_sum(plus, x, zero, n, r)
    } else if n <= 128 {
        exists|s: T| #[trigger]
            lanes_sum(plus, x, n / 8, s) && left_sum(plus, x.skip(n - n % 8), s, n % 8, r)
    } else {
        exists|a: T, b: T| #[trigger]
            adds(plus, a, b, r) && pairwise_sum(plus, x.take(half_of(n)), zero, a) && pairwise_sum(
                plus,
                x.skip(half_of(n)),
                zero,
                b,
            )
    }
}

/// The pairwise sum of some values, with `plus` as the addition. The order of the additions depends
/// on the number of values alone.
pub fn pairwise<T: Copy, F: Fn(T, T) -> T>(x: &[T], zero: T, plus: &F) -> (r: T)
    requires
        forall|a: T, b: T| #[trigger] call_requires(plus, (a, b)),
    ensures
        pairwise_sum(*plus, x@, zero, r),
    decreases x@.len(),
{
    let n: usize = x.len();
    if n < 8 {
        let r = from_left(x, 0, n, zero, plus);
        assert(x@.skip(0) =~= x@);
        return r;
    }
    if n <= 128 {
        let mut v: Vec<T> = Vec::new();
        let mut j: usize = 0;
        while j < 8
            invariant
                j <= 8 <= n == x@.len(),
                v@.len() == j,
                forall|k: int| 0 <= k < j ==> lane_sum(*plus, x@, k, 1, #[trigger] v@[k]),
            decreases 8 - j,
        {
            v.push(x[j]);
            j += 1;
        }
        let mut c: usize = 1;
        while c < n / 8
            invariant
                1 <= c <= n / 8,
                8 <= n <= 128,
                n == x@.len(),
                v@.len() == 8,
                forall|a: T, b: T| #[trigger] call_requires(plus, (a, b)),
                forall|k: int| 0 <= k < 8 ==> lane_sum(*plus, x@, k, c as int, #[trigger] v@[k]),
            decreases n / 8 - c,
        {
            let mut j: usize = 0;
            while j < 8
                invariant
                    j <= 8,
                    1 <= c < n / 8,
                    8 <= n <= 128,
                    n == x@.len(),
                    v@.len() == 8,
                    forall|a: T, b: T| #[trigger] call_requires(plus, (a, b)),
                    forall|k: int|
                        0 <= k < 8 ==> lane_sum(
                            *plus,
                            x@,
                            k,
                            if k < j {
                                c + 1
                            } else {
                                c as int
                            },
                            #[trigger] v@[k],
                        ),
                decreases 8 - j,
            {
                assert(8 * c + j < n);
                let before: T = v[j];
                let s: T = plus(before, x[8 * c + j]);
                assert(lane_sum(*plus, x@, j as int, c as int, before) && adds(
                    *plus,
                    before,
                    x@[8 * ((c + 1) - 1) + j],
                    s,
                ));
                assert(lane_sum(*plus, x@, j as int, c + 1, s));
                v.set(j, s);
                j += 1;
            }
            c += 1;
        }
        let m0: T = plus(v[0], v[1]);
        let m1: T = plus(v[2], v[3]);
        let m2: T = plus(v[4], v[5]);
        let m3: T = plus(v[6], v[7]);
        let m4: T = plus(m0, m1);
        let m5: T = plus(m2, m3);
        let s: T = plus(m4, m5);
        assert(lanes(*plus, x@, n as int / 8, v@) && tree(*plus, v@, seq![m0, m1, m2, m3, m4, m5], s));
        assert(lanes_sum(*plus, x@, n as int / 8, s));
        let body: usize = n - n % 8;
        return from_left(x, body, n, s, plus);
    }
    let half: usize = n / 2 - (n / 2) % 8;
    let (a, b) = x.split_at(half);
    assert(a@ =~= x@.take(half as int));
    assert(b@ =~= x@.skip(half as int));
    let s: T = pairwise(a, zero, plus);
    let t: T = pairwise(b, zero, plus);
    let r: T = plus(s, t);
    assert(adds(*plus, s, t, r));
    r
}

/// The values `from..to` added to `zero` from the left.
fn from_left<T: Copy, F: Fn(T, T) -> T>(x: &[T], from: usize, to: usize, zero: T, plus: &F) -> (r: T)
    requires
        from <= to <= x@.len(),
        forall|a: T, b: T| #[trigger] call_requires(plus, (a, b)),
    ensures
        left_sum(*plus, x@.skip(from as int), zero, to - from, r),
{
    let mut s: T = zero;
    let mut i: usize = from;
    while i < to
        invariant
            from <= i <= to <= x@.len(),
            forall|a: T, b: T| #[trigger] call_requires(plus, (a, b)),
            left_sum(*plus, x@.skip(from as int), zero, i - from, s),
        decreases to - i,
    {
        let before: T = s;
        s = plus(before, x[i]);
        assert(left_sum(*plus, x@.skip(from as int), zero, (i + 1 - from) - 1, before) && adds(
            *plus,
            before,
            x@.skip(from as int)[(i + 1 - from) - 1],
            s,
        ));
        i += 1;
    }
    s
}

} // verus!
