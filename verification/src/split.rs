//! How a set of questions is cut into device batches.
//!
//! A plan runs at its bucket's size, not the batch's, so a batch just over a bucket's size spends
//! half its work on padding. Splitting it into a full batch and a small one for the rest is
//! cheaper, as long as the second run's fixed cost is smaller than the padding it saves. The cost
//! of a run is taken as [`OVERHEAD`] plus its bucket's tokens.

use crate::cpu::attention::{ceil_div, div_ceil};
use crate::graph::Bucket;
use vstd::arithmetic::div_mod::*;
use vstd::prelude::*;

verus! {

/// The fixed cost of one run in tokens of work.
pub const OVERHEAD: usize = 160;

/// Tokens, sequences and markers of some items.
pub open spec fn sums(items: Seq<(usize, usize)>, at: Seq<usize>) -> (int, int, int)
    decreases at.len(),
{
    if at.len() == 0 {
        (0, 0, 0)
    } else {
        let (t, s, m) = sums(items, at.drop_last());
        let (it, im) = items[at.last() as int];
        (t + it, s + 1, m + im)
    }
}

/// The first bucket that holds some counts.
pub open spec fn first_holding(buckets: Seq<Bucket>, n: (int, int, int)) -> Option<Bucket>
    decreases buckets.len(),
{
    if buckets.len() == 0 {
        None
    } else if buckets[0].spec_holds(n.0, n.1, n.2) {
        Some(buckets[0])
    } else {
        first_holding(buckets.drop_first(), n)
    }
}

/// The last of the first `n` buckets that `t` tokens fill.
pub open spec fn last_filled(buckets: Seq<Bucket>, t: int, n: int) -> Option<Bucket>
    decreases n,
{
    if n <= 0 {
        None
    } else if buckets[n - 1].tokens <= t {
        Some(buckets[n - 1])
    } else {
        last_filled(buckets, t, n - 1)
    }
}

/// The bucket that `t` tokens are fitted into: the last one they fill, or the last one of all.
pub open spec fn fill_of(buckets: Seq<Bucket>, t: int) -> Option<Bucket> {
    match last_filled(buckets, t, buckets.len() as int) {
        Some(b) => Some(b),
        None => if buckets.len() == 0 {
            None
        } else {
            Some(buckets.last())
        },
    }
}

/// A rough cost for work that is split no further: one run if it fits a bucket, and a full
/// largest bucket per run if not.
pub open spec fn cost_of(buckets: Seq<Bucket>, n: (int, int, int)) -> int {
    match first_holding(buckets, n) {
        Some(b) => 160 + b.tokens,
        None => if buckets.len() == 0 {
            usize::MAX as int / 4
        } else {
            full_runs(buckets, n.0)
        },
    }
}

/// First fit in order: of the first `n` items, those that fit `b` together, and the rest.
pub open spec fn fitted(b: Bucket, items: Seq<(usize, usize)>, left: Seq<usize>, n: int) -> (
    Seq<usize>,
    Seq<usize>,
)
    decreases n,
{
    if n <= 0 {
        (seq![], seq![])
    } else {
        let (taken, rest) = fitted(b, items, left, n - 1);
        let i = left[n - 1];
        let (t, s, m) = sums(items, taken.push(i));
        if b.spec_holds(t, s, m) {
            (taken.push(i), rest)
        } else {
            (taken, rest.push(i))
        }
    }
}

/// The batches of the items that are left.
pub open spec fn plan(buckets: Seq<Bucket>, items: Seq<(usize, usize)>, left: Seq<usize>) -> Seq<
    Seq<usize>,
>
    decreases left.len(),
{
    let n = sums(items, left);
    if left.len() == 0 {
        seq![]
    } else {
        match fill_of(buckets, n.0) {
            None => seq![left],
            Some(b) => {
                let (taken, rest) = fitted(b, items, left, left.len() as int);
                if taken.len() == 0 {
                    seq![seq![left[0]]] + plan(buckets, items, left.drop_first())
                } else if 0 < rest.len() < left.len() && splits(buckets, items, n, b, rest) {
                    seq![taken] + plan(buckets, items, rest)
                } else {
                    seq![left]
                }
            },
        }
    }
}

/// Whether a full bucket and the rest cost less than all of it in one run.
pub open spec fn splits(
    buckets: Seq<Bucket>,
    items: Seq<(usize, usize)>,
    n: (int, int, int),
    b: Bucket,
    rest: Seq<usize>,
) -> bool {
    let whole = match first_holding(buckets, n) {
        Some(a) => 160 + a.tokens,
        None => usize::MAX as int,
    };
    160 + b.tokens + cost_of(buckets, sums(items, rest)) < whole
}

/// Every index is one of an item.
pub open spec fn within(items: Seq<(usize, usize)>, at: Seq<usize>) -> bool {
    forall|k: int| 0 <= k < at.len() ==> #[trigger] at[k] < items.len()
}

/// What `t` tokens cost in full runs of the last bucket.
pub open spec fn full_runs(buckets: Seq<Bucket>, t: int) -> int {
    ceil_div(t, buckets.last().tokens as int) * (160 + buckets.last().tokens)
}

/// The counts and the costs stay within what the machine counts: the tokens and the markers of all
/// the items, the last bucket, which tokens are divided by, and a run of any bucket beside a second
/// one or beside full runs of the last.
pub open spec fn countable(buckets: Seq<Bucket>, items: Seq<(usize, usize)>) -> bool {
    let all = sums(items, all_of(items.len() as int));
    &&& items.len() <= usize::MAX
    &&& all.0 <= usize::MAX
    &&& all.2 <= usize::MAX
    &&& buckets.len() > 0 ==> buckets.last().tokens > 0
    &&& forall|k: int|
        0 <= k < buckets.len() ==> 320 + 2 * (#[trigger] buckets[k]).tokens < usize::MAX
    &&& forall|k: int|
        0 <= k < buckets.len() ==> 160 + (#[trigger] buckets[k]).tokens + full_runs(buckets, all.0)
            < usize::MAX
}

/// The tokens and the markers of those of the first `n` items that are in a list.
spec fn masked(items: Seq<(usize, usize)>, at: Seq<usize>, n: int) -> (int, int)
    decreases n,
{
    if n <= 0 {
        (0, 0)
    } else {
        let (t, m) = masked(items, at, n - 1);
        if at.contains((n - 1) as usize) {
            (t + items[n - 1].0, m + items[n - 1].1)
        } else {
            (t, m)
        }
    }
}

/// A new item adds its own numbers.
proof fn masked_push(items: Seq<(usize, usize)>, at: Seq<usize>, x: usize, n: int)
    requires
        0 <= n <= items.len(),
        items.len() <= usize::MAX,
        !at.contains(x),
        x < items.len(),
    ensures
        ({
            let (t, m) = masked(items, at, n);
            masked(items, at.push(x), n) == if x < n {
                (t + items[x as int].0, m + items[x as int].1)
            } else {
                (t, m)
            }
        }),
    decreases n,
{
    if n > 0 {
        masked_push(items, at, x, n - 1);
        push_has(at, x);
    }
}

/// The sums of a list are those of the items in it.
proof fn sums_are_masked(items: Seq<(usize, usize)>, at: Seq<usize>)
    requires
        within(items, at),
        at.no_duplicates(),
        items.len() <= usize::MAX,
    ensures
        masked(items, at, items.len() as int) == (sums(items, at).0, sums(items, at).2),
    decreases at.len(),
{
    if at.len() == 0 {
        nothing_masked(items, at, items.len() as int);
    } else {
        let less = at.drop_last();
        let x = at.last();
        assert(at =~= less.push(x));
        assert(within(items, less));
        assert(!less.contains(x)) by {
            if less.contains(x) {
                let k = choose|k: int| 0 <= k < less.len() && less[k] == x;
                assert(at[k] == at[at.len() - 1]);
            }
        }
        sums_are_masked(items, less);
        assert(at[at.len() - 1] < items.len());
        masked_push(items, less, x, items.len() as int);
    }
}

/// An empty list has no numbers.
proof fn nothing_masked(items: Seq<(usize, usize)>, at: Seq<usize>, n: int)
    requires
        at.len() == 0,
    ensures
        masked(items, at, n) == (0int, 0int),
    decreases n,
{
    if n > 0 {
        nothing_masked(items, at, n - 1);
    }
}

/// A list of more items has no smaller numbers.
proof fn masked_grows(items: Seq<(usize, usize)>, at: Seq<usize>, more: Seq<usize>, n: int)
    requires
        0 <= n <= items.len(),
        items.len() <= usize::MAX,
        forall|i: usize| #[trigger] at.contains(i) ==> more.contains(i),
    ensures
        masked(items, at, n).0 <= masked(items, more, n).0,
        masked(items, at, n).1 <= masked(items, more, n).1,
    decreases n,
{
    if n > 0 {
        masked_grows(items, at, more, n - 1);
        assert(at.contains((n - 1) as usize) ==> more.contains((n - 1) as usize));
    }
}

/// The numbers of some of the items are no larger than those of more of them.
proof fn part_of(items: Seq<(usize, usize)>, at: Seq<usize>, more: Seq<usize>)
    requires
        within(items, at),
        at.no_duplicates(),
        within(items, more),
        more.no_duplicates(),
        items.len() <= usize::MAX,
        forall|i: usize| #[trigger] at.contains(i) ==> more.contains(i),
    ensures
        0 <= sums(items, at).0 <= sums(items, more).0,
        0 <= sums(items, at).2 <= sums(items, more).2,
{
    sums_are_masked(items, at);
    sums_are_masked(items, more);
    masked_grows(items, at, more, items.len() as int);
    sums_count(items, at);
}

/// As many sequences as items, and nothing below zero.
proof fn sums_count(items: Seq<(usize, usize)>, at: Seq<usize>)
    ensures
        sums(items, at).1 == at.len(),
        0 <= sums(items, at).0,
        0 <= sums(items, at).2,
    decreases at.len(),
{
    if at.len() > 0 {
        sums_count(items, at.drop_last());
    }
}

/// The numbers of some items stay within what the machine counts.
proof fn part_counts(buckets: Seq<Bucket>, items: Seq<(usize, usize)>, at: Seq<usize>)
    requires
        countable(buckets, items),
        within(items, at),
        at.no_duplicates(),
    ensures
        0 <= sums(items, at).0 <= usize::MAX,
        0 <= sums(items, at).2 <= usize::MAX,
        buckets.len() > 0 ==> 0 <= full_runs(buckets, sums(items, at).0) <= full_runs(
            buckets,
            sums(items, all_of(items.len() as int)).0,
        ),
{
    let all = all_of(items.len() as int);
    assert forall|i: usize| #[trigger] at.contains(i) implies all.contains(i) by {
        let k = choose|k: int| 0 <= k < at.len() && at[k] == i;
        assert(all[i as int] == i);
    }
    part_of(items, at, all);
    sums_count(items, at);
    if buckets.len() > 0 {
        runs_grow(buckets, sums(items, at).0, sums(items, all).0);
    }
}

/// More tokens cost no less in full runs.
proof fn runs_grow(buckets: Seq<Bucket>, t: int, u: int)
    requires
        buckets.len() > 0,
        buckets.last().tokens > 0,
        0 <= t <= u,
    ensures
        0 <= full_runs(buckets, t) <= full_runs(buckets, u),
{
    let l = buckets.last().tokens as int;
    lemma_div_is_ordered(t + l - 1, u + l - 1, l);
    lemma_div_pos_is_pos(t + l - 1, l);
    let (p, q) = (ceil_div(t, l), ceil_div(u, l));
    assert(0 <= p * (160 + l) <= q * (160 + l)) by (nonlinear_arith)
        requires
            0 <= p <= q,
            0 < l,
    ;
}

/// Tokens, sequences and markers of some items.
fn total(items: &Vec<(usize, usize)>, at: &Vec<usize>, Ghost(buckets): Ghost<Seq<Bucket>>) -> (r: (
    usize,
    usize,
    usize,
))
    requires
        within(items@, at@),
        at@.no_duplicates(),
        countable(buckets, items@),
    ensures
        (r.0 as int, r.1 as int, r.2 as int) == sums(items@, at@),
{
    let (mut t, mut s, mut m): (usize, usize, usize) = (0, 0, 0);
    let mut i: usize = 0;
    assert(at@.take(0) =~= seq![]);
    while i < at.len()
        invariant
            i <= at@.len(),
            s == i,
            within(items@, at@),
            at@.no_duplicates(),
            countable(buckets, items@),
            (t as int, s as int, m as int) == sums(items@, at@.take(i as int)),
        decreases at@.len() - i,
    {
        proof {
            let next = at@.take(i + 1);
            assert(next.drop_last() =~= at@.take(i as int));
            assert(within(items@, next));
            assert(next.no_duplicates());
            part_counts(buckets, items@, next);
        }
        t = t + items[at[i]].0;
        m = m + items[at[i]].1;
        s = s + 1;
        i += 1;
    }
    assert(at@.take(i as int) =~= at@);
    (t, s, m)
}

/// The first bucket that holds some counts.
pub fn pick(buckets: &Vec<Bucket>, t: usize, s: usize, m: usize) -> (r: Option<Bucket>)
    ensures
        r == first_holding(buckets@, (t as int, s as int, m as int)),
{
    let mut i: usize = 0;
    assert(buckets@.skip(0) =~= buckets@);
    while i < buckets.len()
        invariant
            i <= buckets@.len(),
            first_holding(buckets@, (t as int, s as int, m as int)) == first_holding(
                buckets@.skip(i as int),
                (t as int, s as int, m as int),
            ),
        decreases buckets@.len() - i,
    {
        assert(buckets@.skip(i as int)[0] == buckets@[i as int]);
        assert(buckets@.skip(i as int).drop_first() =~= buckets@.skip(i + 1));
        if buckets[i].holds(t, s, m) {
            return Some(buckets[i]);
        }
        i += 1;
    }
    None
}

/// The bucket that `t` tokens are fitted into.
fn fill(buckets: &Vec<Bucket>, t: usize) -> (r: Option<Bucket>)
    ensures
        r == fill_of(buckets@, t as int),
{
    let mut n: usize = buckets.len();
    while n > 0
        invariant
            n <= buckets@.len(),
            last_filled(buckets@, t as int, buckets@.len() as int) == last_filled(
                buckets@,
                t as int,
                n as int,
            ),
        decreases n,
    {
        if buckets[n - 1].tokens <= t {
            return Some(buckets[n - 1]);
        }
        n -= 1;
    }
    if buckets.len() == 0 {
        None
    } else {
        Some(buckets[buckets.len() - 1])
    }
}

/// A rough cost for work that is split no further.
pub fn cost(buckets: &Vec<Bucket>, t: usize, s: usize, m: usize) -> (r: usize)
    requires
        buckets@.len() > 0 ==> buckets@.last().tokens > 0 && full_runs(buckets@, t as int)
            <= usize::MAX,
        forall|k: int|
            0 <= k < buckets@.len() ==> 160 + (#[trigger] buckets@[k]).tokens <= usize::MAX,
    ensures
        r == cost_of(buckets@, (t as int, s as int, m as int)),
{
    match pick(buckets, t, s, m) {
        Some(b) => {
            proof {
                held_is_a_bucket(buckets@, (t as int, s as int, m as int));
            }
            OVERHEAD + b.tokens
        },
        None => {
            if buckets.len() == 0 {
                usize::MAX / 4
            } else {
                let l: usize = buckets[buckets.len() - 1].tokens;
                let runs: usize = div_ceil(t, l);
                assert(buckets@.last() == buckets@[buckets@.len() - 1]);
                runs * (OVERHEAD + l)
            }
        },
    }
}

/// What holds is one of the buckets, and it holds.
proof fn held_is_a_bucket(buckets: Seq<Bucket>, n: (int, int, int))
    ensures
        first_holding(buckets, n) matches Some(b) ==> b.spec_holds(n.0, n.1, n.2) && exists|k: int|
            0 <= k < buckets.len() && #[trigger] buckets[k] == b,
    decreases buckets.len(),
{
    if buckets.len() > 0 {
        held_is_a_bucket(buckets.drop_first(), n);
        if !buckets[0].spec_holds(n.0, n.1, n.2) {
            if let Some(b) = first_holding(buckets.drop_first(), n) {
                let k = choose|k: int|
                    0 <= k < buckets.drop_first().len() && #[trigger] buckets.drop_first()[k] == b;
                assert(buckets[k + 1] == b);
            }
        } else {
            assert(buckets[0] == first_holding(buckets, n)->0);
        }
    }
}

/// What is filled is one of the buckets.
proof fn filled_is_a_bucket(buckets: Seq<Bucket>, t: int, n: int)
    requires
        0 <= n <= buckets.len(),
    ensures
        last_filled(buckets, t, n) matches Some(b) ==> exists|k: int|
            0 <= k < n && #[trigger] buckets[k] == b,
    decreases n,
{
    if n > 0 {
        filled_is_a_bucket(buckets, t, n - 1);
        if buckets[n - 1].tokens <= t {
            assert(buckets[n - 1] == last_filled(buckets, t, n)->0);
        }
    }
}

/// The bucket that is fitted into is one of the buckets.
proof fn fill_is_a_bucket(buckets: Seq<Bucket>, t: int)
    ensures
        fill_of(buckets, t) matches Some(b) ==> exists|k: int|
            0 <= k < buckets.len() && #[trigger] buckets[k] == b,
{
    filled_is_a_bucket(buckets, t, buckets.len() as int);
    if buckets.len() > 0 && last_filled(buckets, t, buckets.len() as int) is None {
        assert(buckets[buckets.len() - 1] == fill_of(buckets, t)->0);
    }
}

/// What is fitted and the rest are the items, each once.
proof fn fitted_parts(b: Bucket, items: Seq<(usize, usize)>, left: Seq<usize>, n: int)
    requires
        0 <= n <= left.len(),
        left.no_duplicates(),
        within(items, left),
    ensures
        ({
            let (taken, rest) = fitted(b, items, left, n);
            &&& taken.len() + rest.len() == n
            &&& taken.no_duplicates()
            &&& rest.no_duplicates()
            &&& within(items, taken)
            &&& within(items, rest)
            &&& forall|i: usize| #[trigger]
                taken.contains(i) ==> left.take(n).contains(i) && !rest.contains(i)
            &&& forall|i: usize| #[trigger] rest.contains(i) ==> left.take(n).contains(i)
            &&& forall|i: usize| #[trigger]
                left.take(n).contains(i) ==> taken.contains(i) || rest.contains(i)
            &&& taken.len() > 0 ==> b.spec_holds(
                sums(items, taken).0,
                sums(items, taken).1,
                sums(items, taken).2,
            )
        }),
    decreases n,
{
    if n > 0 {
        fitted_parts(b, items, left, n - 1);
        let (taken, rest) = fitted(b, items, left, n - 1);
        let (taken1, rest1) = fitted(b, items, left, n);
        let x = left[n - 1];
        let now = left.take(n);
        let was = left.take(n - 1);
        assert(now =~= was.push(x));
        assert(!was.contains(x)) by {
            if was.contains(x) {
                let k = choose|k: int| 0 <= k < was.len() && was[k] == x;
                assert(left[k] == left[n - 1]);
            }
        }
        assert(!taken.contains(x) && !rest.contains(x));
        push_has(taken, x);
        push_has(rest, x);
        push_has(was, x);
        assert(taken.push(x).no_duplicates()) by {
            no_dup_push(taken, x);
        }
        assert(rest.push(x).no_duplicates()) by {
            no_dup_push(rest, x);
        }
        assert(within(items, taken.push(x)));
        assert(within(items, rest.push(x)));
    } else {
        assert(left.take(0) =~= seq![]);
    }
}

/// What a longer list holds.
proof fn push_has(s: Seq<usize>, x: usize)
    ensures
        forall|i: usize| #[trigger] s.push(x).contains(i) <==> s.contains(i) || i == x,
{
    assert forall|i: usize| #[trigger] s.push(x).contains(i) <==> s.contains(i) || i == x by {
        if s.contains(i) {
            let k = choose|k: int| 0 <= k < s.len() && s[k] == i;
            assert(s.push(x)[k] == i);
        }
        if i == x {
            assert(s.push(x)[s.len() as int] == i);
        }
        if s.push(x).contains(i) && i != x {
            let k = choose|k: int| 0 <= k < s.push(x).len() && s.push(x)[k] == i;
            assert(s[k] == i);
        }
    }
}

/// A new element keeps a list free of repeats.
proof fn no_dup_push(s: Seq<usize>, x: usize)
    requires
        s.no_duplicates(),
        !s.contains(x),
    ensures
        s.push(x).no_duplicates(),
{
}

/// The items that fit `b` together, and the rest.
fn fit(
    b: Bucket,
    items: &Vec<(usize, usize)>,
    left: &Vec<usize>,
    Ghost(buckets): Ghost<Seq<Bucket>>,
) -> (r: (Vec<usize>, Vec<usize>))
    requires
        within(items@, left@),
        left@.no_duplicates(),
        countable(buckets, items@),
    ensures
        (r.0@, r.1@) == fitted(b, items@, left@, left@.len() as int),
{
    let mut taken: Vec<usize> = Vec::new();
    let mut rest: Vec<usize> = Vec::new();
    let (mut t, mut s, mut m): (usize, usize, usize) = (0, 0, 0);
    let mut k: usize = 0;
    while k < left.len()
        invariant
            k <= left@.len(),
            within(items@, left@),
            left@.no_duplicates(),
            countable(buckets, items@),
            (taken@, rest@) == fitted(b, items@, left@, k as int),
            (t as int, s as int, m as int) == sums(items@, taken@),
            s == taken@.len(),
        decreases left@.len() - k,
    {
        let i: usize = left[k];
        proof {
            fitted_parts(b, items@, left@, k + 1);
            fitted_parts(b, items@, left@, k as int);
            let next = taken@.push(i);
            assert(next.drop_last() =~= taken@);
            assert(!taken@.contains(i)) by {
                if taken@.contains(i) {
                    assert(left@.take(k as int).contains(i));
                    let j = choose|j: int|
                        0 <= j < left@.take(k as int).len() && left@.take(k as int)[j] == i;
                    assert(left@[j] == left@[k as int]);
                }
            }
            no_dup_push(taken@, i);
            assert(within(items@, next));
            part_counts(buckets, items@, next);
        }
        let (it, im): (usize, usize) = items[i];
        if b.holds(t + it, s + 1, m + im) {
            t = t + it;
            s = s + 1;
            m = m + im;
            taken.push(i);
        } else {
            rest.push(i);
        }
        k += 1;
    }
    (taken, rest)
}

/// Batches as plain values.
pub open spec fn batches(v: Seq<Vec<usize>>) -> Seq<Seq<usize>> {
    Seq::new(v.len(), |i: int| v[i]@)
}

/// The indices of `n` items, in order.
pub open spec fn all_of(n: int) -> Seq<usize> {
    Seq::new(n as nat, |i: int| i as usize)
}

/// Whether the numbers of [`split`] stay within what the machine counts.
pub fn can_split(buckets: &Vec<Bucket>, items: &Vec<(usize, usize)>) -> (r: bool)
    ensures
        r == countable(buckets@, items@),
{
    let ghost all = all_of(items@.len() as int);
    let (mut t, mut m): (usize, usize) = (0, 0);
    let mut i: usize = 0;
    while i < items.len()
        invariant
            i <= items@.len(),
            all == all_of(items@.len() as int),
            t == sums(items@, all.take(i as int)).0,
            m == sums(items@, all.take(i as int)).2,
        decreases items@.len() - i,
    {
        proof {
            assert(all.take(i + 1).drop_last() =~= all.take(i as int));
            assert(all.take(i + 1).last() == i);
            part_of(items@, all.take(i + 1), all);
        }
        let (it, im): (usize, usize) = items[i];
        let (Some(a), Some(b)) = (t.checked_add(it), m.checked_add(im)) else {
            return false;
        };
        t = a;
        m = b;
        i += 1;
    }
    assert(all.take(i as int) =~= all);
    let n: usize = buckets.len();
    if n == 0 {
        return true;
    }
    let l: usize = buckets[n - 1].tokens;
    if l == 0 {
        return false;
    }
    let Some(one) = l.checked_add(OVERHEAD) else {
        assert(320 + 2 * buckets@[n - 1].tokens >= usize::MAX);
        return false;
    };
    let full: Option<usize> = div_ceil(t, l).checked_mul(one);
    let mut k: usize = 0;
    while k < n
        invariant
            k <= n == buckets@.len(),
            n > 0,
            l == buckets@.last().tokens,
            l > 0,
            all == all_of(items@.len() as int),
            t == sums(items@, all).0,
            m == sums(items@, all).2,
            match full {
                Some(f) => f == full_runs(buckets@, t as int),
                None => full_runs(buckets@, t as int) > usize::MAX,
            },
            forall|j: int|
                0 <= j < k ==> 320 + 2 * (#[trigger] buckets@[j]).tokens < usize::MAX && 160
                    + buckets@[j].tokens + full_runs(buckets@, t as int) < usize::MAX,
        decreases n - k,
    {
        let b: usize = buckets[k].tokens;
        let Some(f) = full else {
            assert(160 + buckets@[k as int].tokens + full_runs(buckets@, t as int) >= usize::MAX);
            return false;
        };
        if b > (usize::MAX - 1) / 2 - 160 || usize::MAX - f <= 160 + b {
            assert(320 + 2 * buckets@[k as int].tokens >= usize::MAX || 160
                + buckets@[k as int].tokens + full_runs(buckets@, t as int) >= usize::MAX);
            return false;
        }
        k += 1;
    }
    true
}

/// Groups items, given as tokens and markers with one sequence each, into batches. Every item is in
/// exactly one batch. Every batch fits a bucket or is a single item, when there are buckets at all.
pub fn split(buckets: &Vec<Bucket>, items: &Vec<(usize, usize)>) -> (r: Vec<Vec<usize>>)
    requires
        countable(buckets@, items@),
    ensures
        batches(r@) == plan(buckets@, items@, all_of(items@.len() as int)),
        apart(batches(r@)),
        forall|i: usize| #[trigger] in_some(batches(r@), i) <==> i < items@.len(),
        buckets@.len() > 0 ==> forall|k: int|
            0 <= k < r@.len() ==> (#[trigger] r@[k])@.len() == 1 || first_holding(
                buckets@,
                sums(items@, r@[k]@),
            ) is Some,
{
    let mut left: Vec<usize> = Vec::new();
    let mut i: usize = 0;
    while i < items.len()
        invariant
            i <= items@.len(),
            left@ == all_of(i as int),
        decreases items@.len() - i,
    {
        left.push(i);
        i += 1;
        assert(left@ =~= all_of(i as int));
    }
    let ghost bs = buckets@;
    let ghost whole = plan(bs, items@, left@);
    let ghost first = left@;
    proof {
        every_item_in_one_batch(bs, items@, first);
        assert forall|i: usize| #[trigger] in_some(whole, i) <==> i < items@.len() by {
            if i < items@.len() {
                assert(first[i as int] == i);
            }
            assert(first.contains(i) ==> i < items@.len());
        }
    }
    let mut out: Vec<Vec<usize>> = Vec::new();
    assert(batches(out@) + plan(bs, items@, left@) =~= whole);
    while left.len() > 0
        invariant
            bs == buckets@,
            countable(bs, items@),
            within(items@, left@),
            left@.no_duplicates(),
            batches(out@) + plan(bs, items@, left@) == whole,
        decreases left@.len(),
    {
        let ghost before = batches(out@);
        let ghost now = left@;
        let (t, s, m): (usize, usize, usize) = total(items, &left, Ghost(bs));
        proof {
            part_counts(bs, items@, now);
            fill_is_a_bucket(bs, t as int);
            held_is_a_bucket(bs, (t as int, s as int, m as int));
        }
        let all = pick(buckets, t, s, m);
        if let Some(b) = fill(buckets, t) {
            let (taken, rest) = fit(b, items, &left, Ghost(bs));
            proof {
                fitted_parts(b, items@, left@, left@.len() as int);
                assert(left@.take(left@.len() as int) =~= left@);
            }
            if taken.len() == 0 {
                let first: usize = left.remove(0);
                let mut one: Vec<usize> = Vec::new();
                one.push(first);
                assert(one@ =~= seq![now[0]]);
                out.push(one);
                assert(left@ =~= now.drop_first());
                assert(batches(out@) =~= before.push(seq![now[0]]));
                assert(batches(out@) + plan(bs, items@, left@) =~= before + (seq![seq![now[0]]]
                    + plan(bs, items@, left@)));
                continue;
            }
            if rest.len() > 0 {
                let parts: usize = {
                    let (rt, rs, rm): (usize, usize, usize) = total(items, &rest, Ghost(bs));
                    proof {
                        part_counts(bs, items@, rest@);
                        cost_is_small(bs, items@, rest@);
                    }
                    OVERHEAD + b.tokens + cost(buckets, rt, rs, rm)
                };
                let one: usize = match all {
                    Some(a) => OVERHEAD + a.tokens,
                    None => usize::MAX,
                };
                if parts < one {
                    let ghost (tv, rv) = (taken@, rest@);
                    out.push(taken);
                    assert(batches(out@) =~= before.push(tv));
                    assert(batches(out@) + plan(bs, items@, rv) =~= before + (seq![tv] + plan(
                        bs,
                        items@,
                        rv,
                    )));
                    left = rest;
                    continue;
                }
            }
        }
        out.push(left);
        assert(batches(out@) =~= before.push(now));
        left = Vec::new();
        assert(batches(out@) + plan(bs, items@, left@) =~= before + seq![now]);
    }
    assert(batches(out@) + seq![] =~= batches(out@));
    proof {
        if bs.len() > 0 {
            assert forall|k: int| 0 <= k < out@.len() implies (#[trigger] out@[k])@.len() == 1
                || first_holding(bs, sums(items@, out@[k]@)) is Some by {
                every_batch_fits_or_is_single(bs, items@, first, k);
                assert(batches(out@)[k] == out@[k]@);
            }
        }
    }
    out
}

/// Whether an item is in one of the batches.
pub open spec fn in_some(b: Seq<Seq<usize>>, i: usize) -> bool {
    exists|k: int| 0 <= k < b.len() && (#[trigger] b[k]).contains(i)
}

/// No item is twice in a batch or in two of them.
pub open spec fn apart(b: Seq<Seq<usize>>) -> bool {
    &&& forall|k: int| 0 <= k < b.len() ==> (#[trigger] b[k]).no_duplicates()
    &&& forall|j: int, k: int, i: usize|
        0 <= j < b.len() && 0 <= k < b.len() && #[trigger] b[j].contains(i)
            && #[trigger] b[k].contains(i) ==> j == k
}

/// A batch before others is apart from them when it shares nothing with them.
proof fn first_apart(first: Seq<usize>, more: Seq<Seq<usize>>)
    requires
        first.no_duplicates(),
        apart(more),
        forall|i: usize| #[trigger] first.contains(i) ==> !in_some(more, i),
    ensures
        apart(seq![first] + more),
        forall|i: usize| #[trigger]
            in_some(seq![first] + more, i) <==> first.contains(i) || in_some(more, i),
{
    let all = seq![first] + more;
    assert(all[0] == first);
    assert forall|k: int| 0 <= k < all.len() implies (#[trigger] all[k]).no_duplicates() by {
        if k > 0 {
            assert(all[k] == more[k - 1]);
        }
    }
    assert forall|j: int, k: int, i: usize|
        0 <= j < all.len() && 0 <= k < all.len() && #[trigger] all[j].contains(i)
            && #[trigger] all[k].contains(i) implies j == k by {
        if j > 0 {
            assert(all[j] == more[j - 1]);
            assert(in_some(more, i));
        }
        if k > 0 {
            assert(all[k] == more[k - 1]);
            assert(in_some(more, i));
        }
    }
    assert forall|i: usize| #[trigger] in_some(all, i) <==> first.contains(i) || in_some(more, i) by {
        if in_some(all, i) {
            let k = choose|k: int| 0 <= k < all.len() && (#[trigger] all[k]).contains(i);
            if k > 0 {
                assert(more[k - 1].contains(i));
            }
        }
        if in_some(more, i) {
            let k = choose|k: int| 0 <= k < more.len() && (#[trigger] more[k]).contains(i);
            assert(all[k + 1].contains(i));
        }
        if first.contains(i) {
            assert(all[0].contains(i));
        }
    }
}

/// Every item that is left is in exactly one batch, and nothing else is in any.
pub proof fn every_item_in_one_batch(
    buckets: Seq<Bucket>,
    items: Seq<(usize, usize)>,
    left: Seq<usize>,
)
    requires
        within(items, left),
        left.no_duplicates(),
    ensures
        apart(plan(buckets, items, left)),
        forall|i: usize| #[trigger] in_some(plan(buckets, items, left), i) <==> left.contains(i),
    decreases left.len(),
{
    let p = plan(buckets, items, left);
    if left.len() > 0 {
        let n = sums(items, left);
        let none = Seq::<Seq<usize>>::empty();
        assert(forall|i: usize| !in_some(none, i));
        if let Some(b) = fill_of(buckets, n.0) {
            let (taken, rest) = fitted(b, items, left, left.len() as int);
            fitted_parts(b, items, left, left.len() as int);
            assert(left.take(left.len() as int) =~= left);
            if taken.len() == 0 {
                let first = seq![left[0]];
                let more = left.drop_first();
                assert(within(items, more));
                every_item_in_one_batch(buckets, items, more);
                assert forall|i: usize| #[trigger] first.contains(i) implies !in_some(
                    plan(buckets, items, more),
                    i,
                ) by {
                    if more.contains(i) {
                        let k = choose|k: int| 0 <= k < more.len() && more[k] == i;
                        assert(left[k + 1] == left[0]);
                    }
                }
                first_apart(first, plan(buckets, items, more));
                assert forall|i: usize| left.contains(i) <==> #[trigger] first.contains(i)
                    || more.contains(i) by {
                    if left.contains(i) {
                        let k = choose|k: int| 0 <= k < left.len() && left[k] == i;
                        if k > 0 {
                            assert(more[k - 1] == i);
                        } else {
                            assert(first[0] == i);
                        }
                    }
                    if more.contains(i) {
                        let k = choose|k: int| 0 <= k < more.len() && more[k] == i;
                        assert(left[k + 1] == i);
                    }
                    if first.contains(i) {
                        assert(left[0] == i);
                    }
                }
                assert forall|i: usize| #[trigger] in_some(p, i) <==> left.contains(i) by {
                    assert(first.contains(i) || !first.contains(i));
                }
            } else if 0 < rest.len() < left.len() && splits(buckets, items, n, b, rest) {
                every_item_in_one_batch(buckets, items, rest);
                first_apart(taken, plan(buckets, items, rest));
                assert forall|i: usize| #[trigger] in_some(p, i) <==> left.contains(i) by {
                    assert(taken.contains(i) || !taken.contains(i));
                    assert(left.take(left.len() as int).contains(i) ==> taken.contains(i)
                        || rest.contains(i));
                }
            } else {
                first_apart(left, none);
                assert(seq![left] + none =~= p);
            }
        } else {
            first_apart(left, none);
            assert(seq![left] + none =~= p);
        }
    }
}

/// Every batch fits a bucket or is a single item, when there are buckets.
pub proof fn every_batch_fits_or_is_single(
    buckets: Seq<Bucket>,
    items: Seq<(usize, usize)>,
    left: Seq<usize>,
    k: int,
)
    requires
        countable(buckets, items),
        buckets.len() > 0,
        within(items, left),
        left.no_duplicates(),
        0 <= k < plan(buckets, items, left).len(),
    ensures
        ({
            let batch = plan(buckets, items, left)[k];
            batch.len() == 1 || first_holding(buckets, sums(items, batch)) is Some
        }),
    decreases left.len(),
{
    let n = sums(items, left);
    if left.len() > 0 {
        let b = fill_of(buckets, n.0)->0;
        let (taken, rest) = fitted(b, items, left, left.len() as int);
        fitted_parts(b, items, left, left.len() as int);
        fill_is_a_bucket(buckets, n.0);
        if taken.len() == 0 {
            assert(within(items, left.drop_first()));
            if k > 0 {
                every_batch_fits_or_is_single(buckets, items, left.drop_first(), k - 1);
            }
        } else {
            holds_is_found(buckets, b, sums(items, taken));
            if 0 < rest.len() < left.len() && splits(buckets, items, n, b, rest) {
                if k > 0 {
                    every_batch_fits_or_is_single(buckets, items, rest, k - 1);
                }
            } else if rest.len() == 0 {
                all_taken(b, items, left, left.len() as int);
                assert(left.take(left.len() as int) =~= left);
            } else {
                part_counts(buckets, items, rest);
                cost_is_small(buckets, items, rest);
            }
        }
    }
}

/// Where nothing is left over, everything is taken in order.
proof fn all_taken(b: Bucket, items: Seq<(usize, usize)>, left: Seq<usize>, n: int)
    requires
        0 <= n <= left.len(),
        fitted(b, items, left, n).1.len() == 0,
    ensures
        fitted(b, items, left, n).0 == left.take(n),
    decreases n,
{
    if n > 0 {
        all_taken(b, items, left, n - 1);
        assert(left.take(n) =~= left.take(n - 1).push(left[n - 1]));
    } else {
        assert(left.take(0) =~= seq![]);
    }
}

/// A bucket that holds some counts is found, or one before it.
proof fn holds_is_found(buckets: Seq<Bucket>, b: Bucket, n: (int, int, int))
    requires
        exists|k: int| 0 <= k < buckets.len() && #[trigger] buckets[k] == b,
        b.spec_holds(n.0, n.1, n.2),
    ensures
        first_holding(buckets, n) is Some,
    decreases buckets.len(),
{
    if !buckets[0].spec_holds(n.0, n.1, n.2) {
        let k = choose|k: int| 0 <= k < buckets.len() && #[trigger] buckets[k] == b;
        let rest = buckets.drop_first();
        assert(rest[k - 1] == b);
        holds_is_found(rest, b, n);
    }
}

/// A cost stays below what a single run of everything is compared with.
proof fn cost_is_small(buckets: Seq<Bucket>, items: Seq<(usize, usize)>, at: Seq<usize>)
    requires
        countable(buckets, items),
        buckets.len() > 0,
        within(items, at),
        at.no_duplicates(),
    ensures
        forall|k: int|
            0 <= k < buckets.len() ==> 160 + (#[trigger] buckets[k]).tokens + cost_of(
                buckets,
                sums(items, at),
            ) < usize::MAX,
{
    let n = sums(items, at);
    part_counts(buckets, items, at);
    held_is_a_bucket(buckets, n);
}

/// The padded cost of the first `n` batches.
pub open spec fn padded(
    buckets: Seq<Bucket>,
    items: Seq<(usize, usize)>,
    b: Seq<Seq<usize>>,
    n: int,
) -> int
    decreases n,
{
    if n <= 0 {
        0
    } else {
        padded(buckets, items, b, n - 1) + cost_of(buckets, sums(items, b[n - 1]))
    }
}

/// A batch before others adds its cost.
proof fn padded_first(
    buckets: Seq<Bucket>,
    items: Seq<(usize, usize)>,
    first: Seq<usize>,
    more: Seq<Seq<usize>>,
    n: int,
)
    requires
        0 <= n <= more.len(),
    ensures
        padded(buckets, items, seq![first] + more, n + 1) == cost_of(buckets, sums(items, first))
            + padded(buckets, items, more, n),
    decreases n,
{
    let all = seq![first] + more;
    if n > 0 {
        padded_first(buckets, items, first, more, n - 1);
        assert(all[n] == more[n - 1]);
    } else {
        assert(all[0] == first);
        assert(padded(buckets, items, all, 0) == 0);
    }
}

/// The buckets go up in tokens.
pub open spec fn ascending(buckets: Seq<Bucket>) -> bool {
    forall|j: int, k: int|
        0 <= j <= k < buckets.len() ==> (#[trigger] buckets[j]).tokens <= (
        #[trigger] buckets[k]).tokens
}

/// Whenever two items or more are left that fit one bucket together, one of them fits the bucket
/// they are fitted into.
pub open spec fn never_stuck(buckets: Seq<Bucket>, items: Seq<(usize, usize)>) -> bool {
    forall|left: Seq<usize>|
        within(items, left) && left.no_duplicates() && left.len() >= 2 && first_holding(
            buckets,
            #[trigger] sums(items, left),
        ) is Some ==> fitted(
            fill_of(buckets, sums(items, left).0)->0,
            items,
            left,
            left.len() as int,
        ).0.len() > 0
}

/// With fewer counts the first bucket that holds them is no later.
proof fn smaller_is_no_later(buckets: Seq<Bucket>, n: (int, int, int), m: (int, int, int))
    requires
        ascending(buckets),
        n.0 <= m.0,
        n.1 <= m.1,
        n.2 <= m.2,
        first_holding(buckets, m) is Some,
    ensures
        first_holding(buckets, n) is Some,
        first_holding(buckets, n)->0.tokens <= first_holding(buckets, m)->0.tokens,
    decreases buckets.len(),
{
    let rest = buckets.drop_first();
    assert forall|j: int, k: int| 0 <= j <= k < rest.len() implies (#[trigger] rest[j]).tokens <= (
    #[trigger] rest[k]).tokens by {
        assert(buckets[j + 1].tokens <= buckets[k + 1].tokens);
    }
    if !buckets[0].spec_holds(m.0, m.1, m.2) {
        if buckets[0].spec_holds(n.0, n.1, n.2) {
            held_is_a_bucket(rest, m);
            let b = first_holding(rest, m)->0;
            let k = choose|k: int| 0 <= k < rest.len() && #[trigger] rest[k] == b;
            assert(buckets[0].tokens <= buckets[k + 1].tokens);
        } else {
            smaller_is_no_later(rest, n, m);
        }
    }
}

/// A bucket that holds some counts has no fewer tokens than the first that does.
proof fn first_is_least(buckets: Seq<Bucket>, b: Bucket, n: (int, int, int))
    requires
        ascending(buckets),
        exists|k: int| 0 <= k < buckets.len() && #[trigger] buckets[k] == b,
        b.spec_holds(n.0, n.1, n.2),
    ensures
        first_holding(buckets, n) is Some,
        first_holding(buckets, n)->0.tokens <= b.tokens,
    decreases buckets.len(),
{
    let k = choose|k: int| 0 <= k < buckets.len() && #[trigger] buckets[k] == b;
    if !buckets[0].spec_holds(n.0, n.1, n.2) {
        let rest = buckets.drop_first();
        assert(rest[k - 1] == b);
        assert forall|i: int, j: int| 0 <= i <= j < rest.len() implies (#[trigger] rest[i]).tokens
            <= (#[trigger] rest[j]).tokens by {
            assert(buckets[i + 1].tokens <= buckets[j + 1].tokens);
        }
        first_is_least(rest, b, n);
    } else {
        assert(buckets[0].tokens <= buckets[k].tokens);
    }
}

/// Work that fits one bucket never costs more in its batches than in that bucket.
pub proof fn never_worse_than_one_batch(
    buckets: Seq<Bucket>,
    items: Seq<(usize, usize)>,
    left: Seq<usize>,
)
    requires
        countable(buckets, items),
        ascending(buckets),
        never_stuck(buckets, items),
        within(items, left),
        left.no_duplicates(),
        left.len() > 0,
        first_holding(buckets, sums(items, left)) is Some,
    ensures
        padded(
            buckets,
            items,
            plan(buckets, items, left),
            plan(buckets, items, left).len() as int,
        ) <= 160 + first_holding(buckets, sums(items, left))->0.tokens,
    decreases left.len(),
{
    let n = sums(items, left);
    let p = plan(buckets, items, left);
    let b = fill_of(buckets, n.0)->0;
    let (taken, rest) = fitted(b, items, left, left.len() as int);
    fitted_parts(b, items, left, left.len() as int);
    assert(left.take(left.len() as int) =~= left);
    held_is_a_bucket(buckets, n);
    fill_is_a_bucket(buckets, n.0);
    assert(buckets.len() > 0);
    let none = Seq::<Seq<usize>>::empty();
    if taken.len() == 0 {
        assert(left.len() < 2);
        let more = left.drop_first();
        assert(seq![left[0]] =~= left);
        assert(plan(buckets, items, more) =~= none);
        assert(p =~= seq![left] + none);
        padded_first(buckets, items, left, none, 0);
    } else if 0 < rest.len() < left.len() && splits(buckets, items, n, b, rest) {
        first_is_least(buckets, b, sums(items, taken));
        part_of(items, rest, left);
        sums_count(items, rest);
        sums_count(items, left);
        smaller_is_no_later(buckets, sums(items, rest), n);
        never_worse_than_one_batch(buckets, items, rest);
        let more = plan(buckets, items, rest);
        padded_first(buckets, items, taken, more, more.len() as int);
        assert(p =~= seq![taken] + more);
    } else {
        assert(p =~= seq![left] + none);
        padded_first(buckets, items, left, none, 0);
    }
}

/// No bucket has more than twice the tokens of the one before it.
pub open spec fn doubling(buckets: Seq<Bucket>) -> bool {
    forall|k: int|
        0 < k < buckets.len() ==> (#[trigger] buckets[k]).tokens <= 2 * buckets[k - 1].tokens
}

/// A bucket with the tokens for an item has the room for its markers too.
pub open spec fn roomy(buckets: Seq<Bucket>, items: Seq<(usize, usize)>) -> bool {
    forall|k: int, i: int|
        0 <= k < buckets.len() && 0 <= i < items.len() && (#[trigger] items[i]).0 <= (
        #[trigger] buckets[k]).tokens ==> buckets[k].spec_holds(
            items[i].0 as int,
            1,
            items[i].1 as int,
        )
}

/// Where one item fits alone, something is taken.
proof fn something_is_taken(b: Bucket, items: Seq<(usize, usize)>, left: Seq<usize>, n: int, j: int)
    requires
        0 <= j < n <= left.len(),
        b.spec_holds(
            items[left[j] as int].0 as int,
            1,
            items[left[j] as int].1 as int,
        ),
    ensures
        fitted(b, items, left, n).0.len() > 0,
    decreases n,
{
    if j < n - 1 {
        something_is_taken(b, items, left, n - 1, j);
    } else {
        let taken = fitted(b, items, left, n - 1).0;
        if taken.len() == 0 {
            let one = taken.push(left[j]);
            assert(one.drop_last() =~= taken);
            assert(sums(items, taken) == (0int, 0int, 0int));
        }
    }
}

/// The last filled bucket is full, and the one behind it is not.
proof fn filled_is_last(buckets: Seq<Bucket>, t: int, n: int)
    requires
        0 <= n <= buckets.len(),
        ascending(buckets),
    ensures
        match last_filled(buckets, t, n) {
            Some(b) => exists|k: int|
                0 <= k < n && #[trigger] buckets[k] == b && b.tokens <= t && (k + 1 < n ==> t
                    < buckets[k + 1].tokens),
            None => forall|k: int| 0 <= k < n ==> t < (#[trigger] buckets[k]).tokens,
        },
    decreases n,
{
    if n > 0 {
        filled_is_last(buckets, t, n - 1);
        if buckets[n - 1].tokens <= t {
            assert(buckets[n - 1] == last_filled(buckets, t, n)->0);
        } else if last_filled(buckets, t, n - 1) is Some {
            let b = last_filled(buckets, t, n - 1)->0;
            let k = choose|k: int|
                0 <= k < n - 1 && #[trigger] buckets[k] == b && b.tokens <= t && (k + 1 < n - 1
                    ==> t < buckets[k + 1].tokens);
            assert(buckets[k] == b);
        }
    }
}

/// In a table whose buckets at most double and have room for the markers, one of two items or more
/// fits the bucket they are fitted into.
#[verifier::rlimit(60)]
proof fn doubling_takes_one(buckets: Seq<Bucket>, items: Seq<(usize, usize)>, left: Seq<usize>)
    requires
        items.len() <= usize::MAX,
        ascending(buckets),
        doubling(buckets),
        roomy(buckets, items),
        within(items, left),
        left.no_duplicates(),
        left.len() >= 2,
        first_holding(buckets, sums(items, left)) is Some,
    ensures
        fitted(
            fill_of(buckets, sums(items, left).0)->0,
            items,
            left,
            left.len() as int,
        ).0.len() > 0,
{
    let n = sums(items, left);
    let t = n.0;
    held_is_a_bucket(buckets, n);
    let j = smaller_half(items, left);
    let i = left[j] as int;
    let small = items[i].0;
    filled_is_last(buckets, t, buckets.len() as int);
    let b = fill_of(buckets, t)->0;
    let a = first_holding(buckets, n)->0;
    let at = choose|k: int| 0 <= k < buckets.len() && #[trigger] buckets[k] == a;
    let last = buckets.len() - 1;
    assert(buckets[at].tokens <= buckets[last].tokens);
    match last_filled(buckets, t, buckets.len() as int) {
        Some(f) => {
            let k = choose|k: int|
                0 <= k < buckets.len() && #[trigger] buckets[k] == f && f.tokens <= t && (k + 1
                    < buckets.len() ==> t < buckets[k + 1].tokens);
            if k + 1 < buckets.len() {
                assert(buckets[k + 1].tokens <= 2 * buckets[k].tokens);
            } else {
                assert(t <= buckets[last].tokens);
            }
            assert(small <= buckets[k].tokens);
            assert(buckets[k].spec_holds(items[i].0 as int, 1, items[i].1 as int));
        },
        None => {
            assert(t < buckets[last].tokens);
            assert(small <= buckets[last].tokens);
            assert(buckets[last].spec_holds(items[i].0 as int, 1, items[i].1 as int));
        },
    }
    something_is_taken(b, items, left, left.len() as int, j);
}

/// One of the first two items has at most half of all the tokens.
proof fn smaller_half(items: Seq<(usize, usize)>, left: Seq<usize>) -> (j: int)
    requires
        items.len() <= usize::MAX,
        within(items, left),
        left.no_duplicates(),
        left.len() >= 2,
    ensures
        0 <= j < 2,
        2 * items[left[j] as int].0 <= sums(items, left).0,
{
    let (x, y) = (left[0], left[1]);
    let two = seq![x, y];
    assert forall|i: usize| #[trigger] two.contains(i) implies left.contains(i) by {
        let k = choose|k: int| 0 <= k < two.len() && two[k] == i;
        assert(left[k] == i);
    }
    part_of(items, two, left);
    assert(two.drop_last() =~= seq![x]);
    assert(seq![x].drop_last() =~= seq![]);
    assert(sums(items, seq![]) == (0int, 0int, 0int));
    assert(sums(items, seq![x]).0 == items[x as int].0);
    assert(sums(items, two).0 == items[x as int].0 + items[y as int].0);
    if items[x as int].0 <= items[y as int].0 {
        0int
    } else {
        1int
    }
}

/// A table whose buckets at most double and have room for the markers is never stuck.
pub proof fn a_doubling_table_is_never_stuck(buckets: Seq<Bucket>, items: Seq<(usize, usize)>)
    requires
        items.len() <= usize::MAX,
        ascending(buckets),
        doubling(buckets),
        roomy(buckets, items),
    ensures
        never_stuck(buckets, items),
{
    assert forall|left: Seq<usize>|
        within(items, left) && left.no_duplicates() && left.len() >= 2 && first_holding(
            buckets,
            #[trigger] sums(items, left),
        ) is Some implies fitted(
        fill_of(buckets, sums(items, left).0)->0,
        items,
        left,
        left.len() as int,
    ).0.len() > 0 by {
        doubling_takes_one(buckets, items, left);
    }
}

} // verus!
