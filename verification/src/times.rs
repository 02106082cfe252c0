//! Times of steps, added up by what the steps are.

use crate::order::{ahead, descending};
use crate::text::same;
use vstd::prelude::*;

verus! {

/// The sum of the first `n` times.
pub open spec fn total(times: Seq<u64>, n: int) -> int
    decreases n,
{
    if n <= 0 {
        0
    } else {
        total(times, n - 1) + times[n - 1]
    }
}

/// Sums of more times are no smaller.
pub proof fn total_grows(times: Seq<u64>, m: int, n: int)
    requires
        0 <= m <= n <= times.len(),
    ensures
        0 <= total(times, m) <= total(times, n),
    decreases n,
{
    if m < n {
        total_grows(times, m, n - 1);
    } else if m > 0 {
        total_grows(times, m - 1, n - 1);
    }
}

/// The index of the first entry of that key, or the length.
pub open spec fn first_of<K>(by: Seq<(K, int)>, key: K) -> int
    decreases by.len(),
{
    if by.len() == 0 {
        0
    } else if by[0].0 == key {
        0
    } else {
        1 + first_of(by.drop_first(), key)
    }
}

/// An index with the key and none before it is the first.
pub proof fn is_first<K>(by: Seq<(K, int)>, key: K, k: int)
    requires
        0 <= k <= by.len(),
        forall|j: int| 0 <= j < k ==> by[j].0 != key,
        k < by.len() ==> by[k].0 == key,
    ensures
        first_of(by, key) == k,
    decreases by.len(),
{
    if k > 0 {
        assert(by[0].0 != key);
        is_first(by.drop_first(), key, k - 1);
    }
}

/// `n` added to the entry of that key, which is put at the end when it is new.
pub open spec fn added<K>(by: Seq<(K, int)>, key: K, n: int) -> Seq<(K, int)> {
    let k = first_of(by, key);
    if k < by.len() {
        by.update(k, (key, by[k].1 + n))
    } else {
        by.push((key, n))
    }
}

/// What each key has over the first `n` entries, keys in the order of their first entry.
pub open spec fn grouped<K>(keys: Seq<K>, values: Seq<u64>, n: int) -> Seq<(K, int)>
    decreases n,
{
    if n <= 0 {
        seq![]
    } else {
        added(grouped(keys, values, n - 1), keys[n - 1], values[n - 1] as int)
    }
}

/// How many keys have a value.
pub open spec fn paired<K>(keys: Seq<K>, values: Seq<u64>) -> int {
    if values.len() < keys.len() {
        values.len() as int
    } else {
        keys.len() as int
    }
}

/// `order` names every entry once, larger ones first and equals in their own order.
pub open spec fn by_size<K>(from: Seq<(K, int)>, order: Seq<usize>) -> bool {
    &&& order.len() == from.len()
    &&& order.no_duplicates()
    &&& forall|i: int| 0 <= i < order.len() ==> #[trigger] order[i] < from.len()
    &&& forall|i: int, j: int|
        0 <= i < j < order.len() ==> from[order[i] as int].1 > from[order[j] as int].1 || (
        from[order[i] as int].1 == from[order[j] as int].1 && order[i] < order[j])
}

/// `to` is `from` taken in an order.
pub open spec fn taken<K>(to: Seq<(K, int)>, from: Seq<(K, int)>, order: Seq<usize>) -> bool {
    to == Seq::new(order.len(), |i: int| from[order[i] as int])
}

/// `to` is `from` sorted, largest first, with equals in their old order.
pub open spec fn sorted_from<K>(to: Seq<(K, int)>, from: Seq<(K, int)>) -> bool {
    exists|order: Seq<usize>| #[trigger] by_size(from, order) && taken(to, from, order)
}

/// Names and their times.
pub open spec fn named(v: Seq<(&'static str, u64)>) -> Seq<(Seq<char>, int)> {
    Seq::new(v.len(), |i: int| (v[i].0@, v[i].1 as int))
}

/// Names as text.
pub open spec fn names_of(v: Seq<&'static str>) -> Seq<Seq<char>> {
    Seq::new(v.len(), |i: int| v[i]@)
}

/// The order that puts larger times first and keeps the order of equals.
pub fn largest_first(times: &Vec<u64>) -> (order: Vec<usize>)
    ensures
        by_size(Seq::new(times@.len(), |i: int| ((), times@[i] as int)), order@),
{
    let ghost from = Seq::new(times@.len(), |i: int| ((), times@[i] as int));
    let mut keys: Vec<(u64, u64)> = Vec::new();
    let mut k: usize = 0;
    while k < times.len()
        invariant
            k <= times@.len(),
            keys@ == Seq::new(k as nat, |j: int| (times@[j], 0u64)),
        decreases times@.len() - k,
    {
        keys.push((times[k], 0));
        k += 1;
        assert(keys@ =~= Seq::new(k as nat, |j: int| (times@[j], 0u64)));
    }
    let order = descending(&keys);
    proof {
        assert forall|i: int, j: int| 0 <= i < j < order@.len() implies from[order@[i] as int].1
            > from[order@[j] as int].1 || (from[order@[i] as int].1 == from[order@[j] as int].1
            && order@[i] < order@[j]) by {
            let (a, b) = (order@[i] as int, order@[j] as int);
            assert(order@[i] < keys@.len() && order@[j] < keys@.len());
            assert(keys@[a] == (times@[a], 0u64) && keys@[b] == (times@[b], 0u64));
            assert(ahead(keys@[a], keys@[b]) || (keys@[a] == keys@[b] && a < b));
            assert(from[a].1 == times@[a] && from[b].1 == times@[b]);
        }
    }
    order
}

/// Time per name, largest first, and names of the same time in the order of their first entry.
pub fn by_name(names: &Vec<&'static str>, times: &Vec<u64>) -> (r: Vec<(&'static str, u64)>)
    requires
        total(times@, times@.len() as int) <= u64::MAX,
    ensures
        sorted_from(
            named(r@),
            grouped(names_of(names@), times@, paired(names_of(names@), times@)),
        ),
{
    let ghost all = names_of(names@);
    let n: usize = if times.len() < names.len() {
        times.len()
    } else {
        names.len()
    };
    let mut by: Vec<&'static str> = Vec::new();
    let mut sums: Vec<u64> = Vec::new();
    let ghost mut so_far: Seq<(Seq<char>, int)> = seq![];
    let mut i: usize = 0;
    while i < n
        invariant
            i <= n == paired(all, times@),
            all == names_of(names@),
            total(times@, times@.len() as int) <= u64::MAX,
            by@.len() == sums@.len(),
            so_far == grouped(all, times@, i as int),
            so_far == Seq::new(by@.len(), |k: int| (by@[k]@, sums@[k] as int)),
            forall|k: int| 0 <= k < sums@.len() ==> sums@[k] <= total(times@, i as int),
        decreases n - i,
    {
        let name = names[i];
        let ns: u64 = times[i];
        proof {
            assert(all[i as int] == name@);
            total_grows(times@, i + 1, times@.len() as int);
            total_grows(times@, 0, i as int);
            assert(total(times@, i + 1) == total(times@, i as int) + ns);
        }
        let mut k: usize = 0;
        while k < by.len() && !same(by[k], name)
            invariant
                k <= by@.len() == so_far.len(),
                by@.len() == sums@.len(),
                so_far == Seq::new(by@.len(), |k: int| (by@[k]@, sums@[k] as int)),
                forall|j: int| 0 <= j < k ==> so_far[j].0 != name@,
            decreases by@.len() - k,
        {
            k += 1;
        }
        proof {
            is_first(so_far, name@, k as int);
            so_far = added(so_far, name@, ns as int);
        }
        if k < by.len() {
            let sum: u64 = sums[k] + ns;
            sums.set(k, sum);
        } else {
            by.push(name);
            sums.push(ns);
        }
        assert(so_far =~= Seq::new(by@.len(), |k: int| (by@[k]@, sums@[k] as int)));
        i += 1;
    }
    let order = largest_first(&sums);
    let ghost plain = Seq::new(sums@.len(), |i: int| ((), sums@[i] as int));
    let mut out: Vec<(&'static str, u64)> = Vec::new();
    let mut k: usize = 0;
    while k < order.len()
        invariant
            k <= order@.len() == sums@.len() == by@.len(),
            plain == Seq::new(sums@.len(), |i: int| ((), sums@[i] as int)),
            by_size(plain, order@),
            out@ == Seq::new(
                k as nat,
                |j: int| (by@[order@[j] as int], sums@[order@[j] as int]),
            ),
        decreases order@.len() - k,
    {
        let at: usize = order[k];
        out.push((by[at], sums[at]));
        k += 1;
        assert(out@ =~= Seq::new(
            k as nat,
            |j: int| (by@[order@[j] as int], sums@[order@[j] as int]),
        ));
    }
    proof {
        same_order(plain, so_far, order@);
        let to = named(out@);
        assert(to =~= Seq::new(order@.len(), |i: int| so_far[order@[i] as int]));
        assert(by_size(so_far, order@) && taken(to, so_far, order@));
    }
    out
}

/// Lists of the same sizes have the same order.
pub proof fn same_order<K, L>(a: Seq<(K, int)>, b: Seq<(L, int)>, order: Seq<usize>)
    requires
        by_size(a, order),
        a.len() == b.len(),
        forall|i: int| 0 <= i < a.len() ==> a[i].1 == b[i].1,
    ensures
        by_size(b, order),
{
    assert forall|i: int, j: int| 0 <= i < j < order.len() implies b[order[i] as int].1
        > b[order[j] as int].1 || (b[order[i] as int].1 == b[order[j] as int].1 && order[i]
        < order[j]) by {
        assert(order[i] < a.len() && order[j] < a.len());
        assert(a[order[i] as int].1 == b[order[i] as int].1);
        assert(a[order[j] as int].1 == b[order[j] as int].1);
    }
}

/// What the entries have together.
pub open spec fn together<K>(by: Seq<(K, int)>) -> int
    decreases by.len(),
{
    if by.len() == 0 {
        0
    } else {
        together(by.drop_last()) + by.last().1
    }
}

/// An entry that grows by `n` makes the whole grow by `n`.
proof fn one_grows<K>(by: Seq<(K, int)>, k: int, e: (K, int))
    requires
        0 <= k < by.len(),
    ensures
        together(by.update(k, e)) == together(by) + e.1 - by[k].1,
    decreases by.len(),
{
    let now = by.update(k, e);
    if k < by.len() - 1 {
        assert(now.drop_last() =~= by.drop_last().update(k, e));
        one_grows(by.drop_last(), k, e);
    } else {
        assert(now.drop_last() =~= by.drop_last());
    }
}

/// A first entry is one of its key, and is within the entries or their number.
proof fn first_is_there<K>(by: Seq<(K, int)>, key: K)
    ensures
        0 <= first_of(by, key) <= by.len(),
        first_of(by, key) < by.len() ==> by[first_of(by, key)].0 == key,
        forall|j: int| 0 <= j < first_of(by, key) ==> (#[trigger] by[j]).0 != key,
    decreases by.len(),
{
    if by.len() > 0 && by[0].0 != key {
        let rest = by.drop_first();
        first_is_there(rest, key);
        assert forall|j: int| 0 <= j < first_of(by, key) implies (#[trigger] by[j]).0 != key by {
            if j > 0 {
                assert(by[j] == rest[j - 1]);
            }
        }
    }
}

/// What one key has over the first `n` entries.
pub open spec fn of_key<K>(keys: Seq<K>, values: Seq<u64>, key: K, n: int) -> int
    decreases n,
{
    if n <= 0 {
        0
    } else {
        of_key(keys, values, key, n - 1) + (if keys[n - 1] == key {
            values[n - 1] as int
        } else {
            0
        })
    }
}

/// Grouping loses no time and counts none twice: the groups have together what the entries have,
/// every key has one group, and the group has what the key's entries have.
pub proof fn grouping_keeps_the_time<K>(keys: Seq<K>, values: Seq<u64>, n: int, i: int, j: int)
    requires
        0 <= n <= values.len(),
        n <= keys.len(),
    ensures
        together(grouped(keys, values, n)) == total(values, n),
        0 <= i < grouped(keys, values, n).len() ==> grouped(keys, values, n)[i].1 == of_key(
            keys,
            values,
            grouped(keys, values, n)[i].0,
            n,
        ),
        0 <= i < j < grouped(keys, values, n).len() ==> grouped(keys, values, n)[i].0 != grouped(
            keys,
            values,
            n,
        )[j].0,
        0 <= i < n ==> first_of(grouped(keys, values, n), keys[i]) < grouped(keys, values, n).len(),
    decreases n, 0int,
{
    if n > 0 {
        let before = grouped(keys, values, n - 1);
        let now = grouped(keys, values, n);
        let key = keys[n - 1];
        let k = first_of(before, key);
        grouping_keeps_the_time(keys, values, n - 1, i, j);
        first_is_there(before, key);
        if k < before.len() {
            one_grows(before, k, (key, before[k].1 + values[n - 1]));
            assert(now[k].0 == key);
            groups_differ(keys, values, n - 1, k, i);
        } else {
            assert(now.drop_last() =~= before);
            assert(now[k].0 == key);
            if 0 <= i < now.len() && i == k {
                nothing_of(keys, values, key, n - 1);
            }
        }
        if 0 <= i < n {
            first_is_there(now, keys[i]);
            if i < n - 1 {
                let f = first_of(before, keys[i]);
                first_is_there(before, keys[i]);
                assert(now[f].0 == keys[i]);
            }
        }
    }
}

/// Two groups have two keys, and each what its key has.
proof fn groups_differ<K>(keys: Seq<K>, values: Seq<u64>, n: int, k: int, i: int)
    requires
        0 <= n <= values.len(),
        n <= keys.len(),
        0 <= k < grouped(keys, values, n).len(),
    ensures
        grouped(keys, values, n)[k].1 == of_key(keys, values, grouped(keys, values, n)[k].0, n),
        0 <= i < grouped(keys, values, n).len() && i != k ==> grouped(keys, values, n)[i].0
            != grouped(keys, values, n)[k].0,
    decreases n, 1int,
{
    if k < i {
        grouping_keeps_the_time(keys, values, n, k, i);
    } else if i < k {
        grouping_keeps_the_time(keys, values, n, i, k);
    }
    grouping_keeps_the_time(keys, values, n, k, k);
}

/// A key without a group has no entry.
proof fn nothing_of<K>(keys: Seq<K>, values: Seq<u64>, key: K, n: int)
    requires
        0 <= n <= values.len(),
        n <= keys.len(),
        first_of(grouped(keys, values, n), key) >= grouped(keys, values, n).len(),
    ensures
        of_key(keys, values, key, n) == 0,
    decreases n, 1int,
{
    if n > 0 {
        let before = grouped(keys, values, n - 1);
        let now = grouped(keys, values, n);
        first_is_there(before, keys[n - 1]);
        first_is_there(before, key);
        first_is_there(now, key);
        let f = first_of(before, key);
        if f < before.len() {
            assert(now[f].0 == key);
        }
        let k = first_of(before, keys[n - 1]);
        assert(now[k].0 == keys[n - 1]);
        nothing_of(keys, values, key, n - 1);
    }
}

} // verus!
