//! A stable order by a pair of keys, largest first.

use vstd::prelude::*;

verus! {

/// Whether a key comes strictly before another: the larger first part, then the larger second.
pub open spec fn ahead(a: (u64, u64), b: (u64, u64)) -> bool {
    a.0 > b.0 || (a.0 == b.0 && a.1 > b.1)
}

/// `order` names every key once, larger keys first, and equal keys in their own order.
pub open spec fn in_order(keys: Seq<(u64, u64)>, order: Seq<usize>) -> bool {
    &&& order.len() == keys.len()
    &&& order.no_duplicates()
    &&& forall|i: int| 0 <= i < order.len() ==> #[trigger] order[i] < keys.len()
    &&& forall|i: int, j: int|
        0 <= i < j < order.len() ==> ahead(keys[order[i] as int], keys[order[j] as int]) || (
        keys[order[i] as int] == keys[order[j] as int] && order[i] < order[j])
}

/// The indices of the keys, larger keys first and equal keys in their own order.
pub fn descending(keys: &Vec<(u64, u64)>) -> (order: Vec<usize>)
    ensures
        in_order(keys@, order@),
{
    let mut order: Vec<usize> = Vec::new();
    let mut n: usize = 0;
    while n < keys.len()
        invariant
            n <= keys@.len(),
            in_order(keys@.take(n as int), order@),
        decreases keys@.len() - n,
    {
        let ghost old_keys = keys@.take(n as int);
        let ghost new_keys = keys@.take(n + 1);
        let ghost before = order@;
        let key = keys[n];
        let mut at: usize = order.len();
        while at > 0 && (key.0 > keys[order[at - 1]].0 || (key.0 == keys[order[at - 1]].0 && key.1
            > keys[order[at - 1]].1))
            invariant
                at <= order@.len(),
                order@ == before,
                n < keys@.len(),
                key == keys@[n as int],
                old_keys == keys@.take(n as int),
                in_order(old_keys, before),
                forall|j: int| at <= j < order@.len() ==> ahead(key, keys@[order@[j] as int]),
            decreases at,
        {
            assert(order@[at - 1] < old_keys.len());
            at -= 1;
        }
        order.insert(at, n);
        proof {
            let after = order@;
            assert(after == before.insert(at as int, n));
            assert forall|i: int| 0 <= i < after.len() implies #[trigger] after[i] < new_keys.len() by {
                if i < at {
                    assert(after[i] == before[i]);
                } else if i > at {
                    assert(after[i] == before[i - 1]);
                }
            }
            assert(after.no_duplicates()) by {
                assert forall|i: int, j: int| 0 <= i < j < after.len() implies after[i] != after[j] by {
                    let a = if i < at { i } else { i - 1 };
                    let b = if j < at { j } else { j - 1 };
                    if i != at {
                        assert(after[i] == before[a]);
                        assert(before[a] < old_keys.len());
                    }
                    if j != at {
                        assert(after[j] == before[b]);
                        assert(before[b] < old_keys.len());
                    }
                }
            }
            assert forall|i: int, j: int| 0 <= i < j < after.len() implies ahead(
                new_keys[after[i] as int],
                new_keys[after[j] as int],
            ) || (new_keys[after[i] as int] == new_keys[after[j] as int] && after[i] < after[j]) by {
                let a = if i < at { i } else { i - 1 };
                let b = if j < at { j } else { j - 1 };
                if i != at {
                    assert(after[i] == before[a]);
                    assert(before[a] < old_keys.len());
                }
                if j != at {
                    assert(after[j] == before[b]);
                    assert(before[b] < old_keys.len());
                }
                if j == at {
                    let last = before[at - 1];
                    assert(last < old_keys.len());
                    assert(!ahead(key, keys@[last as int]));
                    if i < at - 1 {
                        assert(ahead(old_keys[before[i] as int], old_keys[last as int]) || (
                        old_keys[before[i] as int] == old_keys[last as int]));
                    }
                }
            }
        }
        n += 1;
    }
    assert(keys@.take(n as int) =~= keys@);
    order
}

} // verus!
