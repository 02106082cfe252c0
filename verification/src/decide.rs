//! Handing rows to the device in batches, and what it gives back to the rows.

use crate::cache::{Entry, EntryView};
use crate::engine::Item;
use crate::split::{apart, batches, in_some};
use vstd::prelude::*;

verus! {

/// The tokens and markers of some rows.
pub fn sizes_at(items: &Vec<Item>, at: &Vec<usize>) -> (r: Vec<(usize, usize)>)
    requires
        forall|k: int| 0 <= k < at@.len() ==> #[trigger] at@[k] < items@.len(),
    ensures
        r@.len() == at@.len(),
        forall|k: int| #![trigger r@[k]]
            0 <= k < r@.len() ==> r@[k].0 == items@[at@[k] as int].ids@.len() && r@[k].1
                == items@[at@[k] as int].markers@.len(),
{
    let mut r: Vec<(usize, usize)> = Vec::new();
    let mut k: usize = 0;
    while k < at.len()
        invariant
            k <= at@.len(),
            forall|k: int| 0 <= k < at@.len() ==> #[trigger] at@[k] < items@.len(),
            r@.len() == k,
            forall|k: int| #![trigger r@[k]]
                0 <= k < r@.len() ==> r@[k].0 == items@[at@[k] as int].ids@.len() && r@[k].1
                    == items@[at@[k] as int].markers@.len(),
        decreases at@.len() - k,
    {
        let it = &items[at[k]];
        r.push((it.ids.len(), it.markers.len()));
        k += 1;
    }
    r
}

/// The rows of a batch, where the batch names places in a list of rows.
pub fn rows_at(rows: &Vec<usize>, batch: &Vec<usize>) -> (r: Vec<usize>)
    requires
        forall|k: int| 0 <= k < batch@.len() ==> #[trigger] batch@[k] < rows@.len(),
    ensures
        r@ == Seq::new(batch@.len(), |k: int| rows@[batch@[k] as int]),
{
    let mut r: Vec<usize> = Vec::new();
    let mut k: usize = 0;
    while k < batch.len()
        invariant
            k <= batch@.len(),
            forall|k: int| 0 <= k < batch@.len() ==> #[trigger] batch@[k] < rows@.len(),
            r@ == Seq::new(k as nat, |k: int| rows@[batch@[k] as int]),
        decreases batch@.len() - k,
    {
        r.push(rows[batch[k]]);
        k += 1;
        assert(r@ =~= Seq::new(k as nat, |k: int| rows@[batch@[k] as int]));
    }
    r
}

/// Every batch has an entry for each of its rows.
pub open spec fn answered(plan: Seq<Vec<usize>>, got: Seq<Vec<Entry>>) -> bool {
    &&& got.len() == plan.len()
    &&& forall|b: int| 0 <= b < plan.len() ==> (#[trigger] got[b])@.len() == plan[b]@.len()
}

/// Every row has the entry that its batch has for it.
pub open spec fn scattered(r: Seq<Entry>, plan: Seq<Vec<usize>>, got: Seq<Vec<Entry>>) -> bool {
    forall|b: int, k: int| #![trigger plan[b]@[k]]
        0 <= b < plan.len() && 0 <= k < plan[b]@.len() ==> r[plan[b]@[k] as int]@ == got[b]@[k]@
}

/// Gives every row its own entry. `plan` has each of `n` rows in one batch, and `got` what the
/// device gave for each row of each batch.
#[verifier::rlimit(40)]
pub fn scatter(n: usize, plan: &Vec<Vec<usize>>, got: &Vec<Vec<Entry>>) -> (r: Vec<Entry>)
    requires
        answered(plan@, got@),
        apart(batches(plan@)),
        forall|i: usize| #[trigger] in_some(batches(plan@), i) <==> i < n,
    ensures
        r@.len() == n,
        scattered(r@, plan@, got@),
{
    let ghost all = batches(plan@);
    // Where each row is: its batch and its place there.
    let mut place: Vec<(usize, usize)> = Vec::new();
    let mut i: usize = 0;
    while i < n
        invariant
            i <= n,
            place@.len() == i,
        decreases n - i,
    {
        place.push((0, 0));
        i += 1;
    }
    let mut b: usize = 0;
    while b < plan.len()
        invariant
            b <= plan@.len(),
            all == batches(plan@),
            apart(all),
            place@.len() == n,
            forall|i: usize| #[trigger] in_some(all, i) <==> i < n,
            forall|c: int, k: int| #![trigger plan@[c]@[k]]
                0 <= c < b && 0 <= k < plan@[c]@.len() ==> plan@[c]@[k] < n
                    && place@[plan@[c]@[k] as int].0 == c && place@[plan@[c]@[k] as int].1 == k,
        decreases plan@.len() - b,
    {
        let batch = &plan[b];
        let mut k: usize = 0;
        while k < batch.len()
            invariant
                k <= batch@.len(),
                b < plan@.len(),
                batch@ == plan@[b as int]@,
                all == batches(plan@),
                apart(all),
                place@.len() == n,
                forall|i: usize| #[trigger] in_some(all, i) <==> i < n,
                forall|c: int, j: int| #![trigger plan@[c]@[j]]
                    0 <= c < b && 0 <= j < plan@[c]@.len() ==> plan@[c]@[j] < n
                        && place@[plan@[c]@[j] as int].0 == c && place@[plan@[c]@[j] as int].1 == j,
                forall|j: int| #![trigger batch@[j]]
                    0 <= j < k ==> batch@[j] < n && place@[batch@[j] as int].0 == b
                        && place@[batch@[j] as int].1 == j,
            decreases batch@.len() - k,
        {
            let at: usize = batch[k];
            proof {
                assert(all[b as int] == batch@);
                assert(all[b as int].contains(at)) by {
                    assert(all[b as int][k as int] == at);
                }
                assert(in_some(all, at));
                assert forall|c: int, j: int| #![trigger plan@[c]@[j]]
                    0 <= c < b && 0 <= j < plan@[c]@.len() implies plan@[c]@[j] != at by {
                    if plan@[c]@[j] == at {
                        assert(all[c][j] == at);
                        assert(all[c].contains(at));
                    }
                }
                assert(all[b as int].no_duplicates());
                assert forall|j: int| #![trigger batch@[j]] 0 <= j < k implies batch@[j] != at by {
                    assert(all[b as int][j] == batch@[j]);
                }
            }
            place.set(at, (b, k));
            k += 1;
        }
        b += 1;
    }
    proof {
        // Every row has a place, and its batch has the row there.
        assert forall|i: int| 0 <= i < n implies ({
            let p = #[trigger] place@[i];
            p.0 < plan@.len() && p.1 < plan@[p.0 as int]@.len()
        }) by {
            assert(in_some(all, i as usize));
            let c = choose|c: int| 0 <= c < all.len() && (#[trigger] all[c]).contains(i as usize);
            let j = choose|j: int| 0 <= j < all[c].len() && all[c][j] == i as usize;
            assert(plan@[c]@[j] == i as usize);
        }
    }
    let mut r: Vec<Entry> = Vec::new();
    let mut m: usize = 0;
    while m < n
        invariant
            m <= n,
            place@.len() == n,
            answered(plan@, got@),
            forall|i: int|
                0 <= i < n ==> ({
                    let p = #[trigger] place@[i];
                    p.0 < plan@.len() && p.1 < plan@[p.0 as int]@.len()
                }),
            r@.len() == m,
            forall|i: int| #![trigger r@[i]]
                0 <= i < m ==> r@[i]@ == got@[place@[i].0 as int]@[place@[i].1 as int]@,
        decreases n - m,
    {
        let (c, k): (usize, usize) = place[m];
        assert(got@[c as int]@.len() == plan@[c as int]@.len());
        r.push(got[c][k].copy());
        m += 1;
    }
    assert forall|c: int, k: int| #![trigger plan@[c]@[k]]
        0 <= c < plan@.len() && 0 <= k < plan@[c]@.len() implies r@[plan@[c]@[k] as int]@
        == got@[c]@[k]@ by {
        let at = plan@[c]@[k] as int;
        assert(place@[at].0 == c && place@[at].1 == k);
    }
    r
}

/// An answer does not depend on what else is in its batch: where the device answers every row by
/// itself, every row gets the device's answer for it, whatever the batches are.
pub proof fn an_answer_does_not_depend_on_its_batch(
    items: Seq<Item>,
    plan: Seq<Vec<usize>>,
    got: Seq<Vec<Entry>>,
    r: Seq<Entry>,
    f: spec_fn(Seq<u32>, Seq<u32>, int) -> EntryView,
    i: int,
)
    requires
        items.len() <= usize::MAX,
        scattered(r, plan, got),
        forall|i: usize| #[trigger] in_some(batches(plan), i) <==> i < items.len(),
        forall|b: int, k: int| #![trigger plan[b]@[k]]
            0 <= b < plan.len() && 0 <= k < plan[b]@.len() ==> {
                let it = items[plan[b]@[k] as int];
                got[b]@[k]@ == f(it.ids@, it.markers@, it.qtype.number() as int)
            },
        0 <= i < items.len(),
    ensures
        r[i]@ == f(items[i].ids@, items[i].markers@, items[i].qtype.number() as int),
{
    let all = batches(plan);
    assert(in_some(all, i as usize));
    let c = choose|c: int| 0 <= c < all.len() && (#[trigger] all[c]).contains(i as usize);
    let j = choose|j: int| 0 <= j < all[c].len() && all[c][j] == i as usize;
    assert(plan[c]@[j] == i as usize);
}

} // verus!
