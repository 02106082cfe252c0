//! The answer cache. A question's answer depends only on its own row of token ids, its option
//! markers and its type, so one entry is what the device gave for one row, keyed by the hash of
//! what went to the device.
//!
//! Eviction keeps two generations: new entries go in the young one, and when it is full the old one
//! is dropped and the young one takes its place. A hit in the old generation moves the entry back
//! to the young one, so what is used stays in.

use std::collections::HashMap;
use vstd::bytes::*;
use vstd::prelude::*;

verus! {

/// What the device gave for one row, as the bits of its numbers.
#[derive(Debug, Clone, PartialEq)]
pub struct Entry {
    /// The option logits.
    pub logits: Vec<u32>,
    /// The act logits.
    pub act: [u32; 2],
}

/// An entry, as plain values.
pub ghost struct EntryView {
    /// The option logits.
    pub logits: Seq<u32>,
    /// The act logits.
    pub act: Seq<u32>,
}

impl View for Entry {
    type V = EntryView;

    open spec fn view(&self) -> EntryView {
        EntryView { logits: self.logits@, act: self.act@ }
    }
}

impl Entry {
    /// The same entry.
    pub fn copy(&self) -> (r: Entry)
        ensures
            r@ == self@,
    {
        let mut logits: Vec<u32> = Vec::new();
        let mut i: usize = 0;
        while i < self.logits.len()
            invariant
                i <= self.logits@.len(),
                logits@ == self.logits@.take(i as int),
            decreases self.logits@.len() - i,
        {
            logits.push(self.logits[i]);
            i += 1;
            assert(logits@ =~= self.logits@.take(i as int));
        }
        assert(self.logits@.take(i as int) =~= self.logits@);
        let act: [u32; 2] = [self.act[0], self.act[1]];
        assert(act@ =~= self.act@);
        Entry { logits, act }
    }
}

/// How a request uses the cache.
#[derive(Debug, Clone, Copy, PartialEq, Eq, Structural)]
pub enum CacheMode {
    /// Answers from the cache when it can and keeps what it computes.
    Use,
    /// Neither reads nor writes the cache.
    Bypass,
    /// Computes every answer and overwrites the cache with it.
    Refresh,
}

impl Default for CacheMode {
    fn default() -> (r: Self)
        ensures
            r == CacheMode::Use,
    {
        CacheMode::Use
    }
}

impl CacheMode {
    /// The mode of a name.
    pub open spec fn named(s: Seq<char>) -> Option<CacheMode> {
        if s == "use"@ {
            Some(CacheMode::Use)
        } else if s == "bypass"@ {
            Some(CacheMode::Bypass)
        } else if s == "refresh"@ {
            Some(CacheMode::Refresh)
        } else {
            None
        }
    }

    /// The mode that `"use"`, `"bypass"` or `"refresh"` names.
    pub fn parse(s: &str) -> (r: Option<CacheMode>)
        ensures
            r == CacheMode::named(s@),
    {
        if crate::text::same(s, "use") {
            Some(CacheMode::Use)
        } else if crate::text::same(s, "bypass") {
            Some(CacheMode::Bypass)
        } else if crate::text::same(s, "refresh") {
            Some(CacheMode::Refresh)
        } else {
            None
        }
    }
}

/// Hits and misses since the model loaded, and what the cache holds now.
#[derive(Debug, Clone, Copy, PartialEq, Eq, Structural)]
pub struct CacheStats {
    /// The most answers it holds, 0 when it is off.
    pub capacity: usize,
    /// Answers it holds.
    pub entries: usize,
    /// Questions answered from it.
    pub hits: u64,
    /// Questions looked up and not found, then computed.
    pub misses: u64,
}

impl Default for CacheStats {
    fn default() -> (r: Self)
        ensures
            r == (CacheStats { capacity: 0, entries: 0, hits: 0, misses: 0 }),
    {
        CacheStats { capacity: 0, entries: 0, hits: 0, misses: 0 }
    }
}

/// Words as bytes, least significant first.
pub open spec fn words_bytes(v: Seq<u32>) -> Seq<u8>
    decreases v.len(),
{
    if v.len() == 0 {
        seq![]
    } else {
        words_bytes(v.drop_last()) + spec_u32_to_le_bytes(v.last())
    }
}

/// What a row's key is the hash of: its type, how many ids it has, the ids and the markers.
pub open spec fn row_bytes(ids: Seq<u32>, markers: Seq<u32>, qtype: u8) -> Seq<u8> {
    seq![qtype] + spec_u64_to_le_bytes(ids.len() as u64) + words_bytes(ids) + words_bytes(markers)
}

/// The blake3 hash of some bytes: `blake3::hash`.
pub uninterp spec fn blake3_of(bytes: Seq<u8>) -> Seq<u8>;

/// `blake3::hash`: the 32 byte hash of the bytes, a function of the bytes alone.
#[verifier::external_body]
fn blake3_hash(bytes: &Vec<u8>) -> (r: [u8; 32])
    ensures
        r@ == blake3_of(bytes@),
{
    *blake3::hash(bytes).as_bytes()
}

/// Appends words as bytes.
fn push_words(out: &mut Vec<u8>, v: &Vec<u32>)
    ensures
        final(out)@ == old(out)@ + words_bytes(v@),
{
    let ghost before = out@;
    let mut i: usize = 0;
    assert(v@.take(0) =~= seq![]);
    assert(out@ =~= before + words_bytes(v@.take(0)));
    while i < v.len()
        invariant
            i <= v@.len(),
            out@ == before + words_bytes(v@.take(i as int)),
        decreases v@.len() - i,
    {
        let ghost so_far = out@;
        let mut w = u32_to_le_bytes(v[i]);
        let ghost added = w@;
        out.append(&mut w);
        i += 1;
        proof {
            let t = v@.take(i as int);
            assert(t.drop_last() =~= v@.take(i - 1));
            assert(out@ =~= before + words_bytes(t));
        }
    }
    assert(v@.take(i as int) =~= v@);
}

/// The bytes of words are four each.
proof fn words_len(v: Seq<u32>)
    ensures
        words_bytes(v).len() == 4 * v.len(),
    decreases v.len(),
{
    lemma_auto_spec_u32_to_from_le_bytes();
    if v.len() > 0 {
        words_len(v.drop_last());
    }
}

/// Words with the same bytes are the same.
proof fn words_apart(v: Seq<u32>, w: Seq<u32>)
    requires
        words_bytes(v) == words_bytes(w),
    ensures
        v == w,
    decreases v.len(),
{
    words_len(v);
    words_len(w);
    lemma_auto_spec_u32_to_from_le_bytes();
    if v.len() > 0 {
        let (a, b) = (words_bytes(v.drop_last()), words_bytes(w.drop_last()));
        let (x, y) = (spec_u32_to_le_bytes(v.last()), spec_u32_to_le_bytes(w.last()));
        words_len(v.drop_last());
        words_len(w.drop_last());
        let all = words_bytes(v);
        assert(all.subrange(0, a.len() as int) =~= a);
        assert(words_bytes(w).subrange(0, a.len() as int) =~= b);
        assert(all.subrange(a.len() as int, all.len() as int) =~= x);
        assert(words_bytes(w).subrange(a.len() as int, all.len() as int) =~= y);
        words_apart(v.drop_last(), w.drop_last());
        assert(spec_u32_from_le_bytes(x) == v.last());
        assert(spec_u32_from_le_bytes(y) == w.last());
        assert(v =~= v.drop_last().push(v.last()));
        assert(w =~= w.drop_last().push(w.last()));
    } else {
        assert(v =~= w);
    }
}

/// Different rows never have the same bytes: rows with the same bytes have the same type, ids and
/// markers.
pub proof fn rows_have_their_own_bytes(
    ids: Seq<u32>,
    markers: Seq<u32>,
    qtype: u8,
    ids2: Seq<u32>,
    markers2: Seq<u32>,
    qtype2: u8,
)
    requires
        ids.len() <= u64::MAX,
        ids2.len() <= u64::MAX,
        row_bytes(ids, markers, qtype) == row_bytes(ids2, markers2, qtype2),
    ensures
        qtype == qtype2,
        ids == ids2,
        markers == markers2,
{
    let (a, b) = (row_bytes(ids, markers, qtype), row_bytes(ids2, markers2, qtype2));
    lemma_auto_spec_u64_to_from_le_bytes();
    words_len(ids);
    words_len(ids2);
    words_len(markers);
    words_len(markers2);
    assert(a[0] == qtype && b[0] == qtype2);
    let (n, m) = (spec_u64_to_le_bytes(ids.len() as u64), spec_u64_to_le_bytes(ids2.len() as u64));
    assert(a.subrange(1, 9) =~= n);
    assert(b.subrange(1, 9) =~= m);
    assert(spec_u64_from_le_bytes(n) == ids.len() as u64);
    assert(spec_u64_from_le_bytes(m) == ids2.len() as u64);
    assert(ids.len() == ids2.len());
    let end = 9 + 4 * ids.len();
    assert(a.subrange(9, end as int) =~= words_bytes(ids));
    assert(b.subrange(9, end as int) =~= words_bytes(ids2));
    words_apart(ids, ids2);
    assert(a.subrange(end as int, a.len() as int) =~= words_bytes(markers));
    assert(b.subrange(end as int, a.len() as int) =~= words_bytes(markers2));
    words_apart(markers, markers2);
}

/// Where a key is looked for: its first eight bytes as a number.
pub open spec fn slot(k: Seq<u8>) -> u64 {
    spec_u64_from_le_bytes(k.subrange(0, 8))
}

/// Where a key is looked for.
fn slot_of(k: &[u8; 32]) -> (r: u64)
    ensures
        r == slot(k@),
{
    let mut v: Vec<u8> = Vec::new();
    let mut i: usize = 0;
    while i < 8
        invariant
            i <= 8,
            v@ == k@.subrange(0, i as int),
        decreases 8 - i,
    {
        v.push(k[i]);
        i += 1;
        assert(v@ =~= k@.subrange(0, i as int));
    }
    u64_from_le_bytes(v.as_slice())
}

/// Whether two keys are the same.
fn same_key(a: &[u8; 32], b: &[u8; 32]) -> (r: bool)
    ensures
        r == (a@ == b@),
{
    let mut i: usize = 0;
    while i < 32
        invariant
            i <= 32,
            forall|k: int| 0 <= k < i ==> a@[k] == b@[k],
        decreases 32 - i,
    {
        if a[i] != b[i] {
            return false;
        }
        i += 1;
    }
    assert(a@ =~= b@);
    true
}

/// The index of a key in a chain, or the length.
spec fn chain_at(c: Seq<([u8; 32], Entry)>, k: Seq<u8>) -> int
    decreases c.len(),
{
    if c.len() == 0 {
        0
    } else if c[0].0@ == k {
        0
    } else {
        1 + chain_at(c.drop_first(), k)
    }
}

/// The first place of a key.
proof fn chain_first(c: Seq<([u8; 32], Entry)>, k: Seq<u8>, i: int)
    requires
        0 <= i <= c.len(),
        forall|j: int| 0 <= j < i ==> c[j].0@ != k,
        i < c.len() ==> c[i].0@ == k,
    ensures
        chain_at(c, k) == i,
    decreases c.len(),
{
    if i > 0 {
        assert(c[0].0@ != k);
        chain_first(c.drop_first(), k, i - 1);
    }
}

/// A key has a place in a chain, or none.
proof fn chain_bound(c: Seq<([u8; 32], Entry)>, k: Seq<u8>)
    ensures
        0 <= chain_at(c, k) <= c.len(),
        chain_at(c, k) < c.len() ==> c[chain_at(c, k)].0@ == k,
        forall|j: int| 0 <= j < chain_at(c, k) ==> c[j].0@ != k,
    decreases c.len(),
{
    if c.len() > 0 && c[0].0@ != k {
        let rest = c.drop_first();
        chain_bound(rest, k);
        assert forall|j: int| 0 <= j < chain_at(c, k) implies c[j].0@ != k by {
            if j > 0 {
                assert(c[j] == rest[j - 1]);
            }
        }
    }
}

/// The chain of a key.
spec fn chain_of(m: Map<u64, Vec<([u8; 32], Entry)>>, k: Seq<u8>) -> Seq<([u8; 32], Entry)> {
    if m.contains_key(slot(k)) {
        m[slot(k)]@
    } else {
        seq![]
    }
}

/// One generation of entries, in chains by slot.
#[derive(Debug)]
pub struct Generation {
    chains: HashMap<u64, Vec<([u8; 32], Entry)>>,
    count: usize,
}

impl View for Generation {
    type V = Map<Seq<u8>, EntryView>;

    closed spec fn view(&self) -> Map<Seq<u8>, EntryView> {
        Map::new(
            |k: Seq<u8>| chain_at(chain_of(self.chains@, k), k) < chain_of(self.chains@, k).len(),
            |k: Seq<u8>|
                chain_of(self.chains@, k)[chain_at(chain_of(self.chains@, k), k)].1@,
        )
    }
}

impl Generation {
    /// Keys are in the chain of their slot, each once, and as many as counted.
    pub closed spec fn wf(&self) -> bool {
        &&& self@.dom().finite()
        &&& self.count == self@.dom().len()
        &&& forall|h: u64, i: int, j: int|
            self.chains@.contains_key(h) && 0 <= i < j < self.chains@[h]@.len()
                ==> #[trigger] self.chains@[h]@[i].0@ != #[trigger] self.chains@[h]@[j].0@
        &&& forall|h: u64, i: int|
            self.chains@.contains_key(h) && 0 <= i < self.chains@[h]@.len() ==> slot(
                #[trigger] self.chains@[h]@[i].0@,
            ) == h
    }

    /// An empty generation.
    pub fn new() -> (r: Self)
        ensures
            r.wf(),
            r@ == Map::<Seq<u8>, EntryView>::empty(),
    {
        broadcast use vstd::std_specs::hash::group_hash_axioms;

        let r = Generation { chains: HashMap::new(), count: 0 };
        assert(r@ =~= Map::<Seq<u8>, EntryView>::empty());
        r
    }

    /// How many entries it has.
    pub fn len(&self) -> (n: usize)
        requires
            self.wf(),
        ensures
            n == self@.dom().len(),
    {
        self.count
    }

    /// The entry of a key.
    pub fn get(&self, k: &[u8; 32]) -> (r: Option<&Entry>)
        requires
            self.wf(),
        ensures
            match r {
                Some(e) => self@.contains_key(k@) && self@[k@] == e@,
                None => !self@.contains_key(k@),
            },
    {
        broadcast use vstd::std_specs::hash::group_hash_axioms;

        let h: u64 = slot_of(k);
        match self.chains.get(&h) {
            None => None,
            Some(c) => {
                let i: usize = find(c, k);
                if i < c.len() {
                    Some(&c[i].1)
                } else {
                    None
                }
            },
        }
    }

    /// Sets the entry of a key.
    pub fn insert(&mut self, k: [u8; 32], e: Entry)
        requires
            old(self).wf(),
            old(self)@.dom().len() < usize::MAX,
        ensures
            final(self).wf(),
            final(self)@ == old(self)@.insert(k@, e@),
    {
        broadcast use vstd::std_specs::hash::group_hash_axioms;

        let ghost before = *self;
        let ghost shown = e@;
        let h: u64 = slot_of(&k);
        let mut c: Vec<([u8; 32], Entry)> = match self.chains.remove(&h) {
            Some(c) => c,
            None => Vec::new(),
        };
        let ghost was = c@;
        assert(was =~= chain_of(before.chains@, k@));
        let i: usize = find(&c, &k);
        if i < c.len() {
            c.set(i, (k, e));
        } else {
            c.push((k, e));
            self.count = self.count + 1;
        }
        let ghost now = c@;
        self.chains.insert(h, c);
        proof {
            chain_set(was, now, k, e, i as int);
            assert(self.chains@ =~= before.chains@.insert(h, c));
            let want = before@.insert(k@, shown);
            assert forall|q: Seq<u8>| #[trigger] self@.contains_key(q) == want.contains_key(q) && (
            self@.contains_key(q) ==> self@[q] == want[q]) by {
                if slot(q) == h {
                    assert(chain_of(self.chains@, q) == now);
                    assert(chain_of(before.chains@, q) =~= was);
                    chain_lookup(was, now, k, e, i as int, q);
                } else {
                    assert(chain_of(self.chains@, q) == chain_of(before.chains@, q));
                }
            }
            assert(self@ =~= want);
            assert(before@.contains_key(k@) == (i < was.len()));
        }
    }

    /// Takes the entry of a key out.
    pub fn remove(&mut self, k: &[u8; 32]) -> (r: Option<Entry>)
        requires
            old(self).wf(),
        ensures
            final(self).wf(),
            final(self)@ == old(self)@.remove(k@),
            match r {
                Some(e) => old(self)@.contains_key(k@) && old(self)@[k@] == e@,
                None => !old(self)@.contains_key(k@),
            },
    {
        broadcast use vstd::std_specs::hash::group_hash_axioms;

        let ghost before = *self;
        let h: u64 = slot_of(k);
        let mut c: Vec<([u8; 32], Entry)> = match self.chains.remove(&h) {
            Some(c) => c,
            None => {
                assert(self.chains@ =~= before.chains@);
                assert(self@ =~= before@);
                assert(before@ =~= before@.remove(k@));
                return None;
            },
        };
        let ghost was = c@;
        let i: usize = find(&c, k);
        if i >= c.len() {
            self.chains.insert(h, c);
            proof {
                assert(self.chains@ =~= before.chains@);
                assert(self@ =~= before@);
                assert(before@ =~= before@.remove(k@));
            }
            return None;
        }
        let (_, e) = c.remove(i);
        let ghost now = c@;
        self.chains.insert(h, c);
        proof {
            assert(chain_of(before.chains@, k@) == was);
            assert(before@.dom().contains(k@));
            assert(before@.dom().remove(k@).len() + 1 == before@.dom().len());
        }
        self.count = self.count - 1;
        proof {
            assert(now =~= was.remove(i as int));
            assert(self.chains@ =~= before.chains@.insert(h, c));
            let want = before@.remove(k@);
            assert forall|q: Seq<u8>| #[trigger] self@.contains_key(q) == want.contains_key(q) && (
            self@.contains_key(q) ==> self@[q] == want[q]) by {
                if slot(q) == h {
                    assert(chain_of(self.chains@, q) == now);
                    assert(chain_of(before.chains@, q) == was);
                    chain_without(was, now, i as int, q);
                } else {
                    assert(chain_of(self.chains@, q) == chain_of(before.chains@, q));
                }
            }
            assert(self@ =~= want);
            assert forall|g: u64, a: int, b: int|
                self.chains@.contains_key(g) && 0 <= a < b
                    < self.chains@[g]@.len() implies #[trigger] self.chains@[g]@[a].0@
                != #[trigger] self.chains@[g]@[b].0@ by {
                if g == h {
                    let x = if a < i { a } else { a + 1 };
                    let y = if b < i { b } else { b + 1 };
                    assert(now[a] == was[x] && now[b] == was[y]);
                    assert(before.chains@[h]@[x].0@ != before.chains@[h]@[y].0@);
                }
            }
            assert forall|g: u64, a: int|
                self.chains@.contains_key(g) && 0 <= a < self.chains@[g]@.len() implies slot(
                #[trigger] self.chains@[g]@[a].0@,
            ) == g by {
                if g == h {
                    let x = if a < i { a } else { a + 1 };
                    assert(now[a] == was[x]);
                    assert(slot(before.chains@[h]@[x].0@) == h);
                }
            }
        }
        Some(e)
    }
}

/// The place of a key in a chain.
fn find(c: &Vec<([u8; 32], Entry)>, k: &[u8; 32]) -> (i: usize)
    ensures
        i <= c@.len(),
        i == chain_at(c@, k@),
        i < c@.len() ==> c@[i as int].0@ == k@,
        forall|j: int| 0 <= j < i ==> c@[j].0@ != k@,
{
    let mut i: usize = 0;
    while i < c.len() && !same_key(&c[i].0, k)
        invariant
            i <= c@.len(),
            forall|j: int| 0 <= j < i ==> c@[j].0@ != k@,
        decreases c@.len() - i,
    {
        i += 1;
    }
    proof {
        chain_first(c@, k@, i as int);
    }
    i
}

/// A chain with a key set still has each key once.
proof fn chain_set(
    was: Seq<([u8; 32], Entry)>,
    now: Seq<([u8; 32], Entry)>,
    k: [u8; 32],
    e: Entry,
    i: int,
)
    requires
        0 <= i <= was.len(),
        i == chain_at(was, k@),
        now == if i < was.len() {
            was.update(i, (k, e))
        } else {
            was.push((k, e))
        },
        forall|a: int, b: int|
            0 <= a < b < was.len() ==> #[trigger] was[a].0@ != #[trigger] was[b].0@,
        forall|a: int| 0 <= a < was.len() ==> slot(#[trigger] was[a].0@) == slot(k@),
    ensures
        forall|a: int, b: int|
            0 <= a < b < now.len() ==> #[trigger] now[a].0@ != #[trigger] now[b].0@,
        forall|a: int| 0 <= a < now.len() ==> slot(#[trigger] now[a].0@) == slot(k@),
{
    chain_bound(was, k@);
    assert forall|a: int, b: int| 0 <= a < b < now.len() implies #[trigger] now[a].0@
        != #[trigger] now[b].0@ by {
        if a < was.len() && b < was.len() {
            assert(was[a].0@ != was[b].0@);
        }
    }
}

/// What a chain with a key set holds.
proof fn chain_lookup(
    was: Seq<([u8; 32], Entry)>,
    now: Seq<([u8; 32], Entry)>,
    k: [u8; 32],
    e: Entry,
    i: int,
    q: Seq<u8>,
)
    requires
        0 <= i <= was.len(),
        i == chain_at(was, k@),
        now == if i < was.len() {
            was.update(i, (k, e))
        } else {
            was.push((k, e))
        },
    ensures
        ({
            let (a, b) = (chain_at(was, q), chain_at(now, q));
            if q == k@ {
                b < now.len() && now[b].1 == e
            } else {
                (b < now.len() <==> a < was.len()) && (a < was.len() ==> now[b].1 == was[a].1)
            }
        }),
{
    chain_bound(was, k@);
    chain_bound(was, q);
    if q == k@ {
        chain_first(now, q, i);
    } else {
        let a = chain_at(was, q);
        if a < was.len() {
            chain_first(now, q, a);
        } else {
            chain_first(now, q, now.len() as int);
        }
    }
}

/// What a chain without one of its keys holds.
proof fn chain_without(was: Seq<([u8; 32], Entry)>, now: Seq<([u8; 32], Entry)>, i: int, q: Seq<u8>)
    requires
        0 <= i < was.len(),
        now == was.remove(i),
        forall|a: int, b: int|
            0 <= a < b < was.len() ==> #[trigger] was[a].0@ != #[trigger] was[b].0@,
    ensures
        ({
            let (a, b) = (chain_at(was, q), chain_at(now, q));
            if q == was[i].0@ {
                b >= now.len()
            } else {
                (b < now.len() <==> a < was.len()) && (a < was.len() ==> now[b].1 == was[a].1)
            }
        }),
{
    chain_bound(was, q);
    let a = chain_at(was, q);
    assert forall|j: int| 0 <= j < now.len() implies now[j] == was[if j < i {
        j
    } else {
        j + 1
    }] by {}
    if q == was[i].0@ {
        assert forall|j: int| 0 <= j < now.len() implies now[j].0@ != q by {
            let x = if j < i { j } else { j + 1 };
            assert(now[j] == was[x]);
            if x < i {
                assert(was[x].0@ != was[i].0@);
            } else {
                assert(was[i].0@ != was[x].0@);
            }
        }
        chain_first(now, q, now.len() as int);
    } else if a < was.len() {
        let b = if a < i { a } else { a - 1 };
        assert(now[b] == was[a]);
        assert forall|j: int| 0 <= j < b implies now[j].0@ != q by {
            let x = if j < i { j } else { j + 1 };
            assert(now[j] == was[x]);
        }
        chain_first(now, q, b);
    } else {
        assert forall|j: int| 0 <= j < now.len() implies now[j].0@ != q by {
            let x = if j < i { j } else { j + 1 };
            assert(now[j] == was[x]);
        }
        chain_first(now, q, now.len() as int);
    }
}

/// The two generations, as plain values.
pub ghost struct Held {
    /// The young generation.
    pub young: Map<Seq<u8>, EntryView>,
    /// The old generation.
    pub old: Map<Seq<u8>, EntryView>,
}

/// The entry of a key, wherever it is.
pub open spec fn found(g: Held, k: Seq<u8>) -> Option<EntryView> {
    if g.young.contains_key(k) {
        Some(g.young[k])
    } else if g.old.contains_key(k) {
        Some(g.old[k])
    } else {
        None
    }
}

/// The generations with an entry put in the young one. When that is full and the key is new, the
/// young one takes the place of the old one first.
pub open spec fn put(g: Held, half: int, k: Seq<u8>, e: EntryView) -> Held {
    if g.young.dom().len() >= half && !g.young.contains_key(k) {
        Held { young: Map::<Seq<u8>, EntryView>::empty().insert(k, e), old: g.young }
    } else {
        Held { young: g.young.insert(k, e), old: g.old }
    }
}

/// The generations without a key in the old one.
pub open spec fn forget_old(g: Held, k: Seq<u8>) -> Held {
    Held { young: g.young, old: g.old.remove(k) }
}

/// The generations after a lookup: an entry of the old one moves to the young one.
pub open spec fn looked(g: Held, half: int, k: Seq<u8>) -> Held {
    if !g.young.contains_key(k) && g.old.contains_key(k) {
        put(forget_old(g, k), half, k, g.old[k])
    } else {
        g
    }
}

/// The generations after the first `n` lookups.
pub open spec fn looked_all(g: Held, half: int, keys: Seq<[u8; 32]>, n: int) -> Held
    decreases n,
{
    if n <= 0 {
        g
    } else {
        looked(looked_all(g, half, keys, n - 1), half, keys[n - 1]@)
    }
}

/// What the lookups find, each after those before it.
pub open spec fn answers(g: Held, half: int, keys: Seq<[u8; 32]>) -> Seq<Option<EntryView>> {
    Seq::new(keys.len(), |i: int| found(looked_all(g, half, keys, i), keys[i]@))
}

/// How many of the first `n` answers there are.
pub open spec fn count_found(a: Seq<Option<EntryView>>, n: int) -> int
    decreases n,
{
    if n <= 0 {
        0
    } else {
        count_found(a, n - 1) + (if a[n - 1] is Some {
            1int
        } else {
            0
        })
    }
}

/// The generations after an entry is kept, replacing any already there.
pub open spec fn kept(g: Held, half: int, k: Seq<u8>, e: EntryView) -> Held {
    put(forget_old(g, k), half, k, e)
}

/// Keys and their entries, as plain values.
pub open spec fn pairs(v: Seq<([u8; 32], Entry)>) -> Seq<(Seq<u8>, EntryView)> {
    Seq::new(v.len(), |i: int| (v[i].0@, v[i].1@))
}

/// The generations after the first `n` entries are kept.
pub open spec fn kept_all(g: Held, half: int, v: Seq<(Seq<u8>, EntryView)>, n: int) -> Held
    decreases n,
{
    if n <= 0 {
        g
    } else {
        kept(kept_all(g, half, v, n - 1), half, v[n - 1].0, v[n - 1].1)
    }
}

/// An entry that may be there, as plain values.
pub open spec fn maybe_view(e: Option<Entry>) -> Option<EntryView> {
    match e {
        Some(e) => Some(e@),
        None => None,
    }
}

/// Entries that may be there, as plain values.
pub open spec fn maybe_views(v: Seq<Option<Entry>>) -> Seq<Option<EntryView>> {
    Seq::new(v.len(), |i: int| maybe_view(v[i]))
}

/// The generations are no larger than `half` each, and share no key.
pub open spec fn fits(g: Held, half: int) -> bool {
    &&& g.young.dom().finite()
    &&& g.old.dom().finite()
    &&& g.young.dom().len() <= half
    &&& g.old.dom().len() <= half
    &&& forall|k: Seq<u8>| #[trigger] g.young.contains_key(k) ==> !g.old.contains_key(k)
}

/// The answer cache.
#[derive(Debug)]
pub struct AnswerCache {
    half: usize,
    young: Generation,
    old: Generation,
    hits: u64,
    misses: u64,
}

impl AnswerCache {
    /// The generations.
    pub closed spec fn held(&self) -> Held {
        Held { young: self.young@, old: self.old@ }
    }

    /// The most entries in one generation.
    pub closed spec fn spec_half(&self) -> int {
        self.half as int
    }

    /// Questions answered from it.
    pub closed spec fn spec_hits(&self) -> u64 {
        self.hits
    }

    /// Questions looked up and not found.
    pub closed spec fn spec_misses(&self) -> u64 {
        self.misses
    }

    /// The generations are counted and fit.
    pub closed spec fn wf(&self) -> bool {
        &&& self.young.wf()
        &&& self.old.wf()
        &&& 1 <= self.half <= usize::MAX / 2
        &&& fits(self.held(), self.half as int)
    }

    /// A cache for about `capacity` answers. It holds between half of that and all of it.
    pub fn new(capacity: usize) -> (r: Self)
        requires
            capacity < usize::MAX,
        ensures
            r.wf(),
            r.spec_half() == if capacity < 2 {
                1
            } else {
                (capacity + 1) as int / 2
            },
            r.held() == (Held {
                young: Map::<Seq<u8>, EntryView>::empty(),
                old: Map::<Seq<u8>, EntryView>::empty(),
            }),
            r.spec_hits() == 0,
            r.spec_misses() == 0,
    {
        let half: usize = if capacity < 2 {
            1
        } else {
            capacity / 2 + capacity % 2
        };
        AnswerCache { half, young: Generation::new(), old: Generation::new(), hits: 0, misses: 0 }
    }

    /// The key of a row: the hash of its type, how many ids it has, the ids and the markers.
    pub fn key(ids: &Vec<u32>, markers: &Vec<u32>, qtype: u8) -> (r: [u8; 32])
        ensures
            r@ == blake3_of(row_bytes(ids@, markers@, qtype)),
    {
        let mut out: Vec<u8> = Vec::new();
        out.push(qtype);
        let mut n = u64_to_le_bytes(ids.len() as u64);
        let ghost nv = n@;
        out.append(&mut n);
        push_words(&mut out, ids);
        push_words(&mut out, markers);
        assert(out@ =~= row_bytes(ids@, markers@, qtype));
        blake3_hash(&out)
    }

    /// Puts an entry in the young generation.
    fn put(&mut self, k: [u8; 32], e: Entry)
        requires
            old(self).wf(),
            !old(self).held().old.contains_key(k@),
        ensures
            final(self).wf(),
            final(self).held() == put(old(self).held(), old(self).spec_half(), k@, e@),
            final(self).spec_half() == old(self).spec_half(),
            final(self).spec_hits() == old(self).spec_hits(),
            final(self).spec_misses() == old(self).spec_misses(),
    {
        let ghost before = self.held();
        let ghost shown = e@;
        if self.young.len() >= self.half && self.young.get(&k).is_none() {
            let mut fresh = Generation::new();
            core::mem::swap(&mut self.young, &mut fresh);
            self.old = fresh;
        }
        self.young.insert(k, e);
        proof {
            put_fits(before, self.half as int, k@, shown);
        }
    }

    /// The entries for `keys`, in order, with `None` for each miss. The counts go up.
    pub fn get(&mut self, keys: &Vec<[u8; 32]>) -> (r: Vec<Option<Entry>>)
        requires
            old(self).wf(),
        ensures
            final(self).wf(),
            final(self).held() == looked_all(
                old(self).held(),
                old(self).spec_half(),
                keys@,
                keys@.len() as int,
            ),
            final(self).spec_half() == old(self).spec_half(),
            maybe_views(r@) == answers(old(self).held(), old(self).spec_half(), keys@),
            ({
                let n = count_found(maybe_views(r@), r@.len() as int);
                &&& 0 <= n <= keys@.len()
                &&& final(self).spec_hits() == old(self).spec_hits().wrapping_add(n as u64)
                &&& final(self).spec_misses() == old(self).spec_misses().wrapping_add(
                    (keys@.len() - n) as u64,
                )
            }),
    {
        let ghost start = self.held();
        let ghost half = self.spec_half();
        let mut out: Vec<Option<Entry>> = Vec::new();
        let mut hits: u64 = 0;
        let mut i: usize = 0;
        assert(maybe_views(out@) =~= answers(start, half, keys@).take(0));
        while i < keys.len()
            invariant
                i <= keys@.len(),
                self.wf(),
                half == self.spec_half(),
                self.spec_hits() == old(self).spec_hits(),
                self.spec_misses() == old(self).spec_misses(),
                out@.len() == i,
                self.held() == looked_all(start, half, keys@, i as int),
                maybe_views(out@) == answers(start, half, keys@).take(i as int),
                0 <= hits <= i,
                hits == count_found(maybe_views(out@), i as int),
            decreases keys@.len() - i,
        {
            let ghost so_far = maybe_views(out@);
            let ghost now = self.held();
            let k = &keys[i];
            let e: Option<Entry> = match self.young.get(k) {
                Some(e) => Some(e.copy()),
                None => match self.old.remove(k) {
                    None => {
                        assert(now.old =~= now.old.remove(k@));
                        None
                    },
                    Some(e) => {
                        let c = e.copy();
                        proof {
                            forget_fits(now, half, k@);
                        }
                        self.put(*k, c);
                        Some(e)
                    },
                },
            };
            let ghost shown = maybe_view(e);
            assert(shown == found(now, k@));
            if e.is_some() {
                hits = hits + 1;
            }
            out.push(e);
            i += 1;
            assert(maybe_views(out@) =~= so_far.push(shown));
            proof {
                count_same(so_far, maybe_views(out@), i - 1);
            }
            assert(maybe_views(out@) =~= answers(start, half, keys@).take(i as int));
        }
        assert(answers(start, half, keys@).take(i as int) =~= answers(start, half, keys@));
        self.hits = self.hits.wrapping_add(hits);
        self.misses = self.misses.wrapping_add(keys.len() as u64 - hits);
        out
    }

    /// The entries for `keys` when every one is there, counted as hits. When one is missing nothing
    /// is counted, since the caller looks them up again with [`AnswerCache::get`].
    pub fn all(&mut self, keys: &Vec<[u8; 32]>) -> (r: Option<Vec<Entry>>)
        requires
            old(self).wf(),
        ensures
            final(self).wf(),
            final(self).held() == old(self).held(),
            final(self).spec_half() == old(self).spec_half(),
            final(self).spec_misses() == old(self).spec_misses(),
            match r {
                Some(v) => {
                    &&& v@.len() == keys@.len()
                    &&& forall|i: int|
                        0 <= i < keys@.len() ==> found(
                            old(self).held(),
                            (#[trigger] keys@[i])@,
                        ) == Some(v@[i]@)
                    &&& final(self).spec_hits() == old(self).spec_hits().wrapping_add(
                        keys@.len() as u64,
                    )
                },
                None => {
                    &&& exists|i: int|
                        0 <= i < keys@.len() && found(
                            old(self).held(),
                            (#[trigger] keys@[i])@,
                        ) is None
                    &&& final(self).spec_hits() == old(self).spec_hits()
                },
            },
    {
        let mut out: Vec<Entry> = Vec::new();
        let mut i: usize = 0;
        while i < keys.len()
            invariant
                i <= keys@.len(),
                *self == *old(self),
                self.wf(),
                out@.len() == i,
                forall|j: int|
                    0 <= j < i ==> found(self.held(), (#[trigger] keys@[j])@) == Some(out@[j]@),
            decreases keys@.len() - i,
        {
            let k = &keys[i];
            let e = match self.young.get(k) {
                Some(e) => e.copy(),
                None => match self.old.get(k) {
                    Some(e) => e.copy(),
                    None => {
                        assert(found(self.held(), keys@[i as int]@) is None);
                        return None;
                    },
                },
            };
            out.push(e);
            i += 1;
        }
        self.hits = self.hits.wrapping_add(keys.len() as u64);
        Some(out)
    }

    /// Keeps `entries`, replacing any already there.
    pub fn insert(&mut self, entries: Vec<([u8; 32], Entry)>)
        requires
            old(self).wf(),
        ensures
            final(self).wf(),
            final(self).held() == kept_all(
                old(self).held(),
                old(self).spec_half(),
                pairs(entries@),
                entries@.len() as int,
            ),
            final(self).spec_half() == old(self).spec_half(),
            final(self).spec_hits() == old(self).spec_hits(),
            final(self).spec_misses() == old(self).spec_misses(),
    {
        let ghost start = self.held();
        let ghost half = self.spec_half();
        let mut i: usize = 0;
        while i < entries.len()
            invariant
                i <= entries@.len(),
                self.wf(),
                half == self.spec_half(),
                self.spec_hits() == old(self).spec_hits(),
                self.spec_misses() == old(self).spec_misses(),
                self.held() == kept_all(start, half, pairs(entries@), i as int),
            decreases entries@.len() - i,
        {
            let ghost now = self.held();
            let k: [u8; 32] = entries[i].0;
            let e = entries[i].1.copy();
            let _dropped = self.old.remove(&k);
            proof {
                forget_fits(now, half, k@);
            }
            self.put(k, e);
            i += 1;
        }
    }

    /// What it holds and how often it was asked.
    pub fn stats(&self) -> (r: CacheStats)
        requires
            self.wf(),
        ensures
            r.capacity == 2 * self.spec_half(),
            r.entries == self.held().young.dom().len() + self.held().old.dom().len(),
            r.entries <= r.capacity,
            r.hits == self.spec_hits(),
            r.misses == self.spec_misses(),
    {
        CacheStats {
            capacity: self.half * 2,
            entries: self.young.len() + self.old.len(),
            hits: self.hits,
            misses: self.misses,
        }
    }
}

/// A count reads only what it counts.
proof fn count_same(a: Seq<Option<EntryView>>, b: Seq<Option<EntryView>>, n: int)
    requires
        0 <= n <= a.len(),
        n <= b.len(),
        forall|i: int| 0 <= i < n ==> a[i] == b[i],
    ensures
        count_found(a, n) == count_found(b, n),
    decreases n,
{
    if n > 0 {
        count_same(a, b, n - 1);
    }
}

/// Forgetting an old entry keeps the generations in bounds.
proof fn forget_fits(g: Held, half: int, k: Seq<u8>)
    requires
        fits(g, half),
    ensures
        fits(forget_old(g, k), half),
        !forget_old(g, k).old.contains_key(k),
{
    let f = forget_old(g, k);
    assert(f.old.dom() =~= g.old.dom().remove(k));
}

/// Putting an entry that is not old keeps the generations in bounds.
proof fn put_fits(g: Held, half: int, k: Seq<u8>, e: EntryView)
    requires
        fits(g, half),
        half >= 1,
        !g.old.contains_key(k),
    ensures
        fits(put(g, half, k, e), half),
{
    let p = put(g, half, k, e);
    let none = Map::<Seq<u8>, EntryView>::empty();
    assert(none.insert(k, e).dom() =~= Set::<Seq<u8>>::empty().insert(k));
    assert(g.young.insert(k, e).dom() =~= g.young.dom().insert(k));
    assert forall|q: Seq<u8>| #[trigger] p.young.contains_key(q) implies !p.old.contains_key(q) by {
        if q != k {
            assert(g.young.contains_key(q) ==> !g.old.contains_key(q));
        }
    }
}

/// What is kept is found, whatever was there before.
pub proof fn a_kept_entry_is_found(g: Held, half: int, k: Seq<u8>, e: EntryView)
    ensures
        found(kept(g, half, k, e), k) == Some(e),
{
}

/// Keeping an entry changes no other young entry unless the generations turn over, and then the
/// young ones are still found as old ones.
pub proof fn young_entries_survive_one_more(
    g: Held,
    half: int,
    k: Seq<u8>,
    e: EntryView,
    other: Seq<u8>,
)
    requires
        g.young.contains_key(other),
        other != k,
    ensures
        found(kept(g, half, k, e), other) == Some(g.young[other]),
{
}

/// Keeping entries keeps the generations in bounds.
proof fn kept_fits(g: Held, half: int, v: Seq<(Seq<u8>, EntryView)>, n: int)
    requires
        fits(g, half),
        half >= 1,
        0 <= n <= v.len(),
    ensures
        fits(kept_all(g, half, v, n), half),
    decreases n,
{
    if n > 0 {
        kept_fits(g, half, v, n - 1);
        let now = kept_all(g, half, v, n - 1);
        forget_fits(now, half, v[n - 1].0);
        put_fits(forget_old(now, v[n - 1].0), half, v[n - 1].0, v[n - 1].1);
    }
}

/// An answer that was kept is found again, after as many others as half the cache holds.
pub proof fn a_kept_answer_outlives_half_the_cache(
    g: Held,
    half: int,
    v: Seq<(Seq<u8>, EntryView)>,
    j: int,
    n: int,
)
    requires
        fits(g, half),
        half >= 1,
        0 <= j < n <= v.len(),
        n - 1 - j <= half,
        forall|i: int| j < i < n ==> (#[trigger] v[i]).0 != v[j].0,
    ensures
        found(kept_all(g, half, v, n), v[j].0) == Some(v[j].1),
{
    stays(g, half, v, j, n);
}

/// An entry stays young, or is old beside as many young ones as were kept since.
proof fn stays(g: Held, half: int, v: Seq<(Seq<u8>, EntryView)>, j: int, n: int)
    requires
        fits(g, half),
        half >= 1,
        0 <= j < n <= v.len(),
        n - 1 - j <= half,
        forall|i: int| j < i < n ==> (#[trigger] v[i]).0 != v[j].0,
    ensures
        ({
            let (now, k) = (kept_all(g, half, v, n), v[j].0);
            ||| now.young.contains_key(k) && now.young[k] == v[j].1
            ||| !now.young.contains_key(k) && now.old.contains_key(k) && now.old[k] == v[j].1
                && now.young.dom().len() <= n - 1 - j
        }),
    decreases n,
{
    if j < n - 1 {
        stays(g, half, v, j, n - 1);
        kept_fits(g, half, v, n - 1);
        let was = kept_all(g, half, v, n - 1);
        let (k, e) = v[n - 1];
        let none = Map::<Seq<u8>, EntryView>::empty();
        assert(none.insert(k, e).dom() =~= Set::<Seq<u8>>::empty().insert(k));
        assert(was.young.insert(k, e).dom() =~= was.young.dom().insert(k));
    }
}

/// A lookup changes no answer for the key it looked up, and what it found is young afterwards.
pub proof fn a_found_entry_becomes_young(g: Held, half: int, k: Seq<u8>)
    requires
        found(g, k) is Some,
    ensures
        found(looked(g, half, k), k) == found(g, k),
        looked(g, half, k).young.contains_key(k),
{
}

/// A lookup that finds nothing changes nothing.
pub proof fn a_miss_changes_nothing(g: Held, half: int, k: Seq<u8>)
    requires
        found(g, k) is None,
    ensures
        looked(g, half, k) == g,
{
}

/// Bypassing reads and writes nothing, using reads and writes, and refreshing writes only.
pub fn reads(mode: CacheMode) -> (r: bool)
    ensures
        r == (mode == CacheMode::Use),
{
    matches!(mode, CacheMode::Use)
}

/// Bypassing reads and writes nothing, using reads and writes, and refreshing writes only.
pub fn writes(mode: CacheMode) -> (r: bool)
    ensures
        r == (mode != CacheMode::Bypass),
{
    !matches!(mode, CacheMode::Bypass)
}

/// Every mode has one name, and no other text is a mode.
pub proof fn every_mode_has_its_name(s: Seq<char>)
    ensures
        CacheMode::named(s) == Some(CacheMode::Use) <==> s == "use"@,
        CacheMode::named(s) == Some(CacheMode::Bypass) <==> s == "bypass"@,
        CacheMode::named(s) == Some(CacheMode::Refresh) <==> s == "refresh"@,
{
    reveal_strlit("use");
    reveal_strlit("bypass");
    reveal_strlit("refresh");
    assert("use"@.len() == 3 && "bypass"@.len() == 6 && "refresh"@.len() == 7);
}

} // verus!
