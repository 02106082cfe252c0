//! Answering questions from the answer cache, and keeping what the device computes.
//!
//! A call looks its rows up with [`Session::look`], computes those of [`missing`] on the device,
//! keeps them with [`Session::keep`] and puts both together with [`merge`].

use crate::cache::{
    answers, count_found, found, kept_all, looked_all, maybe_view, maybe_views, pairs, row_bytes,
    AnswerCache, CacheMode, CacheStats, Entry, EntryView, Held,
};
use crate::engine::Item;
use crate::json::{find, get, Json, Value};
use vstd::prelude::*;

verus! {

/// The mode that the `kime` object of a request names, when it names one.
pub open spec fn mode_in(kime: Seq<(Seq<char>, Value)>) -> Option<CacheMode> {
    match find(kime, "cache"@) {
        None => Some(CacheMode::Use),
        Some(Value::Str(s)) => CacheMode::named(s),
        Some(_) => None,
    }
}

/// How a request uses the cache: as `kime.cache` says, by default [`CacheMode::Use`]. A mode that
/// is not one of the three is `None`.
pub fn mode_of(kime: &Option<Vec<(String, Json)>>) -> (r: Option<CacheMode>)
    ensures
        r == (match kime {
            None => Some(CacheMode::Use),
            Some(m) => mode_in(crate::json::entries(m@)),
        }),
{
    match kime {
        None => Some(CacheMode::Use),
        Some(m) => match get(m, "cache") {
            None => Some(CacheMode::Use),
            Some(v) => match v {
                Json::Str(s) => CacheMode::parse(s.as_str()),
                _ => None,
            },
        },
    }
}

/// The keys of rows.
pub fn keys_of(items: &Vec<Item>) -> (r: Vec<[u8; 32]>)
    ensures
        r@.len() == items@.len(),
        forall|i: int| #![trigger r@[i]]
            0 <= i < r@.len() ==> r@[i]@ == crate::cache::blake3_of(
                row_bytes(items@[i].ids@, items@[i].markers@, items@[i].qtype.number() as u8),
            ),
{
    let mut r: Vec<[u8; 32]> = Vec::new();
    let mut i: usize = 0;
    while i < items.len()
        invariant
            i <= items@.len(),
            r@.len() == i,
            forall|i: int| #![trigger r@[i]]
                0 <= i < r@.len() ==> r@[i]@ == crate::cache::blake3_of(
                    row_bytes(items@[i].ids@, items@[i].markers@, items@[i].qtype.number() as u8),
                ),
        decreases items@.len() - i,
    {
        let it = &items[i];
        r.push(AnswerCache::key(&it.ids, &it.markers, it.qtype.index() as u8));
        i += 1;
    }
    r
}

/// The keys among the first `n` whose mode reads the cache.
pub open spec fn reading(keys: Seq<[u8; 32]>, modes: Seq<CacheMode>, n: int) -> Seq<[u8; 32]>
    decreases n,
{
    if n <= 0 {
        seq![]
    } else if modes[n - 1] == CacheMode::Use {
        reading(keys, modes, n - 1).push(keys[n - 1])
    } else {
        reading(keys, modes, n - 1)
    }
}

/// How many of the first `n` rows were not found.
pub open spec fn missed(found: Seq<Option<EntryView>>, n: int) -> int
    decreases n,
{
    if n <= 0 {
        0
    } else {
        missed(found, n - 1) + (if found[n - 1] is None {
            1int
        } else {
            0
        })
    }
}

/// What each row is answered with before anything is computed: its lookup, when its mode reads.
pub open spec fn seen(g: Held, half: int, keys: Seq<[u8; 32]>, modes: Seq<CacheMode>) -> Seq<
    Option<EntryView>,
> {
    let all = reading(keys, modes, keys.len() as int);
    Seq::new(
        keys.len(),
        |i: int|
            if modes[i] == CacheMode::Use {
                answers(g, half, all)[reading(keys, modes, i).len() as int]
            } else {
                None
            },
    )
}

/// The computed rows among the first `n` that the cache keeps.
pub open spec fn writing(
    keys: Seq<[u8; 32]>,
    modes: Seq<CacheMode>,
    todo: Seq<usize>,
    computed: Seq<Entry>,
    n: int,
) -> Seq<(Seq<u8>, EntryView)>
    decreases n,
{
    if n <= 0 {
        seq![]
    } else if modes[todo[n - 1] as int] != CacheMode::Bypass {
        writing(keys, modes, todo, computed, n - 1).push(
            (keys[todo[n - 1] as int]@, computed[n - 1]@),
        )
    } else {
        writing(keys, modes, todo, computed, n - 1)
    }
}

/// Earlier readers stand where they stand among all.
proof fn reading_prefix(keys: Seq<[u8; 32]>, modes: Seq<CacheMode>, m: int, n: int)
    requires
        0 <= m <= n <= keys.len(),
    ensures
        reading(keys, modes, m).len() <= reading(keys, modes, n).len() <= n,
        m < n && modes[m] == CacheMode::Use ==> reading(keys, modes, m).len() < reading(
            keys,
            modes,
            n,
        ).len(),
    decreases n,
{
    if m < n {
        reading_prefix(keys, modes, m, n - 1);
    } else if n > 0 {
        reading_prefix(keys, modes, n - 1, n - 1);
    }
}

/// What a loaded model keeps between calls.
#[derive(Debug)]
pub struct Session {
    /// The answer cache, `None` when it is off.
    pub cache: Option<AnswerCache>,
}

impl Session {
    /// The cache is sound.
    pub open spec fn wf(&self) -> bool {
        self.cache matches Some(c) ==> c.wf()
    }

    /// A session whose cache holds `capacity` answers. With 0 there is none.
    pub fn new(capacity: usize) -> (r: Self)
        requires
            capacity < usize::MAX,
        ensures
            r.wf(),
            r.cache is None == (capacity == 0),
            r.cache matches Some(c) ==> c.spec_half() == (if capacity < 2 {
                1
            } else {
                (capacity + 1) as int / 2
            }) && c.held() == (Held {
                young: Map::<Seq<u8>, EntryView>::empty(),
                old: Map::<Seq<u8>, EntryView>::empty(),
            }) && c.spec_hits() == 0 && c.spec_misses() == 0,
    {
        if capacity == 0 {
            Session { cache: None }
        } else {
            Session { cache: Some(AnswerCache::new(capacity)) }
        }
    }

    /// Hits and misses, and what the cache holds. Without a cache all of it is 0.
    pub fn cache_stats(&self) -> (r: CacheStats)
        requires
            self.wf(),
        ensures
            match self.cache {
                None => r == (CacheStats { capacity: 0, entries: 0, hits: 0, misses: 0 }),
                Some(c) => {
                    &&& r.capacity == 2 * c.spec_half()
                    &&& r.entries == c.held().young.dom().len() + c.held().old.dom().len()
                    &&& r.hits == c.spec_hits()
                    &&& r.misses == c.spec_misses()
                },
            },
    {
        match &self.cache {
            None => CacheStats { capacity: 0, entries: 0, hits: 0, misses: 0 },
            Some(c) => c.stats(),
        }
    }

    /// A request's answers when every one of them is in the cache and its mode reads it. Nothing is
    /// counted when one is missing.
    pub fn cached(&mut self, keys: &Vec<[u8; 32]>, mode: CacheMode) -> (r: Option<Vec<Entry>>)
        requires
            old(self).wf(),
        ensures
            final(self).wf(),
            match (old(self).cache, final(self).cache) {
                (None, None) => r is None,
                (Some(a), Some(b)) => {
                    &&& b.held() == a.held()
                    &&& b.spec_half() == a.spec_half()
                    &&& b.spec_misses() == a.spec_misses()
                    &&& r is Some == (mode == CacheMode::Use && forall|i: int|
                        0 <= i < keys@.len() ==> found(a.held(), (#[trigger] keys@[i])@) is Some)
                    &&& match r {
                        Some(v) => {
                            &&& v@.len() == keys@.len()
                            &&& forall|i: int|
                                0 <= i < keys@.len() ==> found(a.held(), (#[trigger] keys@[i])@)
                                    == Some(v@[i]@)
                            &&& b.spec_hits() == a.spec_hits().wrapping_add(keys@.len() as u64)
                        },
                        None => b.spec_hits() == a.spec_hits(),
                    }
                },
                _ => false,
            },
    {
        if !crate::cache::reads(mode) {
            return None;
        }
        match &mut self.cache {
            None => None,
            Some(c) => c.all(keys),
        }
    }

    /// Looks rows up, each in its own mode. A row that reads counts as a hit or a miss, and the
    /// others leave the cache alone.
    pub fn look(&mut self, keys: &Vec<[u8; 32]>, modes: &Vec<CacheMode>) -> (r: Vec<Option<Entry>>)
        requires
            old(self).wf(),
            keys@.len() == modes@.len(),
        ensures
            final(self).wf(),
            r@.len() == keys@.len(),
            match (old(self).cache, final(self).cache) {
                (None, None) => forall|i: int| 0 <= i < r@.len() ==> (#[trigger] r@[i]) is None,
                (Some(a), Some(b)) => {
                    let all = reading(keys@, modes@, keys@.len() as int);
                    let n = count_found(
                        answers(a.held(), a.spec_half(), all),
                        all.len() as int,
                    );
                    &&& maybe_views(r@) == seen(a.held(), a.spec_half(), keys@, modes@)
                    &&& b.held() == looked_all(a.held(), a.spec_half(), all, all.len() as int)
                    &&& b.spec_half() == a.spec_half()
                    &&& 0 <= n <= all.len()
                    &&& b.spec_hits() == a.spec_hits().wrapping_add(n as u64)
                    &&& b.spec_misses() == a.spec_misses().wrapping_add((all.len() - n) as u64)
                },
                _ => false,
            },
    {
        let ghost total = keys@.len() as int;
        let mut asked: Vec<[u8; 32]> = Vec::new();
        let mut i: usize = 0;
        while i < keys.len()
            invariant
                i <= keys@.len() == modes@.len(),
                asked@ == reading(keys@, modes@, i as int),
            decreases keys@.len() - i,
        {
            if crate::cache::reads(modes[i]) {
                asked.push(keys[i]);
            }
            i += 1;
        }
        let mut out: Vec<Option<Entry>> = Vec::new();
        match &mut self.cache {
            None => {
                let mut k: usize = 0;
                while k < keys.len()
                    invariant
                        k <= keys@.len(),
                        out@.len() == k,
                        forall|i: int| 0 <= i < out@.len() ==> (#[trigger] out@[i]) is None,
                    decreases keys@.len() - k,
                {
                    out.push(None);
                    k += 1;
                }
            },
            Some(c) => {
                let ghost (g, half) = (c.held(), c.spec_half());
                let got = c.get(&asked);
                let ghost all = asked@;
                assert(maybe_views(got@).len() == answers(g, half, all).len());
                let mut next: usize = 0;
                let mut k: usize = 0;
                assert(maybe_views(out@) =~= seen(g, half, keys@, modes@).take(0));
                while k < keys.len()
                    invariant
                        k <= keys@.len() == modes@.len(),
                        all == reading(keys@, modes@, keys@.len() as int),
                        got@.len() == all.len(),
                        maybe_views(got@) == answers(g, half, all),
                        next == reading(keys@, modes@, k as int).len(),
                        maybe_views(out@) == seen(g, half, keys@, modes@).take(k as int),
                        out@.len() == k,
                    decreases keys@.len() - k,
                {
                    let ghost so_far = maybe_views(out@);
                    proof {
                        reading_prefix(keys@, modes@, k as int, keys@.len() as int);
                    }
                    let e: Option<Entry> = if crate::cache::reads(modes[k]) {
                        let e = match &got[next] {
                            Some(e) => Some(e.copy()),
                            None => None,
                        };
                        assert(maybe_view(e) == maybe_views(got@)[next as int]);
                        next += 1;
                        e
                    } else {
                        None
                    };
                    let ghost shown = maybe_view(e);
                    out.push(e);
                    k += 1;
                    assert(maybe_views(out@) =~= so_far.push(shown));
                    assert(maybe_views(out@) =~= seen(g, half, keys@, modes@).take(k as int));
                }
                assert(seen(g, half, keys@, modes@).take(k as int) =~= seen(
                    g,
                    half,
                    keys@,
                    modes@,
                ));
            },
        }
        out
    }

    /// Keeps the computed rows, those whose mode writes. `todo` names the rows and `computed` what
    /// the device gave for each.
    pub fn keep(
        &mut self,
        keys: &Vec<[u8; 32]>,
        modes: &Vec<CacheMode>,
        todo: &Vec<usize>,
        computed: &Vec<Entry>,
    )
        requires
            old(self).wf(),
            keys@.len() == modes@.len(),
            todo@.len() == computed@.len(),
            forall|j: int| 0 <= j < todo@.len() ==> #[trigger] todo@[j] < keys@.len(),
        ensures
            final(self).wf(),
            match (old(self).cache, final(self).cache) {
                (None, None) => true,
                (Some(a), Some(b)) => {
                    let v = writing(keys@, modes@, todo@, computed@, todo@.len() as int);
                    &&& b.held() == kept_all(a.held(), a.spec_half(), v, v.len() as int)
                    &&& b.spec_half() == a.spec_half()
                    &&& b.spec_hits() == a.spec_hits()
                    &&& b.spec_misses() == a.spec_misses()
                },
                _ => false,
            },
    {
        let mut out: Vec<([u8; 32], Entry)> = Vec::new();
        let mut j: usize = 0;
        assert(pairs(out@) =~= writing(keys@, modes@, todo@, computed@, 0));
        while j < todo.len()
            invariant
                j <= todo@.len() == computed@.len(),
                keys@.len() == modes@.len(),
                forall|j: int| 0 <= j < todo@.len() ==> #[trigger] todo@[j] < keys@.len(),
                pairs(out@) == writing(keys@, modes@, todo@, computed@, j as int),
            decreases todo@.len() - j,
        {
            let at: usize = todo[j];
            let ghost before = pairs(out@);
            if crate::cache::writes(modes[at]) {
                out.push((keys[at], computed[j].copy()));
                assert(pairs(out@) =~= before.push((keys@[at as int]@, computed@[j as int]@)));
            }
            j += 1;
        }
        match &mut self.cache {
            None => {},
            Some(c) => c.insert(out),
        }
    }
}

/// The rows to compute: those that were not found, in order.
pub fn missing(rows: &Vec<Option<Entry>>) -> (r: Vec<usize>)
    ensures
        r@.len() == missed(maybe_views(rows@), rows@.len() as int),
        forall|i: int| #![trigger rows@[i]]
            0 <= i < rows@.len() && rows@[i] is None ==> {
                let k = missed(maybe_views(rows@), i);
                0 <= k < r@.len() && r@[k] == i
            },
        forall|j: int| 0 <= j < r@.len() ==> #[trigger] r@[j] < rows@.len() && rows@[r@[j] as int] is None,
{
    let ghost all = maybe_views(rows@);
    let mut r: Vec<usize> = Vec::new();
    let mut i: usize = 0;
    while i < rows.len()
        invariant
            i <= rows@.len(),
            all == maybe_views(rows@),
            r@.len() == missed(all, i as int),
            forall|k: int| #![trigger rows@[k]]
                0 <= k < i && rows@[k] is None ==> 0 <= missed(all, k) < r@.len()
                    && r@[missed(all, k)] == k,
            forall|j: int| 0 <= j < r@.len() ==> #[trigger] r@[j] < i && rows@[r@[j] as int] is None,
        decreases rows@.len() - i,
    {
        assert(all[i as int] == maybe_view(rows@[i as int]));
        if rows[i].is_none() {
            r.push(i);
        }
        i += 1;
    }
    r
}

/// Counts of more rows are no smaller.
proof fn missed_grows(a: Seq<Option<EntryView>>, m: int, n: int)
    requires
        0 <= m <= n,
    ensures
        0 <= missed(a, m) <= missed(a, n),
        m < n && a[m] is None ==> missed(a, m) < missed(a, n),
    decreases n,
{
    if m < n {
        missed_grows(a, m, n - 1);
    } else if m > 0 {
        missed_grows(a, m - 1, n - 1);
    }
}

/// The answer of every row: the one that was found, or the one that was computed for it.
pub fn merge(rows: &Vec<Option<Entry>>, computed: &Vec<Entry>) -> (r: Vec<Entry>)
    requires
        computed@.len() == missed(maybe_views(rows@), rows@.len() as int),
    ensures
        r@.len() == rows@.len(),
        forall|i: int| #![trigger r@[i]]
            0 <= i < r@.len() ==> r@[i]@ == (match maybe_view(rows@[i]) {
                Some(e) => e,
                None => computed@[missed(maybe_views(rows@), i)]@,
            }),
{
    let ghost all = maybe_views(rows@);
    let mut r: Vec<Entry> = Vec::new();
    let mut next: usize = 0;
    let mut i: usize = 0;
    while i < rows.len()
        invariant
            i <= rows@.len(),
            all == maybe_views(rows@),
            computed@.len() == missed(all, rows@.len() as int),
            next == missed(all, i as int),
            next <= i,
            r@.len() == i,
            forall|i: int| #![trigger r@[i]]
                0 <= i < r@.len() ==> r@[i]@ == (match maybe_view(rows@[i]) {
                    Some(e) => e,
                    None => computed@[missed(all, i)]@,
                }),
        decreases rows@.len() - i,
    {
        proof {
            assert(all[i as int] == maybe_view(rows@[i as int]));
            missed_grows(all, i as int, rows@.len() as int);
        }
        match &rows[i] {
            Some(e) => r.push(e.copy()),
            None => {
                r.push(computed[next].copy());
                next += 1;
            },
        }
        i += 1;
    }
    r
}

/// How many rows were answered from the cache.
pub fn count_cached(rows: &Vec<Option<Entry>>) -> (n: usize)
    ensures
        n == count_found(maybe_views(rows@), rows@.len() as int),
{
    let ghost all = maybe_views(rows@);
    let mut n: usize = 0;
    let mut i: usize = 0;
    while i < rows.len()
        invariant
            i <= rows@.len(),
            all == maybe_views(rows@),
            n <= i,
            n == count_found(all, i as int),
        decreases rows@.len() - i,
    {
        assert(all[i as int] == maybe_view(rows@[i as int]));
        if rows[i].is_some() {
            n += 1;
        }
        i += 1;
    }
    n
}

/// A cached answer is the computed one: what a call that writes computes for a row, later calls
/// find for it, as long as no more rows than half the cache holds were kept since and none of them
/// was the same row.
pub proof fn cached_answers_are_the_computed_ones(
    g: Held,
    half: int,
    keys: Seq<[u8; 32]>,
    modes: Seq<CacheMode>,
    todo: Seq<usize>,
    computed: Seq<Entry>,
    j: int,
)
    requires
        crate::cache::fits(g, half),
        half >= 1,
        todo.len() == computed.len(),
        0 <= j < todo.len() <= half,
        modes[todo[j] as int] != CacheMode::Bypass,
        forall|i: int|
            j < i < todo.len() ==> keys[(#[trigger] todo[i]) as int]@ != keys[todo[j] as int]@,
    ensures
        ({
            let v = writing(keys, modes, todo, computed, todo.len() as int);
            found(kept_all(g, half, v, v.len() as int), keys[todo[j] as int]@) == Some(computed[j]@)
        }),
{
    let n = todo.len() as int;
    let v = writing(keys, modes, todo, computed, n);
    let at = writing(keys, modes, todo, computed, j).len() as int;
    written(keys, modes, todo, computed, j, n);
    crate::cache::a_kept_answer_outlives_half_the_cache(g, half, v, at, v.len() as int);
}

/// Where a computed row stands among those that are kept.
proof fn written(
    keys: Seq<[u8; 32]>,
    modes: Seq<CacheMode>,
    todo: Seq<usize>,
    computed: Seq<Entry>,
    j: int,
    n: int,
)
    requires
        0 <= j < n <= todo.len(),
        modes[todo[j] as int] != CacheMode::Bypass,
        forall|i: int|
            j < i < n ==> keys[(#[trigger] todo[i]) as int]@ != keys[todo[j] as int]@,
    ensures
        ({
            let v = writing(keys, modes, todo, computed, n);
            let at = writing(keys, modes, todo, computed, j).len() as int;
            &&& at < v.len() <= n
            &&& v.len() <= at + (n - j)
            &&& v[at] == (keys[todo[j] as int]@, computed[j]@)
            &&& forall|i: int| at < i < v.len() ==> (#[trigger] v[i]).0 != v[at].0
        }),
    decreases n,
{
    writes_bound(keys, modes, todo, computed, j);
    if j < n - 1 {
        written(keys, modes, todo, computed, j, n - 1);
    }
}

/// No more rows are kept than there are.
proof fn writes_bound(
    keys: Seq<[u8; 32]>,
    modes: Seq<CacheMode>,
    todo: Seq<usize>,
    computed: Seq<Entry>,
    n: int,
)
    requires
        0 <= n,
    ensures
        writing(keys, modes, todo, computed, n).len() <= n,
    decreases n,
{
    if n > 0 {
        writes_bound(keys, modes, todo, computed, n - 1);
    }
}

/// Bypassing leaves the cache alone: it reads no row and keeps none.
pub proof fn bypassing_leaves_the_cache_alone(
    keys: Seq<[u8; 32]>,
    modes: Seq<CacheMode>,
    todo: Seq<usize>,
    computed: Seq<Entry>,
    m: int,
    n: int,
)
    requires
        m <= modes.len(),
        n <= todo.len(),
        forall|i: int| 0 <= i < modes.len() ==> #[trigger] modes[i] == CacheMode::Bypass,
        forall|j: int| 0 <= j < todo.len() ==> #[trigger] todo[j] < modes.len(),
    ensures
        reading(keys, modes, m).len() == 0,
        writing(keys, modes, todo, computed, n).len() == 0,
    decreases m, n,
{
    if m > 0 {
        bypassing_leaves_the_cache_alone(keys, modes, todo, computed, m - 1, n);
    } else if n > 0 {
        bypassing_leaves_the_cache_alone(keys, modes, todo, computed, m, n - 1);
    }
}

/// Refreshing reads nothing, and keeps every row it computes.
pub proof fn refreshing_only_writes(
    keys: Seq<[u8; 32]>,
    modes: Seq<CacheMode>,
    todo: Seq<usize>,
    computed: Seq<Entry>,
    m: int,
    n: int,
)
    requires
        m <= modes.len(),
        0 <= n,
        n <= todo.len(),
        forall|i: int| 0 <= i < modes.len() ==> #[trigger] modes[i] == CacheMode::Refresh,
        forall|j: int| 0 <= j < todo.len() ==> #[trigger] todo[j] < modes.len(),
    ensures
        reading(keys, modes, m).len() == 0,
        writing(keys, modes, todo, computed, n).len() == n,
    decreases m, n,
{
    if m > 0 {
        refreshing_only_writes(keys, modes, todo, computed, m - 1, n);
    } else if n > 0 {
        refreshing_only_writes(keys, modes, todo, computed, m, n - 1);
    }
}

} // verus!
