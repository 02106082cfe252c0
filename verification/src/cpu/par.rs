//! Splitting work into tasks.

use vstd::prelude::*;

verus! {

/// Tasks in one round of a job: as many as the task count of a claim word holds.
pub const ROUND: usize = 1048575;

/// How many threads a job of `n` tasks uses of those offered: one at least, and no more than it
/// has tasks.
pub fn used(n: usize, threads: usize) -> (r: usize)
    ensures
        r == if threads < 1 || n <= 1 {
            1
        } else if threads > n {
            n
        } else {
            threads
        },
{
    if threads < 1 || n <= 1 {
        1
    } else if threads > n {
        n
    } else {
        threads
    }
}

/// `f` of every index below `n`, in order. The result does not depend on `threads`.
pub fn map<T, F: Fn(usize) -> T>(n: usize, threads: usize, f: F) -> (r: Vec<T>)
    requires
        forall|i: usize| i < n ==> call_requires(f, (i,)),
    ensures
        r@.len() == n,
        forall|i: usize| i < n ==> call_ensures(f, (i,), #[trigger] r@[i as int]),
{
    let mut r: Vec<T> = Vec::new();
    let mut i: usize = 0;
    while i < n
        invariant
            i <= n,
            r@.len() == i,
            forall|i: usize| i < n ==> call_requires(f, (i,)),
            forall|k: usize| k < i ==> call_ensures(f, (k,), #[trigger] r@[k as int]),
        decreases n - i,
    {
        r.push(f(i));
        i += 1;
    }
    r
}

/// The rounds of a job of `n` tasks: where each starts and how many tasks it has.
pub fn rounds(n: usize) -> (r: Vec<(usize, usize)>)
    ensures
        forall|k: int| #![trigger r@[k]]
            0 <= k < r@.len() ==> r@[k].0 == ROUND * k && 0 < r@[k].1 <= ROUND && r@[k].0 + r@[k].1
                <= n && (k + 1 < r@.len() ==> r@[k].1 == ROUND),
        n == if r@.len() == 0 {
            0
        } else {
            r@[r@.len() - 1].0 + r@[r@.len() - 1].1
        },
{
    let mut r: Vec<(usize, usize)> = Vec::new();
    let mut base: usize = 0;
    while n - base >= ROUND
        invariant
            base <= n,
            base == ROUND * r@.len(),
            forall|k: int| #![trigger r@[k]]
                0 <= k < r@.len() ==> r@[k].0 == ROUND * k && r@[k].1 == ROUND && r@[k].0 + r@[k].1
                    <= n,
        decreases n - base,
    {
        r.push((base, ROUND));
        base += ROUND;
    }
    if base < n {
        r.push((base, n - base));
    }
    r
}

/// Every task of a job is in exactly one round.
pub proof fn every_task_in_one_round(n: int, rounds: Seq<(usize, usize)>, t: int)
    requires
        forall|k: int| #![trigger rounds[k]]
            0 <= k < rounds.len() ==> rounds[k].0 == ROUND * k && 0 < rounds[k].1 <= ROUND && (k + 1
                < rounds.len() ==> rounds[k].1 == ROUND),
        n == if rounds.len() == 0 {
            0
        } else {
            rounds[rounds.len() - 1].0 + rounds[rounds.len() - 1].1
        },
        0 <= t < n,
    ensures
        exists|k: int| #![trigger rounds[k]]
            0 <= k < rounds.len() && rounds[k].0 <= t < rounds[k].0 + rounds[k].1,
        forall|j: int, k: int| #![trigger rounds[j], rounds[k]]
            0 <= j < rounds.len() && 0 <= k < rounds.len() && rounds[j].0 <= t < rounds[j].0
                + rounds[j].1 && rounds[k].0 <= t < rounds[k].0 + rounds[k].1 ==> j == k,
{
    let k = t / ROUND as int;
    let last = rounds.len() - 1;
    assert(rounds[last].0 == ROUND * last);
    assert(k <= last);
    assert(rounds[k].0 <= t < rounds[k].0 + rounds[k].1);
}

/// A claim word: a generation of 24 bits, a task count and the next task of 20 bits each.
pub open spec fn claim(generation: int, tasks: int, next: int) -> int {
    generation * 0x100_0000_0000 + tasks * 0x10_0000 + next
}

/// The generation in a claim word.
pub open spec fn generation(s: int) -> int {
    s / 0x100_0000_0000
}

/// The task count in a claim word.
pub open spec fn tasks_in(s: int) -> int {
    s / 0x10_0000 % 0x10_0000
}

/// The next task in a claim word.
pub open spec fn next_in(s: int) -> int {
    s % 0x10_0000
}

/// The generation, the task count and the next task in a claim word.
pub fn unpack(s: u64) -> (r: (u64, usize, usize))
    ensures
        r.0 == generation(s as int),
        r.1 == tasks_in(s as int),
        r.2 == next_in(s as int),
        r.0 < 0x100_0000,
        r.1 < 0x10_0000,
        r.2 < 0x10_0000,
        s == claim(r.0 as int, r.1 as int, r.2 as int),
{
    let g: u64 = s >> 40;
    let t: u64 = (s >> 20) & 0xf_ffff;
    let n: u64 = s & 0xf_ffff;
    assert(g < 0x100_0000 && t < 0x10_0000 && n < 0x10_0000 && s == g * 0x100_0000_0000 + t
        * 0x10_0000 + n) by (bit_vector)
        requires
            g == s >> 40,
            t == (s >> 20) & 0xf_ffff,
            n == s & 0xf_ffff,
    ;
    (g, t as usize, n as usize)
}

/// The word of the job after the one in `last`: the next generation, back at 0 after 24 bits, and
/// no task taken.
pub fn publish(last: u64, tasks: usize) -> (r: u64)
    requires
        tasks <= ROUND,
    ensures
        r == claim((generation(last as int) + 1) % 0x100_0000, tasks as int, 0),
{
    let (g, _, _) = unpack(last);
    let next: u64 = if g + 1 == 0x100_0000 {
        0
    } else {
        g + 1
    };
    next * 0x100_0000_0000 + tasks as u64 * 0x10_0000
}

/// What a worker does with the word it read: the task it may claim and the word that claims it,
/// or nothing when every task of the job is taken.
pub open spec fn claimed(s: int) -> Option<(int, int)> {
    if next_in(s) < tasks_in(s) {
        Some((s + 1, next_in(s)))
    } else {
        None
    }
}

/// What a worker does with the word it read.
pub fn claim_next(s: u64) -> (r: Option<(u64, usize)>)
    ensures
        match r {
            Some((w, task)) => claimed(s as int) == Some((w as int, task as int)),
            None => claimed(s as int) is None,
        },
{
    let (_, t, n) = unpack(s);
    if n >= t {
        return None;
    }
    Some((s + 1, n))
}

/// The word after `n` claims, of those that find a task.
pub open spec fn after(s: int, n: nat) -> int
    decreases n,
{
    if n == 0 {
        s
    } else {
        let w = after(s, (n - 1) as nat);
        match claimed(w) {
            Some((next, _)) => next,
            None => w,
        }
    }
}

/// Every task of a job is claimed once and in order: the `n`th claim takes task `n`, the word
/// keeps its generation and its count, and once all are taken none can be claimed.
pub proof fn every_task_is_claimed_once(g: int, t: int, n: nat)
    requires
        0 <= g,
        0 <= t < 0x10_0000,
    ensures
        n <= t ==> after(claim(g, t, 0), n) == claim(g, t, n as int),
        n < t ==> claimed(after(claim(g, t, 0), n)) == Some((claim(g, t, n as int + 1), n as int)),
        n >= t ==> claimed(after(claim(g, t, 0), n)) is None,
    decreases n,
{
    if n > 0 {
        every_task_is_claimed_once(g, t, (n - 1) as nat);
    }
    if n <= t {
        assert(next_in(claim(g, t, n as int)) == n);
        assert(tasks_in(claim(g, t, n as int)) == t);
    }
}

/// A late worker cannot claim a task of a job that is over: words of different jobs differ, as
/// long as their generations do.
pub proof fn jobs_have_their_own_words(g: int, t: int, n: int, h: int, u: int, m: int)
    requires
        0 <= t < 0x10_0000,
        0 <= n < 0x10_0000,
        0 <= u < 0x10_0000,
        0 <= m < 0x10_0000,
        g != h,
    ensures
        claim(g, t, n) != claim(h, u, m),
{
}

} // verus!
