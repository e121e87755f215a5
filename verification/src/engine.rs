//! The growth simulation that one work item stands for.
//!
//! A population is a multiset of countdown timers. Each round every
//! timer drops by one; a timer that was at zero resets to the
//! configured value and produces one new timer at [`SPAWN_TIMER`].
//! The mathematical model keeps one entity per timer; the executable
//! code keeps a histogram of counts per timer value, so its memory
//! does not grow with the population.

use vstd::prelude::*;

verus! {

/// Timer given to a freshly produced entity.
pub const SPAWN_TIMER: u8 = 8;

/// Default reset value for an expired timer.
pub const DEFAULT_RESET: u8 = 6;

/// The timers that a byte payload encodes, as mathematical integers.
pub open spec fn timers_of(bytes: Seq<u8>) -> Seq<int> {
    Seq::new(bytes.len(), |i: int| bytes[i] as int)
}

/// One timer after one round, before spawning: zero resets, others drop.
pub open spec fn dec_one(t: int, k: int) -> int {
    if t == 0 {
        k
    } else {
        t - 1
    }
}

/// All timers after one round, before spawning.
pub open spec fn dec_all(s: Seq<int>, k: int) -> Seq<int> {
    Seq::new(s.len(), |i: int| dec_one(s[i], k))
}

/// How many timers in `s` equal `v`.
pub open spec fn occ(s: Seq<int>, v: int) -> nat
    decreases s.len(),
{
    if s.len() == 0 {
        0
    } else {
        occ(s.drop_last(), v) + (if s.last() == v {
            1nat
        } else {
            0nat
        })
    }
}

/// `n` newly spawned timers.
pub open spec fn spawned(n: nat) -> Seq<int> {
    Seq::new(n, |i: int| SPAWN_TIMER as int)
}

/// One full round: every timer steps, every expired timer spawns one child.
pub open spec fn step_round(s: Seq<int>, k: int) -> Seq<int> {
    dec_all(s, k) + spawned(occ(s, 0))
}

/// The population after `r` rounds.
pub open spec fn rounds(s: Seq<int>, k: int, r: nat) -> Seq<int>
    decreases r,
{
    if r == 0 {
        s
    } else {
        rounds(step_round(s, k), k, (r - 1) as nat)
    }
}

/// Total population after `r` rounds.
pub open spec fn pop_after(s: Seq<int>, k: int, r: nat) -> nat {
    rounds(s, k, r).len()
}

/// Every timer of `s` lies in `[0, n)`.
pub open spec fn bounded(s: Seq<int>, n: int) -> bool {
    forall|i: int| 0 <= i < s.len() ==> 0 <= #[trigger] s[i] < n
}

proof fn lemma_occ_le_len(s: Seq<int>, v: int)
    ensures
        occ(s, v) <= s.len(),
    decreases s.len(),
{
    if s.len() > 0 {
        lemma_occ_le_len(s.drop_last(), v);
    }
}

proof fn lemma_occ_append(a: Seq<int>, b: Seq<int>, v: int)
    ensures
        occ(a + b, v) == occ(a, v) + occ(b, v),
    decreases b.len(),
{
    if b.len() == 0 {
        assert(a + b =~= a);
    } else {
        lemma_occ_append(a, b.drop_last(), v);
        assert((a + b).drop_last() =~= a + b.drop_last());
        assert((a + b).last() == b.last());
    }
}

proof fn lemma_occ_dec_all(s: Seq<int>, k: int, v: int)
    ensures
        occ(dec_all(s, k), v) == (if v == -1 {
            0nat
        } else {
            occ(s, v + 1)
        }) + (if v == k {
            occ(s, 0)
        } else {
            0nat
        }),
    decreases s.len(),
{
    if s.len() == 0 {
    } else {
        let d = s.drop_last();
        lemma_occ_dec_all(d, k, v);
        assert(dec_all(s, k).drop_last() =~= dec_all(d, k));
        assert(dec_all(s, k).last() == dec_one(s.last(), k));
    }
}

proof fn lemma_occ_spawned(n: nat, v: int)
    ensures
        occ(spawned(n), v) == (if v == SPAWN_TIMER as int {
            n
        } else {
            0nat
        }),
    decreases n,
{
    if n == 0 {
    } else {
        lemma_occ_spawned((n - 1) as nat, v);
        assert(spawned(n).drop_last() =~= spawned((n - 1) as nat));
        assert(spawned(n).last() == SPAWN_TIMER as int);
    }
}

/// Count of each timer value after one round, in terms of the counts before.
proof fn lemma_occ_step(s: Seq<int>, k: int, v: int)
    ensures
        occ(step_round(s, k), v) == (if v == -1 {
            0nat
        } else {
            occ(s, v + 1)
        }) + (if v == k {
            occ(s, 0)
        } else {
            0nat
        }) + (if v == SPAWN_TIMER as int {
            occ(s, 0)
        } else {
            0nat
        }),
{
    lemma_occ_append(dec_all(s, k), spawned(occ(s, 0)), v);
    lemma_occ_dec_all(s, k, v);
    lemma_occ_spawned(occ(s, 0), v);
}

proof fn lemma_len_step(s: Seq<int>, k: int)
    ensures
        step_round(s, k).len() == s.len() + occ(s, 0),
{
}

/// Two populations with the same counts everywhere.
pub open spec fn same_counts(s1: Seq<int>, s2: Seq<int>) -> bool {
    s1.len() == s2.len() && forall|v: int| #[trigger] occ(s1, v) == occ(s2, v)
}

proof fn lemma_step_same_counts(s1: Seq<int>, s2: Seq<int>, k: int)
    requires
        same_counts(s1, s2),
    ensures
        same_counts(step_round(s1, k), step_round(s2, k)),
{
    lemma_len_step(s1, k);
    lemma_len_step(s2, k);
    assert(occ(s1, 0) == occ(s2, 0));
    assert forall|v: int| #[trigger] occ(step_round(s1, k), v) == occ(step_round(s2, k), v) by {
        lemma_occ_step(s1, k, v);
        lemma_occ_step(s2, k, v);
        assert(occ(s1, v + 1) == occ(s2, v + 1));
    }
}

proof fn lemma_pop_same_counts(s1: Seq<int>, s2: Seq<int>, k: int, r: nat)
    requires
        same_counts(s1, s2),
    ensures
        pop_after(s1, k, r) == pop_after(s2, k, r),
    decreases r,
{
    if r != 0 {
        lemma_step_same_counts(s1, s2, k);
        lemma_pop_same_counts(step_round(s1, k), step_round(s2, k), k, (r - 1) as nat);
    }
}

/// Two populations evolve independently: running them joined or apart
/// gives the same total.
pub proof fn lemma_pop_additive(a: Seq<int>, b: Seq<int>, k: int, r: nat)
    ensures
        pop_after(a + b, k, r) == pop_after(a, k, r) + pop_after(b, k, r),
    decreases r,
{
    if r != 0 {
        let sa = step_round(a, k);
        let sb = step_round(b, k);
        assert(same_counts(step_round(a + b, k), sa + sb)) by {
            lemma_len_step(a + b, k);
            lemma_len_step(a, k);
            lemma_len_step(b, k);
            lemma_occ_append(a, b, 0);
            assert forall|v: int| #[trigger] occ(step_round(a + b, k), v) == occ(sa + sb, v) by {
                lemma_occ_step(a + b, k, v);
                lemma_occ_step(a, k, v);
                lemma_occ_step(b, k, v);
                lemma_occ_append(a, b, v + 1);
                lemma_occ_append(sa, sb, v);
            }
        }
        lemma_pop_same_counts(step_round(a + b, k), sa + sb, k, (r - 1) as nat);
        lemma_pop_additive(sa, sb, k, (r - 1) as nat);
    }
}

/// All chunks of a partition, joined back together in order.
pub open spec fn concat_chunks(cs: Seq<Seq<int>>) -> Seq<int>
    decreases cs.len(),
{
    if cs.len() == 0 {
        Seq::empty()
    } else {
        concat_chunks(cs.drop_last()) + cs.last()
    }
}

/// The chunk totals, summed.
pub open spec fn sum_pops(cs: Seq<Seq<int>>, k: int, r: nat) -> nat
    decreases cs.len(),
{
    if cs.len() == 0 {
        0
    } else {
        sum_pops(cs.drop_last(), k, r) + pop_after(cs.last(), k, r)
    }
}

proof fn lemma_pop_empty(k: int, r: nat)
    ensures
        pop_after(Seq::<int>::empty(), k, r) == 0,
    decreases r,
{
    if r != 0 {
        assert(step_round(Seq::<int>::empty(), k) =~= Seq::<int>::empty());
        lemma_pop_empty(k, (r - 1) as nat);
    }
}

/// Partition invariance: running each chunk of a partition for the same
/// number of rounds and summing the totals equals running the whole
/// population at once.
pub proof fn lemma_partition_invariance(cs: Seq<Seq<int>>, k: int, r: nat)
    ensures
        sum_pops(cs, k, r) == pop_after(concat_chunks(cs), k, r),
    decreases cs.len(),
{
    if cs.len() == 0 {
        lemma_pop_empty(k, r);
    } else {
        lemma_partition_invariance(cs.drop_last(), k, r);
        lemma_pop_additive(concat_chunks(cs.drop_last()), cs.last(), k, r);
    }
}

/// Round composability: `r1` rounds followed by `r2` more equal
/// `r1 + r2` rounds in one run, both for the population and its total.
pub proof fn lemma_round_composability(s: Seq<int>, k: int, r1: nat, r2: nat)
    ensures
        rounds(rounds(s, k, r1), k, r2) == rounds(s, k, r1 + r2),
        pop_after(rounds(s, k, r1), k, r2) == pop_after(s, k, r1 + r2),
    decreases r1,
{
    if r1 != 0 {
        lemma_round_composability(step_round(s, k), k, (r1 - 1) as nat, r2);
    }
}

/// A population never shrinks.
proof fn lemma_pop_ge_len(s: Seq<int>, k: int, r: nat)
    ensures
        pop_after(s, k, r) >= s.len(),
    decreases r,
{
    if r != 0 {
        lemma_len_step(s, k);
        lemma_pop_ge_len(step_round(s, k), k, (r - 1) as nat);
    }
}

proof fn lemma_rounds_succ(s: Seq<int>, k: int, r: nat)
    ensures
        rounds(s, k, r + 1) == step_round(rounds(s, k, r), k),
    decreases r,
{
    if r == 0 {
        assert(rounds(s, k, 1) == rounds(step_round(s, k), k, 0));
        assert(rounds(step_round(s, k), k, 0) == step_round(s, k));
    } else {
        lemma_rounds_succ(step_round(s, k), k, (r - 1) as nat);
        assert(rounds(s, k, r + 1) == rounds(step_round(s, k), k, r));
        assert(rounds(s, k, r) == rounds(step_round(s, k), k, (r - 1) as nat));
    }
}

proof fn lemma_step_bounded(s: Seq<int>, k: int, n: int)
    requires
        bounded(s, n),
        0 <= k < n,
        SPAWN_TIMER < n,
    ensures
        bounded(step_round(s, k), n),
{
    assert forall|i: int| 0 <= i < step_round(s, k).len() implies 0 <= #[trigger] step_round(s, k)[i]
        < n by {
        if i < s.len() {
            assert(step_round(s, k)[i] == dec_one(s[i], k));
        } else {
            assert(step_round(s, k)[i] == SPAWN_TIMER as int);
        }
    }
}

proof fn lemma_occ_out_of_range(s: Seq<int>, n: int, v: int)
    requires
        bounded(s, n),
        v >= n || v < 0,
    ensures
        occ(s, v) == 0,
    decreases s.len(),
{
    if s.len() > 0 {
        lemma_occ_out_of_range(s.drop_last(), n, v);
    }
}

/// Counts of the values `0, 1, .., n - 1`, summed.
pub open spec fn occ_sum(s: Seq<int>, n: int) -> nat
    decreases n,
{
    if n <= 0 {
        0
    } else {
        occ_sum(s, n - 1) + occ(s, n - 1)
    }
}

proof fn lemma_occ_sum_drop_last(s: Seq<int>, n: int)
    requires
        s.len() > 0,
    ensures
        occ_sum(s, n) == occ_sum(s.drop_last(), n) + (if 0 <= s.last() < n {
            1nat
        } else {
            0nat
        }),
    decreases n,
{
    if n > 0 {
        lemma_occ_sum_drop_last(s, n - 1);
    }
}

proof fn lemma_occ_sum_empty(n: int)
    ensures
        occ_sum(Seq::<int>::empty(), n) == 0,
    decreases n,
{
    if n > 0 {
        lemma_occ_sum_empty(n - 1);
    }
}

proof fn lemma_occ_sum_total(s: Seq<int>, n: int)
    requires
        bounded(s, n),
    ensures
        occ_sum(s, n) == s.len(),
    decreases s.len(),
{
    if s.len() == 0 {
        assert(s =~= Seq::<int>::empty());
        lemma_occ_sum_empty(n);
    } else {
        lemma_occ_sum_drop_last(s, n);
        lemma_occ_sum_total(s.drop_last(), n);
    }
}

proof fn lemma_occ_sum_mono(s: Seq<int>, m: int, n: int)
    requires
        m <= n,
    ensures
        occ_sum(s, m) <= occ_sum(s, n),
    decreases n - m,
{
    if m < n {
        lemma_occ_sum_mono(s, m, n - 1);
    }
}

proof fn lemma_timers_push(v: Seq<u8>, b: u8)
    ensures
        timers_of(v.push(b)) =~= timers_of(v).push(b as int),
{
}

proof fn lemma_spawned_push(a: Seq<int>, j: nat)
    ensures
        (a + spawned(j)).push(SPAWN_TIMER as int) =~= a + spawned(j + 1),
{
}

/// One round of the entity-per-record simulation, in place.
fn step_entities(timers: &mut Vec<u8>, reset: u8)
    ensures
        timers_of(final(timers)@) == step_round(timers_of(old(timers)@), reset as int),
{
    let ghost s0: Seq<int> = timers_of(timers@);
    let n: usize = timers.len();
    let mut idx: usize = 0;
    let mut expired: usize = 0;
    while idx < n
        invariant
            idx <= n,
            expired <= idx,
            n == timers@.len(),
            s0.len() == n,
            forall|j: int| 0 <= j < s0.len() ==> s0[j] == timers_of(old(timers)@)[j],
            s0 == timers_of(old(timers)@),
            expired as nat == occ(s0.take(idx as int), 0),
            forall|j: int| 0 <= j < idx ==> timers@[j] as int == dec_one(s0[j], reset as int),
            forall|j: int| idx <= j < n ==> timers@[j] as int == s0[j],
        decreases n - idx,
    {
        let t: u8 = timers[idx];
        proof {
            assert(s0.take(idx as int + 1).drop_last() =~= s0.take(idx as int));
            assert(s0.take(idx as int + 1).last() == s0[idx as int]);
        }
        if t == 0 {
            timers.set(idx, reset);
            expired = expired + 1;
        } else {
            timers.set(idx, t - 1);
        }
        idx = idx + 1;
    }
    proof {
        assert(s0.take(n as int) =~= s0);
        assert(timers_of(timers@) =~= dec_all(s0, reset as int) + spawned(0));
    }
    let mut j: usize = 0;
    while j < expired
        invariant
            j <= expired,
            expired as nat == occ(s0, 0),
            timers_of(timers@) == dec_all(s0, reset as int) + spawned(j as nat),
        decreases expired - j,
    {
        let ghost prev = timers@;
        timers.push(SPAWN_TIMER);
        proof {
            lemma_timers_push(prev, SPAWN_TIMER);
            lemma_spawned_push(dec_all(s0, reset as int), j as nat);
            assert(timers_of(timers@) == timers_of(prev).push(SPAWN_TIMER as int));
        }
        j = j + 1;
    }
}

/// Runs the entity-per-record simulation for `num_iter` rounds.
///
/// This is the form the split-phase run hands to its chunks: unlike
/// [`simulate`] it keeps one record per entity, so the caller can
/// partition the resulting population by position.
pub fn do_work(num_iter: usize, timers: &mut Vec<u8>, reset: u8)
    ensures
        timers_of(final(timers)@) == rounds(timers_of(old(timers)@), reset as int, num_iter as nat),
{
    let ghost s0: Seq<int> = timers_of(timers@);
    let mut round: usize = 0;
    while round < num_iter
        invariant
            round <= num_iter,
            timers_of(timers@) == rounds(s0, reset as int, round as nat),
        decreases num_iter - round,
    {
        step_entities(timers, reset);
        proof {
            lemma_rounds_succ(s0, reset as int, round as nat);
        }
        round = round + 1;
    }
}

/// Runs the simulation on a histogram of counts per timer value and
/// returns the total population after `num_rounds` rounds, or `None`
/// exactly when that total does not fit an unsigned 64-bit count.
pub fn simulate(payload: &Vec<u8>, reset: u8, num_rounds: usize) -> (r: Option<u64>)
    ensures
        (match r {
            Some(total) => total as nat == pop_after(
                timers_of(payload@),
                reset as int,
                num_rounds as nat,
            ),
            None => pop_after(timers_of(payload@), reset as int, num_rounds as nat) > u64::MAX,
        }),
{
    let ghost s0: Seq<int> = timers_of(payload@);
    let ghost k: int = reset as int;
    let ghost rr: nat = num_rounds as nat;

    let mut hist: Vec<u64> = Vec::new();
    let mut v: usize = 0;
    while v < 256
        invariant
            v <= 256,
            hist@.len() == v,
            forall|u: int| 0 <= u < v ==> hist@[u] == 0,
        decreases 256 - v,
    {
        hist.push(0);
        v = v + 1;
    }

    proof {
        assert(bounded(s0, 256));
        assert(s0.take(0) =~= Seq::<int>::empty());
    }
    let mut i: usize = 0;
    while i < payload.len()
        invariant
            i <= payload@.len(),
            hist@.len() == 256,
            s0 == timers_of(payload@),
            forall|u: int| 0 <= u < 256 ==> hist@[u] as nat == occ(s0.take(i as int), u),
        decreases payload@.len() - i,
    {
        let b: u8 = payload[i];
        proof {
            lemma_occ_le_len(s0.take(i as int), b as int);
            assert(s0.take(i as int + 1).drop_last() =~= s0.take(i as int));
            assert(s0.take(i as int + 1).last() == s0[i as int]);
            assert forall|u: int| 0 <= u < 256 && u != b as int implies occ(
                s0.take(i as int + 1),
                u,
            ) == occ(s0.take(i as int), u) by {}
        }
        let c: u64 = hist[b as usize];
        hist.set(b as usize, c + 1);
        i = i + 1;
    }
    proof {
        assert(s0.take(payload@.len() as int) =~= s0);
    }

    let mut round: usize = 0;
    let ghost mut cur: Seq<int> = s0;
    while round < num_rounds
        invariant
            round <= num_rounds,
            hist@.len() == 256,
            k == reset as int,
            rr == num_rounds as nat,
            s0 == timers_of(payload@),
            cur == rounds(s0, k, round as nat),
            bounded(cur, 256),
            forall|u: int| 0 <= u < 256 ==> hist@[u] as nat == occ(cur, u),
        decreases num_rounds - round,
    {
        let c0: u64 = hist[0];
        let ghost pre_hist = hist@;
        let mut u: usize = 0;
        while u < 255
            invariant
                u <= 255,
                hist@.len() == 256,
                forall|w: int| 0 <= w < u ==> hist@[w] == pre_hist[w + 1],
                forall|w: int| u <= w < 256 ==> hist@[w] == pre_hist[w],
            decreases 255 - u,
        {
            let x: u64 = hist[u + 1];
            hist.set(u, x);
            u = u + 1;
        }
        hist.set(255, 0);
        let ghost next = step_round(cur, k);
        proof {
            lemma_rounds_succ(s0, k, round as nat);
            lemma_len_step(cur, k);
            lemma_occ_out_of_range(cur, 256, 256);
            lemma_step_bounded(cur, k, 256);
            assert(forall|w: int| 0 <= w < 256 ==> hist@[w] as nat == occ(cur, w + 1));
            lemma_round_composability(s0, k, round as nat + 1, (rr - round - 1) as nat);
            lemma_pop_ge_len(next, k, (rr - round - 1) as nat);
            assert(pop_after(s0, k, rr) >= next.len());
        }
        let ri: usize = reset as usize;
        let a: u64 = hist[ri];
        if a > u64::MAX - c0 {
            proof {
                lemma_occ_step(cur, k, ri as int);
                lemma_occ_le_len(next, ri as int);
            }
            return None;
        }
        hist.set(ri, a + c0);
        let b8: u64 = hist[8];
        if b8 > u64::MAX - c0 {
            proof {
                lemma_occ_step(cur, k, 8);
                lemma_occ_le_len(next, 8);
            }
            return None;
        }
        hist.set(8, b8 + c0);
        proof {
            assert forall|w: int| 0 <= w < 256 implies hist@[w] as nat == occ(next, w) by {
                lemma_occ_step(cur, k, w);
            }
            cur = next;
        }
        round = round + 1;
    }

    let mut total: u64 = 0;
    let mut w: usize = 0;
    while w < 256
        invariant
            w <= 256,
            hist@.len() == 256,
            bounded(cur, 256),
            cur == rounds(s0, k, rr),
            k == reset as int,
            rr == num_rounds as nat,
            s0 == timers_of(payload@),
            forall|u: int| 0 <= u < 256 ==> hist@[u] as nat == occ(cur, u),
            total as nat == occ_sum(cur, w as int),
        decreases 256 - w,
    {
        let h: u64 = hist[w];
        if total > u64::MAX - h {
            proof {
                lemma_occ_sum_mono(cur, w as int + 1, 256);
                lemma_occ_sum_total(cur, 256);
            }
            return None;
        }
        total = total + h;
        w = w + 1;
    }
    proof {
        lemma_occ_sum_total(cur, 256);
    }
    Some(total)
}

/// The timers of each chunk, as mathematical integers.
pub open spec fn chunk_views(cs: Seq<Vec<u8>>) -> Seq<Seq<int>> {
    Seq::new(cs.len(), |i: int| timers_of(cs[i]@))
}

proof fn lemma_sum_pops_take_succ(cs: Seq<Seq<int>>, k: int, r: nat, i: int)
    requires
        0 <= i < cs.len(),
    ensures
        sum_pops(cs.take(i + 1), k, r) == sum_pops(cs.take(i), k, r) + pop_after(cs[i], k, r),
{
    assert(cs.take(i + 1).drop_last() =~= cs.take(i));
    assert(cs.take(i + 1).last() == cs[i]);
}

proof fn lemma_sum_pops_ge_take(cs: Seq<Seq<int>>, k: int, r: nat, i: int)
    requires
        0 <= i <= cs.len(),
    ensures
        sum_pops(cs, k, r) >= sum_pops(cs.take(i), k, r),
    decreases cs.len() - i,
{
    if i == cs.len() {
        assert(cs.take(i) =~= cs);
    } else {
        lemma_sum_pops_take_succ(cs, k, r, i);
        lemma_sum_pops_ge_take(cs, k, r, i + 1);
    }
}

/// Splits a population into `parts` contiguous chunks by position; the
/// first chunk absorbs the remainder of an uneven split.
pub fn split_chunks(data: &Vec<u8>, parts: usize) -> (chunks: Vec<Vec<u8>>)
    requires
        1 <= parts,
    ensures
        chunks@.len() == parts,
        concat_chunks(chunk_views(chunks@)) == timers_of(data@),
        chunks@[0]@.len() == data@.len() as int / parts as int + data@.len() as int % parts as int,
        forall|i: int|
            1 <= i < parts ==> #[trigger] chunks@[i]@.len() == data@.len() as int / parts as int,
{
    let n: usize = data.len();
    let base: usize = n / parts;
    let rem: usize = n % parts;
    proof {
        vstd::arithmetic::div_mod::lemma_fundamental_div_mod(n as int, parts as int);
        assert(parts as int * base as int == base as int + (parts as int - 1) * base as int)
            by (nonlinear_arith);
        assert((parts as int - 1) * base as int >= 0) by (nonlinear_arith)
            requires
                parts as int >= 1,
                base as int >= 0,
        ;
    }
    let mut chunks: Vec<Vec<u8>> = Vec::new();
    let mut offset: usize = 0;
    let mut ci: usize = 0;
    proof {
        assert(chunk_views(chunks@) =~= Seq::<Seq<int>>::empty());
        assert(concat_chunks(chunk_views(chunks@)) =~= timers_of(data@.take(0)));
    }
    while ci < parts
        invariant
            ci <= parts,
            chunks@.len() == ci,
            n == data@.len(),
            1 <= parts,
            base == n as int / parts as int,
            rem == n as int % parts as int,
            base + rem <= n,
            offset as int == (if ci == 0 {
                0int
            } else {
                rem as int + ci as int * base as int
            }),
            offset <= n,
            concat_chunks(chunk_views(chunks@)) == timers_of(data@.take(offset as int)),
            chunks@.len() > 0 ==> chunks@[0]@.len() == base + rem,
            forall|i: int| 1 <= i < ci ==> #[trigger] chunks@[i]@.len() == base as int,
        decreases parts - ci,
    {
        proof {
            vstd::arithmetic::div_mod::lemma_fundamental_div_mod(n as int, parts as int);
            if ci != 0 {
                assert(rem as int + (ci as int + 1) * base as int == rem as int + ci as int
                    * base as int + base as int) by (nonlinear_arith);
                assert((ci as int + 1) * base as int <= parts as int * base as int)
                    by (nonlinear_arith)
                    requires
                        ci as int + 1 <= parts as int,
                        base as int >= 0,
                ;
            }
        }
        let len: usize = if ci == 0 {
            base + rem
        } else {
            base
        };
        let mut chunk: Vec<u8> = Vec::new();
        let mut cj: usize = 0;
        while cj < len
            invariant
                cj <= len,
                offset + len <= n,
                n == data@.len(),
                chunk@.len() == cj,
                forall|t: int| 0 <= t < cj ==> chunk@[t] == data@[offset + t],
            decreases len - cj,
        {
            let b: u8 = data[offset + cj];
            chunk.push(b);
            cj = cj + 1;
        }
        let ghost prev_chunks = chunks@;
        let ghost chunk_snap = chunk@;
        chunks.push(chunk);
        proof {
            assert(chunk_views(chunks@).drop_last() =~= chunk_views(prev_chunks));
            assert(chunk_views(chunks@).last() == timers_of(chunk_snap));
            assert(timers_of(data@.take(offset as int)) + timers_of(chunk_snap) =~= timers_of(
                data@.take(offset as int + len as int),
            ));
        }
        offset = offset + len;
        ci = ci + 1;
    }
    proof {
        vstd::arithmetic::div_mod::lemma_fundamental_div_mod(n as int, parts as int);
        assert(offset == n);
        assert(data@.take(n as int) =~= data@);
    }
    chunks
}

/// The partial totals of a split run, summed.
pub open spec fn sum_seq(s: Seq<u64>) -> int
    decreases s.len(),
{
    if s.len() == 0 {
        0
    } else {
        sum_seq(s.drop_last()) + s.last()
    }
}

proof fn lemma_sum_seq_take_succ(s: Seq<u64>, i: int)
    requires
        0 <= i < s.len(),
    ensures
        sum_seq(s.take(i + 1)) == sum_seq(s.take(i)) + s[i],
{
    assert(s.take(i + 1).drop_last() =~= s.take(i));
    assert(s.take(i + 1).last() == s[i]);
}

proof fn lemma_sum_seq_ge_take(s: Seq<u64>, i: int)
    requires
        0 <= i <= s.len(),
    ensures
        sum_seq(s) >= sum_seq(s.take(i)),
    decreases s.len() - i,
{
    if i == s.len() {
        assert(s.take(i) =~= s);
    } else {
        lemma_sum_seq_take_succ(s, i);
        lemma_sum_seq_ge_take(s, i + 1);
    }
}

/// Adds up the partial totals that the chunks of a split run returned,
/// or `None` exactly when their sum does not fit an unsigned 64-bit count.
pub fn sum_partials(parts: &Vec<u64>) -> (r: Option<u64>)
    ensures
        (match r {
            Some(t) => t as int == sum_seq(parts@),
            None => sum_seq(parts@) > u64::MAX,
        }),
{
    let mut total: u64 = 0;
    let mut i: usize = 0;
    proof {
        assert(parts@.take(0) =~= Seq::<u64>::empty());
    }
    while i < parts.len()
        invariant
            i <= parts@.len(),
            total as int == sum_seq(parts@.take(i as int)),
        decreases parts@.len() - i,
    {
        let p: u64 = parts[i];
        proof {
            lemma_sum_seq_take_succ(parts@, i as int);
        }
        if total > u64::MAX - p {
            proof {
                lemma_sum_seq_ge_take(parts@, i as int + 1);
            }
            return None;
        }
        total = total + p;
        i = i + 1;
    }
    proof {
        assert(parts@.take(parts@.len() as int) =~= parts@);
    }
    Some(total)
}

/// The split-phase run: a shared prefix of rounds on entity records,
/// then each chunk independently for the remaining rounds, summed.
/// Equal to [`simulate`] run for `total_rounds` at once.
pub fn simulate_split(
    payload: &Vec<u8>,
    reset: u8,
    prefix_rounds: usize,
    total_rounds: usize,
    parts: usize,
) -> (r: Option<u64>)
    requires
        prefix_rounds <= total_rounds,
        1 <= parts,
    ensures
        (match r {
            Some(total) => total as nat == pop_after(
                timers_of(payload@),
                reset as int,
                total_rounds as nat,
            ),
            None => pop_after(timers_of(payload@), reset as int, total_rounds as nat) > u64::MAX,
        }),
{
    let ghost s0: Seq<int> = timers_of(payload@);
    let ghost k: int = reset as int;
    let ghost rrem: nat = (total_rounds - prefix_rounds) as nat;

    let mut staged: Vec<u8> = Vec::new();
    let mut i: usize = 0;
    while i < payload.len()
        invariant
            i <= payload@.len(),
            staged@ == payload@.take(i as int),
        decreases payload@.len() - i,
    {
        let b: u8 = payload[i];
        staged.push(b);
        proof {
            assert(staged@ =~= payload@.take(i as int + 1));
        }
        i = i + 1;
    }
    proof {
        assert(payload@.take(payload@.len() as int) =~= payload@);
    }

    do_work(prefix_rounds, &mut staged, reset);
    let chunks: Vec<Vec<u8>> = split_chunks(&staged, parts);
    let ghost cvs = chunk_views(chunks@);

    proof {
        lemma_round_composability(s0, k, prefix_rounds as nat, rrem);
        lemma_partition_invariance(cvs, k, rrem);
        assert(sum_pops(cvs, k, rrem) == pop_after(s0, k, total_rounds as nat));
        assert(cvs.take(0) =~= Seq::<Seq<int>>::empty());
    }

    let mut acc: u64 = 0;
    let mut ci: usize = 0;
    while ci < chunks.len()
        invariant
            ci <= chunks@.len(),
            cvs == chunk_views(chunks@),
            k == reset as int,
            rrem == (total_rounds - prefix_rounds) as nat,
            prefix_rounds <= total_rounds,
            s0 == timers_of(payload@),
            acc as nat == sum_pops(cvs.take(ci as int), k, rrem),
            sum_pops(cvs, k, rrem) == pop_after(s0, k, total_rounds as nat),
        decreases chunks@.len() - ci,
    {
        let part: Option<u64> = simulate(&chunks[ci], reset, total_rounds - prefix_rounds);
        proof {
            lemma_sum_pops_take_succ(cvs, k, rrem, ci as int);
            lemma_sum_pops_ge_take(cvs, k, rrem, ci as int + 1);
        }
        match part {
            Option::None => {
                return None;
            },
            Option::Some(p) => {
                if acc > u64::MAX - p {
                    return None;
                }
                acc = acc + p;
            },
        }
        ci = ci + 1;
    }
    proof {
        assert(cvs.take(cvs.len() as int) =~= cvs);
    }
    Some(acc)
}

} // verus!
