//! Gathering and counting of whole texts, for any number of workers.

use vstd::prelude::*;
use crate::blocks::{block_hi, block_lo, block_range, law_blocks_join, worker_count, workers};
use crate::gather::{
    count_and_gather_compacted_lms_suffixes_32s_2k_mode, count_and_gather_compacted_lms_suffixes_32s_2k_run,
    count_and_gather_lms_suffixes_32s_2k_mode, count_and_gather_lms_suffixes_32s_2k_run,
    count_and_gather_lms_suffixes_32s_4k_mode, count_and_gather_lms_suffixes_32s_4k_run,
    clear, count_and_gather_lms_suffixes_8u, count_and_gather_lms_suffixes_8u_mode, count_and_gather_lms_suffixes_8u_run,
    count_compacted_lms_suffixes_32s_2k_run, count_lms_suffixes_32s_2k_run, count_lms_suffixes_32s_4k_run,
    gather_compacted_lms_suffixes_32s_run, gather_lms_suffixes_32s_run, gather_lms_suffixes_8u,
    gather_lms_suffixes_8u_run, lemma_lms_slot, lemma_lms_upper, run_type, text32, text8,
    try_count_and_gather_compacted_lms_suffixes_32s_2k, try_count_and_gather_lms_suffixes_32s_2k,
    try_count_and_gather_lms_suffixes_32s_4k, try_count_and_gather_lms_suffixes_8u,
    try_count_compacted_lms_suffixes_32s_2k, try_count_lms_suffixes_32s_2k, try_count_lms_suffixes_32s_4k,
    try_gather_compacted_lms_suffixes_32s, try_gather_lms_suffixes_32s, zeros,
};
use crate::shares::{
    blocks_gathered, blocks_joined, counted_behind, found_from, gathered_by, gathering_entry, holds_share, lemma_block_order, lemma_passed, lemma_share, lemma_share_sums, passed,
    share, share_count, share_start, share_sum,
};
use crate::span::move_within;
use crate::types::{workers_wf, FastSint, SaSint, ThreadState, LIBSAIS_LOCAL_BUFFER_SIZE};

verus! {

/// Gathers the LMS suffixes of the first `n` bytes at slot `n - 1` and in front of it. The slot
/// in front of the first is left with `1`, and the lower slots as they were.
pub fn gather_lms_suffixes_8u_omp(
    t: &[u8],
    sa: &mut [SaSint],
    n: SaSint,
    _threads: SaSint,
    _thread_state: &mut [ThreadState],
)
    requires
        n <= t.len() <= isize::MAX,
        n > 0 ==> {
            let x = gather_lms_suffixes_8u_run(text8(t@), old(sa)@, n as int, (n - 1) as isize, 0, n as int);
            x is Some && 0 <= x.unwrap().2 < old(sa).len()
        },
        n != 1,
    ensures
        final(sa).len() == old(sa).len(),
        n <= 0 ==> final(sa)@ == old(sa)@,
        n > 0 ==> {
            let x = gather_lms_suffixes_8u_run(text8(t@), old(sa)@, n as int, (n - 1) as isize, 0, n as int).unwrap();
            &&& final(sa)@ == x.0.update(x.2 as int, 1)
            &&& forall|j: int| 0 <= j < x.2 ==> #[trigger] final(sa)@[j] == old(sa)@[j]
        },
        final(_thread_state)@ == old(_thread_state)@,
{
    if n > 0 {
        gather_lms_suffixes_8u(t, sa, n, n as FastSint - 1, 0, n as FastSint);
    }
}

/// What is known of the entries of the first `w` of `k` workers once they have passed over
/// their blocks: each holds the counters of its block.
spec fn shares_noted(t: Seq<int>, n: int, k: int, w: int, before: Seq<ThreadState>, after: Seq<ThreadState>) -> bool {
    &&& after.len() == before.len()
    &&& forall|v: int| 0 <= v < w ==> {
        &&& (#[trigger] after[v]).position == block_hi(n, k, v)
        &&& after[v].m == share_count(t, n, k, v)
        &&& after[v].last_lms_suffix == (if share_count(t, n, k, v) > 0 {
            share(t, n, k, v).0[block_hi(n, k, v) - 1] as isize
        } else {
            before[v].last_lms_suffix
        })
        &&& after[v].buckets@ == share(t, n, k, v).1
        &&& after[v].count == before[v].count
        &&& after[v].cache == before[v].cache
    }
    &&& forall|v: int| w <= v < before.len() ==> #[trigger] after[v] == before[v]
}

/// Whether the blocks of the first `w` of `k` workers end with the LMS suffixes that one worker
/// gathers from `sa` on the way over them.
spec fn shares_gathered(t: Seq<int>, sa: Seq<i32>, n: int, len: nat, k: int, w: int, a: Seq<i32>) -> bool {
    forall|v: int| 0 <= v < w ==> holds_share(
        a,
        passed(t, sa, n, len, k, 0).unwrap().0,
        passed(t, sa, n, len, k, v + 1).unwrap().2 as int,
        #[trigger] block_hi(n, k, v),
        share_count(t, n, k, v),
    )
}

/// Lets each of `k` workers count and gather in its block.
fn gather_shares(
    t: &[u8],
    sa: &mut [SaSint],
    n: SaSint,
    k: usize,
    thread_state: &mut [ThreadState],
    Ghost(len): Ghost<nat>,
)
    requires
        1 <= n <= t.len() <= isize::MAX,
        n <= old(sa).len(),
        1 <= k <= old(thread_state).len(),
        workers_wf(old(thread_state)@),
        1024 <= len,
        passed(text8(t@), old(sa)@, n as int, len, k as int, 0) is Some,
    ensures
        final(sa).len() == old(sa).len(),
        forall|p: int| n <= p < old(sa).len() ==> #[trigger] final(sa)@[p] == old(sa)@[p],
        shares_noted(text8(t@), n as int, k as int, k as int, old(thread_state)@, final(thread_state)@),
        shares_gathered(text8(t@), old(sa)@, n as int, len, k as int, k as int, final(sa)@),
        final(sa)@ == blocks_gathered(text8(t@), old(sa)@, n as int, k as int, k as int),
{
    let mut w: usize = 0;
    while w < k
        invariant
            1 <= n <= t.len() <= isize::MAX,
            n <= sa.len(),
            sa.len() == old(sa).len(),
            w <= k <= thread_state.len(),
            thread_state.len() == old(thread_state).len(),
            workers_wf(old(thread_state)@),
            1024 <= len,
            passed(text8(t@), old(sa)@, n as int, len, k as int, 0) is Some,
            forall|p: int| n <= p < old(sa).len() ==> #[trigger] sa@[p] == old(sa)@[p],
            shares_noted(text8(t@), n as int, k as int, w as int, old(thread_state)@, thread_state@),
            shares_gathered(text8(t@), old(sa)@, n as int, len, k as int, w as int, sa@),
            sa@ == blocks_gathered(text8(t@), old(sa)@, n as int, k as int, w as int),
        decreases k - w,
    {
        let (lo, hi) = block_range(n as usize, k, w);
        let ghost a = sa@;
        let ghost x = text8(t@);
        let ghost s0 = old(sa)@;
        proof {
            lemma_share(x, s0, n as int, len, k as int, w as int, a);
            assert(old(thread_state)@[w as int].wf());
            assert(thread_state@[w as int] == old(thread_state)@[w as int]);
        }
        let state: &mut ThreadState = &mut thread_state[w];
        let found: SaSint = count_and_gather_lms_suffixes_8u(
            t, sa, n, state.buckets.as_mut_slice(), lo as FastSint, (hi - lo) as FastSint);
        state.position = hi as FastSint;
        state.m = found as FastSint;
        if found > 0 {
            state.last_lms_suffix = sa[hi - 1] as FastSint;
        }
        proof {
            assert forall|v: int| 0 <= v < w + 1 implies holds_share(
                sa@,
                passed(x, s0, n as int, len, k as int, 0).unwrap().0,
                passed(x, s0, n as int, len, k as int, v + 1).unwrap().2 as int,
                #[trigger] block_hi(n as int, k as int, v),
                share_count(x, n as int, k as int, v),
            ) by {
                if v < w {
                    lemma_block_order(n as int, k as int, v, w as int);
                    lemma_share(x, s0, n as int, len, k as int, v, s0);
                    let all = passed(x, s0, n as int, len, k as int, 0).unwrap().0;
                    let slot = passed(x, s0, n as int, len, k as int, v + 1).unwrap().2 as int;
                    let end = block_hi(n as int, k as int, v);
                    let m = share_count(x, n as int, k as int, v);
                    assert(holds_share(a, all, slot, end, m));
                    assert forall|p: int| end - m <= p < end implies #[trigger] sa@[p] == all[p - (end - 1 - slot)] by {
                        assert(a[p] == all[p - (end - 1 - slot)]);
                        assert(sa@[p] == a[p]);
                    }
                }
            }
        }
        w += 1;
    }
}

/// Adds the counters of a worker to `buckets`, which the worker is left with as they were.
fn pass_counters(buckets: &mut [SaSint], own: &mut [SaSint])
    requires
        1024 <= old(buckets).len(),
        old(own).len() == 1024,
        forall|c: int| 0 <= c < 1024 ==> i32::MIN <= (#[trigger] old(buckets)@[c]) + old(own)@[c] <= i32::MAX,
    ensures
        final(buckets).len() == old(buckets).len(),
        final(own)@ == old(buckets)@.subrange(0, 1024),
        forall|c: int| 0 <= c < 1024 ==> #[trigger] final(buckets)@[c] == old(buckets)@[c] + old(own)@[c],
        forall|c: int| 1024 <= c < old(buckets).len() ==> #[trigger] final(buckets)@[c] == old(buckets)@[c],
{
    let mut c: usize = 0;
    while c < 1024
        invariant
            c <= 1024 <= buckets.len(),
            own.len() == 1024,
            old(own).len() == 1024,
            buckets.len() == old(buckets).len(),
            forall|d: int| 0 <= d < 1024 ==> i32::MIN <= (#[trigger] old(buckets)@[d]) + old(own)@[d] <= i32::MAX,
            forall|d: int| 0 <= d < c ==> #[trigger] buckets@[d] == old(buckets)@[d] + old(own)@[d],
            forall|d: int| c <= d < buckets.len() ==> #[trigger] buckets@[d] == old(buckets)@[d],
            forall|d: int| 0 <= d < c ==> #[trigger] own@[d] == old(buckets)@[d],
            forall|d: int| c <= d < 1024 ==> #[trigger] own@[d] == old(own)@[d],
        decreases 1024 - c,
    {
        let a: SaSint = buckets[c];
        let b: SaSint = own[c];
        assert(a == old(buckets)@[c as int] && b == old(own)@[c as int]);
        buckets[c] = a + b;
        own[c] = a;
        c += 1;
    }
    assert(own@ =~= old(buckets)@.subrange(0, 1024));
}

/// Brings together what `k` workers have counted and gathered in their blocks. Returns how many
/// LMS suffixes there are.
#[verifier::spinoff_prover]
#[verifier::rlimit(40)]
fn join_shares(
    t: &[u8],
    sa: &mut [SaSint],
    n: SaSint,
    buckets: &mut [SaSint],
    k: usize,
    thread_state: &mut [ThreadState],
    Ghost(s0): Ghost<Seq<i32>>,
    Ghost(before): Ghost<Seq<ThreadState>>,
) -> (r: SaSint)
    requires
        1 <= n <= t.len() <= isize::MAX,
        n <= old(sa).len() == s0.len(),
        1 <= k <= old(thread_state).len(),
        1024 <= old(buckets).len(),
        old(buckets)@ == zeros(old(buckets).len() as nat),
        passed(text8(t@), s0, n as int, old(buckets).len() as nat, k as int, 0) is Some,
        shares_noted(text8(t@), n as int, k as int, k as int, before, old(thread_state)@),
        shares_gathered(text8(t@), s0, n as int, old(buckets).len() as nat, k as int, k as int, old(sa)@),
    ensures
        ({
            let x = passed(text8(t@), s0, n as int, old(buckets).len() as nat, k as int, 0).unwrap();
            &&& final(buckets)@ == x.1
            &&& r == n - 1 - x.2
            &&& forall|p: int| n - r <= p < n ==> #[trigger] final(sa)@[p] == x.0[p]
        }),
        final(sa)@ == blocks_joined(text8(t@), old(sa)@, n as int, k as int, 0),
        final(sa).len() == old(sa).len(),
        forall|p: int| n <= p < old(sa).len() ==> #[trigger] final(sa)@[p] == old(sa)@[p],
        final(thread_state).len() == before.len(),
        forall|v: int| 0 <= v < k ==> gathering_entry(text8(t@), n as int, k as int, v, before[v], #[trigger] final(thread_state)@[v]),
        forall|v: int| k <= v < before.len() ==> #[trigger] final(thread_state)@[v] == before[v],
{
    let ghost x = text8(t@);
    let ghost len = buckets.len() as nat;
    let ghost all = passed(x, s0, n as int, len, k as int, 0).unwrap();
    let ghost noted = thread_state@;
    let mut m: SaSint = 0;
    let mut w: usize = k;
    proof {
        lemma_passed(x, s0, n as int, len, k as int, k as int);
        assert(share_start(n as int, k as int, k as int) == n);
        lemma_share_sums(x, s0, n as int, len, k as int, k as int);
    }
    while w > 0
        invariant
            1 <= n <= t.len() <= isize::MAX,
            n <= sa.len() == s0.len(),
            sa.len() == old(sa).len(),
            w <= k <= thread_state.len(),
            1 <= k,
            1024 <= buckets.len() == len,
            x == text8(t@),
            passed(x, s0, n as int, len, k as int, 0) == Some(all),
            shares_noted(x, n as int, k as int, k as int, before, noted),
            shares_gathered(x, s0, n as int, len, k as int, k as int, old(sa)@),
            passed(x, s0, n as int, len, k as int, w as int) is Some,
            buckets@ == passed(x, s0, n as int, len, k as int, w as int).unwrap().1,
            m == n - 1 - passed(x, s0, n as int, len, k as int, w as int).unwrap().2,
            0 <= m <= n - share_start(n as int, k as int, w as int),
            m == found_from(x, n as int, k as int, w as int),
            sa@ == blocks_joined(x, old(sa)@, n as int, k as int, w as int),
            forall|p: int| n - m <= p < n ==> #[trigger] sa@[p] == all.0[p],
            forall|p: int| 0 <= p < share_start(n as int, k as int, w as int) ==> #[trigger] sa@[p] == old(sa)@[p],
            forall|p: int| n <= p < old(sa).len() ==> #[trigger] sa@[p] == old(sa)@[p],
            thread_state.len() == before.len(),
            forall|v: int| w <= v < k ==> gathering_entry(x, n as int, k as int, v, before[v], #[trigger] thread_state@[v]),
            forall|v: int| 0 <= v < w ==> #[trigger] thread_state@[v] == noted[v],
            forall|v: int| k <= v < before.len() ==> #[trigger] thread_state@[v] == before[v],
        decreases w,
    {
        w -= 1;
        let ghost q = passed(x, s0, n as int, len, k as int, w as int).unwrap();
        let ghost q1 = passed(x, s0, n as int, len, k as int, w + 1).unwrap();
        let ghost hi = block_hi(n as int, k as int, w as int);
        let ghost a = sa@;
        let ghost m1 = m;
        proof {
            lemma_passed(x, s0, n as int, len, k as int, w as int);
            lemma_passed(x, s0, n as int, len, k as int, w + 1);
            lemma_share(x, s0, n as int, len, k as int, w as int, s0);
            lemma_share_sums(x, s0, n as int, len, k as int, w + 1);
            law_blocks_join(n as int, k as int, w as int);
            assert(noted[w as int].m == share_count(x, n as int, k as int, w as int));
            assert(share_start(n as int, k as int, w + 1) == hi);
            assert(holds_share(old(sa)@, all.0, q1.2 as int, hi, share_count(x, n as int, k as int, w as int)));
        }
        let state: &mut ThreadState = &mut thread_state[w];
        let found: SaSint = state.m as SaSint;
        m = m + found;
        if w + 1 < k && found > 0 {
            move_within(sa, state.position as usize - found as usize, found as usize, n as usize - m as usize);
        }
        proof {
            assert forall|p: int| n - m <= p < n implies #[trigger] sa@[p] == all.0[p] by {
                if p < n - m1 {
                    let p1 = p - (n - m) + (hi - found);
                    assert(old(sa)@[p1] == all.0[p1 - (hi - 1 - q1.2)]);
                    assert(a[p1] == old(sa)@[p1]);
                } else {
                    assert(a[p] == all.0[p]);
                }
            }
            assert forall|c: int| 0 <= c < 1024 implies i32::MIN <= (#[trigger] buckets@[c]) + state.buckets@[c] <= i32::MAX by {
                assert(q.1[c] - q1.1[c] == state.buckets@[c]);
            }
        }
        pass_counters(buckets, state.buckets.as_mut_slice());
        proof {
            assert(buckets@ =~= q.1) by {
                assert forall|c: int| 0 <= c < len implies buckets@[c] == q.1[c] by {
                    if c < 1024 {
                        assert(q.1[c] - q1.1[c] == noted[w as int].buckets@[c]);
                    }
                }
            }
            assert(state.buckets@ =~= counted_behind(x, n as int, k as int, w as int)) by {
                assert forall|c: int| 0 <= c < 1024 implies state.buckets@[c] == counted_behind(x, n as int, k as int, w as int)[c] by {
                    assert(q1.1[c] == share_sum(x, n as int, k as int, w + 1, c));
                }
            }
        }
    }
    proof {
        law_blocks_join(n as int, k as int, 0);
    }
    m
}

/// Counts the symbols of the first `n` bytes by type and gathers the LMS suffixes at the
/// end of the first `n` slots. Returns how many there are. Several workers count and gather in
/// their blocks first, and note what they found there; what they gathered is then moved to the
/// end.
pub fn count_and_gather_lms_suffixes_8u_omp(
    t: &[u8],
    sa: &mut [SaSint],
    n: SaSint,
    buckets: &mut [SaSint],
    threads: SaSint,
    thread_state: &mut [ThreadState],
) -> (r: SaSint)
    requires
        0 <= n <= t.len() <= isize::MAX,
        workers(threads as int, n >= 65536, old(thread_state).len() as int) > 1
            ==> workers_wf(old(thread_state)@) && 1024 <= old(buckets).len(),
        count_and_gather_lms_suffixes_8u_run(text8(t@), old(sa)@, n as int, old(buckets).len() as nat, 0, n as int) is Some,
    ensures
        ({
            let x = count_and_gather_lms_suffixes_8u_run(
                text8(t@), old(sa)@, n as int, old(buckets).len() as nat, 0, n as int)->0;
            let k = workers(threads as int, n >= 65536, old(thread_state).len() as int);
            &&& final(buckets)@ == x.1
            &&& r == n - 1 - x.2
            &&& final(sa).len() == old(sa).len()
            &&& forall|p: int| n - r <= p < n ==> #[trigger] final(sa)@[p] == x.0[p]
            &&& forall|p: int| n <= p < old(sa).len() ==> #[trigger] final(sa)@[p] == old(sa)@[p]
            &&& k == 1 ==> final(sa)@ == x.0 && final(thread_state)@ == old(thread_state)@
            &&& k > 1 ==> final(sa)@ == gathered_by(text8(t@), old(sa)@, n as int, k)
            &&& k > 1 ==> forall|w: int| 0 <= w < k ==> gathering_entry(
                text8(t@), n as int, k, w, old(thread_state)@[w], #[trigger] final(thread_state)@[w])
            &&& k > 1 ==> forall|w: int| k <= w < old(thread_state).len()
                ==> #[trigger] final(thread_state)@[w] == old(thread_state)@[w]
        }),
        final(thread_state).len() == old(thread_state).len(),
{
    let k: usize = worker_count(threads, n >= 65536, thread_state.len());
    proof {
        if n > 0 {
            let s = (sa@, zeros(buckets.len() as nat), (n - 1) as isize, run_type(text8(t@), n as int, n - 1));
            lemma_lms_slot(text8(t@), count_and_gather_lms_suffixes_8u_mode(), s, -1, n - 1);
            lemma_lms_upper(text8(t@), count_and_gather_lms_suffixes_8u_mode(), s, -1, n - 1);
        }
    }
    if k == 1 {
        return match try_count_and_gather_lms_suffixes_8u(t, sa, n, buckets, 0, n as FastSint) {
            Some(m) => m,
            None => 0,
        };
    }
    proof {
        assert(block_lo(n as int, k as int, 0) == 0);
        lemma_passed(text8(t@), sa@, n as int, buckets.len() as nat, k as int, 0);
    }
    gather_shares(t, sa, n, k, thread_state, Ghost(buckets.len() as nat));
    clear(buckets);
    join_shares(t, sa, n, buckets, k, thread_state, Ghost(old(sa)@), Ghost(old(thread_state)@))
}

/// The quotient of two integers, rounded towards zero.
pub open spec fn truncated_quotient(a: int, b: int) -> int {
    if a >= 0 {
        if b > 0 {
            a / b
        } else {
            -(a / -b)
        }
    } else if b > 0 {
        -(-a / b)
    } else {
        -a / -b
    }
}

/// Computes [`truncated_quotient`].
fn quotient(a: isize, b: isize) -> (r: i128)
    requires
        b != 0,
    ensures
        r == truncated_quotient(a as int, b as int),
{
    let x: u128 = if a >= 0 { a as u128 } else { (-(a as i128)) as u128 };
    let y: u128 = if b > 0 { b as u128 } else { (-(b as i128)) as u128 };
    let q: u128 = x / y;
    proof {
        assert(q <= x) by (nonlinear_arith)
            requires
                q == x / y,
                y >= 1,
        ;
    }
    if (a >= 0) == (b > 0) {
        q as i128
    } else {
        -(q as i128)
    }
}

/// The least multiple of `unit` that is not below `x`.
pub open spec fn rounded_up(x: int, unit: int) -> int {
    (x + unit - 1) / unit * unit
}

/// Computes [`rounded_up`] for the units 16 and 1024.
fn round_up(x: isize, unit: isize) -> (r: isize)
    requires
        unit == 16 || unit == 1024,
        x + unit - 1 <= isize::MAX,
    ensures
        r == rounded_up(x as int, unit as int),
{
    let y: i128 = x as i128 + unit as i128 - 1;
    let big: i128 = y + 0x1_0000_0000_0000_0000;
    assert(big >= 0);
    let z: i128 = (big as u128 / unit as u128 * unit as u128) as i128 - 0x1_0000_0000_0000_0000;
    proof {
        if unit == 16 {
            assert(big / 16 == y as int / 16 + 0x1000_0000_0000_0000);
        } else {
            assert(big / 1024 == y as int / 1024 + 0x40_0000_0000_0000);
        }
    }
    z as isize
}

/// The distance between the counters of two workers: padded to 1024 slots where `free_space`
/// allows it, else to 16 slots where it allows that, else not padded.
pub fn get_bucket_stride(free_space: FastSint, bucket_size: FastSint, num_buckets: FastSint) -> (r: FastSint)
    requires
        num_buckets != 1,
        isize::MIN < num_buckets,
        bucket_size + 1023 <= isize::MAX,
    ensures
        r == (if truncated_quotient(free_space as int, num_buckets - 1) >= rounded_up(bucket_size as int, 1024) {
            rounded_up(bucket_size as int, 1024)
        } else if truncated_quotient(free_space as int, num_buckets - 1) >= rounded_up(bucket_size as int, 16) {
            rounded_up(bucket_size as int, 16)
        } else {
            bucket_size as int
        }),
{
    let share: i128 = quotient(free_space, num_buckets - 1);
    let wide: FastSint = round_up(bucket_size, 1024);
    if share >= wide as i128 {
        return wide;
    }
    let padded: FastSint = round_up(bucket_size, 16);
    if share >= padded as i128 {
        return padded;
    }
    bucket_size
}

/// Whether the counters of several workers would fit the free space, for `lanes` counters
/// for each symbol.
pub open spec fn shares_counters(n: int, k: int, len: int, local_buckets: int, threads: int, lanes: int) -> bool {
    let free = if local_buckets != 0 {
        LIBSAIS_LOCAL_BUFFER_SIZE as int
    } else {
        len
    };
    let room = free / rounded_up(lanes * k, 16);
    n >= 65536 && n / k >= 2 && threads > 1 && room > 1
}

/// Computes [`shares_counters`].
fn counters_shared(n: SaSint, k: SaSint, len: usize, local_buckets: SaSint, threads: SaSint, lanes: usize) -> (r: bool)
    requires
        k >= 1,
        lanes == 2 || lanes == 4,
    ensures
        r == shares_counters(n as int, k as int, len as int, local_buckets as int, threads as int, lanes as int),
{
    let free: u64 = if local_buckets != 0 { LIBSAIS_LOCAL_BUFFER_SIZE as u64 } else { len as u64 };
    let size: u64 = if lanes == 2 { 2 * (k as u64) } else { 4 * (k as u64) };
    let padded: u64 = (size + 15) / 16 * 16;
    let room: u64 = free / padded;
    n >= 65536 && n / k >= 2 && threads > 1 && room > 1
}

/// What [`count_and_gather_lms_suffixes_32s_4k_nofs_omp`] leaves: the array, the counters, and the slot
/// in front of the gathered suffixes.
pub open spec fn plain_4k_nofs_run(
    t: Seq<int>,
    sa: Seq<i32>,
    n: int,
    len: nat,
    threads: int,
) -> Option<(Seq<i32>, Seq<i32>, int)> {
    if !(1 <= n <= t.len()) {
        None
    } else if threads > 1 && n >= 65536 {
        match count_lms_suffixes_32s_4k_run(t, n, len) {
            Some(c) => match gather_lms_suffixes_32s_run(t, sa, n) {
                Some(g) => Some((g.0, c.1, n - 1 - g.2)),
                None => None,
            },
            None => None,
        }
    } else {
        match count_and_gather_lms_suffixes_32s_4k_run(t, sa, n, len, 0, n) {
            Some(x) => Some((x.0, x.1, n - 1 - x.2)),
            None => None,
        }
    }
}

/// Counts the symbols by type and gathers the LMS suffixes.
///
/// `None` where a slot is out of range.
pub(crate) fn try_plain_4k_nofs(
    t: &[SaSint],
    sa: &mut [SaSint],
    n: SaSint,
    buckets: &mut [SaSint],
    threads: SaSint,
) -> (r: Option<SaSint>)
    requires
        t.len() <= isize::MAX,
    ensures
        r is Some == (plain_4k_nofs_run(text32(t@), old(sa)@, n as int, old(buckets).len() as nat, threads as int) is Some),
        r is Some ==> plain_4k_nofs_run(text32(t@), old(sa)@, n as int, old(buckets).len() as nat, threads as int)
            == Some((final(sa)@, final(buckets)@, r->0 as int)),
        final(sa).len() == old(sa).len(),
        final(buckets).len() == old(buckets).len(),
{
    if n < 1 || n as u64 > t.len() as u64 {
        return None;
    }
    if threads > 1 && n >= 65536 {
        if !try_count_lms_suffixes_32s_4k(t, n, buckets) {
            return None;
        }
        try_gather_lms_suffixes_32s(t, sa, n)
    } else {
        proof {
            lemma_lms_slot(
                text32(t@),
                count_and_gather_lms_suffixes_32s_4k_mode(),
                (sa@, zeros(buckets.len() as nat), (n - 1) as isize, run_type(text32(t@), n as int, n - 1)),
                -1,
                n - 1,
            );
        }
        try_count_and_gather_lms_suffixes_32s_4k(t, sa, n, buckets, 0, n as FastSint)
    }
}

/// Counts the symbols by type and gathers the LMS suffixes. Two passes do the work where several workers are asked for
/// and the text is long. Returns how many suffixes were gathered.
pub fn count_and_gather_lms_suffixes_32s_4k_nofs_omp(
    t: &[SaSint],
    sa: &mut [SaSint],
    n: SaSint,
    k: SaSint,
    buckets: &mut [SaSint],
    threads: SaSint,
) -> (r: SaSint)
    requires
        t.len() <= isize::MAX,
        0 <= k,
        plain_4k_nofs_run(text32(t@), old(sa)@, n as int, old(buckets).len() as nat, threads as int) is Some,
    ensures
        plain_4k_nofs_run(text32(t@), old(sa)@, n as int, old(buckets).len() as nat, threads as int)
            == Some((final(sa)@, final(buckets)@, r as int)),
{
    match try_plain_4k_nofs(t, sa, n, buckets, threads) {
        Some(r) => r,
        None => 0,
    }
}

/// Counts the symbols by type and gathers the LMS suffixes. The text is one block: there is one worker, or the text is
/// short. Returns how many suffixes were gathered.
pub fn count_and_gather_lms_suffixes_32s_4k_fs_omp(
    t: &[SaSint],
    sa: &mut [SaSint],
    n: SaSint,
    k: SaSint,
    buckets: &mut [SaSint],
    _local_buckets: SaSint,
    threads: SaSint,
    _thread_state: &mut [ThreadState],
) -> (r: SaSint)
    requires
        t.len() <= isize::MAX,
        0 <= k,
        0 <= threads,
        threads <= 1 || n < 65536,
        plain_4k_nofs_run(text32(t@), old(sa)@, n as int, old(buckets).len() as nat, 1) is Some,
    ensures
        plain_4k_nofs_run(text32(t@), old(sa)@, n as int, old(buckets).len() as nat, 1)
            == Some((final(sa)@, final(buckets)@, r as int)),
        final(_thread_state)@ == old(_thread_state)@,
{
    match try_plain_4k_nofs(t, sa, n, buckets, 1) {
        Some(r) => r,
        None => 0,
    }
}

/// What [`count_and_gather_lms_suffixes_32s_4k_omp`] leaves: the array, the counters, and the number of
/// suffixes gathered.
pub open spec fn plain_4k_omp_run(
    t: Seq<int>,
    sa: Seq<i32>,
    n: int,
    k: int,
    len: nat,
    local_buckets: int,
    threads: int,
) -> Option<(Seq<i32>, Seq<i32>, int)> {
    if k < 1 || shares_counters(n, k, len as int, local_buckets, threads, 4) {
        None
    } else {
        plain_4k_nofs_run(t, sa, n, len, threads)
    }
}

/// Counts the symbols by type and gathers the LMS suffixes.
///
/// `None` where a slot is out of range.
pub(crate) fn try_plain_4k_omp(
    t: &[SaSint],
    sa: &mut [SaSint],
    n: SaSint,
    k: SaSint,
    buckets: &mut [SaSint],
    local_buckets: SaSint,
    threads: SaSint,
) -> (r: Option<SaSint>)
    requires
        t.len() <= isize::MAX,
    ensures
        r is Some == (plain_4k_omp_run(
            text32(t@), old(sa)@, n as int, k as int, old(buckets).len() as nat, local_buckets as int, threads as int) is Some),
        r is Some ==> plain_4k_omp_run(
            text32(t@), old(sa)@, n as int, k as int, old(buckets).len() as nat, local_buckets as int, threads as int)
            == Some((final(sa)@, final(buckets)@, r->0 as int)),
        final(sa).len() == old(sa).len(),
        final(buckets).len() == old(buckets).len(),
{
    if k < 1 || counters_shared(n, k, buckets.len(), local_buckets, threads, 4) {
        return None;
    }
    try_plain_4k_nofs(t, sa, n, buckets, threads)
}

/// Counts the symbols by type and gathers the LMS suffixes. Returns how many suffixes were gathered.
pub fn count_and_gather_lms_suffixes_32s_4k_omp(
    t: &[SaSint],
    sa: &mut [SaSint],
    n: SaSint,
    k: SaSint,
    buckets: &mut [SaSint],
    local_buckets: SaSint,
    threads: SaSint,
    _thread_state: &mut [ThreadState],
) -> (r: SaSint)
    requires
        t.len() <= isize::MAX,
        plain_4k_omp_run(
            text32(t@), old(sa)@, n as int, k as int, old(buckets).len() as nat, local_buckets as int, threads as int) is Some,
    ensures
        plain_4k_omp_run(
            text32(t@), old(sa)@, n as int, k as int, old(buckets).len() as nat, local_buckets as int, threads as int)
            == Some((final(sa)@, final(buckets)@, r as int)),
        final(_thread_state)@ == old(_thread_state)@,
{
    match try_plain_4k_omp(t, sa, n, k, buckets, local_buckets, threads) {
        Some(r) => r,
        None => 0,
    }
}

/// What [`count_and_gather_lms_suffixes_32s_2k_nofs_omp`] leaves: the array, the counters, and the slot
/// in front of the gathered suffixes.
pub open spec fn plain_2k_nofs_run(
    t: Seq<int>,
    sa: Seq<i32>,
    n: int,
    len: nat,
    threads: int,
) -> Option<(Seq<i32>, Seq<i32>, int)> {
    if !(1 <= n <= t.len()) {
        None
    } else if threads > 1 && n >= 65536 {
        match count_lms_suffixes_32s_2k_run(t, n, len) {
            Some(c) => match gather_lms_suffixes_32s_run(t, sa, n) {
                Some(g) => Some((g.0, c.1, n - 1 - g.2)),
                None => None,
            },
            None => None,
        }
    } else {
        match count_and_gather_lms_suffixes_32s_2k_run(t, sa, n, len, 0, n) {
            Some(x) => Some((x.0, x.1, n - 1 - x.2)),
            None => None,
        }
    }
}

/// Counts the symbols, LMS suffixes apart, and gathers these.
///
/// `None` where a slot is out of range.
pub(crate) fn try_plain_2k_nofs(
    t: &[SaSint],
    sa: &mut [SaSint],
    n: SaSint,
    buckets: &mut [SaSint],
    threads: SaSint,
) -> (r: Option<SaSint>)
    requires
        t.len() <= isize::MAX,
    ensures
        r is Some == (plain_2k_nofs_run(text32(t@), old(sa)@, n as int, old(buckets).len() as nat, threads as int) is Some),
        r is Some ==> plain_2k_nofs_run(text32(t@), old(sa)@, n as int, old(buckets).len() as nat, threads as int)
            == Some((final(sa)@, final(buckets)@, r->0 as int)),
        final(sa).len() == old(sa).len(),
        final(buckets).len() == old(buckets).len(),
{
    if n < 1 || n as u64 > t.len() as u64 {
        return None;
    }
    if threads > 1 && n >= 65536 {
        if !try_count_lms_suffixes_32s_2k(t, n, buckets) {
            return None;
        }
        try_gather_lms_suffixes_32s(t, sa, n)
    } else {
        proof {
            lemma_lms_slot(
                text32(t@),
                count_and_gather_lms_suffixes_32s_2k_mode(),
                (sa@, zeros(buckets.len() as nat), (n - 1) as isize, run_type(text32(t@), n as int, n - 1)),
                -1,
                n - 1,
            );
        }
        try_count_and_gather_lms_suffixes_32s_2k(t, sa, n, buckets, 0, n as FastSint)
    }
}

/// Counts the symbols, LMS suffixes apart, and gathers these. Two passes do the work where several workers are asked for
/// and the text is long. Returns how many suffixes were gathered.
pub fn count_and_gather_lms_suffixes_32s_2k_nofs_omp(
    t: &[SaSint],
    sa: &mut [SaSint],
    n: SaSint,
    k: SaSint,
    buckets: &mut [SaSint],
    threads: SaSint,
) -> (r: SaSint)
    requires
        t.len() <= isize::MAX,
        0 <= k,
        plain_2k_nofs_run(text32(t@), old(sa)@, n as int, old(buckets).len() as nat, threads as int) is Some,
    ensures
        plain_2k_nofs_run(text32(t@), old(sa)@, n as int, old(buckets).len() as nat, threads as int)
            == Some((final(sa)@, final(buckets)@, r as int)),
{
    match try_plain_2k_nofs(t, sa, n, buckets, threads) {
        Some(r) => r,
        None => 0,
    }
}

/// Counts the symbols, LMS suffixes apart, and gathers these. The text is one block: there is one worker, or the text is
/// short. Returns how many suffixes were gathered.
pub fn count_and_gather_lms_suffixes_32s_2k_fs_omp(
    t: &[SaSint],
    sa: &mut [SaSint],
    n: SaSint,
    k: SaSint,
    buckets: &mut [SaSint],
    _local_buckets: SaSint,
    threads: SaSint,
    _thread_state: &mut [ThreadState],
) -> (r: SaSint)
    requires
        t.len() <= isize::MAX,
        0 <= k,
        0 <= threads,
        threads <= 1 || n < 65536,
        plain_2k_nofs_run(text32(t@), old(sa)@, n as int, old(buckets).len() as nat, 1) is Some,
    ensures
        plain_2k_nofs_run(text32(t@), old(sa)@, n as int, old(buckets).len() as nat, 1)
            == Some((final(sa)@, final(buckets)@, r as int)),
        final(_thread_state)@ == old(_thread_state)@,
{
    match try_plain_2k_nofs(t, sa, n, buckets, 1) {
        Some(r) => r,
        None => 0,
    }
}

/// What [`count_and_gather_lms_suffixes_32s_2k_omp`] leaves: the array, the counters, and the number of
/// suffixes gathered.
pub open spec fn plain_2k_omp_run(
    t: Seq<int>,
    sa: Seq<i32>,
    n: int,
    k: int,
    len: nat,
    local_buckets: int,
    threads: int,
) -> Option<(Seq<i32>, Seq<i32>, int)> {
    if k < 1 || shares_counters(n, k, len as int, local_buckets, threads, 2) {
        None
    } else {
        plain_2k_nofs_run(t, sa, n, len, threads)
    }
}

/// Counts the symbols, LMS suffixes apart, and gathers these.
///
/// `None` where a slot is out of range.
pub(crate) fn try_plain_2k_omp(
    t: &[SaSint],
    sa: &mut [SaSint],
    n: SaSint,
    k: SaSint,
    buckets: &mut [SaSint],
    local_buckets: SaSint,
    threads: SaSint,
) -> (r: Option<SaSint>)
    requires
        t.len() <= isize::MAX,
    ensures
        r is Some == (plain_2k_omp_run(
            text32(t@), old(sa)@, n as int, k as int, old(buckets).len() as nat, local_buckets as int, threads as int) is Some),
        r is Some ==> plain_2k_omp_run(
            text32(t@), old(sa)@, n as int, k as int, old(buckets).len() as nat, local_buckets as int, threads as int)
            == Some((final(sa)@, final(buckets)@, r->0 as int)),
        final(sa).len() == old(sa).len(),
        final(buckets).len() == old(buckets).len(),
{
    if k < 1 || counters_shared(n, k, buckets.len(), local_buckets, threads, 2) {
        return None;
    }
    try_plain_2k_nofs(t, sa, n, buckets, threads)
}

/// Counts the symbols, LMS suffixes apart, and gathers these. Returns how many suffixes were gathered.
pub fn count_and_gather_lms_suffixes_32s_2k_omp(
    t: &[SaSint],
    sa: &mut [SaSint],
    n: SaSint,
    k: SaSint,
    buckets: &mut [SaSint],
    local_buckets: SaSint,
    threads: SaSint,
    _thread_state: &mut [ThreadState],
) -> (r: SaSint)
    requires
        t.len() <= isize::MAX,
        plain_2k_omp_run(
            text32(t@), old(sa)@, n as int, k as int, old(buckets).len() as nat, local_buckets as int, threads as int) is Some,
    ensures
        plain_2k_omp_run(
            text32(t@), old(sa)@, n as int, k as int, old(buckets).len() as nat, local_buckets as int, threads as int)
            == Some((final(sa)@, final(buckets)@, r as int)),
        final(_thread_state)@ == old(_thread_state)@,
{
    match try_plain_2k_omp(t, sa, n, k, buckets, local_buckets, threads) {
        Some(r) => r,
        None => 0,
    }
}

/// What [`count_and_gather_compacted_lms_suffixes_32s_2k_nofs_omp`] leaves: the array, the counters, and the slot
/// in front of the gathered suffixes.
pub open spec fn compacted_2k_nofs_run(
    t: Seq<int>,
    sa: Seq<i32>,
    n: int,
    len: nat,
    threads: int,
) -> Option<(Seq<i32>, Seq<i32>, int)> {
    if !(1 <= n <= t.len()) {
        None
    } else if threads > 1 && n >= 65536 {
        match count_compacted_lms_suffixes_32s_2k_run(t, n, len) {
            Some(c) => match gather_compacted_lms_suffixes_32s_run(t, sa, n) {
                Some(g) => Some((g.0, c.1, n - 1 - g.2)),
                None => None,
            },
            None => None,
        }
    } else {
        match count_and_gather_compacted_lms_suffixes_32s_2k_run(t, sa, n, len, 0, n) {
            Some(x) => Some((x.0, x.1, n - 1 - x.2)),
            None => None,
        }
    }
}

/// Counts the unmarked symbols and gathers the unmarked LMS suffixes.
///
/// `None` where a slot is out of range.
pub(crate) fn try_compacted_2k_nofs(
    t: &[SaSint],
    sa: &mut [SaSint],
    n: SaSint,
    buckets: &mut [SaSint],
    threads: SaSint,
) -> (r: Option<SaSint>)
    requires
        t.len() <= isize::MAX,
    ensures
        r is Some == (compacted_2k_nofs_run(text32(t@), old(sa)@, n as int, old(buckets).len() as nat, threads as int) is Some),
        r is Some ==> compacted_2k_nofs_run(text32(t@), old(sa)@, n as int, old(buckets).len() as nat, threads as int)
            == Some((final(sa)@, final(buckets)@, r->0 as int)),
        final(sa).len() == old(sa).len(),
        final(buckets).len() == old(buckets).len(),
{
    if n < 1 || n as u64 > t.len() as u64 {
        return None;
    }
    if threads > 1 && n >= 65536 {
        if !try_count_compacted_lms_suffixes_32s_2k(t, n, buckets) {
            return None;
        }
        try_gather_compacted_lms_suffixes_32s(t, sa, n)
    } else {
        proof {
            lemma_lms_slot(
                text32(t@),
                count_and_gather_compacted_lms_suffixes_32s_2k_mode(),
                (sa@, zeros(buckets.len() as nat), (n - 1) as isize, run_type(text32(t@), n as int, n - 1)),
                -1,
                n - 1,
            );
        }
        try_count_and_gather_compacted_lms_suffixes_32s_2k(t, sa, n, buckets, 0, n as FastSint)
    }
}

/// Counts the unmarked symbols and gathers the unmarked LMS suffixes. Two passes do the work where several workers are asked for
/// and the text is long. Returns how many suffixes were gathered.
pub fn count_and_gather_compacted_lms_suffixes_32s_2k_nofs_omp(
    t: &[SaSint],
    sa: &mut [SaSint],
    n: SaSint,
    k: SaSint,
    buckets: &mut [SaSint],
    threads: SaSint,
) -> (r: SaSint)
    requires
        t.len() <= isize::MAX,
        0 <= k,
        compacted_2k_nofs_run(text32(t@), old(sa)@, n as int, old(buckets).len() as nat, threads as int) is Some,
    ensures
        compacted_2k_nofs_run(text32(t@), old(sa)@, n as int, old(buckets).len() as nat, threads as int)
            == Some((final(sa)@, final(buckets)@, r as int)),
{
    match try_compacted_2k_nofs(t, sa, n, buckets, threads) {
        Some(r) => r,
        None => 0,
    }
}

/// Counts the unmarked symbols and gathers the unmarked LMS suffixes. The text is one block: there is one worker, or the text is
/// short.
pub fn count_and_gather_compacted_lms_suffixes_32s_2k_fs_omp(
    t: &[SaSint],
    sa: &mut [SaSint],
    n: SaSint,
    k: SaSint,
    buckets: &mut [SaSint],
    _local_buckets: SaSint,
    threads: SaSint,
    _thread_state: &mut [ThreadState],
)
    requires
        t.len() <= isize::MAX,
        0 <= k,
        0 <= threads,
        threads <= 1 || n < 65536,
        compacted_2k_nofs_run(text32(t@), old(sa)@, n as int, old(buckets).len() as nat, 1) is Some,
    ensures
        compacted_2k_nofs_run(text32(t@), old(sa)@, n as int, old(buckets).len() as nat, 1)
            matches Some(x) && final(sa)@ == x.0 && final(buckets)@ == x.1,
        final(_thread_state)@ == old(_thread_state)@,
{
    let _m: SaSint = match try_compacted_2k_nofs(t, sa, n, buckets, 1) {
        Some(r) => r,
        None => 0,
    };
}

/// What [`count_and_gather_compacted_lms_suffixes_32s_2k_omp`] leaves: the array, the counters, and the number of
/// suffixes gathered.
pub open spec fn compacted_2k_omp_run(
    t: Seq<int>,
    sa: Seq<i32>,
    n: int,
    k: int,
    len: nat,
    local_buckets: int,
    threads: int,
) -> Option<(Seq<i32>, Seq<i32>, int)> {
    if k < 1 || local_buckets == 0 && shares_counters(n, k, len as int, local_buckets, threads, 2) {
        None
    } else {
        compacted_2k_nofs_run(t, sa, n, len, threads)
    }
}

/// Counts the unmarked symbols and gathers the unmarked LMS suffixes.
///
/// `false` where a slot is out of range.
pub(crate) fn try_compacted_2k_omp(
    t: &[SaSint],
    sa: &mut [SaSint],
    n: SaSint,
    k: SaSint,
    buckets: &mut [SaSint],
    local_buckets: SaSint,
    threads: SaSint,
) -> (ok: bool)
    requires
        t.len() <= isize::MAX,
    ensures
        ok == (compacted_2k_omp_run(
            text32(t@), old(sa)@, n as int, k as int, old(buckets).len() as nat, local_buckets as int, threads as int) is Some),
        ok ==> (compacted_2k_omp_run(
            text32(t@), old(sa)@, n as int, k as int, old(buckets).len() as nat, local_buckets as int, threads as int)
            matches Some(x) && final(sa)@ == x.0 && final(buckets)@ == x.1),
        final(sa).len() == old(sa).len(),
        final(buckets).len() == old(buckets).len(),
{
    if k < 1 || local_buckets == 0 && counters_shared(n, k, buckets.len(), local_buckets, threads, 2) {
        return false;
    }
    match try_compacted_2k_nofs(t, sa, n, buckets, threads) {
        Some(_) => true,
        None => false,
    }
}

/// Counts the unmarked symbols and gathers the unmarked LMS suffixes.
pub fn count_and_gather_compacted_lms_suffixes_32s_2k_omp(
    t: &[SaSint],
    sa: &mut [SaSint],
    n: SaSint,
    k: SaSint,
    buckets: &mut [SaSint],
    local_buckets: SaSint,
    threads: SaSint,
    _thread_state: &mut [ThreadState],
)
    requires
        t.len() <= isize::MAX,
        compacted_2k_omp_run(
            text32(t@), old(sa)@, n as int, k as int, old(buckets).len() as nat, local_buckets as int, threads as int) is Some,
    ensures
        compacted_2k_omp_run(
            text32(t@), old(sa)@, n as int, k as int, old(buckets).len() as nat, local_buckets as int, threads as int)
            matches Some(x) && final(sa)@ == x.0 && final(buckets)@ == x.1,
        final(_thread_state)@ == old(_thread_state)@,
{
    let _ok: bool = try_compacted_2k_omp(t, sa, n, k, buckets, local_buckets, threads);
}

} // verus!
