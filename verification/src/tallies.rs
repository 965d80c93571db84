//! What workers count in their blocks and note in their working storage.

use vstd::prelude::*;
use crate::blocks::{block_hi, block_lo, block_range};
use crate::radix::{
    count_negative_marked_in, count_negative_marked_suffixes, count_zero_marked_in, count_zero_marked_suffixes,
};
use crate::types::{FastSint, SaSint, ThreadState};

verus! {

/// The working storage `s` where each of the first `k` workers has noted its count.
pub open spec fn tallied(s: Seq<ThreadState>, k: int, count: spec_fn(int) -> int) -> Seq<ThreadState> {
    Seq::new(s.len(), |w: int| if w < k { ThreadState { count: count(w) as isize, ..s[w] } } else { s[w] })
}

/// How many of the first `n` entries of `s` are marked in the block of a worker of `k`.
pub open spec fn negatives(s: Seq<i32>, n: int, k: int) -> spec_fn(int) -> int {
    |w: int| count_negative_marked_in(s, block_lo(n, k, w), block_hi(n, k, w))
}

/// How many of the first `n` entries of `s` are zero in the block of a worker of `k`.
pub open spec fn zeros_of(s: Seq<i32>, n: int, k: int) -> spec_fn(int) -> int {
    |w: int| count_zero_marked_in(s, block_lo(n, k, w), block_hi(n, k, w))
}

/// A range holds no more marked entries than it is long.
pub proof fn lemma_negative_bound(s: Seq<i32>, lo: int, hi: int)
    requires
        lo <= hi,
    ensures
        0 <= count_negative_marked_in(s, lo, hi) <= hi - lo,
    decreases hi - lo,
{
    if lo < hi {
        lemma_negative_bound(s, lo, hi - 1);
    }
}

/// A range holds no more zeros than it is long.
pub proof fn lemma_zero_bound(s: Seq<i32>, lo: int, hi: int)
    requires
        lo <= hi,
    ensures
        0 <= count_zero_marked_in(s, lo, hi) <= hi - lo,
    decreases hi - lo,
{
    if lo < hi {
        lemma_zero_bound(s, lo, hi - 1);
    }
}

/// Notes for each of `k` workers how many of the first `n` entries are marked in its block.
pub(crate) fn tally_negatives(s: &[SaSint], n: SaSint, k: usize, thread_state: &mut [ThreadState])
    requires
        0 <= n <= s.len(),
        1 <= k <= old(thread_state).len(),
    ensures
        final(thread_state)@ == tallied(old(thread_state)@, k as int, negatives(s@, n as int, k as int)),
{
    let mut w: usize = 0;
    while w < k
        invariant
            0 <= n <= s.len(),
            w <= k <= thread_state.len(),
            thread_state@ =~= tallied(old(thread_state)@, w as int, negatives(s@, n as int, k as int)),
        decreases k - w,
    {
        let (lo, hi) = block_range(n as usize, k, w);
        proof {
            lemma_negative_bound(s@, lo as int, hi as int);
        }
        let count: SaSint = count_negative_marked_suffixes(s, lo as FastSint, (hi - lo) as FastSint);
        thread_state[w].count = count as FastSint;
        w += 1;
    }
}

/// Notes for each of `k` workers how many of the first `n` entries are zero in its block.
pub(crate) fn tally_zeros(s: &[SaSint], n: SaSint, k: usize, thread_state: &mut [ThreadState])
    requires
        0 <= n <= s.len(),
        1 <= k <= old(thread_state).len(),
    ensures
        final(thread_state)@ == tallied(old(thread_state)@, k as int, zeros_of(s@, n as int, k as int)),
{
    let mut w: usize = 0;
    while w < k
        invariant
            0 <= n <= s.len(),
            w <= k <= thread_state.len(),
            thread_state@ =~= tallied(old(thread_state)@, w as int, zeros_of(s@, n as int, k as int)),
        decreases k - w,
    {
        let (lo, hi) = block_range(n as usize, k, w);
        proof {
            lemma_zero_bound(s@, lo as int, hi as int);
        }
        let count: SaSint = count_zero_marked_suffixes(s, lo as FastSint, (hi - lo) as FastSint);
        thread_state[w].count = count as FastSint;
        w += 1;
    }
}

} // verus!
