//! How positions are shared out among workers.

use vstd::prelude::*;
use crate::types::SaSint;

verus! {

/// How many workers take part: one unless several are asked for and the work is `large`,
/// and no more than there is storage for.
pub open spec fn workers(threads: int, large: bool, available: int) -> int {
    if threads > 1 && large {
        if available < 1 {
            1
        } else if threads < available {
            threads
        } else {
            available
        }
    } else {
        1
    }
}

/// Computes [`workers`].
pub fn worker_count(threads: SaSint, large: bool, available: usize) -> (r: usize)
    ensures
        r == workers(threads as int, large, available as int),
        1 <= r <= isize::MAX,
{
    if threads > 1 && large {
        if available < 1 {
            1
        } else if (threads as usize) < available {
            threads as usize
        } else {
            available
        }
    } else {
        1
    }
}

/// The size of every block but the last, a multiple of 16.
pub open spec fn block_stride(n: int, workers: int) -> int {
    n / workers / 16 * 16
}

/// Where block `i` starts.
pub open spec fn block_lo(n: int, workers: int, i: int) -> int {
    i * block_stride(n, workers)
}

/// Where block `i` ends.
pub open spec fn block_hi(n: int, workers: int, i: int) -> int {
    if i + 1 < workers {
        (i + 1) * block_stride(n, workers)
    } else {
        n
    }
}

/// Computes where block `i` of `workers` starts and ends.
pub fn block_range(n: usize, workers: usize, i: usize) -> (r: (usize, usize))
    requires
        i < workers,
    ensures
        r.0 == block_lo(n as int, workers as int, i as int),
        r.1 == block_hi(n as int, workers as int, i as int),
        r.0 <= r.1 <= n,
{
    let stride: usize = n / workers / 16 * 16;
    proof {
        assert(n / workers * workers <= n) by (nonlinear_arith)
            requires
                workers > 0,
        ;
        assert(i * stride <= (i + 1) * stride <= workers * stride) by (nonlinear_arith)
            requires
                0 <= stride,
                i + 1 <= workers,
        ;
        assert(workers * stride <= n / workers * workers) by (nonlinear_arith)
            requires
                0 <= stride <= n / workers,
                workers > 0,
        ;
    }
    let lo: usize = i * stride;
    if i + 1 < workers {
        (lo, (i + 1) * stride)
    } else {
        (lo, n)
    }
}

/// Blocks start where the blocks before them end, the first at zero and the last at `n`.
pub proof fn law_blocks_join(n: int, workers: int, i: int)
    requires
        0 <= n,
        1 <= workers,
        0 <= i < workers,
    ensures
        block_lo(n, workers, 0) == 0,
        block_hi(n, workers, workers - 1) == n,
        i + 1 < workers ==> block_hi(n, workers, i) == block_lo(n, workers, i + 1),
        0 <= block_lo(n, workers, i) <= block_hi(n, workers, i) <= n,
{
    let stride = block_stride(n, workers);
    assert(0 <= n / workers && n / workers * workers <= n) by (nonlinear_arith)
        requires
            0 <= n,
            1 <= workers,
    ;
    assert(0 * stride == 0);
    assert(0 <= i * stride <= (i + 1) * stride <= workers * stride) by (nonlinear_arith)
        requires
            0 <= stride,
            0 <= i < workers,
    ;
    assert(workers * stride <= n / workers * workers) by (nonlinear_arith)
        requires
            0 <= stride <= n / workers,
            1 <= workers,
    ;
}

/// Every position is in the block of one worker.
pub proof fn law_blocks_cover(n: int, workers: int, p: int)
    requires
        1 <= workers,
        0 <= p < n,
    ensures
        exists|i: int| 0 <= i < workers && #[trigger] block_lo(n, workers, i) <= p < block_hi(n, workers, i),
{
    lemma_block_below(n, workers, p, workers);
}

/// A position in front of the end of a block is in that block or an earlier one.
proof fn lemma_block_below(n: int, workers: int, p: int, count: int)
    requires
        1 <= count <= workers,
        0 <= p < n,
        p < block_hi(n, workers, count - 1),
    ensures
        exists|i: int| 0 <= i < workers && #[trigger] block_lo(n, workers, i) <= p < block_hi(n, workers, i),
    decreases count,
{
    law_blocks_join(n, workers, count - 1);
    if block_lo(n, workers, count - 1) <= p {
        assert(block_lo(n, workers, count - 1) <= p < block_hi(n, workers, count - 1));
    } else {
        law_blocks_join(n, workers, count - 2);
        lemma_block_below(n, workers, p, count - 1);
    }
}

} // verus!
