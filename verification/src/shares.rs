//! Counting and gathering in blocks: what the worker of each block finds, and that together
//! they find what one worker does.

use vstd::prelude::*;
use crate::blocks::{block_hi, block_lo, law_blocks_join};
use crate::fold::{lemma_fold_down_prefix, lemma_fold_down_split};
use crate::gather::{
    count_and_gather_lms_suffixes_8u_mode, count_and_gather_lms_suffixes_8u_run, lms_scan_run, lms_scan_step, run_end,
    run_type, zeros,
};
use crate::span::moved;
use crate::types::ThreadState;

verus! {

/// The state of a pass over the suffix types: the array, the counters, the slot in front of
/// what was gathered, and the type of the last suffix.
pub type ScanState = (Seq<i32>, Seq<i32>, isize, bool);

/// What worker `w` of `k` finds in its block of the first `n` symbols of `t`: an array with the
/// LMS suffixes of the block at its end, and the counters.
pub open spec fn share(t: Seq<int>, n: int, k: int, w: int) -> ScanState {
    count_and_gather_lms_suffixes_8u_run(
        t, zeros(n as nat), n, 1024, block_lo(n, k, w), block_hi(n, k, w) - block_lo(n, k, w)).unwrap()
}

/// How many LMS suffixes the block of worker `w` holds.
pub open spec fn share_count(t: Seq<int>, n: int, k: int, w: int) -> int {
    block_hi(n, k, w) - 1 - share(t, n, k, w).2
}

/// What the workers from `w` on count for counter `c` together.
pub open spec fn share_sum(t: Seq<int>, n: int, k: int, w: int, c: int) -> int
    decreases k - w,
{
    if w >= k {
        0
    } else {
        share(t, n, k, w).1[c] + share_sum(t, n, k, w + 1, c)
    }
}

/// The counters of all workers behind `w`.
pub open spec fn counted_behind(t: Seq<int>, n: int, k: int, w: int) -> Seq<i32> {
    Seq::new(1024, |c: int| share_sum(t, n, k, w + 1, c) as i32)
}

/// The entry `after` of worker `w` of `k` once the first `n` symbols of `t` were counted and
/// their LMS suffixes gathered, where it was `before`.
pub open spec fn gathering_entry(t: Seq<int>, n: int, k: int, w: int, before: ThreadState, after: ThreadState) -> bool {
    let found = share_count(t, n, k, w);
    &&& after.position == block_hi(n, k, w)
    &&& after.m == found
    &&& after.last_lms_suffix == (if found > 0 {
        share(t, n, k, w).0[block_hi(n, k, w) - 1] as isize
    } else {
        before.last_lms_suffix
    })
    &&& after.buckets@ == counted_behind(t, n, k, w)
    &&& after.count == before.count
    &&& after.cache == before.cache
}

/// The array once the first `w` of `k` workers have gathered in their blocks.
pub open spec fn blocks_gathered(t: Seq<int>, sa: Seq<i32>, n: int, k: int, w: int) -> Seq<i32>
    decreases w,
{
    if w <= 0 {
        sa
    } else {
        count_and_gather_lms_suffixes_8u_run(
            t,
            blocks_gathered(t, sa, n, k, w - 1),
            n,
            1024,
            block_lo(n, k, w - 1),
            block_hi(n, k, w - 1) - block_lo(n, k, w - 1),
        ).unwrap().0
    }
}

/// How many LMS suffixes the blocks from that of worker `w` on hold.
pub open spec fn found_from(t: Seq<int>, n: int, k: int, w: int) -> int
    decreases k - w,
{
    if w >= k {
        0
    } else {
        share_count(t, n, k, w) + found_from(t, n, k, w + 1)
    }
}

/// The array once what the workers from `w` on have gathered in `sa` stands at its end.
pub open spec fn blocks_joined(t: Seq<int>, sa: Seq<i32>, n: int, k: int, w: int) -> Seq<i32>
    decreases k - w,
{
    if w >= k {
        sa
    } else {
        let a = blocks_joined(t, sa, n, k, w + 1);
        let m = share_count(t, n, k, w);
        if w + 1 < k && m > 0 {
            moved(a, block_hi(n, k, w) - m, m, n - found_from(t, n, k, w))
        } else {
            a
        }
    }
}

/// The array once `k` workers have gathered the LMS suffixes of the first `n` symbols of `t`.
pub open spec fn gathered_by(t: Seq<int>, sa: Seq<i32>, n: int, k: int) -> Seq<i32> {
    blocks_joined(t, blocks_gathered(t, sa, n, k, k), n, k, 0)
}

/// Whether `t` is made of bytes.
pub open spec fn byte_valued(t: Seq<int>) -> bool {
    forall|i: int| 0 <= i < t.len() ==> 0 <= #[trigger] t[i] < 256
}

/// The type of a suffix follows from that of the next.
proof fn lemma_type_before(t: Seq<int>, n: int, i: int)
    requires
        byte_valued(t),
        0 <= i,
        i + 1 < n <= t.len(),
    ensures
        run_type(t, n, i) == (t[i] > t[i + 1] - (if run_type(t, n, i + 1) { 1int } else { 0 })),
{
    reveal_with_fuel(run_end, 2);
    assert(0 <= t[i] && 0 <= t[i + 1]);
}

/// A pass ends with the type of the suffix that it ends at.
proof fn lemma_type_after(t: Seq<int>, n: int, s: ScanState, lo: int, hi: int)
    requires
        byte_valued(t),
        0 <= lo <= hi < n <= t.len(),
        s.3 == run_type(t, n, hi),
    ensures
        lms_scan_run(t, count_and_gather_lms_suffixes_8u_mode(), s, lo, hi) matches Some(x) ==> x.3 == run_type(t, n, lo),
    decreases hi - lo,
{
    if lo < hi {
        lemma_type_after(t, n, s, lo + 1, hi);
        lemma_type_before(t, n, lo);
    }
}

/// Whether the pass from `s` to `x` and that from `s2` to `y` found the same.
spec fn alike(s: ScanState, x: ScanState, s2: ScanState, y: ScanState, lo: int, hi: int) -> bool {
    &&& y.3 == x.3
    &&& s2.2 - y.2 == s.2 - x.2
    &&& 0 <= s.2 - x.2 <= hi - lo
    &&& lo < hi ==> 0 <= s.2 < s.0.len()
    &&& x.0.len() == s.0.len()
    &&& y.0.len() == s2.0.len()
    &&& x.1.len() == s.1.len()
    &&& y.1.len() == s2.1.len()
    &&& forall|c: int| 0 <= c < 1024 ==> (#[trigger] x.1[c]) - s.1[c] == y.1[c] - s2.1[c] && x.1[c] >= s.1[c]
    &&& forall|c: int| 1024 <= c < s.1.len() ==> #[trigger] x.1[c] == s.1[c]
    &&& forall|p: int| x.2 < p <= s.2 ==> #[trigger] x.0[p] == y.0[p + (s2.2 - s.2)]
    &&& forall|p: int| 0 <= p < s2.0.len() && (p <= lo || s2.2 < p) ==> #[trigger] y.0[p] == s2.0[p]
    &&& forall|p: int| s.2 < p < s.0.len() ==> #[trigger] x.0[p] == s.0[p]
}

/// A pass finds the same whatever the array and the counters hold before, and wherever it
/// gathers.
proof fn lemma_scan_alike(t: Seq<int>, s: ScanState, s2: ScanState, lo: int, hi: int)
    requires
        byte_valued(t),
        -1 <= lo <= hi < t.len(),
        lms_scan_run(t, count_and_gather_lms_suffixes_8u_mode(), s, lo, hi) is Some,
        s2.3 == s.3,
        1024 <= s.1.len(),
        1024 <= s2.1.len(),
        forall|c: int| 0 <= c < 1024 ==> #[trigger] s2.1[c] <= s.1[c],
        hi == s2.2 < s2.0.len() || hi == lo,
    ensures
        ({
            let x = lms_scan_run(t, count_and_gather_lms_suffixes_8u_mode(), s, lo, hi);
            let y = lms_scan_run(t, count_and_gather_lms_suffixes_8u_mode(), s2, lo, hi);
            y is Some && alike(s, x.unwrap(), s2, y.unwrap(), lo, hi)
        }),
    decreases hi - lo,
{
    let mode = count_and_gather_lms_suffixes_8u_mode();
    if lo < hi {
        lemma_scan_alike(t, s, s2, lo + 1, hi);
        let x = lms_scan_run(t, mode, s, lo + 1, hi).unwrap();
        let y = lms_scan_run(t, mode, s2, lo + 1, hi).unwrap();
        assert(0 <= t[lo + 1] < 256);
        let x1 = lms_scan_step(t, mode)(x, lo).unwrap();
        assert(lms_scan_step(t, mode)(y, lo) is Some);
        let y1 = lms_scan_step(t, mode)(y, lo).unwrap();
        assert forall|p: int| x1.2 < p <= s.2 implies #[trigger] x1.0[p] == y1.0[p + (s2.2 - s.2)] by {
            if p != x.2 {
                assert(x.0[p] == y.0[p + (s2.2 - s.2)]);
            }
        }
    }
}

/// Where the blocks from `w` on start.
pub open spec fn share_start(n: int, k: int, w: int) -> int {
    if w < k {
        block_lo(n, k, w)
    } else {
        n
    }
}

/// The state of one worker who has passed over the blocks from `w` on.
pub open spec fn passed(t: Seq<int>, sa: Seq<i32>, n: int, len: nat, k: int, w: int) -> Option<ScanState> {
    lms_scan_run(
        t,
        count_and_gather_lms_suffixes_8u_mode(),
        (sa, zeros(len), (n - 1) as isize, run_type(t, n, n - 1)),
        share_start(n, k, w) - 1,
        n - 1,
    )
}

/// Whether `a` holds in front of `hi` the `m` entries that `x` holds up to `slot`.
pub open spec fn holds_share(a: Seq<i32>, x: Seq<i32>, slot: int, hi: int, m: int) -> bool {
    forall|p: int| hi - m <= p < hi ==> #[trigger] a[p] == x[p - (hi - 1 - slot)]
}

/// Blocks of earlier workers end before those of later ones start.
pub proof fn lemma_block_order(n: int, k: int, v: int, w: int)
    requires
        0 <= n,
        0 <= v < w < k,
    ensures
        block_hi(n, k, v) <= block_lo(n, k, w),
{
    let stride = crate::blocks::block_stride(n, k);
    assert(0 <= n / k) by (nonlinear_arith)
        requires
            0 <= n,
            1 <= k,
    ;
    assert((v + 1) * stride <= w * stride) by (nonlinear_arith)
        requires
            0 <= stride,
            v + 1 <= w,
    ;
}

/// Every part of a pass over all blocks is defined, and gathers no more than it passes over.
pub proof fn lemma_passed(t: Seq<int>, sa: Seq<i32>, n: int, len: nat, k: int, w: int)
    requires
        byte_valued(t),
        1 <= n <= t.len(),
        n <= isize::MAX,
        1 <= k,
        0 <= w <= k,
        1024 <= len,
        passed(t, sa, n, len, k, 0) is Some,
    ensures
        passed(t, sa, n, len, k, w) is Some,
        ({
            let q = passed(t, sa, n, len, k, w).unwrap();
            let x = passed(t, sa, n, len, k, 0).unwrap();
            let start = share_start(n, k, w);
            &&& 0 <= start <= n
            &&& 0 <= n - 1 - q.2 <= n - start
            &&& start > 0 ==> q.3 == run_type(t, n, start - 1)
            &&& q.0.len() == sa.len() == x.0.len()
            &&& n <= sa.len()
            &&& q.1.len() == len == x.1.len()
            &&& forall|p: int| q.2 < p < sa.len() ==> #[trigger] x.0[p] == q.0[p]
            &&& forall|c: int| 0 <= c < 1024 ==> 0 <= #[trigger] q.1[c] <= x.1[c]
            &&& forall|c: int| 1024 <= c < len ==> #[trigger] q.1[c] == 0
        }),
{
    let mode = count_and_gather_lms_suffixes_8u_mode();
    let f = run_type(t, n, n - 1);
    let s = (sa, zeros(len), (n - 1) as isize, f);
    let start = share_start(n, k, w);
    let empty = (zeros(n as nat), zeros(1024), (n - 1) as isize, f);
    law_blocks_join(n, k, 0);
    if w < k {
        law_blocks_join(n, k, w);
    }
    lemma_fold_down_prefix(lms_scan_step(t, mode), s, -1, start - 1, n - 1);
    lemma_scan_alike(t, s, empty, start - 1, n - 1);
    lemma_scan_alike(t, s, empty, -1, n - 1);
    let q = passed(t, sa, n, len, k, w).unwrap();
    if start > 0 {
        lemma_type_after(t, n, s, start - 1, n - 1);
    }
    lemma_fold_down_split(lms_scan_step(t, mode), s, -1, start - 1, n - 1);
    lemma_scan_alike(t, q, (zeros(n as nat), zeros(1024), (start - 1) as isize, q.3), -1, start - 1);
}

/// The worker of a block finds what one worker finds who passes over it on the way, whatever
/// the array `a` holds.
pub proof fn lemma_share(t: Seq<int>, sa: Seq<i32>, n: int, len: nat, k: int, w: int, a: Seq<i32>)
    requires
        byte_valued(t),
        1 <= n <= t.len(),
        n <= isize::MAX,
        1 <= k,
        0 <= w < k,
        1024 <= len,
        n <= a.len(),
        passed(t, sa, n, len, k, 0) is Some,
    ensures
        ({
            let lo = block_lo(n, k, w);
            let hi = block_hi(n, k, w);
            let run = count_and_gather_lms_suffixes_8u_run(t, a, n, 1024, lo, hi - lo);
            let z = run.unwrap();
            let x = passed(t, sa, n, len, k, 0).unwrap();
            let q = passed(t, sa, n, len, k, w).unwrap();
            let q1 = passed(t, sa, n, len, k, w + 1).unwrap();
            let m = share_count(t, n, k, w);
            &&& run is Some
            &&& 0 <= lo <= hi <= n
            &&& q1.2 - q.2 == m == hi - 1 - z.2
            &&& 0 <= m <= hi - lo
            &&& z.0.len() == a.len()
            &&& z.1 == share(t, n, k, w).1
            &&& z.1.len() == 1024
            &&& forall|c: int| 0 <= c < 1024 ==> (#[trigger] q.1[c]) - q1.1[c] == z.1[c]
            &&& forall|p: int| 0 <= p < a.len() && !(lo <= p < hi) ==> #[trigger] z.0[p] == a[p]
            &&& holds_share(z.0, x.0, q1.2 as int, hi, m)
            &&& m > 0 ==> z.0[hi - 1] == share(t, n, k, w).0[hi - 1]
        }),
{
    let mode = count_and_gather_lms_suffixes_8u_mode();
    let lo = block_lo(n, k, w);
    let hi = block_hi(n, k, w);
    law_blocks_join(n, k, w);
    lemma_passed(t, sa, n, len, k, w);
    lemma_passed(t, sa, n, len, k, w + 1);
    let x = passed(t, sa, n, len, k, 0).unwrap();
    let q = passed(t, sa, n, len, k, w).unwrap();
    let q1 = passed(t, sa, n, len, k, w + 1).unwrap();
    assert(share_start(n, k, w + 1) == hi);
    let s = (sa, zeros(len), (n - 1) as isize, run_type(t, n, n - 1));
    lemma_fold_down_split(lms_scan_step(t, mode), s, lo - 1, hi - 1, n - 1);
    if lo < hi {
        let f = run_type(t, n, hi - 1);
        let s2 = (a, zeros(1024), (hi - 1) as isize, f);
        let s3 = (zeros(n as nat), zeros(1024), (hi - 1) as isize, f);
        lemma_scan_alike(t, q1, s2, lo - 1, hi - 1);
        lemma_scan_alike(t, q1, s3, lo - 1, hi - 1);
        let z = lms_scan_run(t, mode, s2, lo - 1, hi - 1).unwrap();
        let y = lms_scan_run(t, mode, s3, lo - 1, hi - 1).unwrap();
        assert(z.1 =~= y.1) by {
            assert forall|c: int| 0 <= c < 1024 implies z.1[c] == y.1[c] by {
                assert(q.1[c] - q1.1[c] == z.1[c] - zeros(1024)[c]);
                assert(q.1[c] - q1.1[c] == y.1[c] - zeros(1024)[c]);
            }
        }
        let m = share_count(t, n, k, w);
        assert forall|p: int| hi - m <= p < hi implies #[trigger] z.0[p] == x.0[p - (hi - 1 - q1.2)] by {
            let p1 = p - (hi - 1 - q1.2);
            assert(q.0[p1] == z.0[p1 + (s2.2 - q1.2)]);
            assert(x.0[p1] == q.0[p1]);
        }
        if m > 0 {
            assert(q.0[q1.2 as int] == z.0[q1.2 + (s2.2 - q1.2)]);
            assert(q.0[q1.2 as int] == y.0[q1.2 + (s3.2 - q1.2)]);
        }
    }
}

/// One worker who has passed over the blocks from `w` on has counted what their workers count
/// together.
pub proof fn lemma_share_sums(t: Seq<int>, sa: Seq<i32>, n: int, len: nat, k: int, w: int)
    requires
        byte_valued(t),
        1 <= n <= t.len(),
        n <= isize::MAX,
        1 <= k,
        0 <= w <= k,
        1024 <= len,
        n <= sa.len(),
        passed(t, sa, n, len, k, 0) is Some,
    ensures
        passed(t, sa, n, len, k, w) is Some,
        forall|c: int| 0 <= c < 1024 ==> #[trigger] passed(t, sa, n, len, k, w).unwrap().1[c] == share_sum(t, n, k, w, c),
    decreases k - w,
{
    lemma_passed(t, sa, n, len, k, w);
    if w < k {
        lemma_share_sums(t, sa, n, len, k, w + 1);
        lemma_share(t, sa, n, len, k, w, sa);
    }
}

} // verus!
