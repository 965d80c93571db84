//! Setting names apart and merging them back with any number of workers leaves what one worker
//! leaves.

use vstd::prelude::*;
use crate::blocks::{block_hi, block_lo, law_blocks_join};
use crate::census::{law_empty_slots_are, law_marked_entries_are, law_unique_are};
use crate::compact::{
    merge_nonunique_block, merge_nonunique_omp, merge_nonunique_part_step, merge_nonunique_run,
    merge_nonunique_step, merge_nonunique_storage, merge_unique_block, merge_unique_omp,
    merge_unique_part_step, merge_unique_run, merge_unique_step, merge_unique_storage, rank_slot,
    sharers, split_name_step, split_names_omp, split_names_shared, split_part_step, split_storage,
    storage_lacks, storage_suffices, unique_in,
};
use crate::fold::{fold_up, lemma_fold_up_prefix, lemma_fold_up_split};
use crate::radix::{count_negative_marked_in, count_zero_marked_in};
use crate::renumber::{half, naming_storage};
use crate::tallies::{lemma_negative_bound, lemma_zero_bound};
use crate::types::ThreadState;

verus! {

/// Where the block of worker `w` of `k` starts; behind the last the range ends.
spec fn border(n: int, k: int, w: int) -> int {
    if w < k {
        block_lo(n, k, w)
    } else {
        n
    }
}

/// Blocks follow each other.
proof fn lemma_border(n: int, k: int, w: int)
    requires
        0 <= n,
        0 <= w < k,
    ensures
        border(n, k, 0) == 0,
        border(n, k, w) == block_lo(n, k, w),
        border(n, k, w + 1) == block_hi(n, k, w),
        0 <= border(n, k, w) <= border(n, k, w + 1) <= n,
{
    law_blocks_join(n, k, w);
    law_blocks_join(n, k, 0);
}

/// Setting apart from `lo` up to `hi` changes the slots that these suffixes select alone, and
/// counts the names that are marked.
proof fn lemma_split(m: int, s: (Seq<i32>, Seq<i32>, i32), lo: int, hi: int)
    requires
        0 <= lo <= hi <= m,
        fold_up(split_name_step(m), s, lo, hi) is Some,
        forall|i: int, j: int| 0 <= i < j < m ==> half(#[trigger] s.1[i]) != half(#[trigger] s.1[j]),
    ensures
        ({
            let x = fold_up(split_name_step(m), s, lo, hi).unwrap();
            &&& x.1.len() == s.1.len()
            &&& lo < hi ==> m <= s.1.len()
            &&& forall|i: int| 0 <= i < m && i < s.1.len() ==> #[trigger] x.1[i] == s.1[i]
            &&& forall|i: int| hi <= i < m && m + half(s.1[i]) < s.1.len() ==> x.1[m + half(#[trigger] s.1[i])] == s.1[m + half(s.1[i])]
            &&& unique_in(s.1, m, lo, hi) is Some
            &&& x.2 == s.2 + unique_in(s.1, m, lo, hi).unwrap()
        }),
    decreases hi - lo,
{
    if lo < hi {
        lemma_fold_up_prefix(split_name_step(m), s, lo, hi - 1, hi);
        lemma_split(m, s, lo, hi - 1);
        let x = fold_up(split_name_step(m), s, lo, hi - 1).unwrap();
        let y = fold_up(split_name_step(m), s, lo, hi).unwrap();
        assert(split_name_step(m)(x, hi - 1) == Some(y));
        assert(x.1[hi - 1] == s.1[hi - 1]);
        assert(x.1[m + half(s.1[hi - 1])] == s.1[m + half(s.1[hi - 1])]);
    }
}

/// Counting the marked names of a block that is not reached yet.
proof fn lemma_unique_alike(a: Seq<i32>, b: Seq<i32>, m: int, lo: int, hi: int)
    requires
        0 <= lo,
        a.len() == b.len(),
        forall|i: int| lo <= i < hi && i < a.len() ==> #[trigger] a[i] == b[i],
        forall|i: int| lo <= i < hi && m + half(a[i]) < a.len() ==> b[m + half(#[trigger] a[i])] == a[m + half(a[i])],
    ensures
        unique_in(a, m, lo, hi) == unique_in(b, m, lo, hi),
    decreases hi - lo,
{
    if lo < hi {
        lemma_unique_alike(a, b, m, lo, hi - 1);
        if hi - 1 < a.len() {
            assert(a[hi - 1] == b[hi - 1]);
        }
    }
}

/// Worker by worker, setting apart goes along with one pass.
proof fn lemma_split_along(t: Seq<i32>, sa: Seq<i32>, m: int, k: int, w: int)
    requires
        0 < m <= sa.len(),
        0 <= w <= k,
        1 <= k,
        forall|i: int, j: int| 0 <= i < j < m ==> half(#[trigger] sa[i]) != half(#[trigger] sa[j]),
        fold_up(split_part_step(sa, m, k), (t, sa, 0isize), 0, w) is Some,
        fold_up(split_name_step(m), (t, sa, 0i32), 0, m) is Some,
    ensures
        ({
            let x = fold_up(split_part_step(sa, m, k), (t, sa, 0isize), 0, w).unwrap();
            let y = fold_up(split_name_step(m), (t, sa, 0i32), 0, border(m, k, w)).unwrap();
            (x.0, x.1, x.2 as int) == (y.0, y.1, y.2 as int)
        }),
    decreases w,
{
    let step = split_name_step(m);
    let part = split_part_step(sa, m, k);
    if w == 0 {
        lemma_border(m, k, 0);
        assert(fold_up(step, (t, sa, 0i32), 0, 0) == Some((t, sa, 0i32)));
    } else {
        let u = w - 1;
        lemma_border(m, k, u);
        let lo = border(m, k, u);
        let hi = border(m, k, w);
        lemma_fold_up_prefix(part, (t, sa, 0isize), 0, u, w);
        lemma_split_along(t, sa, m, k, u);
        lemma_fold_up_prefix(step, (t, sa, 0i32), 0, lo, m);
        lemma_fold_up_prefix(step, (t, sa, 0i32), 0, hi, m);
        lemma_fold_up_split(step, (t, sa, 0i32), 0, lo, hi);
        let x = fold_up(part, (t, sa, 0isize), 0, u).unwrap();
        let y = fold_up(step, (t, sa, 0i32), 0, lo).unwrap();
        assert(part(x, u) is Some);
        lemma_split(m, (t, sa, 0i32), 0, lo);
        assert forall|i: int, j: int| 0 <= i < j < m implies half(#[trigger] y.1[i]) != half(#[trigger] y.1[j]) by {
            assert(y.1[i] == sa[i] && y.1[j] == sa[j]);
        }
        assert(fold_up(step, y, lo, hi) == fold_up(step, (t, sa, 0i32), 0, hi));
        lemma_split(m, y, lo, hi);
        assert forall|i: int| lo <= i < hi && i < sa.len() implies #[trigger] sa[i] == y.1[i] by {}
        lemma_unique_alike(sa, y.1, m, lo, hi);
    }
}

/// Setting names apart leaves the same text and array with any number of workers, and counts the
/// same names, where every sorted suffix selects a slot of its own.
pub proof fn law_split_by_any(t: Seq<i32>, sa: Seq<i32>, m: int, threads: int)
    requires
        0 < m <= sa.len(),
        forall|i: int, j: int| 0 <= i < j < m ==> half(#[trigger] sa[i]) != half(#[trigger] sa[j]),
        split_names_shared(t, sa, m, threads) is Some,
        split_names_omp(t, sa, m) is Some,
    ensures
        split_names_shared(t, sa, m, threads) == split_names_omp(t, sa, m),
{
    if !(threads == 1 || m < 65536) {
        let k = sharers(threads, true, m);
        lemma_split_along(t, sa, m, k, k);
        lemma_border(m, k, k - 1);
    }
}

/// Filling empty slots from `lo` up to `hi` reads the ranks in order, each once.
proof fn lemma_filled(m: int, s: (Seq<i32>, i32, usize), lo: int, hi: int)
    requires
        0 <= lo <= hi <= m,
        m < s.2,
        s.2 <= s.0.len(),
        s.0.len() < usize::MAX,
        s.1 == s.0[s.2 - 1],
        fold_up(merge_nonunique_step(), s, lo, hi) is Some,
    ensures
        ({
            let x = fold_up(merge_nonunique_step(), s, lo, hi).unwrap();
            &&& x.0.len() == s.0.len()
            &&& x.2 == s.2 + count_zero_marked_in(s.0, lo, hi)
            &&& x.2 <= s.0.len()
            &&& x.1 == x.0[x.2 - 1]
            &&& forall|i: int| 0 <= i < s.0.len() && !(lo <= i < hi) ==> #[trigger] x.0[i] == s.0[i]
        }),
    decreases hi - lo,
{
    if lo < hi {
        lemma_fold_up_prefix(merge_nonunique_step(), s, lo, hi - 1, hi);
        lemma_filled(m, s, lo, hi - 1);
        let x = fold_up(merge_nonunique_step(), s, lo, hi - 1).unwrap();
        let y = fold_up(merge_nonunique_step(), s, lo, hi).unwrap();
        assert(merge_nonunique_step()(x, hi - 1) == Some(y));
        assert(x.0[hi - 1] == s.0[hi - 1]);
        lemma_zeros_counted(s.0, lo, hi - 1);
    }
}

/// Counts of empty slots are not negative.
proof fn lemma_zeros_counted(sa: Seq<i32>, lo: int, hi: int)
    ensures
        count_zero_marked_in(sa, lo, hi) >= 0,
    decreases hi - lo,
{
    if lo < hi {
        lemma_zeros_counted(sa, lo, hi - 1);
    }
}

/// Counting the empty slots of a range that is the same in two arrays.
proof fn lemma_zeros_alike(a: Seq<i32>, b: Seq<i32>, lo: int, hi: int)
    requires
        forall|i: int| lo <= i < hi ==> #[trigger] a[i] == b[i],
    ensures
        count_zero_marked_in(a, lo, hi) == count_zero_marked_in(b, lo, hi),
    decreases hi - lo,
{
    if lo < hi {
        lemma_zeros_alike(a, b, lo, hi - 1);
        assert(a[hi - 1] == b[hi - 1]);
    }
}

/// Worker by worker, filling empty slots goes along with one pass.
proof fn lemma_filled_along(sa: Seq<i32>, n: int, m: int, f: int, k: int, w: int)
    requires
        0 < m < n,
        m < n - m - 1 + f,
        0 <= f,
        n - m - 1 + f < sa.len(),
        sa.len() < isize::MAX,
        0 <= w <= k,
        1 <= k,
        fold_up(merge_nonunique_part_step(n, m, k), (sa, f as isize), 0, w) is Some,
        fold_up(merge_nonunique_step(), (sa, sa[n - m - 1 + f], (n - m + f) as usize), 0, m) is Some,
    ensures
        ({
            let x = fold_up(merge_nonunique_part_step(n, m, k), (sa, f as isize), 0, w).unwrap();
            let y = fold_up(merge_nonunique_step(), (sa, sa[n - m - 1 + f], (n - m + f) as usize), 0, border(m, k, w)).unwrap();
            x.0 == y.0 && n - m + x.1 == y.2
        }),
    decreases w,
{
    let step = merge_nonunique_step();
    let part = merge_nonunique_part_step(n, m, k);
    let s = (sa, sa[n - m - 1 + f], (n - m + f) as usize);
    if w == 0 {
        lemma_border(m, k, 0);
        assert(fold_up(step, s, 0, 0) == Some(s));
    } else {
        let u = w - 1;
        lemma_border(m, k, u);
        let lo = border(m, k, u);
        let hi = border(m, k, w);
        lemma_fold_up_prefix(part, (sa, f as isize), 0, u, w);
        lemma_filled_along(sa, n, m, f, k, u);
        lemma_fold_up_prefix(step, s, 0, lo, m);
        lemma_fold_up_prefix(step, s, 0, hi, m);
        lemma_fold_up_split(step, s, 0, lo, hi);
        let x = fold_up(part, (sa, f as isize), 0, u).unwrap();
        let y = fold_up(step, s, 0, lo).unwrap();
        assert(part(x, u) is Some);
        lemma_filled(m, s, 0, lo);
        lemma_zeros_counted(sa, 0, lo);
        assert(fold_up(step, y, lo, hi) == fold_up(step, s, 0, hi));
        lemma_filled(m, y, lo, hi);
        let at = rank_slot(n, m, x.1 as int);
        assert(at == y.2 - 1 && (at + 1) as usize == y.2);
        lemma_zeros_counted(y.0, lo, hi);
        if lo < hi {
            assert(merge_nonunique_block(x.0, n, m, x.1 as int, lo, hi - lo) is Some);
            assert(merge_nonunique_run((x.0, x.0[at], (at + 1) as usize), lo, hi) == fold_up(step, y, lo, hi));
        }
    }
}

/// Filling the empty slots with the ranks that were not set apart leaves the same array with any
/// number of workers, where the ranks stand behind the slots.
pub proof fn law_nonunique_merged_by_any(sa: Seq<i32>, n: int, m: int, f: int, workers: int)
    requires
        0 < m < n,
        m < n - m - 1 + f,
        0 <= f,
        n - m - 1 + f < sa.len() < isize::MAX,
        merge_nonunique_omp(sa, n, m, f, workers) is Some,
        merge_nonunique_omp(sa, n, m, f, 1) is Some,
    ensures
        merge_nonunique_omp(sa, n, m, f, workers) == merge_nonunique_omp(sa, n, m, f, 1),
{
    if workers > 1 {
        lemma_filled_along(sa, n, m, f, workers, workers);
        lemma_border(m, workers, workers - 1);
    }
}

/// Merging from `lo` up to `hi` reads the ranks of the marked positions in order, each once.
proof fn lemma_merged(first: int, s: (Seq<i32>, Seq<i32>, i32, usize, bool), lo: int, hi: int)
    requires
        0 <= lo <= hi <= s.0.len(),
        0 <= first < s.3,
        s.3 <= s.1.len(),
        s.1.len() < usize::MAX,
        s.2 == s.1[s.3 - 1],
        !s.4,
        forall|q: int| first <= q < s.1.len() ==> #[trigger] s.1[q] < first,
        forall|i: int| lo < i < hi && #[trigger] s.0[i] < 0 ==> s.0[i - 1] >= 0,
        fold_up(merge_unique_step(), s, lo, hi) is Some,
    ensures
        ({
            let x = fold_up(merge_unique_step(), s, lo, hi).unwrap();
            &&& x.0.len() == s.0.len()
            &&& x.1.len() == s.1.len()
            &&& x.3 == s.3 + count_negative_marked_in(s.0, lo, hi)
            &&& count_negative_marked_in(s.0, lo, hi) >= 0
            &&& x.3 <= s.1.len()
            &&& x.2 == x.1[x.3 - 1]
            &&& forall|q: int| first <= q < s.1.len() ==> #[trigger] x.1[q] == s.1[q]
            &&& forall|i: int| hi <= i < s.0.len() ==> #[trigger] x.0[i] == s.0[i]
            &&& x.4 ==> lo < hi && s.0[hi - 1] < 0
        }),
    decreases hi - lo,
{
    if lo < hi {
        lemma_fold_up_prefix(merge_unique_step(), s, lo, hi - 1, hi);
        lemma_merged(first, s, lo, hi - 1);
        let x = fold_up(merge_unique_step(), s, lo, hi - 1).unwrap();
        let y = fold_up(merge_unique_step(), s, lo, hi).unwrap();
        assert(merge_unique_step()(x, hi - 1) == Some(y));
        assert(x.0[hi - 1] == s.0[hi - 1]);
        if x.4 {
            assert(s.0[hi - 2] < 0);
            assert(s.0[hi - 1] >= 0);
        } else {
            assert(x.1[x.3 - 1] < first);
        }
    }
}

/// Skipping a position that is not marked makes no difference.
proof fn lemma_skipped(t: Seq<i32>, sa: Seq<i32>, rank: i32, src: usize, lo: int, hi: int)
    requires
        0 <= lo < hi,
        lo < t.len() <= i32::MAX,
        t[lo] >= 0,
    ensures
        fold_up(merge_unique_step(), (t, sa, rank, src, true), lo, hi) == fold_up(merge_unique_step(), (t, sa, rank, src, false), lo, hi),
{
    let step = merge_unique_step();
    lemma_fold_up_split(step, (t, sa, rank, src, true), lo, lo + 1, hi);
    lemma_fold_up_split(step, (t, sa, rank, src, false), lo, lo + 1, hi);
    assert(fold_up(step, (t, sa, rank, src, true), lo, lo) == Some((t, sa, rank, src, true)));
    assert(fold_up(step, (t, sa, rank, src, false), lo, lo) == Some((t, sa, rank, src, false)));
}

/// Worker by worker, merging goes along with one pass.
proof fn lemma_merged_along(t: Seq<i32>, sa: Seq<i32>, n: int, m: int, k: int, w: int)
    requires
        0 <= m < n <= t.len() <= i32::MAX,
        n - m - 1 < sa.len() < isize::MAX,
        0 <= w <= k,
        1 <= k,
        forall|q: int| n - m - 1 <= q < sa.len() ==> #[trigger] sa[q] < n - m - 1,
        forall|i: int| 0 < i < n && #[trigger] t[i] < 0 ==> t[i - 1] >= 0,
        fold_up(merge_unique_part_step(n, m, k), (t, sa, 0isize), 0, w) is Some,
        fold_up(merge_unique_step(), (t, sa, sa[n - m - 1], (n - m) as usize, false), 0, n) is Some,
    ensures
        ({
            let x = fold_up(merge_unique_part_step(n, m, k), (t, sa, 0isize), 0, w).unwrap();
            let y = fold_up(merge_unique_step(), (t, sa, sa[n - m - 1], (n - m) as usize, false), 0, border(n, k, w)).unwrap();
            x.0 == y.0 && x.1 == y.1 && n - m + x.2 == y.3
        }),
    decreases w,
{
    let step = merge_unique_step();
    let part = merge_unique_part_step(n, m, k);
    let first = n - m - 1;
    let s = (t, sa, sa[first], (n - m) as usize, false);
    if w == 0 {
        lemma_border(n, k, 0);
        assert(fold_up(step, s, 0, 0) == Some(s));
    } else {
        let u = w - 1;
        lemma_border(n, k, u);
        let lo = border(n, k, u);
        let hi = border(n, k, w);
        lemma_fold_up_prefix(part, (t, sa, 0isize), 0, u, w);
        lemma_merged_along(t, sa, n, m, k, u);
        lemma_fold_up_prefix(step, s, 0, lo, n);
        lemma_fold_up_prefix(step, s, 0, hi, n);
        lemma_fold_up_split(step, s, 0, lo, hi);
        let x = fold_up(part, (t, sa, 0isize), 0, u).unwrap();
        let y = fold_up(step, s, 0, lo).unwrap();
        assert(part(x, u) is Some);
        lemma_merged(first, s, 0, lo);
        assert(fold_up(step, y, lo, hi) == fold_up(step, s, 0, hi));
        let at = rank_slot(n, m, x.2 as int);
        assert(at == y.3 - 1 && (at + 1) as usize == y.3);
        if lo < hi {
            let z = (y.0, y.1, y.2, y.3, false);
            if y.4 {
                assert(t[lo - 1] < 0);
                assert(t[lo] >= 0) by {
                    if t[lo] < 0 {
                        assert(t[lo - 1] >= 0);
                    }
                }
                lemma_skipped(y.0, y.1, y.2, y.3, lo, hi);
            }
            assert forall|q: int| first <= q < y.1.len() implies #[trigger] y.1[q] < first by {
                assert(sa[q] < first);
            }
            assert forall|i: int| lo < i < hi && #[trigger] y.0[i] < 0 implies y.0[i - 1] >= 0 by {
                assert(t[i] < 0);
            }
            lemma_merged(first, z, lo, hi);
            assert(merge_unique_block(x.0, x.1, n, m, x.2 as int, lo, hi - lo) is Some);
            assert(merge_unique_run((x.0, x.1, x.1[at], (at + 1) as usize, false), lo, hi) == fold_up(step, z, lo, hi));
        }
    }
}

/// Merging the names that were set apart leaves the same text and array with any number of
/// workers, where no two marked positions are neighbours and the ranks stand behind the slots that
/// they name.
pub proof fn law_unique_merged_by_any(t: Seq<i32>, sa: Seq<i32>, n: int, m: int, workers: int)
    requires
        0 <= m < n <= t.len() <= i32::MAX,
        n - m - 1 < sa.len() < isize::MAX,
        forall|q: int| n - m - 1 <= q < sa.len() ==> #[trigger] sa[q] < n - m - 1,
        forall|i: int| 0 < i < n && #[trigger] t[i] < 0 ==> t[i - 1] >= 0,
        merge_unique_omp(t, sa, n, m, workers) is Some,
        merge_unique_omp(t, sa, n, m, 1) is Some,
    ensures
        merge_unique_omp(t, sa, n, m, workers) == merge_unique_omp(t, sa, n, m, 1),
{
    if workers > 1 {
        lemma_merged_along(t, sa, n, m, workers, workers);
        lemma_border(n, workers, workers - 1);
    }
}

/// As many workers share a large range as are asked for, and no more than there are positions.
pub proof fn law_sharers(threads: int, large: bool, n: int)
    ensures
        sharers(threads, large, n) >= 1,
        threads <= 1 || !large || n <= 1 ==> sharers(threads, large, n) == 1,
        threads > 1 && large && n > 1 ==> sharers(threads, large, n) <= threads && sharers(threads, large, n) <= n
            && (sharers(threads, large, n) == threads || sharers(threads, large, n) == n),
{
}

/// Storage is lacking where a large range is shared and there is neither storage for every worker
/// asked for nor for every position.
pub proof fn law_storage_lacks(threads: int, large: bool, n: int, available: int)
    ensures
        storage_lacks(threads, large, n, available) <==> threads != 1 && large && (threads < 0 || available < 1
            || (available < threads && available < n)),
{
}

/// Storage suffices for a merge of `m` suffixes of a text of `n` symbols where it is lacking for
/// neither.
pub proof fn law_storage_suffices(threads: int, n: int, m: int, available: int)
    requires
        0 <= m <= n,
    ensures
        storage_suffices(threads, n, m, available) <==> threads == 1 || n < 65536 || (threads >= 0 && available >= 1
            && (available >= threads || (available >= n && (m < 65536 || available >= m)))),
{
    law_storage_lacks(threads, n >= 65536, n, available);
    law_storage_lacks(threads, m >= 65536, m, available);
}

/// Where several workers set names apart, each notes how many in its block stand alone, and nothing
/// else.
pub proof fn law_split_tallied(ts: Seq<ThreadState>, sa: Seq<i32>, m: int, threads: int, w: int)
    requires
        0 <= w < ts.len(),
        0 <= m <= i32::MAX,
        !(threads == 1 || m < 65536) && w < sharers(threads, true, m) ==> unique_in(sa, m, block_lo(m, sharers(threads, true, m), w),
            block_hi(m, sharers(threads, true, m), w)) is Some,
    ensures
        split_storage(ts, sa, m, threads).len() == ts.len(),
        split_storage(ts, sa, m, threads)[w].position == ts[w].position,
        split_storage(ts, sa, m, threads)[w].m == ts[w].m,
        split_storage(ts, sa, m, threads)[w].last_lms_suffix == ts[w].last_lms_suffix,
        split_storage(ts, sa, m, threads)[w].buckets == ts[w].buckets,
        split_storage(ts, sa, m, threads)[w].cache == ts[w].cache,
        (threads == 1 || m < 65536) || w >= sharers(threads, true, m) ==> split_storage(ts, sa, m, threads)[w].count == ts[w].count,
        !((threads == 1 || m < 65536)) && w < sharers(threads, true, m) ==> split_storage(ts, sa, m, threads)[w].count == Set::new(
            |i: int| block_lo(m, sharers(threads, true, m), w) <= i < block_hi(m, sharers(threads, true, m), w)
                && sa[m + half(sa[i])] < 0).len(),
{
    let k = sharers(threads, true, m);
    if !((threads == 1 || m < 65536)) && w < k {
        let lo = block_lo(m, k, w);
        let hi = block_hi(m, k, w);
        law_blocks_join(m, k, w);
        lemma_unique_few(sa, m, lo, hi);
        law_unique_are(sa, m, lo, hi);
        assert(split_storage(ts, sa, m, threads)[w].count == unique_in(sa, m, lo, hi).unwrap());
    }
}

/// Where several workers merge names that were set apart, each notes how many positions of its
/// block are marked, and nothing else.
pub proof fn law_unique_merge_tallied(ts: Seq<ThreadState>, t: Seq<i32>, n: int, threads: int, w: int)
    requires
        0 <= w < ts.len(),
        0 <= n <= i32::MAX,
    ensures
        merge_unique_storage(ts, t, n, threads).len() == ts.len(),
        merge_unique_storage(ts, t, n, threads)[w].position == ts[w].position,
        merge_unique_storage(ts, t, n, threads)[w].m == ts[w].m,
        merge_unique_storage(ts, t, n, threads)[w].last_lms_suffix == ts[w].last_lms_suffix,
        merge_unique_storage(ts, t, n, threads)[w].buckets == ts[w].buckets,
        merge_unique_storage(ts, t, n, threads)[w].cache == ts[w].cache,
        (threads == 1 || n < 65536) || w >= sharers(threads, true, n) ==> merge_unique_storage(ts, t, n, threads)[w].count == ts[w].count,
        !((threads == 1 || n < 65536)) && w < sharers(threads, true, n) ==> merge_unique_storage(ts, t, n, threads)[w].count == Set::new(
            |i: int| block_lo(n, sharers(threads, true, n), w) <= i < block_hi(n, sharers(threads, true, n), w) && t[i] < 0).len(),
{
    let k = sharers(threads, true, n);
    if !((threads == 1 || n < 65536)) && w < k {
        let lo = block_lo(n, k, w);
        let hi = block_hi(n, k, w);
        law_blocks_join(n, k, w);
        lemma_negative_bound(t, lo, hi);
        law_marked_entries_are(t, lo, hi);
    }
}

/// Where several workers fill empty slots, each notes how many of its block are empty, and nothing
/// else.
pub proof fn law_nonunique_merge_tallied(ts: Seq<ThreadState>, sa: Seq<i32>, m: int, threads: int, w: int)
    requires
        0 <= w < ts.len(),
        0 <= m <= i32::MAX,
    ensures
        merge_nonunique_storage(ts, sa, m, threads).len() == ts.len(),
        merge_nonunique_storage(ts, sa, m, threads)[w].position == ts[w].position,
        merge_nonunique_storage(ts, sa, m, threads)[w].m == ts[w].m,
        merge_nonunique_storage(ts, sa, m, threads)[w].last_lms_suffix == ts[w].last_lms_suffix,
        merge_nonunique_storage(ts, sa, m, threads)[w].buckets == ts[w].buckets,
        merge_nonunique_storage(ts, sa, m, threads)[w].cache == ts[w].cache,
        (threads == 1 || m < 65536) || w >= sharers(threads, true, m) ==> merge_nonunique_storage(ts, sa, m, threads)[w].count
            == ts[w].count,
        !((threads == 1 || m < 65536)) && w < sharers(threads, true, m) ==> merge_nonunique_storage(ts, sa, m, threads)[w].count
            == Set::new(
            |i: int| block_lo(m, sharers(threads, true, m), w) <= i < block_hi(m, sharers(threads, true, m), w) && sa[i] == 0).len(),
{
    let k = sharers(threads, true, m);
    if !((threads == 1 || m < 65536)) && w < k {
        let lo = block_lo(m, k, w);
        let hi = block_hi(m, k, w);
        law_blocks_join(m, k, w);
        lemma_zero_bound(sa, lo, hi);
        law_empty_slots_are(sa, lo, hi);
    }
}

/// Where several workers name suffixes, each notes how many entries of its block are marked, and
/// nothing else.
pub proof fn law_naming_tallied(ts: Seq<ThreadState>, sa: Seq<i32>, m: int, k: int, w: int)
    requires
        0 <= w < ts.len(),
        0 <= m <= i32::MAX,
        1 <= k,
    ensures
        naming_storage(ts, sa, m, k).len() == ts.len(),
        naming_storage(ts, sa, m, k)[w].position == ts[w].position,
        naming_storage(ts, sa, m, k)[w].m == ts[w].m,
        naming_storage(ts, sa, m, k)[w].last_lms_suffix == ts[w].last_lms_suffix,
        naming_storage(ts, sa, m, k)[w].buckets == ts[w].buckets,
        naming_storage(ts, sa, m, k)[w].cache == ts[w].cache,
        k <= 1 || w >= k ==> naming_storage(ts, sa, m, k)[w].count == ts[w].count,
        !(k <= 1) && w < k ==> naming_storage(ts, sa, m, k)[w].count == Set::new(
            |i: int| block_lo(m, k, w) <= i < block_hi(m, k, w) && sa[i] < 0).len(),
{
    let k = k;
    if !(k <= 1) && w < k {
        let lo = block_lo(m, k, w);
        let hi = block_hi(m, k, w);
        law_blocks_join(m, k, w);
        lemma_negative_bound(sa, lo, hi);
        law_marked_entries_are(sa, lo, hi);
    }
}

/// No more names stand alone than there are suffixes.
proof fn lemma_unique_few(sa: Seq<i32>, m: int, lo: int, hi: int)
    requires
        unique_in(sa, m, lo, hi) is Some,
    ensures
        0 <= unique_in(sa, m, lo, hi).unwrap() <= (if lo < hi { hi - lo } else { 0 }),
    decreases hi - lo,
{
    if lo < hi {
        lemma_unique_few(sa, m, lo, hi - 1);
    }
}

} // verus!
