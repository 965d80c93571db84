//! Scans over byte texts, block by block: a block is read into a cache first, and what it
//! induces is written from there.

use vstd::prelude::*;
use crate::blocks::{block_hi, block_lo, block_range, worker_count, workers};
use crate::desks::{desk, desks, desks_fit, desks_sized, exchange, exchanged, quiet, rename, renamed, Desk};
use crate::final_scan::{
    before8, final_bwt_aux_scan_left_to_right_8u_run, final_bwt_aux_scan_right_to_left_8u_run,
    final_bwt_scan_left_to_right_8u_run, final_bwt_scan_right_to_left_8u_run,
    final_gsa_scan_right_to_left_8u_run, final_sorting_scan_left_to_right_8u_run,
    final_sorting_scan_right_to_left_8u_run, try_final_bwt_aux_scan_left_to_right_8u_slot,
    try_final_bwt_aux_scan_right_to_left_8u_slot, try_final_bwt_scan_left_to_right_8u,
    try_final_bwt_scan_right_to_left_8u, try_final_gsa_scan_right_to_left_8u,
    try_final_sorting_scan_left_to_right_8u, try_final_sorting_scan_right_to_left_8u,
};
use crate::fold::{fold_down, fold_up, lemma_fold_down_prefix, lemma_fold_up_prefix};
use crate::gather::{clear_range, cleared};
use crate::marks::{bit, clear_mark, flip_mark, flipped, marked, set_mark, unmarked, within, word_within};
use crate::partial_8u::{
    partial_gsa_scan_right_to_left_8u_run, partial_sorting_scan_left_to_right_8u_run, partial_sorting_scan_right_to_left_8u_run,
    try_partial_gsa_scan_right_to_left_8u, try_partial_sorting_scan_left_to_right_8u, try_partial_sorting_scan_right_to_left_8u,
    INDUCTION_8U, NAMES_8U,
};
use crate::types::{FastSint, SaSint, ThreadCache, ThreadState, SAINT_MAX, SAINT_MIN};

verus! {

/// Reads the suffix at slot `i` into the cache, with the bucket of what it induces, counts it
/// there and notes the number of its name; the names start at `names`.
pub open spec fn prepare_left_step(t: Seq<u8>, sa: Seq<i32>, names: int) -> spec_fn((Seq<i32>, Seq<ThreadCache>, usize, i32), int) -> Option<(Seq<i32>, Seq<ThreadCache>, usize, i32)> {
    |s: (Seq<i32>, Seq<ThreadCache>, usize, i32), i: int|
        {
            let (buckets, cache, count, d) = s;
            let p = sa[i];
            let q = unmarked(p) as int;
            let e = d + bit(p < 0);
            let v = 2 * t[q - 1] + bit(t[q - 2] >= t[q - 1]);
            if 0 <= i < sa.len() && 2 <= q <= t.len() && e <= i32::MAX && count < cache.len() && names + v < buckets.len()
                && buckets[v] < i32::MAX {
                Some((
                    buckets.update(v, (buckets[v] + 1) as i32).update(names + v, e as i32),
                    cache.update(count as int, ThreadCache { symbol: v as i32, index: p }),
                    (count + 1) as usize,
                    e as i32,
                ))
            } else {
                None
            }
        }
}

/// [`prepare_left_step`] over the positions from `lo` to `hi`, upward.
pub open spec fn prepare_left_run(t: Seq<u8>, sa: Seq<i32>, names: int, s: (Seq<i32>, Seq<ThreadCache>, usize, i32), lo: int, hi: int) -> Option<(Seq<i32>, Seq<ThreadCache>, usize, i32)> {
    fold_up(prepare_left_step(t, sa, names), s, lo, hi)
}

/// Performs one step, or returns `false` where the step is outside its domain.
fn prepare_left_at(
    t: &[u8],
    sa: &[SaSint],
    names: usize,
    buckets: &mut [SaSint],
    cache: &mut [ThreadCache],
    count: &mut usize,
    d: &mut SaSint,
    i: FastSint,
) -> (ok: bool)
    requires
        names + 1024 <= usize::MAX,
    ensures
        ok == (prepare_left_step(t@, sa@, names as int)((old(buckets)@, old(cache)@, *old(count), *old(d)), i as int) is Some),
        ok ==> prepare_left_step(t@, sa@, names as int)((old(buckets)@, old(cache)@, *old(count), *old(d)), i as int) == Some((final(buckets)@, final(cache)@, *final(count), *final(d))),
        final(buckets).len() == old(buckets).len(),
        final(cache).len() == old(cache).len(),
{
    if !word_within(i, sa.len()) {
        return false;
    }
    let p: SaSint = sa[i as usize];
    let q: usize = clear_mark(p) as usize;
    if !(2 <= q && q <= t.len()) || (p < 0 && *d == SAINT_MAX) || *count >= cache.len() {
        return false;
    }
    let e: SaSint = if p < 0 { *d + 1 } else { *d };
    let v: usize = 2 * (t[q - 1] as usize) + (if t[q - 2] >= t[q - 1] { 1 } else { 0 });
    if v >= buckets.len() || names >= buckets.len() - v || buckets[v] == SAINT_MAX {
        return false;
    }
    buckets[v] = buckets[v] + 1;
    buckets[names + v] = e;
    cache[*count] = ThreadCache { symbol: v as SaSint, index: p };
    *count = *count + 1;
    *d = e;
    true
}

/// Runs the steps as far as they are defined; `false` where one is not.
pub(crate) fn try_prepare_left(
    t: &[u8],
    sa: &[SaSint],
    names: usize,
    buckets: &mut [SaSint],
    cache: &mut [ThreadCache],
    count: &mut usize,
    d: &mut SaSint,
    lo: FastSint,
    hi: FastSint,
) -> (ok: bool)
    requires
        names + 1024 <= usize::MAX,
    ensures
        ok == (prepare_left_run(t@, sa@, names as int, (old(buckets)@, old(cache)@, *old(count), *old(d)), lo as int, hi as int) is Some),
        ok ==> prepare_left_run(t@, sa@, names as int, (old(buckets)@, old(cache)@, *old(count), *old(d)), lo as int, hi as int) == Some((final(buckets)@, final(cache)@, *final(count), *final(d))),
        final(buckets).len() == old(buckets).len(),
        final(cache).len() == old(cache).len(),
{
    let mut i: FastSint = lo;
    let ghost step = prepare_left_step(t@, sa@, names as int);
    let ghost s0 = (buckets@, cache@, *count, *d);
    while i < hi
        invariant
            lo <= i,
            i <= hi || hi < lo,
            hi < lo ==> i == lo,
            step == prepare_left_step(t@, sa@, names as int),
            s0 == (old(buckets)@, old(cache)@, *old(count), *old(d)),
            names + 1024 <= usize::MAX,
            fold_up(step, s0, lo as int, i as int) == Some((buckets@, cache@, *count, *d)),
            buckets.len() == old(buckets).len(),
            cache.len() == old(cache).len(),
        decreases hi - i,
    {
        proof {
            lemma_fold_up_prefix(step, s0, lo as int, i + 1, hi as int);
        }
        if !prepare_left_at(t, sa, names, buckets, cache, count, d, i) {
            return false;
        }
        i += 1;
    }
    true
}

/// Reads the suffix at slot `i` into the cache, with the bucket of what it induces, counts it
/// there and notes the number of its name; the names start at `names`.
pub open spec fn prepare_right_step(t: Seq<u8>, sa: Seq<i32>, names: int) -> spec_fn((Seq<i32>, Seq<ThreadCache>, usize, i32), int) -> Option<(Seq<i32>, Seq<ThreadCache>, usize, i32)> {
    |s: (Seq<i32>, Seq<ThreadCache>, usize, i32), i: int|
        {
            let (buckets, cache, count, d) = s;
            let p = sa[i];
            let q = unmarked(p) as int;
            let e = d + bit(p < 0);
            let v = 2 * t[q - 1] + bit(t[q - 2] > t[q - 1]);
            if 0 <= i < sa.len() && 2 <= q <= t.len() && e <= i32::MAX && count < cache.len() && names + v < buckets.len() && v < names
                && buckets[v] < i32::MAX {
                Some((
                    buckets.update(v, (buckets[v] + 1) as i32).update(names + v, e as i32),
                    cache.update(count as int, ThreadCache { symbol: v as i32, index: p }),
                    (count + 1) as usize,
                    e as i32,
                ))
            } else {
                None
            }
        }
}

/// [`prepare_right_step`] over the positions from `lo` to `hi`, downward.
pub open spec fn prepare_right_run(t: Seq<u8>, sa: Seq<i32>, names: int, s: (Seq<i32>, Seq<ThreadCache>, usize, i32), lo: int, hi: int) -> Option<(Seq<i32>, Seq<ThreadCache>, usize, i32)> {
    fold_down(prepare_right_step(t, sa, names), s, lo, hi)
}

/// Performs one step, or returns `false` where the step is outside its domain.
fn prepare_right_at(
    t: &[u8],
    sa: &[SaSint],
    names: usize,
    buckets: &mut [SaSint],
    cache: &mut [ThreadCache],
    count: &mut usize,
    d: &mut SaSint,
    i: FastSint,
) -> (ok: bool)
    requires
        names + 1024 <= usize::MAX,
    ensures
        ok == (prepare_right_step(t@, sa@, names as int)((old(buckets)@, old(cache)@, *old(count), *old(d)), i as int) is Some),
        ok ==> prepare_right_step(t@, sa@, names as int)((old(buckets)@, old(cache)@, *old(count), *old(d)), i as int) == Some((final(buckets)@, final(cache)@, *final(count), *final(d))),
        final(buckets).len() == old(buckets).len(),
        final(cache).len() == old(cache).len(),
{
    if !word_within(i, sa.len()) {
        return false;
    }
    let p: SaSint = sa[i as usize];
    let q: usize = clear_mark(p) as usize;
    if !(2 <= q && q <= t.len()) || (p < 0 && *d == SAINT_MAX) || *count >= cache.len() {
        return false;
    }
    let e: SaSint = if p < 0 { *d + 1 } else { *d };
    let v: usize = 2 * (t[q - 1] as usize) + (if t[q - 2] > t[q - 1] { 1 } else { 0 });
    if v >= buckets.len() || names >= buckets.len() - v || v >= names || buckets[v] == SAINT_MAX {
        return false;
    }
    buckets[v] = buckets[v] + 1;
    buckets[names + v] = e;
    cache[*count] = ThreadCache { symbol: v as SaSint, index: p };
    *count = *count + 1;
    *d = e;
    true
}

/// Runs the steps as far as they are defined; `false` where one is not.
pub(crate) fn try_prepare_right(
    t: &[u8],
    sa: &[SaSint],
    names: usize,
    buckets: &mut [SaSint],
    cache: &mut [ThreadCache],
    count: &mut usize,
    d: &mut SaSint,
    lo: FastSint,
    hi: FastSint,
) -> (ok: bool)
    requires
        names + 1024 <= usize::MAX,
    ensures
        ok == (prepare_right_run(t@, sa@, names as int, (old(buckets)@, old(cache)@, *old(count), *old(d)), lo as int, hi as int) is Some),
        ok ==> prepare_right_run(t@, sa@, names as int, (old(buckets)@, old(cache)@, *old(count), *old(d)), lo as int, hi as int) == Some((final(buckets)@, final(cache)@, *final(count), *final(d))),
        final(buckets).len() == old(buckets).len(),
        final(cache).len() == old(cache).len(),
{
    if hi <= lo {
        return true;
    }
    let mut i: FastSint = hi;
    let ghost step = prepare_right_step(t@, sa@, names as int);
    let ghost s0 = (buckets@, cache@, *count, *d);
    while i > lo
        invariant
            lo <= i <= hi,
            step == prepare_right_step(t@, sa@, names as int),
            s0 == (old(buckets)@, old(cache)@, *old(count), *old(d)),
            names + 1024 <= usize::MAX,
            fold_down(step, s0, i as int, hi as int) == Some((buckets@, cache@, *count, *d)),
            buckets.len() == old(buckets).len(),
            cache.len() == old(cache).len(),
        decreases i - lo,
    {
        proof {
            lemma_fold_down_prefix(step, s0, lo as int, i - 1, hi as int);
        }
        i -= 1;
        if !prepare_right_at(t, sa, names, buckets, cache, count, d, i) {
            return false;
        }
    }
    true
}

/// What reading a block into the cache leaves: the buckets, the cache, the number of entries
/// and one more than the number of marks.
pub open spec fn prepared_left(t: Seq<u8>, sa: Seq<i32>, k: int, buckets: Seq<i32>, cache: Seq<ThreadCache>, start: int, size: int) -> Option<(Seq<i32>, Seq<ThreadCache>, usize, i32)> {
    if 0 <= k && 4 * k <= buckets.len() {
        prepare_left_run(t, sa, 2 * k, (cleared(buckets, 0, 4 * k), cache, 0, 1), start, start + size)
    } else {
        None
    }
}

/// Reads a block into the cache, counts what it induces in the first `2 k` buckets and notes
/// the names in the next. Returns the number of marks and the number of entries.
pub fn partial_sorting_scan_left_to_right_8u_block_prepare(
    t: &[u8],
    sa: &[SaSint],
    k: SaSint,
    buckets: &mut [SaSint],
    cache: &mut [ThreadCache],
    omp_block_start: FastSint,
    omp_block_size: FastSint,
) -> (r: (FastSint, FastSint))
    requires
        isize::MIN <= omp_block_start + omp_block_size <= isize::MAX,
        old(cache).len() <= isize::MAX,
        old(buckets).len() <= isize::MAX,
        prepared_left(t@, sa@, k as int, old(buckets)@, old(cache)@, omp_block_start as int, omp_block_size as int) is Some,
    ensures
        ({
            let x = prepared_left(t@, sa@, k as int, old(buckets)@, old(cache)@, omp_block_start as int, omp_block_size as int)->0;
            final(buckets)@ == x.0 && final(cache)@ == x.1 && r.1 == x.2 && r.0 == x.3 - 1
        }),
        final(buckets).len() == old(buckets).len(),
        final(cache).len() == old(cache).len(),
{
    clear_range(buckets, 0, 4 * (k as usize));
    let mut count: usize = 0;
    let mut d: SaSint = 1;
    proof {
        lemma_prepared_left(t@, sa@, 2 * k, (buckets@, cache@, 0, 1), omp_block_start as int, omp_block_start + omp_block_size);
    }
    let _ok: bool = try_prepare_left(t, sa, 2 * (k as usize), buckets, cache, &mut count, &mut d, omp_block_start,
        omp_block_start + omp_block_size);
    (d as FastSint - 1, count as FastSint)
}

/// Reading a block fills no more than the cache, and marks only add.
proof fn lemma_prepared_left(t: Seq<u8>, sa: Seq<i32>, names: int, s: (Seq<i32>, Seq<ThreadCache>, usize, i32), lo: int, hi: int)
    requires
        prepare_left_run(t, sa, names, s, lo, hi) is Some,
        s.2 <= s.1.len(),
    ensures
        ({
            let x = prepare_left_run(t, sa, names, s, lo, hi)->0;
            x.2 <= x.1.len() && x.1.len() == s.1.len() && x.3 >= s.3
        }),
    decreases hi - lo,
{
    if lo < hi {
        lemma_prepared_left(t, sa, names, s, lo, hi - 1);
    }
}

/// What reading a block into the cache leaves: the buckets, the cache, the number of entries
/// and one more than the number of marks.
pub open spec fn prepared_right(t: Seq<u8>, sa: Seq<i32>, k: int, buckets: Seq<i32>, cache: Seq<ThreadCache>, start: int, size: int) -> Option<(Seq<i32>, Seq<ThreadCache>, usize, i32)> {
    if 0 <= k && 4 * k <= buckets.len() {
        prepare_right_run(t, sa, 2 * k, (cleared(buckets, 0, 4 * k), cache, 0, 1), start, start + size)
    } else {
        None
    }
}

/// Reads a block into the cache, counts what it induces in the first `2 k` buckets and notes
/// the names in the next. Returns the number of marks and the number of entries.
pub fn partial_sorting_scan_right_to_left_8u_block_prepare(
    t: &[u8],
    sa: &[SaSint],
    k: SaSint,
    buckets: &mut [SaSint],
    cache: &mut [ThreadCache],
    omp_block_start: FastSint,
    omp_block_size: FastSint,
) -> (r: (FastSint, FastSint))
    requires
        isize::MIN <= omp_block_start + omp_block_size <= isize::MAX,
        old(cache).len() <= isize::MAX,
        old(buckets).len() <= isize::MAX,
        prepared_right(t@, sa@, k as int, old(buckets)@, old(cache)@, omp_block_start as int, omp_block_size as int) is Some,
    ensures
        ({
            let x = prepared_right(t@, sa@, k as int, old(buckets)@, old(cache)@, omp_block_start as int, omp_block_size as int)->0;
            final(buckets)@ == x.0 && final(cache)@ == x.1 && r.1 == x.2 && r.0 == x.3 - 1
        }),
        final(buckets).len() == old(buckets).len(),
        final(cache).len() == old(cache).len(),
{
    clear_range(buckets, 0, 4 * (k as usize));
    let mut count: usize = 0;
    let mut d: SaSint = 1;
    proof {
        lemma_prepared_right(t@, sa@, 2 * k, (buckets@, cache@, 0, 1), omp_block_start as int, omp_block_start + omp_block_size);
    }
    let _ok: bool = try_prepare_right(t, sa, 2 * (k as usize), buckets, cache, &mut count, &mut d, omp_block_start,
        omp_block_start + omp_block_size);
    (d as FastSint - 1, count as FastSint)
}

/// Reading a block fills no more than the cache, and marks only add.
proof fn lemma_prepared_right(t: Seq<u8>, sa: Seq<i32>, names: int, s: (Seq<i32>, Seq<ThreadCache>, usize, i32), lo: int, hi: int)
    requires
        prepare_right_run(t, sa, names, s, lo, hi) is Some,
        s.2 <= s.1.len(),
    ensures
        ({
            let x = prepare_right_run(t, sa, names, s, lo, hi)->0;
            x.2 <= x.1.len() && x.1.len() == s.1.len() && x.3 >= s.3
        }),
    decreases hi - lo,
{
    if lo < hi {
        lemma_prepared_right(t, sa, names, s, lo + 1, hi);
    }
}

/// Writes the suffix that cache entry `i` induces to the next free slot of its bucket, marked
/// where it opens a new name. The buckets start at `first`,
/// their names at `names`, and there are `limit` of them.
pub open spec fn place_left_step(cache: Seq<ThreadCache>, first: int, names: int, limit: int) -> spec_fn((Seq<i32>, Seq<i32>, i32), int) -> Option<(Seq<i32>, Seq<i32>, i32)> {
    |s: (Seq<i32>, Seq<i32>, i32), i: int|
        {
            let (sa, buckets, d) = s;
            let p = cache[i].index;
            let v = cache[i].symbol as int;
            let e = d + bit(p < 0);
            let x = buckets[first + v] as int;
            if !(0 <= i < cache.len() && 0 <= v && e <= i32::MAX) {
                None
            } else if v < limit && first + v < buckets.len() && names + v < buckets.len() && p > i32::MIN && 0 <= x < sa.len() && x < i32::MAX {
                let b = buckets.update(first + v, (x + 1) as i32);
                Some((sa.update(x, marked((p - 1) as i32, b[names + v] != e)), b.update(names + v, e as i32), e as i32))
            } else {
                None
            }
        }
}

/// [`place_left_step`] over the positions from `lo` to `hi`, upward.
pub open spec fn place_left_run(cache: Seq<ThreadCache>, first: int, names: int, limit: int, s: (Seq<i32>, Seq<i32>, i32), lo: int, hi: int) -> Option<(Seq<i32>, Seq<i32>, i32)> {
    fold_up(place_left_step(cache, first, names, limit), s, lo, hi)
}

/// Performs one step, or returns `false` where the step is outside its domain.
fn place_left_at(
    cache: &[ThreadCache],
    first: usize,
    names: usize,
    limit: usize,
    sa: &mut [SaSint],
    buckets: &mut [SaSint],
    d: &mut SaSint,
    i: FastSint,
) -> (ok: bool)
    ensures
        ok == (place_left_step(cache@, first as int, names as int, limit as int)((old(sa)@, old(buckets)@, *old(d)), i as int) is Some),
        ok ==> place_left_step(cache@, first as int, names as int, limit as int)((old(sa)@, old(buckets)@, *old(d)), i as int) == Some((final(sa)@, final(buckets)@, *final(d))),
        final(sa).len() == old(sa).len(),
        final(buckets).len() == old(buckets).len(),
{
    if !word_within(i, cache.len()) {
        return false;
    }
    let p: SaSint = cache[i as usize].index;
    let v: SaSint = cache[i as usize].symbol;
    if v < 0 || (p < 0 && *d == SAINT_MAX) {
        return false;
    }
    let e: SaSint = if p < 0 { *d + 1 } else { *d };
    if v as u64 >= limit as u64 || p == SAINT_MIN {
        return false;
    }
    let z: usize = v as usize;
    if z >= buckets.len() || first >= buckets.len() - z || names >= buckets.len() - z {
        return false;
    }
    let x: SaSint = buckets[first + z];
    if !within(x, sa.len()) || x == SAINT_MAX {
        return false;
    }
    buckets[first + z] = x + 1;
    sa[x as usize] = set_mark(p - 1, buckets[names + z] != e);
    buckets[names + z] = e;
    *d = e;
    true
}

/// Runs the steps as far as they are defined; `false` where one is not.
pub(crate) fn try_place_left(
    cache: &[ThreadCache],
    first: usize,
    names: usize,
    limit: usize,
    sa: &mut [SaSint],
    buckets: &mut [SaSint],
    d: &mut SaSint,
    lo: FastSint,
    hi: FastSint,
) -> (ok: bool)
    ensures
        ok == (place_left_run(cache@, first as int, names as int, limit as int, (old(sa)@, old(buckets)@, *old(d)), lo as int, hi as int) is Some),
        ok ==> place_left_run(cache@, first as int, names as int, limit as int, (old(sa)@, old(buckets)@, *old(d)), lo as int, hi as int) == Some((final(sa)@, final(buckets)@, *final(d))),
        final(sa).len() == old(sa).len(),
        final(buckets).len() == old(buckets).len(),
{
    let mut i: FastSint = lo;
    let ghost step = place_left_step(cache@, first as int, names as int, limit as int);
    let ghost s0 = (sa@, buckets@, *d);
    while i < hi
        invariant
            lo <= i,
            i <= hi || hi < lo,
            hi < lo ==> i == lo,
            step == place_left_step(cache@, first as int, names as int, limit as int),
            s0 == (old(sa)@, old(buckets)@, *old(d)),
            fold_up(step, s0, lo as int, i as int) == Some((sa@, buckets@, *d)),
            sa.len() == old(sa).len(),
            buckets.len() == old(buckets).len(),
        decreases hi - i,
    {
        proof {
            lemma_fold_up_prefix(step, s0, lo as int, i + 1, hi as int);
        }
        if !place_left_at(cache, first, names, limit, sa, buckets, d, i) {
            return false;
        }
        i += 1;
    }
    true
}

/// Writes the suffix that cache entry `i` induces to the last free slot of its bucket, marked
/// where it opens a new name. The buckets start at `first`,
/// their names at `names`, and there are `limit` of them.
pub open spec fn place_right_step(cache: Seq<ThreadCache>, first: int, names: int, limit: int) -> spec_fn((Seq<i32>, Seq<i32>, i32), int) -> Option<(Seq<i32>, Seq<i32>, i32)> {
    |s: (Seq<i32>, Seq<i32>, i32), i: int|
        {
            let (sa, buckets, d) = s;
            let p = cache[i].index;
            let v = cache[i].symbol as int;
            let e = d + bit(p < 0);
            let x = buckets[first + v] - 1;
            if !(0 <= i < cache.len() && 0 <= v && e <= i32::MAX) {
                None
            } else if v < limit && first + v < buckets.len() && names + v < buckets.len() && p > i32::MIN && 0 <= x < sa.len() && x < i32::MAX {
                let b = buckets.update(first + v, x as i32);
                Some((sa.update(x, marked((p - 1) as i32, b[names + v] != e)), b.update(names + v, e as i32), e as i32))
            } else {
                None
            }
        }
}

/// [`place_right_step`] over the positions from `lo` to `hi`, upward.
pub open spec fn place_right_run(cache: Seq<ThreadCache>, first: int, names: int, limit: int, s: (Seq<i32>, Seq<i32>, i32), lo: int, hi: int) -> Option<(Seq<i32>, Seq<i32>, i32)> {
    fold_up(place_right_step(cache, first, names, limit), s, lo, hi)
}

/// Performs one step, or returns `false` where the step is outside its domain.
fn place_right_at(
    cache: &[ThreadCache],
    first: usize,
    names: usize,
    limit: usize,
    sa: &mut [SaSint],
    buckets: &mut [SaSint],
    d: &mut SaSint,
    i: FastSint,
) -> (ok: bool)
    ensures
        ok == (place_right_step(cache@, first as int, names as int, limit as int)((old(sa)@, old(buckets)@, *old(d)), i as int) is Some),
        ok ==> place_right_step(cache@, first as int, names as int, limit as int)((old(sa)@, old(buckets)@, *old(d)), i as int) == Some((final(sa)@, final(buckets)@, *final(d))),
        final(sa).len() == old(sa).len(),
        final(buckets).len() == old(buckets).len(),
{
    if !word_within(i, cache.len()) {
        return false;
    }
    let p: SaSint = cache[i as usize].index;
    let v: SaSint = cache[i as usize].symbol;
    if v < 0 || (p < 0 && *d == SAINT_MAX) {
        return false;
    }
    let e: SaSint = if p < 0 { *d + 1 } else { *d };
    if v as u64 >= limit as u64 || p == SAINT_MIN {
        return false;
    }
    let z: usize = v as usize;
    if z >= buckets.len() || first >= buckets.len() - z || names >= buckets.len() - z {
        return false;
    }
    if buckets[first + z] <= 0 {
        return false;
    }
    let x: SaSint = buckets[first + z] - 1;
    if !within(x, sa.len()) {
        return false;
    }
    buckets[first + z] = x;
    sa[x as usize] = set_mark(p - 1, buckets[names + z] != e);
    buckets[names + z] = e;
    *d = e;
    true
}

/// Runs the steps as far as they are defined; `false` where one is not.
pub(crate) fn try_place_right(
    cache: &[ThreadCache],
    first: usize,
    names: usize,
    limit: usize,
    sa: &mut [SaSint],
    buckets: &mut [SaSint],
    d: &mut SaSint,
    lo: FastSint,
    hi: FastSint,
) -> (ok: bool)
    ensures
        ok == (place_right_run(cache@, first as int, names as int, limit as int, (old(sa)@, old(buckets)@, *old(d)), lo as int, hi as int) is Some),
        ok ==> place_right_run(cache@, first as int, names as int, limit as int, (old(sa)@, old(buckets)@, *old(d)), lo as int, hi as int) == Some((final(sa)@, final(buckets)@, *final(d))),
        final(sa).len() == old(sa).len(),
        final(buckets).len() == old(buckets).len(),
{
    let mut i: FastSint = lo;
    let ghost step = place_right_step(cache@, first as int, names as int, limit as int);
    let ghost s0 = (sa@, buckets@, *d);
    while i < hi
        invariant
            lo <= i,
            i <= hi || hi < lo,
            hi < lo ==> i == lo,
            step == place_right_step(cache@, first as int, names as int, limit as int),
            s0 == (old(sa)@, old(buckets)@, *old(d)),
            fold_up(step, s0, lo as int, i as int) == Some((sa@, buckets@, *d)),
            sa.len() == old(sa).len(),
            buckets.len() == old(buckets).len(),
        decreases hi - i,
    {
        proof {
            lemma_fold_up_prefix(step, s0, lo as int, i + 1, hi as int);
        }
        if !place_right_at(cache, first, names, limit, sa, buckets, d, i) {
            return false;
        }
        i += 1;
    }
    true
}

/// Writes the suffix that cache entry `i` induces to the last free slot of its bucket, marked
/// where it opens a new name; the bucket of the separators is left alone. The buckets start at `first`,
/// their names at `names`, and there are `limit` of them.
pub open spec fn place_gsa_step(cache: Seq<ThreadCache>, first: int, names: int, limit: int) -> spec_fn((Seq<i32>, Seq<i32>, i32), int) -> Option<(Seq<i32>, Seq<i32>, i32)> {
    |s: (Seq<i32>, Seq<i32>, i32), i: int|
        {
            let (sa, buckets, d) = s;
            let p = cache[i].index;
            let v = cache[i].symbol as int;
            let e = d + bit(p < 0);
            let x = buckets[first + v] - 1;
            if !(0 <= i < cache.len() && 0 <= v && e <= i32::MAX) {
                None
            } else if v == 1 {
                Some((sa, buckets, e as i32))
            } else if v < limit && first + v < buckets.len() && names + v < buckets.len() && p > i32::MIN && 0 <= x < sa.len() && x < i32::MAX {
                let b = buckets.update(first + v, x as i32);
                Some((sa.update(x, marked((p - 1) as i32, b[names + v] != e)), b.update(names + v, e as i32), e as i32))
            } else {
                None
            }
        }
}

/// [`place_gsa_step`] over the positions from `lo` to `hi`, upward.
pub open spec fn place_gsa_run(cache: Seq<ThreadCache>, first: int, names: int, limit: int, s: (Seq<i32>, Seq<i32>, i32), lo: int, hi: int) -> Option<(Seq<i32>, Seq<i32>, i32)> {
    fold_up(place_gsa_step(cache, first, names, limit), s, lo, hi)
}

/// Performs one step, or returns `false` where the step is outside its domain.
fn place_gsa_at(
    cache: &[ThreadCache],
    first: usize,
    names: usize,
    limit: usize,
    sa: &mut [SaSint],
    buckets: &mut [SaSint],
    d: &mut SaSint,
    i: FastSint,
) -> (ok: bool)
    ensures
        ok == (place_gsa_step(cache@, first as int, names as int, limit as int)((old(sa)@, old(buckets)@, *old(d)), i as int) is Some),
        ok ==> place_gsa_step(cache@, first as int, names as int, limit as int)((old(sa)@, old(buckets)@, *old(d)), i as int) == Some((final(sa)@, final(buckets)@, *final(d))),
        final(sa).len() == old(sa).len(),
        final(buckets).len() == old(buckets).len(),
{
    if !word_within(i, cache.len()) {
        return false;
    }
    let p: SaSint = cache[i as usize].index;
    let v: SaSint = cache[i as usize].symbol;
    if v < 0 || (p < 0 && *d == SAINT_MAX) {
        return false;
    }
    let e: SaSint = if p < 0 { *d + 1 } else { *d };
    if v == 1 {
        *d = e;
        return true;
    }
    if v as u64 >= limit as u64 || p == SAINT_MIN {
        return false;
    }
    let z: usize = v as usize;
    if z >= buckets.len() || first >= buckets.len() - z || names >= buckets.len() - z {
        return false;
    }
    if buckets[first + z] <= 0 {
        return false;
    }
    let x: SaSint = buckets[first + z] - 1;
    if !within(x, sa.len()) {
        return false;
    }
    buckets[first + z] = x;
    sa[x as usize] = set_mark(p - 1, buckets[names + z] != e);
    buckets[names + z] = e;
    *d = e;
    true
}

/// Runs the steps as far as they are defined; `false` where one is not.
pub(crate) fn try_place_gsa(
    cache: &[ThreadCache],
    first: usize,
    names: usize,
    limit: usize,
    sa: &mut [SaSint],
    buckets: &mut [SaSint],
    d: &mut SaSint,
    lo: FastSint,
    hi: FastSint,
) -> (ok: bool)
    ensures
        ok == (place_gsa_run(cache@, first as int, names as int, limit as int, (old(sa)@, old(buckets)@, *old(d)), lo as int, hi as int) is Some),
        ok ==> place_gsa_run(cache@, first as int, names as int, limit as int, (old(sa)@, old(buckets)@, *old(d)), lo as int, hi as int) == Some((final(sa)@, final(buckets)@, *final(d))),
        final(sa).len() == old(sa).len(),
        final(buckets).len() == old(buckets).len(),
{
    let mut i: FastSint = lo;
    let ghost step = place_gsa_step(cache@, first as int, names as int, limit as int);
    let ghost s0 = (sa@, buckets@, *d);
    while i < hi
        invariant
            lo <= i,
            i <= hi || hi < lo,
            hi < lo ==> i == lo,
            step == place_gsa_step(cache@, first as int, names as int, limit as int),
            s0 == (old(sa)@, old(buckets)@, *old(d)),
            fold_up(step, s0, lo as int, i as int) == Some((sa@, buckets@, *d)),
            sa.len() == old(sa).len(),
            buckets.len() == old(buckets).len(),
        decreases hi - i,
    {
        proof {
            lemma_fold_up_prefix(step, s0, lo as int, i + 1, hi as int);
        }
        if !place_gsa_at(cache, first, names, limit, sa, buckets, d, i) {
            return false;
        }
        i += 1;
    }
    true
}

/// How many entries are written for `count`: at least one.
pub open spec fn placed_count(count: isize) -> int {
    if count == 0 {
        1
    } else {
        count as int
    }
}

/// Writes what the cached suffixes induce. The buckets are the first half of `buckets`, their
/// names the second.
pub fn partial_sorting_scan_left_to_right_8u_block_place(
    sa: &mut [SaSint],
    buckets: &mut [SaSint],
    cache: &[ThreadCache],
    count: FastSint,
    d: SaSint,
)
    requires
        0 <= count,
        place_left_run(cache@, 0, old(buckets).len() as int / 2, old(buckets).len() as int / 2, (old(sa)@, old(buckets)@, d), 0, placed_count(count)) is Some,
    ensures
        place_left_run(cache@, 0, old(buckets).len() as int / 2, old(buckets).len() as int / 2, (old(sa)@, old(buckets)@, d), 0, placed_count(count)).unwrap().0 == final(sa)@,
        place_left_run(cache@, 0, old(buckets).len() as int / 2, old(buckets).len() as int / 2, (old(sa)@, old(buckets)@, d), 0, placed_count(count)).unwrap().1 == final(buckets)@,
        final(sa).len() == old(sa).len(),
        final(buckets).len() == old(buckets).len(),
{
    let half: usize = buckets.len() / 2;
    let last: FastSint = if count == 0 { 1 } else { count };
    let mut names: SaSint = d;
    let _ok: bool = try_place_left(cache, 0, half, half, sa, buckets, &mut names, 0, last);
}

/// Writes what the cached suffixes induce. The buckets are the first 512 of `buckets`, their
/// names the next.
pub fn partial_sorting_scan_right_to_left_8u_block_place(
    sa: &mut [SaSint],
    buckets: &mut [SaSint],
    cache: &[ThreadCache],
    count: FastSint,
    d: SaSint,
)
    requires
        0 <= count,
        count <= cache.len(),
        old(buckets).len() >= 1024,
        place_right_run(cache@, 0, 512, 512, (old(sa)@, old(buckets)@, d), 0, count as int) is Some,
    ensures
        place_right_run(cache@, 0, 512, 512, (old(sa)@, old(buckets)@, d), 0, count as int).unwrap().0 == final(sa)@,
        place_right_run(cache@, 0, 512, 512, (old(sa)@, old(buckets)@, d), 0, count as int).unwrap().1 == final(buckets)@,
        final(sa).len() == old(sa).len(),
        final(buckets).len() == old(buckets).len(),
{
    let mut names: SaSint = d;
    let _ok: bool = try_place_right(cache, 0, 512, 512, sa, buckets, &mut names, 0, count);
}

/// Writes what the cached suffixes of separated texts induce. The buckets are the first 512 of
/// `buckets`, their names the next.
pub fn partial_gsa_scan_right_to_left_8u_block_place(
    sa: &mut [SaSint],
    buckets: &mut [SaSint],
    cache: &[ThreadCache],
    count: FastSint,
    d: SaSint,
)
    requires
        0 <= count,
        count <= cache.len(),
        old(buckets).len() >= 1024,
        place_gsa_run(cache@, 0, 512, 512, (old(sa)@, old(buckets)@, d), 0, count as int) is Some,
    ensures
        place_gsa_run(cache@, 0, 512, 512, (old(sa)@, old(buckets)@, d), 0, count as int).unwrap().0 == final(sa)@,
        place_gsa_run(cache@, 0, 512, 512, (old(sa)@, old(buckets)@, d), 0, count as int).unwrap().1 == final(buckets)@,
        final(sa).len() == old(sa).len(),
        final(buckets).len() == old(buckets).len(),
{
    let mut names: SaSint = d;
    let _ok: bool = try_place_gsa(cache, 0, 512, 512, sa, buckets, &mut names, 0, count);
}

/// The state of a scan over a byte text that names: the array, the buckets, the last name, and
/// the desks of the workers.
pub type NamingState = (Seq<i32>, Seq<i32>, i32, Seq<Desk>);

/// Worker `w` of `k` reads its part of a block into its desk.
pub open spec fn read_step(t: Seq<u8>, sa: Seq<i32>, symbols: int, right: bool, k: int, start: int, size: int) -> spec_fn(Seq<Desk>, int) -> Option<Seq<Desk>> {
    |s: Seq<Desk>, w: int|
        {
            let lo = start + block_lo(size, k, w);
            let len = block_hi(size, k, w) - block_lo(size, k, w);
            let read = if right {
                prepared_right(t, sa, symbols, s[w].buckets, s[w].cache, lo, len)
            } else {
                prepared_left(t, sa, symbols, s[w].buckets, s[w].cache, lo, len)
            };
            match read {
                Some(x) => if 0 <= w < s.len() {
                    Some(s.update(w, Desk { position: (x.3 - 1) as isize, count: x.2 as isize, buckets: x.0, cache: x.1 }))
                } else {
                    None
                },
                None => None,
            }
        }
}

/// Worker `w` takes over the buckets, which start at `from`, and their names, and hands them on
/// with its own counts.
pub open spec fn hand_on_step(symbols: int, from: int, down: bool) -> spec_fn((Seq<i32>, i32, Seq<Desk>), int) -> Option<(Seq<i32>, i32, Seq<Desk>)> {
    |s: (Seq<i32>, i32, Seq<Desk>), w: int|
        {
            let own = s.2[w];
            match exchanged(s.0, own.buckets, from, 2 * symbols, down) {
                Some(x) => match renamed(x.0, x.1, NAMES_8U as int, 2 * symbols, s.1) {
                    Some(y) => if symbols <= 256 && 0 <= w < s.2.len() && i32::MIN <= own.position <= i32::MAX
                        && i32::MIN <= s.1 + own.position <= i32::MAX {
                        Some((
                            y.0,
                            (s.1 + own.position) as i32,
                            s.2.update(w, Desk { position: s.1 as isize, buckets: y.1, ..own }),
                        ))
                    } else {
                        None
                    },
                    None => None,
                },
                None => None,
            }
        }
}

/// Which of the scans that name writes.
#[derive(Clone, Copy)]
pub enum Naming {
    Left,
    Right,
    Separated,
}

/// Worker `w` writes what its desk induces.
pub open spec fn write_step(naming: Naming) -> spec_fn((Seq<i32>, Seq<Desk>), int) -> Option<(Seq<i32>, Seq<Desk>)> {
    |s: (Seq<i32>, Seq<Desk>), w: int|
        {
            let own = s.1[w];
            let half = own.buckets.len() as int / 2;
            let d = own.position as i32;
            let fits = 1024 <= own.buckets.len() && own.count <= own.cache.len();
            let written = match naming {
                Naming::Left => place_left_run(own.cache, 0, half, half, (s.0, own.buckets, d), 0, placed_count(own.count)),
                Naming::Right => if fits {
                    place_right_run(own.cache, 0, 512, 512, (s.0, own.buckets, d), 0, own.count as int)
                } else {
                    None
                },
                Naming::Separated => if fits {
                    place_gsa_run(own.cache, 0, 512, 512, (s.0, own.buckets, d), 0, own.count as int)
                } else {
                    None
                },
            };
            match written {
                Some(x) => if 0 <= w < s.1.len() {
                    Some((x.0, s.1.update(w, Desk { buckets: x.1, ..own })))
                } else {
                    None
                },
                None => None,
            }
        }
}

/// How many workers share a block of `size` slots.
pub open spec fn block_workers(symbols: int, size: int, threads: int, available: int) -> int {
    workers(threads, size >= 64 * (if symbols > 256 { symbols } else { 256 }), available)
}

/// Lets `k` workers read their parts of a block into their desks.
fn read_desks(t: &[u8], sa: &[SaSint], symbols: SaSint, right: bool, k: usize, start: FastSint, size: usize, thread_state: &mut [ThreadState])
    requires
        0 <= start,
        start + size <= isize::MAX,
        k <= old(thread_state).len(),
        desks_fit(old(thread_state)@),
        fold_up(read_step(t@, sa@, symbols as int, right, k as int, start as int, size as int), desks(old(thread_state)@), 0, k as int) is Some,
    ensures
        fold_up(read_step(t@, sa@, symbols as int, right, k as int, start as int, size as int), desks(old(thread_state)@), 0, k as int)
            == Some(desks(final(thread_state)@)),
        quiet(old(thread_state)@, final(thread_state)@),
        desks_sized(old(thread_state)@, final(thread_state)@),
{
    let ghost step = read_step(t@, sa@, symbols as int, right, k as int, start as int, size as int);
    let ghost s0 = desks(thread_state@);
    let mut w: usize = 0;
    while w < k
        invariant
            0 <= start,
            start + size <= isize::MAX,
            w <= k <= thread_state.len(),
            desks_fit(old(thread_state)@),
            step == read_step(t@, sa@, symbols as int, right, k as int, start as int, size as int),
            fold_up(step, s0, 0, k as int) is Some,
            fold_up(step, s0, 0, w as int) == Some(desks(thread_state@)),
            quiet(old(thread_state)@, thread_state@),
            desks_sized(old(thread_state)@, thread_state@),
        decreases k - w,
    {
        let (lo, hi) = block_range(size, k, w);
        let ghost before = thread_state@;
        proof {
            lemma_fold_up_prefix(step, s0, 0, w + 1, k as int);
            assert(old(thread_state)@[w as int].buckets.len() <= isize::MAX);
            assert(before[w as int].buckets.len() == old(thread_state)@[w as int].buckets.len());
        }
        let state: &mut ThreadState = &mut thread_state[w];
        let (marks, count) = if right {
            partial_sorting_scan_right_to_left_8u_block_prepare(t, sa, symbols, state.buckets.as_mut_slice(),
                state.cache.as_mut_slice(), start + lo as FastSint, (hi - lo) as FastSint)
        } else {
            partial_sorting_scan_left_to_right_8u_block_prepare(t, sa, symbols, state.buckets.as_mut_slice(),
                state.cache.as_mut_slice(), start + lo as FastSint, (hi - lo) as FastSint)
        };
        state.position = marks;
        state.count = count;
        proof {
            assert(desks(thread_state@) =~= desks(before).update(w as int, desk(thread_state@[w as int])));
        }
        w += 1;
    }
}

/// Lets worker `w` take over the buckets and their names, and hand them on.
fn hand_on(buckets: &mut [SaSint], d: SaSint, symbols: SaSint, from: usize, down: bool, w: usize, thread_state: &mut [ThreadState]) -> (r: SaSint)
    requires
        w < old(thread_state).len(),
        hand_on_step(symbols as int, from as int, down)((old(buckets)@, d, desks(old(thread_state)@)), w as int) is Some,
    ensures
        hand_on_step(symbols as int, from as int, down)((old(buckets)@, d, desks(old(thread_state)@)), w as int)
            == Some((final(buckets)@, r, desks(final(thread_state)@))),
        quiet(old(thread_state)@, final(thread_state)@),
        desks_sized(old(thread_state)@, final(thread_state)@),
        final(buckets).len() == old(buckets).len(),
{
    let ghost before = thread_state@;
    let state: &mut ThreadState = &mut thread_state[w];
    let k: usize = 2 * (symbols as usize);
    exchange(buckets, state.buckets.as_mut_slice(), from, k, down);
    rename(buckets, state.buckets.as_mut_slice(), NAMES_8U, k, d);
    let next: SaSint = d + state.position as SaSint;
    state.position = d as FastSint;
    proof {
        assert(desks(thread_state@) =~= desks(before).update(w as int, desk(thread_state@[w as int])));
    }
    next
}

/// Hands the buckets and their names from worker to worker, the first of `k` first, or the last
/// where the buckets shrink.
fn hand_on_all(buckets: &mut [SaSint], d: SaSint, symbols: SaSint, from: usize, down: bool, k: usize, thread_state: &mut [ThreadState]) -> (r: SaSint)
    requires
        k <= old(thread_state).len(),
        !down ==> fold_up(hand_on_step(symbols as int, from as int, down), (old(buckets)@, d, desks(old(thread_state)@)), 0, k as int) is Some,
        down ==> fold_down(hand_on_step(symbols as int, from as int, down), (old(buckets)@, d, desks(old(thread_state)@)), 0, k as int) is Some,
    ensures
        !down ==> fold_up(hand_on_step(symbols as int, from as int, down), (old(buckets)@, d, desks(old(thread_state)@)), 0, k as int)
            == Some((final(buckets)@, r, desks(final(thread_state)@))),
        down ==> fold_down(hand_on_step(symbols as int, from as int, down), (old(buckets)@, d, desks(old(thread_state)@)), 0, k as int)
            == Some((final(buckets)@, r, desks(final(thread_state)@))),
        quiet(old(thread_state)@, final(thread_state)@),
        desks_sized(old(thread_state)@, final(thread_state)@),
        final(buckets).len() == old(buckets).len(),
{
    let ghost step = hand_on_step(symbols as int, from as int, down);
    let ghost s0 = (buckets@, d, desks(thread_state@));
    let mut names: SaSint = d;
    if down {
        let mut w: usize = k;
        while w > 0
            invariant
                down,
                w <= k <= thread_state.len(),
                step == hand_on_step(symbols as int, from as int, down),
                fold_down(step, s0, 0, k as int) is Some,
                fold_down(step, s0, w as int, k as int) == Some((buckets@, names, desks(thread_state@))),
                quiet(old(thread_state)@, thread_state@),
                desks_sized(old(thread_state)@, thread_state@),
                buckets.len() == old(buckets).len(),
            decreases w,
        {
            proof {
                lemma_fold_down_prefix(step, s0, 0, w - 1, k as int);
            }
            w -= 1;
            names = hand_on(buckets, names, symbols, from, down, w, thread_state);
        }
    } else {
        let mut w: usize = 0;
        while w < k
            invariant
                !down,
                w <= k <= thread_state.len(),
                step == hand_on_step(symbols as int, from as int, down),
                fold_up(step, s0, 0, k as int) is Some,
                fold_up(step, s0, 0, w as int) == Some((buckets@, names, desks(thread_state@))),
                quiet(old(thread_state)@, thread_state@),
                desks_sized(old(thread_state)@, thread_state@),
                buckets.len() == old(buckets).len(),
            decreases k - w,
        {
            proof {
                lemma_fold_up_prefix(step, s0, 0, w + 1, k as int);
            }
            names = hand_on(buckets, names, symbols, from, down, w, thread_state);
            w += 1;
        }
    }
    names
}

/// Lets `k` workers write what their desks induce.
fn write_desks(sa: &mut [SaSint], naming: Naming, k: usize, thread_state: &mut [ThreadState])
    requires
        k <= old(thread_state).len(),
        fold_up(write_step(naming), (old(sa)@, desks(old(thread_state)@)), 0, k as int) is Some,
    ensures
        fold_up(write_step(naming), (old(sa)@, desks(old(thread_state)@)), 0, k as int) == Some((final(sa)@, desks(final(thread_state)@))),
        quiet(old(thread_state)@, final(thread_state)@),
        desks_sized(old(thread_state)@, final(thread_state)@),
        final(sa).len() == old(sa).len(),
{
    let ghost step = write_step(naming);
    let ghost s0 = (sa@, desks(thread_state@));
    let mut w: usize = 0;
    while w < k
        invariant
            w <= k <= thread_state.len(),
            step == write_step(naming),
            fold_up(step, s0, 0, k as int) is Some,
            fold_up(step, s0, 0, w as int) == Some((sa@, desks(thread_state@))),
            quiet(old(thread_state)@, thread_state@),
            desks_sized(old(thread_state)@, thread_state@),
            sa.len() == old(sa).len(),
        decreases k - w,
    {
        let ghost before = thread_state@;
        proof {
            lemma_fold_up_prefix(step, s0, 0, w + 1, k as int);
        }
        let state: &mut ThreadState = &mut thread_state[w];
        let mut names: SaSint = state.position as SaSint;
        let count: FastSint = state.count;
        let _ok: bool = match naming {
            Naming::Left => {
                let half: usize = state.buckets.len() / 2;
                try_place_left(state.cache.as_slice(), 0, half, half, sa, state.buckets.as_mut_slice(), &mut names, 0,
                    if count == 0 { 1 } else { count })
            },
            Naming::Right => try_place_right(state.cache.as_slice(), 0, 512, 512, sa, state.buckets.as_mut_slice(), &mut names, 0, count),
            Naming::Separated => try_place_gsa(state.cache.as_slice(), 0, 512, 512, sa, state.buckets.as_mut_slice(), &mut names, 0, count),
        };
        proof {
            assert(desks(thread_state@) =~= desks(before).update(w as int, desk(thread_state@[w as int])));
        }
        w += 1;
    }
}

/// What is left of a block that is shared out among `k` workers: all of it is read before
/// anything is written.
pub open spec fn block_shared(t: Seq<u8>, symbols: int, naming: Naming, k: int, s: NamingState, start: int, size: int) -> Option<NamingState> {
    let right = !(naming is Left);
    match fold_up(read_step(t, s.0, symbols, right, k, start, size), s.3, 0, k) {
        Some(p) => {
            let passed = if right {
                fold_down(hand_on_step(symbols, 0, true), (s.1, s.2, p), 0, k)
            } else {
                fold_up(hand_on_step(symbols, INDUCTION_8U as int, false), (s.1, s.2, p), 0, k)
            };
            match passed {
                Some(q) => match fold_up(write_step(naming), (s.0, q.2), 0, k) {
                    Some(z) => Some((z.0, q.0, q.1, z.1)),
                    None => None,
                },
                None => None,
            }
        },
        None => None,
    }
}

/// Scans a block that is shared out among `k` workers, as [`block_shared`] says.
fn share_block(
    t: &[u8],
    sa: &mut [SaSint],
    symbols: SaSint,
    naming: Naming,
    buckets: &mut [SaSint],
    d: SaSint,
    start: FastSint,
    size: usize,
    k: usize,
    thread_state: &mut [ThreadState],
) -> (r: SaSint)
    requires
        0 <= start,
        start + size <= isize::MAX,
        1 <= k <= old(thread_state).len(),
        desks_fit(old(thread_state)@),
        block_shared(t@, symbols as int, naming, k as int, (old(sa)@, old(buckets)@, d, desks(old(thread_state)@)), start as int, size as int) is Some,
    ensures
        block_shared(t@, symbols as int, naming, k as int, (old(sa)@, old(buckets)@, d, desks(old(thread_state)@)), start as int, size as int)
            == Some((final(sa)@, final(buckets)@, r, desks(final(thread_state)@))),
        quiet(old(thread_state)@, final(thread_state)@),
        desks_sized(old(thread_state)@, final(thread_state)@),
        final(sa).len() == old(sa).len(),
        final(buckets).len() == old(buckets).len(),
{
    let right: bool = match naming {
        Naming::Left => false,
        _ => true,
    };
    read_desks(t, sa, symbols, right, k, start, size, thread_state);
    let names: SaSint = hand_on_all(buckets, d, symbols, if right { 0 } else { INDUCTION_8U }, right, k, thread_state);
    write_desks(sa, naming, k, thread_state);
    names
}

/// What scanning a block leaves.
pub open spec fn block_left(t: Seq<u8>, symbols: int, threads: int, s: NamingState, start: int, size: int) -> Option<NamingState> {
    let k = block_workers(symbols, size, threads, s.3.len() as int);
    if k <= 1 {
        match partial_sorting_scan_left_to_right_8u_run(t, (s.0, s.1, s.2), start, size) {
            Some(x) => Some((x.0, x.1, x.2, s.3)),
            None => None,
        }
    } else {
        block_shared(t, symbols, Naming::Left, k, s, start, size)
    }
}

/// Scans a block. Where the block is shared out among workers, all of it is read before anything
/// is written.
pub fn partial_sorting_scan_left_to_right_8u_block_omp(
    t: &[u8],
    sa: &mut [SaSint],
    k: SaSint,
    buckets: &mut [SaSint],
    d: SaSint,
    block_start: FastSint,
    block_size: FastSint,
    threads: SaSint,
    thread_state: &mut [ThreadState],
) -> (r: SaSint)
    requires
        0 <= block_start,
        0 <= block_size,
        0 <= k,
        64 * k <= isize::MAX,
        block_start + block_size <= isize::MAX,
        desks_fit(old(thread_state)@),
        block_left(t@, k as int, threads as int, (old(sa)@, old(buckets)@, d, desks(old(thread_state)@)), block_start as int, block_size as int) is Some,
    ensures
        block_left(t@, k as int, threads as int, (old(sa)@, old(buckets)@, d, desks(old(thread_state)@)), block_start as int, block_size as int)
            == Some((final(sa)@, final(buckets)@, r, desks(final(thread_state)@))),
        quiet(old(thread_state)@, final(thread_state)@),
        desks_sized(old(thread_state)@, final(thread_state)@),
        final(sa).len() == old(sa).len(),
        final(buckets).len() == old(buckets).len(),
{
    let large: bool = block_size >= 64 * (if k > 256 { k as FastSint } else { 256 });
    let count: usize = worker_count(threads, large, thread_state.len());
    if count == 1 {
        let mut names: SaSint = d;
        let _ok: bool = try_partial_sorting_scan_left_to_right_8u(t, sa, buckets, &mut names, block_start, block_size);
        names
    } else {
        share_block(t, sa, k, Naming::Left, buckets, d, block_start, block_size as usize, count, thread_state)
    }
}

/// What scanning a block leaves.
pub open spec fn block_right(t: Seq<u8>, symbols: int, threads: int, s: NamingState, start: int, size: int) -> Option<NamingState> {
    let k = block_workers(symbols, size, threads, s.3.len() as int);
    if k <= 1 {
        match partial_sorting_scan_right_to_left_8u_run(t, (s.0, s.1, s.2), start, size) {
            Some(x) => Some((x.0, x.1, x.2, s.3)),
            None => None,
        }
    } else {
        block_shared(t, symbols, Naming::Right, k, s, start, size)
    }
}

/// Scans a block. Where the block is shared out among workers, all of it is read before anything
/// is written.
pub fn partial_sorting_scan_right_to_left_8u_block_omp(
    t: &[u8],
    sa: &mut [SaSint],
    k: SaSint,
    buckets: &mut [SaSint],
    d: SaSint,
    block_start: FastSint,
    block_size: FastSint,
    threads: SaSint,
    thread_state: &mut [ThreadState],
) -> (r: SaSint)
    requires
        0 <= block_start,
        0 <= block_size,
        0 <= k,
        64 * k <= isize::MAX,
        block_start + block_size <= isize::MAX,
        desks_fit(old(thread_state)@),
        block_right(t@, k as int, threads as int, (old(sa)@, old(buckets)@, d, desks(old(thread_state)@)), block_start as int, block_size as int) is Some,
    ensures
        block_right(t@, k as int, threads as int, (old(sa)@, old(buckets)@, d, desks(old(thread_state)@)), block_start as int, block_size as int)
            == Some((final(sa)@, final(buckets)@, r, desks(final(thread_state)@))),
        quiet(old(thread_state)@, final(thread_state)@),
        desks_sized(old(thread_state)@, final(thread_state)@),
        final(sa).len() == old(sa).len(),
        final(buckets).len() == old(buckets).len(),
{
    let large: bool = block_size >= 64 * (if k > 256 { k as FastSint } else { 256 });
    let count: usize = worker_count(threads, large, thread_state.len());
    if count == 1 {
        let mut names: SaSint = d;
        let _ok: bool = try_partial_sorting_scan_right_to_left_8u(t, sa, buckets, &mut names, block_start, block_size);
        names
    } else {
        share_block(t, sa, k, Naming::Right, buckets, d, block_start, block_size as usize, count, thread_state)
    }
}

/// What scanning a block leaves.
pub open spec fn block_gsa(t: Seq<u8>, symbols: int, threads: int, s: NamingState, start: int, size: int) -> Option<NamingState> {
    let k = block_workers(symbols, size, threads, s.3.len() as int);
    if k <= 1 {
        match partial_gsa_scan_right_to_left_8u_run(t, (s.0, s.1, s.2), start, size) {
            Some(x) => Some((x.0, x.1, x.2, s.3)),
            None => None,
        }
    } else {
        block_shared(t, symbols, Naming::Separated, k, s, start, size)
    }
}

/// Scans a block. Where the block is shared out among workers, all of it is read before anything
/// is written.
pub fn partial_gsa_scan_right_to_left_8u_block_omp(
    t: &[u8],
    sa: &mut [SaSint],
    k: SaSint,
    buckets: &mut [SaSint],
    d: SaSint,
    block_start: FastSint,
    block_size: FastSint,
    threads: SaSint,
    thread_state: &mut [ThreadState],
) -> (r: SaSint)
    requires
        0 <= block_start,
        0 <= block_size,
        0 <= k,
        64 * k <= isize::MAX,
        block_start + block_size <= isize::MAX,
        desks_fit(old(thread_state)@),
        block_gsa(t@, k as int, threads as int, (old(sa)@, old(buckets)@, d, desks(old(thread_state)@)), block_start as int, block_size as int) is Some,
    ensures
        block_gsa(t@, k as int, threads as int, (old(sa)@, old(buckets)@, d, desks(old(thread_state)@)), block_start as int, block_size as int)
            == Some((final(sa)@, final(buckets)@, r, desks(final(thread_state)@))),
        quiet(old(thread_state)@, final(thread_state)@),
        desks_sized(old(thread_state)@, final(thread_state)@),
        final(sa).len() == old(sa).len(),
        final(buckets).len() == old(buckets).len(),
{
    let large: bool = block_size >= 64 * (if k > 256 { k as FastSint } else { 256 });
    let count: usize = worker_count(threads, large, thread_state.len());
    if count == 1 {
        let mut names: SaSint = d;
        let _ok: bool = try_partial_gsa_scan_right_to_left_8u(t, sa, buckets, &mut names, block_start, block_size);
        names
    } else {
        share_block(t, sa, k, Naming::Separated, buckets, d, block_start, block_size as usize, count, thread_state)
    }
}

/// Reads a plain suffix at slot `i`: what it induces goes into the cache and is counted, and the
/// byte in front of it stays in the slot, marked.
pub open spec fn prepare_bwt_left_step(t: Seq<u8>) -> spec_fn((Seq<i32>, Seq<i32>, Seq<ThreadCache>, usize), int) -> Option<(Seq<i32>, Seq<i32>, Seq<ThreadCache>, usize)> {
    |s: (Seq<i32>, Seq<i32>, Seq<ThreadCache>, usize), i: int|
        {
            let (sa, buckets, cache, count) = s;
            let p = sa[i];
            let q = p - 1;
            let c = t[q];
            if !(0 <= i < sa.len()) {
                None
            } else if p <= 0 {
                Some((sa.update(i, unmarked(p)), buckets, cache, count))
            } else if p <= t.len() && c < buckets.len() && buckets[c as int] < i32::MAX && count < cache.len() {
                Some((
                    sa.update(i, marked(c as i32, true)),
                    buckets.update(c as int, (buckets[c as int] + 1) as i32),
                    cache.update(count as int, ThreadCache { symbol: c as i32, index: marked(q as i32, before8(t, q) < c) }),
                    (count + 1) as usize,
                ))
            } else {
                None
            }
        }
}

/// [`prepare_bwt_left_step`] over the positions from `lo` to `hi`, upward.
pub open spec fn prepare_bwt_left_run(t: Seq<u8>, s: (Seq<i32>, Seq<i32>, Seq<ThreadCache>, usize), lo: int, hi: int) -> Option<(Seq<i32>, Seq<i32>, Seq<ThreadCache>, usize)> {
    fold_up(prepare_bwt_left_step(t), s, lo, hi)
}

/// Performs one step, or returns `false` where the step is outside its domain.
fn prepare_bwt_left_at(
    t: &[u8],
    sa: &mut [SaSint],
    buckets: &mut [SaSint],
    cache: &mut [ThreadCache],
    count: &mut usize,
    i: FastSint,
) -> (ok: bool)
    ensures
        ok == (prepare_bwt_left_step(t@)((old(sa)@, old(buckets)@, old(cache)@, *old(count)), i as int) is Some),
        ok ==> prepare_bwt_left_step(t@)((old(sa)@, old(buckets)@, old(cache)@, *old(count)), i as int) == Some((final(sa)@, final(buckets)@, final(cache)@, *final(count))),
        final(sa).len() == old(sa).len(),
        final(buckets).len() == old(buckets).len(),
        final(cache).len() == old(cache).len(),
{
    if !word_within(i, sa.len()) {
        return false;
    }
    let s: usize = i as usize;
    let p: SaSint = sa[s];
    if p <= 0 {
        sa[s] = clear_mark(p);
        return true;
    }
    if p as u64 > t.len() as u64 {
        return false;
    }
    let q: usize = (p - 1) as usize;
    let c: u8 = t[q];
    let w: u8 = t[if q > 0 { q - 1 } else { q }];
    if c as usize >= buckets.len() || buckets[c as usize] == SAINT_MAX || *count >= cache.len() {
        return false;
    }
    sa[s] = set_mark(c as SaSint, true);
    buckets[c as usize] = buckets[c as usize] + 1;
    cache[*count] = ThreadCache { symbol: c as SaSint, index: set_mark(q as SaSint, w < c) };
    *count = *count + 1;
    true
}

/// Runs the steps as far as they are defined; `false` where one is not.
pub(crate) fn try_prepare_bwt_left(
    t: &[u8],
    sa: &mut [SaSint],
    buckets: &mut [SaSint],
    cache: &mut [ThreadCache],
    count: &mut usize,
    lo: FastSint,
    hi: FastSint,
) -> (ok: bool)
    ensures
        ok == (prepare_bwt_left_run(t@, (old(sa)@, old(buckets)@, old(cache)@, *old(count)), lo as int, hi as int) is Some),
        ok ==> prepare_bwt_left_run(t@, (old(sa)@, old(buckets)@, old(cache)@, *old(count)), lo as int, hi as int) == Some((final(sa)@, final(buckets)@, final(cache)@, *final(count))),
        final(sa).len() == old(sa).len(),
        final(buckets).len() == old(buckets).len(),
        final(cache).len() == old(cache).len(),
{
    let mut i: FastSint = lo;
    let ghost step = prepare_bwt_left_step(t@);
    let ghost s0 = (sa@, buckets@, cache@, *count);
    while i < hi
        invariant
            lo <= i,
            i <= hi || hi < lo,
            hi < lo ==> i == lo,
            step == prepare_bwt_left_step(t@),
            s0 == (old(sa)@, old(buckets)@, old(cache)@, *old(count)),
            fold_up(step, s0, lo as int, i as int) == Some((sa@, buckets@, cache@, *count)),
            sa.len() == old(sa).len(),
            buckets.len() == old(buckets).len(),
            cache.len() == old(cache).len(),
        decreases hi - i,
    {
        proof {
            lemma_fold_up_prefix(step, s0, lo as int, i + 1, hi as int);
        }
        if !prepare_bwt_left_at(t, sa, buckets, cache, count, i) {
            return false;
        }
        i += 1;
    }
    true
}

/// Reads a plain suffix at slot `i`: what it induces goes into the cache and is counted. The
/// mark of the slot is inverted.
pub open spec fn prepare_final_left_step(t: Seq<u8>) -> spec_fn((Seq<i32>, Seq<i32>, Seq<ThreadCache>, usize), int) -> Option<(Seq<i32>, Seq<i32>, Seq<ThreadCache>, usize)> {
    |s: (Seq<i32>, Seq<i32>, Seq<ThreadCache>, usize), i: int|
        {
            let (sa, buckets, cache, count) = s;
            let p = sa[i];
            let q = p - 1;
            let c = t[q];
            if !(0 <= i < sa.len()) {
                None
            } else if p <= 0 {
                Some((sa.update(i, flipped(p)), buckets, cache, count))
            } else if p <= t.len() && c < buckets.len() && buckets[c as int] < i32::MAX && count < cache.len() {
                Some((
                    sa.update(i, flipped(p)),
                    buckets.update(c as int, (buckets[c as int] + 1) as i32),
                    cache.update(count as int, ThreadCache { symbol: c as i32, index: marked(q as i32, before8(t, q) < c) }),
                    (count + 1) as usize,
                ))
            } else {
                None
            }
        }
}

/// [`prepare_final_left_step`] over the positions from `lo` to `hi`, upward.
pub open spec fn prepare_final_left_run(t: Seq<u8>, s: (Seq<i32>, Seq<i32>, Seq<ThreadCache>, usize), lo: int, hi: int) -> Option<(Seq<i32>, Seq<i32>, Seq<ThreadCache>, usize)> {
    fold_up(prepare_final_left_step(t), s, lo, hi)
}

/// Performs one step, or returns `false` where the step is outside its domain.
fn prepare_final_left_at(
    t: &[u8],
    sa: &mut [SaSint],
    buckets: &mut [SaSint],
    cache: &mut [ThreadCache],
    count: &mut usize,
    i: FastSint,
) -> (ok: bool)
    ensures
        ok == (prepare_final_left_step(t@)((old(sa)@, old(buckets)@, old(cache)@, *old(count)), i as int) is Some),
        ok ==> prepare_final_left_step(t@)((old(sa)@, old(buckets)@, old(cache)@, *old(count)), i as int) == Some((final(sa)@, final(buckets)@, final(cache)@, *final(count))),
        final(sa).len() == old(sa).len(),
        final(buckets).len() == old(buckets).len(),
        final(cache).len() == old(cache).len(),
{
    if !word_within(i, sa.len()) {
        return false;
    }
    let s: usize = i as usize;
    let p: SaSint = sa[s];
    if p <= 0 {
        sa[s] = flip_mark(p);
        return true;
    }
    if p as u64 > t.len() as u64 {
        return false;
    }
    let q: usize = (p - 1) as usize;
    let c: u8 = t[q];
    let w: u8 = t[if q > 0 { q - 1 } else { q }];
    if c as usize >= buckets.len() || buckets[c as usize] == SAINT_MAX || *count >= cache.len() {
        return false;
    }
    sa[s] = flip_mark(p);
    buckets[c as usize] = buckets[c as usize] + 1;
    cache[*count] = ThreadCache { symbol: c as SaSint, index: set_mark(q as SaSint, w < c) };
    *count = *count + 1;
    true
}

/// Runs the steps as far as they are defined; `false` where one is not.
pub(crate) fn try_prepare_final_left(
    t: &[u8],
    sa: &mut [SaSint],
    buckets: &mut [SaSint],
    cache: &mut [ThreadCache],
    count: &mut usize,
    lo: FastSint,
    hi: FastSint,
) -> (ok: bool)
    ensures
        ok == (prepare_final_left_run(t@, (old(sa)@, old(buckets)@, old(cache)@, *old(count)), lo as int, hi as int) is Some),
        ok ==> prepare_final_left_run(t@, (old(sa)@, old(buckets)@, old(cache)@, *old(count)), lo as int, hi as int) == Some((final(sa)@, final(buckets)@, final(cache)@, *final(count))),
        final(sa).len() == old(sa).len(),
        final(buckets).len() == old(buckets).len(),
        final(cache).len() == old(cache).len(),
{
    let mut i: FastSint = lo;
    let ghost step = prepare_final_left_step(t@);
    let ghost s0 = (sa@, buckets@, cache@, *count);
    while i < hi
        invariant
            lo <= i,
            i <= hi || hi < lo,
            hi < lo ==> i == lo,
            step == prepare_final_left_step(t@),
            s0 == (old(sa)@, old(buckets)@, old(cache)@, *old(count)),
            fold_up(step, s0, lo as int, i as int) == Some((sa@, buckets@, cache@, *count)),
            sa.len() == old(sa).len(),
            buckets.len() == old(buckets).len(),
            cache.len() == old(cache).len(),
        decreases hi - i,
    {
        proof {
            lemma_fold_up_prefix(step, s0, lo as int, i + 1, hi as int);
        }
        if !prepare_final_left_at(t, sa, buckets, cache, count, i) {
            return false;
        }
        i += 1;
    }
    true
}

/// Reads a plain suffix at slot `i`: what it induces goes into the cache and is counted, and the
/// byte in front of it stays in the slot.
pub open spec fn prepare_bwt_right_step(t: Seq<u8>) -> spec_fn((Seq<i32>, Seq<i32>, Seq<ThreadCache>, usize), int) -> Option<(Seq<i32>, Seq<i32>, Seq<ThreadCache>, usize)> {
    |s: (Seq<i32>, Seq<i32>, Seq<ThreadCache>, usize), i: int|
        {
            let (sa, buckets, cache, count) = s;
            let p = sa[i];
            let q = p - 1;
            let c = t[q];
            if !(0 <= i < sa.len()) {
                None
            } else if p <= 0 {
                Some((sa.update(i, unmarked(p)), buckets, cache, count))
            } else if p <= t.len() && c < buckets.len() && buckets[c as int] < i32::MAX && count < cache.len() {
                Some((
                    sa.update(i, c as i32),
                    buckets.update(c as int, (buckets[c as int] + 1) as i32),
                    cache.update(count as int, ThreadCache { symbol: c as i32, index: (if before8(t, q) <= c { q as i32 } else { marked(before8(t, q) as i32, true) }) }),
                    (count + 1) as usize,
                ))
            } else {
                None
            }
        }
}

/// [`prepare_bwt_right_step`] over the positions from `lo` to `hi`, downward.
pub open spec fn prepare_bwt_right_run(t: Seq<u8>, s: (Seq<i32>, Seq<i32>, Seq<ThreadCache>, usize), lo: int, hi: int) -> Option<(Seq<i32>, Seq<i32>, Seq<ThreadCache>, usize)> {
    fold_down(prepare_bwt_right_step(t), s, lo, hi)
}

/// Performs one step, or returns `false` where the step is outside its domain.
fn prepare_bwt_right_at(
    t: &[u8],
    sa: &mut [SaSint],
    buckets: &mut [SaSint],
    cache: &mut [ThreadCache],
    count: &mut usize,
    i: FastSint,
) -> (ok: bool)
    ensures
        ok == (prepare_bwt_right_step(t@)((old(sa)@, old(buckets)@, old(cache)@, *old(count)), i as int) is Some),
        ok ==> prepare_bwt_right_step(t@)((old(sa)@, old(buckets)@, old(cache)@, *old(count)), i as int) == Some((final(sa)@, final(buckets)@, final(cache)@, *final(count))),
        final(sa).len() == old(sa).len(),
        final(buckets).len() == old(buckets).len(),
        final(cache).len() == old(cache).len(),
{
    if !word_within(i, sa.len()) {
        return false;
    }
    let s: usize = i as usize;
    let p: SaSint = sa[s];
    if p <= 0 {
        sa[s] = clear_mark(p);
        return true;
    }
    if p as u64 > t.len() as u64 {
        return false;
    }
    let q: usize = (p - 1) as usize;
    let c: u8 = t[q];
    let w: u8 = t[if q > 0 { q - 1 } else { q }];
    if c as usize >= buckets.len() || buckets[c as usize] == SAINT_MAX || *count >= cache.len() {
        return false;
    }
    sa[s] = c as SaSint;
    buckets[c as usize] = buckets[c as usize] + 1;
    cache[*count] = ThreadCache { symbol: c as SaSint, index: if w <= c { q as SaSint } else { set_mark(w as SaSint, true) } };
    *count = *count + 1;
    true
}

/// Runs the steps as far as they are defined; `false` where one is not.
pub(crate) fn try_prepare_bwt_right(
    t: &[u8],
    sa: &mut [SaSint],
    buckets: &mut [SaSint],
    cache: &mut [ThreadCache],
    count: &mut usize,
    lo: FastSint,
    hi: FastSint,
) -> (ok: bool)
    ensures
        ok == (prepare_bwt_right_run(t@, (old(sa)@, old(buckets)@, old(cache)@, *old(count)), lo as int, hi as int) is Some),
        ok ==> prepare_bwt_right_run(t@, (old(sa)@, old(buckets)@, old(cache)@, *old(count)), lo as int, hi as int) == Some((final(sa)@, final(buckets)@, final(cache)@, *final(count))),
        final(sa).len() == old(sa).len(),
        final(buckets).len() == old(buckets).len(),
        final(cache).len() == old(cache).len(),
{
    if hi <= lo {
        return true;
    }
    let mut i: FastSint = hi;
    let ghost step = prepare_bwt_right_step(t@);
    let ghost s0 = (sa@, buckets@, cache@, *count);
    while i > lo
        invariant
            lo <= i <= hi,
            step == prepare_bwt_right_step(t@),
            s0 == (old(sa)@, old(buckets)@, old(cache)@, *old(count)),
            fold_down(step, s0, i as int, hi as int) == Some((sa@, buckets@, cache@, *count)),
            sa.len() == old(sa).len(),
            buckets.len() == old(buckets).len(),
            cache.len() == old(cache).len(),
        decreases i - lo,
    {
        proof {
            lemma_fold_down_prefix(step, s0, lo as int, i - 1, hi as int);
        }
        i -= 1;
        if !prepare_bwt_right_at(t, sa, buckets, cache, count, i) {
            return false;
        }
    }
    true
}

/// Reads a plain suffix at slot `i`: what it induces goes into the cache and is counted, with
/// the suffix itself in the entry behind, and the byte in front of it stays in the slot.
pub open spec fn prepare_bwt_aux_right_step(t: Seq<u8>) -> spec_fn((Seq<i32>, Seq<i32>, Seq<ThreadCache>, usize), int) -> Option<(Seq<i32>, Seq<i32>, Seq<ThreadCache>, usize)> {
    |s: (Seq<i32>, Seq<i32>, Seq<ThreadCache>, usize), i: int|
        {
            let (sa, buckets, cache, count) = s;
            let p = sa[i];
            let q = p - 1;
            let c = t[q];
            if !(0 <= i < sa.len()) {
                None
            } else if p <= 0 {
                Some((sa.update(i, unmarked(p)), buckets, cache, count))
            } else if p <= t.len() && c < buckets.len() && buckets[c as int] < i32::MAX && count + 1 < cache.len() {
                Some((
                    sa.update(i, c as i32),
                    buckets.update(c as int, (buckets[c as int] + 1) as i32),
                    cache.update(count as int, ThreadCache { symbol: c as i32, index: (if before8(t, q) <= c { q as i32 } else { marked(before8(t, q) as i32, true) }) }).update(count + 1, ThreadCache { symbol: cache[count + 1].symbol, index: q as i32 }),
                    (count + 2) as usize,
                ))
            } else {
                None
            }
        }
}

/// [`prepare_bwt_aux_right_step`] over the positions from `lo` to `hi`, downward.
pub open spec fn prepare_bwt_aux_right_run(t: Seq<u8>, s: (Seq<i32>, Seq<i32>, Seq<ThreadCache>, usize), lo: int, hi: int) -> Option<(Seq<i32>, Seq<i32>, Seq<ThreadCache>, usize)> {
    fold_down(prepare_bwt_aux_right_step(t), s, lo, hi)
}

/// Performs one step, or returns `false` where the step is outside its domain.
fn prepare_bwt_aux_right_at(
    t: &[u8],
    sa: &mut [SaSint],
    buckets: &mut [SaSint],
    cache: &mut [ThreadCache],
    count: &mut usize,
    i: FastSint,
) -> (ok: bool)
    ensures
        ok == (prepare_bwt_aux_right_step(t@)((old(sa)@, old(buckets)@, old(cache)@, *old(count)), i as int) is Some),
        ok ==> prepare_bwt_aux_right_step(t@)((old(sa)@, old(buckets)@, old(cache)@, *old(count)), i as int) == Some((final(sa)@, final(buckets)@, final(cache)@, *final(count))),
        final(sa).len() == old(sa).len(),
        final(buckets).len() == old(buckets).len(),
        final(cache).len() == old(cache).len(),
{
    if !word_within(i, sa.len()) {
        return false;
    }
    let s: usize = i as usize;
    let p: SaSint = sa[s];
    if p <= 0 {
        sa[s] = clear_mark(p);
        return true;
    }
    if p as u64 > t.len() as u64 {
        return false;
    }
    let q: usize = (p - 1) as usize;
    let c: u8 = t[q];
    let w: u8 = t[if q > 0 { q - 1 } else { q }];
    if c as usize >= buckets.len() || buckets[c as usize] == SAINT_MAX || *count >= cache.len() || *count + 1 >= cache.len() {
        return false;
    }
    sa[s] = c as SaSint;
    buckets[c as usize] = buckets[c as usize] + 1;
    cache[*count] = ThreadCache { symbol: c as SaSint, index: if w <= c { q as SaSint } else { set_mark(w as SaSint, true) } };
    let next: SaSint = cache[*count + 1].symbol;
    cache[*count + 1] = ThreadCache { symbol: next, index: q as SaSint };
    *count = *count + 2;
    true
}

/// Runs the steps as far as they are defined; `false` where one is not.
pub(crate) fn try_prepare_bwt_aux_right(
    t: &[u8],
    sa: &mut [SaSint],
    buckets: &mut [SaSint],
    cache: &mut [ThreadCache],
    count: &mut usize,
    lo: FastSint,
    hi: FastSint,
) -> (ok: bool)
    ensures
        ok == (prepare_bwt_aux_right_run(t@, (old(sa)@, old(buckets)@, old(cache)@, *old(count)), lo as int, hi as int) is Some),
        ok ==> prepare_bwt_aux_right_run(t@, (old(sa)@, old(buckets)@, old(cache)@, *old(count)), lo as int, hi as int) == Some((final(sa)@, final(buckets)@, final(cache)@, *final(count))),
        final(sa).len() == old(sa).len(),
        final(buckets).len() == old(buckets).len(),
        final(cache).len() == old(cache).len(),
{
    if hi <= lo {
        return true;
    }
    let mut i: FastSint = hi;
    let ghost step = prepare_bwt_aux_right_step(t@);
    let ghost s0 = (sa@, buckets@, cache@, *count);
    while i > lo
        invariant
            lo <= i <= hi,
            step == prepare_bwt_aux_right_step(t@),
            s0 == (old(sa)@, old(buckets)@, old(cache)@, *old(count)),
            fold_down(step, s0, i as int, hi as int) == Some((sa@, buckets@, cache@, *count)),
            sa.len() == old(sa).len(),
            buckets.len() == old(buckets).len(),
            cache.len() == old(cache).len(),
        decreases i - lo,
    {
        proof {
            lemma_fold_down_prefix(step, s0, lo as int, i - 1, hi as int);
        }
        i -= 1;
        if !prepare_bwt_aux_right_at(t, sa, buckets, cache, count, i) {
            return false;
        }
    }
    true
}

/// Reads a plain suffix at slot `i`: what it induces goes into the cache and is counted. The
/// mark of the slot is cleared.
pub open spec fn prepare_final_right_step(t: Seq<u8>) -> spec_fn((Seq<i32>, Seq<i32>, Seq<ThreadCache>, usize), int) -> Option<(Seq<i32>, Seq<i32>, Seq<ThreadCache>, usize)> {
    |s: (Seq<i32>, Seq<i32>, Seq<ThreadCache>, usize), i: int|
        {
            let (sa, buckets, cache, count) = s;
            let p = sa[i];
            let q = p - 1;
            let c = t[q];
            if !(0 <= i < sa.len()) {
                None
            } else if p <= 0 {
                Some((sa.update(i, unmarked(p)), buckets, cache, count))
            } else if p <= t.len() && c < buckets.len() && buckets[c as int] < i32::MAX && count < cache.len() {
                Some((
                    sa.update(i, unmarked(p)),
                    buckets.update(c as int, (buckets[c as int] + 1) as i32),
                    cache.update(count as int, ThreadCache { symbol: c as i32, index: marked(q as i32, before8(t, q) > c) }),
                    (count + 1) as usize,
                ))
            } else {
                None
            }
        }
}

/// [`prepare_final_right_step`] over the positions from `lo` to `hi`, downward.
pub open spec fn prepare_final_right_run(t: Seq<u8>, s: (Seq<i32>, Seq<i32>, Seq<ThreadCache>, usize), lo: int, hi: int) -> Option<(Seq<i32>, Seq<i32>, Seq<ThreadCache>, usize)> {
    fold_down(prepare_final_right_step(t), s, lo, hi)
}

/// Performs one step, or returns `false` where the step is outside its domain.
fn prepare_final_right_at(
    t: &[u8],
    sa: &mut [SaSint],
    buckets: &mut [SaSint],
    cache: &mut [ThreadCache],
    count: &mut usize,
    i: FastSint,
) -> (ok: bool)
    ensures
        ok == (prepare_final_right_step(t@)((old(sa)@, old(buckets)@, old(cache)@, *old(count)), i as int) is Some),
        ok ==> prepare_final_right_step(t@)((old(sa)@, old(buckets)@, old(cache)@, *old(count)), i as int) == Some((final(sa)@, final(buckets)@, final(cache)@, *final(count))),
        final(sa).len() == old(sa).len(),
        final(buckets).len() == old(buckets).len(),
        final(cache).len() == old(cache).len(),
{
    if !word_within(i, sa.len()) {
        return false;
    }
    let s: usize = i as usize;
    let p: SaSint = sa[s];
    if p <= 0 {
        sa[s] = clear_mark(p);
        return true;
    }
    if p as u64 > t.len() as u64 {
        return false;
    }
    let q: usize = (p - 1) as usize;
    let c: u8 = t[q];
    let w: u8 = t[if q > 0 { q - 1 } else { q }];
    if c as usize >= buckets.len() || buckets[c as usize] == SAINT_MAX || *count >= cache.len() {
        return false;
    }
    sa[s] = clear_mark(p);
    buckets[c as usize] = buckets[c as usize] + 1;
    cache[*count] = ThreadCache { symbol: c as SaSint, index: set_mark(q as SaSint, w > c) };
    *count = *count + 1;
    true
}

/// Runs the steps as far as they are defined; `false` where one is not.
pub(crate) fn try_prepare_final_right(
    t: &[u8],
    sa: &mut [SaSint],
    buckets: &mut [SaSint],
    cache: &mut [ThreadCache],
    count: &mut usize,
    lo: FastSint,
    hi: FastSint,
) -> (ok: bool)
    ensures
        ok == (prepare_final_right_run(t@, (old(sa)@, old(buckets)@, old(cache)@, *old(count)), lo as int, hi as int) is Some),
        ok ==> prepare_final_right_run(t@, (old(sa)@, old(buckets)@, old(cache)@, *old(count)), lo as int, hi as int) == Some((final(sa)@, final(buckets)@, final(cache)@, *final(count))),
        final(sa).len() == old(sa).len(),
        final(buckets).len() == old(buckets).len(),
        final(cache).len() == old(cache).len(),
{
    if hi <= lo {
        return true;
    }
    let mut i: FastSint = hi;
    let ghost step = prepare_final_right_step(t@);
    let ghost s0 = (sa@, buckets@, cache@, *count);
    while i > lo
        invariant
            lo <= i <= hi,
            step == prepare_final_right_step(t@),
            s0 == (old(sa)@, old(buckets)@, old(cache)@, *old(count)),
            fold_down(step, s0, i as int, hi as int) == Some((sa@, buckets@, cache@, *count)),
            sa.len() == old(sa).len(),
            buckets.len() == old(buckets).len(),
            cache.len() == old(cache).len(),
        decreases i - lo,
    {
        proof {
            lemma_fold_down_prefix(step, s0, lo as int, i - 1, hi as int);
        }
        i -= 1;
        if !prepare_final_right_at(t, sa, buckets, cache, count, i) {
            return false;
        }
    }
    true
}

/// What reading a block leaves: the array, the buckets, the cache and the number of entries.
pub open spec fn prepare_bwt_leftd(t: Seq<u8>, k: int, sa: Seq<i32>, buckets: Seq<i32>, cache: Seq<ThreadCache>, start: int, size: int) -> Option<(Seq<i32>, Seq<i32>, Seq<ThreadCache>, usize)> {
    if size <= 0 {
        Some((sa, buckets, cache, 0))
    } else if 0 <= k <= buckets.len() {
        prepare_bwt_left_run(t, (sa, cleared(buckets, 0, k), cache, 0), start, start + size)
    } else {
        None
    }
}

/// Reads a block into the cache and counts what it induces in the first `k` buckets. Returns
/// the number of entries.
pub fn final_bwt_scan_left_to_right_8u_block_prepare(
    t: &[u8],
    sa: &mut [SaSint],
    k: SaSint,
    buckets: &mut [SaSint],
    cache: &mut [ThreadCache],
    omp_block_start: FastSint,
    omp_block_size: FastSint,
) -> (r: FastSint)
    requires
        isize::MIN <= omp_block_start + omp_block_size <= isize::MAX,
        old(cache).len() <= isize::MAX,
        prepare_bwt_leftd(t@, k as int, old(sa)@, old(buckets)@, old(cache)@, omp_block_start as int, omp_block_size as int) is Some,
    ensures
        prepare_bwt_leftd(t@, k as int, old(sa)@, old(buckets)@, old(cache)@, omp_block_start as int, omp_block_size as int)
            == Some((final(sa)@, final(buckets)@, final(cache)@, r as usize)),
        0 <= r,
        final(sa).len() == old(sa).len(),
        final(buckets).len() == old(buckets).len(),
        final(cache).len() == old(cache).len(),
{
    if omp_block_size <= 0 {
        return 0;
    }
    clear_range(buckets, 0, k as usize);
    let mut count: usize = 0;
    proof {
        lemma_prepare_bwt_left(t@, (sa@, buckets@, cache@, 0), omp_block_start as int, omp_block_start + omp_block_size);
    }
    let _ok: bool = try_prepare_bwt_left(t, sa, buckets, cache, &mut count, omp_block_start, omp_block_start + omp_block_size);
    count as FastSint
}

/// Reading a block fills no more than the cache.
proof fn lemma_prepare_bwt_left(t: Seq<u8>, s: (Seq<i32>, Seq<i32>, Seq<ThreadCache>, usize), lo: int, hi: int)
    requires
        prepare_bwt_left_run(t, s, lo, hi) is Some,
        s.3 <= s.2.len(),
        s.2.len() <= isize::MAX,
    ensures
        ({
            let x = prepare_bwt_left_run(t, s, lo, hi)->0;
            x.3 <= x.2.len() && x.2.len() == s.2.len()
        }),
    decreases hi - lo,
{
    if lo < hi {
        lemma_prepare_bwt_left(t, s, lo, hi - 1);
    }
}

/// What reading a block leaves: the array, the buckets, the cache and the number of entries.
pub open spec fn prepare_final_leftd(t: Seq<u8>, k: int, sa: Seq<i32>, buckets: Seq<i32>, cache: Seq<ThreadCache>, start: int, size: int) -> Option<(Seq<i32>, Seq<i32>, Seq<ThreadCache>, usize)> {
    if size <= 0 {
        Some((sa, buckets, cache, 0))
    } else if 0 <= k <= buckets.len() {
        prepare_final_left_run(t, (sa, cleared(buckets, 0, k), cache, 0), start, start + size)
    } else {
        None
    }
}

/// Reads a block into the cache and counts what it induces in the first `k` buckets. Returns
/// the number of entries.
pub fn final_sorting_scan_left_to_right_8u_block_prepare(
    t: &[u8],
    sa: &mut [SaSint],
    k: SaSint,
    buckets: &mut [SaSint],
    cache: &mut [ThreadCache],
    omp_block_start: FastSint,
    omp_block_size: FastSint,
) -> (r: FastSint)
    requires
        isize::MIN <= omp_block_start + omp_block_size <= isize::MAX,
        old(cache).len() <= isize::MAX,
        prepare_final_leftd(t@, k as int, old(sa)@, old(buckets)@, old(cache)@, omp_block_start as int, omp_block_size as int) is Some,
    ensures
        prepare_final_leftd(t@, k as int, old(sa)@, old(buckets)@, old(cache)@, omp_block_start as int, omp_block_size as int)
            == Some((final(sa)@, final(buckets)@, final(cache)@, r as usize)),
        0 <= r,
        final(sa).len() == old(sa).len(),
        final(buckets).len() == old(buckets).len(),
        final(cache).len() == old(cache).len(),
{
    if omp_block_size <= 0 {
        return 0;
    }
    clear_range(buckets, 0, k as usize);
    let mut count: usize = 0;
    proof {
        lemma_prepare_final_left(t@, (sa@, buckets@, cache@, 0), omp_block_start as int, omp_block_start + omp_block_size);
    }
    let _ok: bool = try_prepare_final_left(t, sa, buckets, cache, &mut count, omp_block_start, omp_block_start + omp_block_size);
    count as FastSint
}

/// Reading a block fills no more than the cache.
proof fn lemma_prepare_final_left(t: Seq<u8>, s: (Seq<i32>, Seq<i32>, Seq<ThreadCache>, usize), lo: int, hi: int)
    requires
        prepare_final_left_run(t, s, lo, hi) is Some,
        s.3 <= s.2.len(),
        s.2.len() <= isize::MAX,
    ensures
        ({
            let x = prepare_final_left_run(t, s, lo, hi)->0;
            x.3 <= x.2.len() && x.2.len() == s.2.len()
        }),
    decreases hi - lo,
{
    if lo < hi {
        lemma_prepare_final_left(t, s, lo, hi - 1);
    }
}

/// What reading a block leaves: the array, the buckets, the cache and the number of entries.
pub open spec fn prepare_bwt_rightd(t: Seq<u8>, k: int, sa: Seq<i32>, buckets: Seq<i32>, cache: Seq<ThreadCache>, start: int, size: int) -> Option<(Seq<i32>, Seq<i32>, Seq<ThreadCache>, usize)> {
    if size <= 0 {
        Some((sa, buckets, cache, 0))
    } else if 0 <= k <= buckets.len() {
        prepare_bwt_right_run(t, (sa, cleared(buckets, 0, k), cache, 0), start, start + size)
    } else {
        None
    }
}

/// Reads a block into the cache and counts what it induces in the first `k` buckets. Returns
/// the number of entries.
pub fn final_bwt_scan_right_to_left_8u_block_prepare(
    t: &[u8],
    sa: &mut [SaSint],
    k: SaSint,
    buckets: &mut [SaSint],
    cache: &mut [ThreadCache],
    omp_block_start: FastSint,
    omp_block_size: FastSint,
) -> (r: FastSint)
    requires
        isize::MIN <= omp_block_start + omp_block_size <= isize::MAX,
        old(cache).len() <= isize::MAX,
        prepare_bwt_rightd(t@, k as int, old(sa)@, old(buckets)@, old(cache)@, omp_block_start as int, omp_block_size as int) is Some,
    ensures
        prepare_bwt_rightd(t@, k as int, old(sa)@, old(buckets)@, old(cache)@, omp_block_start as int, omp_block_size as int)
            == Some((final(sa)@, final(buckets)@, final(cache)@, r as usize)),
        0 <= r,
        final(sa).len() == old(sa).len(),
        final(buckets).len() == old(buckets).len(),
        final(cache).len() == old(cache).len(),
{
    if omp_block_size <= 0 {
        return 0;
    }
    clear_range(buckets, 0, k as usize);
    let mut count: usize = 0;
    proof {
        lemma_prepare_bwt_right(t@, (sa@, buckets@, cache@, 0), omp_block_start as int, omp_block_start + omp_block_size);
    }
    let _ok: bool = try_prepare_bwt_right(t, sa, buckets, cache, &mut count, omp_block_start, omp_block_start + omp_block_size);
    count as FastSint
}

/// Reading a block fills no more than the cache.
proof fn lemma_prepare_bwt_right(t: Seq<u8>, s: (Seq<i32>, Seq<i32>, Seq<ThreadCache>, usize), lo: int, hi: int)
    requires
        prepare_bwt_right_run(t, s, lo, hi) is Some,
        s.3 <= s.2.len(),
        s.2.len() <= isize::MAX,
    ensures
        ({
            let x = prepare_bwt_right_run(t, s, lo, hi)->0;
            x.3 <= x.2.len() && x.2.len() == s.2.len()
        }),
    decreases hi - lo,
{
    if lo < hi {
        lemma_prepare_bwt_right(t, s, lo + 1, hi);
    }
}

/// What reading a block leaves: the array, the buckets, the cache and the number of entries.
pub open spec fn prepare_bwt_aux_rightd(t: Seq<u8>, k: int, sa: Seq<i32>, buckets: Seq<i32>, cache: Seq<ThreadCache>, start: int, size: int) -> Option<(Seq<i32>, Seq<i32>, Seq<ThreadCache>, usize)> {
    if size <= 0 {
        Some((sa, buckets, cache, 0))
    } else if 0 <= k <= buckets.len() {
        prepare_bwt_aux_right_run(t, (sa, cleared(buckets, 0, k), cache, 0), start, start + size)
    } else {
        None
    }
}

/// Reads a block into the cache and counts what it induces in the first `k` buckets. Returns
/// the number of entries.
pub fn final_bwt_aux_scan_right_to_left_8u_block_prepare(
    t: &[u8],
    sa: &mut [SaSint],
    k: SaSint,
    buckets: &mut [SaSint],
    cache: &mut [ThreadCache],
    omp_block_start: FastSint,
    omp_block_size: FastSint,
) -> (r: FastSint)
    requires
        isize::MIN <= omp_block_start + omp_block_size <= isize::MAX,
        old(cache).len() <= isize::MAX,
        prepare_bwt_aux_rightd(t@, k as int, old(sa)@, old(buckets)@, old(cache)@, omp_block_start as int, omp_block_size as int) is Some,
    ensures
        prepare_bwt_aux_rightd(t@, k as int, old(sa)@, old(buckets)@, old(cache)@, omp_block_start as int, omp_block_size as int)
            == Some((final(sa)@, final(buckets)@, final(cache)@, r as usize)),
        0 <= r,
        final(sa).len() == old(sa).len(),
        final(buckets).len() == old(buckets).len(),
        final(cache).len() == old(cache).len(),
{
    if omp_block_size <= 0 {
        return 0;
    }
    clear_range(buckets, 0, k as usize);
    let mut count: usize = 0;
    proof {
        lemma_prepare_bwt_aux_right(t@, (sa@, buckets@, cache@, 0), omp_block_start as int, omp_block_start + omp_block_size);
    }
    let _ok: bool = try_prepare_bwt_aux_right(t, sa, buckets, cache, &mut count, omp_block_start, omp_block_start + omp_block_size);
    count as FastSint
}

/// Reading a block fills no more than the cache.
proof fn lemma_prepare_bwt_aux_right(t: Seq<u8>, s: (Seq<i32>, Seq<i32>, Seq<ThreadCache>, usize), lo: int, hi: int)
    requires
        prepare_bwt_aux_right_run(t, s, lo, hi) is Some,
        s.3 <= s.2.len(),
        s.2.len() <= isize::MAX,
    ensures
        ({
            let x = prepare_bwt_aux_right_run(t, s, lo, hi)->0;
            x.3 <= x.2.len() && x.2.len() == s.2.len()
        }),
    decreases hi - lo,
{
    if lo < hi {
        lemma_prepare_bwt_aux_right(t, s, lo + 1, hi);
    }
}

/// What reading a block leaves: the array, the buckets, the cache and the number of entries.
pub open spec fn prepare_final_rightd(t: Seq<u8>, k: int, sa: Seq<i32>, buckets: Seq<i32>, cache: Seq<ThreadCache>, start: int, size: int) -> Option<(Seq<i32>, Seq<i32>, Seq<ThreadCache>, usize)> {
    if size <= 0 {
        Some((sa, buckets, cache, 0))
    } else if 0 <= k <= buckets.len() {
        prepare_final_right_run(t, (sa, cleared(buckets, 0, k), cache, 0), start, start + size)
    } else {
        None
    }
}

/// Reads a block into the cache and counts what it induces in the first `k` buckets. Returns
/// the number of entries.
pub fn final_sorting_scan_right_to_left_8u_block_prepare(
    t: &[u8],
    sa: &mut [SaSint],
    k: SaSint,
    buckets: &mut [SaSint],
    cache: &mut [ThreadCache],
    omp_block_start: FastSint,
    omp_block_size: FastSint,
) -> (r: FastSint)
    requires
        isize::MIN <= omp_block_start + omp_block_size <= isize::MAX,
        old(cache).len() <= isize::MAX,
        prepare_final_rightd(t@, k as int, old(sa)@, old(buckets)@, old(cache)@, omp_block_start as int, omp_block_size as int) is Some,
    ensures
        prepare_final_rightd(t@, k as int, old(sa)@, old(buckets)@, old(cache)@, omp_block_start as int, omp_block_size as int)
            == Some((final(sa)@, final(buckets)@, final(cache)@, r as usize)),
        0 <= r,
        final(sa).len() == old(sa).len(),
        final(buckets).len() == old(buckets).len(),
        final(cache).len() == old(cache).len(),
{
    if omp_block_size <= 0 {
        return 0;
    }
    clear_range(buckets, 0, k as usize);
    let mut count: usize = 0;
    proof {
        lemma_prepare_final_right(t@, (sa@, buckets@, cache@, 0), omp_block_start as int, omp_block_start + omp_block_size);
    }
    let _ok: bool = try_prepare_final_right(t, sa, buckets, cache, &mut count, omp_block_start, omp_block_start + omp_block_size);
    count as FastSint
}

/// Reading a block fills no more than the cache.
proof fn lemma_prepare_final_right(t: Seq<u8>, s: (Seq<i32>, Seq<i32>, Seq<ThreadCache>, usize), lo: int, hi: int)
    requires
        prepare_final_right_run(t, s, lo, hi) is Some,
        s.3 <= s.2.len(),
        s.2.len() <= isize::MAX,
    ensures
        ({
            let x = prepare_final_right_run(t, s, lo, hi)->0;
            x.3 <= x.2.len() && x.2.len() == s.2.len()
        }),
    decreases hi - lo,
{
    if lo < hi {
        lemma_prepare_final_right(t, s, lo + 1, hi);
    }
}

/// Writes cache entry `i` to the next free slot of its bucket.
pub open spec fn place_final_left_step(cache: Seq<ThreadCache>) -> spec_fn((Seq<i32>, Seq<i32>), int) -> Option<(Seq<i32>, Seq<i32>)> {
    |s: (Seq<i32>, Seq<i32>), i: int|
        {
            let (sa, buckets) = s;
            let v = cache[i].symbol as int;
            let x = buckets[v] as int;
            if !(0 <= i < cache.len()) {
                None
            } else if 0 <= v < buckets.len() && 0 <= x < sa.len() && x < i32::MAX {
                Some((sa.update(x, cache[i].index), buckets.update(v, (x + 1) as i32)))
            } else {
                None
            }
        }
}

/// [`place_final_left_step`] over the positions from `lo` to `hi`, upward.
pub open spec fn place_final_left_run(cache: Seq<ThreadCache>, s: (Seq<i32>, Seq<i32>), lo: int, hi: int) -> Option<(Seq<i32>, Seq<i32>)> {
    fold_up(place_final_left_step(cache), s, lo, hi)
}

/// Performs one step, or returns `false` where the step is outside its domain.
fn place_final_left_at(
    cache: &[ThreadCache],
    sa: &mut [SaSint],
    buckets: &mut [SaSint],
    i: FastSint,
) -> (ok: bool)
    ensures
        ok == (place_final_left_step(cache@)((old(sa)@, old(buckets)@), i as int) is Some),
        ok ==> place_final_left_step(cache@)((old(sa)@, old(buckets)@), i as int) == Some((final(sa)@, final(buckets)@)),
        final(sa).len() == old(sa).len(),
        final(buckets).len() == old(buckets).len(),
{
    if !word_within(i, cache.len()) {
        return false;
    }
    let v: SaSint = cache[i as usize].symbol;
    if !within(v, buckets.len()) {
        return false;
    }
    let z: usize = v as usize;
    let x: SaSint = buckets[z];
    if !within(x, sa.len()) || x == SAINT_MAX {
        return false;
    }
    buckets[z] = x + 1;
    sa[x as usize] = cache[i as usize].index;
    true
}

/// Runs the steps as far as they are defined; `false` where one is not.
pub(crate) fn try_place_final_left(
    cache: &[ThreadCache],
    sa: &mut [SaSint],
    buckets: &mut [SaSint],
    lo: FastSint,
    hi: FastSint,
) -> (ok: bool)
    ensures
        ok == (place_final_left_run(cache@, (old(sa)@, old(buckets)@), lo as int, hi as int) is Some),
        ok ==> place_final_left_run(cache@, (old(sa)@, old(buckets)@), lo as int, hi as int) == Some((final(sa)@, final(buckets)@)),
        final(sa).len() == old(sa).len(),
        final(buckets).len() == old(buckets).len(),
{
    let mut i: FastSint = lo;
    let ghost step = place_final_left_step(cache@);
    let ghost s0 = (sa@, buckets@);
    while i < hi
        invariant
            lo <= i,
            i <= hi || hi < lo,
            hi < lo ==> i == lo,
            step == place_final_left_step(cache@),
            s0 == (old(sa)@, old(buckets)@),
            fold_up(step, s0, lo as int, i as int) == Some((sa@, buckets@)),
            sa.len() == old(sa).len(),
            buckets.len() == old(buckets).len(),
        decreases hi - i,
    {
        proof {
            lemma_fold_up_prefix(step, s0, lo as int, i + 1, hi as int);
        }
        if !place_final_left_at(cache, sa, buckets, i) {
            return false;
        }
        i += 1;
    }
    true
}

/// Writes cache entry `i` to the last free slot of its bucket.
pub open spec fn place_final_right_step(cache: Seq<ThreadCache>) -> spec_fn((Seq<i32>, Seq<i32>), int) -> Option<(Seq<i32>, Seq<i32>)> {
    |s: (Seq<i32>, Seq<i32>), i: int|
        {
            let (sa, buckets) = s;
            let v = cache[i].symbol as int;
            let x = buckets[v] - 1;
            if !(0 <= i < cache.len()) {
                None
            } else if 0 <= v < buckets.len() && 0 <= x < sa.len() {
                Some((sa.update(x, cache[i].index), buckets.update(v, x as i32)))
            } else {
                None
            }
        }
}

/// [`place_final_right_step`] over the positions from `lo` to `hi`, upward.
pub open spec fn place_final_right_run(cache: Seq<ThreadCache>, s: (Seq<i32>, Seq<i32>), lo: int, hi: int) -> Option<(Seq<i32>, Seq<i32>)> {
    fold_up(place_final_right_step(cache), s, lo, hi)
}

/// Performs one step, or returns `false` where the step is outside its domain.
fn place_final_right_at(
    cache: &[ThreadCache],
    sa: &mut [SaSint],
    buckets: &mut [SaSint],
    i: FastSint,
) -> (ok: bool)
    ensures
        ok == (place_final_right_step(cache@)((old(sa)@, old(buckets)@), i as int) is Some),
        ok ==> place_final_right_step(cache@)((old(sa)@, old(buckets)@), i as int) == Some((final(sa)@, final(buckets)@)),
        final(sa).len() == old(sa).len(),
        final(buckets).len() == old(buckets).len(),
{
    if !word_within(i, cache.len()) {
        return false;
    }
    let v: SaSint = cache[i as usize].symbol;
    if !within(v, buckets.len()) {
        return false;
    }
    let z: usize = v as usize;
    if buckets[z] <= 0 {
        return false;
    }
    let x: SaSint = buckets[z] - 1;
    if !within(x, sa.len()) {
        return false;
    }
    buckets[z] = x;
    sa[x as usize] = cache[i as usize].index;
    true
}

/// Runs the steps as far as they are defined; `false` where one is not.
pub(crate) fn try_place_final_right(
    cache: &[ThreadCache],
    sa: &mut [SaSint],
    buckets: &mut [SaSint],
    lo: FastSint,
    hi: FastSint,
) -> (ok: bool)
    ensures
        ok == (place_final_right_run(cache@, (old(sa)@, old(buckets)@), lo as int, hi as int) is Some),
        ok ==> place_final_right_run(cache@, (old(sa)@, old(buckets)@), lo as int, hi as int) == Some((final(sa)@, final(buckets)@)),
        final(sa).len() == old(sa).len(),
        final(buckets).len() == old(buckets).len(),
{
    let mut i: FastSint = lo;
    let ghost step = place_final_right_step(cache@);
    let ghost s0 = (sa@, buckets@);
    while i < hi
        invariant
            lo <= i,
            i <= hi || hi < lo,
            hi < lo ==> i == lo,
            step == place_final_right_step(cache@),
            s0 == (old(sa)@, old(buckets)@),
            fold_up(step, s0, lo as int, i as int) == Some((sa@, buckets@)),
            sa.len() == old(sa).len(),
            buckets.len() == old(buckets).len(),
        decreases hi - i,
    {
        proof {
            lemma_fold_up_prefix(step, s0, lo as int, i + 1, hi as int);
        }
        if !place_final_right_at(cache, sa, buckets, i) {
            return false;
        }
        i += 1;
    }
    true
}

/// Writes cache entry `i` to the last free slot of its bucket, unless it is a separator.
pub open spec fn place_final_gsa_step(cache: Seq<ThreadCache>) -> spec_fn((Seq<i32>, Seq<i32>), int) -> Option<(Seq<i32>, Seq<i32>)> {
    |s: (Seq<i32>, Seq<i32>), i: int|
        {
            let (sa, buckets) = s;
            let v = cache[i].symbol as int;
            let x = buckets[v] - 1;
            if !(0 <= i < cache.len()) {
                None
            } else if v <= 0 {
                Some((sa, buckets))
            } else if 0 <= v < buckets.len() && 0 <= x < sa.len() {
                Some((sa.update(x, cache[i].index), buckets.update(v, x as i32)))
            } else {
                None
            }
        }
}

/// [`place_final_gsa_step`] over the positions from `lo` to `hi`, upward.
pub open spec fn place_final_gsa_run(cache: Seq<ThreadCache>, s: (Seq<i32>, Seq<i32>), lo: int, hi: int) -> Option<(Seq<i32>, Seq<i32>)> {
    fold_up(place_final_gsa_step(cache), s, lo, hi)
}

/// Performs one step, or returns `false` where the step is outside its domain.
fn place_final_gsa_at(
    cache: &[ThreadCache],
    sa: &mut [SaSint],
    buckets: &mut [SaSint],
    i: FastSint,
) -> (ok: bool)
    ensures
        ok == (place_final_gsa_step(cache@)((old(sa)@, old(buckets)@), i as int) is Some),
        ok ==> place_final_gsa_step(cache@)((old(sa)@, old(buckets)@), i as int) == Some((final(sa)@, final(buckets)@)),
        final(sa).len() == old(sa).len(),
        final(buckets).len() == old(buckets).len(),
{
    if !word_within(i, cache.len()) {
        return false;
    }
    let v: SaSint = cache[i as usize].symbol;
    if v <= 0 {
        return true;
    }
    if !within(v, buckets.len()) {
        return false;
    }
    let z: usize = v as usize;
    if buckets[z] <= 0 {
        return false;
    }
    let x: SaSint = buckets[z] - 1;
    if !within(x, sa.len()) {
        return false;
    }
    buckets[z] = x;
    sa[x as usize] = cache[i as usize].index;
    true
}

/// Runs the steps as far as they are defined; `false` where one is not.
pub(crate) fn try_place_final_gsa(
    cache: &[ThreadCache],
    sa: &mut [SaSint],
    buckets: &mut [SaSint],
    lo: FastSint,
    hi: FastSint,
) -> (ok: bool)
    ensures
        ok == (place_final_gsa_run(cache@, (old(sa)@, old(buckets)@), lo as int, hi as int) is Some),
        ok ==> place_final_gsa_run(cache@, (old(sa)@, old(buckets)@), lo as int, hi as int) == Some((final(sa)@, final(buckets)@)),
        final(sa).len() == old(sa).len(),
        final(buckets).len() == old(buckets).len(),
{
    let mut i: FastSint = lo;
    let ghost step = place_final_gsa_step(cache@);
    let ghost s0 = (sa@, buckets@);
    while i < hi
        invariant
            lo <= i,
            i <= hi || hi < lo,
            hi < lo ==> i == lo,
            step == place_final_gsa_step(cache@),
            s0 == (old(sa)@, old(buckets)@),
            fold_up(step, s0, lo as int, i as int) == Some((sa@, buckets@)),
            sa.len() == old(sa).len(),
            buckets.len() == old(buckets).len(),
        decreases hi - i,
    {
        proof {
            lemma_fold_up_prefix(step, s0, lo as int, i + 1, hi as int);
        }
        if !place_final_gsa_at(cache, sa, buckets, i) {
            return false;
        }
        i += 1;
    }
    true
}

/// Writes the cached suffixes to the next free slots of their buckets.
pub fn final_order_scan_left_to_right_8u_block_place(sa: &mut [SaSint], buckets: &mut [SaSint], cache: &[ThreadCache], count: FastSint)
    requires
        count <= cache.len(),
        place_final_left_run(cache@, (old(sa)@, old(buckets)@), 0, count as int) is Some,
    ensures
        place_final_left_run(cache@, (old(sa)@, old(buckets)@), 0, count as int) == Some((final(sa)@, final(buckets)@)),
        final(sa).len() == old(sa).len(),
        final(buckets).len() == old(buckets).len(),
{
    let _ok: bool = try_place_final_left(cache, sa, buckets, 0, count);
}

/// Writes the cached suffixes to the last free slots of their buckets.
pub fn final_order_scan_right_to_left_8u_block_place(sa: &mut [SaSint], buckets: &mut [SaSint], cache: &[ThreadCache], count: FastSint)
    requires
        count <= cache.len(),
        place_final_right_run(cache@, (old(sa)@, old(buckets)@), 0, count as int) is Some,
    ensures
        place_final_right_run(cache@, (old(sa)@, old(buckets)@), 0, count as int) == Some((final(sa)@, final(buckets)@)),
        final(sa).len() == old(sa).len(),
        final(buckets).len() == old(buckets).len(),
{
    let _ok: bool = try_place_final_right(cache, sa, buckets, 0, count);
}

/// Writes the cached suffixes, without the separators, to the last free slots of their buckets.
pub fn final_gsa_scan_right_to_left_8u_block_place(sa: &mut [SaSint], buckets: &mut [SaSint], cache: &[ThreadCache], count: FastSint)
    requires
        count <= cache.len(),
        place_final_gsa_run(cache@, (old(sa)@, old(buckets)@), 0, count as int) is Some,
    ensures
        place_final_gsa_run(cache@, (old(sa)@, old(buckets)@), 0, count as int) == Some((final(sa)@, final(buckets)@)),
        final(sa).len() == old(sa).len(),
        final(buckets).len() == old(buckets).len(),
{
    let _ok: bool = try_place_final_gsa(cache, sa, buckets, 0, count);
}

/// The samples with `value` noted for the suffix of a marked or plain entry where the sampling
/// mask selects it.
pub open spec fn sampled_entry(i_out: Seq<i32>, rm: i32, entry: i32, value: i32) -> Option<Seq<i32>> {
    if entry & rm != 0 {
        Some(i_out)
    } else if 0 <= rm < i32::MAX && unmarked(entry) as int / (rm + 1) < i_out.len() {
        Some(i_out.update(unmarked(entry) as int / (rm + 1), value))
    } else {
        None
    }
}

/// Notes `value` for the suffix of an entry where the sampling mask selects it.
fn try_sample_entry(i_out: &mut [SaSint], rm: SaSint, entry: SaSint, value: SaSint) -> (ok: bool)
    ensures
        ok == (sampled_entry(old(i_out)@, rm, entry, value) is Some),
        ok ==> sampled_entry(old(i_out)@, rm, entry, value) == Some(final(i_out)@),
        final(i_out).len() == old(i_out).len(),
{
    if entry & rm != 0 {
        return true;
    }
    if rm < 0 || rm == SAINT_MAX {
        return false;
    }
    let x: usize = (clear_mark(entry) / (rm + 1)) as usize;
    if x >= i_out.len() {
        return false;
    }
    i_out[x] = value;
    true
}

/// Writes cache entry `i` to the next free slot of its bucket, and notes the slot behind it
/// where the entry is sampled.
pub open spec fn place_aux_left_step(rm: i32, cache: Seq<ThreadCache>) -> spec_fn((Seq<i32>, Seq<i32>, Seq<i32>), int) -> Option<(Seq<i32>, Seq<i32>, Seq<i32>)> {
    |s: (Seq<i32>, Seq<i32>, Seq<i32>), i: int|
        {
            let (sa, buckets, i_out) = s;
            let v = cache[i].symbol as int;
            let x = buckets[v] as int;
            if 0 <= i < cache.len() && 0 <= v < buckets.len() && 0 <= x < sa.len() && x < i32::MAX {
                match sampled_entry(i_out, rm, cache[i].index, (x + 1) as i32) {
                    Some(o) => Some((sa.update(x, cache[i].index), buckets.update(v, (x + 1) as i32), o)),
                    None => None,
                }
            } else {
                None
            }
        }
}

/// [`place_aux_left_step`] over the positions from `lo` to `hi`, upward.
pub open spec fn place_aux_left_run(rm: i32, cache: Seq<ThreadCache>, s: (Seq<i32>, Seq<i32>, Seq<i32>), lo: int, hi: int) -> Option<(Seq<i32>, Seq<i32>, Seq<i32>)> {
    fold_up(place_aux_left_step(rm, cache), s, lo, hi)
}

/// Performs one step, or returns `false` where the step is outside its domain.
fn place_aux_left_at(
    rm: SaSint,
    cache: &[ThreadCache],
    sa: &mut [SaSint],
    buckets: &mut [SaSint],
    i_out: &mut [SaSint],
    i: FastSint,
) -> (ok: bool)
    ensures
        ok == (place_aux_left_step(rm, cache@)((old(sa)@, old(buckets)@, old(i_out)@), i as int) is Some),
        ok ==> place_aux_left_step(rm, cache@)((old(sa)@, old(buckets)@, old(i_out)@), i as int) == Some((final(sa)@, final(buckets)@, final(i_out)@)),
        final(sa).len() == old(sa).len(),
        final(buckets).len() == old(buckets).len(),
        final(i_out).len() == old(i_out).len(),
{
    if !word_within(i, cache.len()) {
        return false;
    }
    let v: SaSint = cache[i as usize].symbol;
    if !within(v, buckets.len()) {
        return false;
    }
    let z: usize = v as usize;
    let x: SaSint = buckets[z];
    if !within(x, sa.len()) || x == SAINT_MAX {
        return false;
    }
    buckets[z] = x + 1;
    sa[x as usize] = cache[i as usize].index;
    try_sample_entry(i_out, rm, cache[i as usize].index, x + 1)
}

/// Runs the steps as far as they are defined; `false` where one is not.
pub(crate) fn try_place_aux_left(
    rm: SaSint,
    cache: &[ThreadCache],
    sa: &mut [SaSint],
    buckets: &mut [SaSint],
    i_out: &mut [SaSint],
    lo: FastSint,
    hi: FastSint,
) -> (ok: bool)
    ensures
        ok == (place_aux_left_run(rm, cache@, (old(sa)@, old(buckets)@, old(i_out)@), lo as int, hi as int) is Some),
        ok ==> place_aux_left_run(rm, cache@, (old(sa)@, old(buckets)@, old(i_out)@), lo as int, hi as int) == Some((final(sa)@, final(buckets)@, final(i_out)@)),
        final(sa).len() == old(sa).len(),
        final(buckets).len() == old(buckets).len(),
        final(i_out).len() == old(i_out).len(),
{
    let mut i: FastSint = lo;
    let ghost step = place_aux_left_step(rm, cache@);
    let ghost s0 = (sa@, buckets@, i_out@);
    while i < hi
        invariant
            lo <= i,
            i <= hi || hi < lo,
            hi < lo ==> i == lo,
            step == place_aux_left_step(rm, cache@),
            s0 == (old(sa)@, old(buckets)@, old(i_out)@),
            fold_up(step, s0, lo as int, i as int) == Some((sa@, buckets@, i_out@)),
            sa.len() == old(sa).len(),
            buckets.len() == old(buckets).len(),
            i_out.len() == old(i_out).len(),
        decreases hi - i,
    {
        proof {
            lemma_fold_up_prefix(step, s0, lo as int, i + 1, hi as int);
        }
        if !place_aux_left_at(rm, cache, sa, buckets, i_out, i) {
            return false;
        }
        i += 1;
    }
    true
}

/// Writes the first of two cache entries, the pair `i`, to the last free slot of its bucket,
/// and notes the slot behind it where the second entry is sampled.
pub open spec fn place_aux_right_step(rm: i32, cache: Seq<ThreadCache>) -> spec_fn((Seq<i32>, Seq<i32>, Seq<i32>), int) -> Option<(Seq<i32>, Seq<i32>, Seq<i32>)> {
    |s: (Seq<i32>, Seq<i32>, Seq<i32>), i: int|
        {
            let (sa, buckets, i_out) = s;
            let v = cache[2 * i].symbol as int;
            let x = buckets[v] - 1;
            if 0 <= i && 2 * i + 1 < cache.len() && 0 <= v < buckets.len() && 0 <= x < sa.len() {
                match sampled_entry(i_out, rm, cache[2 * i + 1].index, (x + 1) as i32) {
                    Some(o) => Some((sa.update(x, cache[2 * i].index), buckets.update(v, x as i32), o)),
                    None => None,
                }
            } else {
                None
            }
        }
}

/// [`place_aux_right_step`] over the positions from `lo` to `hi`, upward.
pub open spec fn place_aux_right_run(rm: i32, cache: Seq<ThreadCache>, s: (Seq<i32>, Seq<i32>, Seq<i32>), lo: int, hi: int) -> Option<(Seq<i32>, Seq<i32>, Seq<i32>)> {
    fold_up(place_aux_right_step(rm, cache), s, lo, hi)
}

/// Performs one step, or returns `false` where the step is outside its domain.
fn place_aux_right_at(
    rm: SaSint,
    cache: &[ThreadCache],
    sa: &mut [SaSint],
    buckets: &mut [SaSint],
    i_out: &mut [SaSint],
    i: FastSint,
) -> (ok: bool)
    ensures
        ok == (place_aux_right_step(rm, cache@)((old(sa)@, old(buckets)@, old(i_out)@), i as int) is Some),
        ok ==> place_aux_right_step(rm, cache@)((old(sa)@, old(buckets)@, old(i_out)@), i as int) == Some((final(sa)@, final(buckets)@, final(i_out)@)),
        final(sa).len() == old(sa).len(),
        final(buckets).len() == old(buckets).len(),
        final(i_out).len() == old(i_out).len(),
{
    if !word_within(i, cache.len()) {
        return false;
    }
    let y: usize = i as usize;
    if cache.len() < 2 || y > (cache.len() - 2) / 2 {
        return false;
    }
    let v: SaSint = cache[2 * y].symbol;
    if !within(v, buckets.len()) {
        return false;
    }
    let z: usize = v as usize;
    if buckets[z] <= 0 {
        return false;
    }
    let x: SaSint = buckets[z] - 1;
    if !within(x, sa.len()) {
        return false;
    }
    buckets[z] = x;
    sa[x as usize] = cache[2 * y].index;
    try_sample_entry(i_out, rm, cache[2 * y + 1].index, x + 1)
}

/// Runs the steps as far as they are defined; `false` where one is not.
pub(crate) fn try_place_aux_right(
    rm: SaSint,
    cache: &[ThreadCache],
    sa: &mut [SaSint],
    buckets: &mut [SaSint],
    i_out: &mut [SaSint],
    lo: FastSint,
    hi: FastSint,
) -> (ok: bool)
    ensures
        ok == (place_aux_right_run(rm, cache@, (old(sa)@, old(buckets)@, old(i_out)@), lo as int, hi as int) is Some),
        ok ==> place_aux_right_run(rm, cache@, (old(sa)@, old(buckets)@, old(i_out)@), lo as int, hi as int) == Some((final(sa)@, final(buckets)@, final(i_out)@)),
        final(sa).len() == old(sa).len(),
        final(buckets).len() == old(buckets).len(),
        final(i_out).len() == old(i_out).len(),
{
    let mut i: FastSint = lo;
    let ghost step = place_aux_right_step(rm, cache@);
    let ghost s0 = (sa@, buckets@, i_out@);
    while i < hi
        invariant
            lo <= i,
            i <= hi || hi < lo,
            hi < lo ==> i == lo,
            step == place_aux_right_step(rm, cache@),
            s0 == (old(sa)@, old(buckets)@, old(i_out)@),
            fold_up(step, s0, lo as int, i as int) == Some((sa@, buckets@, i_out@)),
            sa.len() == old(sa).len(),
            buckets.len() == old(buckets).len(),
            i_out.len() == old(i_out).len(),
        decreases hi - i,
    {
        proof {
            lemma_fold_up_prefix(step, s0, lo as int, i + 1, hi as int);
        }
        if !place_aux_right_at(rm, cache, sa, buckets, i_out, i) {
            return false;
        }
        i += 1;
    }
    true
}

/// Writes the cached suffixes to the next free slots of their buckets and notes the samples
/// among them.
pub fn final_bwt_aux_scan_left_to_right_8u_block_place(
    sa: &mut [SaSint],
    rm: SaSint,
    i_out: &mut [SaSint],
    buckets: &mut [SaSint],
    cache: &[ThreadCache],
    count: FastSint,
)
    requires
        place_aux_left_run(rm, cache@, (old(sa)@, old(buckets)@, old(i_out)@), 0, count as int) is Some,
    ensures
        place_aux_left_run(rm, cache@, (old(sa)@, old(buckets)@, old(i_out)@), 0, count as int) == Some((final(sa)@, final(buckets)@, final(i_out)@)),
        final(sa).len() == old(sa).len(),
        final(buckets).len() == old(buckets).len(),
        final(i_out).len() == old(i_out).len(),
{
    let last: FastSint = count;
    let _ok: bool = try_place_aux_left(rm, cache, sa, buckets, i_out, 0, last);
}

/// How many pairs `count` entries make.
pub open spec fn pair_count(count: isize) -> int {
    if count <= 0 {
        0
    } else {
        (count + 1) / 2
    }
}

/// Writes the cached suffixes to the last free slots of their buckets and notes the samples
/// among them. An entry is followed by one that holds its suffix.
pub fn final_bwt_aux_scan_right_to_left_8u_block_place(
    sa: &mut [SaSint],
    rm: SaSint,
    i_out: &mut [SaSint],
    buckets: &mut [SaSint],
    cache: &[ThreadCache],
    count: FastSint,
)
    requires
        place_aux_right_run(rm, cache@, (old(sa)@, old(buckets)@, old(i_out)@), 0, pair_count(count)) is Some,
    ensures
        place_aux_right_run(rm, cache@, (old(sa)@, old(buckets)@, old(i_out)@), 0, pair_count(count)) == Some((final(sa)@, final(buckets)@, final(i_out)@)),
        final(sa).len() == old(sa).len(),
        final(buckets).len() == old(buckets).len(),
        final(i_out).len() == old(i_out).len(),
{
    let last: FastSint = if count <= 0 { 0 } else { count / 2 + count % 2 };
    let _ok: bool = try_place_aux_right(rm, cache, sa, buckets, i_out, 0, last);
}

/// What scanning a block leaves. Where there is a desk, all of the block is read into it before
/// anything is written.
pub open spec fn block_bwt_left(t: Seq<u8>, k: int, s: (Seq<i32>, Seq<i32>, Seq<Desk>), start: int, size: int) -> Option<(Seq<i32>, Seq<i32>, Seq<Desk>)> {
    if size <= 0 {
        Some(s)
    } else if s.2.len() == 0 {
        match final_bwt_scan_left_to_right_8u_run(t, (s.0, s.1), start, size) {
            Some(x) => Some((x.0, x.1, s.2)),
            None => None,
        }
    } else {
        match prepare_bwt_leftd(t, k, s.0, s.2[0].buckets, s.2[0].cache, start, size) {
            Some(x) => match exchanged(s.1, x.1, 0, k, false) {
                Some(e) => match place_final_left_run(x.2, (x.0, e.1), 0, x.3 as int) {
                    Some(y) => Some((y.0, e.0, s.2.update(0, Desk { count: x.3 as isize, buckets: y.1, cache: x.2, ..s.2[0] }))),
                    None => None,
                },
                None => None,
            },
            None => None,
        }
    }
}

/// Scans a block. Where there is storage for a worker, all of the block is read before anything
/// is written.
pub fn final_bwt_scan_left_to_right_8u_block_omp(
    t: &[u8],
    sa: &mut [SaSint],
    k: SaSint,
    induction_bucket: &mut [SaSint],
    block_start: FastSint,
    block_size: FastSint,
    _threads: SaSint,
    thread_state: &mut [ThreadState],
)
    requires
        block_start + block_size <= isize::MAX,
        desks_fit(old(thread_state)@),
        block_bwt_left(t@, k as int, (old(sa)@, old(induction_bucket)@, desks(old(thread_state)@)), block_start as int, block_size as int) is Some,
    ensures
        block_bwt_left(t@, k as int, (old(sa)@, old(induction_bucket)@, desks(old(thread_state)@)), block_start as int, block_size as int)
            == Some((final(sa)@, final(induction_bucket)@, desks(final(thread_state)@))),
        quiet(old(thread_state)@, final(thread_state)@),
        desks_sized(old(thread_state)@, final(thread_state)@),
        final(sa).len() == old(sa).len(),
        final(induction_bucket).len() == old(induction_bucket).len(),
{
    if block_size <= 0 {
        return;
    }
    if thread_state.len() == 0 {
        let _ok: bool = try_final_bwt_scan_left_to_right_8u(t, sa, induction_bucket, block_start, block_size);
        return;
    }
    let ghost before = thread_state@;
    proof {
        assert(before[0].cache.len() <= isize::MAX);
        let own = desk(before[0]);
        lemma_prepare_bwt_left(t@, (sa@, cleared(own.buckets, 0, k as int), own.cache, 0), block_start as int, block_start + block_size);
    }
    let state: &mut ThreadState = &mut thread_state[0];
    let count: FastSint = final_bwt_scan_left_to_right_8u_block_prepare(t, sa, k, state.buckets.as_mut_slice(), state.cache.as_mut_slice(), block_start, block_size);
    state.count = count;
    exchange(induction_bucket, state.buckets.as_mut_slice(), 0, k as usize, false);
    final_order_scan_left_to_right_8u_block_place(sa, state.buckets.as_mut_slice(), state.cache.as_slice(), count);
    proof {
        assert(desks(thread_state@) =~= desks(before).update(0, desk(thread_state@[0])));
    }
}

/// What scanning a block leaves. Where there is a desk, all of the block is read into it before
/// anything is written.
pub open spec fn block_bwt_aux_left(t: Seq<u8>, rm: i32, k: int, s: (Seq<i32>, Seq<i32>, Seq<i32>, Seq<Desk>), start: int, size: int) -> Option<(Seq<i32>, Seq<i32>, Seq<i32>, Seq<Desk>)> {
    if size <= 0 {
        Some(s)
    } else if s.3.len() == 0 {
        match final_bwt_aux_scan_left_to_right_8u_run(t, rm, (s.0, s.1, s.2), start, size) {
            Some(x) => Some((x.0, x.1, x.2, s.3)),
            None => None,
        }
    } else {
        match prepare_bwt_leftd(t, k, s.0, s.3[0].buckets, s.3[0].cache, start, size) {
            Some(x) => match exchanged(s.1, x.1, 0, k, false) {
                Some(e) => match place_aux_left_run(rm, x.2, (x.0, e.1, s.2), 0, x.3 as int) {
                    Some(y) => Some((y.0, e.0, y.2, s.3.update(0, Desk { count: x.3 as isize, buckets: y.1, cache: x.2, ..s.3[0] }))),
                    None => None,
                },
                None => None,
            },
            None => None,
        }
    }
}

/// Scans a block. Where there is storage for a worker, all of the block is read before anything
/// is written.
pub fn final_bwt_aux_scan_left_to_right_8u_block_omp(
    t: &[u8],
    sa: &mut [SaSint],
    k: SaSint,
    rm: SaSint,
    i_out: &mut [SaSint],
    induction_bucket: &mut [SaSint],
    block_start: FastSint,
    block_size: FastSint,
    _threads: SaSint,
    thread_state: &mut [ThreadState],
)
    requires
        block_start + block_size <= isize::MAX,
        desks_fit(old(thread_state)@),
        block_bwt_aux_left(t@, rm, k as int, (old(sa)@, old(induction_bucket)@, old(i_out)@, desks(old(thread_state)@)), block_start as int, block_size as int) is Some,
    ensures
        block_bwt_aux_left(t@, rm, k as int, (old(sa)@, old(induction_bucket)@, old(i_out)@, desks(old(thread_state)@)), block_start as int, block_size as int)
            == Some((final(sa)@, final(induction_bucket)@, final(i_out)@, desks(final(thread_state)@))),
        quiet(old(thread_state)@, final(thread_state)@),
        desks_sized(old(thread_state)@, final(thread_state)@),
        final(sa).len() == old(sa).len(),
        final(induction_bucket).len() == old(induction_bucket).len(),
        final(i_out).len() == old(i_out).len(),
{
    if block_size <= 0 {
        return;
    }
    if thread_state.len() == 0 {
        let _ok: bool = try_final_bwt_aux_scan_left_to_right_8u_slot(t, rm, sa, induction_bucket, i_out, block_start, block_start + block_size);
        return;
    }
    let ghost before = thread_state@;
    proof {
        assert(before[0].cache.len() <= isize::MAX);
        let own = desk(before[0]);
        lemma_prepare_bwt_left(t@, (sa@, cleared(own.buckets, 0, k as int), own.cache, 0), block_start as int, block_start + block_size);
    }
    let state: &mut ThreadState = &mut thread_state[0];
    let count: FastSint = final_bwt_scan_left_to_right_8u_block_prepare(t, sa, k, state.buckets.as_mut_slice(), state.cache.as_mut_slice(), block_start, block_size);
    state.count = count;
    exchange(induction_bucket, state.buckets.as_mut_slice(), 0, k as usize, false);
    final_bwt_aux_scan_left_to_right_8u_block_place(sa, rm, i_out, state.buckets.as_mut_slice(), state.cache.as_slice(), count);
    proof {
        assert(desks(thread_state@) =~= desks(before).update(0, desk(thread_state@[0])));
    }
}

/// What scanning a block leaves. Where there is a desk, all of the block is read into it before
/// anything is written.
pub open spec fn block_final_left(t: Seq<u8>, k: int, s: (Seq<i32>, Seq<i32>, Seq<Desk>), start: int, size: int) -> Option<(Seq<i32>, Seq<i32>, Seq<Desk>)> {
    if size <= 0 {
        Some(s)
    } else if s.2.len() == 0 {
        match final_sorting_scan_left_to_right_8u_run(t, (s.0, s.1), start, size) {
            Some(x) => Some((x.0, x.1, s.2)),
            None => None,
        }
    } else {
        match prepare_final_leftd(t, k, s.0, s.2[0].buckets, s.2[0].cache, start, size) {
            Some(x) => match exchanged(s.1, x.1, 0, k, false) {
                Some(e) => match place_final_left_run(x.2, (x.0, e.1), 0, x.3 as int) {
                    Some(y) => Some((y.0, e.0, s.2.update(0, Desk { count: x.3 as isize, buckets: y.1, cache: x.2, ..s.2[0] }))),
                    None => None,
                },
                None => None,
            },
            None => None,
        }
    }
}

/// Scans a block. Where there is storage for a worker, all of the block is read before anything
/// is written.
pub fn final_sorting_scan_left_to_right_8u_block_omp(
    t: &[u8],
    sa: &mut [SaSint],
    k: SaSint,
    induction_bucket: &mut [SaSint],
    block_start: FastSint,
    block_size: FastSint,
    _threads: SaSint,
    thread_state: &mut [ThreadState],
)
    requires
        block_start + block_size <= isize::MAX,
        desks_fit(old(thread_state)@),
        block_final_left(t@, k as int, (old(sa)@, old(induction_bucket)@, desks(old(thread_state)@)), block_start as int, block_size as int) is Some,
    ensures
        block_final_left(t@, k as int, (old(sa)@, old(induction_bucket)@, desks(old(thread_state)@)), block_start as int, block_size as int)
            == Some((final(sa)@, final(induction_bucket)@, desks(final(thread_state)@))),
        quiet(old(thread_state)@, final(thread_state)@),
        desks_sized(old(thread_state)@, final(thread_state)@),
        final(sa).len() == old(sa).len(),
        final(induction_bucket).len() == old(induction_bucket).len(),
{
    if block_size <= 0 {
        return;
    }
    if thread_state.len() == 0 {
        let _ok: bool = try_final_sorting_scan_left_to_right_8u(t, sa, induction_bucket, block_start, block_size);
        return;
    }
    let ghost before = thread_state@;
    proof {
        assert(before[0].cache.len() <= isize::MAX);
        let own = desk(before[0]);
        lemma_prepare_final_left(t@, (sa@, cleared(own.buckets, 0, k as int), own.cache, 0), block_start as int, block_start + block_size);
    }
    let state: &mut ThreadState = &mut thread_state[0];
    let count: FastSint = final_sorting_scan_left_to_right_8u_block_prepare(t, sa, k, state.buckets.as_mut_slice(), state.cache.as_mut_slice(), block_start, block_size);
    state.count = count;
    exchange(induction_bucket, state.buckets.as_mut_slice(), 0, k as usize, false);
    final_order_scan_left_to_right_8u_block_place(sa, state.buckets.as_mut_slice(), state.cache.as_slice(), count);
    proof {
        assert(desks(thread_state@) =~= desks(before).update(0, desk(thread_state@[0])));
    }
}

/// What scanning a block leaves. Where there is a desk, all of the block is read into it before
/// anything is written.
pub open spec fn block_bwt_right(t: Seq<u8>, k: int, s: (Seq<i32>, Seq<i32>, Seq<Desk>), start: int, size: int) -> Option<(Seq<i32>, Seq<i32>, Seq<Desk>)> {
    if size <= 0 {
        Some(s)
    } else if s.2.len() == 0 {
        match final_bwt_scan_right_to_left_8u_run(t, (s.0, s.1, -1i32), start, size) {
            Some(x) => Some((x.0, x.1, s.2)),
            None => None,
        }
    } else {
        match prepare_bwt_rightd(t, k, s.0, s.2[0].buckets, s.2[0].cache, start, size) {
            Some(x) => match exchanged(s.1, x.1, 0, k, true) {
                Some(e) => match place_final_right_run(x.2, (x.0, e.1), 0, x.3 as int) {
                    Some(y) => Some((y.0, e.0, s.2.update(0, Desk { count: x.3 as isize, buckets: y.1, cache: x.2, ..s.2[0] }))),
                    None => None,
                },
                None => None,
            },
            None => None,
        }
    }
}

/// Scans a block. Where there is storage for a worker, all of the block is read before anything
/// is written.
pub fn final_bwt_scan_right_to_left_8u_block_omp(
    t: &[u8],
    sa: &mut [SaSint],
    k: SaSint,
    induction_bucket: &mut [SaSint],
    block_start: FastSint,
    block_size: FastSint,
    _threads: SaSint,
    thread_state: &mut [ThreadState],
)
    requires
        block_start + block_size <= isize::MAX,
        desks_fit(old(thread_state)@),
        block_bwt_right(t@, k as int, (old(sa)@, old(induction_bucket)@, desks(old(thread_state)@)), block_start as int, block_size as int) is Some,
    ensures
        block_bwt_right(t@, k as int, (old(sa)@, old(induction_bucket)@, desks(old(thread_state)@)), block_start as int, block_size as int)
            == Some((final(sa)@, final(induction_bucket)@, desks(final(thread_state)@))),
        quiet(old(thread_state)@, final(thread_state)@),
        desks_sized(old(thread_state)@, final(thread_state)@),
        final(sa).len() == old(sa).len(),
        final(induction_bucket).len() == old(induction_bucket).len(),
{
    if block_size <= 0 {
        return;
    }
    if thread_state.len() == 0 {
        let mut index: SaSint = -1;
        let _ok: bool = try_final_bwt_scan_right_to_left_8u(t, sa, induction_bucket, &mut index, block_start, block_size);
        return;
    }
    let ghost before = thread_state@;
    proof {
        assert(before[0].cache.len() <= isize::MAX);
        let own = desk(before[0]);
        lemma_prepare_bwt_right(t@, (sa@, cleared(own.buckets, 0, k as int), own.cache, 0), block_start as int, block_start + block_size);
    }
    let state: &mut ThreadState = &mut thread_state[0];
    let count: FastSint = final_bwt_scan_right_to_left_8u_block_prepare(t, sa, k, state.buckets.as_mut_slice(), state.cache.as_mut_slice(), block_start, block_size);
    state.count = count;
    exchange(induction_bucket, state.buckets.as_mut_slice(), 0, k as usize, true);
    final_order_scan_right_to_left_8u_block_place(sa, state.buckets.as_mut_slice(), state.cache.as_slice(), count);
    proof {
        assert(desks(thread_state@) =~= desks(before).update(0, desk(thread_state@[0])));
    }
}

/// What scanning a block leaves. Where there is a desk, all of the block is read into it before
/// anything is written.
pub open spec fn block_bwt_aux_right(t: Seq<u8>, rm: i32, k: int, s: (Seq<i32>, Seq<i32>, Seq<i32>, Seq<Desk>), start: int, size: int) -> Option<(Seq<i32>, Seq<i32>, Seq<i32>, Seq<Desk>)> {
    if size <= 0 {
        Some(s)
    } else if s.3.len() == 0 {
        match final_bwt_aux_scan_right_to_left_8u_run(t, rm, (s.0, s.1, s.2), start, size) {
            Some(x) => Some((x.0, x.1, x.2, s.3)),
            None => None,
        }
    } else {
        match prepare_bwt_aux_rightd(t, k, s.0, s.3[0].buckets, s.3[0].cache, start, size) {
            Some(x) => match exchanged(s.1, x.1, 0, k, true) {
                Some(e) => match place_aux_right_run(rm, x.2, (x.0, e.1, s.2), 0, pair_count(x.3 as isize)) {
                    Some(y) => Some((y.0, e.0, y.2, s.3.update(0, Desk { count: x.3 as isize, buckets: y.1, cache: x.2, ..s.3[0] }))),
                    None => None,
                },
                None => None,
            },
            None => None,
        }
    }
}

/// Scans a block. Where there is storage for a worker, all of the block is read before anything
/// is written.
pub fn final_bwt_aux_scan_right_to_left_8u_block_omp(
    t: &[u8],
    sa: &mut [SaSint],
    k: SaSint,
    rm: SaSint,
    i_out: &mut [SaSint],
    induction_bucket: &mut [SaSint],
    block_start: FastSint,
    block_size: FastSint,
    _threads: SaSint,
    thread_state: &mut [ThreadState],
)
    requires
        block_start + block_size <= isize::MAX,
        desks_fit(old(thread_state)@),
        block_bwt_aux_right(t@, rm, k as int, (old(sa)@, old(induction_bucket)@, old(i_out)@, desks(old(thread_state)@)), block_start as int, block_size as int) is Some,
    ensures
        block_bwt_aux_right(t@, rm, k as int, (old(sa)@, old(induction_bucket)@, old(i_out)@, desks(old(thread_state)@)), block_start as int, block_size as int)
            == Some((final(sa)@, final(induction_bucket)@, final(i_out)@, desks(final(thread_state)@))),
        quiet(old(thread_state)@, final(thread_state)@),
        desks_sized(old(thread_state)@, final(thread_state)@),
        final(sa).len() == old(sa).len(),
        final(induction_bucket).len() == old(induction_bucket).len(),
        final(i_out).len() == old(i_out).len(),
{
    if block_size <= 0 {
        return;
    }
    if thread_state.len() == 0 {
        let _ok: bool = try_final_bwt_aux_scan_right_to_left_8u_slot(t, rm, sa, induction_bucket, i_out, block_start, block_start + block_size);
        return;
    }
    let ghost before = thread_state@;
    proof {
        assert(before[0].cache.len() <= isize::MAX);
        let own = desk(before[0]);
        lemma_prepare_bwt_aux_right(t@, (sa@, cleared(own.buckets, 0, k as int), own.cache, 0), block_start as int, block_start + block_size);
    }
    let state: &mut ThreadState = &mut thread_state[0];
    let count: FastSint = final_bwt_aux_scan_right_to_left_8u_block_prepare(t, sa, k, state.buckets.as_mut_slice(), state.cache.as_mut_slice(), block_start, block_size);
    state.count = count;
    exchange(induction_bucket, state.buckets.as_mut_slice(), 0, k as usize, true);
    final_bwt_aux_scan_right_to_left_8u_block_place(sa, rm, i_out, state.buckets.as_mut_slice(), state.cache.as_slice(), count);
    proof {
        assert(desks(thread_state@) =~= desks(before).update(0, desk(thread_state@[0])));
    }
}

/// What scanning a block leaves. Where there is a desk, all of the block is read into it before
/// anything is written.
pub open spec fn block_final_right(t: Seq<u8>, k: int, s: (Seq<i32>, Seq<i32>, Seq<Desk>), start: int, size: int) -> Option<(Seq<i32>, Seq<i32>, Seq<Desk>)> {
    if size <= 0 {
        Some(s)
    } else if s.2.len() == 0 {
        match final_sorting_scan_right_to_left_8u_run(t, (s.0, s.1), start, size) {
            Some(x) => Some((x.0, x.1, s.2)),
            None => None,
        }
    } else {
        match prepare_final_rightd(t, k, s.0, s.2[0].buckets, s.2[0].cache, start, size) {
            Some(x) => match exchanged(s.1, x.1, 0, k, true) {
                Some(e) => match place_final_right_run(x.2, (x.0, e.1), 0, x.3 as int) {
                    Some(y) => Some((y.0, e.0, s.2.update(0, Desk { count: x.3 as isize, buckets: y.1, cache: x.2, ..s.2[0] }))),
                    None => None,
                },
                None => None,
            },
            None => None,
        }
    }
}

/// Scans a block. Where there is storage for a worker, all of the block is read before anything
/// is written.
pub fn final_sorting_scan_right_to_left_8u_block_omp(
    t: &[u8],
    sa: &mut [SaSint],
    k: SaSint,
    induction_bucket: &mut [SaSint],
    block_start: FastSint,
    block_size: FastSint,
    _threads: SaSint,
    thread_state: &mut [ThreadState],
)
    requires
        block_start + block_size <= isize::MAX,
        desks_fit(old(thread_state)@),
        block_final_right(t@, k as int, (old(sa)@, old(induction_bucket)@, desks(old(thread_state)@)), block_start as int, block_size as int) is Some,
    ensures
        block_final_right(t@, k as int, (old(sa)@, old(induction_bucket)@, desks(old(thread_state)@)), block_start as int, block_size as int)
            == Some((final(sa)@, final(induction_bucket)@, desks(final(thread_state)@))),
        quiet(old(thread_state)@, final(thread_state)@),
        desks_sized(old(thread_state)@, final(thread_state)@),
        final(sa).len() == old(sa).len(),
        final(induction_bucket).len() == old(induction_bucket).len(),
{
    if block_size <= 0 {
        return;
    }
    if thread_state.len() == 0 {
        let _ok: bool = try_final_sorting_scan_right_to_left_8u(t, sa, induction_bucket, block_start, block_size);
        return;
    }
    let ghost before = thread_state@;
    proof {
        assert(before[0].cache.len() <= isize::MAX);
        let own = desk(before[0]);
        lemma_prepare_final_right(t@, (sa@, cleared(own.buckets, 0, k as int), own.cache, 0), block_start as int, block_start + block_size);
    }
    let state: &mut ThreadState = &mut thread_state[0];
    let count: FastSint = final_sorting_scan_right_to_left_8u_block_prepare(t, sa, k, state.buckets.as_mut_slice(), state.cache.as_mut_slice(), block_start, block_size);
    state.count = count;
    exchange(induction_bucket, state.buckets.as_mut_slice(), 0, k as usize, true);
    final_order_scan_right_to_left_8u_block_place(sa, state.buckets.as_mut_slice(), state.cache.as_slice(), count);
    proof {
        assert(desks(thread_state@) =~= desks(before).update(0, desk(thread_state@[0])));
    }
}

/// What scanning a block leaves. Where there is a desk, all of the block is read into it before
/// anything is written.
pub open spec fn block_final_gsa(t: Seq<u8>, k: int, s: (Seq<i32>, Seq<i32>, Seq<Desk>), start: int, size: int) -> Option<(Seq<i32>, Seq<i32>, Seq<Desk>)> {
    if size <= 0 {
        Some(s)
    } else if s.2.len() == 0 {
        match final_gsa_scan_right_to_left_8u_run(t, (s.0, s.1), start, size) {
            Some(x) => Some((x.0, x.1, s.2)),
            None => None,
        }
    } else {
        match prepare_final_rightd(t, k, s.0, s.2[0].buckets, s.2[0].cache, start, size) {
            Some(x) => match exchanged(s.1, x.1, 0, k, true) {
                Some(e) => match place_final_gsa_run(x.2, (x.0, e.1), 0, x.3 as int) {
                    Some(y) => Some((y.0, e.0, s.2.update(0, Desk { count: x.3 as isize, buckets: y.1, cache: x.2, ..s.2[0] }))),
                    None => None,
                },
                None => None,
            },
            None => None,
        }
    }
}

/// Scans a block. Where there is storage for a worker, all of the block is read before anything
/// is written.
pub fn final_gsa_scan_right_to_left_8u_block_omp(
    t: &[u8],
    sa: &mut [SaSint],
    k: SaSint,
    induction_bucket: &mut [SaSint],
    block_start: FastSint,
    block_size: FastSint,
    _threads: SaSint,
    thread_state: &mut [ThreadState],
)
    requires
        block_start + block_size <= isize::MAX,
        desks_fit(old(thread_state)@),
        block_final_gsa(t@, k as int, (old(sa)@, old(induction_bucket)@, desks(old(thread_state)@)), block_start as int, block_size as int) is Some,
    ensures
        block_final_gsa(t@, k as int, (old(sa)@, old(induction_bucket)@, desks(old(thread_state)@)), block_start as int, block_size as int)
            == Some((final(sa)@, final(induction_bucket)@, desks(final(thread_state)@))),
        quiet(old(thread_state)@, final(thread_state)@),
        desks_sized(old(thread_state)@, final(thread_state)@),
        final(sa).len() == old(sa).len(),
        final(induction_bucket).len() == old(induction_bucket).len(),
{
    if block_size <= 0 {
        return;
    }
    if thread_state.len() == 0 {
        let _ok: bool = try_final_gsa_scan_right_to_left_8u(t, sa, induction_bucket, block_start, block_size);
        return;
    }
    let ghost before = thread_state@;
    proof {
        assert(before[0].cache.len() <= isize::MAX);
        let own = desk(before[0]);
        lemma_prepare_final_right(t@, (sa@, cleared(own.buckets, 0, k as int), own.cache, 0), block_start as int, block_start + block_size);
    }
    let state: &mut ThreadState = &mut thread_state[0];
    let count: FastSint = final_sorting_scan_right_to_left_8u_block_prepare(t, sa, k, state.buckets.as_mut_slice(), state.cache.as_mut_slice(), block_start, block_size);
    state.count = count;
    exchange(induction_bucket, state.buckets.as_mut_slice(), 0, k as usize, true);
    final_gsa_scan_right_to_left_8u_block_place(sa, state.buckets.as_mut_slice(), state.cache.as_slice(), count);
    proof {
        assert(desks(thread_state@) =~= desks(before).update(0, desk(thread_state@[0])));
    }
}

} // verus!
