//! Bucket boundaries from symbol counts.

use vstd::prelude::*;
use crate::fold::{fold_down, fold_up, lemma_fold_down_prefix, lemma_fold_up_prefix};
use crate::gather::{clear_range, cleared, text32, text8};
use crate::marks::{bit, fits, fits_sum, within};
use crate::types::{FastSint, SaSint, ALPHABET_SIZE};

verus! {

/// Counts the symbol at position `i`.
pub open spec fn count_symbol_step(t: Seq<i32>) -> spec_fn(Seq<i32>, int) -> Option<Seq<i32>> {
    |s: Seq<i32>, i: int|
        {
            let buckets = s;
            let c = t[i];
            if 0 <= i < t.len() && 0 <= c < buckets.len() && buckets[c as int] < i32::MAX {
                Some(buckets.update(c as int, (buckets[c as int] + 1) as i32))
            } else {
                None
            }
        }
}

/// [`count_symbol_step`] over the positions from `lo` to `hi`, upward.
pub open spec fn count_symbol_run(t: Seq<i32>, s: Seq<i32>, lo: int, hi: int) -> Option<Seq<i32>> {
    fold_up(count_symbol_step(t), s, lo, hi)
}

/// Performs one step, or returns `false` where the step is outside its domain.
fn count_symbol_at(
    t: &[SaSint],
    buckets: &mut [SaSint],
    i: FastSint,
) -> (ok: bool)
    ensures
        ok == (count_symbol_step(t@)(old(buckets)@, i as int) is Some),
        ok ==> count_symbol_step(t@)(old(buckets)@, i as int) == Some(final(buckets)@),
        final(buckets).len() == old(buckets).len(),
{
    if i < 0 || i as usize >= t.len() {
        return false;
    }
    let c: SaSint = t[i as usize];
    if !within(c, buckets.len()) {
        return false;
    }
    let x: SaSint = buckets[c as usize];
    if x == SaSint::MAX {
        return false;
    }
    buckets[c as usize] = x + 1;
    true
}

/// Runs the steps as far as they are defined; `false` where one is not.
pub(crate) fn try_count_symbol(
    t: &[SaSint],
    buckets: &mut [SaSint],
    lo: FastSint,
    hi: FastSint,
) -> (ok: bool)
    ensures
        ok == (count_symbol_run(t@, old(buckets)@, lo as int, hi as int) is Some),
        ok ==> count_symbol_run(t@, old(buckets)@, lo as int, hi as int) == Some(final(buckets)@),
        final(buckets).len() == old(buckets).len(),
{
    let mut i: FastSint = lo;
    let ghost step = count_symbol_step(t@);
    let ghost s0 = buckets@;
    while i < hi
        invariant
            lo <= i,
            i <= hi || hi < lo,
            hi < lo ==> i == lo,
            step == count_symbol_step(t@),
            s0 == old(buckets)@,
            fold_up(step, s0, lo as int, i as int) == Some(buckets@),
            buckets.len() == old(buckets).len(),
        decreases hi - i,
    {
        proof {
            lemma_fold_up_prefix(step, s0, lo as int, i + 1, hi as int);
        }
        if !count_symbol_at(t, buckets, i) {
            return false;
        }
        i += 1;
    }
    true
}

/// The symbol counts of the first `n` positions, in the first `k` slots.
pub open spec fn count_suffixes_32s_run(t: Seq<i32>, n: int, k: int, buckets: Seq<i32>) -> Option<Seq<i32>> {
    if 0 <= n && 0 <= k <= buckets.len() {
        count_symbol_run(t, cleared(buckets, 0, k), 0, n)
    } else {
        None
    }
}

/// Counts the symbols of the first `n` positions in the first `k` slots.
///
/// `false` where a slot or a sum is out of range.
pub(crate) fn try_count_suffixes_32s(
    t: &[SaSint],
    n: SaSint,
    k: SaSint,
    buckets: &mut [SaSint],
) -> (ok: bool)
    ensures
        ok == (count_suffixes_32s_run(t@, n as int, k as int, old(buckets)@) is Some),
        ok ==> count_suffixes_32s_run(t@, n as int, k as int, old(buckets)@) == Some(final(buckets)@),
        final(buckets).len() == old(buckets).len(),
{
    if n < 0 || k < 0 || k as u64 > buckets.len() as u64 {
        return false;
    }
    clear_range(buckets, 0, k as usize);
    try_count_symbol(t, buckets, 0, n as FastSint)
}

/// Counts the symbols of the first `n` positions in the first `k` slots.
pub fn count_suffixes_32s(
    t: &[SaSint],
    n: SaSint,
    k: SaSint,
    buckets: &mut [SaSint],
)
    requires
        count_suffixes_32s_run(t@, n as int, k as int, old(buckets)@) is Some,
    ensures
        count_suffixes_32s_run(t@, n as int, k as int, old(buckets)@) == Some(final(buckets)@),
{
    let _ok: bool = try_count_suffixes_32s(t, n, k, buckets);
}

/// The sum of `lanes` counters from `at`, where every partial sum fits.
pub open spec fn lane_sum(b: Seq<i32>, at: int, lanes: nat) -> Option<int>
    decreases lanes,
{
    if lanes == 0 {
        Some(0)
    } else {
        match lane_sum(b, at, (lanes - 1) as nat) {
            Some(x) => if fits(x + b[at + lanes - 1]) {
                Some(x + b[at + lanes - 1])
            } else {
                None
            },
            None => None,
        }
    }
}

/// Sums `lanes` counters from `at`.
fn sum_lanes(b: &[SaSint], at: usize, lanes: usize) -> (r: Option<SaSint>)
    requires
        at + lanes <= b.len(),
    ensures
        r is Some == (lane_sum(b@, at as int, lanes as nat) is Some),
        r is Some ==> r->0 == lane_sum(b@, at as int, lanes as nat)->0,
    decreases lanes,
{
    if lanes == 0 {
        return Some(0);
    }
    match sum_lanes(b, at, lanes - 1) {
        Some(x) => fits_sum(x, b[at + (lanes - 1)]),
        None => None,
    }
}

/// Sets the first slot and the end of the bucket of symbol `i`, with the running sum.
pub open spec fn initialize_buckets_start_and_end_32s_6k_slot_step(k: int) -> spec_fn((Seq<i32>, i32), int) -> Option<(Seq<i32>, i32)> {
    |s: (Seq<i32>, i32), i: int|
        {
            let (buckets, sum) = s;
            let b = buckets.update(4 * k + i, sum);
            let total = lane_sum(b, 4 * i, 4);
            if 0 <= i < k && 5 * k + i < buckets.len() && 4 * i + 3 < buckets.len() && total is Some
                && fits(sum + total->0) {
                Some((b.update(5 * k + i, (sum + total->0) as i32), (sum + total->0) as i32))
            } else {
                None
            }
        }
}

/// [`initialize_buckets_start_and_end_32s_6k_slot_step`] over the positions from `lo` to `hi`, upward.
pub open spec fn initialize_buckets_start_and_end_32s_6k_slot_run(k: int, s: (Seq<i32>, i32), lo: int, hi: int) -> Option<(Seq<i32>, i32)> {
    fold_up(initialize_buckets_start_and_end_32s_6k_slot_step(k), s, lo, hi)
}

/// Performs one step, or returns `false` where the step is outside its domain.
fn initialize_buckets_start_and_end_32s_6k_slot_at(
    k: usize,
    buckets: &mut [SaSint],
    sum: &mut SaSint,
    i: FastSint,
) -> (ok: bool)
    ensures
        ok == (initialize_buckets_start_and_end_32s_6k_slot_step(k as int)((old(buckets)@, *old(sum)), i as int) is Some),
        ok ==> initialize_buckets_start_and_end_32s_6k_slot_step(k as int)((old(buckets)@, *old(sum)), i as int) == Some((final(buckets)@, *final(sum))),
        final(buckets).len() == old(buckets).len(),
{
    if i < 0 || i as usize >= k {
        return false;
    }
    let j: usize = i as usize;
    if 5 * (k as u128) + j as u128 >= buckets.len() as u128
        || 4 * (j as u128) + 3 >= buckets.len() as u128 {
        return false;
    }
    let s0: SaSint = *sum;
    buckets[4 * k + j] = s0;
    let total: Option<SaSint> = sum_lanes(buckets, 4 * j, 4);
    let s1: Option<SaSint> = match total {
        Some(v) => fits_sum(s0, v),
        None => None,
    };
    match s1 {
        Some(v) => {
            buckets[5 * k + j] = v;
            *sum = v;
            true
        },
        None => false,
    }
}

/// Runs the steps as far as they are defined; `false` where one is not.
pub(crate) fn try_initialize_buckets_start_and_end_32s_6k_slot(
    k: usize,
    buckets: &mut [SaSint],
    sum: &mut SaSint,
    lo: FastSint,
    hi: FastSint,
) -> (ok: bool)
    ensures
        ok == (initialize_buckets_start_and_end_32s_6k_slot_run(k as int, (old(buckets)@, *old(sum)), lo as int, hi as int) is Some),
        ok ==> initialize_buckets_start_and_end_32s_6k_slot_run(k as int, (old(buckets)@, *old(sum)), lo as int, hi as int) == Some((final(buckets)@, *final(sum))),
        final(buckets).len() == old(buckets).len(),
{
    let mut i: FastSint = lo;
    let ghost step = initialize_buckets_start_and_end_32s_6k_slot_step(k as int);
    let ghost s0 = (buckets@, *sum);
    while i < hi
        invariant
            lo <= i,
            i <= hi || hi < lo,
            hi < lo ==> i == lo,
            step == initialize_buckets_start_and_end_32s_6k_slot_step(k as int),
            s0 == (old(buckets)@, *old(sum)),
            fold_up(step, s0, lo as int, i as int) == Some((buckets@, *sum)),
            buckets.len() == old(buckets).len(),
        decreases hi - i,
    {
        proof {
            lemma_fold_up_prefix(step, s0, lo as int, i + 1, hi as int);
        }
        if !initialize_buckets_start_and_end_32s_6k_slot_at(k, buckets, sum, i) {
            return false;
        }
        i += 1;
    }
    true
}

/// The bucket bounds of all `k` symbols, and their total.
pub open spec fn initialize_buckets_start_and_end_32s_6k_run(k: int, buckets: Seq<i32>) -> Option<(Seq<i32>, i32)> {
    if 0 <= k {
        initialize_buckets_start_and_end_32s_6k_slot_run(k, (buckets, 0), 0, k)
    } else {
        None
    }
}

/// Sets the first slot and the end of the bucket of each of the `k` symbols, from its 4 counters.
///
/// `false` where a slot or a sum is out of range.
pub(crate) fn try_initialize_buckets_start_and_end_32s_6k(
    k: SaSint,
    buckets: &mut [SaSint],
) -> (ok: bool)
    ensures
        ok == (initialize_buckets_start_and_end_32s_6k_run(k as int, old(buckets)@) is Some),
        ok ==> {
            let x = initialize_buckets_start_and_end_32s_6k_run(k as int, old(buckets)@)->0;
            final(buckets)@ == x.0
        },
        final(buckets).len() == old(buckets).len(),
{
    if k < 0 {
        return false;
    }
    let mut sum: SaSint = 0;
    try_initialize_buckets_start_and_end_32s_6k_slot(k as usize, buckets, &mut sum, 0, k as FastSint)
}

/// Sets the first slot and the end of the bucket of each of the `k` symbols, from its 4 counters.
pub fn initialize_buckets_start_and_end_32s_6k(
    k: SaSint,
    buckets: &mut [SaSint],
)
    requires
        initialize_buckets_start_and_end_32s_6k_run(k as int, old(buckets)@) is Some,
    ensures
        ({
            let x = initialize_buckets_start_and_end_32s_6k_run(k as int, old(buckets)@)->0;
            final(buckets)@ == x.0
        }),
{
    let _ok: bool = try_initialize_buckets_start_and_end_32s_6k(k, buckets);
}

/// Sets the first slot and the end of the bucket of symbol `i`, with the running sum.
pub open spec fn initialize_buckets_start_and_end_32s_4k_slot_step(k: int) -> spec_fn((Seq<i32>, i32), int) -> Option<(Seq<i32>, i32)> {
    |s: (Seq<i32>, i32), i: int|
        {
            let (buckets, sum) = s;
            let b = buckets.update(2 * k + i, sum);
            let total = lane_sum(b, 2 * i, 2);
            if 0 <= i < k && 3 * k + i < buckets.len() && 2 * i + 1 < buckets.len() && total is Some
                && fits(sum + total->0) {
                Some((b.update(3 * k + i, (sum + total->0) as i32), (sum + total->0) as i32))
            } else {
                None
            }
        }
}

/// [`initialize_buckets_start_and_end_32s_4k_slot_step`] over the positions from `lo` to `hi`, upward.
pub open spec fn initialize_buckets_start_and_end_32s_4k_slot_run(k: int, s: (Seq<i32>, i32), lo: int, hi: int) -> Option<(Seq<i32>, i32)> {
    fold_up(initialize_buckets_start_and_end_32s_4k_slot_step(k), s, lo, hi)
}

/// Performs one step, or returns `false` where the step is outside its domain.
fn initialize_buckets_start_and_end_32s_4k_slot_at(
    k: usize,
    buckets: &mut [SaSint],
    sum: &mut SaSint,
    i: FastSint,
) -> (ok: bool)
    ensures
        ok == (initialize_buckets_start_and_end_32s_4k_slot_step(k as int)((old(buckets)@, *old(sum)), i as int) is Some),
        ok ==> initialize_buckets_start_and_end_32s_4k_slot_step(k as int)((old(buckets)@, *old(sum)), i as int) == Some((final(buckets)@, *final(sum))),
        final(buckets).len() == old(buckets).len(),
{
    if i < 0 || i as usize >= k {
        return false;
    }
    let j: usize = i as usize;
    if 3 * (k as u128) + j as u128 >= buckets.len() as u128
        || 2 * (j as u128) + 1 >= buckets.len() as u128 {
        return false;
    }
    let s0: SaSint = *sum;
    buckets[2 * k + j] = s0;
    let total: Option<SaSint> = sum_lanes(buckets, 2 * j, 2);
    let s1: Option<SaSint> = match total {
        Some(v) => fits_sum(s0, v),
        None => None,
    };
    match s1 {
        Some(v) => {
            buckets[3 * k + j] = v;
            *sum = v;
            true
        },
        None => false,
    }
}

/// Runs the steps as far as they are defined; `false` where one is not.
pub(crate) fn try_initialize_buckets_start_and_end_32s_4k_slot(
    k: usize,
    buckets: &mut [SaSint],
    sum: &mut SaSint,
    lo: FastSint,
    hi: FastSint,
) -> (ok: bool)
    ensures
        ok == (initialize_buckets_start_and_end_32s_4k_slot_run(k as int, (old(buckets)@, *old(sum)), lo as int, hi as int) is Some),
        ok ==> initialize_buckets_start_and_end_32s_4k_slot_run(k as int, (old(buckets)@, *old(sum)), lo as int, hi as int) == Some((final(buckets)@, *final(sum))),
        final(buckets).len() == old(buckets).len(),
{
    let mut i: FastSint = lo;
    let ghost step = initialize_buckets_start_and_end_32s_4k_slot_step(k as int);
    let ghost s0 = (buckets@, *sum);
    while i < hi
        invariant
            lo <= i,
            i <= hi || hi < lo,
            hi < lo ==> i == lo,
            step == initialize_buckets_start_and_end_32s_4k_slot_step(k as int),
            s0 == (old(buckets)@, *old(sum)),
            fold_up(step, s0, lo as int, i as int) == Some((buckets@, *sum)),
            buckets.len() == old(buckets).len(),
        decreases hi - i,
    {
        proof {
            lemma_fold_up_prefix(step, s0, lo as int, i + 1, hi as int);
        }
        if !initialize_buckets_start_and_end_32s_4k_slot_at(k, buckets, sum, i) {
            return false;
        }
        i += 1;
    }
    true
}

/// The bucket bounds of all `k` symbols, and their total.
pub open spec fn initialize_buckets_start_and_end_32s_4k_run(k: int, buckets: Seq<i32>) -> Option<(Seq<i32>, i32)> {
    if 0 <= k {
        initialize_buckets_start_and_end_32s_4k_slot_run(k, (buckets, 0), 0, k)
    } else {
        None
    }
}

/// Sets the first slot and the end of the bucket of each of the `k` symbols, from its 2 counters.
///
/// `false` where a slot or a sum is out of range.
pub(crate) fn try_initialize_buckets_start_and_end_32s_4k(
    k: SaSint,
    buckets: &mut [SaSint],
) -> (ok: bool)
    ensures
        ok == (initialize_buckets_start_and_end_32s_4k_run(k as int, old(buckets)@) is Some),
        ok ==> {
            let x = initialize_buckets_start_and_end_32s_4k_run(k as int, old(buckets)@)->0;
            final(buckets)@ == x.0
        },
        final(buckets).len() == old(buckets).len(),
{
    if k < 0 {
        return false;
    }
    let mut sum: SaSint = 0;
    try_initialize_buckets_start_and_end_32s_4k_slot(k as usize, buckets, &mut sum, 0, k as FastSint)
}

/// Sets the first slot and the end of the bucket of each of the `k` symbols, from its 2 counters.
pub fn initialize_buckets_start_and_end_32s_4k(
    k: SaSint,
    buckets: &mut [SaSint],
)
    requires
        initialize_buckets_start_and_end_32s_4k_run(k as int, old(buckets)@) is Some,
    ensures
        ({
            let x = initialize_buckets_start_and_end_32s_4k_run(k as int, old(buckets)@)->0;
            final(buckets)@ == x.0
        }),
{
    let _ok: bool = try_initialize_buckets_start_and_end_32s_4k(k, buckets);
}

/// Replaces the first counter of symbol `i` by the end of its bucket, with the running sum.
pub open spec fn initialize_buckets_end_32s_2k_slot_step(k: int) -> spec_fn((Seq<i32>, i32), int) -> Option<(Seq<i32>, i32)> {
    |s: (Seq<i32>, i32), i: int|
        {
            let (buckets, sum) = s;
            let total = lane_sum(buckets, 2 * i, 2);
            if 0 <= i < k && 2 * i + 1 < buckets.len() && total is Some && fits(sum + total->0) {
                Some((buckets.update(2 * i, (sum + total->0) as i32), (sum + total->0) as i32))
            } else {
                None
            }
        }
}

/// [`initialize_buckets_end_32s_2k_slot_step`] over the positions from `lo` to `hi`, upward.
pub open spec fn initialize_buckets_end_32s_2k_slot_run(k: int, s: (Seq<i32>, i32), lo: int, hi: int) -> Option<(Seq<i32>, i32)> {
    fold_up(initialize_buckets_end_32s_2k_slot_step(k), s, lo, hi)
}

/// Performs one step, or returns `false` where the step is outside its domain.
fn initialize_buckets_end_32s_2k_slot_at(
    k: usize,
    buckets: &mut [SaSint],
    sum: &mut SaSint,
    i: FastSint,
) -> (ok: bool)
    ensures
        ok == (initialize_buckets_end_32s_2k_slot_step(k as int)((old(buckets)@, *old(sum)), i as int) is Some),
        ok ==> initialize_buckets_end_32s_2k_slot_step(k as int)((old(buckets)@, *old(sum)), i as int) == Some((final(buckets)@, *final(sum))),
        final(buckets).len() == old(buckets).len(),
{
    if i < 0 || i as usize >= k {
        return false;
    }
    let j: usize = i as usize;
    if 2 * (j as u128) + 1 >= buckets.len() as u128 {
        return false;
    }
    let total: Option<SaSint> = sum_lanes(buckets, 2 * j, 2);
    let s1: Option<SaSint> = match total {
        Some(v) => fits_sum(*sum, v),
        None => None,
    };
    match s1 {
        Some(v) => {
            buckets[2 * j] = v;
            *sum = v;
            true
        },
        None => false,
    }
}

/// Runs the steps as far as they are defined; `false` where one is not.
pub(crate) fn try_initialize_buckets_end_32s_2k_slot(
    k: usize,
    buckets: &mut [SaSint],
    sum: &mut SaSint,
    lo: FastSint,
    hi: FastSint,
) -> (ok: bool)
    ensures
        ok == (initialize_buckets_end_32s_2k_slot_run(k as int, (old(buckets)@, *old(sum)), lo as int, hi as int) is Some),
        ok ==> initialize_buckets_end_32s_2k_slot_run(k as int, (old(buckets)@, *old(sum)), lo as int, hi as int) == Some((final(buckets)@, *final(sum))),
        final(buckets).len() == old(buckets).len(),
{
    let mut i: FastSint = lo;
    let ghost step = initialize_buckets_end_32s_2k_slot_step(k as int);
    let ghost s0 = (buckets@, *sum);
    while i < hi
        invariant
            lo <= i,
            i <= hi || hi < lo,
            hi < lo ==> i == lo,
            step == initialize_buckets_end_32s_2k_slot_step(k as int),
            s0 == (old(buckets)@, *old(sum)),
            fold_up(step, s0, lo as int, i as int) == Some((buckets@, *sum)),
            buckets.len() == old(buckets).len(),
        decreases hi - i,
    {
        proof {
            lemma_fold_up_prefix(step, s0, lo as int, i + 1, hi as int);
        }
        if !initialize_buckets_end_32s_2k_slot_at(k, buckets, sum, i) {
            return false;
        }
        i += 1;
    }
    true
}

/// Replaces the first of the two counters of each symbol by the end of its bucket.
pub open spec fn initialize_buckets_end_32s_2k_run(k: int, buckets: Seq<i32>) -> Option<(Seq<i32>, i32)> {
    if 0 <= k {
        initialize_buckets_end_32s_2k_slot_run(k, (buckets, 0), 0, k)
    } else {
        None
    }
}

/// Replaces the first of the two counters of each symbol by the end of its bucket.
///
/// `false` where a slot or a sum is out of range.
pub(crate) fn try_initialize_buckets_end_32s_2k(
    k: SaSint,
    buckets: &mut [SaSint],
) -> (ok: bool)
    ensures
        ok == (initialize_buckets_end_32s_2k_run(k as int, old(buckets)@) is Some),
        ok ==> {
            let x = initialize_buckets_end_32s_2k_run(k as int, old(buckets)@)->0;
            final(buckets)@ == x.0
        },
        final(buckets).len() == old(buckets).len(),
{
    if k < 0 {
        return false;
    }
    let mut sum: SaSint = 0;
    try_initialize_buckets_end_32s_2k_slot(k as usize, buckets, &mut sum, 0, k as FastSint)
}

/// Replaces the first of the two counters of each symbol by the end of its bucket.
pub fn initialize_buckets_end_32s_2k(
    k: SaSint,
    buckets: &mut [SaSint],
)
    requires
        initialize_buckets_end_32s_2k_run(k as int, old(buckets)@) is Some,
    ensures
        ({
            let x = initialize_buckets_end_32s_2k_run(k as int, old(buckets)@)->0;
            final(buckets)@ == x.0
        }),
{
    let _ok: bool = try_initialize_buckets_end_32s_2k(k, buckets);
}

/// Replaces the counter of symbol `i` by the first slot of its bucket, with the running sum.
pub open spec fn initialize_buckets_start_32s_1k_slot_step(k: int) -> spec_fn((Seq<i32>, i32), int) -> Option<(Seq<i32>, i32)> {
    |s: (Seq<i32>, i32), i: int|
        {
            let (buckets, sum) = s;
            let total = sum + buckets[i];
            if 0 <= i < k && i < buckets.len() && fits(total) {
                Some((buckets.update(i, sum), total as i32))
            } else {
                None
            }
        }
}

/// [`initialize_buckets_start_32s_1k_slot_step`] over the positions from `lo` to `hi`, upward.
pub open spec fn initialize_buckets_start_32s_1k_slot_run(k: int, s: (Seq<i32>, i32), lo: int, hi: int) -> Option<(Seq<i32>, i32)> {
    fold_up(initialize_buckets_start_32s_1k_slot_step(k), s, lo, hi)
}

/// Performs one step, or returns `false` where the step is outside its domain.
fn initialize_buckets_start_32s_1k_slot_at(
    k: usize,
    buckets: &mut [SaSint],
    sum: &mut SaSint,
    i: FastSint,
) -> (ok: bool)
    ensures
        ok == (initialize_buckets_start_32s_1k_slot_step(k as int)((old(buckets)@, *old(sum)), i as int) is Some),
        ok ==> initialize_buckets_start_32s_1k_slot_step(k as int)((old(buckets)@, *old(sum)), i as int) == Some((final(buckets)@, *final(sum))),
        final(buckets).len() == old(buckets).len(),
{
    if i < 0 || i as usize >= k || i as usize >= buckets.len() {
        return false;
    }
    let j: usize = i as usize;
    match fits_sum(*sum, buckets[j]) {
        Some(v) => {
            buckets[j] = *sum;
            *sum = v;
            true
        },
        None => false,
    }
}

/// Runs the steps as far as they are defined; `false` where one is not.
pub(crate) fn try_initialize_buckets_start_32s_1k_slot(
    k: usize,
    buckets: &mut [SaSint],
    sum: &mut SaSint,
    lo: FastSint,
    hi: FastSint,
) -> (ok: bool)
    ensures
        ok == (initialize_buckets_start_32s_1k_slot_run(k as int, (old(buckets)@, *old(sum)), lo as int, hi as int) is Some),
        ok ==> initialize_buckets_start_32s_1k_slot_run(k as int, (old(buckets)@, *old(sum)), lo as int, hi as int) == Some((final(buckets)@, *final(sum))),
        final(buckets).len() == old(buckets).len(),
{
    let mut i: FastSint = lo;
    let ghost step = initialize_buckets_start_32s_1k_slot_step(k as int);
    let ghost s0 = (buckets@, *sum);
    while i < hi
        invariant
            lo <= i,
            i <= hi || hi < lo,
            hi < lo ==> i == lo,
            step == initialize_buckets_start_32s_1k_slot_step(k as int),
            s0 == (old(buckets)@, *old(sum)),
            fold_up(step, s0, lo as int, i as int) == Some((buckets@, *sum)),
            buckets.len() == old(buckets).len(),
        decreases hi - i,
    {
        proof {
            lemma_fold_up_prefix(step, s0, lo as int, i + 1, hi as int);
        }
        if !initialize_buckets_start_32s_1k_slot_at(k, buckets, sum, i) {
            return false;
        }
        i += 1;
    }
    true
}

/// Replaces the counter of each symbol by the first slot of its bucket.
/// Only the slots that exist are rewritten.
pub open spec fn initialize_buckets_start_32s_1k_run(k: int, buckets: Seq<i32>) -> Option<(Seq<i32>, i32)> {
    if 0 <= k {
        initialize_buckets_start_32s_1k_slot_run(k, (buckets, 0), 0, if k <= buckets.len() { k } else { buckets.len() as int })
    } else {
        None
    }
}

/// Replaces the counter of each symbol by the first slot of its bucket.
/// Only the slots that exist are rewritten.
///
/// `false` where a slot or a sum is out of range.
pub(crate) fn try_initialize_buckets_start_32s_1k(
    k: SaSint,
    buckets: &mut [SaSint],
) -> (ok: bool)
    ensures
        ok == (initialize_buckets_start_32s_1k_run(k as int, old(buckets)@) is Some),
        ok ==> {
            let x = initialize_buckets_start_32s_1k_run(k as int, old(buckets)@)->0;
            final(buckets)@ == x.0
        },
        final(buckets).len() == old(buckets).len(),
{
    if k < 0 {
        return false;
    }
    let mut sum: SaSint = 0;
    let end: FastSint = if k as u64 <= buckets.len() as u64 { k as FastSint } else { buckets.len() as FastSint };
    try_initialize_buckets_start_32s_1k_slot(k as usize, buckets, &mut sum, 0, end)
}

/// Replaces the counter of each symbol by the first slot of its bucket.
/// Only the slots that exist are rewritten.
pub fn initialize_buckets_start_32s_1k(
    k: SaSint,
    buckets: &mut [SaSint],
)
    requires
        initialize_buckets_start_32s_1k_run(k as int, old(buckets)@) is Some,
    ensures
        ({
            let x = initialize_buckets_start_32s_1k_run(k as int, old(buckets)@)->0;
            final(buckets)@ == x.0
        }),
{
    let _ok: bool = try_initialize_buckets_start_32s_1k(k, buckets);
}

/// Replaces the counter of symbol `i` by the end of its bucket, with the running sum.
pub open spec fn initialize_buckets_end_32s_1k_slot_step(k: int) -> spec_fn((Seq<i32>, i32), int) -> Option<(Seq<i32>, i32)> {
    |s: (Seq<i32>, i32), i: int|
        {
            let (buckets, sum) = s;
            let total = sum + buckets[i];
            if 0 <= i < k && i < buckets.len() && fits(total) {
                Some((buckets.update(i, total as i32), total as i32))
            } else {
                None
            }
        }
}

/// [`initialize_buckets_end_32s_1k_slot_step`] over the positions from `lo` to `hi`, upward.
pub open spec fn initialize_buckets_end_32s_1k_slot_run(k: int, s: (Seq<i32>, i32), lo: int, hi: int) -> Option<(Seq<i32>, i32)> {
    fold_up(initialize_buckets_end_32s_1k_slot_step(k), s, lo, hi)
}

/// Performs one step, or returns `false` where the step is outside its domain.
fn initialize_buckets_end_32s_1k_slot_at(
    k: usize,
    buckets: &mut [SaSint],
    sum: &mut SaSint,
    i: FastSint,
) -> (ok: bool)
    ensures
        ok == (initialize_buckets_end_32s_1k_slot_step(k as int)((old(buckets)@, *old(sum)), i as int) is Some),
        ok ==> initialize_buckets_end_32s_1k_slot_step(k as int)((old(buckets)@, *old(sum)), i as int) == Some((final(buckets)@, *final(sum))),
        final(buckets).len() == old(buckets).len(),
{
    if i < 0 || i as usize >= k || i as usize >= buckets.len() {
        return false;
    }
    let j: usize = i as usize;
    match fits_sum(*sum, buckets[j]) {
        Some(v) => {
            buckets[j] = v;
            *sum = v;
            true
        },
        None => false,
    }
}

/// Runs the steps as far as they are defined; `false` where one is not.
pub(crate) fn try_initialize_buckets_end_32s_1k_slot(
    k: usize,
    buckets: &mut [SaSint],
    sum: &mut SaSint,
    lo: FastSint,
    hi: FastSint,
) -> (ok: bool)
    ensures
        ok == (initialize_buckets_end_32s_1k_slot_run(k as int, (old(buckets)@, *old(sum)), lo as int, hi as int) is Some),
        ok ==> initialize_buckets_end_32s_1k_slot_run(k as int, (old(buckets)@, *old(sum)), lo as int, hi as int) == Some((final(buckets)@, *final(sum))),
        final(buckets).len() == old(buckets).len(),
{
    let mut i: FastSint = lo;
    let ghost step = initialize_buckets_end_32s_1k_slot_step(k as int);
    let ghost s0 = (buckets@, *sum);
    while i < hi
        invariant
            lo <= i,
            i <= hi || hi < lo,
            hi < lo ==> i == lo,
            step == initialize_buckets_end_32s_1k_slot_step(k as int),
            s0 == (old(buckets)@, *old(sum)),
            fold_up(step, s0, lo as int, i as int) == Some((buckets@, *sum)),
            buckets.len() == old(buckets).len(),
        decreases hi - i,
    {
        proof {
            lemma_fold_up_prefix(step, s0, lo as int, i + 1, hi as int);
        }
        if !initialize_buckets_end_32s_1k_slot_at(k, buckets, sum, i) {
            return false;
        }
        i += 1;
    }
    true
}

/// Replaces the counter of each symbol by the end of its bucket.
/// Only the slots that exist are rewritten.
pub open spec fn initialize_buckets_end_32s_1k_run(k: int, buckets: Seq<i32>) -> Option<(Seq<i32>, i32)> {
    if 0 <= k {
        initialize_buckets_end_32s_1k_slot_run(k, (buckets, 0), 0, if k <= buckets.len() { k } else { buckets.len() as int })
    } else {
        None
    }
}

/// Replaces the counter of each symbol by the end of its bucket.
/// Only the slots that exist are rewritten.
///
/// `false` where a slot or a sum is out of range.
pub(crate) fn try_initialize_buckets_end_32s_1k(
    k: SaSint,
    buckets: &mut [SaSint],
) -> (ok: bool)
    ensures
        ok == (initialize_buckets_end_32s_1k_run(k as int, old(buckets)@) is Some),
        ok ==> {
            let x = initialize_buckets_end_32s_1k_run(k as int, old(buckets)@)->0;
            final(buckets)@ == x.0
        },
        final(buckets).len() == old(buckets).len(),
{
    if k < 0 {
        return false;
    }
    let mut sum: SaSint = 0;
    let end: FastSint = if k as u64 <= buckets.len() as u64 { k as FastSint } else { buckets.len() as FastSint };
    try_initialize_buckets_end_32s_1k_slot(k as usize, buckets, &mut sum, 0, end)
}

/// Replaces the counter of each symbol by the end of its bucket.
/// Only the slots that exist are rewritten.
pub fn initialize_buckets_end_32s_1k(
    k: SaSint,
    buckets: &mut [SaSint],
)
    requires
        initialize_buckets_end_32s_1k_run(k as int, old(buckets)@) is Some,
    ensures
        ({
            let x = initialize_buckets_end_32s_1k_run(k as int, old(buckets)@)->0;
            final(buckets)@ == x.0
        }),
{
    let _ok: bool = try_initialize_buckets_end_32s_1k(k, buckets);
}

/// The bucket bounds packed: the ends of the `k` buckets, which stand in every other
/// slot, and behind them their first slots.
pub open spec fn packed_bounds(k: int, buckets: Seq<i32>) -> Seq<i32> {
    Seq::new(buckets.len(), |i: int|
        if i < k {
            buckets[2 * i]
        } else if i == k {
            0
        } else if i < 2 * k {
            buckets[2 * (i - k - 1)]
        } else {
            buckets[i]
        })
}

/// Whether the slots of [`packed_bounds`] exist.
pub open spec fn packed_bounds_fit(k: int, len: int) -> bool {
    0 <= k < len && 2 * k <= len
}

/// Packs the ends of the `k` buckets and puts their first slots behind them.
///
/// `false` where a slot is out of range.
pub(crate) fn try_initialize_buckets_start_and_end_32s_2k(k: SaSint, buckets: &mut [SaSint]) -> (ok: bool)
    ensures
        ok == packed_bounds_fit(k as int, old(buckets).len() as int),
        ok ==> final(buckets)@ == packed_bounds(k as int, old(buckets)@),
        final(buckets).len() == old(buckets).len(),
{
    if k < 0 || k as u64 >= buckets.len() as u64 || 2 * (k as u64) > buckets.len() as u64 {
        return false;
    }
    let n: usize = k as usize;
    let mut j: usize = 0;
    while j < n
        invariant
            j <= n,
            n < buckets.len(),
            2 * n <= buckets.len(),
            buckets.len() == old(buckets).len(),
            forall|i: int| 0 <= i < j ==> buckets@[i] == old(buckets)@[2 * i],
            forall|i: int| j <= i < buckets.len() ==> buckets@[i] == old(buckets)@[i],
        decreases n - j,
    {
        buckets[j] = buckets[2 * j];
        j += 1;
    }
    buckets[n] = 0;
    j = 1;
    while j < n
        invariant
            1 <= j,
            if n == 0 { j == 1 } else { j <= n },
            n < buckets.len(),
            2 * n <= buckets.len(),
            buckets.len() == old(buckets).len(),
            forall|i: int| 0 <= i < n ==> buckets@[i] == old(buckets)@[2 * i],
            buckets@[n as int] == 0,
            forall|i: int| n < i < n + j ==> buckets@[i] == old(buckets)@[2 * (i - n - 1)],
            forall|i: int| n + j <= i < buckets.len() ==> buckets@[i] == old(buckets)@[i],
        decreases n - j,
    {
        buckets[n + j] = buckets[j - 1];
        j += 1;
    }
    assert(buckets@ =~= packed_bounds(k as int, old(buckets)@));
    true
}

/// Packs the ends of the `k` buckets and puts their first slots behind them.
pub fn initialize_buckets_start_and_end_32s_2k(k: SaSint, buckets: &mut [SaSint])
    requires
        packed_bounds_fit(k as int, old(buckets).len() as int),
    ensures
        final(buckets)@ == packed_bounds(k as int, old(buckets)@),
{
    let _ok: bool = try_initialize_buckets_start_and_end_32s_2k(k, buckets);
}

/// Sets the first slot and the end of the bucket of byte `i`, with the running sum and
/// one more than the greatest byte that occurs.
pub open spec fn initialize_buckets_start_and_end_8u_slot_step() -> spec_fn((Seq<i32>, i32, i32), int) -> Option<(Seq<i32>, i32, i32)> {
    |s: (Seq<i32>, i32, i32), i: int|
        {
            let (buckets, sum, k) = s;
            let b = buckets.update(1536 + i, sum);
            let total = lane_sum(b, 4 * i, 4);
            if 0 <= i < ALPHABET_SIZE && buckets.len() >= 2048 && total is Some && fits(sum + total->0) {
                Some((
                    b.update(1792 + i, (sum + total->0) as i32),
                    (sum + total->0) as i32,
                    if total->0 > 0 {
                        (i + 1) as i32
                    } else {
                        k
                    },
                ))
            } else {
                None
            }
        }
}

/// [`initialize_buckets_start_and_end_8u_slot_step`] over the positions from `lo` to `hi`, upward.
pub open spec fn initialize_buckets_start_and_end_8u_slot_run(s: (Seq<i32>, i32, i32), lo: int, hi: int) -> Option<(Seq<i32>, i32, i32)> {
    fold_up(initialize_buckets_start_and_end_8u_slot_step(), s, lo, hi)
}

/// Performs one step, or returns `false` where the step is outside its domain.
fn initialize_buckets_start_and_end_8u_slot_at(
    buckets: &mut [SaSint],
    sum: &mut SaSint,
    k: &mut SaSint,
    i: FastSint,
) -> (ok: bool)
    ensures
        ok == (initialize_buckets_start_and_end_8u_slot_step()((old(buckets)@, *old(sum), *old(k)), i as int) is Some),
        ok ==> initialize_buckets_start_and_end_8u_slot_step()((old(buckets)@, *old(sum), *old(k)), i as int) == Some((final(buckets)@, *final(sum), *final(k))),
        final(buckets).len() == old(buckets).len(),
{
    if i < 0 || i as usize >= ALPHABET_SIZE || buckets.len() < 2048 {
        return false;
    }
    let j: usize = i as usize;
    let s0: SaSint = *sum;
    buckets[1536 + j] = s0;
    match sum_lanes(buckets, 4 * j, 4) {
        Some(total) => match fits_sum(s0, total) {
            Some(v) => {
                buckets[1792 + j] = v;
                *sum = v;
                if total > 0 {
                    *k = (j + 1) as SaSint;
                }
                true
            },
            None => false,
        },
        None => false,
    }
}

/// Runs the steps as far as they are defined; `false` where one is not.
pub(crate) fn try_initialize_buckets_start_and_end_8u_slot(
    buckets: &mut [SaSint],
    sum: &mut SaSint,
    k: &mut SaSint,
    lo: FastSint,
    hi: FastSint,
) -> (ok: bool)
    ensures
        ok == (initialize_buckets_start_and_end_8u_slot_run((old(buckets)@, *old(sum), *old(k)), lo as int, hi as int) is Some),
        ok ==> initialize_buckets_start_and_end_8u_slot_run((old(buckets)@, *old(sum), *old(k)), lo as int, hi as int) == Some((final(buckets)@, *final(sum), *final(k))),
        final(buckets).len() == old(buckets).len(),
{
    let mut i: FastSint = lo;
    let ghost step = initialize_buckets_start_and_end_8u_slot_step();
    let ghost s0 = (buckets@, *sum, *k);
    while i < hi
        invariant
            lo <= i,
            i <= hi || hi < lo,
            hi < lo ==> i == lo,
            step == initialize_buckets_start_and_end_8u_slot_step(),
            s0 == (old(buckets)@, *old(sum), *old(k)),
            fold_up(step, s0, lo as int, i as int) == Some((buckets@, *sum, *k)),
            buckets.len() == old(buckets).len(),
        decreases hi - i,
    {
        proof {
            lemma_fold_up_prefix(step, s0, lo as int, i + 1, hi as int);
        }
        if !initialize_buckets_start_and_end_8u_slot_at(buckets, sum, k, i) {
            return false;
        }
        i += 1;
    }
    true
}

/// The bucket bounds of all bytes, their total, and one more than the greatest byte that
/// occurs.
pub open spec fn initialize_buckets_start_and_end_8u_run(buckets: Seq<i32>) -> Option<(Seq<i32>, i32, i32)> {
    initialize_buckets_start_and_end_8u_slot_run((buckets, 0, 0), 0, ALPHABET_SIZE as int)
}

/// How often byte `j` occurs, from its four counters.
pub open spec fn byte_count(buckets: Seq<i32>, j: int) -> int {
    buckets[4 * j] + buckets[4 * j + 1] + buckets[4 * j + 2] + buckets[4 * j + 3]
}

/// Whether the four counters of byte `j` add up, from the left, without overflow.
pub open spec fn count_fits(buckets: Seq<i32>, j: int) -> bool {
    &&& fits(buckets[4 * j] + buckets[4 * j + 1])
    &&& fits(buckets[4 * j] + buckets[4 * j + 1] + buckets[4 * j + 2])
    &&& fits(byte_count(buckets, j))
}

/// Sets the first slot and the end of the bucket of each byte.
///
/// `None` where a slot or a sum is out of range; otherwise one more than the greatest byte
/// that occurs.
pub(crate) fn try_initialize_buckets_start_and_end_8u(buckets: &mut [SaSint]) -> (r: Option<SaSint>)
    ensures
        r is Some == (initialize_buckets_start_and_end_8u_run(old(buckets)@) is Some),
        r is Some ==> {
            let x = initialize_buckets_start_and_end_8u_run(old(buckets)@)->0;
            final(buckets)@ == x.0 && r->0 == x.2
        },
        final(buckets).len() == old(buckets).len(),
{
    let mut sum: SaSint = 0;
    let mut k: SaSint = 0;
    if try_initialize_buckets_start_and_end_8u_slot(buckets, &mut sum, &mut k, 0, ALPHABET_SIZE as FastSint) {
        Some(k)
    } else {
        None
    }
}

/// Where the bounds exist, every byte count was summed without overflow and stands unchanged.
proof fn lemma_start_and_end_8u(buckets: Seq<i32>, hi: int)
    requires
        0 <= hi <= ALPHABET_SIZE,
        initialize_buckets_start_and_end_8u_slot_run((buckets, 0, 0), 0, hi) is Some,
    ensures
        ({
            let x = initialize_buckets_start_and_end_8u_slot_run((buckets, 0, 0), 0, hi)->0;
            &&& x.0.len() == buckets.len()
            &&& hi > 0 ==> buckets.len() >= 2048
            &&& forall|i: int| 0 <= i < 1024 && i < buckets.len() ==> x.0[i] == buckets[i]
            &&& forall|j: int| 0 <= j < hi ==> #[trigger] count_fits(buckets, j)
        }),
    decreases hi,
{
    if hi > 0 {
        lemma_start_and_end_8u(buckets, hi - 1);
        let x = initialize_buckets_start_and_end_8u_slot_run((buckets, 0, 0), 0, hi - 1)->0;
        let b = x.0.update(1536 + (hi - 1), x.1);
        reveal_with_fuel(lane_sum, 5);
        assert(lane_sum(b, 4 * (hi - 1), 4) is Some);
        assert(b[4 * (hi - 1)] == buckets[4 * (hi - 1)]);
        assert(b[4 * (hi - 1) + 1] == buckets[4 * (hi - 1) + 1]);
        assert(b[4 * (hi - 1) + 2] == buckets[4 * (hi - 1) + 2]);
        assert(b[4 * (hi - 1) + 3] == buckets[4 * (hi - 1) + 3]);
        assert(count_fits(buckets, hi - 1));
    }
}

/// Sets the first slot and the end of the bucket of each byte, and its frequency where
/// `freq` is given. Returns one more than the greatest byte that occurs.
pub fn initialize_buckets_start_and_end_8u(buckets: &mut [SaSint], freq: Option<&mut [SaSint]>) -> (r: SaSint)
    requires
        initialize_buckets_start_and_end_8u_run(old(buckets)@) is Some,
        freq matches Some(f) ==> f.len() >= ALPHABET_SIZE,
    ensures
        ({
            let x = initialize_buckets_start_and_end_8u_run(old(buckets)@)->0;
            final(buckets)@ == x.0 && r == x.2
        }),
        freq matches Some(f) ==> {
            &&& final(f).len() == f.len()
            &&& forall|j: int| 0 <= j < ALPHABET_SIZE ==> final(f)@[j] == byte_count(old(buckets)@, j)
            &&& forall|j: int| ALPHABET_SIZE <= j < f.len() ==> final(f)@[j] == f@[j]
        },
{
    let ghost b0 = buckets@;
    let k: SaSint = match try_initialize_buckets_start_and_end_8u(buckets) {
        Some(k) => k,
        None => 0,
    };
    proof {
        lemma_start_and_end_8u(b0, ALPHABET_SIZE as int);
    }
    match freq {
        Some(f) => {
            fill_frequencies(buckets, f, Ghost(b0));
        },
        None => {},
    }
    k
}

/// Writes the frequency of each byte, from its four counters.
fn fill_frequencies(buckets: &[SaSint], f: &mut [SaSint], Ghost(b0): Ghost<Seq<i32>>)
    requires
        buckets.len() >= 2048,
        old(f).len() >= ALPHABET_SIZE,
        forall|i: int| 0 <= i < 1024 ==> buckets@[i] == b0[i],
        forall|j: int| 0 <= j < ALPHABET_SIZE ==> #[trigger] count_fits(b0, j),
    ensures
        final(f).len() == old(f).len(),
        forall|j: int| 0 <= j < ALPHABET_SIZE ==> final(f)@[j] == byte_count(b0, j),
        forall|j: int| ALPHABET_SIZE <= j < old(f).len() ==> final(f)@[j] == old(f)@[j],
{
    let mut j: usize = 0;
    while j < ALPHABET_SIZE
        invariant
            j <= ALPHABET_SIZE,
            buckets.len() >= 2048,
            f.len() == old(f).len(),
            f.len() >= ALPHABET_SIZE,
            forall|i: int| 0 <= i < 1024 ==> buckets@[i] == b0[i],
            forall|j: int| 0 <= j < ALPHABET_SIZE ==> #[trigger] count_fits(b0, j),
            forall|i: int| 0 <= i < j ==> f@[i] == byte_count(b0, i),
            forall|i: int| j <= i < f.len() ==> f@[i] == old(f)@[i],
        decreases ALPHABET_SIZE - j,
    {
        assert(count_fits(b0, j as int));
        f[j] = buckets[4 * j] + buckets[4 * j + 1] + buckets[4 * j + 2] + buckets[4 * j + 3];
        j += 1;
    }
}

/// Takes the suffix at `i + 1` out of the counters by type. The state also says whether
/// that suffix is of type L.
pub open spec fn uncount_step(t: Seq<int>) -> spec_fn((Seq<i32>, bool), int) -> Option<(Seq<i32>, bool)> {
    |s: (Seq<i32>, bool), i: int|
        {
            let (buckets, f) = s;
            let c1 = t[i + 1];
            let c0 = if i >= 0 {
                t[i]
            } else {
                -0x8000_0002
            };
            let g = c0 > c1 - bit(f);
            let slot = 4 * c1 + 2 * bit(f) + bit(g);
            if -1 <= i && i + 1 < t.len() && 0 <= slot < buckets.len() && buckets[slot] > i32::MIN {
                Some((buckets.update(slot, (buckets[slot] - 1) as i32), g))
            } else {
                None
            }
        }
}

/// [`uncount_step`] over the positions from `lo` to `hi`, downward.
pub open spec fn uncount_run(t: Seq<int>, s: (Seq<i32>, bool), lo: int, hi: int) -> Option<(Seq<i32>, bool)> {
    fold_down(uncount_step(t), s, lo, hi)
}

/// Performs one step, or returns `false` where the step is outside its domain.
fn uncount_8u_at(
    t: &[u8],
    buckets: &mut [SaSint],
    f: &mut bool,
    i: FastSint,
) -> (ok: bool)
    ensures
        ok == (uncount_step(text8(t@))((old(buckets)@, *old(f)), i as int) is Some),
        ok ==> uncount_step(text8(t@))((old(buckets)@, *old(f)), i as int) == Some((final(buckets)@, *final(f))),
        final(buckets).len() == old(buckets).len(),
{
    if i < -1 {
        return false;
    }
    let j: usize = if i >= 0 { i as usize + 1 } else { 0 };
    if j >= t.len() {
        return false;
    }
    let c1: i64 = t[j] as i64;
    let c0: i64 = if i >= 0 { t[i as usize] as i64 } else { -0x8000_0002 };
    let g: bool = c0 > c1 - (if *f { 1 } else { 0 });
    let slot: i64 = 4 * c1 + (if *f { 2 } else { 0 }) + (if g { 1 } else { 0 });
    if !(0 <= slot && (slot as u64) < buckets.len() as u64) {
        return false;
    }
    let x: SaSint = buckets[slot as usize];
    if x == SaSint::MIN {
        return false;
    }
    buckets[slot as usize] = x - 1;
    *f = g;
    true
}

/// Runs the steps as far as they are defined; `false` where one is not.
pub(crate) fn try_uncount_8u(
    t: &[u8],
    buckets: &mut [SaSint],
    f: &mut bool,
    lo: FastSint,
    hi: FastSint,
) -> (ok: bool)
    ensures
        ok == (uncount_run(text8(t@), (old(buckets)@, *old(f)), lo as int, hi as int) is Some),
        ok ==> uncount_run(text8(t@), (old(buckets)@, *old(f)), lo as int, hi as int) == Some((final(buckets)@, *final(f))),
        final(buckets).len() == old(buckets).len(),
{
    if hi <= lo {
        return true;
    }
    let mut i: FastSint = hi;
    let ghost step = uncount_step(text8(t@));
    let ghost s0 = (buckets@, *f);
    while i > lo
        invariant
            lo <= i <= hi,
            step == uncount_step(text8(t@)),
            s0 == (old(buckets)@, *old(f)),
            fold_down(step, s0, i as int, hi as int) == Some((buckets@, *f)),
            buckets.len() == old(buckets).len(),
        decreases i - lo,
    {
        proof {
            lemma_fold_down_prefix(step, s0, lo as int, i - 1, hi as int);
        }
        i -= 1;
        if !uncount_8u_at(t, buckets, f, i) {
            return false;
        }
    }
    true
}

/// Performs one step, or returns `false` where the step is outside its domain.
fn uncount_32s_at(
    t: &[SaSint],
    buckets: &mut [SaSint],
    f: &mut bool,
    i: FastSint,
) -> (ok: bool)
    ensures
        ok == (uncount_step(text32(t@))((old(buckets)@, *old(f)), i as int) is Some),
        ok ==> uncount_step(text32(t@))((old(buckets)@, *old(f)), i as int) == Some((final(buckets)@, *final(f))),
        final(buckets).len() == old(buckets).len(),
{
    if i < -1 {
        return false;
    }
    let j: usize = if i >= 0 { i as usize + 1 } else { 0 };
    if j >= t.len() {
        return false;
    }
    let c1: i64 = t[j] as i64;
    let c0: i64 = if i >= 0 { t[i as usize] as i64 } else { -0x8000_0002 };
    let g: bool = c0 > c1 - (if *f { 1 } else { 0 });
    let slot: i64 = 4 * c1 + (if *f { 2 } else { 0 }) + (if g { 1 } else { 0 });
    if !(0 <= slot && (slot as u64) < buckets.len() as u64) {
        return false;
    }
    let x: SaSint = buckets[slot as usize];
    if x == SaSint::MIN {
        return false;
    }
    buckets[slot as usize] = x - 1;
    *f = g;
    true
}

/// Runs the steps as far as they are defined; `false` where one is not.
pub(crate) fn try_uncount_32s(
    t: &[SaSint],
    buckets: &mut [SaSint],
    f: &mut bool,
    lo: FastSint,
    hi: FastSint,
) -> (ok: bool)
    ensures
        ok == (uncount_run(text32(t@), (old(buckets)@, *old(f)), lo as int, hi as int) is Some),
        ok ==> uncount_run(text32(t@), (old(buckets)@, *old(f)), lo as int, hi as int) == Some((final(buckets)@, *final(f))),
        final(buckets).len() == old(buckets).len(),
{
    if hi <= lo {
        return true;
    }
    let mut i: FastSint = hi;
    let ghost step = uncount_step(text32(t@));
    let ghost s0 = (buckets@, *f);
    while i > lo
        invariant
            lo <= i <= hi,
            step == uncount_step(text32(t@)),
            s0 == (old(buckets)@, *old(f)),
            fold_down(step, s0, i as int, hi as int) == Some((buckets@, *f)),
            buckets.len() == old(buckets).len(),
        decreases i - lo,
    {
        proof {
            lemma_fold_down_prefix(step, s0, lo as int, i - 1, hi as int);
        }
        i -= 1;
        if !uncount_32s_at(t, buckets, f, i) {
            return false;
        }
    }
    true
}

/// Sets the bounds of the LMS bucket of byte `i`, with the running sum.
pub open spec fn radix_slot_8u_step() -> spec_fn((Seq<i32>, i32), int) -> Option<(Seq<i32>, i32)> {
    |s: (Seq<i32>, i32), i: int|
        {
            let (buckets, sum) = s;
            let b = buckets.update(1024 + 2 * i + 1, sum);
            let total = b[4 * i + 1] + b[4 * i + 3];
            if 0 <= i < ALPHABET_SIZE && buckets.len() >= 1536 && fits(total) && fits(sum + total) {
                Some((b.update(1024 + 2 * i, (sum + total) as i32), (sum + total) as i32))
            } else {
                None
            }
        }
}

/// [`radix_slot_8u_step`] over the positions from `lo` to `hi`, upward.
pub open spec fn radix_slot_8u_run(s: (Seq<i32>, i32), lo: int, hi: int) -> Option<(Seq<i32>, i32)> {
    fold_up(radix_slot_8u_step(), s, lo, hi)
}

/// Performs one step, or returns `false` where the step is outside its domain.
fn radix_slot_8u_at(
    buckets: &mut [SaSint],
    sum: &mut SaSint,
    i: FastSint,
) -> (ok: bool)
    ensures
        ok == (radix_slot_8u_step()((old(buckets)@, *old(sum)), i as int) is Some),
        ok ==> radix_slot_8u_step()((old(buckets)@, *old(sum)), i as int) == Some((final(buckets)@, *final(sum))),
        final(buckets).len() == old(buckets).len(),
{
    if i < 0 || i as usize >= ALPHABET_SIZE || buckets.len() < 1536 {
        return false;
    }
    let j: usize = i as usize;
    let s0: SaSint = *sum;
    buckets[1024 + 2 * j + 1] = s0;
    match fits_sum(buckets[4 * j + 1], buckets[4 * j + 3]) {
        Some(total) => match fits_sum(s0, total) {
            Some(v) => {
                buckets[1024 + 2 * j] = v;
                *sum = v;
                true
            },
            None => false,
        },
        None => false,
    }
}

/// Runs the steps as far as they are defined; `false` where one is not.
pub(crate) fn try_radix_slot_8u(
    buckets: &mut [SaSint],
    sum: &mut SaSint,
    lo: FastSint,
    hi: FastSint,
) -> (ok: bool)
    ensures
        ok == (radix_slot_8u_run((old(buckets)@, *old(sum)), lo as int, hi as int) is Some),
        ok ==> radix_slot_8u_run((old(buckets)@, *old(sum)), lo as int, hi as int) == Some((final(buckets)@, *final(sum))),
        final(buckets).len() == old(buckets).len(),
{
    let mut i: FastSint = lo;
    let ghost step = radix_slot_8u_step();
    let ghost s0 = (buckets@, *sum);
    while i < hi
        invariant
            lo <= i,
            i <= hi || hi < lo,
            hi < lo ==> i == lo,
            step == radix_slot_8u_step(),
            s0 == (old(buckets)@, *old(sum)),
            fold_up(step, s0, lo as int, i as int) == Some((buckets@, *sum)),
            buckets.len() == old(buckets).len(),
        decreases hi - i,
    {
        proof {
            lemma_fold_up_prefix(step, s0, lo as int, i + 1, hi as int);
        }
        if !radix_slot_8u_at(buckets, sum, i) {
            return false;
        }
        i += 1;
    }
    true
}

/// The LMS buckets of a byte text without what stands in front of its first LMS suffix,
/// and the number of LMS suffixes they hold.
pub open spec fn initialize_buckets_for_lms_suffixes_radix_sort_8u_run(
    t: Seq<int>,
    buckets: Seq<i32>,
    first: int,
) -> Option<(Seq<i32>, i32)> {
    match uncount_run(t, (buckets, false), -1, first) {
        Some(x) => if 0 <= first {
            radix_slot_8u_run((x.0, 0), 0, ALPHABET_SIZE as int)
        } else {
            None
        },
        None => None,
    }
}

/// Takes what stands in front of the first LMS suffix out of the counters and sets the
/// bounds of the LMS buckets. Returns how many suffixes these hold.
///
/// `None` where a slot or a sum is out of range.
pub(crate) fn try_initialize_buckets_for_lms_suffixes_radix_sort_8u(
    t: &[u8],
    buckets: &mut [SaSint],
    first_lms_suffix: SaSint,
) -> (r: Option<SaSint>)
    ensures
        r is Some == (initialize_buckets_for_lms_suffixes_radix_sort_8u_run(text8(t@), old(buckets)@, first_lms_suffix as int) is Some),
        r is Some ==> initialize_buckets_for_lms_suffixes_radix_sort_8u_run(text8(t@), old(buckets)@, first_lms_suffix as int) == Some((final(buckets)@, r->0)),
        final(buckets).len() == old(buckets).len(),
{
    if first_lms_suffix < 0 {
        return None;
    }
    let mut f: bool = false;
    if !try_uncount_8u(t, buckets, &mut f, -1, first_lms_suffix as FastSint) {
        return None;
    }
    let mut sum: SaSint = 0;
    if try_radix_slot_8u(buckets, &mut sum, 0, ALPHABET_SIZE as FastSint) {
        Some(sum)
    } else {
        None
    }
}

/// Takes what stands in front of the first LMS suffix out of the counters and sets the
/// bounds of the LMS buckets. Returns how many suffixes these hold.
pub fn initialize_buckets_for_lms_suffixes_radix_sort_8u(
    t: &[u8],
    buckets: &mut [SaSint],
    first_lms_suffix: SaSint,
) -> (r: SaSint)
    requires
        initialize_buckets_for_lms_suffixes_radix_sort_8u_run(text8(t@), old(buckets)@, first_lms_suffix as int) is Some,
    ensures
        initialize_buckets_for_lms_suffixes_radix_sort_8u_run(text8(t@), old(buckets)@, first_lms_suffix as int) == Some((final(buckets)@, r)),
{
    match try_initialize_buckets_for_lms_suffixes_radix_sort_8u(t, buckets, first_lms_suffix) {
        Some(r) => r,
        None => 0,
    }
}

/// Sets the end of the LMS bucket of symbol `i`, with the running sum.
pub open spec fn radix_slot_32s_6k_step(k: int) -> spec_fn((Seq<i32>, i32), int) -> Option<(Seq<i32>, i32)> {
    |s: (Seq<i32>, i32), i: int|
        {
            let (buckets, sum) = s;
            let total = buckets[4 * i + 1] + buckets[4 * i + 3];
            if 0 <= i < k && 4 * i + 3 < buckets.len() && 4 * k + i < buckets.len() && fits(total) && fits(sum + total) {
                Some((buckets.update(4 * k + i, (sum + total) as i32), (sum + total) as i32))
            } else {
                None
            }
        }
}

/// [`radix_slot_32s_6k_step`] over the positions from `lo` to `hi`, upward.
pub open spec fn radix_slot_32s_6k_run(k: int, s: (Seq<i32>, i32), lo: int, hi: int) -> Option<(Seq<i32>, i32)> {
    fold_up(radix_slot_32s_6k_step(k), s, lo, hi)
}

/// Performs one step, or returns `false` where the step is outside its domain.
fn radix_slot_32s_6k_at(
    k: usize,
    buckets: &mut [SaSint],
    sum: &mut SaSint,
    i: FastSint,
) -> (ok: bool)
    ensures
        ok == (radix_slot_32s_6k_step(k as int)((old(buckets)@, *old(sum)), i as int) is Some),
        ok ==> radix_slot_32s_6k_step(k as int)((old(buckets)@, *old(sum)), i as int) == Some((final(buckets)@, *final(sum))),
        final(buckets).len() == old(buckets).len(),
{
    if i < 0 || i as usize >= k {
        return false;
    }
    let j: usize = i as usize;
    if 4 * (k as u128) + j as u128 >= buckets.len() as u128 || 4 * (j as u128) + 3 >= buckets.len() as u128 {
        return false;
    }
    match fits_sum(buckets[4 * j + 1], buckets[4 * j + 3]) {
        Some(total) => match fits_sum(*sum, total) {
            Some(v) => {
                buckets[4 * k + j] = v;
                *sum = v;
                true
            },
            None => false,
        },
        None => false,
    }
}

/// Runs the steps as far as they are defined; `false` where one is not.
pub(crate) fn try_radix_slot_32s_6k(
    k: usize,
    buckets: &mut [SaSint],
    sum: &mut SaSint,
    lo: FastSint,
    hi: FastSint,
) -> (ok: bool)
    ensures
        ok == (radix_slot_32s_6k_run(k as int, (old(buckets)@, *old(sum)), lo as int, hi as int) is Some),
        ok ==> radix_slot_32s_6k_run(k as int, (old(buckets)@, *old(sum)), lo as int, hi as int) == Some((final(buckets)@, *final(sum))),
        final(buckets).len() == old(buckets).len(),
{
    let mut i: FastSint = lo;
    let ghost step = radix_slot_32s_6k_step(k as int);
    let ghost s0 = (buckets@, *sum);
    while i < hi
        invariant
            lo <= i,
            i <= hi || hi < lo,
            hi < lo ==> i == lo,
            step == radix_slot_32s_6k_step(k as int),
            s0 == (old(buckets)@, *old(sum)),
            fold_up(step, s0, lo as int, i as int) == Some((buckets@, *sum)),
            buckets.len() == old(buckets).len(),
        decreases hi - i,
    {
        proof {
            lemma_fold_up_prefix(step, s0, lo as int, i + 1, hi as int);
        }
        if !radix_slot_32s_6k_at(k, buckets, sum, i) {
            return false;
        }
        i += 1;
    }
    true
}

/// The LMS buckets of an integer text without what stands in front of its first LMS
/// suffix, and the number of LMS suffixes they hold.
pub open spec fn initialize_buckets_for_lms_suffixes_radix_sort_32s_6k_run(
    t: Seq<int>,
    k: int,
    buckets: Seq<i32>,
    first: int,
) -> Option<(Seq<i32>, i32)> {
    match uncount_run(t, (buckets, false), -1, first) {
        Some(x) => if 0 <= first && 0 <= k {
            radix_slot_32s_6k_run(k, (x.0, 0), 0, k)
        } else {
            None
        },
        None => None,
    }
}

/// Takes what stands in front of the first LMS suffix out of the counters and sets the
/// ends of the LMS buckets. Returns how many suffixes these hold.
///
/// `None` where a slot or a sum is out of range.
pub(crate) fn try_initialize_buckets_for_lms_suffixes_radix_sort_32s_6k(
    t: &[SaSint],
    k: SaSint,
    buckets: &mut [SaSint],
    first_lms_suffix: SaSint,
) -> (r: Option<SaSint>)
    ensures
        r is Some == (initialize_buckets_for_lms_suffixes_radix_sort_32s_6k_run(text32(t@), k as int, old(buckets)@, first_lms_suffix as int) is Some),
        r is Some ==> initialize_buckets_for_lms_suffixes_radix_sort_32s_6k_run(text32(t@), k as int, old(buckets)@, first_lms_suffix as int) == Some((final(buckets)@, r->0)),
        final(buckets).len() == old(buckets).len(),
{
    if first_lms_suffix < 0 || k < 0 {
        return None;
    }
    let mut f: bool = false;
    if !try_uncount_32s(t, buckets, &mut f, -1, first_lms_suffix as FastSint) {
        return None;
    }
    let mut sum: SaSint = 0;
    if try_radix_slot_32s_6k(k as usize, buckets, &mut sum, 0, k as FastSint) {
        Some(sum)
    } else {
        None
    }
}

/// Takes what stands in front of the first LMS suffix out of the counters and sets the
/// ends of the LMS buckets. Returns how many suffixes these hold.
pub fn initialize_buckets_for_lms_suffixes_radix_sort_32s_6k(
    t: &[SaSint],
    k: SaSint,
    buckets: &mut [SaSint],
    first_lms_suffix: SaSint,
) -> (r: SaSint)
    requires
        initialize_buckets_for_lms_suffixes_radix_sort_32s_6k_run(text32(t@), k as int, old(buckets)@, first_lms_suffix as int) is Some,
    ensures
        initialize_buckets_for_lms_suffixes_radix_sort_32s_6k_run(text32(t@), k as int, old(buckets)@, first_lms_suffix as int) == Some((final(buckets)@, r)),
{
    match try_initialize_buckets_for_lms_suffixes_radix_sort_32s_6k(t, k, buckets, first_lms_suffix) {
        Some(r) => r,
        None => 0,
    }
}

/// Moves the first LMS suffix, with symbol `c`, among the other suffixes of its symbol.
pub open spec fn first_lms_moved(b: Seq<i32>, c: int) -> Option<Seq<i32>> {
    if 0 <= c && 2 * c + 1 < b.len() && fits(b[2 * c] + 1) && fits(b[2 * c + 1] - 1) {
        Some(b.update(2 * c, (b[2 * c] + 1) as i32).update(2 * c + 1, (b[2 * c + 1] - 1) as i32))
    } else {
        None
    }
}

/// Moves the first LMS suffix among the other suffixes of its symbol.
fn move_first_lms(b: &mut [SaSint], c: SaSint) -> (ok: bool)
    ensures
        ok == (first_lms_moved(old(b)@, c as int) is Some),
        ok ==> first_lms_moved(old(b)@, c as int) == Some(final(b)@),
        final(b).len() == old(b).len(),
{
    if c < 0 || 2 * (c as u64) + 1 >= b.len() as u64 {
        return false;
    }
    let v: usize = 2 * (c as usize);
    if b[v] == SaSint::MAX || b[v + 1] == SaSint::MIN {
        return false;
    }
    b[v] = b[v] + 1;
    b[v + 1] = b[v + 1] - 1;
    true
}

/// Replaces the counters of symbol `i` by the ends of its bucket and of its LMS bucket.
pub open spec fn radix_slot_32s_2k_step(k: int) -> spec_fn((Seq<i32>, i32, i32), int) -> Option<(Seq<i32>, i32, i32)> {
    |s: (Seq<i32>, i32, i32), i: int|
        {
            let (buckets, sum0, sum1) = s;
            let total = buckets[2 * i] + buckets[2 * i + 1];
            if 0 <= i < k && 2 * i + 1 < buckets.len() && fits(total) && fits(sum0 + total) && fits(sum1 + buckets[2 * i + 1]) {
                Some((
                    buckets.update(2 * i, (sum0 + total) as i32).update(2 * i + 1, (sum1 + buckets[2 * i + 1]) as i32),
                    (sum0 + total) as i32,
                    (sum1 + buckets[2 * i + 1]) as i32,
                ))
            } else {
                None
            }
        }
}

/// [`radix_slot_32s_2k_step`] over the positions from `lo` to `hi`, upward.
pub open spec fn radix_slot_32s_2k_run(k: int, s: (Seq<i32>, i32, i32), lo: int, hi: int) -> Option<(Seq<i32>, i32, i32)> {
    fold_up(radix_slot_32s_2k_step(k), s, lo, hi)
}

/// Performs one step, or returns `false` where the step is outside its domain.
fn radix_slot_32s_2k_at(
    k: usize,
    buckets: &mut [SaSint],
    sum0: &mut SaSint,
    sum1: &mut SaSint,
    i: FastSint,
) -> (ok: bool)
    ensures
        ok == (radix_slot_32s_2k_step(k as int)((old(buckets)@, *old(sum0), *old(sum1)), i as int) is Some),
        ok ==> radix_slot_32s_2k_step(k as int)((old(buckets)@, *old(sum0), *old(sum1)), i as int) == Some((final(buckets)@, *final(sum0), *final(sum1))),
        final(buckets).len() == old(buckets).len(),
{
    if i < 0 || i as usize >= k {
        return false;
    }
    let j: usize = i as usize;
    if 2 * (j as u128) + 1 >= buckets.len() as u128 {
        return false;
    }
    let total: SaSint = match fits_sum(buckets[2 * j], buckets[2 * j + 1]) {
        Some(v) => v,
        None => return false,
    };
    let s0: SaSint = match fits_sum(*sum0, total) {
        Some(v) => v,
        None => return false,
    };
    let s1: SaSint = match fits_sum(*sum1, buckets[2 * j + 1]) {
        Some(v) => v,
        None => return false,
    };
    buckets[2 * j] = s0;
    buckets[2 * j + 1] = s1;
    *sum0 = s0;
    *sum1 = s1;
    true
}

/// Runs the steps as far as they are defined; `false` where one is not.
pub(crate) fn try_radix_slot_32s_2k(
    k: usize,
    buckets: &mut [SaSint],
    sum0: &mut SaSint,
    sum1: &mut SaSint,
    lo: FastSint,
    hi: FastSint,
) -> (ok: bool)
    ensures
        ok == (radix_slot_32s_2k_run(k as int, (old(buckets)@, *old(sum0), *old(sum1)), lo as int, hi as int) is Some),
        ok ==> radix_slot_32s_2k_run(k as int, (old(buckets)@, *old(sum0), *old(sum1)), lo as int, hi as int) == Some((final(buckets)@, *final(sum0), *final(sum1))),
        final(buckets).len() == old(buckets).len(),
{
    let mut i: FastSint = lo;
    let ghost step = radix_slot_32s_2k_step(k as int);
    let ghost s0 = (buckets@, *sum0, *sum1);
    while i < hi
        invariant
            lo <= i,
            i <= hi || hi < lo,
            hi < lo ==> i == lo,
            step == radix_slot_32s_2k_step(k as int),
            s0 == (old(buckets)@, *old(sum0), *old(sum1)),
            fold_up(step, s0, lo as int, i as int) == Some((buckets@, *sum0, *sum1)),
            buckets.len() == old(buckets).len(),
        decreases hi - i,
    {
        proof {
            lemma_fold_up_prefix(step, s0, lo as int, i + 1, hi as int);
        }
        if !radix_slot_32s_2k_at(k, buckets, sum0, sum1, i) {
            return false;
        }
        i += 1;
    }
    true
}

/// The ends of the buckets and of the LMS buckets, the first LMS suffix set aside.
pub open spec fn initialize_buckets_for_lms_suffixes_radix_sort_32s_2k_run(
    t: Seq<i32>,
    k: int,
    buckets: Seq<i32>,
    first: int,
) -> Option<(Seq<i32>, i32, i32)> {
    if 0 <= first < t.len() && 0 <= k && first_lms_moved(buckets, t[first] as int) is Some {
        radix_slot_32s_2k_run(k, (first_lms_moved(buckets, t[first] as int)->0, 0, 0), 0, k)
    } else {
        None
    }
}

/// Sets the first LMS suffix aside and replaces the counters of each symbol by the ends of
/// its bucket and of its LMS bucket.
///
/// `false` where a slot or a sum is out of range.
pub(crate) fn try_initialize_buckets_for_lms_suffixes_radix_sort_32s_2k(
    t: &[SaSint],
    k: SaSint,
    buckets: &mut [SaSint],
    first_lms_suffix: SaSint,
) -> (ok: bool)
    ensures
        ok == (initialize_buckets_for_lms_suffixes_radix_sort_32s_2k_run(t@, k as int, old(buckets)@, first_lms_suffix as int) is Some),
        ok ==> {
            let x = initialize_buckets_for_lms_suffixes_radix_sort_32s_2k_run(t@, k as int, old(buckets)@, first_lms_suffix as int)->0;
            final(buckets)@ == x.0
        },
        final(buckets).len() == old(buckets).len(),
{
    if !within(first_lms_suffix, t.len()) || k < 0 {
        return false;
    }
    if !move_first_lms(buckets, t[first_lms_suffix as usize]) {
        return false;
    }
    let mut sum0: SaSint = 0;
    let mut sum1: SaSint = 0;
    try_radix_slot_32s_2k(k as usize, buckets, &mut sum0, &mut sum1, 0, k as FastSint)
}

/// Sets the first LMS suffix aside and replaces the counters of each symbol by the ends of
/// its bucket and of its LMS bucket.
pub fn initialize_buckets_for_lms_suffixes_radix_sort_32s_2k(
    t: &[SaSint],
    k: SaSint,
    buckets: &mut [SaSint],
    first_lms_suffix: SaSint,
)
    requires
        initialize_buckets_for_lms_suffixes_radix_sort_32s_2k_run(t@, k as int, old(buckets)@, first_lms_suffix as int) is Some,
    ensures
        ({
            let x = initialize_buckets_for_lms_suffixes_radix_sort_32s_2k_run(t@, k as int, old(buckets)@, first_lms_suffix as int)->0;
            final(buckets)@ == x.0
        }),
{
    let _ok: bool = try_initialize_buckets_for_lms_suffixes_radix_sort_32s_2k(t, k, buckets, first_lms_suffix);
}

/// Sets the first slot and the end of the bucket of symbol `i`, and the end of its LMS bucket.
pub open spec fn radix_and_partial_slot_32s_4k_step(k: int) -> spec_fn((Seq<i32>, i32, i32), int) -> Option<(Seq<i32>, i32, i32)> {
    |s: (Seq<i32>, i32, i32), i: int|
        {
            let (buckets, sum0, sum1) = s;
            let b = buckets.update(2 * k + i, sum1);
            let s0 = sum0 + b[2 * i + 1];
            let total = b[2 * i] + b[2 * i + 1];
            if 0 <= i < k && 2 * i + 1 < buckets.len() && 3 * k + i < buckets.len() && fits(s0) && fits(total) && fits(sum1 + total) {
                Some((
                    b.update(2 * i + 1, s0 as i32).update(3 * k + i, (sum1 + total) as i32),
                    s0 as i32,
                    (sum1 + total) as i32,
                ))
            } else {
                None
            }
        }
}

/// [`radix_and_partial_slot_32s_4k_step`] over the positions from `lo` to `hi`, upward.
pub open spec fn radix_and_partial_slot_32s_4k_run(k: int, s: (Seq<i32>, i32, i32), lo: int, hi: int) -> Option<(Seq<i32>, i32, i32)> {
    fold_up(radix_and_partial_slot_32s_4k_step(k), s, lo, hi)
}

/// Performs one step, or returns `false` where the step is outside its domain.
fn radix_and_partial_slot_32s_4k_at(
    k: usize,
    buckets: &mut [SaSint],
    sum0: &mut SaSint,
    sum1: &mut SaSint,
    i: FastSint,
) -> (ok: bool)
    ensures
        ok == (radix_and_partial_slot_32s_4k_step(k as int)((old(buckets)@, *old(sum0), *old(sum1)), i as int) is Some),
        ok ==> radix_and_partial_slot_32s_4k_step(k as int)((old(buckets)@, *old(sum0), *old(sum1)), i as int) == Some((final(buckets)@, *final(sum0), *final(sum1))),
        final(buckets).len() == old(buckets).len(),
{
    if i < 0 || i as usize >= k {
        return false;
    }
    let j: usize = i as usize;
    if 2 * (j as u128) + 1 >= buckets.len() as u128 || 3 * (k as u128) + j as u128 >= buckets.len() as u128 {
        return false;
    }
    buckets[2 * k + j] = *sum1;
    let s0: SaSint = match fits_sum(*sum0, buckets[2 * j + 1]) {
        Some(v) => v,
        None => return false,
    };
    let total: SaSint = match fits_sum(buckets[2 * j], buckets[2 * j + 1]) {
        Some(v) => v,
        None => return false,
    };
    let s1: SaSint = match fits_sum(*sum1, total) {
        Some(v) => v,
        None => return false,
    };
    buckets[2 * j + 1] = s0;
    buckets[3 * k + j] = s1;
    *sum0 = s0;
    *sum1 = s1;
    true
}

/// Runs the steps as far as they are defined; `false` where one is not.
pub(crate) fn try_radix_and_partial_slot_32s_4k(
    k: usize,
    buckets: &mut [SaSint],
    sum0: &mut SaSint,
    sum1: &mut SaSint,
    lo: FastSint,
    hi: FastSint,
) -> (ok: bool)
    ensures
        ok == (radix_and_partial_slot_32s_4k_run(k as int, (old(buckets)@, *old(sum0), *old(sum1)), lo as int, hi as int) is Some),
        ok ==> radix_and_partial_slot_32s_4k_run(k as int, (old(buckets)@, *old(sum0), *old(sum1)), lo as int, hi as int) == Some((final(buckets)@, *final(sum0), *final(sum1))),
        final(buckets).len() == old(buckets).len(),
{
    let mut i: FastSint = lo;
    let ghost step = radix_and_partial_slot_32s_4k_step(k as int);
    let ghost s0 = (buckets@, *sum0, *sum1);
    while i < hi
        invariant
            lo <= i,
            i <= hi || hi < lo,
            hi < lo ==> i == lo,
            step == radix_and_partial_slot_32s_4k_step(k as int),
            s0 == (old(buckets)@, *old(sum0), *old(sum1)),
            fold_up(step, s0, lo as int, i as int) == Some((buckets@, *sum0, *sum1)),
            buckets.len() == old(buckets).len(),
        decreases hi - i,
    {
        proof {
            lemma_fold_up_prefix(step, s0, lo as int, i + 1, hi as int);
        }
        if !radix_and_partial_slot_32s_4k_at(k, buckets, sum0, sum1, i) {
            return false;
        }
        i += 1;
    }
    true
}

/// The bucket bounds and the ends of the LMS buckets, the first LMS suffix set aside.
pub open spec fn initialize_buckets_for_radix_and_partial_sorting_32s_4k_run(
    t: Seq<i32>,
    k: int,
    buckets: Seq<i32>,
    first: int,
) -> Option<(Seq<i32>, i32, i32)> {
    if 0 <= first < t.len() && 0 <= k && first_lms_moved(buckets, t[first] as int) is Some {
        radix_and_partial_slot_32s_4k_run(k, (first_lms_moved(buckets, t[first] as int)->0, 0, 0), 0, k)
    } else {
        None
    }
}

/// Sets the first LMS suffix aside and sets the bounds of each bucket and the end of its
/// LMS bucket.
///
/// `false` where a slot or a sum is out of range.
pub(crate) fn try_initialize_buckets_for_radix_and_partial_sorting_32s_4k(
    t: &[SaSint],
    k: SaSint,
    buckets: &mut [SaSint],
    first_lms_suffix: SaSint,
) -> (ok: bool)
    ensures
        ok == (initialize_buckets_for_radix_and_partial_sorting_32s_4k_run(t@, k as int, old(buckets)@, first_lms_suffix as int) is Some),
        ok ==> {
            let x = initialize_buckets_for_radix_and_partial_sorting_32s_4k_run(t@, k as int, old(buckets)@, first_lms_suffix as int)->0;
            final(buckets)@ == x.0
        },
        final(buckets).len() == old(buckets).len(),
{
    if !within(first_lms_suffix, t.len()) || k < 0 {
        return false;
    }
    if !move_first_lms(buckets, t[first_lms_suffix as usize]) {
        return false;
    }
    let mut sum0: SaSint = 0;
    let mut sum1: SaSint = 0;
    try_radix_and_partial_slot_32s_4k(k as usize, buckets, &mut sum0, &mut sum1, 0, k as FastSint)
}

/// Sets the first LMS suffix aside and sets the bounds of each bucket and the end of its
/// LMS bucket.
pub fn initialize_buckets_for_radix_and_partial_sorting_32s_4k(
    t: &[SaSint],
    k: SaSint,
    buckets: &mut [SaSint],
    first_lms_suffix: SaSint,
)
    requires
        initialize_buckets_for_radix_and_partial_sorting_32s_4k_run(t@, k as int, old(buckets)@, first_lms_suffix as int) is Some,
    ensures
        ({
            let x = initialize_buckets_for_radix_and_partial_sorting_32s_4k_run(t@, k as int, old(buckets)@, first_lms_suffix as int)->0;
            final(buckets)@ == x.0
        }),
{
    let _ok: bool = try_initialize_buckets_for_radix_and_partial_sorting_32s_4k(t, k, buckets, first_lms_suffix);
}

/// Sets the bounds of the buckets of byte `i` for the two scans.
pub open spec fn partial_slot_8u_step() -> spec_fn((Seq<i32>, i32, i32), int) -> Option<(Seq<i32>, i32, i32)> {
    |s: (Seq<i32>, i32, i32), i: int|
        {
            let (buckets, sum0, sum1) = s;
            let b = buckets.update(1024 + 2 * i, sum0);
            let total = b[4 * i] + b[4 * i + 2];
            let s1 = sum1 + b[4 * i + 1];
            if 0 <= i < ALPHABET_SIZE && buckets.len() >= 1535 && fits(total) && fits(sum0 + total) && fits(s1) {
                Some((
                    b.update(2 * i, (sum0 + total) as i32).update(2 * i + 1, s1 as i32),
                    (sum0 + total) as i32,
                    s1 as i32,
                ))
            } else {
                None
            }
        }
}

/// [`partial_slot_8u_step`] over the positions from `lo` to `hi`, upward.
pub open spec fn partial_slot_8u_run(s: (Seq<i32>, i32, i32), lo: int, hi: int) -> Option<(Seq<i32>, i32, i32)> {
    fold_up(partial_slot_8u_step(), s, lo, hi)
}

/// Performs one step, or returns `false` where the step is outside its domain.
fn partial_slot_8u_at(
    buckets: &mut [SaSint],
    sum0: &mut SaSint,
    sum1: &mut SaSint,
    i: FastSint,
) -> (ok: bool)
    ensures
        ok == (partial_slot_8u_step()((old(buckets)@, *old(sum0), *old(sum1)), i as int) is Some),
        ok ==> partial_slot_8u_step()((old(buckets)@, *old(sum0), *old(sum1)), i as int) == Some((final(buckets)@, *final(sum0), *final(sum1))),
        final(buckets).len() == old(buckets).len(),
{
    if i < 0 || i as usize >= ALPHABET_SIZE || buckets.len() < 1535 {
        return false;
    }
    let j: usize = i as usize;
    buckets[1024 + 2 * j] = *sum0;
    let total: SaSint = match fits_sum(buckets[4 * j], buckets[4 * j + 2]) {
        Some(v) => v,
        None => return false,
    };
    let s0: SaSint = match fits_sum(*sum0, total) {
        Some(v) => v,
        None => return false,
    };
    let s1: SaSint = match fits_sum(*sum1, buckets[4 * j + 1]) {
        Some(v) => v,
        None => return false,
    };
    buckets[2 * j] = s0;
    buckets[2 * j + 1] = s1;
    *sum0 = s0;
    *sum1 = s1;
    true
}

/// Runs the steps as far as they are defined; `false` where one is not.
pub(crate) fn try_partial_slot_8u(
    buckets: &mut [SaSint],
    sum0: &mut SaSint,
    sum1: &mut SaSint,
    lo: FastSint,
    hi: FastSint,
) -> (ok: bool)
    ensures
        ok == (partial_slot_8u_run((old(buckets)@, *old(sum0), *old(sum1)), lo as int, hi as int) is Some),
        ok ==> partial_slot_8u_run((old(buckets)@, *old(sum0), *old(sum1)), lo as int, hi as int) == Some((final(buckets)@, *final(sum0), *final(sum1))),
        final(buckets).len() == old(buckets).len(),
{
    let mut i: FastSint = lo;
    let ghost step = partial_slot_8u_step();
    let ghost s0 = (buckets@, *sum0, *sum1);
    while i < hi
        invariant
            lo <= i,
            i <= hi || hi < lo,
            hi < lo ==> i == lo,
            step == partial_slot_8u_step(),
            s0 == (old(buckets)@, *old(sum0), *old(sum1)),
            fold_up(step, s0, lo as int, i as int) == Some((buckets@, *sum0, *sum1)),
            buckets.len() == old(buckets).len(),
        decreases hi - i,
    {
        proof {
            lemma_fold_up_prefix(step, s0, lo as int, i + 1, hi as int);
        }
        if !partial_slot_8u_at(buckets, sum0, sum1, i) {
            return false;
        }
        i += 1;
    }
    true
}

/// The buckets for the two scans over a byte text, the first LMS suffix counted again.
pub open spec fn initialize_buckets_for_partial_sorting_8u_run(
    t: Seq<u8>,
    buckets: Seq<i32>,
    first: int,
    left: int,
) -> Option<(Seq<i32>, i32, i32)> {
    let v = 4 * t[first] + 1;
    if 0 <= first < t.len() && v < buckets.len() && fits(buckets[v] + 1) && fits(left + 1) {
        partial_slot_8u_run(
            (buckets.update(v, (buckets[v] + 1) as i32), (left + 1) as i32, 0), 0, ALPHABET_SIZE as int)
    } else {
        None
    }
}

/// Counts the first LMS suffix again and sets the buckets for the two scans over the LMS
/// substrings.
///
/// `false` where a slot or a sum is out of range.
pub(crate) fn try_initialize_buckets_for_partial_sorting_8u(
    t: &[u8],
    buckets: &mut [SaSint],
    first_lms_suffix: SaSint,
    left_suffixes_count: SaSint,
) -> (ok: bool)
    ensures
        ok == (initialize_buckets_for_partial_sorting_8u_run(t@, old(buckets)@, first_lms_suffix as int, left_suffixes_count as int) is Some),
        ok ==> {
            let x = initialize_buckets_for_partial_sorting_8u_run(t@, old(buckets)@, first_lms_suffix as int, left_suffixes_count as int)->0;
            final(buckets)@ == x.0
        },
        final(buckets).len() == old(buckets).len(),
{
    if !within(first_lms_suffix, t.len()) || left_suffixes_count == SaSint::MAX {
        return false;
    }
    let v: usize = 4 * (t[first_lms_suffix as usize] as usize) + 1;
    if v >= buckets.len() || buckets[v] == SaSint::MAX {
        return false;
    }
    buckets[v] = buckets[v] + 1;
    let mut sum0: SaSint = left_suffixes_count + 1;
    let mut sum1: SaSint = 0;
    try_partial_slot_8u(buckets, &mut sum0, &mut sum1, 0, ALPHABET_SIZE as FastSint)
}

/// Counts the first LMS suffix again and sets the buckets for the two scans over the LMS
/// substrings.
pub fn initialize_buckets_for_partial_sorting_8u(
    t: &[u8],
    buckets: &mut [SaSint],
    first_lms_suffix: SaSint,
    left_suffixes_count: SaSint,
)
    requires
        initialize_buckets_for_partial_sorting_8u_run(t@, old(buckets)@, first_lms_suffix as int, left_suffixes_count as int) is Some,
    ensures
        ({
            let x = initialize_buckets_for_partial_sorting_8u_run(t@, old(buckets)@, first_lms_suffix as int, left_suffixes_count as int)->0;
            final(buckets)@ == x.0
        }),
{
    let _ok: bool = try_initialize_buckets_for_partial_sorting_8u(t, buckets, first_lms_suffix, left_suffixes_count);
}

/// Sets the six buckets of symbol `i` for the two scans, with the running sums.
pub open spec fn partial_slot_32s_6k_step(k: int) -> spec_fn((Seq<i32>, i32, i32, i32), int) -> Option<(Seq<i32>, i32, i32, i32)> {
    |s: (Seq<i32>, i32, i32, i32), i: int|
        {
            let (buckets, sum0, sum1, sum2) = s;
            let ss = buckets[4 * i];
            let ls = buckets[4 * i + 1];
            let sl = buckets[4 * i + 2];
            let ll = buckets[4 * i + 3];
            let s0 = sum0 + (ss + sl);
            let s1 = sum1 + ls;
            let s2 = sum2 + (ls + ll);
            if 0 <= i < k && 4 * i + 3 < buckets.len() && 4 * k + 2 * i + 1 < buckets.len() && fits(ss + sl) && fits(s0) && fits(s1)
                && fits(ls + ll) && fits(s2) {
                Some((
                    buckets.update(4 * i, sum0).update(4 * i + 1, sum2).update(4 * i + 2, 0).update(4 * i + 3, 0)
                        .update(4 * k + 2 * i, s0 as i32).update(4 * k + 2 * i + 1, s1 as i32),
                    s0 as i32,
                    s1 as i32,
                    s2 as i32,
                ))
            } else {
                None
            }
        }
}

/// [`partial_slot_32s_6k_step`] over the positions from `lo` to `hi`, upward.
pub open spec fn partial_slot_32s_6k_run(k: int, s: (Seq<i32>, i32, i32, i32), lo: int, hi: int) -> Option<(Seq<i32>, i32, i32, i32)> {
    fold_up(partial_slot_32s_6k_step(k), s, lo, hi)
}

/// Performs one step, or returns `false` where the step is outside its domain.
fn partial_slot_32s_6k_at(
    k: usize,
    buckets: &mut [SaSint],
    sum0: &mut SaSint,
    sum1: &mut SaSint,
    sum2: &mut SaSint,
    i: FastSint,
) -> (ok: bool)
    ensures
        ok == (partial_slot_32s_6k_step(k as int)((old(buckets)@, *old(sum0), *old(sum1), *old(sum2)), i as int) is Some),
        ok ==> partial_slot_32s_6k_step(k as int)((old(buckets)@, *old(sum0), *old(sum1), *old(sum2)), i as int) == Some((final(buckets)@, *final(sum0), *final(sum1), *final(sum2))),
        final(buckets).len() == old(buckets).len(),
{
    if i < 0 || i as usize >= k {
        return false;
    }
    let j: usize = i as usize;
    if 4 * (j as u128) + 3 >= buckets.len() as u128
        || 4 * (k as u128) + 2 * (j as u128) + 1 >= buckets.len() as u128 {
        return false;
    }
    let ss: SaSint = buckets[4 * j];
    let ls: SaSint = buckets[4 * j + 1];
    let sl: SaSint = buckets[4 * j + 2];
    let ll: SaSint = buckets[4 * j + 3];
    let x: SaSint = match fits_sum(ss, sl) {
        Some(v) => v,
        None => return false,
    };
    let s0: SaSint = match fits_sum(*sum0, x) {
        Some(v) => v,
        None => return false,
    };
    let s1: SaSint = match fits_sum(*sum1, ls) {
        Some(v) => v,
        None => return false,
    };
    let y: SaSint = match fits_sum(ls, ll) {
        Some(v) => v,
        None => return false,
    };
    let s2: SaSint = match fits_sum(*sum2, y) {
        Some(v) => v,
        None => return false,
    };
    buckets[4 * j] = *sum0;
    buckets[4 * j + 1] = *sum2;
    buckets[4 * j + 2] = 0;
    buckets[4 * j + 3] = 0;
    buckets[4 * k + 2 * j] = s0;
    buckets[4 * k + 2 * j + 1] = s1;
    *sum0 = s0;
    *sum1 = s1;
    *sum2 = s2;
    true
}

/// Runs the steps as far as they are defined; `false` where one is not.
pub(crate) fn try_partial_slot_32s_6k(
    k: usize,
    buckets: &mut [SaSint],
    sum0: &mut SaSint,
    sum1: &mut SaSint,
    sum2: &mut SaSint,
    lo: FastSint,
    hi: FastSint,
) -> (ok: bool)
    ensures
        ok == (partial_slot_32s_6k_run(k as int, (old(buckets)@, *old(sum0), *old(sum1), *old(sum2)), lo as int, hi as int) is Some),
        ok ==> partial_slot_32s_6k_run(k as int, (old(buckets)@, *old(sum0), *old(sum1), *old(sum2)), lo as int, hi as int) == Some((final(buckets)@, *final(sum0), *final(sum1), *final(sum2))),
        final(buckets).len() == old(buckets).len(),
{
    let mut i: FastSint = lo;
    let ghost step = partial_slot_32s_6k_step(k as int);
    let ghost s0 = (buckets@, *sum0, *sum1, *sum2);
    while i < hi
        invariant
            lo <= i,
            i <= hi || hi < lo,
            hi < lo ==> i == lo,
            step == partial_slot_32s_6k_step(k as int),
            s0 == (old(buckets)@, *old(sum0), *old(sum1), *old(sum2)),
            fold_up(step, s0, lo as int, i as int) == Some((buckets@, *sum0, *sum1, *sum2)),
            buckets.len() == old(buckets).len(),
        decreases hi - i,
    {
        proof {
            lemma_fold_up_prefix(step, s0, lo as int, i + 1, hi as int);
        }
        if !partial_slot_32s_6k_at(k, buckets, sum0, sum1, sum2, i) {
            return false;
        }
        i += 1;
    }
    true
}

/// The buckets for the two scans over an integer text; from the symbol of the first LMS
/// suffix on, that suffix is counted with the others.
pub open spec fn initialize_buckets_for_partial_sorting_32s_6k_run(
    t: Seq<i32>,
    k: int,
    buckets: Seq<i32>,
    first: int,
    left: int,
) -> Option<(Seq<i32>, i32, i32, i32)> {
    let c = t[first] as int;
    if 0 <= first < t.len() && 0 <= k && 0 <= c && fits(left + 1) {
        match partial_slot_32s_6k_run(k, (buckets, (left + 1) as i32, 0, 0), 0, c) {
            Some(x) => if fits(x.2 + 1) {
                partial_slot_32s_6k_run(k, (x.0, x.1, (x.2 + 1) as i32, x.3), c, k)
            } else {
                None
            },
            None => None,
        }
    } else {
        None
    }
}

/// Sets the buckets for the two scans over the LMS substrings.
///
/// `false` where a slot or a sum is out of range.
pub(crate) fn try_initialize_buckets_for_partial_sorting_32s_6k(
    t: &[SaSint],
    k: SaSint,
    buckets: &mut [SaSint],
    first_lms_suffix: SaSint,
    left_suffixes_count: SaSint,
) -> (ok: bool)
    ensures
        ok == (initialize_buckets_for_partial_sorting_32s_6k_run(t@, k as int, old(buckets)@, first_lms_suffix as int, left_suffixes_count as int) is Some),
        ok ==> {
            let x = initialize_buckets_for_partial_sorting_32s_6k_run(t@, k as int, old(buckets)@, first_lms_suffix as int, left_suffixes_count as int)->0;
            final(buckets)@ == x.0
        },
        final(buckets).len() == old(buckets).len(),
{
    if !within(first_lms_suffix, t.len()) || k < 0 || left_suffixes_count == SaSint::MAX {
        return false;
    }
    let c: SaSint = t[first_lms_suffix as usize];
    if c < 0 {
        return false;
    }
    let mut sum0: SaSint = left_suffixes_count + 1;
    let mut sum1: SaSint = 0;
    let mut sum2: SaSint = 0;
    if !try_partial_slot_32s_6k(k as usize, buckets, &mut sum0, &mut sum1, &mut sum2, 0, c as FastSint) {
        return false;
    }
    if sum1 == SaSint::MAX {
        return false;
    }
    sum1 = sum1 + 1;
    try_partial_slot_32s_6k(k as usize, buckets, &mut sum0, &mut sum1, &mut sum2, c as FastSint, k as FastSint)
}

/// Sets the buckets for the two scans over the LMS substrings.
pub fn initialize_buckets_for_partial_sorting_32s_6k(
    t: &[SaSint],
    k: SaSint,
    buckets: &mut [SaSint],
    first_lms_suffix: SaSint,
    left_suffixes_count: SaSint,
)
    requires
        initialize_buckets_for_partial_sorting_32s_6k_run(t@, k as int, old(buckets)@, first_lms_suffix as int, left_suffixes_count as int) is Some,
    ensures
        ({
            let x = initialize_buckets_for_partial_sorting_32s_6k_run(t@, k as int, old(buckets)@, first_lms_suffix as int, left_suffixes_count as int)->0;
            final(buckets)@ == x.0
        }),
{
    let _ok: bool = try_initialize_buckets_for_partial_sorting_32s_6k(t, k, buckets, first_lms_suffix, left_suffixes_count);
}

} // verus!
