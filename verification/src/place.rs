//! Sorted LMS suffixes spread out to the ends of their buckets.

use vstd::prelude::*;
use crate::fold::{fold_down, lemma_fold_down_prefix};
use crate::gather::{clear_range, cleared};
use crate::marks::{fits_difference, within, word_within};
use crate::span::{move_within, moved};
use crate::types::{is_separated, separated, FastSint, SaSint, ALPHABET_SIZE};

verus! {

/// Where the number of LMS suffixes of a symbol and the end of its bucket are found.
#[derive(Clone, Copy)]
pub struct PlaceMode {
    /// The distance between the counters of two symbols.
    pub step: usize,
    /// Whether the counters are running sums.
    pub sums: bool,
    /// The slot of the first bucket end.
    pub ends: usize,
    /// The distance between two bucket ends.
    pub end_step: usize,
}

/// How many LMS suffixes symbol `c` has, where that is known and not negative.
pub open spec fn lms_count(mode: PlaceMode, b: Seq<i32>, c: int) -> Option<int> {
    let at = mode.step * c + 1;
    if mode.sums {
        if 0 <= at && at + 2 < b.len() && 0 <= b[at + 2] - b[at] <= i32::MAX {
            Some(b[at + 2] - b[at])
        } else {
            None
        }
    } else if 0 <= at < b.len() && 0 <= b[at] {
        Some(b[at] as int)
    } else {
        None
    }
}

/// Computes [`lms_count`].
fn lms_count_of(mode: PlaceMode, b: &[SaSint], c: usize) -> (r: Option<usize>)
    requires
        mode.step <= 4,
        c <= i32::MAX,
    ensures
        r is Some == (lms_count(mode, b@, c as int) is Some),
        r is Some ==> r->0 == lms_count(mode, b@, c as int)->0,
        r is Some ==> r->0 <= i32::MAX,
{
    assert(mode.step * c <= 4 * 0x7fff_ffff) by (nonlinear_arith)
        requires
            mode.step <= 4,
            c <= 0x7fff_ffff,
    ;
    assert(0 <= mode.step * c) by (nonlinear_arith);
    let at: u64 = mode.step as u64 * c as u64 + 1;
    if mode.sums {
        if at + 2 >= b.len() as u64 {
            return None;
        }
        match fits_difference(b[at as usize + 2], b[at as usize]) {
            Some(v) => if v >= 0 {
                Some(v as usize)
            } else {
                None
            },
            None => None,
        }
    } else if at < b.len() as u64 && b[at as usize] >= 0 {
        Some(b[at as usize] as usize)
    } else {
        None
    }
}

/// Moves the LMS suffixes of symbol `i`, which end in front of slot `m`, to the end of their
/// bucket and clears what is between that end and slot `j`.
pub open spec fn place_bucket_step(mode: PlaceMode, buckets: Seq<i32>) -> spec_fn((Seq<i32>, usize, usize), int) -> Option<(Seq<i32>, usize, usize)> {
    |s: (Seq<i32>, usize, usize), i: int|
        {
            let (sa, m, j) = s;
            let l = lms_count(mode, buckets, i);
            let at = mode.ends + mode.end_step * i;
            let end = buckets[at];
            if !(0 <= i <= i32::MAX) || l is None {
                None
            } else if l->0 == 0 {
                Some((sa, m, j))
            } else if at < buckets.len() && l->0 <= end <= sa.len() && l->0 <= m <= sa.len() && j <= sa.len() {
                Some((
                    moved(cleared(sa, end as int, j as int), m - l->0, l->0, end - l->0),
                    (m - l->0) as usize,
                    (end - l->0) as usize,
                ))
            } else {
                None
            }
        }
}

/// [`place_bucket_step`] over the positions from `lo` to `hi`, downward.
pub open spec fn place_bucket_run(mode: PlaceMode, buckets: Seq<i32>, s: (Seq<i32>, usize, usize), lo: int, hi: int) -> Option<(Seq<i32>, usize, usize)> {
    fold_down(place_bucket_step(mode, buckets), s, lo, hi)
}

/// Performs one step, or returns `false` where the step is outside its domain.
fn place_bucket_at(
    mode: PlaceMode,
    buckets: &[SaSint],
    sa: &mut [SaSint],
    m: &mut usize,
    j: &mut usize,
    i: FastSint,
) -> (ok: bool)
    requires
        mode.step <= 4 && mode.end_step <= 4,
    ensures
        ok == (place_bucket_step(mode, buckets@)((old(sa)@, *old(m), *old(j)), i as int) is Some),
        ok ==> place_bucket_step(mode, buckets@)((old(sa)@, *old(m), *old(j)), i as int) == Some((final(sa)@, *final(m), *final(j))),
        final(sa).len() == old(sa).len(),
{
    if i < 0 || i as u64 > 0x7fff_ffff {
        return false;
    }
    let c: usize = i as usize;
    let l: usize = match lms_count_of(mode, buckets, c) {
        Some(v) => v,
        None => return false,
    };
    if l == 0 {
        return true;
    }
    assert(mode.end_step * c <= 4 * 0x7fff_ffff) by (nonlinear_arith)
        requires
            mode.end_step <= 4,
            c <= 0x7fff_ffff,
    ;
    assert(0 <= mode.end_step * c) by (nonlinear_arith);
    let at: u128 = mode.ends as u128 + (mode.end_step as u64 * c as u64) as u128;
    if at >= buckets.len() as u128 {
        return false;
    }
    let end: SaSint = buckets[at as usize];
    if end < 0 || (end as usize) < l || end as usize > sa.len() || *m < l || *m > sa.len() || *j > sa.len() {
        return false;
    }
    clear_range(sa, end as usize, *j);
    move_within(sa, *m - l, l, end as usize - l);
    *m = *m - l;
    *j = end as usize - l;
    true
}

/// Runs the steps as far as they are defined; `false` where one is not.
pub(crate) fn try_place_bucket(
    mode: PlaceMode,
    buckets: &[SaSint],
    sa: &mut [SaSint],
    m: &mut usize,
    j: &mut usize,
    lo: FastSint,
    hi: FastSint,
) -> (ok: bool)
    requires
        mode.step <= 4 && mode.end_step <= 4,
    ensures
        ok == (place_bucket_run(mode, buckets@, (old(sa)@, *old(m), *old(j)), lo as int, hi as int) is Some),
        ok ==> place_bucket_run(mode, buckets@, (old(sa)@, *old(m), *old(j)), lo as int, hi as int) == Some((final(sa)@, *final(m), *final(j))),
        final(sa).len() == old(sa).len(),
{
    if hi <= lo {
        return true;
    }
    let mut i: FastSint = hi;
    let ghost step = place_bucket_step(mode, buckets@);
    let ghost s0 = (sa@, *m, *j);
    while i > lo
        invariant
            lo <= i <= hi,
            step == place_bucket_step(mode, buckets@),
            s0 == (old(sa)@, *old(m), *old(j)),
            mode.step <= 4 && mode.end_step <= 4,
            fold_down(step, s0, i as int, hi as int) == Some((sa@, *m, *j)),
            sa.len() == old(sa).len(),
        decreases i - lo,
    {
        proof {
            lemma_fold_down_prefix(step, s0, lo as int, i - 1, hi as int);
        }
        i -= 1;
        if !place_bucket_at(mode, buckets, sa, m, j, i) {
            return false;
        }
    }
    true
}

/// The array with `m` sorted suffixes spread over the buckets of the symbols below `symbols`,
/// and zeros in between.
pub open spec fn placed(
    mode: PlaceMode,
    buckets: Seq<i32>,
    sa: Seq<i32>,
    n: int,
    m: int,
    symbols: int,
) -> Option<Seq<i32>> {
    if !(0 <= n && 0 <= m) {
        None
    } else {
        match place_bucket_run(mode, buckets, (sa, m as usize, n as usize), 0, symbols) {
            Some(x) => if x.2 <= x.0.len() {
                Some(cleared(x.0, 0, x.2 as int))
            } else {
                None
            },
            None => None,
        }
    }
}

/// Spreads `m` sorted suffixes over the buckets of the symbols below `symbols`.
fn try_placed(
    mode: PlaceMode,
    buckets: &[SaSint],
    sa: &mut [SaSint],
    n: SaSint,
    m: SaSint,
    symbols: SaSint,
) -> (ok: bool)
    requires
        mode.step <= 4,
        mode.end_step <= 4,
    ensures
        ok == (placed(mode, buckets@, old(sa)@, n as int, m as int, symbols as int) is Some),
        ok ==> placed(mode, buckets@, old(sa)@, n as int, m as int, symbols as int) == Some(final(sa)@),
        final(sa).len() == old(sa).len(),
{
    if n < 0 || m < 0 {
        return false;
    }
    let mut left: usize = m as usize;
    let mut j: usize = n as usize;
    if !try_place_bucket(mode, buckets, sa, &mut left, &mut j, 0, symbols as FastSint) {
        return false;
    }
    if j > sa.len() {
        return false;
    }
    clear_range(sa, 0, j);
    true
}

/// The layout of a byte text: running sums in pairs, ends behind the other buckets.
pub open spec fn mode_8u() -> PlaceMode {
    PlaceMode { step: 2, sums: true, ends: 1792, end_step: 1 }
}

/// The buckets with the end of the first lowered by one for separated texts.
pub open spec fn without_last_separator(b: Seq<i32>, flags: i32) -> Option<Seq<i32>> {
    if !separated(flags) {
        Some(b)
    } else if b.len() > 1792 && b[1792] > i32::MIN {
        Some(b.update(1792, (b[1792] - 1) as i32))
    } else {
        None
    }
}

/// What [`place_lms_suffixes_interval_8u`] makes of the array.
pub open spec fn place_lms_suffixes_interval_8u_run(
    sa: Seq<i32>,
    n: int,
    m: int,
    flags: i32,
    buckets: Seq<i32>,
) -> Option<Seq<i32>> {
    match without_last_separator(buckets, flags) {
        Some(b) => placed(mode_8u(), b, sa, n, m, ALPHABET_SIZE - 1),
        None => None,
    }
}

/// Spreads the `m` sorted LMS suffixes of a byte text over their buckets; the buckets are
/// left as they were.
///
/// `false` where a slot is out of range.
pub(crate) fn try_place_lms_suffixes_interval_8u(
    sa: &mut [SaSint],
    n: SaSint,
    m: SaSint,
    flags: SaSint,
    buckets: &mut [SaSint],
) -> (ok: bool)
    ensures
        ok == (place_lms_suffixes_interval_8u_run(old(sa)@, n as int, m as int, flags, old(buckets)@) is Some),
        ok ==> place_lms_suffixes_interval_8u_run(old(sa)@, n as int, m as int, flags, old(buckets)@)
            == Some(final(sa)@),
        ok ==> final(buckets)@ == old(buckets)@,
        final(sa).len() == old(sa).len(),
        final(buckets).len() == old(buckets).len(),
{
    let mode: PlaceMode = PlaceMode { step: 2, sums: true, ends: 1792, end_step: 1 };
    let gsa: bool = is_separated(flags);
    if gsa {
        if buckets.len() <= 1792 || buckets[1792] == SaSint::MIN {
            return false;
        }
        buckets[1792] = buckets[1792] - 1;
    }
    let ok: bool = try_placed(mode, buckets, sa, n, m, ALPHABET_SIZE as SaSint - 1);
    if gsa {
        buckets[1792] = buckets[1792] + 1;
        assert(buckets@ =~= old(buckets)@);
    }
    ok
}

/// Spreads the `m` sorted LMS suffixes of a byte text over their buckets; the buckets are
/// left as they were.
pub fn place_lms_suffixes_interval_8u(
    sa: &mut [SaSint],
    n: SaSint,
    m: SaSint,
    flags: SaSint,
    buckets: &mut [SaSint],
)
    requires
        place_lms_suffixes_interval_8u_run(old(sa)@, n as int, m as int, flags, old(buckets)@) is Some,
    ensures
        place_lms_suffixes_interval_8u_run(old(sa)@, n as int, m as int, flags, old(buckets)@)
            == Some(final(sa)@),
        final(buckets)@ == old(buckets)@,
{
    let _ok: bool = try_place_lms_suffixes_interval_8u(sa, n, m, flags, buckets);
}

/// What [`place_lms_suffixes_interval_32s_4k`] makes of the array.
pub open spec fn place_lms_suffixes_interval_32s_4k_run(sa: Seq<i32>, n: int, k: int, m: int, buckets: Seq<i32>) -> Option<Seq<i32>> {
    if 1 <= k && 4 * k <= buckets.len() {
        placed(
            PlaceMode { step: 2, sums: true, ends: (3 * k) as usize, end_step: 1 }, buckets, sa, n, m, k - 1)
    } else {
        None
    }
}

/// Spreads the `m` sorted LMS suffixes over their buckets, from running sums of their numbers
/// and the bucket ends behind them.
///
/// `false` where a slot is out of range.
pub(crate) fn try_place_lms_suffixes_interval_32s_4k(sa: &mut [SaSint], n: SaSint, k: SaSint, m: SaSint, buckets: &[SaSint]) -> (ok: bool)
    ensures
        ok == (place_lms_suffixes_interval_32s_4k_run(old(sa)@, n as int, k as int, m as int, buckets@) is Some),
        ok ==> place_lms_suffixes_interval_32s_4k_run(old(sa)@, n as int, k as int, m as int, buckets@) == Some(final(sa)@),
        final(sa).len() == old(sa).len(),
{
    if k < 1 || 4 * (k as u64) > buckets.len() as u64 {
        return false;
    }
    let mode: PlaceMode = PlaceMode { step: 2, sums: true, ends: 3 * (k as usize), end_step: 1 };
    try_placed(mode, buckets, sa, n, m, k - 1)
}

/// Spreads the `m` sorted LMS suffixes over their buckets, from running sums of their numbers
/// and the bucket ends behind them.
pub fn place_lms_suffixes_interval_32s_4k(sa: &mut [SaSint], n: SaSint, k: SaSint, m: SaSint, buckets: &[SaSint])
    requires
        place_lms_suffixes_interval_32s_4k_run(old(sa)@, n as int, k as int, m as int, buckets@) is Some,
    ensures
        place_lms_suffixes_interval_32s_4k_run(old(sa)@, n as int, k as int, m as int, buckets@) == Some(final(sa)@),
{
    let _ok: bool = try_place_lms_suffixes_interval_32s_4k(sa, n, k, m, buckets);
}

/// What [`place_lms_suffixes_interval_32s_2k`] makes of the array.
pub open spec fn place_lms_suffixes_interval_32s_2k_run(sa: Seq<i32>, n: int, k: int, m: int, buckets: Seq<i32>) -> Option<Seq<i32>> {
    if 0 <= k {
        placed(
            PlaceMode { step: 2, sums: true, ends: 0, end_step: 2 }, buckets, sa, n, m, k - 1)
    } else {
        None
    }
}

/// Spreads the `m` sorted LMS suffixes over their buckets, from running sums of their numbers
/// beside the bucket ends.
///
/// `false` where a slot is out of range.
pub(crate) fn try_place_lms_suffixes_interval_32s_2k(sa: &mut [SaSint], n: SaSint, k: SaSint, m: SaSint, buckets: &[SaSint]) -> (ok: bool)
    ensures
        ok == (place_lms_suffixes_interval_32s_2k_run(old(sa)@, n as int, k as int, m as int, buckets@) is Some),
        ok ==> place_lms_suffixes_interval_32s_2k_run(old(sa)@, n as int, k as int, m as int, buckets@) == Some(final(sa)@),
        final(sa).len() == old(sa).len(),
{
    if k < 0 {
        return false;
    }
    let mode: PlaceMode = PlaceMode { step: 2, sums: true, ends: 0, end_step: 2 };
    try_placed(mode, buckets, sa, n, m, k - 1)
}

/// Spreads the `m` sorted LMS suffixes over their buckets, from running sums of their numbers
/// beside the bucket ends.
pub fn place_lms_suffixes_interval_32s_2k(sa: &mut [SaSint], n: SaSint, k: SaSint, m: SaSint, buckets: &[SaSint])
    requires
        place_lms_suffixes_interval_32s_2k_run(old(sa)@, n as int, k as int, m as int, buckets@) is Some,
    ensures
        place_lms_suffixes_interval_32s_2k_run(old(sa)@, n as int, k as int, m as int, buckets@) == Some(final(sa)@),
{
    let _ok: bool = try_place_lms_suffixes_interval_32s_2k(sa, n, k, m, buckets);
}

/// What [`place_lms_suffixes_histogram_32s_6k`] makes of the array.
pub open spec fn place_lms_suffixes_histogram_32s_6k_run(sa: Seq<i32>, n: int, k: int, m: int, buckets: Seq<i32>) -> Option<Seq<i32>> {
    if 1 <= k && 6 * k <= buckets.len() {
        placed(
            PlaceMode { step: 4, sums: false, ends: (5 * k) as usize, end_step: 1 }, buckets, sa, n, m, k - 1)
    } else {
        None
    }
}

/// Spreads the `m` sorted LMS suffixes over their buckets, from their numbers in four counters
/// for each symbol and the bucket ends behind them.
///
/// `false` where a slot is out of range.
pub(crate) fn try_place_lms_suffixes_histogram_32s_6k(sa: &mut [SaSint], n: SaSint, k: SaSint, m: SaSint, buckets: &[SaSint]) -> (ok: bool)
    ensures
        ok == (place_lms_suffixes_histogram_32s_6k_run(old(sa)@, n as int, k as int, m as int, buckets@) is Some),
        ok ==> place_lms_suffixes_histogram_32s_6k_run(old(sa)@, n as int, k as int, m as int, buckets@) == Some(final(sa)@),
        final(sa).len() == old(sa).len(),
{
    if k < 1 || 6 * (k as u64) > buckets.len() as u64 {
        return false;
    }
    let mode: PlaceMode = PlaceMode { step: 4, sums: false, ends: 5 * (k as usize), end_step: 1 };
    try_placed(mode, buckets, sa, n, m, k - 1)
}

/// Spreads the `m` sorted LMS suffixes over their buckets, from their numbers in four counters
/// for each symbol and the bucket ends behind them.
pub fn place_lms_suffixes_histogram_32s_6k(sa: &mut [SaSint], n: SaSint, k: SaSint, m: SaSint, buckets: &[SaSint])
    requires
        place_lms_suffixes_histogram_32s_6k_run(old(sa)@, n as int, k as int, m as int, buckets@) is Some,
    ensures
        place_lms_suffixes_histogram_32s_6k_run(old(sa)@, n as int, k as int, m as int, buckets@) == Some(final(sa)@),
{
    let _ok: bool = try_place_lms_suffixes_histogram_32s_6k(sa, n, k, m, buckets);
}

/// What [`place_lms_suffixes_histogram_32s_4k`] makes of the array.
pub open spec fn place_lms_suffixes_histogram_32s_4k_run(sa: Seq<i32>, n: int, k: int, m: int, buckets: Seq<i32>) -> Option<Seq<i32>> {
    if 1 <= k && 4 * k <= buckets.len() {
        placed(
            PlaceMode { step: 2, sums: false, ends: (3 * k) as usize, end_step: 1 }, buckets, sa, n, m, k - 1)
    } else {
        None
    }
}

/// Spreads the `m` sorted LMS suffixes over their buckets, from their numbers in two counters
/// for each symbol and the bucket ends behind them.
///
/// `false` where a slot is out of range.
pub(crate) fn try_place_lms_suffixes_histogram_32s_4k(sa: &mut [SaSint], n: SaSint, k: SaSint, m: SaSint, buckets: &[SaSint]) -> (ok: bool)
    ensures
        ok == (place_lms_suffixes_histogram_32s_4k_run(old(sa)@, n as int, k as int, m as int, buckets@) is Some),
        ok ==> place_lms_suffixes_histogram_32s_4k_run(old(sa)@, n as int, k as int, m as int, buckets@) == Some(final(sa)@),
        final(sa).len() == old(sa).len(),
{
    if k < 1 || 4 * (k as u64) > buckets.len() as u64 {
        return false;
    }
    let mode: PlaceMode = PlaceMode { step: 2, sums: false, ends: 3 * (k as usize), end_step: 1 };
    try_placed(mode, buckets, sa, n, m, k - 1)
}

/// Spreads the `m` sorted LMS suffixes over their buckets, from their numbers in two counters
/// for each symbol and the bucket ends behind them.
pub fn place_lms_suffixes_histogram_32s_4k(sa: &mut [SaSint], n: SaSint, k: SaSint, m: SaSint, buckets: &[SaSint])
    requires
        place_lms_suffixes_histogram_32s_4k_run(old(sa)@, n as int, k as int, m as int, buckets@) is Some,
    ensures
        place_lms_suffixes_histogram_32s_4k_run(old(sa)@, n as int, k as int, m as int, buckets@) == Some(final(sa)@),
{
    let _ok: bool = try_place_lms_suffixes_histogram_32s_4k(sa, n, k, m, buckets);
}

/// What [`place_lms_suffixes_histogram_32s_2k`] makes of the array.
pub open spec fn place_lms_suffixes_histogram_32s_2k_run(sa: Seq<i32>, n: int, k: int, m: int, buckets: Seq<i32>) -> Option<Seq<i32>> {
    if 0 <= k {
        placed(
            PlaceMode { step: 2, sums: false, ends: 0, end_step: 2 }, buckets, sa, n, m, k - 1)
    } else {
        None
    }
}

/// Spreads the `m` sorted LMS suffixes over their buckets, from their numbers beside the bucket
/// ends.
///
/// `false` where a slot is out of range.
pub(crate) fn try_place_lms_suffixes_histogram_32s_2k(sa: &mut [SaSint], n: SaSint, k: SaSint, m: SaSint, buckets: &[SaSint]) -> (ok: bool)
    ensures
        ok == (place_lms_suffixes_histogram_32s_2k_run(old(sa)@, n as int, k as int, m as int, buckets@) is Some),
        ok ==> place_lms_suffixes_histogram_32s_2k_run(old(sa)@, n as int, k as int, m as int, buckets@) == Some(final(sa)@),
        final(sa).len() == old(sa).len(),
{
    if k < 0 {
        return false;
    }
    let mode: PlaceMode = PlaceMode { step: 2, sums: false, ends: 0, end_step: 2 };
    try_placed(mode, buckets, sa, n, m, k - 1)
}

/// Spreads the `m` sorted LMS suffixes over their buckets, from their numbers beside the bucket
/// ends.
pub fn place_lms_suffixes_histogram_32s_2k(sa: &mut [SaSint], n: SaSint, k: SaSint, m: SaSint, buckets: &[SaSint])
    requires
        place_lms_suffixes_histogram_32s_2k_run(old(sa)@, n as int, k as int, m as int, buckets@) is Some,
    ensures
        place_lms_suffixes_histogram_32s_2k_run(old(sa)@, n as int, k as int, m as int, buckets@) == Some(final(sa)@),
{
    let _ok: bool = try_place_lms_suffixes_histogram_32s_2k(sa, n, k, m, buckets);
}

/// Moves the suffix at slot `i` in front of slot `l`; where its symbol differs from `c`, its
/// bucket end is the new `l`, and what is between is cleared.
pub open spec fn place_1k_step(t: Seq<i32>, buckets: Seq<i32>) -> spec_fn((Seq<i32>, i32, usize), int) -> Option<(Seq<i32>, i32, usize)> {
    |s: (Seq<i32>, i32, usize), i: int|
        {
            let (sa, c, l) = s;
            let p = sa[i];
            let q = t[p as int];
            let end = if q == c {
                l as int
            } else {
                buckets[q as int] as int
            };
            if 0 <= i < sa.len() && 0 <= p < t.len() && (q != c ==> 0 <= q < buckets.len() && 0 <= end && l <= sa.len())
                && 1 <= end <= sa.len() {
                let s1 = if q == c {
                    sa
                } else {
                    cleared(sa, end, l as int)
                };
                Some((s1.update(end - 1, p), q, (end - 1) as usize))
            } else {
                None
            }
        }
}

/// [`place_1k_step`] over the positions from `lo` to `hi`, downward.
pub open spec fn place_1k_run(t: Seq<i32>, buckets: Seq<i32>, s: (Seq<i32>, i32, usize), lo: int, hi: int) -> Option<(Seq<i32>, i32, usize)> {
    fold_down(place_1k_step(t, buckets), s, lo, hi)
}

/// Performs one step, or returns `false` where the step is outside its domain.
fn place_1k_at(
    t: &[SaSint],
    buckets: &[SaSint],
    sa: &mut [SaSint],
    c: &mut SaSint,
    l: &mut usize,
    i: FastSint,
) -> (ok: bool)
    ensures
        ok == (place_1k_step(t@, buckets@)((old(sa)@, *old(c), *old(l)), i as int) is Some),
        ok ==> place_1k_step(t@, buckets@)((old(sa)@, *old(c), *old(l)), i as int) == Some((final(sa)@, *final(c), *final(l))),
        final(sa).len() == old(sa).len(),
{
    if !word_within(i, sa.len()) {
        return false;
    }
    let p: SaSint = sa[i as usize];
    if !within(p, t.len()) {
        return false;
    }
    let q: SaSint = t[p as usize];
    if q != *c {
        if !within(q, buckets.len()) || *l > sa.len() {
            return false;
        }
        let end: SaSint = buckets[q as usize];
        if end < 1 || end as usize > sa.len() {
            return false;
        }
        clear_range(sa, end as usize, *l);
        *c = q;
        *l = end as usize;
    }
    if *l < 1 || *l > sa.len() {
        return false;
    }
    *l = *l - 1;
    sa[*l] = p;
    true
}

/// Runs the steps as far as they are defined; `false` where one is not.
pub(crate) fn try_place_1k(
    t: &[SaSint],
    buckets: &[SaSint],
    sa: &mut [SaSint],
    c: &mut SaSint,
    l: &mut usize,
    lo: FastSint,
    hi: FastSint,
) -> (ok: bool)
    ensures
        ok == (place_1k_run(t@, buckets@, (old(sa)@, *old(c), *old(l)), lo as int, hi as int) is Some),
        ok ==> place_1k_run(t@, buckets@, (old(sa)@, *old(c), *old(l)), lo as int, hi as int) == Some((final(sa)@, *final(c), *final(l))),
        final(sa).len() == old(sa).len(),
{
    if hi <= lo {
        return true;
    }
    let mut i: FastSint = hi;
    let ghost step = place_1k_step(t@, buckets@);
    let ghost s0 = (sa@, *c, *l);
    while i > lo
        invariant
            lo <= i <= hi,
            step == place_1k_step(t@, buckets@),
            s0 == (old(sa)@, *old(c), *old(l)),
            fold_down(step, s0, i as int, hi as int) == Some((sa@, *c, *l)),
            sa.len() == old(sa).len(),
        decreases i - lo,
    {
        proof {
            lemma_fold_down_prefix(step, s0, lo as int, i - 1, hi as int);
        }
        i -= 1;
        if !place_1k_at(t, buckets, sa, c, l, i) {
            return false;
        }
    }
    true
}

/// What [`place_lms_suffixes_interval_32s_1k`] makes of the array.
pub open spec fn place_lms_suffixes_interval_32s_1k_run(
    t: Seq<i32>,
    sa: Seq<i32>,
    k: int,
    m: int,
    buckets: Seq<i32>,
) -> Option<Seq<i32>> {
    if !(1 <= k <= buckets.len() && 0 <= buckets[k - 1] && 0 <= m) {
        None
    } else {
        match place_1k_run(t, buckets, (sa, (k - 1) as i32, buckets[k - 1] as usize), 0, m) {
            Some(x) => if x.2 <= sa.len() {
                Some(cleared(x.0, 0, x.2 as int))
            } else {
                None
            },
            None => None,
        }
    }
}

/// Spreads the `m` sorted LMS suffixes over the ends of their buckets.
///
/// `false` where a slot is out of range.
pub(crate) fn try_place_lms_suffixes_interval_32s_1k(
    t: &[SaSint],
    sa: &mut [SaSint],
    k: SaSint,
    m: SaSint,
    buckets: &[SaSint],
) -> (ok: bool)
    ensures
        ok == (place_lms_suffixes_interval_32s_1k_run(t@, old(sa)@, k as int, m as int, buckets@) is Some),
        ok ==> place_lms_suffixes_interval_32s_1k_run(t@, old(sa)@, k as int, m as int, buckets@) == Some(final(sa)@),
        final(sa).len() == old(sa).len(),
{
    if k < 1 || k as u64 > buckets.len() as u64 || m < 0 {
        return false;
    }
    if buckets[(k - 1) as usize] < 0 {
        return false;
    }
    let mut c: SaSint = k - 1;
    let mut l: usize = buckets[(k - 1) as usize] as usize;
    if !try_place_1k(t, buckets, sa, &mut c, &mut l, 0, m as FastSint) {
        return false;
    }
    if l > sa.len() {
        return false;
    }
    clear_range(sa, 0, l);
    true
}

/// Spreads the `m` sorted LMS suffixes over the ends of their buckets.
pub fn place_lms_suffixes_interval_32s_1k(
    t: &[SaSint],
    sa: &mut [SaSint],
    k: SaSint,
    m: SaSint,
    buckets: &[SaSint],
)
    requires
        place_lms_suffixes_interval_32s_1k_run(t@, old(sa)@, k as int, m as int, buckets@) is Some,
    ensures
        place_lms_suffixes_interval_32s_1k_run(t@, old(sa)@, k as int, m as int, buckets@) == Some(final(sa)@),
{
    let _ok: bool = try_place_lms_suffixes_interval_32s_1k(t, sa, k, m, buckets);
}

} // verus!
