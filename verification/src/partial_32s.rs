//! Scans that sort the LMS substrings of an integer text by induction.

use vstd::prelude::*;
use crate::fold::{fold_down, fold_up, lemma_fold_down_prefix, lemma_fold_up_prefix};
use crate::marks::{
    bit, clear_group, clear_mark, grouped, has_group, marked, set_group, set_mark, ungrouped, unmarked,
    with_group, within, word_within,
};
use crate::types::{FastSint, InduceState, PlaceState, SaSint, SAINT_MAX};

verus! {

/// One step of the left-to-right scan over LMS substrings of an integer text
/// with six buckets for each symbol: the suffix found at slot `i` induces the
/// suffix before it, marked where it opens a new name.
pub open spec fn partial_sorting_scan_left_to_right_32s_6k_step(t: Seq<i32>) -> spec_fn(InduceState, int) -> Option<InduceState> {
    |s: InduceState, i: int|
        {
            let (sa, b, d) = s;
            let p = unmarked(sa[i]);
            let e = d + bit(sa[i] < 0);
            let v = 4 * t[p - 1] + bit(t[p - 2] >= t[p - 1]);
            let x = b[v];
            if 0 <= i < sa.len() && e <= i32::MAX && 2 <= p <= t.len() && 0 <= t[p - 1] && v + 2 < b.len()
                && 0 <= x < sa.len() && x < i32::MAX {
                Some((
                    sa.update(x as int, marked((p - 1) as i32, b[v + 2] != e)),
                    b.update(v, (x + 1) as i32).update(v + 2, e as i32),
                    e as i32,
                ))
            } else {
                None
            }
        }
}

/// [`partial_sorting_scan_left_to_right_32s_6k_step`] over the `size` positions from `start`, upward.
pub open spec fn partial_sorting_scan_left_to_right_32s_6k_run(t: Seq<i32>, s: InduceState, start: int, size: int) -> Option<InduceState> {
    fold_up(partial_sorting_scan_left_to_right_32s_6k_step(t), s, start, start + size)
}

/// Performs one step, or returns `false` where the step is outside its domain.
fn partial_sorting_scan_left_to_right_32s_6k_at(
    t: &[SaSint],
    sa: &mut [SaSint],
    buckets: &mut [SaSint],
    d: &mut SaSint,
    i: FastSint,
) -> (ok: bool)
    ensures
        ok == (partial_sorting_scan_left_to_right_32s_6k_step(t@)((old(sa)@, old(buckets)@, *old(d)), i as int) is Some),
        ok ==> partial_sorting_scan_left_to_right_32s_6k_step(t@)((old(sa)@, old(buckets)@, *old(d)), i as int) == Some((final(sa)@, final(buckets)@, *final(d))),
        final(sa).len() == old(sa).len(),
        final(buckets).len() == old(buckets).len(),
{
    if !word_within(i, sa.len()) {
        return false;
    }
    let m: SaSint = sa[i as usize];
    if m < 0 && *d == SAINT_MAX {
        return false;
    }
    let e: SaSint = if m < 0 { *d + 1 } else { *d };
    let p: usize = clear_mark(m) as usize;
    if !(2 <= p && p <= t.len()) {
        return false;
    }
    let c: SaSint = t[p - 1];
    let s: bool = t[p - 2] >= c;
    if c < 0 || 4 * (c as u64) + (if s { 3 } else { 2 }) >= buckets.len() as u64 {
        return false;
    }
    let v: usize = 4 * (c as usize) + (if s { 1 } else { 0 });
    let x: SaSint = buckets[v];
    if !within(x, sa.len()) || x == SAINT_MAX {
        return false;
    }
    sa[x as usize] = set_mark((p - 1) as SaSint, buckets[v + 2] != e);
    buckets[v] = x + 1;
    buckets[v + 2] = e;
    *d = e;
    true
}

/// Runs the scan as far as it is defined; `false` where it is not.
pub(crate) fn try_partial_sorting_scan_left_to_right_32s_6k(
    t: &[SaSint],
    sa: &mut [SaSint],
    buckets: &mut [SaSint],
    d: &mut SaSint,
    start: FastSint,
    size: FastSint,
) -> (ok: bool)
    requires
        isize::MIN <= start + size <= isize::MAX,
    ensures
        ok == (partial_sorting_scan_left_to_right_32s_6k_run(t@, (old(sa)@, old(buckets)@, *old(d)), start as int, size as int) is Some),
        ok ==> partial_sorting_scan_left_to_right_32s_6k_run(t@, (old(sa)@, old(buckets)@, *old(d)), start as int, size as int) == Some((final(sa)@, final(buckets)@, *final(d))),
        final(sa).len() == old(sa).len(),
        final(buckets).len() == old(buckets).len(),
{

    let end: FastSint = start + size;
    let mut i: FastSint = start;
    let ghost step = partial_sorting_scan_left_to_right_32s_6k_step(t@);
    let ghost s0 = (sa@, buckets@, *d);
    while i < end
        invariant
            start <= i,
            i <= end || size < 0,
            size < 0 ==> i == start,
            end == start + size,
            step == partial_sorting_scan_left_to_right_32s_6k_step(t@),
            s0 == (old(sa)@, old(buckets)@, *old(d)),
            fold_up(step, s0, start as int, i as int) == Some((sa@, buckets@, *d)),
            sa.len() == old(sa).len(),
            buckets.len() == old(buckets).len(),
        decreases end - i,
    {
        proof {
            lemma_fold_up_prefix(step, s0, start as int, i + 1, end as int);
        }
        if !partial_sorting_scan_left_to_right_32s_6k_at(t, sa, buckets, d, i) {
            return false;
        }
        i += 1;
    }
    true
}

/// One step of the left-to-right scan over LMS substrings of an integer text
/// with six buckets for each symbol: the suffix found at slot `i` induces the
/// suffix before it, marked where it opens a new name.
/// The scan covers `omp_block_size` positions from `omp_block_start`, upward.
pub fn partial_sorting_scan_left_to_right_32s_6k(
    t: &[SaSint],
    sa: &mut [SaSint],
    buckets: &mut [SaSint],
    d: SaSint,
    omp_block_start: FastSint,
    omp_block_size: FastSint,
) -> (r: SaSint)
    requires
        isize::MIN <= omp_block_start + omp_block_size <= isize::MAX,
        partial_sorting_scan_left_to_right_32s_6k_run(t@, (old(sa)@, old(buckets)@, d), omp_block_start as int, omp_block_size as int) is Some,
    ensures
        partial_sorting_scan_left_to_right_32s_6k_run(t@, (old(sa)@, old(buckets)@, d), omp_block_start as int, omp_block_size as int) == Some((final(sa)@, final(buckets)@, r)),
        final(sa).len() == old(sa).len(),
        final(buckets).len() == old(buckets).len(),
{
    let mut names: SaSint = d;
    let _ok: bool = try_partial_sorting_scan_left_to_right_32s_6k(t, sa, buckets, &mut names, omp_block_start, omp_block_size);
    names
}

/// One step of the right-to-left scan over LMS substrings of an integer text
/// with six buckets for each symbol: the suffix found at slot `i` induces the
/// suffix before it, marked where it opens a new name.
pub open spec fn partial_sorting_scan_right_to_left_32s_6k_step(t: Seq<i32>) -> spec_fn(InduceState, int) -> Option<InduceState> {
    |s: InduceState, i: int|
        {
            let (sa, b, d) = s;
            let p = unmarked(sa[i]);
            let e = d + bit(sa[i] < 0);
            let v = 4 * t[p - 1] + bit(t[p - 2] > t[p - 1]);
            let x = b[v] - 1;
            if 0 <= i < sa.len() && e <= i32::MAX && 2 <= p <= t.len() && 0 <= t[p - 1] && v + 2 < b.len()
                && 0 <= x < sa.len() {
                Some((
                    sa.update(x as int, marked((p - 1) as i32, b[v + 2] != e)),
                    b.update(v, x as i32).update(v + 2, e as i32),
                    e as i32,
                ))
            } else {
                None
            }
        }
}

/// [`partial_sorting_scan_right_to_left_32s_6k_step`] over the `size` positions from `start`, downward.
pub open spec fn partial_sorting_scan_right_to_left_32s_6k_run(t: Seq<i32>, s: InduceState, start: int, size: int) -> Option<InduceState> {
    fold_down(partial_sorting_scan_right_to_left_32s_6k_step(t), s, start, start + size)
}

/// Performs one step, or returns `false` where the step is outside its domain.
fn partial_sorting_scan_right_to_left_32s_6k_at(
    t: &[SaSint],
    sa: &mut [SaSint],
    buckets: &mut [SaSint],
    d: &mut SaSint,
    i: FastSint,
) -> (ok: bool)
    ensures
        ok == (partial_sorting_scan_right_to_left_32s_6k_step(t@)((old(sa)@, old(buckets)@, *old(d)), i as int) is Some),
        ok ==> partial_sorting_scan_right_to_left_32s_6k_step(t@)((old(sa)@, old(buckets)@, *old(d)), i as int) == Some((final(sa)@, final(buckets)@, *final(d))),
        final(sa).len() == old(sa).len(),
        final(buckets).len() == old(buckets).len(),
{
    if !word_within(i, sa.len()) {
        return false;
    }
    let m: SaSint = sa[i as usize];
    if m < 0 && *d == SAINT_MAX {
        return false;
    }
    let e: SaSint = if m < 0 { *d + 1 } else { *d };
    let p: usize = clear_mark(m) as usize;
    if !(2 <= p && p <= t.len()) {
        return false;
    }
    let c: SaSint = t[p - 1];
    let s: bool = t[p - 2] > c;
    if c < 0 || 4 * (c as u64) + (if s { 3 } else { 2 }) >= buckets.len() as u64 {
        return false;
    }
    let v: usize = 4 * (c as usize) + (if s { 1 } else { 0 });
    if buckets[v] <= 0 {
        return false;
    }
    let x: SaSint = buckets[v] - 1;
    if !within(x, sa.len()) {
        return false;
    }
    buckets[v] = x;
    sa[x as usize] = set_mark((p - 1) as SaSint, buckets[v + 2] != e);
    buckets[v + 2] = e;
    *d = e;
    true
}

/// Runs the scan as far as it is defined; `false` where it is not.
pub(crate) fn try_partial_sorting_scan_right_to_left_32s_6k(
    t: &[SaSint],
    sa: &mut [SaSint],
    buckets: &mut [SaSint],
    d: &mut SaSint,
    start: FastSint,
    size: FastSint,
) -> (ok: bool)
    requires
        isize::MIN <= start + size <= isize::MAX,
    ensures
        ok == (partial_sorting_scan_right_to_left_32s_6k_run(t@, (old(sa)@, old(buckets)@, *old(d)), start as int, size as int) is Some),
        ok ==> partial_sorting_scan_right_to_left_32s_6k_run(t@, (old(sa)@, old(buckets)@, *old(d)), start as int, size as int) == Some((final(sa)@, final(buckets)@, *final(d))),
        final(sa).len() == old(sa).len(),
        final(buckets).len() == old(buckets).len(),
{

    if size <= 0 {
        return true;
    }
    let mut i: FastSint = start + size;
    let ghost step = partial_sorting_scan_right_to_left_32s_6k_step(t@);
    let ghost s0 = (sa@, buckets@, *d);
    while i > start
        invariant
            start <= i <= start + size,
            step == partial_sorting_scan_right_to_left_32s_6k_step(t@),
            s0 == (old(sa)@, old(buckets)@, *old(d)),
            fold_down(step, s0, i as int, start + size) == Some((sa@, buckets@, *d)),
            sa.len() == old(sa).len(),
            buckets.len() == old(buckets).len(),
        decreases i - start,
    {
        proof {
            lemma_fold_down_prefix(step, s0, start as int, i - 1, start + size);
        }
        i -= 1;
        if !partial_sorting_scan_right_to_left_32s_6k_at(t, sa, buckets, d, i) {
            return false;
        }
    }
    true
}

/// One step of the right-to-left scan over LMS substrings of an integer text
/// with six buckets for each symbol: the suffix found at slot `i` induces the
/// suffix before it, marked where it opens a new name.
/// The scan covers `omp_block_size` positions from `omp_block_start`, downward.
pub fn partial_sorting_scan_right_to_left_32s_6k(
    t: &[SaSint],
    sa: &mut [SaSint],
    buckets: &mut [SaSint],
    d: SaSint,
    omp_block_start: FastSint,
    omp_block_size: FastSint,
) -> (r: SaSint)
    requires
        isize::MIN <= omp_block_start + omp_block_size <= isize::MAX,
        partial_sorting_scan_right_to_left_32s_6k_run(t@, (old(sa)@, old(buckets)@, d), omp_block_start as int, omp_block_size as int) is Some,
    ensures
        partial_sorting_scan_right_to_left_32s_6k_run(t@, (old(sa)@, old(buckets)@, d), omp_block_start as int, omp_block_size as int) == Some((final(sa)@, final(buckets)@, r)),
        final(sa).len() == old(sa).len(),
        final(buckets).len() == old(buckets).len(),
{
    let mut names: SaSint = d;
    let _ok: bool = try_partial_sorting_scan_right_to_left_32s_6k(t, sa, buckets, &mut names, omp_block_start, omp_block_size);
    names
}

/// One step of the left-to-right scan over LMS substrings of an integer text
/// with four buckets for each symbol: a plain suffix at slot `i` leaves its slot
/// and induces the suffix before it; the sign mark says that the chain ends there,
/// the group bit that a new name opens.
pub open spec fn partial_sorting_scan_left_to_right_32s_4k_step(t: Seq<i32>, k: int) -> spec_fn(InduceState, int) -> Option<InduceState> {
    |s: InduceState, i: int|
        {
            let (sa, b, d) = s;
            let p = sa[i];
            let q = ungrouped(p);
            let e = d + bit(grouped(p));
            let c = t[q - 1];
            let f = t[q - 2] < c;
            let v = 2 * c + bit(f);
            let u = 2 * k + c;
            let x = b[u];
            if !(0 <= i < sa.len()) {
                None
            } else if p <= 0 {
                Some((sa.update(i, unmarked(p)), b, d))
            } else if e <= i32::MAX && 2 <= q <= t.len() && 0 <= k && 0 <= c && u < b.len() && v < b.len()
                && 0 <= x < sa.len() && x < i32::MAX {
                Some((
                    sa.update(i, 0).update(x as int, with_group(marked((q - 1) as i32, f), b[v] != e)),
                    b.update(u, (x + 1) as i32).update(v, e as i32),
                    e as i32,
                ))
            } else {
                None
            }
        }
}

/// [`partial_sorting_scan_left_to_right_32s_4k_step`] over the `size` positions from `start`, upward.
pub open spec fn partial_sorting_scan_left_to_right_32s_4k_run(t: Seq<i32>, k: int, s: InduceState, start: int, size: int) -> Option<InduceState> {
    fold_up(partial_sorting_scan_left_to_right_32s_4k_step(t, k), s, start, start + size)
}

/// Performs one step, or returns `false` where the step is outside its domain.
fn partial_sorting_scan_left_to_right_32s_4k_at(
    t: &[SaSint],
    sa: &mut [SaSint],
    k: SaSint,
    buckets: &mut [SaSint],
    d: &mut SaSint,
    i: FastSint,
) -> (ok: bool)
    ensures
        ok == (partial_sorting_scan_left_to_right_32s_4k_step(t@, k as int)((old(sa)@, old(buckets)@, *old(d)), i as int) is Some),
        ok ==> partial_sorting_scan_left_to_right_32s_4k_step(t@, k as int)((old(sa)@, old(buckets)@, *old(d)), i as int) == Some((final(sa)@, final(buckets)@, *final(d))),
        final(sa).len() == old(sa).len(),
        final(buckets).len() == old(buckets).len(),
{
    if !word_within(i, sa.len()) {
        return false;
    }
    let p: SaSint = sa[i as usize];
    if p <= 0 {
        sa[i as usize] = clear_mark(p);
        return true;
    }
    let g: bool = has_group(p);
    if g && *d == SAINT_MAX {
        return false;
    }
    let e: SaSint = if g { *d + 1 } else { *d };
    let q: usize = clear_group(p) as usize;
    if !(2 <= q && q <= t.len()) || k < 0 {
        return false;
    }
    let c: SaSint = t[q - 1];
    let f: bool = t[q - 2] < c;
    if c < 0 || 2 * (k as u64) + c as u64 >= buckets.len() as u64
        || 2 * (c as u64) + (if f { 1 } else { 0 }) >= buckets.len() as u64 {
        return false;
    }
    let u: usize = (2 * (k as u64) + c as u64) as usize;
    let v: usize = 2 * (c as usize) + (if f { 1 } else { 0 });
    let x: SaSint = buckets[u];
    if !within(x, sa.len()) || x == SAINT_MAX {
        return false;
    }
    sa[i as usize] = 0;
    sa[x as usize] = set_group(set_mark((q - 1) as SaSint, f), buckets[v] != e);
    buckets[u] = x + 1;
    buckets[v] = e;
    *d = e;
    true
}

/// Runs the scan as far as it is defined; `false` where it is not.
pub(crate) fn try_partial_sorting_scan_left_to_right_32s_4k(
    t: &[SaSint],
    sa: &mut [SaSint],
    k: SaSint,
    buckets: &mut [SaSint],
    d: &mut SaSint,
    start: FastSint,
    size: FastSint,
) -> (ok: bool)
    requires
        isize::MIN <= start + size <= isize::MAX,
    ensures
        ok == (partial_sorting_scan_left_to_right_32s_4k_run(t@, k as int, (old(sa)@, old(buckets)@, *old(d)), start as int, size as int) is Some),
        ok ==> partial_sorting_scan_left_to_right_32s_4k_run(t@, k as int, (old(sa)@, old(buckets)@, *old(d)), start as int, size as int) == Some((final(sa)@, final(buckets)@, *final(d))),
        final(sa).len() == old(sa).len(),
        final(buckets).len() == old(buckets).len(),
{

    let end: FastSint = start + size;
    let mut i: FastSint = start;
    let ghost step = partial_sorting_scan_left_to_right_32s_4k_step(t@, k as int);
    let ghost s0 = (sa@, buckets@, *d);
    while i < end
        invariant
            start <= i,
            i <= end || size < 0,
            size < 0 ==> i == start,
            end == start + size,
            step == partial_sorting_scan_left_to_right_32s_4k_step(t@, k as int),
            s0 == (old(sa)@, old(buckets)@, *old(d)),
            fold_up(step, s0, start as int, i as int) == Some((sa@, buckets@, *d)),
            sa.len() == old(sa).len(),
            buckets.len() == old(buckets).len(),
        decreases end - i,
    {
        proof {
            lemma_fold_up_prefix(step, s0, start as int, i + 1, end as int);
        }
        if !partial_sorting_scan_left_to_right_32s_4k_at(t, sa, k, buckets, d, i) {
            return false;
        }
        i += 1;
    }
    true
}

/// One step of the left-to-right scan over LMS substrings of an integer text
/// with four buckets for each symbol: a plain suffix at slot `i` leaves its slot
/// and induces the suffix before it; the sign mark says that the chain ends there,
/// the group bit that a new name opens.
/// The scan covers `omp_block_size` positions from `omp_block_start`, upward.
pub fn partial_sorting_scan_left_to_right_32s_4k(
    t: &[SaSint],
    sa: &mut [SaSint],
    k: SaSint,
    buckets: &mut [SaSint],
    d: SaSint,
    omp_block_start: FastSint,
    omp_block_size: FastSint,
) -> (r: SaSint)
    requires
        isize::MIN <= omp_block_start + omp_block_size <= isize::MAX,
        partial_sorting_scan_left_to_right_32s_4k_run(t@, k as int, (old(sa)@, old(buckets)@, d), omp_block_start as int, omp_block_size as int) is Some,
    ensures
        partial_sorting_scan_left_to_right_32s_4k_run(t@, k as int, (old(sa)@, old(buckets)@, d), omp_block_start as int, omp_block_size as int) == Some((final(sa)@, final(buckets)@, r)),
        final(sa).len() == old(sa).len(),
        final(buckets).len() == old(buckets).len(),
{
    let mut names: SaSint = d;
    let _ok: bool = try_partial_sorting_scan_left_to_right_32s_4k(t, sa, k, buckets, &mut names, omp_block_start, omp_block_size);
    names
}

/// One step of the right-to-left scan over LMS substrings of an integer text
/// with four buckets for each symbol: a plain suffix at slot `i` leaves its slot
/// and induces the suffix before it; the sign mark says that the chain ends there,
/// the group bit that a new name opens.
pub open spec fn partial_sorting_scan_right_to_left_32s_4k_step(t: Seq<i32>, k: int) -> spec_fn(InduceState, int) -> Option<InduceState> {
    |s: InduceState, i: int|
        {
            let (sa, b, d) = s;
            let p = sa[i];
            let q = ungrouped(p);
            let e = d + bit(grouped(p));
            let c = t[q - 1];
            let f = t[q - 2] > c;
            let v = 2 * c + bit(f);
            let u = 3 * k + c;
            let x = b[u] - 1;
            if !(0 <= i < sa.len()) {
                None
            } else if p <= 0 {
                Some(s)
            } else if e <= i32::MAX && 2 <= q <= t.len() && 0 <= k && 0 <= c && u < b.len() && v < b.len()
                && 0 <= x < sa.len() {
                Some((
                    sa.update(i, 0).update(x as int, with_group(marked((q - 1) as i32, f), b.update(u, x as i32)[v] != e)),
                    b.update(u, x as i32).update(v, e as i32),
                    e as i32,
                ))
            } else {
                None
            }
        }
}

/// [`partial_sorting_scan_right_to_left_32s_4k_step`] over the `size` positions from `start`, downward.
pub open spec fn partial_sorting_scan_right_to_left_32s_4k_run(t: Seq<i32>, k: int, s: InduceState, start: int, size: int) -> Option<InduceState> {
    fold_down(partial_sorting_scan_right_to_left_32s_4k_step(t, k), s, start, start + size)
}

/// Performs one step, or returns `false` where the step is outside its domain.
fn partial_sorting_scan_right_to_left_32s_4k_at(
    t: &[SaSint],
    sa: &mut [SaSint],
    k: SaSint,
    buckets: &mut [SaSint],
    d: &mut SaSint,
    i: FastSint,
) -> (ok: bool)
    ensures
        ok == (partial_sorting_scan_right_to_left_32s_4k_step(t@, k as int)((old(sa)@, old(buckets)@, *old(d)), i as int) is Some),
        ok ==> partial_sorting_scan_right_to_left_32s_4k_step(t@, k as int)((old(sa)@, old(buckets)@, *old(d)), i as int) == Some((final(sa)@, final(buckets)@, *final(d))),
        final(sa).len() == old(sa).len(),
        final(buckets).len() == old(buckets).len(),
{
    if !word_within(i, sa.len()) {
        return false;
    }
    let p: SaSint = sa[i as usize];
    if p <= 0 {
        return true;
    }
    let g: bool = has_group(p);
    if g && *d == SAINT_MAX {
        return false;
    }
    let e: SaSint = if g { *d + 1 } else { *d };
    let q: usize = clear_group(p) as usize;
    if !(2 <= q && q <= t.len()) || k < 0 {
        return false;
    }
    let c: SaSint = t[q - 1];
    let f: bool = t[q - 2] > c;
    if c < 0 || 3 * (k as u64) + c as u64 >= buckets.len() as u64
        || 2 * (c as u64) + (if f { 1 } else { 0 }) >= buckets.len() as u64 {
        return false;
    }
    let u: usize = (3 * (k as u64) + c as u64) as usize;
    let v: usize = 2 * (c as usize) + (if f { 1 } else { 0 });
    if buckets[u] <= 0 {
        return false;
    }
    let x: SaSint = buckets[u] - 1;
    if !within(x, sa.len()) {
        return false;
    }
    sa[i as usize] = 0;
    buckets[u] = x;
    sa[x as usize] = set_group(set_mark((q - 1) as SaSint, f), buckets[v] != e);
    buckets[v] = e;
    *d = e;
    true
}

/// Runs the scan as far as it is defined; `false` where it is not.
pub(crate) fn try_partial_sorting_scan_right_to_left_32s_4k(
    t: &[SaSint],
    sa: &mut [SaSint],
    k: SaSint,
    buckets: &mut [SaSint],
    d: &mut SaSint,
    start: FastSint,
    size: FastSint,
) -> (ok: bool)
    requires
        isize::MIN <= start + size <= isize::MAX,
    ensures
        ok == (partial_sorting_scan_right_to_left_32s_4k_run(t@, k as int, (old(sa)@, old(buckets)@, *old(d)), start as int, size as int) is Some),
        ok ==> partial_sorting_scan_right_to_left_32s_4k_run(t@, k as int, (old(sa)@, old(buckets)@, *old(d)), start as int, size as int) == Some((final(sa)@, final(buckets)@, *final(d))),
        final(sa).len() == old(sa).len(),
        final(buckets).len() == old(buckets).len(),
{

    if size <= 0 {
        return true;
    }
    let mut i: FastSint = start + size;
    let ghost step = partial_sorting_scan_right_to_left_32s_4k_step(t@, k as int);
    let ghost s0 = (sa@, buckets@, *d);
    while i > start
        invariant
            start <= i <= start + size,
            step == partial_sorting_scan_right_to_left_32s_4k_step(t@, k as int),
            s0 == (old(sa)@, old(buckets)@, *old(d)),
            fold_down(step, s0, i as int, start + size) == Some((sa@, buckets@, *d)),
            sa.len() == old(sa).len(),
            buckets.len() == old(buckets).len(),
        decreases i - start,
    {
        proof {
            lemma_fold_down_prefix(step, s0, start as int, i - 1, start + size);
        }
        i -= 1;
        if !partial_sorting_scan_right_to_left_32s_4k_at(t, sa, k, buckets, d, i) {
            return false;
        }
    }
    true
}

/// One step of the right-to-left scan over LMS substrings of an integer text
/// with four buckets for each symbol: a plain suffix at slot `i` leaves its slot
/// and induces the suffix before it; the sign mark says that the chain ends there,
/// the group bit that a new name opens.
/// The scan covers `omp_block_size` positions from `omp_block_start`, downward.
pub fn partial_sorting_scan_right_to_left_32s_4k(
    t: &[SaSint],
    sa: &mut [SaSint],
    k: SaSint,
    buckets: &mut [SaSint],
    d: SaSint,
    omp_block_start: FastSint,
    omp_block_size: FastSint,
) -> (r: SaSint)
    requires
        isize::MIN <= omp_block_start + omp_block_size <= isize::MAX,
        partial_sorting_scan_right_to_left_32s_4k_run(t@, k as int, (old(sa)@, old(buckets)@, d), omp_block_start as int, omp_block_size as int) is Some,
    ensures
        partial_sorting_scan_right_to_left_32s_4k_run(t@, k as int, (old(sa)@, old(buckets)@, d), omp_block_start as int, omp_block_size as int) == Some((final(sa)@, final(buckets)@, r)),
        final(sa).len() == old(sa).len(),
        final(buckets).len() == old(buckets).len(),
{
    let mut names: SaSint = d;
    let _ok: bool = try_partial_sorting_scan_right_to_left_32s_4k(t, sa, k, buckets, &mut names, omp_block_start, omp_block_size);
    names
}

/// One step of the left-to-right scan over LMS substrings of an integer text
/// with one bucket for each symbol: a plain suffix at slot `i` leaves its slot and
/// induces the suffix before it, marked where the chain ends.
pub open spec fn partial_sorting_scan_left_to_right_32s_1k_step(t: Seq<i32>) -> spec_fn(PlaceState, int) -> Option<PlaceState> {
    |s: PlaceState, i: int|
        {
            let (sa, b) = s;
            let p = sa[i];
            let c = t[p - 1];
            let x = b[c as int];
            if !(0 <= i < sa.len()) {
                None
            } else if p <= 0 {
                Some((sa.update(i, unmarked(p)), b))
            } else if 2 <= p <= t.len() && 0 <= c < b.len() && 0 <= x < sa.len() && x < i32::MAX {
                Some((
                    sa.update(i, 0).update(x as int, marked((p - 1) as i32, t[p - 2] < c)),
                    b.update(c as int, (x + 1) as i32),
                ))
            } else {
                None
            }
        }
}

/// [`partial_sorting_scan_left_to_right_32s_1k_step`] over the `size` positions from `start`, upward.
pub open spec fn partial_sorting_scan_left_to_right_32s_1k_run(t: Seq<i32>, s: PlaceState, start: int, size: int) -> Option<PlaceState> {
    fold_up(partial_sorting_scan_left_to_right_32s_1k_step(t), s, start, start + size)
}

/// Performs one step, or returns `false` where the step is outside its domain.
fn partial_sorting_scan_left_to_right_32s_1k_at(
    t: &[SaSint],
    sa: &mut [SaSint],
    induction_bucket: &mut [SaSint],
    i: FastSint,
) -> (ok: bool)
    ensures
        ok == (partial_sorting_scan_left_to_right_32s_1k_step(t@)((old(sa)@, old(induction_bucket)@), i as int) is Some),
        ok ==> partial_sorting_scan_left_to_right_32s_1k_step(t@)((old(sa)@, old(induction_bucket)@), i as int) == Some((final(sa)@, final(induction_bucket)@)),
        final(sa).len() == old(sa).len(),
        final(induction_bucket).len() == old(induction_bucket).len(),
{
    if !word_within(i, sa.len()) {
        return false;
    }
    let p: SaSint = sa[i as usize];
    if p <= 0 {
        sa[i as usize] = clear_mark(p);
        return true;
    }
    let q: usize = p as usize;
    if !(2 <= q && q <= t.len()) {
        return false;
    }
    let c: SaSint = t[q - 1];
    if !within(c, induction_bucket.len()) {
        return false;
    }
    let x: SaSint = induction_bucket[c as usize];
    if !within(x, sa.len()) || x == SAINT_MAX {
        return false;
    }
    sa[i as usize] = 0;
    induction_bucket[c as usize] = x + 1;
    sa[x as usize] = set_mark(p - 1, t[q - 2] < c);
    true
}

/// Runs the scan as far as it is defined; `false` where it is not.
pub(crate) fn try_partial_sorting_scan_left_to_right_32s_1k(
    t: &[SaSint],
    sa: &mut [SaSint],
    induction_bucket: &mut [SaSint],
    start: FastSint,
    size: FastSint,
) -> (ok: bool)
    requires
        isize::MIN <= start + size <= isize::MAX,
    ensures
        ok == (partial_sorting_scan_left_to_right_32s_1k_run(t@, (old(sa)@, old(induction_bucket)@), start as int, size as int) is Some),
        ok ==> partial_sorting_scan_left_to_right_32s_1k_run(t@, (old(sa)@, old(induction_bucket)@), start as int, size as int) == Some((final(sa)@, final(induction_bucket)@)),
        final(sa).len() == old(sa).len(),
        final(induction_bucket).len() == old(induction_bucket).len(),
{

    let end: FastSint = start + size;
    let mut i: FastSint = start;
    let ghost step = partial_sorting_scan_left_to_right_32s_1k_step(t@);
    let ghost s0 = (sa@, induction_bucket@);
    while i < end
        invariant
            start <= i,
            i <= end || size < 0,
            size < 0 ==> i == start,
            end == start + size,
            step == partial_sorting_scan_left_to_right_32s_1k_step(t@),
            s0 == (old(sa)@, old(induction_bucket)@),
            fold_up(step, s0, start as int, i as int) == Some((sa@, induction_bucket@)),
            sa.len() == old(sa).len(),
            induction_bucket.len() == old(induction_bucket).len(),
        decreases end - i,
    {
        proof {
            lemma_fold_up_prefix(step, s0, start as int, i + 1, end as int);
        }
        if !partial_sorting_scan_left_to_right_32s_1k_at(t, sa, induction_bucket, i) {
            return false;
        }
        i += 1;
    }
    true
}

/// One step of the left-to-right scan over LMS substrings of an integer text
/// with one bucket for each symbol: a plain suffix at slot `i` leaves its slot and
/// induces the suffix before it, marked where the chain ends.
/// The scan covers `omp_block_size` positions from `omp_block_start`, upward.
pub fn partial_sorting_scan_left_to_right_32s_1k(
    t: &[SaSint],
    sa: &mut [SaSint],
    induction_bucket: &mut [SaSint],
    omp_block_start: FastSint,
    omp_block_size: FastSint,
)
    requires
        isize::MIN <= omp_block_start + omp_block_size <= isize::MAX,
        partial_sorting_scan_left_to_right_32s_1k_run(t@, (old(sa)@, old(induction_bucket)@), omp_block_start as int, omp_block_size as int) is Some,
    ensures
        partial_sorting_scan_left_to_right_32s_1k_run(t@, (old(sa)@, old(induction_bucket)@), omp_block_start as int, omp_block_size as int) == Some((final(sa)@, final(induction_bucket)@)),
        final(sa).len() == old(sa).len(),
        final(induction_bucket).len() == old(induction_bucket).len(),
{
    let _ok: bool = try_partial_sorting_scan_left_to_right_32s_1k(t, sa, induction_bucket, omp_block_start, omp_block_size);
}

/// One step of the right-to-left scan over LMS substrings of an integer text
/// with one bucket for each symbol: a plain suffix at slot `i` leaves its slot and
/// induces the suffix before it, marked where the chain ends.
pub open spec fn partial_sorting_scan_right_to_left_32s_1k_step(t: Seq<i32>) -> spec_fn(PlaceState, int) -> Option<PlaceState> {
    |s: PlaceState, i: int|
        {
            let (sa, b) = s;
            let p = sa[i];
            let c = t[p - 1];
            let x = b[c as int] - 1;
            if !(0 <= i < sa.len()) {
                None
            } else if p <= 0 {
                Some(s)
            } else if 2 <= p <= t.len() && 0 <= c < b.len() && 0 <= x < sa.len() {
                Some((
                    sa.update(i, 0).update(x as int, marked((p - 1) as i32, t[p - 2] > c)),
                    b.update(c as int, x as i32),
                ))
            } else {
                None
            }
        }
}

/// [`partial_sorting_scan_right_to_left_32s_1k_step`] over the `size` positions from `start`, downward.
pub open spec fn partial_sorting_scan_right_to_left_32s_1k_run(t: Seq<i32>, s: PlaceState, start: int, size: int) -> Option<PlaceState> {
    fold_down(partial_sorting_scan_right_to_left_32s_1k_step(t), s, start, start + size)
}

/// Performs one step, or returns `false` where the step is outside its domain.
fn partial_sorting_scan_right_to_left_32s_1k_at(
    t: &[SaSint],
    sa: &mut [SaSint],
    induction_bucket: &mut [SaSint],
    i: FastSint,
) -> (ok: bool)
    ensures
        ok == (partial_sorting_scan_right_to_left_32s_1k_step(t@)((old(sa)@, old(induction_bucket)@), i as int) is Some),
        ok ==> partial_sorting_scan_right_to_left_32s_1k_step(t@)((old(sa)@, old(induction_bucket)@), i as int) == Some((final(sa)@, final(induction_bucket)@)),
        final(sa).len() == old(sa).len(),
        final(induction_bucket).len() == old(induction_bucket).len(),
{
    if !word_within(i, sa.len()) {
        return false;
    }
    let p: SaSint = sa[i as usize];
    if p <= 0 {
        return true;
    }
    let q: usize = p as usize;
    if !(2 <= q && q <= t.len()) {
        return false;
    }
    let c: SaSint = t[q - 1];
    if !within(c, induction_bucket.len()) {
        return false;
    }
    if induction_bucket[c as usize] <= 0 {
        return false;
    }
    let x: SaSint = induction_bucket[c as usize] - 1;
    if !within(x, sa.len()) {
        return false;
    }
    sa[i as usize] = 0;
    induction_bucket[c as usize] = x;
    sa[x as usize] = set_mark(p - 1, t[q - 2] > c);
    true
}

/// Runs the scan as far as it is defined; `false` where it is not.
pub(crate) fn try_partial_sorting_scan_right_to_left_32s_1k(
    t: &[SaSint],
    sa: &mut [SaSint],
    induction_bucket: &mut [SaSint],
    start: FastSint,
    size: FastSint,
) -> (ok: bool)
    requires
        isize::MIN <= start + size <= isize::MAX,
    ensures
        ok == (partial_sorting_scan_right_to_left_32s_1k_run(t@, (old(sa)@, old(induction_bucket)@), start as int, size as int) is Some),
        ok ==> partial_sorting_scan_right_to_left_32s_1k_run(t@, (old(sa)@, old(induction_bucket)@), start as int, size as int) == Some((final(sa)@, final(induction_bucket)@)),
        final(sa).len() == old(sa).len(),
        final(induction_bucket).len() == old(induction_bucket).len(),
{

    if size <= 0 {
        return true;
    }
    let mut i: FastSint = start + size;
    let ghost step = partial_sorting_scan_right_to_left_32s_1k_step(t@);
    let ghost s0 = (sa@, induction_bucket@);
    while i > start
        invariant
            start <= i <= start + size,
            step == partial_sorting_scan_right_to_left_32s_1k_step(t@),
            s0 == (old(sa)@, old(induction_bucket)@),
            fold_down(step, s0, i as int, start + size) == Some((sa@, induction_bucket@)),
            sa.len() == old(sa).len(),
            induction_bucket.len() == old(induction_bucket).len(),
        decreases i - start,
    {
        proof {
            lemma_fold_down_prefix(step, s0, start as int, i - 1, start + size);
        }
        i -= 1;
        if !partial_sorting_scan_right_to_left_32s_1k_at(t, sa, induction_bucket, i) {
            return false;
        }
    }
    true
}

/// One step of the right-to-left scan over LMS substrings of an integer text
/// with one bucket for each symbol: a plain suffix at slot `i` leaves its slot and
/// induces the suffix before it, marked where the chain ends.
/// The scan covers `omp_block_size` positions from `omp_block_start`, downward.
pub fn partial_sorting_scan_right_to_left_32s_1k(
    t: &[SaSint],
    sa: &mut [SaSint],
    induction_bucket: &mut [SaSint],
    omp_block_start: FastSint,
    omp_block_size: FastSint,
)
    requires
        isize::MIN <= omp_block_start + omp_block_size <= isize::MAX,
        partial_sorting_scan_right_to_left_32s_1k_run(t@, (old(sa)@, old(induction_bucket)@), omp_block_start as int, omp_block_size as int) is Some,
    ensures
        partial_sorting_scan_right_to_left_32s_1k_run(t@, (old(sa)@, old(induction_bucket)@), omp_block_start as int, omp_block_size as int) == Some((final(sa)@, final(induction_bucket)@)),
        final(sa).len() == old(sa).len(),
        final(induction_bucket).len() == old(induction_bucket).len(),
{
    let _ok: bool = try_partial_sorting_scan_right_to_left_32s_1k(t, sa, induction_bucket, omp_block_start, omp_block_size);
}

} // verus!
