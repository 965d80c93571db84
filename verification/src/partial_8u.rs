//! Scans that sort the LMS substrings of a byte text by induction.

use vstd::prelude::*;
use crate::fold::{fold_down, fold_up, lemma_fold_down_prefix, lemma_fold_up_prefix};
use crate::marks::{bit, clear_mark, marked, set_mark, unmarked, within, word_within};
use crate::types::{FastSint, InduceState, SaSint, SAINT_MAX};

verus! {

/// Where the induction buckets of a left-to-right byte scan start.
pub const INDUCTION_8U: usize = 1024;

/// Where the last names of a byte scan start.
pub const NAMES_8U: usize = 512;

/// One step of the left-to-right scan over LMS substrings of a byte text: the
/// suffix found at slot `i` induces the suffix before it into the next free slot
/// of its bucket, marked where it opens a new name.
pub open spec fn partial_sorting_scan_left_to_right_8u_step(t: Seq<u8>) -> spec_fn(InduceState, int) -> Option<InduceState> {
    |s: InduceState, i: int|
        {
            let (sa, b, d) = s;
            let p = unmarked(sa[i]);
            let e = d + bit(sa[i] < 0);
            let v = 2 * t[p - 1] + bit(t[p - 2] >= t[p - 1]);
            let x = b[INDUCTION_8U + v];
            if 0 <= i < sa.len() && e <= i32::MAX && 2 <= p <= t.len() && INDUCTION_8U + v < b.len()
                && 0 <= x < sa.len() && x < i32::MAX {
                Some((
                    sa.update(x as int, marked((p - 1) as i32, b[NAMES_8U + v] != e)),
                    b.update(INDUCTION_8U + v, (x + 1) as i32).update(NAMES_8U + v, e as i32),
                    e as i32,
                ))
            } else {
                None
            }
        }
}

/// [`partial_sorting_scan_left_to_right_8u_step`] over the `size` positions from `start`, upward.
pub open spec fn partial_sorting_scan_left_to_right_8u_run(t: Seq<u8>, s: InduceState, start: int, size: int) -> Option<InduceState> {
    fold_up(partial_sorting_scan_left_to_right_8u_step(t), s, start, start + size)
}

/// Performs one step, or returns `false` where the step is outside its domain.
fn partial_sorting_scan_left_to_right_8u_at(
    t: &[u8],
    sa: &mut [SaSint],
    buckets: &mut [SaSint],
    d: &mut SaSint,
    i: FastSint,
) -> (ok: bool)
    ensures
        ok == (partial_sorting_scan_left_to_right_8u_step(t@)((old(sa)@, old(buckets)@, *old(d)), i as int) is Some),
        ok ==> partial_sorting_scan_left_to_right_8u_step(t@)((old(sa)@, old(buckets)@, *old(d)), i as int) == Some((final(sa)@, final(buckets)@, *final(d))),
        final(sa).len() == old(sa).len(),
        final(buckets).len() == old(buckets).len(),
{
    if !word_within(i, sa.len()) {
        return false;
    }
    let m: SaSint = sa[i as usize];
    if m < 0 && *d == SAINT_MAX {
        return false;
    }
    let e: SaSint = if m < 0 { *d + 1 } else { *d };
    let p: usize = clear_mark(m) as usize;
    if !(2 <= p && p <= t.len()) {
        return false;
    }
    let v: usize = 2 * (t[p - 1] as usize) + (if t[p - 2] >= t[p - 1] { 1 } else { 0 });
    if buckets.len() <= INDUCTION_8U + v {
        return false;
    }
    let x: SaSint = buckets[INDUCTION_8U + v];
    if !within(x, sa.len()) || x == SAINT_MAX {
        return false;
    }
    sa[x as usize] = set_mark((p - 1) as SaSint, buckets[NAMES_8U + v] != e);
    buckets[INDUCTION_8U + v] = x + 1;
    buckets[NAMES_8U + v] = e;
    *d = e;
    true
}

/// Runs the scan as far as it is defined; `false` where it is not.
pub(crate) fn try_partial_sorting_scan_left_to_right_8u(
    t: &[u8],
    sa: &mut [SaSint],
    buckets: &mut [SaSint],
    d: &mut SaSint,
    start: FastSint,
    size: FastSint,
) -> (ok: bool)
    requires
        isize::MIN <= start + size <= isize::MAX,
    ensures
        ok == (partial_sorting_scan_left_to_right_8u_run(t@, (old(sa)@, old(buckets)@, *old(d)), start as int, size as int) is Some),
        ok ==> partial_sorting_scan_left_to_right_8u_run(t@, (old(sa)@, old(buckets)@, *old(d)), start as int, size as int) == Some((final(sa)@, final(buckets)@, *final(d))),
        final(sa).len() == old(sa).len(),
        final(buckets).len() == old(buckets).len(),
{

    let end: FastSint = start + size;
    let mut i: FastSint = start;
    let ghost step = partial_sorting_scan_left_to_right_8u_step(t@);
    let ghost s0 = (sa@, buckets@, *d);
    while i < end
        invariant
            start <= i,
            i <= end || size < 0,
            size < 0 ==> i == start,
            end == start + size,
            step == partial_sorting_scan_left_to_right_8u_step(t@),
            s0 == (old(sa)@, old(buckets)@, *old(d)),
            fold_up(step, s0, start as int, i as int) == Some((sa@, buckets@, *d)),
            sa.len() == old(sa).len(),
            buckets.len() == old(buckets).len(),
        decreases end - i,
    {
        proof {
            lemma_fold_up_prefix(step, s0, start as int, i + 1, end as int);
        }
        if !partial_sorting_scan_left_to_right_8u_at(t, sa, buckets, d, i) {
            return false;
        }
        i += 1;
    }
    true
}

/// One step of the left-to-right scan over LMS substrings of a byte text: the
/// suffix found at slot `i` induces the suffix before it into the next free slot
/// of its bucket, marked where it opens a new name.
/// The scan covers `omp_block_size` positions from `omp_block_start`, upward.
pub fn partial_sorting_scan_left_to_right_8u(
    t: &[u8],
    sa: &mut [SaSint],
    buckets: &mut [SaSint],
    d: SaSint,
    omp_block_start: FastSint,
    omp_block_size: FastSint,
) -> (r: SaSint)
    requires
        isize::MIN <= omp_block_start + omp_block_size <= isize::MAX,
        partial_sorting_scan_left_to_right_8u_run(t@, (old(sa)@, old(buckets)@, d), omp_block_start as int, omp_block_size as int) is Some,
    ensures
        partial_sorting_scan_left_to_right_8u_run(t@, (old(sa)@, old(buckets)@, d), omp_block_start as int, omp_block_size as int) == Some((final(sa)@, final(buckets)@, r)),
{
    let mut names: SaSint = d;
    let _ok: bool = try_partial_sorting_scan_left_to_right_8u(t, sa, buckets, &mut names, omp_block_start, omp_block_size);
    names
}

/// One step of the right-to-left scan over LMS substrings of a byte text: the
/// suffix found at slot `i` induces the suffix before it into the last free slot
/// of its bucket, marked where it opens a new name.
pub open spec fn partial_sorting_scan_right_to_left_8u_step(t: Seq<u8>) -> spec_fn(InduceState, int) -> Option<InduceState> {
    |s: InduceState, i: int|
        {
            let (sa, b, d) = s;
            let p = unmarked(sa[i]);
            let e = d + bit(sa[i] < 0);
            let v = 2 * t[p - 1] + bit(t[p - 2] > t[p - 1]);
            let x = b[v] - 1;
            if !(0 <= i < sa.len() && e <= i32::MAX && 2 <= p <= t.len()) {
                None
            } else if NAMES_8U + v < b.len() && 0 <= x < sa.len() {
                Some((
                    sa.update(x, marked((p - 1) as i32, b[NAMES_8U + v] != e)),
                    b.update(v, x as i32).update(NAMES_8U + v, e as i32),
                    e as i32,
                ))
            } else {
                None
            }
        }
}

/// [`partial_sorting_scan_right_to_left_8u_step`] over the `size` positions from `start`, downward.
pub open spec fn partial_sorting_scan_right_to_left_8u_run(t: Seq<u8>, s: InduceState, start: int, size: int) -> Option<InduceState> {
    fold_down(partial_sorting_scan_right_to_left_8u_step(t), s, start, start + size)
}

/// Performs one step, or returns `false` where the step is outside its domain.
fn partial_sorting_scan_right_to_left_8u_at(
    t: &[u8],
    sa: &mut [SaSint],
    buckets: &mut [SaSint],
    d: &mut SaSint,
    i: FastSint,
) -> (ok: bool)
    ensures
        ok == (partial_sorting_scan_right_to_left_8u_step(t@)((old(sa)@, old(buckets)@, *old(d)), i as int) is Some),
        ok ==> partial_sorting_scan_right_to_left_8u_step(t@)((old(sa)@, old(buckets)@, *old(d)), i as int) == Some((final(sa)@, final(buckets)@, *final(d))),
        final(sa).len() == old(sa).len(),
        final(buckets).len() == old(buckets).len(),
{
    if !word_within(i, sa.len()) {
        return false;
    }
    let m: SaSint = sa[i as usize];
    if m < 0 && *d == SAINT_MAX {
        return false;
    }
    let e: SaSint = if m < 0 { *d + 1 } else { *d };
    let p: usize = clear_mark(m) as usize;
    if !(2 <= p && p <= t.len()) {
        return false;
    }
    let v: usize = 2 * (t[p - 1] as usize) + (if t[p - 2] > t[p - 1] { 1 } else { 0 });
    if buckets.len() <= NAMES_8U + v || buckets[v] <= 0 {
        return false;
    }
    let x: SaSint = buckets[v] - 1;
    if !within(x, sa.len()) {
        return false;
    }
    buckets[v] = x;
    sa[x as usize] = set_mark((p - 1) as SaSint, buckets[NAMES_8U + v] != e);
    buckets[NAMES_8U + v] = e;
    *d = e;
    true
}

/// Runs the scan as far as it is defined; `false` where it is not.
pub(crate) fn try_partial_sorting_scan_right_to_left_8u(
    t: &[u8],
    sa: &mut [SaSint],
    buckets: &mut [SaSint],
    d: &mut SaSint,
    start: FastSint,
    size: FastSint,
) -> (ok: bool)
    requires
        isize::MIN <= start + size <= isize::MAX,
    ensures
        ok == (partial_sorting_scan_right_to_left_8u_run(t@, (old(sa)@, old(buckets)@, *old(d)), start as int, size as int) is Some),
        ok ==> partial_sorting_scan_right_to_left_8u_run(t@, (old(sa)@, old(buckets)@, *old(d)), start as int, size as int) == Some((final(sa)@, final(buckets)@, *final(d))),
        final(sa).len() == old(sa).len(),
        final(buckets).len() == old(buckets).len(),
{

    if size <= 0 {
        return true;
    }
    let mut i: FastSint = start + size;
    let ghost step = partial_sorting_scan_right_to_left_8u_step(t@);
    let ghost s0 = (sa@, buckets@, *d);
    while i > start
        invariant
            start <= i <= start + size,
            step == partial_sorting_scan_right_to_left_8u_step(t@),
            s0 == (old(sa)@, old(buckets)@, *old(d)),
            fold_down(step, s0, i as int, start + size) == Some((sa@, buckets@, *d)),
            sa.len() == old(sa).len(),
            buckets.len() == old(buckets).len(),
        decreases i - start,
    {
        proof {
            lemma_fold_down_prefix(step, s0, start as int, i - 1, start + size);
        }
        i -= 1;
        if !partial_sorting_scan_right_to_left_8u_at(t, sa, buckets, d, i) {
            return false;
        }
    }
    true
}

/// One step of the right-to-left scan over LMS substrings of a byte text: the
/// suffix found at slot `i` induces the suffix before it into the last free slot
/// of its bucket, marked where it opens a new name.
/// The scan covers `omp_block_size` positions from `omp_block_start`, downward.
pub fn partial_sorting_scan_right_to_left_8u(
    t: &[u8],
    sa: &mut [SaSint],
    buckets: &mut [SaSint],
    d: SaSint,
    omp_block_start: FastSint,
    omp_block_size: FastSint,
) -> (r: SaSint)
    requires
        isize::MIN <= omp_block_start + omp_block_size <= isize::MAX,
        partial_sorting_scan_right_to_left_8u_run(t@, (old(sa)@, old(buckets)@, d), omp_block_start as int, omp_block_size as int) is Some,
    ensures
        partial_sorting_scan_right_to_left_8u_run(t@, (old(sa)@, old(buckets)@, d), omp_block_start as int, omp_block_size as int) == Some((final(sa)@, final(buckets)@, r)),
{
    let mut names: SaSint = d;
    let _ok: bool = try_partial_sorting_scan_right_to_left_8u(t, sa, buckets, &mut names, omp_block_start, omp_block_size);
    names
}

/// One step of the right-to-left scan over LMS substrings of separated texts: as
/// in the plain scan, but nothing is induced in front of a separator.
pub open spec fn partial_gsa_scan_right_to_left_8u_step(t: Seq<u8>) -> spec_fn(InduceState, int) -> Option<InduceState> {
    |s: InduceState, i: int|
        {
            let (sa, b, d) = s;
            let p = unmarked(sa[i]);
            let e = d + bit(sa[i] < 0);
            let v = 2 * t[p - 1] + bit(t[p - 2] > t[p - 1]);
            let x = b[v] - 1;
            if !(0 <= i < sa.len() && e <= i32::MAX && 2 <= p <= t.len()) {
                None
            } else if v == 1 {
                Some((sa, b, e as i32))
            } else if NAMES_8U + v < b.len() && 0 <= x < sa.len() {
                Some((
                    sa.update(x, marked((p - 1) as i32, b[NAMES_8U + v] != e)),
                    b.update(v, x as i32).update(NAMES_8U + v, e as i32),
                    e as i32,
                ))
            } else {
                None
            }
        }
}

/// [`partial_gsa_scan_right_to_left_8u_step`] over the `size` positions from `start`, downward.
pub open spec fn partial_gsa_scan_right_to_left_8u_run(t: Seq<u8>, s: InduceState, start: int, size: int) -> Option<InduceState> {
    fold_down(partial_gsa_scan_right_to_left_8u_step(t), s, start, start + size)
}

/// Performs one step, or returns `false` where the step is outside its domain.
fn partial_gsa_scan_right_to_left_8u_at(
    t: &[u8],
    sa: &mut [SaSint],
    buckets: &mut [SaSint],
    d: &mut SaSint,
    i: FastSint,
) -> (ok: bool)
    ensures
        ok == (partial_gsa_scan_right_to_left_8u_step(t@)((old(sa)@, old(buckets)@, *old(d)), i as int) is Some),
        ok ==> partial_gsa_scan_right_to_left_8u_step(t@)((old(sa)@, old(buckets)@, *old(d)), i as int) == Some((final(sa)@, final(buckets)@, *final(d))),
        final(sa).len() == old(sa).len(),
        final(buckets).len() == old(buckets).len(),
{
    if !word_within(i, sa.len()) {
        return false;
    }
    let m: SaSint = sa[i as usize];
    if m < 0 && *d == SAINT_MAX {
        return false;
    }
    let e: SaSint = if m < 0 { *d + 1 } else { *d };
    let p: usize = clear_mark(m) as usize;
    if !(2 <= p && p <= t.len()) {
        return false;
    }
    let v: usize = 2 * (t[p - 1] as usize) + (if t[p - 2] > t[p - 1] { 1 } else { 0 });
    if v == 1 {
        *d = e;
        return true;
    }
    if buckets.len() <= NAMES_8U + v || buckets[v] <= 0 {
        return false;
    }
    let x: SaSint = buckets[v] - 1;
    if !within(x, sa.len()) {
        return false;
    }
    buckets[v] = x;
    sa[x as usize] = set_mark((p - 1) as SaSint, buckets[NAMES_8U + v] != e);
    buckets[NAMES_8U + v] = e;
    *d = e;
    true
}

/// Runs the scan as far as it is defined; `false` where it is not.
pub(crate) fn try_partial_gsa_scan_right_to_left_8u(
    t: &[u8],
    sa: &mut [SaSint],
    buckets: &mut [SaSint],
    d: &mut SaSint,
    start: FastSint,
    size: FastSint,
) -> (ok: bool)
    requires
        isize::MIN <= start + size <= isize::MAX,
    ensures
        ok == (partial_gsa_scan_right_to_left_8u_run(t@, (old(sa)@, old(buckets)@, *old(d)), start as int, size as int) is Some),
        ok ==> partial_gsa_scan_right_to_left_8u_run(t@, (old(sa)@, old(buckets)@, *old(d)), start as int, size as int) == Some((final(sa)@, final(buckets)@, *final(d))),
        final(sa).len() == old(sa).len(),
        final(buckets).len() == old(buckets).len(),
{

    if size <= 0 {
        return true;
    }
    let mut i: FastSint = start + size;
    let ghost step = partial_gsa_scan_right_to_left_8u_step(t@);
    let ghost s0 = (sa@, buckets@, *d);
    while i > start
        invariant
            start <= i <= start + size,
            step == partial_gsa_scan_right_to_left_8u_step(t@),
            s0 == (old(sa)@, old(buckets)@, *old(d)),
            fold_down(step, s0, i as int, start + size) == Some((sa@, buckets@, *d)),
            sa.len() == old(sa).len(),
            buckets.len() == old(buckets).len(),
        decreases i - start,
    {
        proof {
            lemma_fold_down_prefix(step, s0, start as int, i - 1, start + size);
        }
        i -= 1;
        if !partial_gsa_scan_right_to_left_8u_at(t, sa, buckets, d, i) {
            return false;
        }
    }
    true
}

/// One step of the right-to-left scan over LMS substrings of separated texts: as
/// in the plain scan, but nothing is induced in front of a separator.
/// The scan covers `omp_block_size` positions from `omp_block_start`, downward.
pub fn partial_gsa_scan_right_to_left_8u(
    t: &[u8],
    sa: &mut [SaSint],
    buckets: &mut [SaSint],
    d: SaSint,
    omp_block_start: FastSint,
    omp_block_size: FastSint,
) -> (r: SaSint)
    requires
        isize::MIN <= omp_block_start + omp_block_size <= isize::MAX,
        partial_gsa_scan_right_to_left_8u_run(t@, (old(sa)@, old(buckets)@, d), omp_block_start as int, omp_block_size as int) is Some,
    ensures
        partial_gsa_scan_right_to_left_8u_run(t@, (old(sa)@, old(buckets)@, d), omp_block_start as int, omp_block_size as int) == Some((final(sa)@, final(buckets)@, r)),
{
    let mut names: SaSint = d;
    let _ok: bool = try_partial_gsa_scan_right_to_left_8u(t, sa, buckets, &mut names, omp_block_start, omp_block_size);
    names
}

} // verus!
