//! Scans that induce the final order of all suffixes, or the transformed text, from
//! the sorted LMS suffixes.

use vstd::prelude::*;
use crate::fold::{fold_down, fold_up, lemma_fold_down_prefix, lemma_fold_up_prefix};
use crate::marks::{clear_mark, flip_mark, flipped, marked, set_mark, unmarked, within, word_within};
use crate::types::{FastSint, InduceState, PlaceState, SaSint, SAINT_MAX};

verus! {

/// The symbol in front of position `q` of a byte text; at the start, its own symbol.
pub open spec fn before8(t: Seq<u8>, q: int) -> u8 {
    t[if q > 0 { q - 1 } else { q }]
}

/// The symbol in front of position `q` of an integer text; at the start, its own symbol.
pub open spec fn before32(t: Seq<i32>, q: int) -> i32 {
    t[if q > 0 { q - 1 } else { q }]
}

/// One step of the left-to-right scan over a byte text: the mark of slot `i` is inverted; a
/// plain suffix there induces the suffix before it into the next free slot of its bucket.
pub open spec fn final_sorting_scan_left_to_right_8u_step(t: Seq<u8>) -> spec_fn(PlaceState, int) -> Option<PlaceState> {
    |s: PlaceState, i: int|
        {
            let (sa, b) = s;
            let p = sa[i];
            let q = p - 1;
            let c = t[q];
            let x = b[c as int];
            if !(0 <= i < sa.len()) {
                None
            } else if p <= 0 {
                Some((sa.update(i, flipped(p)), b))
            } else if p <= t.len() && c < b.len() && 0 <= x < sa.len() && x < i32::MAX {
                Some((
                    sa.update(i, flipped(p)).update(x as int, marked(q as i32, before8(t, q) < c)),
                    b.update(c as int, (x + 1) as i32),
                ))
            } else {
                None
            }
        }
}

/// [`final_sorting_scan_left_to_right_8u_step`] over the `size` positions from `start`, upward.
pub open spec fn final_sorting_scan_left_to_right_8u_run(t: Seq<u8>, s: PlaceState, start: int, size: int) -> Option<PlaceState> {
    fold_up(final_sorting_scan_left_to_right_8u_step(t), s, start, start + size)
}

/// Performs one step, or returns `false` where the step is outside its domain.
fn final_sorting_scan_left_to_right_8u_at(
    t: &[u8],
    sa: &mut [SaSint],
    induction_bucket: &mut [SaSint],
    i: FastSint,
) -> (ok: bool)
    ensures
        ok == (final_sorting_scan_left_to_right_8u_step(t@)((old(sa)@, old(induction_bucket)@), i as int) is Some),
        ok ==> final_sorting_scan_left_to_right_8u_step(t@)((old(sa)@, old(induction_bucket)@), i as int) == Some((final(sa)@, final(induction_bucket)@)),
        final(sa).len() == old(sa).len(),
        final(induction_bucket).len() == old(induction_bucket).len(),
{
    if !word_within(i, sa.len()) {
        return false;
    }
    let p: SaSint = sa[i as usize];
    if p <= 0 {
        sa[i as usize] = flip_mark(p);
        return true;
    }
    if p as u64 > t.len() as u64 {
        return false;
    }
    let q: usize = (p - 1) as usize;
    let c: u8 = t[q];
    if c as usize >= induction_bucket.len() {
        return false;
    }
    let x: SaSint = induction_bucket[c as usize];
    if !within(x, sa.len()) || x == SAINT_MAX {
        return false;
    }
    let w: usize = if q > 0 { q - 1 } else { q };
    sa[i as usize] = flip_mark(p);
    sa[x as usize] = set_mark(q as SaSint, t[w] < c);
    induction_bucket[c as usize] = x + 1;
    true
}

/// Runs the scan as far as it is defined; `false` where it is not.
pub(crate) fn try_final_sorting_scan_left_to_right_8u(
    t: &[u8],
    sa: &mut [SaSint],
    induction_bucket: &mut [SaSint],
    start: FastSint,
    size: FastSint,
) -> (ok: bool)
    requires
        isize::MIN <= start + size <= isize::MAX,
    ensures
        ok == (final_sorting_scan_left_to_right_8u_run(t@, (old(sa)@, old(induction_bucket)@), start as int, size as int) is Some),
        ok ==> final_sorting_scan_left_to_right_8u_run(t@, (old(sa)@, old(induction_bucket)@), start as int, size as int) == Some((final(sa)@, final(induction_bucket)@)),
        final(sa).len() == old(sa).len(),
        final(induction_bucket).len() == old(induction_bucket).len(),
{

    let end: FastSint = start + size;
    let mut i: FastSint = start;
    let ghost step = final_sorting_scan_left_to_right_8u_step(t@);
    let ghost s0 = (sa@, induction_bucket@);
    while i < end
        invariant
            start <= i,
            i <= end || size < 0,
            size < 0 ==> i == start,
            end == start + size,
            step == final_sorting_scan_left_to_right_8u_step(t@),
            s0 == (old(sa)@, old(induction_bucket)@),
            fold_up(step, s0, start as int, i as int) == Some((sa@, induction_bucket@)),
            sa.len() == old(sa).len(),
            induction_bucket.len() == old(induction_bucket).len(),
        decreases end - i,
    {
        proof {
            lemma_fold_up_prefix(step, s0, start as int, i + 1, end as int);
        }
        if !final_sorting_scan_left_to_right_8u_at(t, sa, induction_bucket, i) {
            return false;
        }
        i += 1;
    }
    true
}

/// One step of the left-to-right scan over a byte text: the mark of slot `i` is inverted; a
/// plain suffix there induces the suffix before it into the next free slot of its bucket.
/// The scan covers `omp_block_size` positions from `omp_block_start`, upward.
pub fn final_sorting_scan_left_to_right_8u(
    t: &[u8],
    sa: &mut [SaSint],
    induction_bucket: &mut [SaSint],
    omp_block_start: FastSint,
    omp_block_size: FastSint,
)
    requires
        isize::MIN <= omp_block_start + omp_block_size <= isize::MAX,
        final_sorting_scan_left_to_right_8u_run(t@, (old(sa)@, old(induction_bucket)@), omp_block_start as int, omp_block_size as int) is Some,
    ensures
        final_sorting_scan_left_to_right_8u_run(t@, (old(sa)@, old(induction_bucket)@), omp_block_start as int, omp_block_size as int) == Some((final(sa)@, final(induction_bucket)@)),
{
    let _ok: bool = try_final_sorting_scan_left_to_right_8u(t, sa, induction_bucket, omp_block_start, omp_block_size);
}

/// One step of the right-to-left scan over a byte text: the mark of slot `i` is cleared; a
/// plain suffix there induces the suffix before it into the last free slot of its bucket.
pub open spec fn final_sorting_scan_right_to_left_8u_step(t: Seq<u8>) -> spec_fn(PlaceState, int) -> Option<PlaceState> {
    |s: PlaceState, i: int|
        {
            let (sa, b) = s;
            let p = sa[i];
            let q = p - 1;
            let c = t[q];
            let x = b[c as int] - 1;
            if !(0 <= i < sa.len()) {
                None
            } else if p <= 0 {
                Some((sa.update(i, unmarked(p)), b))
            } else if p <= t.len() && c < b.len() && 0 <= x < sa.len() {
                Some((
                    sa.update(i, unmarked(p)).update(x as int, marked(q as i32, before8(t, q) > c)),
                    b.update(c as int, x as i32),
                ))
            } else {
                None
            }
        }
}

/// [`final_sorting_scan_right_to_left_8u_step`] over the `size` positions from `start`, downward.
pub open spec fn final_sorting_scan_right_to_left_8u_run(t: Seq<u8>, s: PlaceState, start: int, size: int) -> Option<PlaceState> {
    fold_down(final_sorting_scan_right_to_left_8u_step(t), s, start, start + size)
}

/// Performs one step, or returns `false` where the step is outside its domain.
fn final_sorting_scan_right_to_left_8u_at(
    t: &[u8],
    sa: &mut [SaSint],
    induction_bucket: &mut [SaSint],
    i: FastSint,
) -> (ok: bool)
    ensures
        ok == (final_sorting_scan_right_to_left_8u_step(t@)((old(sa)@, old(induction_bucket)@), i as int) is Some),
        ok ==> final_sorting_scan_right_to_left_8u_step(t@)((old(sa)@, old(induction_bucket)@), i as int) == Some((final(sa)@, final(induction_bucket)@)),
        final(sa).len() == old(sa).len(),
        final(induction_bucket).len() == old(induction_bucket).len(),
{
    if !word_within(i, sa.len()) {
        return false;
    }
    let p: SaSint = sa[i as usize];
    if p <= 0 {
        sa[i as usize] = clear_mark(p);
        return true;
    }
    if p as u64 > t.len() as u64 {
        return false;
    }
    let q: usize = (p - 1) as usize;
    let c: u8 = t[q];
    if c as usize >= induction_bucket.len() {
        return false;
    }
    if induction_bucket[c as usize] <= 0 {
        return false;
    }
    let x: SaSint = induction_bucket[c as usize] - 1;
    if !within(x, sa.len()) {
        return false;
    }
    let w: usize = if q > 0 { q - 1 } else { q };
    sa[i as usize] = clear_mark(p);
    sa[x as usize] = set_mark(q as SaSint, t[w] > c);
    induction_bucket[c as usize] = x;
    true
}

/// Runs the scan as far as it is defined; `false` where it is not.
pub(crate) fn try_final_sorting_scan_right_to_left_8u(
    t: &[u8],
    sa: &mut [SaSint],
    induction_bucket: &mut [SaSint],
    start: FastSint,
    size: FastSint,
) -> (ok: bool)
    requires
        isize::MIN <= start + size <= isize::MAX,
    ensures
        ok == (final_sorting_scan_right_to_left_8u_run(t@, (old(sa)@, old(induction_bucket)@), start as int, size as int) is Some),
        ok ==> final_sorting_scan_right_to_left_8u_run(t@, (old(sa)@, old(induction_bucket)@), start as int, size as int) == Some((final(sa)@, final(induction_bucket)@)),
        final(sa).len() == old(sa).len(),
        final(induction_bucket).len() == old(induction_bucket).len(),
{

    if size <= 0 {
        return true;
    }
    let mut i: FastSint = start + size;
    let ghost step = final_sorting_scan_right_to_left_8u_step(t@);
    let ghost s0 = (sa@, induction_bucket@);
    while i > start
        invariant
            start <= i <= start + size,
            step == final_sorting_scan_right_to_left_8u_step(t@),
            s0 == (old(sa)@, old(induction_bucket)@),
            fold_down(step, s0, i as int, start + size) == Some((sa@, induction_bucket@)),
            sa.len() == old(sa).len(),
            induction_bucket.len() == old(induction_bucket).len(),
        decreases i - start,
    {
        proof {
            lemma_fold_down_prefix(step, s0, start as int, i - 1, start + size);
        }
        i -= 1;
        if !final_sorting_scan_right_to_left_8u_at(t, sa, induction_bucket, i) {
            return false;
        }
    }
    true
}

/// One step of the right-to-left scan over a byte text: the mark of slot `i` is cleared; a
/// plain suffix there induces the suffix before it into the last free slot of its bucket.
/// The scan covers `omp_block_size` positions from `omp_block_start`, downward.
pub fn final_sorting_scan_right_to_left_8u(
    t: &[u8],
    sa: &mut [SaSint],
    induction_bucket: &mut [SaSint],
    omp_block_start: FastSint,
    omp_block_size: FastSint,
)
    requires
        isize::MIN <= omp_block_start + omp_block_size <= isize::MAX,
        final_sorting_scan_right_to_left_8u_run(t@, (old(sa)@, old(induction_bucket)@), omp_block_start as int, omp_block_size as int) is Some,
    ensures
        final_sorting_scan_right_to_left_8u_run(t@, (old(sa)@, old(induction_bucket)@), omp_block_start as int, omp_block_size as int) == Some((final(sa)@, final(induction_bucket)@)),
{
    let _ok: bool = try_final_sorting_scan_right_to_left_8u(t, sa, induction_bucket, omp_block_start, omp_block_size);
}

/// One step of the right-to-left scan over separated texts: as in the plain scan, but nothing
/// is induced in front of a separator.
pub open spec fn final_gsa_scan_right_to_left_8u_step(t: Seq<u8>) -> spec_fn(PlaceState, int) -> Option<PlaceState> {
    |s: PlaceState, i: int|
        {
            let (sa, b) = s;
            let p = sa[i];
            let q = p - 1;
            let c = t[q];
            let x = b[c as int] - 1;
            if !(0 <= i < sa.len()) {
                None
            } else if p <= 0 {
                Some((sa.update(i, unmarked(p)), b))
            } else if 1 <= p <= t.len() && t[p - 1] == 0 {
                Some((sa.update(i, unmarked(p)), b))
            } else if p <= t.len() && c < b.len() && 0 <= x < sa.len() {
                Some((
                    sa.update(i, unmarked(p)).update(x as int, marked(q as i32, before8(t, q) > c)),
                    b.update(c as int, x as i32),
                ))
            } else {
                None
            }
        }
}

/// [`final_gsa_scan_right_to_left_8u_step`] over the `size` positions from `start`, downward.
pub open spec fn final_gsa_scan_right_to_left_8u_run(t: Seq<u8>, s: PlaceState, start: int, size: int) -> Option<PlaceState> {
    fold_down(final_gsa_scan_right_to_left_8u_step(t), s, start, start + size)
}

/// Performs one step, or returns `false` where the step is outside its domain.
fn final_gsa_scan_right_to_left_8u_at(
    t: &[u8],
    sa: &mut [SaSint],
    induction_bucket: &mut [SaSint],
    i: FastSint,
) -> (ok: bool)
    ensures
        ok == (final_gsa_scan_right_to_left_8u_step(t@)((old(sa)@, old(induction_bucket)@), i as int) is Some),
        ok ==> final_gsa_scan_right_to_left_8u_step(t@)((old(sa)@, old(induction_bucket)@), i as int) == Some((final(sa)@, final(induction_bucket)@)),
        final(sa).len() == old(sa).len(),
        final(induction_bucket).len() == old(induction_bucket).len(),
{
    if !word_within(i, sa.len()) {
        return false;
    }
    let p: SaSint = sa[i as usize];
    if p <= 0 {
        sa[i as usize] = clear_mark(p);
        return true;
    }
    if p as u64 > t.len() as u64 {
        return false;
    }
    let q: usize = (p - 1) as usize;
    let c: u8 = t[q];
    if c == 0 {
        sa[i as usize] = clear_mark(p);
        return true;
    }
    if c as usize >= induction_bucket.len() {
        return false;
    }
    if induction_bucket[c as usize] <= 0 {
        return false;
    }
    let x: SaSint = induction_bucket[c as usize] - 1;
    if !within(x, sa.len()) {
        return false;
    }
    let w: usize = if q > 0 { q - 1 } else { q };
    sa[i as usize] = clear_mark(p);
    sa[x as usize] = set_mark(q as SaSint, t[w] > c);
    induction_bucket[c as usize] = x;
    true
}

/// Runs the scan as far as it is defined; `false` where it is not.
pub(crate) fn try_final_gsa_scan_right_to_left_8u(
    t: &[u8],
    sa: &mut [SaSint],
    induction_bucket: &mut [SaSint],
    start: FastSint,
    size: FastSint,
) -> (ok: bool)
    requires
        isize::MIN <= start + size <= isize::MAX,
    ensures
        ok == (final_gsa_scan_right_to_left_8u_run(t@, (old(sa)@, old(induction_bucket)@), start as int, size as int) is Some),
        ok ==> final_gsa_scan_right_to_left_8u_run(t@, (old(sa)@, old(induction_bucket)@), start as int, size as int) == Some((final(sa)@, final(induction_bucket)@)),
        final(sa).len() == old(sa).len(),
        final(induction_bucket).len() == old(induction_bucket).len(),
{

    if size <= 0 {
        return true;
    }
    let mut i: FastSint = start + size;
    let ghost step = final_gsa_scan_right_to_left_8u_step(t@);
    let ghost s0 = (sa@, induction_bucket@);
    while i > start
        invariant
            start <= i <= start + size,
            step == final_gsa_scan_right_to_left_8u_step(t@),
            s0 == (old(sa)@, old(induction_bucket)@),
            fold_down(step, s0, i as int, start + size) == Some((sa@, induction_bucket@)),
            sa.len() == old(sa).len(),
            induction_bucket.len() == old(induction_bucket).len(),
        decreases i - start,
    {
        proof {
            lemma_fold_down_prefix(step, s0, start as int, i - 1, start + size);
        }
        i -= 1;
        if !final_gsa_scan_right_to_left_8u_at(t, sa, induction_bucket, i) {
            return false;
        }
    }
    true
}

/// One step of the right-to-left scan over separated texts: as in the plain scan, but nothing
/// is induced in front of a separator.
/// The scan covers `omp_block_size` positions from `omp_block_start`, downward.
pub fn final_gsa_scan_right_to_left_8u(
    t: &[u8],
    sa: &mut [SaSint],
    induction_bucket: &mut [SaSint],
    omp_block_start: FastSint,
    omp_block_size: FastSint,
)
    requires
        isize::MIN <= omp_block_start + omp_block_size <= isize::MAX,
        final_gsa_scan_right_to_left_8u_run(t@, (old(sa)@, old(induction_bucket)@), omp_block_start as int, omp_block_size as int) is Some,
    ensures
        final_gsa_scan_right_to_left_8u_run(t@, (old(sa)@, old(induction_bucket)@), omp_block_start as int, omp_block_size as int) == Some((final(sa)@, final(induction_bucket)@)),
{
    let _ok: bool = try_final_gsa_scan_right_to_left_8u(t, sa, induction_bucket, omp_block_start, omp_block_size);
}

/// One step of the left-to-right scan over an integer text: the mark of slot `i` is inverted;
/// a plain suffix there induces the suffix before it into the next free slot of its bucket.
pub open spec fn final_sorting_scan_left_to_right_32s_step(t: Seq<i32>) -> spec_fn(PlaceState, int) -> Option<PlaceState> {
    |s: PlaceState, i: int|
        {
            let (sa, b) = s;
            let p = sa[i];
            let q = p - 1;
            let c = t[q];
            let x = b[c as int];
            if !(0 <= i < sa.len()) {
                None
            } else if p <= 0 {
                Some((sa.update(i, flipped(p)), b))
            } else if p <= t.len() && 0 <= c && c < b.len() && 0 <= x < sa.len() && x < i32::MAX {
                Some((
                    sa.update(i, flipped(p)).update(x as int, marked(q as i32, before32(t, q) < c)),
                    b.update(c as int, (x + 1) as i32),
                ))
            } else {
                None
            }
        }
}

/// [`final_sorting_scan_left_to_right_32s_step`] over the `size` positions from `start`, upward.
pub open spec fn final_sorting_scan_left_to_right_32s_run(t: Seq<i32>, s: PlaceState, start: int, size: int) -> Option<PlaceState> {
    fold_up(final_sorting_scan_left_to_right_32s_step(t), s, start, start + size)
}

/// Performs one step, or returns `false` where the step is outside its domain.
fn final_sorting_scan_left_to_right_32s_at(
    t: &[SaSint],
    sa: &mut [SaSint],
    induction_bucket: &mut [SaSint],
    i: FastSint,
) -> (ok: bool)
    ensures
        ok == (final_sorting_scan_left_to_right_32s_step(t@)((old(sa)@, old(induction_bucket)@), i as int) is Some),
        ok ==> final_sorting_scan_left_to_right_32s_step(t@)((old(sa)@, old(induction_bucket)@), i as int) == Some((final(sa)@, final(induction_bucket)@)),
        final(sa).len() == old(sa).len(),
        final(induction_bucket).len() == old(induction_bucket).len(),
{
    if !word_within(i, sa.len()) {
        return false;
    }
    let p: SaSint = sa[i as usize];
    if p <= 0 {
        sa[i as usize] = flip_mark(p);
        return true;
    }
    if p as u64 > t.len() as u64 {
        return false;
    }
    let q: usize = (p - 1) as usize;
    let c: SaSint = t[q];
    if !within(c, induction_bucket.len()) {
        return false;
    }
    let x: SaSint = induction_bucket[c as usize];
    if !within(x, sa.len()) || x == SAINT_MAX {
        return false;
    }
    let w: usize = if q > 0 { q - 1 } else { q };
    sa[i as usize] = flip_mark(p);
    sa[x as usize] = set_mark(q as SaSint, t[w] < c);
    induction_bucket[c as usize] = x + 1;
    true
}

/// Runs the scan as far as it is defined; `false` where it is not.
pub(crate) fn try_final_sorting_scan_left_to_right_32s(
    t: &[SaSint],
    sa: &mut [SaSint],
    induction_bucket: &mut [SaSint],
    start: FastSint,
    size: FastSint,
) -> (ok: bool)
    requires
        isize::MIN <= start + size <= isize::MAX,
    ensures
        ok == (final_sorting_scan_left_to_right_32s_run(t@, (old(sa)@, old(induction_bucket)@), start as int, size as int) is Some),
        ok ==> final_sorting_scan_left_to_right_32s_run(t@, (old(sa)@, old(induction_bucket)@), start as int, size as int) == Some((final(sa)@, final(induction_bucket)@)),
        final(sa).len() == old(sa).len(),
        final(induction_bucket).len() == old(induction_bucket).len(),
{

    let end: FastSint = start + size;
    let mut i: FastSint = start;
    let ghost step = final_sorting_scan_left_to_right_32s_step(t@);
    let ghost s0 = (sa@, induction_bucket@);
    while i < end
        invariant
            start <= i,
            i <= end || size < 0,
            size < 0 ==> i == start,
            end == start + size,
            step == final_sorting_scan_left_to_right_32s_step(t@),
            s0 == (old(sa)@, old(induction_bucket)@),
            fold_up(step, s0, start as int, i as int) == Some((sa@, induction_bucket@)),
            sa.len() == old(sa).len(),
            induction_bucket.len() == old(induction_bucket).len(),
        decreases end - i,
    {
        proof {
            lemma_fold_up_prefix(step, s0, start as int, i + 1, end as int);
        }
        if !final_sorting_scan_left_to_right_32s_at(t, sa, induction_bucket, i) {
            return false;
        }
        i += 1;
    }
    true
}

/// One step of the left-to-right scan over an integer text: the mark of slot `i` is inverted;
/// a plain suffix there induces the suffix before it into the next free slot of its bucket.
/// The scan covers `omp_block_size` positions from `omp_block_start`, upward.
pub fn final_sorting_scan_left_to_right_32s(
    t: &[SaSint],
    sa: &mut [SaSint],
    induction_bucket: &mut [SaSint],
    omp_block_start: FastSint,
    omp_block_size: FastSint,
)
    requires
        isize::MIN <= omp_block_start + omp_block_size <= isize::MAX,
        final_sorting_scan_left_to_right_32s_run(t@, (old(sa)@, old(induction_bucket)@), omp_block_start as int, omp_block_size as int) is Some,
    ensures
        final_sorting_scan_left_to_right_32s_run(t@, (old(sa)@, old(induction_bucket)@), omp_block_start as int, omp_block_size as int) == Some((final(sa)@, final(induction_bucket)@)),
{
    let _ok: bool = try_final_sorting_scan_left_to_right_32s(t, sa, induction_bucket, omp_block_start, omp_block_size);
}

/// One step of the right-to-left scan over an integer text: the mark of slot `i` is cleared; a
/// plain suffix there induces the suffix before it into the last free slot of its bucket.
pub open spec fn final_sorting_scan_right_to_left_32s_step(t: Seq<i32>) -> spec_fn(PlaceState, int) -> Option<PlaceState> {
    |s: PlaceState, i: int|
        {
            let (sa, b) = s;
            let p = sa[i];
            let q = p - 1;
            let c = t[q];
            let x = b[c as int] - 1;
            if !(0 <= i < sa.len()) {
                None
            } else if p <= 0 {
                Some((sa.update(i, unmarked(p)), b))
            } else if p <= t.len() && 0 <= c && c < b.len() && 0 <= x < sa.len() {
                Some((
                    sa.update(i, unmarked(p)).update(x as int, marked(q as i32, before32(t, q) > c)),
                    b.update(c as int, x as i32),
                ))
            } else {
                None
            }
        }
}

/// [`final_sorting_scan_right_to_left_32s_step`] over the `size` positions from `start`, downward.
pub open spec fn final_sorting_scan_right_to_left_32s_run(t: Seq<i32>, s: PlaceState, start: int, size: int) -> Option<PlaceState> {
    fold_down(final_sorting_scan_right_to_left_32s_step(t), s, start, start + size)
}

/// Performs one step, or returns `false` where the step is outside its domain.
fn final_sorting_scan_right_to_left_32s_at(
    t: &[SaSint],
    sa: &mut [SaSint],
    induction_bucket: &mut [SaSint],
    i: FastSint,
) -> (ok: bool)
    ensures
        ok == (final_sorting_scan_right_to_left_32s_step(t@)((old(sa)@, old(induction_bucket)@), i as int) is Some),
        ok ==> final_sorting_scan_right_to_left_32s_step(t@)((old(sa)@, old(induction_bucket)@), i as int) == Some((final(sa)@, final(induction_bucket)@)),
        final(sa).len() == old(sa).len(),
        final(induction_bucket).len() == old(induction_bucket).len(),
{
    if !word_within(i, sa.len()) {
        return false;
    }
    let p: SaSint = sa[i as usize];
    if p <= 0 {
        sa[i as usize] = clear_mark(p);
        return true;
    }
    if p as u64 > t.len() as u64 {
        return false;
    }
    let q: usize = (p - 1) as usize;
    let c: SaSint = t[q];
    if !within(c, induction_bucket.len()) {
        return false;
    }
    if induction_bucket[c as usize] <= 0 {
        return false;
    }
    let x: SaSint = induction_bucket[c as usize] - 1;
    if !within(x, sa.len()) {
        return false;
    }
    let w: usize = if q > 0 { q - 1 } else { q };
    sa[i as usize] = clear_mark(p);
    sa[x as usize] = set_mark(q as SaSint, t[w] > c);
    induction_bucket[c as usize] = x;
    true
}

/// Runs the scan as far as it is defined; `false` where it is not.
pub(crate) fn try_final_sorting_scan_right_to_left_32s(
    t: &[SaSint],
    sa: &mut [SaSint],
    induction_bucket: &mut [SaSint],
    start: FastSint,
    size: FastSint,
) -> (ok: bool)
    requires
        isize::MIN <= start + size <= isize::MAX,
    ensures
        ok == (final_sorting_scan_right_to_left_32s_run(t@, (old(sa)@, old(induction_bucket)@), start as int, size as int) is Some),
        ok ==> final_sorting_scan_right_to_left_32s_run(t@, (old(sa)@, old(induction_bucket)@), start as int, size as int) == Some((final(sa)@, final(induction_bucket)@)),
        final(sa).len() == old(sa).len(),
        final(induction_bucket).len() == old(induction_bucket).len(),
{

    if size <= 0 {
        return true;
    }
    let mut i: FastSint = start + size;
    let ghost step = final_sorting_scan_right_to_left_32s_step(t@);
    let ghost s0 = (sa@, induction_bucket@);
    while i > start
        invariant
            start <= i <= start + size,
            step == final_sorting_scan_right_to_left_32s_step(t@),
            s0 == (old(sa)@, old(induction_bucket)@),
            fold_down(step, s0, i as int, start + size) == Some((sa@, induction_bucket@)),
            sa.len() == old(sa).len(),
            induction_bucket.len() == old(induction_bucket).len(),
        decreases i - start,
    {
        proof {
            lemma_fold_down_prefix(step, s0, start as int, i - 1, start + size);
        }
        i -= 1;
        if !final_sorting_scan_right_to_left_32s_at(t, sa, induction_bucket, i) {
            return false;
        }
    }
    true
}

/// One step of the right-to-left scan over an integer text: the mark of slot `i` is cleared; a
/// plain suffix there induces the suffix before it into the last free slot of its bucket.
/// The scan covers `omp_block_size` positions from `omp_block_start`, downward.
pub fn final_sorting_scan_right_to_left_32s(
    t: &[SaSint],
    sa: &mut [SaSint],
    induction_bucket: &mut [SaSint],
    omp_block_start: FastSint,
    omp_block_size: FastSint,
)
    requires
        isize::MIN <= omp_block_start + omp_block_size <= isize::MAX,
        final_sorting_scan_right_to_left_32s_run(t@, (old(sa)@, old(induction_bucket)@), omp_block_start as int, omp_block_size as int) is Some,
    ensures
        final_sorting_scan_right_to_left_32s_run(t@, (old(sa)@, old(induction_bucket)@), omp_block_start as int, omp_block_size as int) == Some((final(sa)@, final(induction_bucket)@)),
{
    let _ok: bool = try_final_sorting_scan_right_to_left_32s(t, sa, induction_bucket, omp_block_start, omp_block_size);
}

/// One step of the left-to-right scan for the transformed text: a plain suffix at slot `i`
/// leaves the byte in front of it there, marked, and induces the suffix before it.
pub open spec fn final_bwt_scan_left_to_right_8u_step(t: Seq<u8>) -> spec_fn(PlaceState, int) -> Option<PlaceState> {
    |s: PlaceState, i: int|
        {
            let (sa, b) = s;
            let p = sa[i];
            let q = p - 1;
            let c = t[q];
            let x = b[c as int];
            if !(0 <= i < sa.len()) {
                None
            } else if p <= 0 {
                Some((sa.update(i, unmarked(p)), b))
            } else if p <= t.len() && c < b.len() && 0 <= x < sa.len() && x < i32::MAX {
                Some((
                    sa.update(i, marked(c as i32, true)).update(x as int, marked(q as i32, before8(t, q) < c)),
                    b.update(c as int, (x + 1) as i32),
                ))
            } else {
                None
            }
        }
}

/// [`final_bwt_scan_left_to_right_8u_step`] over the `size` positions from `start`, upward.
pub open spec fn final_bwt_scan_left_to_right_8u_run(t: Seq<u8>, s: PlaceState, start: int, size: int) -> Option<PlaceState> {
    fold_up(final_bwt_scan_left_to_right_8u_step(t), s, start, start + size)
}

/// Performs one step, or returns `false` where the step is outside its domain.
fn final_bwt_scan_left_to_right_8u_at(
    t: &[u8],
    sa: &mut [SaSint],
    induction_bucket: &mut [SaSint],
    i: FastSint,
) -> (ok: bool)
    ensures
        ok == (final_bwt_scan_left_to_right_8u_step(t@)((old(sa)@, old(induction_bucket)@), i as int) is Some),
        ok ==> final_bwt_scan_left_to_right_8u_step(t@)((old(sa)@, old(induction_bucket)@), i as int) == Some((final(sa)@, final(induction_bucket)@)),
        final(sa).len() == old(sa).len(),
        final(induction_bucket).len() == old(induction_bucket).len(),
{
    if !word_within(i, sa.len()) {
        return false;
    }
    let p: SaSint = sa[i as usize];
    if p <= 0 {
        sa[i as usize] = clear_mark(p);
        return true;
    }
    if p as u64 > t.len() as u64 {
        return false;
    }
    let q: usize = (p - 1) as usize;
    let c: u8 = t[q];
    if c as usize >= induction_bucket.len() {
        return false;
    }
    let x: SaSint = induction_bucket[c as usize];
    if !within(x, sa.len()) || x == SAINT_MAX {
        return false;
    }
    let w: usize = if q > 0 { q - 1 } else { q };
    sa[i as usize] = set_mark(c as SaSint, true);
    sa[x as usize] = set_mark(q as SaSint, t[w] < c);
    induction_bucket[c as usize] = x + 1;
    true
}

/// Runs the scan as far as it is defined; `false` where it is not.
pub(crate) fn try_final_bwt_scan_left_to_right_8u(
    t: &[u8],
    sa: &mut [SaSint],
    induction_bucket: &mut [SaSint],
    start: FastSint,
    size: FastSint,
) -> (ok: bool)
    requires
        isize::MIN <= start + size <= isize::MAX,
    ensures
        ok == (final_bwt_scan_left_to_right_8u_run(t@, (old(sa)@, old(induction_bucket)@), start as int, size as int) is Some),
        ok ==> final_bwt_scan_left_to_right_8u_run(t@, (old(sa)@, old(induction_bucket)@), start as int, size as int) == Some((final(sa)@, final(induction_bucket)@)),
        final(sa).len() == old(sa).len(),
        final(induction_bucket).len() == old(induction_bucket).len(),
{

    let end: FastSint = start + size;
    let mut i: FastSint = start;
    let ghost step = final_bwt_scan_left_to_right_8u_step(t@);
    let ghost s0 = (sa@, induction_bucket@);
    while i < end
        invariant
            start <= i,
            i <= end || size < 0,
            size < 0 ==> i == start,
            end == start + size,
            step == final_bwt_scan_left_to_right_8u_step(t@),
            s0 == (old(sa)@, old(induction_bucket)@),
            fold_up(step, s0, start as int, i as int) == Some((sa@, induction_bucket@)),
            sa.len() == old(sa).len(),
            induction_bucket.len() == old(induction_bucket).len(),
        decreases end - i,
    {
        proof {
            lemma_fold_up_prefix(step, s0, start as int, i + 1, end as int);
        }
        if !final_bwt_scan_left_to_right_8u_at(t, sa, induction_bucket, i) {
            return false;
        }
        i += 1;
    }
    true
}

/// One step of the left-to-right scan for the transformed text: a plain suffix at slot `i`
/// leaves the byte in front of it there, marked, and induces the suffix before it.
/// The scan covers `omp_block_size` positions from `omp_block_start`, upward.
pub fn final_bwt_scan_left_to_right_8u(
    t: &[u8],
    sa: &mut [SaSint],
    induction_bucket: &mut [SaSint],
    omp_block_start: FastSint,
    omp_block_size: FastSint,
)
    requires
        isize::MIN <= omp_block_start + omp_block_size <= isize::MAX,
        final_bwt_scan_left_to_right_8u_run(t@, (old(sa)@, old(induction_bucket)@), omp_block_start as int, omp_block_size as int) is Some,
    ensures
        final_bwt_scan_left_to_right_8u_run(t@, (old(sa)@, old(induction_bucket)@), omp_block_start as int, omp_block_size as int) == Some((final(sa)@, final(induction_bucket)@)),
{
    let _ok: bool = try_final_bwt_scan_left_to_right_8u(t, sa, induction_bucket, omp_block_start, omp_block_size);
}

/// One step of the right-to-left scan for the transformed text: a plain suffix at slot `i`
/// leaves the byte in front of it there and induces the suffix before it; an empty slot is
/// the one of the whole text.
pub open spec fn final_bwt_scan_right_to_left_8u_step(t: Seq<u8>) -> spec_fn(InduceState, int) -> Option<InduceState> {
    |s: InduceState, i: int|
        {
            let (sa, b, d) = s;
            let p = sa[i];
            let q = p - 1;
            let c = t[q];
            let x = b[c as int] - 1;
            if !(0 <= i < sa.len() && i <= i32::MAX) {
                None
            } else if p <= 0 {
                Some((sa.update(i, unmarked(p)), b, if p == 0 { i as i32 } else { d }))
            } else if p <= t.len() && c < b.len() && 0 <= x < sa.len() {
                Some((
                    sa.update(i, c as i32).update(x as int, if before8(t, q) <= c { q as i32 } else { marked(before8(t, q) as i32, true) }),
                    b.update(c as int, x as i32),
                    d,
                ))
            } else {
                None
            }
        }
}

/// [`final_bwt_scan_right_to_left_8u_step`] over the `size` positions from `start`, downward.
pub open spec fn final_bwt_scan_right_to_left_8u_run(t: Seq<u8>, s: InduceState, start: int, size: int) -> Option<InduceState> {
    fold_down(final_bwt_scan_right_to_left_8u_step(t), s, start, start + size)
}

/// Performs one step, or returns `false` where the step is outside its domain.
fn final_bwt_scan_right_to_left_8u_at(
    t: &[u8],
    sa: &mut [SaSint],
    induction_bucket: &mut [SaSint],
    d: &mut SaSint,
    i: FastSint,
) -> (ok: bool)
    ensures
        ok == (final_bwt_scan_right_to_left_8u_step(t@)((old(sa)@, old(induction_bucket)@, *old(d)), i as int) is Some),
        ok ==> final_bwt_scan_right_to_left_8u_step(t@)((old(sa)@, old(induction_bucket)@, *old(d)), i as int) == Some((final(sa)@, final(induction_bucket)@, *final(d))),
        final(sa).len() == old(sa).len(),
        final(induction_bucket).len() == old(induction_bucket).len(),
{
    if !word_within(i, sa.len()) {
        return false;
    }
    let p: SaSint = sa[i as usize];
    if i as u64 > 0x7fff_ffff {
        return false;
    }
    if p <= 0 {
        if p == 0 {
            *d = i as SaSint;
        }
        sa[i as usize] = clear_mark(p);
        return true;
    }
    if p as u64 > t.len() as u64 {
        return false;
    }
    let q: usize = (p - 1) as usize;
    let c: u8 = t[q];
    if c as usize >= induction_bucket.len() {
        return false;
    }
    if induction_bucket[c as usize] <= 0 {
        return false;
    }
    let x: SaSint = induction_bucket[c as usize] - 1;
    if !within(x, sa.len()) {
        return false;
    }
    let w: usize = if q > 0 { q - 1 } else { q };
    sa[i as usize] = c as SaSint;
    sa[x as usize] = if t[w] <= c { q as SaSint } else { set_mark(t[w] as SaSint, true) };
    induction_bucket[c as usize] = x;
    true
}

/// Runs the scan as far as it is defined; `false` where it is not.
pub(crate) fn try_final_bwt_scan_right_to_left_8u(
    t: &[u8],
    sa: &mut [SaSint],
    induction_bucket: &mut [SaSint],
    d: &mut SaSint,
    start: FastSint,
    size: FastSint,
) -> (ok: bool)
    requires
        isize::MIN <= start + size <= isize::MAX,
    ensures
        ok == (final_bwt_scan_right_to_left_8u_run(t@, (old(sa)@, old(induction_bucket)@, *old(d)), start as int, size as int) is Some),
        ok ==> final_bwt_scan_right_to_left_8u_run(t@, (old(sa)@, old(induction_bucket)@, *old(d)), start as int, size as int) == Some((final(sa)@, final(induction_bucket)@, *final(d))),
        final(sa).len() == old(sa).len(),
        final(induction_bucket).len() == old(induction_bucket).len(),
{

    if size <= 0 {
        return true;
    }
    let mut i: FastSint = start + size;
    let ghost step = final_bwt_scan_right_to_left_8u_step(t@);
    let ghost s0 = (sa@, induction_bucket@, *d);
    while i > start
        invariant
            start <= i <= start + size,
            step == final_bwt_scan_right_to_left_8u_step(t@),
            s0 == (old(sa)@, old(induction_bucket)@, *old(d)),
            fold_down(step, s0, i as int, start + size) == Some((sa@, induction_bucket@, *d)),
            sa.len() == old(sa).len(),
            induction_bucket.len() == old(induction_bucket).len(),
        decreases i - start,
    {
        proof {
            lemma_fold_down_prefix(step, s0, start as int, i - 1, start + size);
        }
        i -= 1;
        if !final_bwt_scan_right_to_left_8u_at(t, sa, induction_bucket, d, i) {
            return false;
        }
    }
    true
}

/// Scans a block from right to left for the transformed text. Returns the slot of the whole
/// text, or `-1` where the block does not hold it.
pub fn final_bwt_scan_right_to_left_8u(
    t: &[u8],
    sa: &mut [SaSint],
    induction_bucket: &mut [SaSint],
    omp_block_start: FastSint,
    omp_block_size: FastSint,
) -> (r: SaSint)
    requires
        isize::MIN <= omp_block_start + omp_block_size <= isize::MAX,
        final_bwt_scan_right_to_left_8u_run(t@, (old(sa)@, old(induction_bucket)@, -1i32), omp_block_start as int, omp_block_size as int) is Some,
    ensures
        final_bwt_scan_right_to_left_8u_run(t@, (old(sa)@, old(induction_bucket)@, -1i32), omp_block_start as int, omp_block_size as int)
            == Some((final(sa)@, final(induction_bucket)@, r)),
{
    let mut index: SaSint = -1;
    let _ok: bool = try_final_bwt_scan_right_to_left_8u(t, sa, induction_bucket, &mut index, omp_block_start, omp_block_size);
    index
}

/// The samples with `value` noted for suffix `q` where the sampling mask `rm` selects it.
pub open spec fn sampled(i_out: Seq<i32>, rm: i32, q: i32, value: i32) -> Option<Seq<i32>> {
    if q & rm != 0 {
        Some(i_out)
    } else if 0 <= rm < i32::MAX && q as int / (rm + 1) < i_out.len() {
        Some(i_out.update(q as int / (rm + 1), value))
    } else {
        None
    }
}

/// Notes `value` for suffix `q` where the sampling mask `rm` selects it.
pub(crate) fn try_sample(i_out: &mut [SaSint], rm: SaSint, q: SaSint, value: SaSint) -> (ok: bool)
    requires
        0 <= q,
    ensures
        ok == (sampled(old(i_out)@, rm, q, value) is Some),
        ok ==> sampled(old(i_out)@, rm, q, value) == Some(final(i_out)@),
        !ok ==> final(i_out)@ == old(i_out)@,
        final(i_out).len() == old(i_out).len(),
{
    if q & rm != 0 {
        return true;
    }
    if rm < 0 || rm == SAINT_MAX {
        return false;
    }
    let x: usize = (q / (rm + 1)) as usize;
    if x >= i_out.len() {
        return false;
    }
    i_out[x] = value;
    true
}

/// One step of the left-to-right scan for the transformed text with samples: the slot after
/// the induced one is noted where the suffix is sampled.
pub open spec fn final_bwt_aux_scan_left_to_right_8u_slot_step(t: Seq<u8>, rm: i32) -> spec_fn((Seq<i32>, Seq<i32>, Seq<i32>), int) -> Option<(Seq<i32>, Seq<i32>, Seq<i32>)> {
    |s: (Seq<i32>, Seq<i32>, Seq<i32>), i: int|
        {
            let (sa, induction_bucket, i_out) = s;
            let p = sa[i];
            let q = p - 1;
            let c = t[q];
            let x = induction_bucket[c as int];
            if !(0 <= i < sa.len()) {
                None
            } else if p <= 0 {
                Some((sa.update(i, unmarked(p)), induction_bucket, i_out))
            } else if p <= t.len() && c < induction_bucket.len() && sampled(i_out, rm, q as i32, (x + 1) as i32) is Some && 0 <= x < sa.len() && x < i32::MAX {
                Some((
                    sa.update(i, marked(c as i32, true)).update(x as int, marked(q as i32, before8(t, q) < c)),
                    induction_bucket.update(c as int, (x + 1) as i32),
                    sampled(i_out, rm, q as i32, (x + 1) as i32)->0,
                ))
            } else {
                None
            }
        }
}

/// [`final_bwt_aux_scan_left_to_right_8u_slot_step`] over the positions from `lo` to `hi`, upward.
pub open spec fn final_bwt_aux_scan_left_to_right_8u_slot_run(t: Seq<u8>, rm: i32, s: (Seq<i32>, Seq<i32>, Seq<i32>), lo: int, hi: int) -> Option<(Seq<i32>, Seq<i32>, Seq<i32>)> {
    fold_up(final_bwt_aux_scan_left_to_right_8u_slot_step(t, rm), s, lo, hi)
}

/// Performs one step, or returns `false` where the step is outside its domain.
fn final_bwt_aux_scan_left_to_right_8u_slot_at(
    t: &[u8],
    rm: SaSint,
    sa: &mut [SaSint],
    induction_bucket: &mut [SaSint],
    i_out: &mut [SaSint],
    i: FastSint,
) -> (ok: bool)
    ensures
        ok == (final_bwt_aux_scan_left_to_right_8u_slot_step(t@, rm)((old(sa)@, old(induction_bucket)@, old(i_out)@), i as int) is Some),
        ok ==> final_bwt_aux_scan_left_to_right_8u_slot_step(t@, rm)((old(sa)@, old(induction_bucket)@, old(i_out)@), i as int) == Some((final(sa)@, final(induction_bucket)@, final(i_out)@)),
        final(sa).len() == old(sa).len(),
        final(induction_bucket).len() == old(induction_bucket).len(),
        final(i_out).len() == old(i_out).len(),
{
    if !word_within(i, sa.len()) {
        return false;
    }
    let p: SaSint = sa[i as usize];
    if p <= 0 {
        sa[i as usize] = clear_mark(p);
        return true;
    }
    if p as u64 > t.len() as u64 {
        return false;
    }
    let q: usize = (p - 1) as usize;
    let c: u8 = t[q];
    if c as usize >= induction_bucket.len() {
        return false;
    }
    let x: SaSint = induction_bucket[c as usize];
    if !within(x, sa.len()) || x == SAINT_MAX {
        return false;
    }
    if !try_sample(i_out, rm, q as SaSint, x + 1) {
        return false;
    }
    let w: usize = if q > 0 { q - 1 } else { q };
    sa[i as usize] = set_mark(c as SaSint, true);
    sa[x as usize] = set_mark(q as SaSint, t[w] < c);
    induction_bucket[c as usize] = x + 1;
    true
}

/// Runs the steps as far as they are defined; `false` where one is not.
pub(crate) fn try_final_bwt_aux_scan_left_to_right_8u_slot(
    t: &[u8],
    rm: SaSint,
    sa: &mut [SaSint],
    induction_bucket: &mut [SaSint],
    i_out: &mut [SaSint],
    lo: FastSint,
    hi: FastSint,
) -> (ok: bool)
    ensures
        ok == (final_bwt_aux_scan_left_to_right_8u_slot_run(t@, rm, (old(sa)@, old(induction_bucket)@, old(i_out)@), lo as int, hi as int) is Some),
        ok ==> final_bwt_aux_scan_left_to_right_8u_slot_run(t@, rm, (old(sa)@, old(induction_bucket)@, old(i_out)@), lo as int, hi as int) == Some((final(sa)@, final(induction_bucket)@, final(i_out)@)),
        final(sa).len() == old(sa).len(),
        final(induction_bucket).len() == old(induction_bucket).len(),
        final(i_out).len() == old(i_out).len(),
{
    let mut i: FastSint = lo;
    let ghost step = final_bwt_aux_scan_left_to_right_8u_slot_step(t@, rm);
    let ghost s0 = (sa@, induction_bucket@, i_out@);
    while i < hi
        invariant
            lo <= i,
            i <= hi || hi < lo,
            hi < lo ==> i == lo,
            step == final_bwt_aux_scan_left_to_right_8u_slot_step(t@, rm),
            s0 == (old(sa)@, old(induction_bucket)@, old(i_out)@),
            fold_up(step, s0, lo as int, i as int) == Some((sa@, induction_bucket@, i_out@)),
            sa.len() == old(sa).len(),
            induction_bucket.len() == old(induction_bucket).len(),
            i_out.len() == old(i_out).len(),
        decreases hi - i,
    {
        proof {
            lemma_fold_up_prefix(step, s0, lo as int, i + 1, hi as int);
        }
        if !final_bwt_aux_scan_left_to_right_8u_slot_at(t, rm, sa, induction_bucket, i_out, i) {
            return false;
        }
        i += 1;
    }
    true
}

/// [`final_bwt_aux_scan_left_to_right_8u_slot_step`] over a block.
pub open spec fn final_bwt_aux_scan_left_to_right_8u_run(
    t: Seq<u8>,
    rm: i32,
    s: (Seq<i32>, Seq<i32>, Seq<i32>),
    start: int,
    size: int,
) -> Option<(Seq<i32>, Seq<i32>, Seq<i32>)> {
    final_bwt_aux_scan_left_to_right_8u_slot_run(t, rm, s, start, start + size)
}

/// Scans a block for the transformed text and its samples.
pub fn final_bwt_aux_scan_left_to_right_8u(
    t: &[u8],
    sa: &mut [SaSint],
    rm: SaSint,
    i_out: &mut [SaSint],
    induction_bucket: &mut [SaSint],
    omp_block_start: FastSint,
    omp_block_size: FastSint,
)
    requires
        isize::MIN <= omp_block_start + omp_block_size <= isize::MAX,
        final_bwt_aux_scan_left_to_right_8u_run(t@, rm, (old(sa)@, old(induction_bucket)@, old(i_out)@), omp_block_start as int, omp_block_size as int) is Some,
    ensures
        final_bwt_aux_scan_left_to_right_8u_run(t@, rm, (old(sa)@, old(induction_bucket)@, old(i_out)@), omp_block_start as int, omp_block_size as int)
            == Some((final(sa)@, final(induction_bucket)@, final(i_out)@)),
{
    let _ok: bool = try_final_bwt_aux_scan_left_to_right_8u_slot(
        t, rm, sa, induction_bucket, i_out, omp_block_start, omp_block_start + omp_block_size);
}

/// One step of the right-to-left scan for the transformed text with samples: the slot after
/// the induced one is noted where the suffix is sampled.
pub open spec fn final_bwt_aux_scan_right_to_left_8u_slot_step(t: Seq<u8>, rm: i32) -> spec_fn((Seq<i32>, Seq<i32>, Seq<i32>), int) -> Option<(Seq<i32>, Seq<i32>, Seq<i32>)> {
    |s: (Seq<i32>, Seq<i32>, Seq<i32>), i: int|
        {
            let (sa, induction_bucket, i_out) = s;
            let p = sa[i];
            let q = p - 1;
            let c = t[q];
            let x = induction_bucket[c as int] - 1;
            if !(0 <= i < sa.len()) {
                None
            } else if p <= 0 {
                Some((sa.update(i, unmarked(p)), induction_bucket, i_out))
            } else if p <= t.len() && c < induction_bucket.len() && sampled(i_out, rm, q as i32, (x + 1) as i32) is Some && 0 <= x < sa.len() {
                Some((
                    sa.update(i, c as i32).update(x as int, if before8(t, q) <= c { q as i32 } else { marked(before8(t, q) as i32, true) }),
                    induction_bucket.update(c as int, x as i32),
                    sampled(i_out, rm, q as i32, (x + 1) as i32)->0,
                ))
            } else {
                None
            }
        }
}

/// [`final_bwt_aux_scan_right_to_left_8u_slot_step`] over the positions from `lo` to `hi`, downward.
pub open spec fn final_bwt_aux_scan_right_to_left_8u_slot_run(t: Seq<u8>, rm: i32, s: (Seq<i32>, Seq<i32>, Seq<i32>), lo: int, hi: int) -> Option<(Seq<i32>, Seq<i32>, Seq<i32>)> {
    fold_down(final_bwt_aux_scan_right_to_left_8u_slot_step(t, rm), s, lo, hi)
}

/// Performs one step, or returns `false` where the step is outside its domain.
fn final_bwt_aux_scan_right_to_left_8u_slot_at(
    t: &[u8],
    rm: SaSint,
    sa: &mut [SaSint],
    induction_bucket: &mut [SaSint],
    i_out: &mut [SaSint],
    i: FastSint,
) -> (ok: bool)
    ensures
        ok == (final_bwt_aux_scan_right_to_left_8u_slot_step(t@, rm)((old(sa)@, old(induction_bucket)@, old(i_out)@), i as int) is Some),
        ok ==> final_bwt_aux_scan_right_to_left_8u_slot_step(t@, rm)((old(sa)@, old(induction_bucket)@, old(i_out)@), i as int) == Some((final(sa)@, final(induction_bucket)@, final(i_out)@)),
        final(sa).len() == old(sa).len(),
        final(induction_bucket).len() == old(induction_bucket).len(),
        final(i_out).len() == old(i_out).len(),
{
    if !word_within(i, sa.len()) {
        return false;
    }
    let p: SaSint = sa[i as usize];
    if p <= 0 {
        sa[i as usize] = clear_mark(p);
        return true;
    }
    if p as u64 > t.len() as u64 {
        return false;
    }
    let q: usize = (p - 1) as usize;
    let c: u8 = t[q];
    if c as usize >= induction_bucket.len() {
        return false;
    }
    if induction_bucket[c as usize] <= 0 {
        return false;
    }
    let x: SaSint = induction_bucket[c as usize] - 1;
    if !within(x, sa.len()) {
        return false;
    }
    if !try_sample(i_out, rm, q as SaSint, x + 1) {
        return false;
    }
    let w: usize = if q > 0 { q - 1 } else { q };
    sa[i as usize] = c as SaSint;
    sa[x as usize] = if t[w] <= c { q as SaSint } else { set_mark(t[w] as SaSint, true) };
    induction_bucket[c as usize] = x;
    true
}

/// Runs the steps as far as they are defined; `false` where one is not.
pub(crate) fn try_final_bwt_aux_scan_right_to_left_8u_slot(
    t: &[u8],
    rm: SaSint,
    sa: &mut [SaSint],
    induction_bucket: &mut [SaSint],
    i_out: &mut [SaSint],
    lo: FastSint,
    hi: FastSint,
) -> (ok: bool)
    ensures
        ok == (final_bwt_aux_scan_right_to_left_8u_slot_run(t@, rm, (old(sa)@, old(induction_bucket)@, old(i_out)@), lo as int, hi as int) is Some),
        ok ==> final_bwt_aux_scan_right_to_left_8u_slot_run(t@, rm, (old(sa)@, old(induction_bucket)@, old(i_out)@), lo as int, hi as int) == Some((final(sa)@, final(induction_bucket)@, final(i_out)@)),
        final(sa).len() == old(sa).len(),
        final(induction_bucket).len() == old(induction_bucket).len(),
        final(i_out).len() == old(i_out).len(),
{
    if hi <= lo {
        return true;
    }
    let mut i: FastSint = hi;
    let ghost step = final_bwt_aux_scan_right_to_left_8u_slot_step(t@, rm);
    let ghost s0 = (sa@, induction_bucket@, i_out@);
    while i > lo
        invariant
            lo <= i <= hi,
            step == final_bwt_aux_scan_right_to_left_8u_slot_step(t@, rm),
            s0 == (old(sa)@, old(induction_bucket)@, old(i_out)@),
            fold_down(step, s0, i as int, hi as int) == Some((sa@, induction_bucket@, i_out@)),
            sa.len() == old(sa).len(),
            induction_bucket.len() == old(induction_bucket).len(),
            i_out.len() == old(i_out).len(),
        decreases i - lo,
    {
        proof {
            lemma_fold_down_prefix(step, s0, lo as int, i - 1, hi as int);
        }
        i -= 1;
        if !final_bwt_aux_scan_right_to_left_8u_slot_at(t, rm, sa, induction_bucket, i_out, i) {
            return false;
        }
    }
    true
}

/// [`final_bwt_aux_scan_right_to_left_8u_slot_step`] over a block.
pub open spec fn final_bwt_aux_scan_right_to_left_8u_run(
    t: Seq<u8>,
    rm: i32,
    s: (Seq<i32>, Seq<i32>, Seq<i32>),
    start: int,
    size: int,
) -> Option<(Seq<i32>, Seq<i32>, Seq<i32>)> {
    final_bwt_aux_scan_right_to_left_8u_slot_run(t, rm, s, start, start + size)
}

/// Scans a block for the transformed text and its samples.
pub fn final_bwt_aux_scan_right_to_left_8u(
    t: &[u8],
    sa: &mut [SaSint],
    rm: SaSint,
    i_out: &mut [SaSint],
    induction_bucket: &mut [SaSint],
    omp_block_start: FastSint,
    omp_block_size: FastSint,
)
    requires
        isize::MIN <= omp_block_start + omp_block_size <= isize::MAX,
        final_bwt_aux_scan_right_to_left_8u_run(t@, rm, (old(sa)@, old(induction_bucket)@, old(i_out)@), omp_block_start as int, omp_block_size as int) is Some,
    ensures
        final_bwt_aux_scan_right_to_left_8u_run(t@, rm, (old(sa)@, old(induction_bucket)@, old(i_out)@), omp_block_start as int, omp_block_size as int)
            == Some((final(sa)@, final(induction_bucket)@, final(i_out)@)),
{
    let _ok: bool = try_final_bwt_aux_scan_right_to_left_8u_slot(
        t, rm, sa, induction_bucket, i_out, omp_block_start, omp_block_start + omp_block_size);
}

/// The array with the entries of each of `k` buckets cleared, from `starts` up to `ends`.
pub open spec fn buckets_cleared(sa: Seq<i32>, k: int, starts: Seq<i32>, ends: Seq<i32>) -> Seq<i32> {
    Seq::new(sa.len(), |i: int|
        if exists|c: int| 0 <= c < k && #[trigger] starts[c] <= i < #[trigger] ends[c] {
            0i32
        } else {
            sa[i]
        })
}

/// Clears the entries of each of `k` buckets, from its start up to its end.
pub fn clear_lms_suffixes_omp(
    sa: &mut [SaSint],
    _n: SaSint,
    k: SaSint,
    bucket_start: &[SaSint],
    bucket_end: &[SaSint],
    _threads: SaSint,
)
    requires
        0 <= k <= bucket_start.len(),
        k <= bucket_end.len(),
        forall|c: int| 0 <= c < k && #[trigger] bucket_start@[c] < #[trigger] bucket_end@[c]
            ==> 0 <= bucket_start@[c] && bucket_end@[c] <= old(sa).len(),
    ensures
        final(sa)@ == buckets_cleared(old(sa)@, k as int, bucket_start@, bucket_end@),
{
    let mut c: usize = 0;
    while c < k as usize
        invariant
            c <= k <= bucket_start.len(),
            k <= bucket_end.len(),
            forall|c: int| 0 <= c < k && #[trigger] bucket_start@[c] < #[trigger] bucket_end@[c]
                ==> 0 <= bucket_start@[c] && bucket_end@[c] <= sa.len(),
            sa.len() == old(sa).len(),
            sa@ =~= buckets_cleared(old(sa)@, c as int, bucket_start@, bucket_end@),
        decreases k - c,
    {
        let ghost before = sa@;
        if bucket_start[c] < bucket_end[c] {
            crate::gather::clear_range(sa, bucket_start[c] as usize, bucket_end[c] as usize);
        }
        assert(sa@ =~= buckets_cleared(old(sa)@, c + 1, bucket_start@, bucket_end@)) by {
            assert forall|i: int| 0 <= i < sa.len() implies
                sa@[i] == buckets_cleared(old(sa)@, c + 1, bucket_start@, bucket_end@)[i] by {
                if bucket_start@[c as int] <= i < bucket_end@[c as int] {
                    assert(0 <= c < c + 1);
                } else if exists|x: int| 0 <= x < c + 1 && #[trigger] bucket_start@[x] <= i < #[trigger] bucket_end@[x] {
                    let x = choose|x: int| 0 <= x < c + 1 && #[trigger] bucket_start@[x] <= i < #[trigger] bucket_end@[x];
                    assert(x < c);
                    assert(before[i] == 0);
                }
            }
        }
        c += 1;
    }
}

} // verus!
