//! Radix sort of LMS suffixes by their first symbol, and the passes that move
//! marks and cached suffixes.

use vstd::prelude::*;
use crate::fold::{fold_down, fold_up, lemma_fold_down_prefix, lemma_fold_up_prefix};
use crate::marks::{
    bit, clear_group, clear_mark, flip_mark, flipped, grouped, has_group, marked, set_group, set_mark, ungrouped,
    unmarked, with_group, within, word_within,
};
use crate::types::{FastSint, PlaceState, SaSint, ThreadCache, ThreadState, ALPHABET_SIZE, SAINT_MAX};

verus! {

/// One step of the radix sort of a byte text: the suffix at slot `i` goes to the last free
/// slot of the bucket of its first byte.
pub open spec fn radix_sort_lms_suffixes_8u_step(t: Seq<u8>) -> spec_fn(PlaceState, int) -> Option<PlaceState> {
    |s: PlaceState, i: int|
        {
            let (sa, b) = s;
            let p = sa[i];
            let v = 2 * t[p as int];
            let x = b[v] - 1;
            if 0 <= i < sa.len() && 0 <= p < t.len() && v < b.len() && 0 <= x < sa.len() {
                Some((sa.update(x, p), b.update(v, x as i32)))
            } else {
                None
            }
        }
}

/// [`radix_sort_lms_suffixes_8u_step`] over the `size` positions from `start`, downward.
pub open spec fn radix_sort_lms_suffixes_8u_run(t: Seq<u8>, s: PlaceState, start: int, size: int) -> Option<PlaceState> {
    fold_down(radix_sort_lms_suffixes_8u_step(t), s, start, start + size)
}

/// Performs one step, or returns `false` where the step is outside its domain.
fn radix_sort_lms_suffixes_8u_at(
    t: &[u8],
    sa: &mut [SaSint],
    induction_bucket: &mut [SaSint],
    i: FastSint,
) -> (ok: bool)
    ensures
        ok == (radix_sort_lms_suffixes_8u_step(t@)((old(sa)@, old(induction_bucket)@), i as int) is Some),
        ok ==> radix_sort_lms_suffixes_8u_step(t@)((old(sa)@, old(induction_bucket)@), i as int) == Some((final(sa)@, final(induction_bucket)@)),
        final(sa).len() == old(sa).len(),
        final(induction_bucket).len() == old(induction_bucket).len(),
{
    if !word_within(i, sa.len()) {
        return false;
    }
    let p: SaSint = sa[i as usize];
    if !within(p, t.len()) {
        return false;
    }
    let v: usize = 2 * (t[p as usize] as usize);
    if v >= induction_bucket.len() {
        return false;
    }
    if induction_bucket[v] <= 0 {
        return false;
    }
    let x: SaSint = induction_bucket[v] - 1;
    if !within(x, sa.len()) {
        return false;
    }
    induction_bucket[v] = x;
    sa[x as usize] = p;
    true
}

/// Runs the scan as far as it is defined; `false` where it is not.
pub(crate) fn try_radix_sort_lms_suffixes_8u(
    t: &[u8],
    sa: &mut [SaSint],
    induction_bucket: &mut [SaSint],
    start: FastSint,
    size: FastSint,
) -> (ok: bool)
    requires
        isize::MIN <= start + size <= isize::MAX,
    ensures
        ok == (radix_sort_lms_suffixes_8u_run(t@, (old(sa)@, old(induction_bucket)@), start as int, size as int) is Some),
        ok ==> radix_sort_lms_suffixes_8u_run(t@, (old(sa)@, old(induction_bucket)@), start as int, size as int) == Some((final(sa)@, final(induction_bucket)@)),
        final(sa).len() == old(sa).len(),
        final(induction_bucket).len() == old(induction_bucket).len(),
{

    if size <= 0 {
        return true;
    }
    let mut i: FastSint = start + size;
    let ghost step = radix_sort_lms_suffixes_8u_step(t@);
    let ghost s0 = (sa@, induction_bucket@);
    while i > start
        invariant
            start <= i <= start + size,
            step == radix_sort_lms_suffixes_8u_step(t@),
            s0 == (old(sa)@, old(induction_bucket)@),
            fold_down(step, s0, i as int, start + size) == Some((sa@, induction_bucket@)),
            sa.len() == old(sa).len(),
            induction_bucket.len() == old(induction_bucket).len(),
        decreases i - start,
    {
        proof {
            lemma_fold_down_prefix(step, s0, start as int, i - 1, start + size);
        }
        i -= 1;
        if !radix_sort_lms_suffixes_8u_at(t, sa, induction_bucket, i) {
            return false;
        }
    }
    true
}

/// One step of the radix sort of a byte text: the suffix at slot `i` goes to the last free
/// slot of the bucket of its first byte.
/// The scan covers `omp_block_size` positions from `omp_block_start`, downward.
pub fn radix_sort_lms_suffixes_8u(
    t: &[u8],
    sa: &mut [SaSint],
    induction_bucket: &mut [SaSint],
    omp_block_start: FastSint,
    omp_block_size: FastSint,
)
    requires
        isize::MIN <= omp_block_start + omp_block_size <= isize::MAX,
        radix_sort_lms_suffixes_8u_run(t@, (old(sa)@, old(induction_bucket)@), omp_block_start as int, omp_block_size as int) is Some,
    ensures
        radix_sort_lms_suffixes_8u_run(t@, (old(sa)@, old(induction_bucket)@), omp_block_start as int, omp_block_size as int) == Some((final(sa)@, final(induction_bucket)@)),
{
    let _ok: bool = try_radix_sort_lms_suffixes_8u(t, sa, induction_bucket, omp_block_start, omp_block_size);
}

/// One step of the radix sort of an integer text with six buckets for each symbol: the
/// suffix at slot `i` goes to the last free slot of the bucket of its first symbol.
pub open spec fn radix_sort_lms_suffixes_32s_6k_step(t: Seq<i32>) -> spec_fn(PlaceState, int) -> Option<PlaceState> {
    |s: PlaceState, i: int|
        {
            let (sa, b) = s;
            let p = sa[i];
            let v = t[p as int] as int;
            let x = b[v] - 1;
            if 0 <= i < sa.len() && 0 <= p < t.len() && 0 <= t[p as int] && v < b.len() && 0 <= x < sa.len() {
                Some((sa.update(x, p), b.update(v, x as i32)))
            } else {
                None
            }
        }
}

/// [`radix_sort_lms_suffixes_32s_6k_step`] over the `size` positions from `start`, downward.
pub open spec fn radix_sort_lms_suffixes_32s_6k_run(t: Seq<i32>, s: PlaceState, start: int, size: int) -> Option<PlaceState> {
    fold_down(radix_sort_lms_suffixes_32s_6k_step(t), s, start, start + size)
}

/// Performs one step, or returns `false` where the step is outside its domain.
fn radix_sort_lms_suffixes_32s_6k_at(
    t: &[SaSint],
    sa: &mut [SaSint],
    induction_bucket: &mut [SaSint],
    i: FastSint,
) -> (ok: bool)
    ensures
        ok == (radix_sort_lms_suffixes_32s_6k_step(t@)((old(sa)@, old(induction_bucket)@), i as int) is Some),
        ok ==> radix_sort_lms_suffixes_32s_6k_step(t@)((old(sa)@, old(induction_bucket)@), i as int) == Some((final(sa)@, final(induction_bucket)@)),
        final(sa).len() == old(sa).len(),
        final(induction_bucket).len() == old(induction_bucket).len(),
{
    if !word_within(i, sa.len()) {
        return false;
    }
    let p: SaSint = sa[i as usize];
    if !within(p, t.len()) {
        return false;
    }
    let c: SaSint = t[p as usize];
    if c < 0 || c as u64 >= induction_bucket.len() as u64 {
        return false;
    }
    let v: usize = c as usize;
    if induction_bucket[v] <= 0 {
        return false;
    }
    let x: SaSint = induction_bucket[v] - 1;
    if !within(x, sa.len()) {
        return false;
    }
    induction_bucket[v] = x;
    sa[x as usize] = p;
    true
}

/// Runs the scan as far as it is defined; `false` where it is not.
pub(crate) fn try_radix_sort_lms_suffixes_32s_6k(
    t: &[SaSint],
    sa: &mut [SaSint],
    induction_bucket: &mut [SaSint],
    start: FastSint,
    size: FastSint,
) -> (ok: bool)
    requires
        isize::MIN <= start + size <= isize::MAX,
    ensures
        ok == (radix_sort_lms_suffixes_32s_6k_run(t@, (old(sa)@, old(induction_bucket)@), start as int, size as int) is Some),
        ok ==> radix_sort_lms_suffixes_32s_6k_run(t@, (old(sa)@, old(induction_bucket)@), start as int, size as int) == Some((final(sa)@, final(induction_bucket)@)),
        final(sa).len() == old(sa).len(),
        final(induction_bucket).len() == old(induction_bucket).len(),
{

    if size <= 0 {
        return true;
    }
    let mut i: FastSint = start + size;
    let ghost step = radix_sort_lms_suffixes_32s_6k_step(t@);
    let ghost s0 = (sa@, induction_bucket@);
    while i > start
        invariant
            start <= i <= start + size,
            step == radix_sort_lms_suffixes_32s_6k_step(t@),
            s0 == (old(sa)@, old(induction_bucket)@),
            fold_down(step, s0, i as int, start + size) == Some((sa@, induction_bucket@)),
            sa.len() == old(sa).len(),
            induction_bucket.len() == old(induction_bucket).len(),
        decreases i - start,
    {
        proof {
            lemma_fold_down_prefix(step, s0, start as int, i - 1, start + size);
        }
        i -= 1;
        if !radix_sort_lms_suffixes_32s_6k_at(t, sa, induction_bucket, i) {
            return false;
        }
    }
    true
}

/// One step of the radix sort of an integer text with six buckets for each symbol: the
/// suffix at slot `i` goes to the last free slot of the bucket of its first symbol.
/// The scan covers `omp_block_size` positions from `omp_block_start`, downward.
pub fn radix_sort_lms_suffixes_32s_6k(
    t: &[SaSint],
    sa: &mut [SaSint],
    induction_bucket: &mut [SaSint],
    omp_block_start: FastSint,
    omp_block_size: FastSint,
)
    requires
        isize::MIN <= omp_block_start + omp_block_size <= isize::MAX,
        radix_sort_lms_suffixes_32s_6k_run(t@, (old(sa)@, old(induction_bucket)@), omp_block_start as int, omp_block_size as int) is Some,
    ensures
        radix_sort_lms_suffixes_32s_6k_run(t@, (old(sa)@, old(induction_bucket)@), omp_block_start as int, omp_block_size as int) == Some((final(sa)@, final(induction_bucket)@)),
{
    let _ok: bool = try_radix_sort_lms_suffixes_32s_6k(t, sa, induction_bucket, omp_block_start, omp_block_size);
}

/// One step of the radix sort of an integer text with two buckets for each symbol: the
/// suffix at slot `i` goes to the last free slot of the bucket of its first symbol.
pub open spec fn radix_sort_lms_suffixes_32s_2k_step(t: Seq<i32>) -> spec_fn(PlaceState, int) -> Option<PlaceState> {
    |s: PlaceState, i: int|
        {
            let (sa, b) = s;
            let p = sa[i];
            let v = 2 * t[p as int];
            let x = b[v] - 1;
            if 0 <= i < sa.len() && 0 <= p < t.len() && 0 <= t[p as int] && v < b.len() && 0 <= x < sa.len() {
                Some((sa.update(x, p), b.update(v, x as i32)))
            } else {
                None
            }
        }
}

/// [`radix_sort_lms_suffixes_32s_2k_step`] over the `size` positions from `start`, downward.
pub open spec fn radix_sort_lms_suffixes_32s_2k_run(t: Seq<i32>, s: PlaceState, start: int, size: int) -> Option<PlaceState> {
    fold_down(radix_sort_lms_suffixes_32s_2k_step(t), s, start, start + size)
}

/// Performs one step, or returns `false` where the step is outside its domain.
fn radix_sort_lms_suffixes_32s_2k_at(
    t: &[SaSint],
    sa: &mut [SaSint],
    induction_bucket: &mut [SaSint],
    i: FastSint,
) -> (ok: bool)
    ensures
        ok == (radix_sort_lms_suffixes_32s_2k_step(t@)((old(sa)@, old(induction_bucket)@), i as int) is Some),
        ok ==> radix_sort_lms_suffixes_32s_2k_step(t@)((old(sa)@, old(induction_bucket)@), i as int) == Some((final(sa)@, final(induction_bucket)@)),
        final(sa).len() == old(sa).len(),
        final(induction_bucket).len() == old(induction_bucket).len(),
{
    if !word_within(i, sa.len()) {
        return false;
    }
    let p: SaSint = sa[i as usize];
    if !within(p, t.len()) {
        return false;
    }
    let c: SaSint = t[p as usize];
    if c < 0 || 2 * (c as u64) >= induction_bucket.len() as u64 {
        return false;
    }
    let v: usize = 2 * (c as usize);
    if induction_bucket[v] <= 0 {
        return false;
    }
    let x: SaSint = induction_bucket[v] - 1;
    if !within(x, sa.len()) {
        return false;
    }
    induction_bucket[v] = x;
    sa[x as usize] = p;
    true
}

/// Runs the scan as far as it is defined; `false` where it is not.
pub(crate) fn try_radix_sort_lms_suffixes_32s_2k(
    t: &[SaSint],
    sa: &mut [SaSint],
    induction_bucket: &mut [SaSint],
    start: FastSint,
    size: FastSint,
) -> (ok: bool)
    requires
        isize::MIN <= start + size <= isize::MAX,
    ensures
        ok == (radix_sort_lms_suffixes_32s_2k_run(t@, (old(sa)@, old(induction_bucket)@), start as int, size as int) is Some),
        ok ==> radix_sort_lms_suffixes_32s_2k_run(t@, (old(sa)@, old(induction_bucket)@), start as int, size as int) == Some((final(sa)@, final(induction_bucket)@)),
        final(sa).len() == old(sa).len(),
        final(induction_bucket).len() == old(induction_bucket).len(),
{

    if size <= 0 {
        return true;
    }
    let mut i: FastSint = start + size;
    let ghost step = radix_sort_lms_suffixes_32s_2k_step(t@);
    let ghost s0 = (sa@, induction_bucket@);
    while i > start
        invariant
            start <= i <= start + size,
            step == radix_sort_lms_suffixes_32s_2k_step(t@),
            s0 == (old(sa)@, old(induction_bucket)@),
            fold_down(step, s0, i as int, start + size) == Some((sa@, induction_bucket@)),
            sa.len() == old(sa).len(),
            induction_bucket.len() == old(induction_bucket).len(),
        decreases i - start,
    {
        proof {
            lemma_fold_down_prefix(step, s0, start as int, i - 1, start + size);
        }
        i -= 1;
        if !radix_sort_lms_suffixes_32s_2k_at(t, sa, induction_bucket, i) {
            return false;
        }
    }
    true
}

/// One step of the radix sort of an integer text with two buckets for each symbol: the
/// suffix at slot `i` goes to the last free slot of the bucket of its first symbol.
/// The scan covers `omp_block_size` positions from `omp_block_start`, downward.
pub fn radix_sort_lms_suffixes_32s_2k(
    t: &[SaSint],
    sa: &mut [SaSint],
    induction_bucket: &mut [SaSint],
    omp_block_start: FastSint,
    omp_block_size: FastSint,
)
    requires
        isize::MIN <= omp_block_start + omp_block_size <= isize::MAX,
        radix_sort_lms_suffixes_32s_2k_run(t@, (old(sa)@, old(induction_bucket)@), omp_block_start as int, omp_block_size as int) is Some,
    ensures
        radix_sort_lms_suffixes_32s_2k_run(t@, (old(sa)@, old(induction_bucket)@), omp_block_start as int, omp_block_size as int) == Some((final(sa)@, final(induction_bucket)@)),
{
    let _ok: bool = try_radix_sort_lms_suffixes_32s_2k(t, sa, induction_bucket, omp_block_start, omp_block_size);
}

/// Sorts the suffix at `i + 1` into its bucket where it is an LMS suffix. The state holds
/// the array, the buckets, the number of suffixes sorted, whether the suffix at `i + 1`
/// is of type L, and the symbol sorted last.
pub open spec fn radix_1k_step(t: Seq<i32>) -> spec_fn((Seq<i32>, Seq<i32>, i32, bool, i32), int) -> Option<(Seq<i32>, Seq<i32>, i32, bool, i32)> {
    |s: (Seq<i32>, Seq<i32>, i32, bool, i32), i: int|
        {
            let (sa, buckets, m, f, last) = s;
            let c1 = t[i + 1];
            let g = t[i] > c1 - bit(f);
            let x = buckets[c1 as int] - 1;
            if !(0 <= i && i + 1 < t.len()) {
                None
            } else if !g || f {
                Some((sa, buckets, m, g, last))
            } else if 0 <= c1 < buckets.len() && 0 <= x < sa.len() && m < i32::MAX && i + 1 <= i32::MAX {
                Some((sa.update(x, (i + 1) as i32), buckets.update(c1 as int, x as i32), (m + 1) as i32, g, c1))
            } else {
                None
            }
        }
}

/// [`radix_1k_step`] over the positions from `lo` to `hi`, downward.
pub open spec fn radix_1k_run(t: Seq<i32>, s: (Seq<i32>, Seq<i32>, i32, bool, i32), lo: int, hi: int) -> Option<(Seq<i32>, Seq<i32>, i32, bool, i32)> {
    fold_down(radix_1k_step(t), s, lo, hi)
}

/// Performs one step, or returns `false` where the step is outside its domain.
fn radix_1k_at(
    t: &[SaSint],
    sa: &mut [SaSint],
    buckets: &mut [SaSint],
    m: &mut SaSint,
    f: &mut bool,
    last: &mut SaSint,
    i: FastSint,
) -> (ok: bool)
    ensures
        ok == (radix_1k_step(t@)((old(sa)@, old(buckets)@, *old(m), *old(f), *old(last)), i as int) is Some),
        ok ==> radix_1k_step(t@)((old(sa)@, old(buckets)@, *old(m), *old(f), *old(last)), i as int) == Some((final(sa)@, final(buckets)@, *final(m), *final(f), *final(last))),
        final(sa).len() == old(sa).len(),
        final(buckets).len() == old(buckets).len(),
{
    if i < 0 || i as usize >= t.len() || i as usize + 1 >= t.len() {
        return false;
    }
    let j: usize = i as usize;
    let c1: SaSint = t[j + 1];
    let g: bool = (t[j] as i64) > c1 as i64 - (if *f { 1 } else { 0 });
    if !g || *f {
        *f = g;
        return true;
    }
    if !within(c1, buckets.len()) || *m == SAINT_MAX || j as u64 >= 0x7fff_ffff {
        return false;
    }
    if buckets[c1 as usize] <= 0 {
        return false;
    }
    let x: SaSint = buckets[c1 as usize] - 1;
    if !within(x, sa.len()) {
        return false;
    }
    buckets[c1 as usize] = x;
    sa[x as usize] = (j + 1) as SaSint;
    *m = *m + 1;
    *f = g;
    *last = c1;
    true
}

/// Runs the steps as far as they are defined; `false` where one is not.
pub(crate) fn try_radix_1k(
    t: &[SaSint],
    sa: &mut [SaSint],
    buckets: &mut [SaSint],
    m: &mut SaSint,
    f: &mut bool,
    last: &mut SaSint,
    lo: FastSint,
    hi: FastSint,
) -> (ok: bool)
    ensures
        ok == (radix_1k_run(t@, (old(sa)@, old(buckets)@, *old(m), *old(f), *old(last)), lo as int, hi as int) is Some),
        ok ==> radix_1k_run(t@, (old(sa)@, old(buckets)@, *old(m), *old(f), *old(last)), lo as int, hi as int) == Some((final(sa)@, final(buckets)@, *final(m), *final(f), *final(last))),
        final(sa).len() == old(sa).len(),
        final(buckets).len() == old(buckets).len(),
{
    if hi <= lo {
        return true;
    }
    let mut i: FastSint = hi;
    let ghost step = radix_1k_step(t@);
    let ghost s0 = (sa@, buckets@, *m, *f, *last);
    while i > lo
        invariant
            lo <= i <= hi,
            step == radix_1k_step(t@),
            s0 == (old(sa)@, old(buckets)@, *old(m), *old(f), *old(last)),
            fold_down(step, s0, i as int, hi as int) == Some((sa@, buckets@, *m, *f, *last)),
            sa.len() == old(sa).len(),
            buckets.len() == old(buckets).len(),
        decreases i - lo,
    {
        proof {
            lemma_fold_down_prefix(step, s0, lo as int, i - 1, hi as int);
        }
        i -= 1;
        if !radix_1k_at(t, sa, buckets, m, f, last, i) {
            return false;
        }
    }
    true
}

/// What [`radix_sort_lms_suffixes_32s_1k`] leaves: the array, the buckets, and the number
/// of LMS suffixes; where there are several, the first of them is taken out again.
pub open spec fn radix_sort_lms_suffixes_32s_1k_run(
    t: Seq<i32>,
    sa: Seq<i32>,
    n: int,
    buckets: Seq<i32>,
) -> Option<(Seq<i32>, Seq<i32>, i32)> {
    if !(1 <= n <= t.len()) {
        None
    } else {
        match radix_1k_run(t, (sa, buckets, 0, true, 0), 0, n - 1) {
            Some(x) => if x.2 <= 1 {
                Some((x.0, x.1, x.2))
            } else {
                Some((x.0.update(x.1[x.4 as int] as int, 0), x.1, x.2))
            },
            None => None,
        }
    }
}

/// Where several suffixes were sorted, the bucket of the last one points at it.
proof fn lemma_radix_1k(t: Seq<i32>, s: (Seq<i32>, Seq<i32>, i32, bool, i32), lo: int, hi: int)
    requires
        s.2 == 0,
    ensures
        radix_1k_run(t, s, lo, hi) matches Some(x) ==> {
            &&& x.2 >= 0
            &&& x.0.len() == s.0.len()
            &&& x.1.len() == s.1.len()
            &&& x.2 > 0 ==> 0 <= x.4 < x.1.len() && 0 <= x.1[x.4 as int] < x.0.len()
        },
    decreases hi - lo,
{
    if lo < hi {
        lemma_radix_1k(t, s, lo + 1, hi);
    }
}

/// Sorts the LMS suffixes of the first `n` positions by their first symbol, each into the
/// last free slot of its bucket, and takes the first of several out again.
///
/// `None` where a slot or a sum is out of range.
pub(crate) fn try_radix_sort_lms_suffixes_32s_1k(
    t: &[SaSint],
    sa: &mut [SaSint],
    n: SaSint,
    buckets: &mut [SaSint],
) -> (r: Option<SaSint>)
    ensures
        r is Some == (radix_sort_lms_suffixes_32s_1k_run(t@, old(sa)@, n as int, old(buckets)@) is Some),
        r is Some ==> radix_sort_lms_suffixes_32s_1k_run(t@, old(sa)@, n as int, old(buckets)@) == Some((final(sa)@, final(buckets)@, r->0)),
        final(sa).len() == old(sa).len(),
        final(buckets).len() == old(buckets).len(),
{
    if n < 1 || n as u64 > t.len() as u64 {
        return None;
    }
    let mut m: SaSint = 0;
    let mut f: bool = true;
    let mut last: SaSint = 0;
    if !try_radix_1k(t, sa, buckets, &mut m, &mut f, &mut last, 0, n as FastSint - 1) {
        return None;
    }
    proof {
        lemma_radix_1k(t@, (old(sa)@, old(buckets)@, 0, true, 0), 0, n - 1);
    }
    if m > 1 {
        sa[buckets[last as usize] as usize] = 0;
    }
    Some(m)
}

/// Sorts the LMS suffixes of the first `n` positions by their first symbol, each into the
/// last free slot of its bucket, and takes the first of several out again.
pub fn radix_sort_lms_suffixes_32s_1k(
    t: &[SaSint],
    sa: &mut [SaSint],
    n: SaSint,
    buckets: &mut [SaSint],
) -> (r: SaSint)
    requires
        radix_sort_lms_suffixes_32s_1k_run(t@, old(sa)@, n as int, old(buckets)@) is Some,
    ensures
        radix_sort_lms_suffixes_32s_1k_run(t@, old(sa)@, n as int, old(buckets)@) == Some((final(sa)@, final(buckets)@, r)),
{
    match try_radix_sort_lms_suffixes_32s_1k(t, sa, n, buckets) {
        Some(r) => r,
        None => 0,
    }
}

/// Sets the sign mark of the suffix that bucket `i` points at.
pub open spec fn radix_sort_set_markers_32s_6k_slot_step(induction_bucket: Seq<i32>) -> spec_fn(Seq<i32>, int) -> Option<Seq<i32>> {
    |s: Seq<i32>, i: int|
        {
            let sa = s;
            let x = induction_bucket[i];
            if 0 <= i && i < induction_bucket.len() && 0 <= x < sa.len() {
                Some(sa.update(x as int, marked(sa[x as int], true)))
            } else {
                None
            }
        }
}

/// [`radix_sort_set_markers_32s_6k_slot_step`] over the positions from `lo` to `hi`, upward.
pub open spec fn radix_sort_set_markers_32s_6k_slot_run(induction_bucket: Seq<i32>, s: Seq<i32>, lo: int, hi: int) -> Option<Seq<i32>> {
    fold_up(radix_sort_set_markers_32s_6k_slot_step(induction_bucket), s, lo, hi)
}

/// Performs one step, or returns `false` where the step is outside its domain.
fn radix_sort_set_markers_32s_6k_slot_at(
    induction_bucket: &[SaSint],
    sa: &mut [SaSint],
    i: FastSint,
) -> (ok: bool)
    ensures
        ok == (radix_sort_set_markers_32s_6k_slot_step(induction_bucket@)(old(sa)@, i as int) is Some),
        ok ==> radix_sort_set_markers_32s_6k_slot_step(induction_bucket@)(old(sa)@, i as int) == Some(final(sa)@),
        final(sa).len() == old(sa).len(),
{
    if i < 0 || i as u128 >= induction_bucket.len() as u128 {
        return false;
    }
    let x: SaSint = induction_bucket[i as usize];
    if !within(x, sa.len()) {
        return false;
    }
    let p: SaSint = sa[x as usize];
    sa[x as usize] = set_mark(p, true);
    true
}

/// Runs the steps as far as they are defined; `false` where one is not.
pub(crate) fn try_radix_sort_set_markers_32s_6k_slot(
    induction_bucket: &[SaSint],
    sa: &mut [SaSint],
    lo: FastSint,
    hi: FastSint,
) -> (ok: bool)
    ensures
        ok == (radix_sort_set_markers_32s_6k_slot_run(induction_bucket@, old(sa)@, lo as int, hi as int) is Some),
        ok ==> radix_sort_set_markers_32s_6k_slot_run(induction_bucket@, old(sa)@, lo as int, hi as int) == Some(final(sa)@),
        final(sa).len() == old(sa).len(),
{
    let mut i: FastSint = lo;
    let ghost step = radix_sort_set_markers_32s_6k_slot_step(induction_bucket@);
    let ghost s0 = sa@;
    while i < hi
        invariant
            lo <= i,
            i <= hi || hi < lo,
            hi < lo ==> i == lo,
            step == radix_sort_set_markers_32s_6k_slot_step(induction_bucket@),
            s0 == old(sa)@,
            fold_up(step, s0, lo as int, i as int) == Some(sa@),
            sa.len() == old(sa).len(),
        decreases hi - i,
    {
        proof {
            lemma_fold_up_prefix(step, s0, lo as int, i + 1, hi as int);
        }
        if !radix_sort_set_markers_32s_6k_slot_at(induction_bucket, sa, i) {
            return false;
        }
        i += 1;
    }
    true
}

/// Marks the suffix that each of the `omp_block_size` buckets from `omp_block_start` points at.
pub(crate) fn try_radix_sort_set_markers_32s_6k(
    sa: &mut [SaSint],
    induction_bucket: &[SaSint],
    omp_block_start: FastSint,
    omp_block_size: FastSint,
) -> (ok: bool)
    requires
        isize::MIN <= omp_block_start + omp_block_size <= isize::MAX,
    ensures
        ok == (radix_sort_set_markers_32s_6k_slot_run(induction_bucket@, old(sa)@, omp_block_start as int, omp_block_start + omp_block_size) is Some),
        ok ==> radix_sort_set_markers_32s_6k_slot_run(induction_bucket@, old(sa)@, omp_block_start as int, omp_block_start + omp_block_size)
            == Some(final(sa)@),
        final(sa).len() == old(sa).len(),
{
    try_radix_sort_set_markers_32s_6k_slot(induction_bucket, sa, omp_block_start, omp_block_start + omp_block_size)
}

/// Marks the suffix that each of the `omp_block_size` buckets from `omp_block_start` points at.
pub fn radix_sort_set_markers_32s_6k(
    sa: &mut [SaSint],
    induction_bucket: &[SaSint],
    omp_block_start: FastSint,
    omp_block_size: FastSint,
)
    requires
        isize::MIN <= omp_block_start + omp_block_size <= isize::MAX,
        radix_sort_set_markers_32s_6k_slot_run(induction_bucket@, old(sa)@, omp_block_start as int, omp_block_start + omp_block_size) is Some,
    ensures
        radix_sort_set_markers_32s_6k_slot_run(induction_bucket@, old(sa)@, omp_block_start as int, omp_block_start + omp_block_size)
            == Some(final(sa)@),
{
    let _ok: bool = try_radix_sort_set_markers_32s_6k(sa, induction_bucket, omp_block_start, omp_block_size);
}

/// Marks the suffix that each bucket but the last of `k` points at.
pub fn radix_sort_set_markers_32s_6k_omp(sa: &mut [SaSint], k: SaSint, induction_bucket: &[SaSint], _threads: SaSint)
    requires
        radix_sort_set_markers_32s_6k_slot_run(induction_bucket@, old(sa)@, 0, k - 1) is Some,
    ensures
        radix_sort_set_markers_32s_6k_slot_run(induction_bucket@, old(sa)@, 0, k - 1) == Some(final(sa)@),
{
    if k > 0 {
        radix_sort_set_markers_32s_6k(sa, induction_bucket, 0, k as FastSint - 1);
    }
}

/// Sets the group bit of the suffix that the first bucket of symbol `i` points at.
pub open spec fn radix_sort_set_markers_32s_4k_slot_step(induction_bucket: Seq<i32>) -> spec_fn(Seq<i32>, int) -> Option<Seq<i32>> {
    |s: Seq<i32>, i: int|
        {
            let sa = s;
            let x = induction_bucket[2 * i];
            if 0 <= i && 2 * i < induction_bucket.len() && 0 <= x < sa.len() {
                Some(sa.update(x as int, with_group(sa[x as int], true)))
            } else {
                None
            }
        }
}

/// [`radix_sort_set_markers_32s_4k_slot_step`] over the positions from `lo` to `hi`, upward.
pub open spec fn radix_sort_set_markers_32s_4k_slot_run(induction_bucket: Seq<i32>, s: Seq<i32>, lo: int, hi: int) -> Option<Seq<i32>> {
    fold_up(radix_sort_set_markers_32s_4k_slot_step(induction_bucket), s, lo, hi)
}

/// Performs one step, or returns `false` where the step is outside its domain.
fn radix_sort_set_markers_32s_4k_slot_at(
    induction_bucket: &[SaSint],
    sa: &mut [SaSint],
    i: FastSint,
) -> (ok: bool)
    ensures
        ok == (radix_sort_set_markers_32s_4k_slot_step(induction_bucket@)(old(sa)@, i as int) is Some),
        ok ==> radix_sort_set_markers_32s_4k_slot_step(induction_bucket@)(old(sa)@, i as int) == Some(final(sa)@),
        final(sa).len() == old(sa).len(),
{
    if i < 0 || 2 * (i as u128) >= induction_bucket.len() as u128 {
        return false;
    }
    let x: SaSint = induction_bucket[2 * (i as usize)];
    if !within(x, sa.len()) {
        return false;
    }
    let p: SaSint = sa[x as usize];
    sa[x as usize] = set_group(p, true);
    true
}

/// Runs the steps as far as they are defined; `false` where one is not.
pub(crate) fn try_radix_sort_set_markers_32s_4k_slot(
    induction_bucket: &[SaSint],
    sa: &mut [SaSint],
    lo: FastSint,
    hi: FastSint,
) -> (ok: bool)
    ensures
        ok == (radix_sort_set_markers_32s_4k_slot_run(induction_bucket@, old(sa)@, lo as int, hi as int) is Some),
        ok ==> radix_sort_set_markers_32s_4k_slot_run(induction_bucket@, old(sa)@, lo as int, hi as int) == Some(final(sa)@),
        final(sa).len() == old(sa).len(),
{
    let mut i: FastSint = lo;
    let ghost step = radix_sort_set_markers_32s_4k_slot_step(induction_bucket@);
    let ghost s0 = sa@;
    while i < hi
        invariant
            lo <= i,
            i <= hi || hi < lo,
            hi < lo ==> i == lo,
            step == radix_sort_set_markers_32s_4k_slot_step(induction_bucket@),
            s0 == old(sa)@,
            fold_up(step, s0, lo as int, i as int) == Some(sa@),
            sa.len() == old(sa).len(),
        decreases hi - i,
    {
        proof {
            lemma_fold_up_prefix(step, s0, lo as int, i + 1, hi as int);
        }
        if !radix_sort_set_markers_32s_4k_slot_at(induction_bucket, sa, i) {
            return false;
        }
        i += 1;
    }
    true
}

/// Marks the suffix that each of the `omp_block_size` buckets from `omp_block_start` points at.
pub(crate) fn try_radix_sort_set_markers_32s_4k(
    sa: &mut [SaSint],
    induction_bucket: &[SaSint],
    omp_block_start: FastSint,
    omp_block_size: FastSint,
) -> (ok: bool)
    requires
        isize::MIN <= omp_block_start + omp_block_size <= isize::MAX,
    ensures
        ok == (radix_sort_set_markers_32s_4k_slot_run(induction_bucket@, old(sa)@, omp_block_start as int, omp_block_start + omp_block_size) is Some),
        ok ==> radix_sort_set_markers_32s_4k_slot_run(induction_bucket@, old(sa)@, omp_block_start as int, omp_block_start + omp_block_size)
            == Some(final(sa)@),
        final(sa).len() == old(sa).len(),
{
    try_radix_sort_set_markers_32s_4k_slot(induction_bucket, sa, omp_block_start, omp_block_start + omp_block_size)
}

/// Marks the suffix that each of the `omp_block_size` buckets from `omp_block_start` points at.
pub fn radix_sort_set_markers_32s_4k(
    sa: &mut [SaSint],
    induction_bucket: &[SaSint],
    omp_block_start: FastSint,
    omp_block_size: FastSint,
)
    requires
        isize::MIN <= omp_block_start + omp_block_size <= isize::MAX,
        radix_sort_set_markers_32s_4k_slot_run(induction_bucket@, old(sa)@, omp_block_start as int, omp_block_start + omp_block_size) is Some,
    ensures
        radix_sort_set_markers_32s_4k_slot_run(induction_bucket@, old(sa)@, omp_block_start as int, omp_block_start + omp_block_size)
            == Some(final(sa)@),
{
    let _ok: bool = try_radix_sort_set_markers_32s_4k(sa, induction_bucket, omp_block_start, omp_block_size);
}

/// Marks the suffix that each bucket but the last of `k` points at.
pub fn radix_sort_set_markers_32s_4k_omp(sa: &mut [SaSint], k: SaSint, induction_bucket: &[SaSint], _threads: SaSint)
    requires
        radix_sort_set_markers_32s_4k_slot_run(induction_bucket@, old(sa)@, 0, k - 1) is Some,
    ensures
        radix_sort_set_markers_32s_4k_slot_run(induction_bucket@, old(sa)@, 0, k - 1) == Some(final(sa)@),
{
    if k > 0 {
        radix_sort_set_markers_32s_4k(sa, induction_bucket, 0, k as FastSint - 1);
    }
}

/// `s` with the sign marks of its first `l` entries inverted.
pub open spec fn flipped_prefix(s: Seq<i32>, l: int) -> Seq<i32> {
    Seq::new(s.len(), |i: int| if i < l { flipped(s[i]) } else { s[i] })
}

/// Inverts the sign marks of the first `l` entries.
pub fn flip_suffix_markers_omp(sa: &mut [SaSint], l: SaSint, _threads: SaSint)
    requires
        0 <= l <= old(sa).len(),
    ensures
        final(sa)@ == flipped_prefix(old(sa)@, l as int),
{
    let mut i: usize = 0;
    while i < l as usize
        invariant
            i <= l <= sa.len(),
            sa@ =~= flipped_prefix(old(sa)@, i as int),
        decreases l - i,
    {
        sa[i] = flip_mark(sa[i]);
        i += 1;
    }
}

/// Inverting the marks twice restores them.
pub proof fn law_flip_twice(s: Seq<i32>, l: int)
    ensures
        flipped_prefix(flipped_prefix(s, l), l) == s,
{
    assert(flipped_prefix(flipped_prefix(s, l), l) =~= s);
}

/// Moves the sign mark of slot `i` to the state, and the mark in the state to the slot.
pub open spec fn shift_mark_step() -> spec_fn((Seq<i32>, bool), int) -> Option<(Seq<i32>, bool)> {
    |s: (Seq<i32>, bool), i: int|
        {
            let (sa, mark) = s;
            if 0 <= i < sa.len() {
                Some((sa.update(i, marked(unmarked(sa[i]), mark)), sa[i] < 0))
            } else {
                None
            }
        }
}

/// [`shift_mark_step`] over the positions from `lo` to `hi`, downward.
pub open spec fn shift_mark_run(s: (Seq<i32>, bool), lo: int, hi: int) -> Option<(Seq<i32>, bool)> {
    fold_down(shift_mark_step(), s, lo, hi)
}

/// Performs one step, or returns `false` where the step is outside its domain.
fn shift_mark_at(
    sa: &mut [SaSint],
    mark: &mut bool,
    i: FastSint,
) -> (ok: bool)
    ensures
        ok == (shift_mark_step()((old(sa)@, *old(mark)), i as int) is Some),
        ok ==> shift_mark_step()((old(sa)@, *old(mark)), i as int) == Some((final(sa)@, *final(mark))),
        final(sa).len() == old(sa).len(),
{
    if !word_within(i, sa.len()) {
        return false;
    }
    let p: SaSint = sa[i as usize];
    sa[i as usize] = set_mark(clear_mark(p), *mark);
    *mark = p < 0;
    true
}

/// Runs the steps as far as they are defined; `false` where one is not.
pub(crate) fn try_shift_mark(
    sa: &mut [SaSint],
    mark: &mut bool,
    lo: FastSint,
    hi: FastSint,
) -> (ok: bool)
    ensures
        ok == (shift_mark_run((old(sa)@, *old(mark)), lo as int, hi as int) is Some),
        ok ==> shift_mark_run((old(sa)@, *old(mark)), lo as int, hi as int) == Some((final(sa)@, *final(mark))),
        final(sa).len() == old(sa).len(),
{
    if hi <= lo {
        return true;
    }
    let mut i: FastSint = hi;
    let ghost step = shift_mark_step();
    let ghost s0 = (sa@, *mark);
    while i > lo
        invariant
            lo <= i <= hi,
            step == shift_mark_step(),
            s0 == (old(sa)@, *old(mark)),
            fold_down(step, s0, i as int, hi as int) == Some((sa@, *mark)),
            sa.len() == old(sa).len(),
        decreases i - lo,
    {
        proof {
            lemma_fold_down_prefix(step, s0, lo as int, i - 1, hi as int);
        }
        i -= 1;
        if !shift_mark_at(sa, mark, i) {
            return false;
        }
    }
    true
}

/// Moves the marks in the L bucket of byte `i` down by one entry; the last entry gets one.
pub open spec fn shift_bucket_8u_step(buckets: Seq<i32>) -> spec_fn(Seq<i32>, int) -> Option<Seq<i32>> {
    |s: Seq<i32>, i: int|
        {
            let sa = s;
            let hi = buckets[1024 + 2 * i];
            let lo = buckets[2 * i - 2];
            if 1 <= i < ALPHABET_SIZE && 1024 + 2 * i < buckets.len() {
                match shift_mark_run((sa, true), lo as int, hi as int) {
                    Some(x) => Some(x.0),
                    None => None,
                }
            } else {
                None
            }
        }
}

/// [`shift_bucket_8u_step`] over the positions from `lo` to `hi`, downward.
pub open spec fn shift_bucket_8u_run(buckets: Seq<i32>, s: Seq<i32>, lo: int, hi: int) -> Option<Seq<i32>> {
    fold_down(shift_bucket_8u_step(buckets), s, lo, hi)
}

/// Performs one step, or returns `false` where the step is outside its domain.
fn shift_bucket_8u_at(
    buckets: &[SaSint],
    sa: &mut [SaSint],
    i: FastSint,
) -> (ok: bool)
    ensures
        ok == (shift_bucket_8u_step(buckets@)(old(sa)@, i as int) is Some),
        ok ==> shift_bucket_8u_step(buckets@)(old(sa)@, i as int) == Some(final(sa)@),
        final(sa).len() == old(sa).len(),
{
    if i < 1 || i as usize >= ALPHABET_SIZE || 1024 + 2 * (i as usize) >= buckets.len() {
        return false;
    }
    let c: usize = i as usize;
    let mut mark: bool = true;
    try_shift_mark(sa, &mut mark, buckets[2 * c - 2] as FastSint, buckets[1024 + 2 * c] as FastSint)
}

/// Runs the steps as far as they are defined; `false` where one is not.
pub(crate) fn try_shift_bucket_8u(
    buckets: &[SaSint],
    sa: &mut [SaSint],
    lo: FastSint,
    hi: FastSint,
) -> (ok: bool)
    ensures
        ok == (shift_bucket_8u_run(buckets@, old(sa)@, lo as int, hi as int) is Some),
        ok ==> shift_bucket_8u_run(buckets@, old(sa)@, lo as int, hi as int) == Some(final(sa)@),
        final(sa).len() == old(sa).len(),
{
    if hi <= lo {
        return true;
    }
    let mut i: FastSint = hi;
    let ghost step = shift_bucket_8u_step(buckets@);
    let ghost s0 = sa@;
    while i > lo
        invariant
            lo <= i <= hi,
            step == shift_bucket_8u_step(buckets@),
            s0 == old(sa)@,
            fold_down(step, s0, i as int, hi as int) == Some(sa@),
            sa.len() == old(sa).len(),
        decreases i - lo,
    {
        proof {
            lemma_fold_down_prefix(step, s0, lo as int, i - 1, hi as int);
        }
        i -= 1;
        if !shift_bucket_8u_at(buckets, sa, i) {
            return false;
        }
    }
    true
}

/// Moves the marks in each L bucket of a byte text down by one entry.
pub(crate) fn try_partial_sorting_shift_markers_8u(sa: &mut [SaSint], buckets: &[SaSint]) -> (ok: bool)
    ensures
        ok == (shift_bucket_8u_run(buckets@, old(sa)@, 1, ALPHABET_SIZE as int) is Some),
        ok ==> shift_bucket_8u_run(buckets@, old(sa)@, 1, ALPHABET_SIZE as int) == Some(final(sa)@),
        final(sa).len() == old(sa).len(),
{
    try_shift_bucket_8u(buckets, sa, 1, ALPHABET_SIZE as FastSint)
}

/// Moves the marks in each L bucket of a byte text down by one entry.
pub fn partial_sorting_shift_markers_8u_omp(sa: &mut [SaSint], _n: SaSint, buckets: &[SaSint], _threads: SaSint)
    requires
        shift_bucket_8u_run(buckets@, old(sa)@, 1, ALPHABET_SIZE as int) is Some,
    ensures
        shift_bucket_8u_run(buckets@, old(sa)@, 1, ALPHABET_SIZE as int) == Some(final(sa)@),
{
    let _ok: bool = try_partial_sorting_shift_markers_8u(sa, buckets);
}

/// Moves the marks in the L bucket of symbol `i` down by one entry; the last entry gets one.
pub open spec fn shift_bucket_32s_6k_step(k: int, buckets: Seq<i32>) -> spec_fn(Seq<i32>, int) -> Option<Seq<i32>> {
    |s: Seq<i32>, i: int|
        {
            let sa = s;
            let hi = buckets[4 * i];
            let lo = buckets[4 * k + 2 * (i - 1)];
            if 1 <= i < k && 4 * i < buckets.len() && 4 * k + 2 * (i - 1) < buckets.len() {
                match shift_mark_run((sa, true), lo as int, hi as int) {
                    Some(x) => Some(x.0),
                    None => None,
                }
            } else {
                None
            }
        }
}

/// [`shift_bucket_32s_6k_step`] over the positions from `lo` to `hi`, downward.
pub open spec fn shift_bucket_32s_6k_run(k: int, buckets: Seq<i32>, s: Seq<i32>, lo: int, hi: int) -> Option<Seq<i32>> {
    fold_down(shift_bucket_32s_6k_step(k, buckets), s, lo, hi)
}

/// Performs one step, or returns `false` where the step is outside its domain.
fn shift_bucket_32s_6k_at(
    k: usize,
    buckets: &[SaSint],
    sa: &mut [SaSint],
    i: FastSint,
) -> (ok: bool)
    ensures
        ok == (shift_bucket_32s_6k_step(k as int, buckets@)(old(sa)@, i as int) is Some),
        ok ==> shift_bucket_32s_6k_step(k as int, buckets@)(old(sa)@, i as int) == Some(final(sa)@),
        final(sa).len() == old(sa).len(),
{
    if i < 1 || i as usize >= k || 4 * (i as u128) >= buckets.len() as u128
        || 4 * (k as u128) + 2 * (i as u128 - 1) >= buckets.len() as u128 {
        return false;
    }
    let c: usize = i as usize;
    let mut mark: bool = true;
    try_shift_mark(sa, &mut mark, buckets[4 * k + 2 * (c - 1)] as FastSint, buckets[4 * c] as FastSint)
}

/// Runs the steps as far as they are defined; `false` where one is not.
pub(crate) fn try_shift_bucket_32s_6k(
    k: usize,
    buckets: &[SaSint],
    sa: &mut [SaSint],
    lo: FastSint,
    hi: FastSint,
) -> (ok: bool)
    ensures
        ok == (shift_bucket_32s_6k_run(k as int, buckets@, old(sa)@, lo as int, hi as int) is Some),
        ok ==> shift_bucket_32s_6k_run(k as int, buckets@, old(sa)@, lo as int, hi as int) == Some(final(sa)@),
        final(sa).len() == old(sa).len(),
{
    if hi <= lo {
        return true;
    }
    let mut i: FastSint = hi;
    let ghost step = shift_bucket_32s_6k_step(k as int, buckets@);
    let ghost s0 = sa@;
    while i > lo
        invariant
            lo <= i <= hi,
            step == shift_bucket_32s_6k_step(k as int, buckets@),
            s0 == old(sa)@,
            fold_down(step, s0, i as int, hi as int) == Some(sa@),
            sa.len() == old(sa).len(),
        decreases i - lo,
    {
        proof {
            lemma_fold_down_prefix(step, s0, lo as int, i - 1, hi as int);
        }
        i -= 1;
        if !shift_bucket_32s_6k_at(k, buckets, sa, i) {
            return false;
        }
    }
    true
}

/// The array with the marks in each L bucket of an integer text moved down by one entry.
pub open spec fn partial_sorting_shift_markers_32s_6k_run(sa: Seq<i32>, k: int, buckets: Seq<i32>) -> Option<Seq<i32>> {
    if 0 <= k {
        shift_bucket_32s_6k_run(k, buckets, sa, 1, k)
    } else {
        None
    }
}

/// Moves the marks in each L bucket of an integer text down by one entry.
pub(crate) fn try_partial_sorting_shift_markers_32s_6k(sa: &mut [SaSint], k: SaSint, buckets: &[SaSint]) -> (ok: bool)
    ensures
        ok == (partial_sorting_shift_markers_32s_6k_run(old(sa)@, k as int, buckets@) is Some),
        ok ==> partial_sorting_shift_markers_32s_6k_run(old(sa)@, k as int, buckets@) == Some(final(sa)@),
        final(sa).len() == old(sa).len(),
{
    if k < 0 {
        return false;
    }
    try_shift_bucket_32s_6k(k as usize, buckets, sa, 1, k as FastSint)
}

/// Moves the marks in each L bucket of an integer text down by one entry.
pub fn partial_sorting_shift_markers_32s_6k_omp(sa: &mut [SaSint], k: SaSint, buckets: &[SaSint], _threads: SaSint)
    requires
        partial_sorting_shift_markers_32s_6k_run(old(sa)@, k as int, buckets@) is Some,
    ensures
        partial_sorting_shift_markers_32s_6k_run(old(sa)@, k as int, buckets@) == Some(final(sa)@),
{
    let _ok: bool = try_partial_sorting_shift_markers_32s_6k(sa, k, buckets);
}

/// Where slot `i` holds an unmarked suffix, moves its group bit to the state, and the bit
/// in the state to the slot.
pub open spec fn shift_group_step() -> spec_fn((Seq<i32>, bool), int) -> Option<(Seq<i32>, bool)> {
    |s: (Seq<i32>, bool), i: int|
        {
            let (sa, group) = s;
            if !(0 <= i < sa.len()) {
                None
            } else if sa[i] > 0 {
                Some((sa.update(i, with_group(ungrouped(sa[i]), group)), grouped(sa[i])))
            } else {
                Some((sa, group))
            }
        }
}

/// [`shift_group_step`] over the positions from `lo` to `hi`, downward.
pub open spec fn shift_group_run(s: (Seq<i32>, bool), lo: int, hi: int) -> Option<(Seq<i32>, bool)> {
    fold_down(shift_group_step(), s, lo, hi)
}

/// Performs one step, or returns `false` where the step is outside its domain.
fn shift_group_at(
    sa: &mut [SaSint],
    group: &mut bool,
    i: FastSint,
) -> (ok: bool)
    ensures
        ok == (shift_group_step()((old(sa)@, *old(group)), i as int) is Some),
        ok ==> shift_group_step()((old(sa)@, *old(group)), i as int) == Some((final(sa)@, *final(group))),
        final(sa).len() == old(sa).len(),
{
    if !word_within(i, sa.len()) {
        return false;
    }
    let p: SaSint = sa[i as usize];
    if p > 0 {
        sa[i as usize] = set_group(clear_group(p), *group);
        *group = has_group(p);
    }
    true
}

/// Runs the steps as far as they are defined; `false` where one is not.
pub(crate) fn try_shift_group(
    sa: &mut [SaSint],
    group: &mut bool,
    lo: FastSint,
    hi: FastSint,
) -> (ok: bool)
    ensures
        ok == (shift_group_run((old(sa)@, *old(group)), lo as int, hi as int) is Some),
        ok ==> shift_group_run((old(sa)@, *old(group)), lo as int, hi as int) == Some((final(sa)@, *final(group))),
        final(sa).len() == old(sa).len(),
{
    if hi <= lo {
        return true;
    }
    let mut i: FastSint = hi;
    let ghost step = shift_group_step();
    let ghost s0 = (sa@, *group);
    while i > lo
        invariant
            lo <= i <= hi,
            step == shift_group_step(),
            s0 == (old(sa)@, *old(group)),
            fold_down(step, s0, i as int, hi as int) == Some((sa@, *group)),
            sa.len() == old(sa).len(),
        decreases i - lo,
    {
        proof {
            lemma_fold_down_prefix(step, s0, lo as int, i - 1, hi as int);
        }
        i -= 1;
        if !shift_group_at(sa, group, i) {
            return false;
        }
    }
    true
}

/// Moves the group bits of the unmarked suffixes down to the unmarked suffix before.
pub(crate) fn try_partial_sorting_shift_markers_32s_4k(sa: &mut [SaSint], n: SaSint) -> (ok: bool)
    ensures
        ok == (shift_group_run((old(sa)@, true), 0, n as int) is Some),
        ok ==> final(sa)@ == shift_group_run((old(sa)@, true), 0, n as int).unwrap().0,
        final(sa).len() == old(sa).len(),
{
    let mut group: bool = true;
    try_shift_group(sa, &mut group, 0, n as FastSint)
}

/// Moves the group bits of the first `n` entries, from each unmarked suffix down to the
/// unmarked suffix before it; the last one gets the bit.
pub fn partial_sorting_shift_markers_32s_4k(sa: &mut [SaSint], n: SaSint)
    requires
        n <= old(sa).len(),
    ensures
        shift_group_run((old(sa)@, true), 0, n as int) is Some,
        final(sa)@ == shift_group_run((old(sa)@, true), 0, n as int).unwrap().0,
{
    proof {
        lemma_shift_group_defined(sa@, 0, n as int);
    }
    let _ok: bool = try_partial_sorting_shift_markers_32s_4k(sa, n);
}

/// Moving the group bits is defined wherever the entries exist.
proof fn lemma_shift_group_defined(sa: Seq<i32>, lo: int, hi: int)
    requires
        0 <= lo,
        hi <= sa.len(),
    ensures
        shift_group_run((sa, true), lo, hi) is Some,
        shift_group_run((sa, true), lo, hi).unwrap().0.len() == sa.len(),
    decreases hi - lo,
{
    if lo < hi {
        lemma_shift_group_defined(sa, lo + 1, hi);
    }
}

/// The first two buckets of each symbol replaced by the bounds kept behind the buckets.
pub open spec fn shifted_buckets(k: int, b: Seq<i32>) -> Seq<i32> {
    Seq::new(b.len(), |i: int|
        if i < 4 * k && i % 4 < 2 {
            b[4 * k + 2 * (i / 4) + i % 4]
        } else {
            b[i]
        })
}

/// Replaces the first two buckets of each symbol by the bounds kept behind the buckets.
///
/// `false` where a slot is out of range.
pub(crate) fn try_partial_sorting_shift_buckets_32s_6k(k: SaSint, buckets: &mut [SaSint]) -> (ok: bool)
    ensures
        ok == (0 <= k && 6 * k <= old(buckets).len()),
        ok ==> final(buckets)@ == shifted_buckets(k as int, old(buckets)@),
        final(buckets).len() == old(buckets).len(),
{
    if k < 0 || 6 * (k as u64) > buckets.len() as u64 {
        return false;
    }
    let n: usize = k as usize;
    let mut i: usize = 0;
    while i < n
        invariant
            i <= n,
            6 * n <= buckets.len(),
            n == k,
            buckets.len() == old(buckets).len(),
            forall|x: int| 0 <= x < 4 * i ==> buckets@[x] == shifted_buckets(k as int, old(buckets)@)[x],
            forall|x: int| 4 * i <= x < buckets.len() ==> buckets@[x] == old(buckets)@[x],
        decreases n - i,
    {
        buckets[4 * i] = buckets[4 * n + 2 * i];
        buckets[4 * i + 1] = buckets[4 * n + 2 * i + 1];
        i += 1;
    }
    assert(buckets@ =~= shifted_buckets(k as int, old(buckets)@));
    true
}

/// Replaces the first two buckets of each symbol by the bounds kept behind the buckets.
pub fn partial_sorting_shift_buckets_32s_6k(k: SaSint, buckets: &mut [SaSint])
    requires
        0 <= k,
        6 * k <= old(buckets).len(),
    ensures
        final(buckets)@ == shifted_buckets(k as int, old(buckets)@),
{
    let _ok: bool = try_partial_sorting_shift_buckets_32s_6k(k, buckets);
}

/// Packs entry `i` where it is marked: its group bit becomes its sign mark.
pub open spec fn partial_sorting_gather_lms_suffixes_32s_4k_slot_step() -> spec_fn((Seq<i32>, usize), int) -> Option<(Seq<i32>, usize)> {
    |s: (Seq<i32>, usize), i: int|
        {
            let (sa, l) = s;
            if 0 <= i < sa.len() && l < sa.len() {
                Some((sa.update(l as int, if grouped(sa[i]) { ungrouped(sa[i]) } else { flipped(sa[i]) }), (l + bit(sa[i] < 0)) as usize))
            } else {
                None
            }
        }
}

/// [`partial_sorting_gather_lms_suffixes_32s_4k_slot_step`] over the positions from `lo` to `hi`, upward.
pub open spec fn partial_sorting_gather_lms_suffixes_32s_4k_slot_run(s: (Seq<i32>, usize), lo: int, hi: int) -> Option<(Seq<i32>, usize)> {
    fold_up(partial_sorting_gather_lms_suffixes_32s_4k_slot_step(), s, lo, hi)
}

/// Performs one step, or returns `false` where the step is outside its domain.
fn partial_sorting_gather_lms_suffixes_32s_4k_slot_at(
    sa: &mut [SaSint],
    l: &mut usize,
    i: FastSint,
) -> (ok: bool)
    ensures
        ok == (partial_sorting_gather_lms_suffixes_32s_4k_slot_step()((old(sa)@, *old(l)), i as int) is Some),
        ok ==> partial_sorting_gather_lms_suffixes_32s_4k_slot_step()((old(sa)@, *old(l)), i as int) == Some((final(sa)@, *final(l))),
        final(sa).len() == old(sa).len(),
{
    if !word_within(i, sa.len()) || *l >= sa.len() {
        return false;
    }
    let s: SaSint = sa[i as usize];
    sa[*l] = if has_group(s) { clear_group(s) } else { flip_mark(s) };
    if s < 0 {
        *l = *l + 1;
    }
    true
}

/// Runs the steps as far as they are defined; `false` where one is not.
pub(crate) fn try_partial_sorting_gather_lms_suffixes_32s_4k_slot(
    sa: &mut [SaSint],
    l: &mut usize,
    lo: FastSint,
    hi: FastSint,
) -> (ok: bool)
    ensures
        ok == (partial_sorting_gather_lms_suffixes_32s_4k_slot_run((old(sa)@, *old(l)), lo as int, hi as int) is Some),
        ok ==> partial_sorting_gather_lms_suffixes_32s_4k_slot_run((old(sa)@, *old(l)), lo as int, hi as int) == Some((final(sa)@, *final(l))),
        final(sa).len() == old(sa).len(),
{
    let mut i: FastSint = lo;
    let ghost step = partial_sorting_gather_lms_suffixes_32s_4k_slot_step();
    let ghost s0 = (sa@, *l);
    while i < hi
        invariant
            lo <= i,
            i <= hi || hi < lo,
            hi < lo ==> i == lo,
            step == partial_sorting_gather_lms_suffixes_32s_4k_slot_step(),
            s0 == (old(sa)@, *old(l)),
            fold_up(step, s0, lo as int, i as int) == Some((sa@, *l)),
            sa.len() == old(sa).len(),
        decreases hi - i,
    {
        proof {
            lemma_fold_up_prefix(step, s0, lo as int, i + 1, hi as int);
        }
        if !partial_sorting_gather_lms_suffixes_32s_4k_slot_at(sa, l, i) {
            return false;
        }
        i += 1;
    }
    true
}

/// Packing the marked entries of a block is defined wherever the block exists.
proof fn lemma_partial_sorting_gather_lms_suffixes_32s_4k(sa: Seq<i32>, start: int, hi: int)
    requires
        0 <= start <= hi <= sa.len() <= usize::MAX,
    ensures
        partial_sorting_gather_lms_suffixes_32s_4k_slot_run((sa, start as usize), start, hi) is Some,
        ({
            let x = partial_sorting_gather_lms_suffixes_32s_4k_slot_run((sa, start as usize), start, hi)->0;
            start <= x.1 <= hi && x.0.len() == sa.len()
        }),
    decreases hi - start,
{
    if start < hi {
        lemma_partial_sorting_gather_lms_suffixes_32s_4k(sa, start, hi - 1);
    }
}

/// Packs the marked entries of a block at its start, without their mark. Returns the slot
/// behind them.
pub fn partial_sorting_gather_lms_suffixes_32s_4k(sa: &mut [SaSint], omp_block_start: FastSint, omp_block_size: FastSint) -> (r: FastSint)
    requires
        omp_block_size > 0 ==> 0 <= omp_block_start && omp_block_start + omp_block_size <= old(sa).len() <= isize::MAX,
    ensures
        omp_block_size <= 0 ==> final(sa)@ == old(sa)@ && r == omp_block_start,
        omp_block_size > 0 ==> partial_sorting_gather_lms_suffixes_32s_4k_slot_run(
            (old(sa)@, omp_block_start as usize), omp_block_start as int, omp_block_start + omp_block_size)
            == Some((final(sa)@, r as usize)),
        omp_block_size > 0 ==> omp_block_start <= r <= omp_block_start + omp_block_size,
        final(sa).len() == old(sa).len(),
{
    if omp_block_size <= 0 {
        return omp_block_start;
    }
    let mut l: usize = omp_block_start as usize;
    proof {
        lemma_partial_sorting_gather_lms_suffixes_32s_4k(sa@, omp_block_start as int, omp_block_start + omp_block_size);
    }
    let _ok: bool = try_partial_sorting_gather_lms_suffixes_32s_4k_slot(sa, &mut l, omp_block_start, omp_block_start + omp_block_size);
    l as FastSint
}

/// Packs the marked entries of the first `n` at the start, without their mark.
pub fn partial_sorting_gather_lms_suffixes_32s_4k_omp(sa: &mut [SaSint], n: SaSint, _threads: SaSint, _thread_state: &mut [ThreadState])
    requires
        n <= old(sa).len() <= isize::MAX,
    ensures
        n <= 0 ==> final(sa)@ == old(sa)@,
        n > 0 ==> final(sa)@ == partial_sorting_gather_lms_suffixes_32s_4k_slot_run((old(sa)@, 0), 0, n as int).unwrap().0,
        final(sa).len() == old(sa).len(),
        final(_thread_state)@ == old(_thread_state)@,
{
    let _l: FastSint = partial_sorting_gather_lms_suffixes_32s_4k(sa, 0, n as FastSint);
}

/// Packs entry `i` where it is marked, without its mark.
pub open spec fn partial_sorting_gather_lms_suffixes_32s_1k_slot_step() -> spec_fn((Seq<i32>, usize), int) -> Option<(Seq<i32>, usize)> {
    |s: (Seq<i32>, usize), i: int|
        {
            let (sa, l) = s;
            if 0 <= i < sa.len() && l < sa.len() {
                Some((sa.update(l as int, unmarked(sa[i])), (l + bit(sa[i] < 0)) as usize))
            } else {
                None
            }
        }
}

/// [`partial_sorting_gather_lms_suffixes_32s_1k_slot_step`] over the positions from `lo` to `hi`, upward.
pub open spec fn partial_sorting_gather_lms_suffixes_32s_1k_slot_run(s: (Seq<i32>, usize), lo: int, hi: int) -> Option<(Seq<i32>, usize)> {
    fold_up(partial_sorting_gather_lms_suffixes_32s_1k_slot_step(), s, lo, hi)
}

/// Performs one step, or returns `false` where the step is outside its domain.
fn partial_sorting_gather_lms_suffixes_32s_1k_slot_at(
    sa: &mut [SaSint],
    l: &mut usize,
    i: FastSint,
) -> (ok: bool)
    ensures
        ok == (partial_sorting_gather_lms_suffixes_32s_1k_slot_step()((old(sa)@, *old(l)), i as int) is Some),
        ok ==> partial_sorting_gather_lms_suffixes_32s_1k_slot_step()((old(sa)@, *old(l)), i as int) == Some((final(sa)@, *final(l))),
        final(sa).len() == old(sa).len(),
{
    if !word_within(i, sa.len()) || *l >= sa.len() {
        return false;
    }
    let s: SaSint = sa[i as usize];
    sa[*l] = clear_mark(s);
    if s < 0 {
        *l = *l + 1;
    }
    true
}

/// Runs the steps as far as they are defined; `false` where one is not.
pub(crate) fn try_partial_sorting_gather_lms_suffixes_32s_1k_slot(
    sa: &mut [SaSint],
    l: &mut usize,
    lo: FastSint,
    hi: FastSint,
) -> (ok: bool)
    ensures
        ok == (partial_sorting_gather_lms_suffixes_32s_1k_slot_run((old(sa)@, *old(l)), lo as int, hi as int) is Some),
        ok ==> partial_sorting_gather_lms_suffixes_32s_1k_slot_run((old(sa)@, *old(l)), lo as int, hi as int) == Some((final(sa)@, *final(l))),
        final(sa).len() == old(sa).len(),
{
    let mut i: FastSint = lo;
    let ghost step = partial_sorting_gather_lms_suffixes_32s_1k_slot_step();
    let ghost s0 = (sa@, *l);
    while i < hi
        invariant
            lo <= i,
            i <= hi || hi < lo,
            hi < lo ==> i == lo,
            step == partial_sorting_gather_lms_suffixes_32s_1k_slot_step(),
            s0 == (old(sa)@, *old(l)),
            fold_up(step, s0, lo as int, i as int) == Some((sa@, *l)),
            sa.len() == old(sa).len(),
        decreases hi - i,
    {
        proof {
            lemma_fold_up_prefix(step, s0, lo as int, i + 1, hi as int);
        }
        if !partial_sorting_gather_lms_suffixes_32s_1k_slot_at(sa, l, i) {
            return false;
        }
        i += 1;
    }
    true
}

/// Packing the marked entries of a block is defined wherever the block exists.
proof fn lemma_partial_sorting_gather_lms_suffixes_32s_1k(sa: Seq<i32>, start: int, hi: int)
    requires
        0 <= start <= hi <= sa.len() <= usize::MAX,
    ensures
        partial_sorting_gather_lms_suffixes_32s_1k_slot_run((sa, start as usize), start, hi) is Some,
        ({
            let x = partial_sorting_gather_lms_suffixes_32s_1k_slot_run((sa, start as usize), start, hi)->0;
            start <= x.1 <= hi && x.0.len() == sa.len()
        }),
    decreases hi - start,
{
    if start < hi {
        lemma_partial_sorting_gather_lms_suffixes_32s_1k(sa, start, hi - 1);
    }
}

/// Packs the marked entries of a block at its start, without their mark. Returns the slot
/// behind them.
pub fn partial_sorting_gather_lms_suffixes_32s_1k(sa: &mut [SaSint], omp_block_start: FastSint, omp_block_size: FastSint) -> (r: FastSint)
    requires
        omp_block_size > 0 ==> 0 <= omp_block_start && omp_block_start + omp_block_size <= old(sa).len() <= isize::MAX,
    ensures
        omp_block_size <= 0 ==> final(sa)@ == old(sa)@ && r == omp_block_start,
        omp_block_size > 0 ==> partial_sorting_gather_lms_suffixes_32s_1k_slot_run(
            (old(sa)@, omp_block_start as usize), omp_block_start as int, omp_block_start + omp_block_size)
            == Some((final(sa)@, r as usize)),
        omp_block_size > 0 ==> omp_block_start <= r <= omp_block_start + omp_block_size,
        final(sa).len() == old(sa).len(),
{
    if omp_block_size <= 0 {
        return omp_block_start;
    }
    let mut l: usize = omp_block_start as usize;
    proof {
        lemma_partial_sorting_gather_lms_suffixes_32s_1k(sa@, omp_block_start as int, omp_block_start + omp_block_size);
    }
    let _ok: bool = try_partial_sorting_gather_lms_suffixes_32s_1k_slot(sa, &mut l, omp_block_start, omp_block_start + omp_block_size);
    l as FastSint
}

/// Packs the marked entries of the first `n` at the start, without their mark.
pub fn partial_sorting_gather_lms_suffixes_32s_1k_omp(sa: &mut [SaSint], n: SaSint, _threads: SaSint, _thread_state: &mut [ThreadState])
    requires
        n <= old(sa).len() <= isize::MAX,
    ensures
        n <= 0 ==> final(sa)@ == old(sa)@,
        n > 0 ==> final(sa)@ == partial_sorting_gather_lms_suffixes_32s_1k_slot_run((old(sa)@, 0), 0, n as int).unwrap().0,
        final(sa).len() == old(sa).len(),
        final(_thread_state)@ == old(_thread_state)@,
{
    let _l: FastSint = partial_sorting_gather_lms_suffixes_32s_1k(sa, 0, n as FastSint);
}

/// How many entries from `lo` up to `hi` are marked.
pub open spec fn count_negative_marked_in(sa: Seq<i32>, lo: int, hi: int) -> int
    decreases hi - lo,
{
    if hi <= lo {
        0
    } else {
        count_negative_marked_in(sa, lo, hi - 1) + bit(sa[hi - 1] < 0)
    }
}

/// Counts the entries of a block with a sign mark.
pub fn count_negative_marked_suffixes(sa: &[SaSint], block_start: FastSint, block_size: FastSint) -> (r: SaSint)
    requires
        0 <= block_start,
        0 <= block_size,
        block_start + block_size <= sa.len(),
        count_negative_marked_in(sa@, block_start as int, block_start + block_size) <= i32::MAX,
    ensures
        r == count_negative_marked_in(sa@, block_start as int, block_start + block_size),
{
    let end: usize = block_start as usize + block_size as usize;
    let mut i: usize = block_start as usize;
    let mut r: SaSint = 0;
    while i < end
        invariant
            block_start <= i <= end <= sa.len(),
            end == block_start + block_size,
            r == count_negative_marked_in(sa@, block_start as int, i as int),
            0 <= r <= i32::MAX,
            count_negative_marked_in(sa@, block_start as int, end as int) <= i32::MAX,
        decreases end - i,
    {
        proof {
            lemma_count_negative_marked_grows(sa@, block_start as int, i + 1, end as int);
        }
        if sa[i] < 0 {
            r += 1;
        }
        i += 1;
    }
    r
}

/// A longer range holds no fewer such entries.
proof fn lemma_count_negative_marked_grows(sa: Seq<i32>, lo: int, mid: int, hi: int)
    requires
        mid <= hi,
    ensures
        count_negative_marked_in(sa, lo, mid) <= count_negative_marked_in(sa, lo, hi),
    decreases hi - mid,
{
    if mid < hi {
        lemma_count_negative_marked_grows(sa, lo, mid, hi - 1);
    }
}

/// How many entries from `lo` up to `hi` are zero.
pub open spec fn count_zero_marked_in(sa: Seq<i32>, lo: int, hi: int) -> int
    decreases hi - lo,
{
    if hi <= lo {
        0
    } else {
        count_zero_marked_in(sa, lo, hi - 1) + bit(sa[hi - 1] == 0)
    }
}

/// Counts the zero entries of a block.
pub fn count_zero_marked_suffixes(sa: &[SaSint], block_start: FastSint, block_size: FastSint) -> (r: SaSint)
    requires
        0 <= block_start,
        0 <= block_size,
        block_start + block_size <= sa.len(),
        count_zero_marked_in(sa@, block_start as int, block_start + block_size) <= i32::MAX,
    ensures
        r == count_zero_marked_in(sa@, block_start as int, block_start + block_size),
{
    let end: usize = block_start as usize + block_size as usize;
    let mut i: usize = block_start as usize;
    let mut r: SaSint = 0;
    while i < end
        invariant
            block_start <= i <= end <= sa.len(),
            end == block_start + block_size,
            r == count_zero_marked_in(sa@, block_start as int, i as int),
            0 <= r <= i32::MAX,
            count_zero_marked_in(sa@, block_start as int, end as int) <= i32::MAX,
        decreases end - i,
    {
        proof {
            lemma_count_zero_marked_grows(sa@, block_start as int, i + 1, end as int);
        }
        if sa[i] == 0 {
            r += 1;
        }
        i += 1;
    }
    r
}

/// A longer range holds no fewer such entries.
proof fn lemma_count_zero_marked_grows(sa: Seq<i32>, lo: int, mid: int, hi: int)
    requires
        mid <= hi,
    ensures
        count_zero_marked_in(sa, lo, mid) <= count_zero_marked_in(sa, lo, hi),
    decreases hi - mid,
{
    if mid < hi {
        lemma_count_zero_marked_grows(sa, lo, mid, hi - 1);
    }
}

/// Writes the index of cache entry `i` to the slot that its symbol names.
pub open spec fn place_cached_step(cache: Seq<ThreadCache>) -> spec_fn(Seq<i32>, int) -> Option<Seq<i32>> {
    |s: Seq<i32>, i: int|
        {
            let sa = s;
            if 0 <= i < cache.len() && 0 <= cache[i].symbol < sa.len() {
                Some(sa.update(cache[i].symbol as int, cache[i].index))
            } else {
                None
            }
        }
}

/// [`place_cached_step`] over the positions from `lo` to `hi`, upward.
pub open spec fn place_cached_run(cache: Seq<ThreadCache>, s: Seq<i32>, lo: int, hi: int) -> Option<Seq<i32>> {
    fold_up(place_cached_step(cache), s, lo, hi)
}

/// Performs one step, or returns `false` where the step is outside its domain.
fn place_cached_at(
    cache: &[ThreadCache],
    sa: &mut [SaSint],
    i: FastSint,
) -> (ok: bool)
    ensures
        ok == (place_cached_step(cache@)(old(sa)@, i as int) is Some),
        ok ==> place_cached_step(cache@)(old(sa)@, i as int) == Some(final(sa)@),
        final(sa).len() == old(sa).len(),
{
    if !word_within(i, cache.len()) || !within(cache[i as usize].symbol, sa.len()) {
        return false;
    }
    let slot: usize = cache[i as usize].symbol as usize;
    sa[slot] = cache[i as usize].index;
    true
}

/// Runs the steps as far as they are defined; `false` where one is not.
pub(crate) fn try_place_cached(
    cache: &[ThreadCache],
    sa: &mut [SaSint],
    lo: FastSint,
    hi: FastSint,
) -> (ok: bool)
    ensures
        ok == (place_cached_run(cache@, old(sa)@, lo as int, hi as int) is Some),
        ok ==> place_cached_run(cache@, old(sa)@, lo as int, hi as int) == Some(final(sa)@),
        final(sa).len() == old(sa).len(),
{
    let mut i: FastSint = lo;
    let ghost step = place_cached_step(cache@);
    let ghost s0 = sa@;
    while i < hi
        invariant
            lo <= i,
            i <= hi || hi < lo,
            hi < lo ==> i == lo,
            step == place_cached_step(cache@),
            s0 == old(sa)@,
            fold_up(step, s0, lo as int, i as int) == Some(sa@),
            sa.len() == old(sa).len(),
        decreases hi - i,
    {
        proof {
            lemma_fold_up_prefix(step, s0, lo as int, i + 1, hi as int);
        }
        if !place_cached_at(cache, sa, i) {
            return false;
        }
        i += 1;
    }
    true
}

/// Writes the index of each cache entry of a block to the slot that its symbol names.
pub fn place_cached_suffixes(
    sa: &mut [SaSint],
    cache: &[ThreadCache],
    block_start: FastSint,
    block_size: FastSint,
)
    requires
        0 <= block_start,
        0 <= block_size,
        block_start + block_size <= cache.len() <= isize::MAX,
        place_cached_run(cache@, old(sa)@, block_start as int, block_start + block_size) is Some,
    ensures
        place_cached_run(cache@, old(sa)@, block_start as int, block_start + block_size) == Some(final(sa)@),
        final(sa).len() == old(sa).len(),
{
    let _ok: bool = try_place_cached(cache, sa, block_start, block_start + block_size);
}

/// Packs cache entry `i` where its symbol is not negative.
pub open spec fn compact_cached_step() -> spec_fn((Seq<ThreadCache>, usize), int) -> Option<(Seq<ThreadCache>, usize)> {
    |s: (Seq<ThreadCache>, usize), i: int|
        {
            let (cache, write) = s;
            if !(0 <= i < cache.len() && write < cache.len()) {
                None
            } else if cache[i].symbol >= 0 {
                Some((cache.update(write as int, cache[i]), (write + 1) as usize))
            } else {
                Some((cache, write))
            }
        }
}

/// [`compact_cached_step`] over the positions from `lo` to `hi`, upward.
pub open spec fn compact_cached_run(s: (Seq<ThreadCache>, usize), lo: int, hi: int) -> Option<(Seq<ThreadCache>, usize)> {
    fold_up(compact_cached_step(), s, lo, hi)
}

/// Performs one step, or returns `false` where the step is outside its domain.
fn compact_cached_at(
    cache: &mut [ThreadCache],
    write: &mut usize,
    i: FastSint,
) -> (ok: bool)
    ensures
        ok == (compact_cached_step()((old(cache)@, *old(write)), i as int) is Some),
        ok ==> compact_cached_step()((old(cache)@, *old(write)), i as int) == Some((final(cache)@, *final(write))),
        final(cache).len() == old(cache).len(),
{
    if !word_within(i, cache.len()) || *write >= cache.len() {
        return false;
    }
    let entry: ThreadCache = cache[i as usize];
    if entry.symbol >= 0 {
        cache[*write] = entry;
        *write = *write + 1;
    }
    true
}

/// Runs the steps as far as they are defined; `false` where one is not.
pub(crate) fn try_compact_cached(
    cache: &mut [ThreadCache],
    write: &mut usize,
    lo: FastSint,
    hi: FastSint,
) -> (ok: bool)
    ensures
        ok == (compact_cached_run((old(cache)@, *old(write)), lo as int, hi as int) is Some),
        ok ==> compact_cached_run((old(cache)@, *old(write)), lo as int, hi as int) == Some((final(cache)@, *final(write))),
        final(cache).len() == old(cache).len(),
{
    let mut i: FastSint = lo;
    let ghost step = compact_cached_step();
    let ghost s0 = (cache@, *write);
    while i < hi
        invariant
            lo <= i,
            i <= hi || hi < lo,
            hi < lo ==> i == lo,
            step == compact_cached_step(),
            s0 == (old(cache)@, *old(write)),
            fold_up(step, s0, lo as int, i as int) == Some((cache@, *write)),
            cache.len() == old(cache).len(),
        decreases hi - i,
    {
        proof {
            lemma_fold_up_prefix(step, s0, lo as int, i + 1, hi as int);
        }
        if !compact_cached_at(cache, write, i) {
            return false;
        }
        i += 1;
    }
    true
}

/// Packing a block of the cache is defined wherever the block exists.
pub proof fn lemma_compact_cached(cache: Seq<ThreadCache>, start: int, hi: int)
    requires
        0 <= start <= hi <= cache.len() <= usize::MAX,
    ensures
        compact_cached_run((cache, start as usize), start, hi) is Some,
        ({
            let x = compact_cached_run((cache, start as usize), start, hi)->0;
            start <= x.1 <= hi && x.0.len() == cache.len()
        }),
    decreases hi - start,
{
    if start < hi {
        lemma_compact_cached(cache, start, hi - 1);
    }
}

/// The array and the cache after the entries of a block with a slot were packed and written.
pub open spec fn compact_and_place_run(
    sa: Seq<i32>,
    cache: Seq<ThreadCache>,
    start: int,
    size: int,
) -> Option<(Seq<i32>, Seq<ThreadCache>)> {
    if !(0 <= start && 0 <= size && start + size <= cache.len()) {
        None
    } else {
        let x = compact_cached_run((cache, start as usize), start, start + size)->0;
        match place_cached_run(x.0, sa, start, x.1 as int) {
            Some(y) => Some((y, x.0)),
            None => None,
        }
    }
}

/// Packs the entries of a block whose symbol is not negative, and writes the index of each
/// to the slot that its symbol names.
pub fn compact_and_place_cached_suffixes(
    sa: &mut [SaSint],
    cache: &mut [ThreadCache],
    block_start: FastSint,
    block_size: FastSint,
)
    requires
        old(cache).len() <= isize::MAX,
        compact_and_place_run(old(sa)@, old(cache)@, block_start as int, block_size as int) is Some,
    ensures
        compact_and_place_run(old(sa)@, old(cache)@, block_start as int, block_size as int)
            == Some((final(sa)@, final(cache)@)),
{
    let mut write: usize = block_start as usize;
    proof {
        lemma_compact_cached(cache@, block_start as int, block_start + block_size);
    }
    let _packed: bool = try_compact_cached(cache, &mut write, block_start, block_start + block_size);
    let _placed: bool = try_place_cached(cache, sa, block_start, write as FastSint);
}

} // verus!
