//! Unique names set aside before the recursion and merged back after it.

use vstd::prelude::*;
use crate::blocks::{block_hi, block_lo, block_range, law_blocks_join};
use crate::fold::{fold_down, fold_up, lemma_fold_down_prefix, lemma_fold_up_prefix};
use crate::gather::{
    clear_range, cleared, count_and_gather_lms_suffixes_32s_2k_mode, count_and_gather_lms_suffixes_32s_2k_run, gather_compacted_lms_suffixes_32s_run,
    gather_lms_suffixes_32s_run, lemma_lms_slot, run_type, text32, try_count_and_gather_lms_suffixes_32s_2k,
    try_gather_compacted_lms_suffixes_32s, try_gather_lms_suffixes_32s, zeros,
};
use crate::gather_omp::{compacted_2k_omp_run, try_compacted_2k_omp};
use crate::marks::{bit, clear_mark, fits, fits_difference, fits_sum, set_mark, marked, unmarked, within, word_within};
use crate::radix::{
    count_negative_marked_in, count_negative_marked_suffixes, count_zero_marked_in, count_zero_marked_suffixes,
};
use crate::renumber::{half, half_of, reconstruct_lms_suffixes_run, try_reconstruct_lms_suffixes};
use crate::span::{movable, move_within, moved};
use crate::tallies::{
    lemma_negative_bound, lemma_zero_bound, negatives, tallied, tally_negatives, tally_zeros, zeros_of,
};
use crate::types::{FastSint, SaSint, ThreadState, SAINT_MAX};

verus! {

/// The bit pattern of `x`, read without a sign.
pub open spec fn unsigned(x: i32) -> int {
    if x >= 0 {
        x as int
    } else {
        x + 0x1_0000_0000
    }
}

/// Computes [`unsigned`].
fn unsigned_of(x: SaSint) -> (r: u64)
    ensures
        r == unsigned(x),
{
    if x >= 0 {
        x as u64
    } else {
        (x as i64 + 0x1_0000_0000) as u64
    }
}

/// Where the name of the sorted suffix at slot `i` stands alone, marks its symbol in the text
/// and notes its rank; every other name is lowered by the number of such suffixes so far.
pub open spec fn split_name_step(m: int) -> spec_fn((Seq<i32>, Seq<i32>, i32), int) -> Option<(Seq<i32>, Seq<i32>, i32)> {
    |s: (Seq<i32>, Seq<i32>, i32), i: int|
        {
            let (t, sa, f) = s;
            let p = unsigned(sa[i]);
            let x = m + half(sa[i]);
            let s = sa[x];
            if !(0 <= i < m <= sa.len() && i <= i32::MAX && x < sa.len()) {
                None
            } else if s < 0 {
                if p < t.len() && f < i32::MAX && fits(i - 0x8000_0000 + (f + 1)) && fits(i - 0x8000_0000) {
                    Some((
                        t.update(p, marked(t[p], true)),
                        sa.update(x, (i - 0x8000_0000) as i32),
                        (f + 1) as i32,
                    ))
                } else {
                    None
                }
            } else if fits(s - f) {
                Some((t, sa.update(x, (s - f) as i32), f))
            } else {
                None
            }
        }
}

/// [`split_name_step`] over the positions from `lo` to `hi`, upward.
pub open spec fn split_name_run(m: int, s: (Seq<i32>, Seq<i32>, i32), lo: int, hi: int) -> Option<(Seq<i32>, Seq<i32>, i32)> {
    fold_up(split_name_step(m), s, lo, hi)
}

/// Performs one step, or returns `false` where the step is outside its domain.
fn split_name_at(
    m: usize,
    t: &mut [SaSint],
    sa: &mut [SaSint],
    f: &mut SaSint,
    i: FastSint,
) -> (ok: bool)
    ensures
        ok == (split_name_step(m as int)((old(t)@, old(sa)@, *old(f)), i as int) is Some),
        ok ==> split_name_step(m as int)((old(t)@, old(sa)@, *old(f)), i as int) == Some((final(t)@, final(sa)@, *final(f))),
        final(t).len() == old(t).len(),
        final(sa).len() == old(sa).len(),
{
    if m > sa.len() || !word_within(i, m) || i as u64 > 0x7fff_ffff {
        return false;
    }
    let rank: SaSint = i as SaSint;
    let p: u64 = unsigned_of(sa[i as usize]);
    let h: u64 = half_of(sa[i as usize]);
    if m as u128 + h as u128 >= sa.len() as u128 {
        return false;
    }
    let x: usize = m + h as usize;
    let s: SaSint = sa[x];
    if s < 0 {
        if p >= t.len() as u64 || *f == SAINT_MAX {
            return false;
        }
        match fits_sum(rank + SaSint::MIN, *f + 1) {
            Some(_) => {},
            None => return false,
        }
        t[p as usize] = set_mark(t[p as usize], true);
        *f = *f + 1;
        sa[x] = rank + SaSint::MIN;
    } else {
        match fits_difference(s, *f) {
            Some(v) => {
                sa[x] = v;
            },
            None => return false,
        }
    }
    true
}

/// Runs the steps as far as they are defined; `false` where one is not.
pub(crate) fn try_split_name(
    m: usize,
    t: &mut [SaSint],
    sa: &mut [SaSint],
    f: &mut SaSint,
    lo: FastSint,
    hi: FastSint,
) -> (ok: bool)
    ensures
        ok == (split_name_run(m as int, (old(t)@, old(sa)@, *old(f)), lo as int, hi as int) is Some),
        ok ==> split_name_run(m as int, (old(t)@, old(sa)@, *old(f)), lo as int, hi as int) == Some((final(t)@, final(sa)@, *final(f))),
        final(t).len() == old(t).len(),
        final(sa).len() == old(sa).len(),
{
    let mut i: FastSint = lo;
    let ghost step = split_name_step(m as int);
    let ghost s0 = (t@, sa@, *f);
    while i < hi
        invariant
            lo <= i,
            i <= hi || hi < lo,
            hi < lo ==> i == lo,
            step == split_name_step(m as int),
            s0 == (old(t)@, old(sa)@, *old(f)),
            fold_up(step, s0, lo as int, i as int) == Some((t@, sa@, *f)),
            t.len() == old(t).len(),
            sa.len() == old(sa).len(),
        decreases hi - i,
    {
        proof {
            lemma_fold_up_prefix(step, s0, lo as int, i + 1, hi as int);
        }
        if !split_name_at(m, t, sa, f, i) {
            return false;
        }
        i += 1;
    }
    true
}

/// What [`renumber_unique_and_nonunique_lms_suffixes_32s`] leaves: the text, the array and
/// the number of names that stand alone.
pub open spec fn split_names_run(
    t: Seq<i32>,
    sa: Seq<i32>,
    m: int,
    f: i32,
    start: int,
    size: int,
) -> Option<(Seq<i32>, Seq<i32>, i32)> {
    if size <= 0 {
        Some((t, sa, f))
    } else if m < 0 {
        None
    } else {
        split_name_run(m, (t, sa, f), start, start + size)
    }
}

/// Sets the names that stand alone apart, for the sorted suffixes of a block.
///
/// `None` where a slot is out of range.
pub(crate) fn try_renumber_unique_and_nonunique_lms_suffixes_32s(
    t: &mut [SaSint],
    sa: &mut [SaSint],
    m: SaSint,
    f: SaSint,
    omp_block_start: FastSint,
    omp_block_size: FastSint,
) -> (r: Option<SaSint>)
    requires
        isize::MIN <= omp_block_start + omp_block_size <= isize::MAX,
    ensures
        r is Some == (split_names_run(
            old(t)@, old(sa)@, m as int, f, omp_block_start as int, omp_block_size as int) is Some),
        r is Some ==> split_names_run(
            old(t)@, old(sa)@, m as int, f, omp_block_start as int, omp_block_size as int)
            == Some((final(t)@, final(sa)@, r->0)),
        final(t).len() == old(t).len(),
        final(sa).len() == old(sa).len(),
{
    if omp_block_size <= 0 {
        return Some(f);
    }
    if m < 0 {
        return None;
    }
    let mut count: SaSint = f;
    if try_split_name(m as usize, t, sa, &mut count, omp_block_start, omp_block_start + omp_block_size) {
        Some(count)
    } else {
        None
    }
}

/// Sets the names that stand alone apart, for the sorted suffixes of a block: their symbols
/// are marked in the text and their ranks noted; the other names close ranks. Returns the
/// number of names set apart, `f` before the block.
pub fn renumber_unique_and_nonunique_lms_suffixes_32s(
    t: &mut [SaSint],
    sa: &mut [SaSint],
    m: SaSint,
    f: SaSint,
    omp_block_start: FastSint,
    omp_block_size: FastSint,
) -> (r: SaSint)
    requires
        isize::MIN <= omp_block_start + omp_block_size <= isize::MAX,
        split_names_run(old(t)@, old(sa)@, m as int, f, omp_block_start as int, omp_block_size as int) is Some,
    ensures
        split_names_run(old(t)@, old(sa)@, m as int, f, omp_block_start as int, omp_block_size as int)
            == Some((final(t)@, final(sa)@, r)),
        final(t).len() == old(t).len(),
        final(sa).len() == old(sa).len(),
{
    match try_renumber_unique_and_nonunique_lms_suffixes_32s(t, sa, m, f, omp_block_start, omp_block_size) {
        Some(r) => r,
        None => 0,
    }
}

/// Puts source entry `i` in front of slot `l` where it is marked, and in front of slot `r`,
/// lowered by one, where it is positive.
pub open spec fn compact_name_step(source: Seq<i32>) -> spec_fn((Seq<i32>, usize, usize), int) -> Option<(Seq<i32>, usize, usize)> {
    |s: (Seq<i32>, usize, usize), i: int|
        {
            let (sa, l, r) = s;
            let p = source[i];
            let lowered = if p == i32::MIN {
                i32::MAX
            } else {
                (p - 1) as i32
            };
            if 0 <= i < source.len() && l < sa.len() && r < sa.len() {
                Some((
                    sa.update(l as int, unmarked(p)).update(r as int, lowered),
                    if p < 0 && l > 0 {
                        (l - 1) as usize
                    } else {
                        l
                    },
                    if p > 0 && r > 0 {
                        (r - 1) as usize
                    } else {
                        r
                    },
                ))
            } else {
                None
            }
        }
}

/// [`compact_name_step`] over the positions from `lo` to `hi`, downward.
pub open spec fn compact_name_run(source: Seq<i32>, s: (Seq<i32>, usize, usize), lo: int, hi: int) -> Option<(Seq<i32>, usize, usize)> {
    fold_down(compact_name_step(source), s, lo, hi)
}

/// Performs one step, or returns `false` where the step is outside its domain.
fn compact_name_at(
    source: &[SaSint],
    sa: &mut [SaSint],
    l: &mut usize,
    r: &mut usize,
    i: FastSint,
) -> (ok: bool)
    ensures
        ok == (compact_name_step(source@)((old(sa)@, *old(l), *old(r)), i as int) is Some),
        ok ==> compact_name_step(source@)((old(sa)@, *old(l), *old(r)), i as int) == Some((final(sa)@, *final(l), *final(r))),
        final(sa).len() == old(sa).len(),
{
    if !word_within(i, source.len()) || *l >= sa.len() || *r >= sa.len() {
        return false;
    }
    let p: SaSint = source[i as usize];
    sa[*l] = clear_mark(p);
    if p < 0 && *l > 0 {
        *l = *l - 1;
    }
    sa[*r] = if p == SaSint::MIN { SAINT_MAX } else { p - 1 };
    if p > 0 && *r > 0 {
        *r = *r - 1;
    }
    true
}

/// Runs the steps as far as they are defined; `false` where one is not.
pub(crate) fn try_compact_name(
    source: &[SaSint],
    sa: &mut [SaSint],
    l: &mut usize,
    r: &mut usize,
    lo: FastSint,
    hi: FastSint,
) -> (ok: bool)
    ensures
        ok == (compact_name_run(source@, (old(sa)@, *old(l), *old(r)), lo as int, hi as int) is Some),
        ok ==> compact_name_run(source@, (old(sa)@, *old(l), *old(r)), lo as int, hi as int) == Some((final(sa)@, *final(l), *final(r))),
        final(sa).len() == old(sa).len(),
{
    if hi <= lo {
        return true;
    }
    let mut i: FastSint = hi;
    let ghost step = compact_name_step(source@);
    let ghost s0 = (sa@, *l, *r);
    while i > lo
        invariant
            lo <= i <= hi,
            step == compact_name_step(source@),
            s0 == (old(sa)@, *old(l), *old(r)),
            fold_down(step, s0, i as int, hi as int) == Some((sa@, *l, *r)),
            sa.len() == old(sa).len(),
        decreases i - lo,
    {
        proof {
            lemma_fold_down_prefix(step, s0, lo as int, i - 1, hi as int);
        }
        i -= 1;
        if !compact_name_at(source, sa, l, r, i) {
            return false;
        }
    }
    true
}

/// What [`compact_unique_and_nonunique_lms_suffixes_32s`] leaves: the array and the first
/// slots of the two runs.
pub open spec fn compact_names_run(
    sa: Seq<i32>,
    m: int,
    l: int,
    r: int,
    start: int,
    size: int,
) -> Option<(Seq<i32>, int, int)> {
    if size <= 0 {
        Some((sa, l, r))
    } else if !(0 <= m && 0 <= start && m + start + size <= sa.len() && 1 <= l && 1 <= r) {
        None
    } else {
        match compact_name_run(
            sa.subrange(m + start, m + start + size), (sa, (l - 1) as usize, (r - 1) as usize), 0, size) {
            Some(x) => Some((x.0, x.1 + 1, x.2 + 1)),
            None => None,
        }
    }
}

/// Separates the names of a block into those set apart and the others.
///
/// `false` where a slot is out of range.
pub(crate) fn try_compact_unique_and_nonunique_lms_suffixes_32s(
    sa: &mut [SaSint],
    m: SaSint,
    pl: &mut FastSint,
    pr: &mut FastSint,
    omp_block_start: FastSint,
    omp_block_size: FastSint,
) -> (ok: bool)
    requires
        old(sa).len() <= isize::MAX,
    ensures
        ok == (compact_names_run(old(sa)@, m as int, *old(pl) as int, *old(pr) as int,
            omp_block_start as int, omp_block_size as int) is Some),
        ok ==> compact_names_run(old(sa)@, m as int, *old(pl) as int, *old(pr) as int,
            omp_block_start as int, omp_block_size as int)
            == Some((final(sa)@, *final(pl) as int, *final(pr) as int)),
        final(sa).len() == old(sa).len(),
{
    if omp_block_size <= 0 {
        return true;
    }
    if m < 0 || omp_block_start < 0 || *pl < 1 || *pr < 1
        || m as u128 + omp_block_start as u128 + omp_block_size as u128 > sa.len() as u128 {
        return false;
    }
    let lo: usize = m as usize + omp_block_start as usize;
    let size: usize = omp_block_size as usize;
    let mut source: Vec<SaSint> = Vec::with_capacity(size);
    let mut i: usize = 0;
    while i < size
        invariant
            i <= size,
            lo + size <= sa.len(),
            source@ =~= sa@.subrange(lo as int, lo + i),
        decreases size - i,
    {
        source.push(sa[lo + i]);
        i += 1;
    }
    assert(source@ == old(sa)@.subrange(m + omp_block_start, m + omp_block_start + omp_block_size));
    let mut l: usize = (*pl - 1) as usize;
    let mut r: usize = (*pr - 1) as usize;
    let ghost s0 = (sa@, l, r);
    if !try_compact_name(source.as_slice(), sa, &mut l, &mut r, 0, omp_block_size) {
        return false;
    }
    proof {
        lemma_compact_name_slots(source@, s0, 0, omp_block_size as int);
    }
    *pl = l as FastSint + 1;
    *pr = r as FastSint + 1;
    true
}

/// The slots of a separation only move down.
proof fn lemma_compact_name_slots(source: Seq<i32>, s: (Seq<i32>, usize, usize), lo: int, hi: int)
    ensures
        compact_name_run(source, s, lo, hi) matches Some(x) ==> x.1 <= s.1 && x.2 <= s.2,
    decreases hi - lo,
{
    if lo < hi {
        lemma_compact_name_slots(source, s, lo + 1, hi);
    }
}

/// Separates the names of a block: those set apart go in front of slot `pl`, without their
/// mark, the others in front of slot `pr`, lowered by one. Both slots move to the first
/// entry written.
pub fn compact_unique_and_nonunique_lms_suffixes_32s(
    sa: &mut [SaSint],
    m: SaSint,
    pl: &mut FastSint,
    pr: &mut FastSint,
    omp_block_start: FastSint,
    omp_block_size: FastSint,
)
    requires
        old(sa).len() <= isize::MAX,
        compact_names_run(old(sa)@, m as int, *old(pl) as int, *old(pr) as int,
            omp_block_start as int, omp_block_size as int) is Some,
    ensures
        compact_names_run(old(sa)@, m as int, *old(pl) as int, *old(pr) as int,
            omp_block_start as int, omp_block_size as int)
            == Some((final(sa)@, *final(pl) as int, *final(pr) as int)),
{
    let _ok: bool = try_compact_unique_and_nonunique_lms_suffixes_32s(sa, m, pl, pr, omp_block_start, omp_block_size);
}

/// How many of the sorted suffixes from `lo` up to `hi` have a marked name; `None` where a
/// slot is out of range.
pub open spec fn unique_in(sa: Seq<i32>, m: int, lo: int, hi: int) -> Option<int>
    decreases hi - lo,
{
    if hi <= lo {
        Some(0)
    } else {
        match unique_in(sa, m, lo, hi - 1) {
            Some(x) => if 0 <= hi - 1 < sa.len() && m + half(sa[hi - 1]) < sa.len() {
                Some(x + bit(sa[m + half(sa[hi - 1])] < 0))
            } else {
                None
            },
            None => None,
        }
    }
}

/// The count is defined and no larger on a shorter range.
proof fn lemma_unique_in(sa: Seq<i32>, m: int, lo: int, mid: int, hi: int)
    requires
        lo <= mid <= hi,
        unique_in(sa, m, lo, hi) is Some,
    ensures
        unique_in(sa, m, lo, mid) is Some,
        0 <= unique_in(sa, m, lo, mid)->0 <= unique_in(sa, m, lo, hi)->0 <= hi - lo,
    decreases hi - lo,
{
    if lo < hi {
        if mid < hi {
            lemma_unique_in(sa, m, lo, mid, hi - 1);
        } else {
            lemma_unique_in(sa, m, lo, hi - 1, hi - 1);
        }
    }
}

/// Counts the sorted suffixes of a block with a marked name.
pub fn count_unique_suffixes(sa: &[SaSint], m: SaSint, omp_block_start: FastSint, omp_block_size: FastSint) -> (r: SaSint)
    requires
        omp_block_size > 0 ==> 0 <= m && 0 <= omp_block_start && omp_block_start + omp_block_size <= sa.len(),
        omp_block_size > 0 ==> {
            let x = unique_in(sa@, m as int, omp_block_start as int, omp_block_start + omp_block_size);
            x is Some && x->0 <= i32::MAX
        },
    ensures
        omp_block_size <= 0 ==> r == 0,
        omp_block_size > 0 ==> unique_in(sa@, m as int, omp_block_start as int, omp_block_start + omp_block_size)
            == Some(r as int),
{
    if omp_block_size <= 0 {
        return 0;
    }
    let lo: usize = omp_block_start as usize;
    let end: usize = lo + omp_block_size as usize;
    let k: usize = m as usize;
    let mut i: usize = lo;
    let mut r: SaSint = 0;
    while i < end
        invariant
            lo <= i <= end <= sa.len(),
            k == m,
            0 <= r,
            unique_in(sa@, k as int, lo as int, i as int) == Some(r as int),
            unique_in(sa@, k as int, lo as int, end as int) is Some,
            unique_in(sa@, k as int, lo as int, end as int)->0 <= i32::MAX,
        decreases end - i,
    {
        proof {
            lemma_unique_in(sa@, k as int, lo as int, i + 1, end as int);
        }
        let x: usize = k + half_of(sa[i]) as usize;
        if sa[x] < 0 {
            r += 1;
        }
        i += 1;
    }
    r
}

/// How many workers share `n` positions: one unless several are asked for and the work is
/// `large`, and no more than there are positions.
pub open spec fn sharers(threads: int, large: bool, n: int) -> int {
    if threads == 1 || !large {
        1
    } else if threads < 1 || n < 1 {
        1
    } else if threads < n {
        threads
    } else {
        n
    }
}

/// Computes [`sharers`].
fn sharer_count(threads: SaSint, large: bool, n: SaSint) -> (r: usize)
    ensures
        r == sharers(threads as int, large, n as int),
        1 <= r <= i32::MAX,
{
    if threads == 1 || !large {
        1
    } else if threads < 1 || n < 1 {
        1
    } else if threads < n {
        threads as usize
    } else {
        n as usize
    }
}

/// What [`renumber_unique_and_nonunique_lms_suffixes_32s_omp`] leaves.
pub open spec fn split_names_omp(t: Seq<i32>, sa: Seq<i32>, m: int) -> Option<(Seq<i32>, Seq<i32>, i32)> {
    split_names_run(t, sa, m, 0, 0, m)
}

/// Whether workers share `n` positions, and there is no working storage for all of them.
pub open spec fn storage_lacks(threads: int, large: bool, n: int, available: int) -> bool {
    threads != 1 && large && (threads < 0 || available < sharers(threads, large, n))
}

/// How many of the `m` sorted suffixes in the block of a worker of `k` have a marked name.
pub open spec fn uniques(sa: Seq<i32>, m: int, k: int) -> spec_fn(int) -> int {
    |w: int| unique_in(sa, m, block_lo(m, k, w), block_hi(m, k, w)).unwrap()
}

/// Sets the names that stand alone apart, for the sorted suffixes of the block of worker `w` of
/// `k`. The state also holds how many stood alone in the blocks before, in the array `first`.
pub open spec fn split_part_step(first: Seq<i32>, m: int, k: int) -> spec_fn((Seq<i32>, Seq<i32>, isize), int) -> Option<(Seq<i32>, Seq<i32>, isize)> {
    |s: (Seq<i32>, Seq<i32>, isize), w: int|
        {
            let lo = block_lo(m, k, w);
            let hi = block_hi(m, k, w);
            match unique_in(first, m, lo, hi) {
                Some(c) => if 0 <= s.2 <= i32::MAX && s.2 + c <= i32::MAX {
                    match split_names_run(s.0, s.1, m, s.2 as i32, lo, hi - lo) {
                        Some(x) => Some((x.0, x.1, (s.2 + c) as isize)),
                        None => None,
                    }
                } else {
                    None
                },
                None => None,
            }
        }
}

/// What [`renumber_unique_and_nonunique_lms_suffixes_32s_omp`] leaves of the text and the array
/// for `threads` workers, and how many names it sets apart.
pub open spec fn split_names_shared(t: Seq<i32>, sa: Seq<i32>, m: int, threads: int) -> Option<(Seq<i32>, Seq<i32>, i32)> {
    if threads == 1 || m < 65536 {
        split_names_omp(t, sa, m)
    } else {
        let k = sharers(threads, true, m);
        match fold_up(split_part_step(sa, m, k), (t, sa, 0isize), 0, k) {
            Some(x) => Some((x.0, x.1, x.2 as i32)),
            None => None,
        }
    }
}

/// What it leaves of the working storage `ts`: the workers note how many names stand alone in
/// their blocks.
pub open spec fn split_storage(ts: Seq<ThreadState>, sa: Seq<i32>, m: int, threads: int) -> Seq<ThreadState> {
    if threads == 1 || m < 65536 {
        ts
    } else {
        let k = sharers(threads, true, m);
        tallied(ts, k, uniques(sa, m, k))
    }
}

/// Notes for each of `k` workers how many names stand alone in its block.
fn tally_uniques(sa: &[SaSint], m: SaSint, k: usize, thread_state: &mut [ThreadState])
    requires
        0 <= m <= sa.len(),
        1 <= k <= old(thread_state).len(),
        forall|w: int| 0 <= w < k ==> unique_in(sa@, m as int, #[trigger] block_lo(m as int, k as int, w), block_hi(m as int, k as int, w)) is Some,
    ensures
        final(thread_state)@ == tallied(old(thread_state)@, k as int, uniques(sa@, m as int, k as int)),
{
    let mut w: usize = 0;
    while w < k
        invariant
            0 <= m <= sa.len(),
            w <= k <= thread_state.len(),
            forall|w: int| 0 <= w < k ==> unique_in(sa@, m as int, #[trigger] block_lo(m as int, k as int, w), block_hi(m as int, k as int, w)) is Some,
            thread_state@ =~= tallied(old(thread_state)@, w as int, uniques(sa@, m as int, k as int)),
        decreases k - w,
    {
        let (lo, hi) = block_range(m as usize, k, w);
        proof {
            lemma_unique_in(sa@, m as int, lo as int, lo as int, hi as int);
        }
        let count: SaSint = count_unique_suffixes(sa, m, lo as FastSint, (hi - lo) as FastSint);
        thread_state[w].count = count as FastSint;
        w += 1;
    }
}

/// Sets the names that stand alone apart in the blocks of `k` workers, who have noted how many
/// there are.
fn split_parts(t: &mut [SaSint], sa: &mut [SaSint], m: SaSint, k: usize, thread_state: &[ThreadState]) -> (r: SaSint)
    requires
        0 <= m,
        1 <= k <= thread_state.len(),
        k <= isize::MAX,
        forall|w: int| 0 <= w < k ==> (#[trigger] thread_state@[w]).count == uniques(old(sa)@, m as int, k as int)(w),
        fold_up(split_part_step(old(sa)@, m as int, k as int), (old(t)@, old(sa)@, 0isize), 0, k as int) is Some,
    ensures
        fold_up(split_part_step(old(sa)@, m as int, k as int), (old(t)@, old(sa)@, 0isize), 0, k as int)
            == Some((final(t)@, final(sa)@, r as isize)),
        final(sa).len() == old(sa).len(),
{
    let ghost step = split_part_step(sa@, m as int, k as int);
    let ghost s0 = (t@, sa@, 0isize);
    let mut f: SaSint = 0;
    let mut w: usize = 0;
    while w < k
        invariant
            0 <= m,
            w <= k <= thread_state.len(),
            k <= isize::MAX,
            sa.len() == old(sa).len(),
            step == split_part_step(old(sa)@, m as int, k as int),
            forall|w: int| 0 <= w < k ==> (#[trigger] thread_state@[w]).count == uniques(old(sa)@, m as int, k as int)(w),
            fold_up(step, s0, 0, k as int) is Some,
            fold_up(step, s0, 0, w as int) == Some((t@, sa@, f as isize)),
        decreases k - w,
    {
        let (lo, hi) = block_range(m as usize, k, w);
        proof {
            lemma_fold_up_prefix(step, s0, 0, w + 1, k as int);
            lemma_unique_in(old(sa)@, m as int, lo as int, lo as int, hi as int);
        }
        let _next: SaSint = renumber_unique_and_nonunique_lms_suffixes_32s(t, sa, m, f, lo as FastSint, (hi - lo) as FastSint);
        assert(thread_state@[w as int].count == uniques(old(sa)@, m as int, k as int)(w as int));
        f = f + thread_state[w].count as SaSint;
        w += 1;
    }
    f
}

/// Sets the names that stand alone apart, for all `m` sorted suffixes, and returns how many
/// there are. Each block starts with the number of names set apart in the blocks before it,
/// which the workers note.
pub fn renumber_unique_and_nonunique_lms_suffixes_32s_omp(
    t: &mut [SaSint],
    sa: &mut [SaSint],
    m: SaSint,
    threads: SaSint,
    thread_state: &mut [ThreadState],
) -> (r: SaSint)
    requires
        m <= old(sa).len(),
        !storage_lacks(threads as int, m >= 65536, m as int, old(thread_state).len() as int),
        split_names_shared(old(t)@, old(sa)@, m as int, threads as int) is Some,
    ensures
        split_names_shared(old(t)@, old(sa)@, m as int, threads as int) == Some((final(t)@, final(sa)@, r)),
        final(sa).len() == old(sa).len(),
        final(thread_state)@ == split_storage(old(thread_state)@, old(sa)@, m as int, threads as int),
{
    if threads == 1 || m < 65536 {
        return renumber_unique_and_nonunique_lms_suffixes_32s(t, sa, m, 0, 0, m as FastSint);
    }
    let k: usize = sharer_count(threads, true, m);
    proof {
        let step = split_part_step(sa@, m as int, k as int);
        let s0 = (t@, sa@, 0isize);
        assert forall|w: int| 0 <= w < k implies
            unique_in(sa@, m as int, #[trigger] block_lo(m as int, k as int, w), block_hi(m as int, k as int, w)) is Some
            && 0 <= uniques(sa@, m as int, k as int)(w) <= i32::MAX by {
            lemma_fold_up_prefix(step, s0, 0, w + 1, k as int);
            law_blocks_join(m as int, k as int, w);
            lemma_unique_in(sa@, m as int, block_lo(m as int, k as int, w), block_lo(m as int, k as int, w), block_hi(m as int, k as int, w));
        }
    }
    tally_uniques(sa, m, k, thread_state);
    assert forall|w: int| 0 <= w < k implies (#[trigger] thread_state@[w]).count == uniques(sa@, m as int, k as int)(w) by {
        assert(block_lo(m as int, k as int, w) == block_lo(m as int, k as int, w));
    }
    split_parts(t, sa, m, k, thread_state)
}

/// The array after [`compact_unique_and_nonunique_lms_suffixes_32s_omp`].
pub open spec fn compact_names_omp(sa: Seq<i32>, n: int, m: int, fs: int, f: int) -> Option<Seq<i32>> {
    match compact_names_run(sa, m, m, n + fs, 0, n / 2) {
        Some(x) => if 0 <= n && fits(n + fs) && fits(n + fs - m) && movable(sa.len() as int, m - f, f, n + fs - m) {
            Some(moved(x.0, m - f, f, n + fs - m))
        } else {
            None
        },
        None => None,
    }
}

/// Separates the names behind the first `m` entries, and copies the `f` that were set apart
/// to the end of the free space.
///
/// `false` where a slot is out of range.
pub(crate) fn try_compact_unique_and_nonunique_lms_suffixes_32s_all(
    sa: &mut [SaSint],
    n: SaSint,
    m: SaSint,
    fs: SaSint,
    f: SaSint,
) -> (ok: bool)
    requires
        old(sa).len() <= isize::MAX,
    ensures
        ok == (compact_names_omp(old(sa)@, n as int, m as int, fs as int, f as int) is Some),
        ok ==> compact_names_omp(old(sa)@, n as int, m as int, fs as int, f as int) == Some(final(sa)@),
        final(sa).len() == old(sa).len(),
{
    if n < 0 {
        return false;
    }
    let end: SaSint = match fits_sum(n, fs) {
        Some(v) => v,
        None => return false,
    };
    let dst: SaSint = match fits_difference(end, m) {
        Some(v) => v,
        None => return false,
    };
    let mut l: FastSint = m as FastSint;
    let mut r: FastSint = end as FastSint;
    if !try_compact_unique_and_nonunique_lms_suffixes_32s(sa, m, &mut l, &mut r, 0, (n / 2) as FastSint) {
        return false;
    }
    if dst < 0 || f < 0 || m < f || m as u64 > sa.len() as u64 || dst as u64 + f as u64 > sa.len() as u64 {
        return false;
    }
    move_within(sa, (m - f) as usize, f as usize, dst as usize);
    true
}

/// Worker `w` of `k` separates the names of its block of the `half` behind the first `m`
/// entries: those set apart go to the end of a block behind these, the others to the end of its
/// own. It notes the first slots of both.
pub open spec fn compact_part_step(m: int, half: int, k: int) -> spec_fn((Seq<i32>, Seq<ThreadState>), int) -> Option<(Seq<i32>, Seq<ThreadState>)> {
    |s: (Seq<i32>, Seq<ThreadState>), w: int|
        {
            let lo = block_lo(half, k, w);
            let hi = block_hi(half, k, w);
            match compact_names_run(s.0, m, m + half + hi, m + hi, lo, hi - lo) {
                Some(x) => if m + half + hi <= isize::MAX && 0 <= w < s.1.len() {
                    Some((x.0, s.1.update(w, ThreadState { position: x.1 as isize, count: x.2 as isize, ..s.1[w] })))
                } else {
                    None
                },
                None => None,
            }
        }
}

/// Copies the entries from `first[w]` up to where worker `w` of `k` had its block end, `base`
/// slots behind the block, in front of the slot in the state.
pub open spec fn compact_join_step(first: Seq<isize>, base: int, half: int, k: int) -> spec_fn((Seq<i32>, isize), int) -> Option<(Seq<i32>, isize)> {
    |s: (Seq<i32>, isize), w: int|
        {
            let src = first[w] as int;
            let count = base + block_hi(half, k, w) - src;
            let dst = s.1 - count;
            if !(0 <= w < first.len()) {
                None
            } else if count <= 0 {
                Some(s)
            } else if movable(s.0.len() as int, src, count, dst) && (src + count <= dst || dst + count <= src) {
                Some((moved(s.0, src, count, dst), dst as isize))
            } else {
                None
            }
        }
}

/// The slots that the first `k` workers noted as their position.
pub open spec fn positions(ts: Seq<ThreadState>, k: int) -> Seq<isize> {
    Seq::new(k as nat, |w: int| ts[w].position)
}

/// The counts that the first `k` workers noted.
pub open spec fn counts(ts: Seq<ThreadState>, k: int) -> Seq<isize> {
    Seq::new(k as nat, |w: int| ts[w].count)
}

/// What [`compact_unique_and_nonunique_lms_suffixes_32s_omp`] leaves for `threads` workers: the
/// array and the working storage.
pub open spec fn compact_names_shared(
    sa: Seq<i32>,
    ts: Seq<ThreadState>,
    n: int,
    m: int,
    fs: int,
    f: int,
    threads: int,
) -> Option<(Seq<i32>, Seq<ThreadState>)> {
    let half = n / 2;
    let k = sharers(threads, true, half);
    if threads == 1 || n < 131072 || m >= fs {
        match compact_names_omp(sa, n, m, fs, f) {
            Some(x) => Some((x, ts)),
            None => None,
        }
    } else if !(0 <= m && fits(n + fs) && fits(n + fs - m)) {
        None
    } else {
        match fold_up(compact_part_step(m, half, k), (sa, ts), 0, k) {
            Some(x) => match fold_down(compact_join_step(positions(x.1, k), m + half, half, k), (x.0, m as isize), 0, k) {
                Some(y) => match fold_down(compact_join_step(counts(x.1, k), m, half, k), (y.0, (n + fs) as isize), 0, k) {
                    Some(z) => if movable(z.0.len() as int, m - f, f, n + fs - m) {
                        Some((moved(z.0, m - f, f, n + fs - m), x.1))
                    } else {
                        None
                    },
                    None => None,
                },
                None => None,
            },
            None => None,
        }
    }
}

/// Separates the names in the blocks of `k` workers.
fn compact_parts(sa: &mut [SaSint], m: SaSint, half: usize, k: usize, thread_state: &mut [ThreadState])
    requires
        old(sa).len() <= isize::MAX,
        0 <= m,
        half <= i32::MAX,
        k <= old(thread_state).len(),
        k <= isize::MAX,
        fold_up(compact_part_step(m as int, half as int, k as int), (old(sa)@, old(thread_state)@), 0, k as int) is Some,
    ensures
        fold_up(compact_part_step(m as int, half as int, k as int), (old(sa)@, old(thread_state)@), 0, k as int)
            == Some((final(sa)@, final(thread_state)@)),
        final(sa).len() == old(sa).len(),
        final(thread_state).len() == old(thread_state).len(),
{
    let ghost step = compact_part_step(m as int, half as int, k as int);
    let ghost s0 = (sa@, thread_state@);
    let mut w: usize = 0;
    while w < k
        invariant
            sa.len() == old(sa).len(),
            sa.len() <= isize::MAX,
            0 <= m,
            half <= i32::MAX,
            w <= k <= thread_state.len(),
            k <= isize::MAX,
            thread_state.len() == old(thread_state).len(),
            step == compact_part_step(m as int, half as int, k as int),
            fold_up(step, s0, 0, k as int) is Some,
            fold_up(step, s0, 0, w as int) == Some((sa@, thread_state@)),
        decreases k - w,
    {
        proof {
            lemma_fold_up_prefix(step, s0, 0, w + 1, k as int);
        }
        let (lo, hi) = block_range(half, k, w);
        let mut count: FastSint = m as FastSint + hi as FastSint;
        let mut position: FastSint = count + half as FastSint;
        let _ok: bool = try_compact_unique_and_nonunique_lms_suffixes_32s(
            sa, m, &mut position, &mut count, lo as FastSint, (hi - lo) as FastSint);
        thread_state[w].position = position;
        thread_state[w].count = count;
        w += 1;
    }
}

/// Copies the entries that the workers left in their blocks together, in front of slot `end`.
fn compact_join(sa: &mut [SaSint], first: &[FastSint], base: FastSint, half: usize, k: usize, end: FastSint)
    requires
        old(sa).len() <= isize::MAX,
        0 <= base,
        base + half <= isize::MAX,
        k == first.len(),
        fold_down(compact_join_step(first@, base as int, half as int, k as int), (old(sa)@, end), 0, k as int) is Some,
    ensures
        fold_down(compact_join_step(first@, base as int, half as int, k as int), (old(sa)@, end), 0, k as int)
            .unwrap().0 == final(sa)@,
        final(sa).len() == old(sa).len(),
{
    let ghost step = compact_join_step(first@, base as int, half as int, k as int);
    let ghost s0 = (sa@, end);
    let mut position: FastSint = end;
    let mut w: usize = k;
    while w > 0
        invariant
            sa.len() == old(sa).len(),
            sa.len() <= isize::MAX,
            0 <= base,
            base + half <= isize::MAX,
            w <= k == first.len(),
            step == compact_join_step(first@, base as int, half as int, k as int),
            fold_down(step, s0, 0, k as int) is Some,
            fold_down(step, s0, w as int, k as int) == Some((sa@, position)),
        decreases w,
    {
        proof {
            lemma_fold_down_prefix(step, s0, 0, w - 1, k as int);
        }
        w -= 1;
        let (_lo, hi) = block_range(half, k, w);
        let stop: FastSint = base + hi as FastSint;
        if first[w] < stop {
            let count: FastSint = stop - first[w];
            position = position - count;
            move_within(sa, first[w] as usize, count as usize, position as usize);
        }
    }
}

/// Lists [`positions`] and [`counts`].
fn noted(thread_state: &[ThreadState], k: usize) -> (r: (Vec<FastSint>, Vec<FastSint>))
    requires
        k <= thread_state.len(),
    ensures
        r.0@ == positions(thread_state@, k as int),
        r.1@ == counts(thread_state@, k as int),
{
    let mut first: Vec<FastSint> = Vec::new();
    let mut second: Vec<FastSint> = Vec::new();
    let mut w: usize = 0;
    while w < k
        invariant
            w <= k <= thread_state.len(),
            first@ =~= positions(thread_state@, w as int),
            second@ =~= counts(thread_state@, w as int),
        decreases k - w,
    {
        first.push(thread_state[w].position);
        second.push(thread_state[w].count);
        w += 1;
    }
    (first, second)
}

/// Separates the names behind the first `m` entries, and copies the `f` that were set apart
/// to the end of the free space. Workers separate the names of their blocks first and note the
/// slots of what they left there.
pub fn compact_unique_and_nonunique_lms_suffixes_32s_omp(
    sa: &mut [SaSint],
    n: SaSint,
    m: SaSint,
    fs: SaSint,
    f: SaSint,
    threads: SaSint,
    thread_state: &mut [ThreadState],
)
    requires
        old(sa).len() <= isize::MAX,
        !storage_lacks(threads as int, n >= 131072 && m < fs, n as int / 2, old(thread_state).len() as int),
        compact_names_shared(old(sa)@, old(thread_state)@, n as int, m as int, fs as int, f as int, threads as int) is Some,
    ensures
        compact_names_shared(old(sa)@, old(thread_state)@, n as int, m as int, fs as int, f as int, threads as int)
            == Some((final(sa)@, final(thread_state)@)),
{
    if threads == 1 || n < 131072 || m >= fs {
        let _ok: bool = try_compact_unique_and_nonunique_lms_suffixes_32s_all(sa, n, m, fs, f);
        return;
    }
    let half: usize = (n / 2) as usize;
    let k: usize = sharer_count(threads, true, n / 2);
    proof {
        lemma_compact_room(m as int, half as int, k as int, (sa@, thread_state@));
    }
    compact_parts(sa, m, half, k, thread_state);
    let (first, second) = noted(thread_state, k);
    compact_join(sa, first.as_slice(), m as FastSint + half as FastSint, half, k, m as FastSint);
    compact_join(sa, second.as_slice(), m as FastSint, half, k, n as FastSint + fs as FastSint);
    move_within(sa, (m - f) as usize, f as usize, (n + fs - m) as usize);
}

/// The block of the last worker ends at a slot number.
proof fn lemma_compact_room(m: int, half: int, k: int, s: (Seq<i32>, Seq<ThreadState>))
    requires
        1 <= k,
        fold_up(compact_part_step(m, half, k), s, 0, k) is Some,
    ensures
        m + half + half <= isize::MAX,
{
    assert(block_hi(half, k, k - 1) == half);
}

/// What [`compact_lms_suffixes_32s_omp`] leaves: the text, the array, and how many names
/// were set apart.
pub open spec fn compact_lms_run(
    t: Seq<i32>,
    sa: Seq<i32>,
    n: int,
    m: int,
    fs: int,
) -> Option<(Seq<i32>, Seq<i32>, i32)> {
    match split_names_omp(t, sa, m) {
        Some(x) => match compact_names_omp(x.1, n, m, fs, x.2 as int) {
            Some(y) => Some((x.0, y, x.2)),
            None => None,
        },
        None => None,
    }
}

/// Sets the names that stand alone apart and packs the others for the recursion.
///
/// `None` where a slot is out of range.
pub(crate) fn try_compact_lms_suffixes_32s(
    t: &mut [SaSint],
    sa: &mut [SaSint],
    n: SaSint,
    m: SaSint,
    fs: SaSint,
) -> (r: Option<SaSint>)
    requires
        old(sa).len() <= isize::MAX,
    ensures
        r is Some == (compact_lms_run(old(t)@, old(sa)@, n as int, m as int, fs as int) is Some),
        r is Some ==> compact_lms_run(old(t)@, old(sa)@, n as int, m as int, fs as int)
            == Some((final(t)@, final(sa)@, r->0)),
        final(t).len() == old(t).len(),
        final(sa).len() == old(sa).len(),
{
    let f: SaSint = match try_renumber_unique_and_nonunique_lms_suffixes_32s(t, sa, m, 0, 0, m as FastSint) {
        Some(v) => v,
        None => return None,
    };
    if try_compact_unique_and_nonunique_lms_suffixes_32s_all(sa, n, m, fs, f) {
        Some(f)
    } else {
        None
    }
}

/// What [`compact_lms_suffixes_32s_omp`] leaves for `threads` workers: the text, the array, the
/// working storage, and how many names were set apart.
pub open spec fn compact_lms_shared(
    t: Seq<i32>,
    sa: Seq<i32>,
    ts: Seq<ThreadState>,
    n: int,
    m: int,
    fs: int,
    threads: int,
) -> Option<(Seq<i32>, Seq<i32>, Seq<ThreadState>, i32)> {
    match split_names_shared(t, sa, m, threads) {
        Some(x) => match compact_names_shared(x.1, split_storage(ts, sa, m, threads), n, m, fs, x.2 as int, threads) {
            Some(y) => Some((x.0, y.0, y.1, x.2)),
            None => None,
        },
        None => None,
    }
}

/// One worker leaves what [`compact_lms_run`] says, and the working storage as it was.
pub proof fn law_compact_lms_alone(t: Seq<i32>, sa: Seq<i32>, ts: Seq<ThreadState>, n: int, m: int, fs: int)
    ensures
        compact_lms_shared(t, sa, ts, n, m, fs, 1) == match compact_lms_run(t, sa, n, m, fs) {
            Some(x) => Some((x.0, x.1, ts, x.2)),
            None => None,
        },
{
}

/// Sets the names that stand alone apart and packs the others for the recursion. Returns how
/// many were set apart.
pub fn compact_lms_suffixes_32s_omp(
    t: &mut [SaSint],
    sa: &mut [SaSint],
    n: SaSint,
    m: SaSint,
    fs: SaSint,
    threads: SaSint,
    thread_state: &mut [ThreadState],
) -> (r: SaSint)
    requires
        m <= old(sa).len() <= isize::MAX,
        !storage_lacks(threads as int, m >= 65536, m as int, old(thread_state).len() as int),
        !storage_lacks(threads as int, n >= 131072 && m < fs, n as int / 2, old(thread_state).len() as int),
        compact_lms_shared(old(t)@, old(sa)@, old(thread_state)@, n as int, m as int, fs as int, threads as int) is Some,
    ensures
        compact_lms_shared(old(t)@, old(sa)@, old(thread_state)@, n as int, m as int, fs as int, threads as int)
            == Some((final(t)@, final(sa)@, final(thread_state)@, r)),
{
    let f: SaSint = renumber_unique_and_nonunique_lms_suffixes_32s_omp(t, sa, m, threads, thread_state);
    compact_unique_and_nonunique_lms_suffixes_32s_omp(sa, n, m, fs, f, threads, thread_state);
    f
}

/// Where the symbol at position `i` is marked, clears the mark and puts the position at its
/// rank. The state holds the text, the array, the next rank, the slot of the one after it,
/// and whether this position is passed over because the one before it was marked.
pub open spec fn merge_unique_step() -> spec_fn((Seq<i32>, Seq<i32>, i32, usize, bool), int) -> Option<(Seq<i32>, Seq<i32>, i32, usize, bool)> {
    |s: (Seq<i32>, Seq<i32>, i32, usize, bool), i: int|
        {
            let (t, sa, rank, src, skip) = s;
            if skip {
                Some((t, sa, rank, src, false))
            } else if !(0 <= i < t.len() && i <= i32::MAX) {
                None
            } else if t[i] >= 0 {
                Some((t, sa, rank, src, false))
            } else if 0 <= rank < sa.len() && src < sa.len() {
                let s1 = sa.update(rank as int, i as i32);
                Some((t.update(i, unmarked(t[i])), s1, s1[src as int], (src + 1) as usize, true))
            } else {
                None
            }
        }
}

/// [`merge_unique_step`] over the positions from `lo` to `hi`, upward.
pub open spec fn merge_unique_run(s: (Seq<i32>, Seq<i32>, i32, usize, bool), lo: int, hi: int) -> Option<(Seq<i32>, Seq<i32>, i32, usize, bool)> {
    fold_up(merge_unique_step(), s, lo, hi)
}

/// Performs one step, or returns `false` where the step is outside its domain.
fn merge_unique_at(
    t: &mut [SaSint],
    sa: &mut [SaSint],
    rank: &mut SaSint,
    src: &mut usize,
    skip: &mut bool,
    i: FastSint,
) -> (ok: bool)
    ensures
        ok == (merge_unique_step()((old(t)@, old(sa)@, *old(rank), *old(src), *old(skip)), i as int) is Some),
        ok ==> merge_unique_step()((old(t)@, old(sa)@, *old(rank), *old(src), *old(skip)), i as int) == Some((final(t)@, final(sa)@, *final(rank), *final(src), *final(skip))),
        final(t).len() == old(t).len(),
        final(sa).len() == old(sa).len(),
{
    if *skip {
        *skip = false;
        return true;
    }
    if !word_within(i, t.len()) || i as u64 > 0x7fff_ffff {
        return false;
    }
    let c: SaSint = t[i as usize];
    if c >= 0 {
        return true;
    }
    if !within(*rank, sa.len()) || *src >= sa.len() {
        return false;
    }
    t[i as usize] = clear_mark(c);
    sa[*rank as usize] = i as SaSint;
    *rank = sa[*src];
    *src = *src + 1;
    *skip = true;
    true
}

/// Runs the steps as far as they are defined; `false` where one is not.
pub(crate) fn try_merge_unique(
    t: &mut [SaSint],
    sa: &mut [SaSint],
    rank: &mut SaSint,
    src: &mut usize,
    skip: &mut bool,
    lo: FastSint,
    hi: FastSint,
) -> (ok: bool)
    ensures
        ok == (merge_unique_run((old(t)@, old(sa)@, *old(rank), *old(src), *old(skip)), lo as int, hi as int) is Some),
        ok ==> merge_unique_run((old(t)@, old(sa)@, *old(rank), *old(src), *old(skip)), lo as int, hi as int) == Some((final(t)@, final(sa)@, *final(rank), *final(src), *final(skip))),
        final(t).len() == old(t).len(),
        final(sa).len() == old(sa).len(),
{
    let mut i: FastSint = lo;
    let ghost step = merge_unique_step();
    let ghost s0 = (t@, sa@, *rank, *src, *skip);
    while i < hi
        invariant
            lo <= i,
            i <= hi || hi < lo,
            hi < lo ==> i == lo,
            step == merge_unique_step(),
            s0 == (old(t)@, old(sa)@, *old(rank), *old(src), *old(skip)),
            fold_up(step, s0, lo as int, i as int) == Some((t@, sa@, *rank, *src, *skip)),
            t.len() == old(t).len(),
            sa.len() == old(sa).len(),
        decreases hi - i,
    {
        proof {
            lemma_fold_up_prefix(step, s0, lo as int, i + 1, hi as int);
        }
        if !merge_unique_at(t, sa, rank, src, skip, i) {
            return false;
        }
        i += 1;
    }
    true
}

/// The slot in front of entry `l` of the ranks kept at `n - m`.
pub open spec fn rank_slot(n: int, m: int, l: int) -> int {
    n - m - 1 + l
}

/// What [`merge_unique_lms_suffixes_32s`] leaves: the text and the array.
pub open spec fn merge_unique_block(
    t: Seq<i32>,
    sa: Seq<i32>,
    n: int,
    m: int,
    l: int,
    start: int,
    size: int,
) -> Option<(Seq<i32>, Seq<i32>)> {
    let at = rank_slot(n, m, l);
    if size <= 0 {
        Some((t, sa))
    } else if !(0 <= m < n && 0 <= l && at < sa.len() && 0 <= start && start + size <= isize::MAX) {
        None
    } else {
        match merge_unique_run((t, sa, sa[at], (at + 1) as usize, false), start, start + size) {
            Some(x) => Some((x.0, x.1)),
            None => None,
        }
    }
}

/// Clears the marks of a block of the text and puts each marked position at its rank.
///
/// `false` where a slot is out of range.
pub(crate) fn try_merge_unique_lms_suffixes_32s(
    t: &mut [SaSint],
    sa: &mut [SaSint],
    n: SaSint,
    m: SaSint,
    l: FastSint,
    omp_block_start: FastSint,
    omp_block_size: FastSint,
) -> (ok: bool)
    ensures
        ok == (merge_unique_block(old(t)@, old(sa)@, n as int, m as int, l as int,
            omp_block_start as int, omp_block_size as int) is Some),
        ok ==> merge_unique_block(old(t)@, old(sa)@, n as int, m as int, l as int,
            omp_block_start as int, omp_block_size as int) == Some((final(t)@, final(sa)@)),
        final(t).len() == old(t).len(),
        final(sa).len() == old(sa).len(),
{
    if omp_block_size <= 0 {
        return true;
    }
    if m < 0 || m >= n || l < 0 || omp_block_start < 0 {
        return false;
    }
    let end: FastSint = match omp_block_start.checked_add(omp_block_size) {
        Some(v) => v,
        None => return false,
    };
    let at: u128 = (n - m) as u128 - 1 + l as u128;
    if at >= sa.len() as u128 {
        return false;
    }
    let mut rank: SaSint = sa[at as usize];
    let mut src: usize = at as usize + 1;
    let mut skip: bool = false;
    try_merge_unique(t, sa, &mut rank, &mut src, &mut skip, omp_block_start, end)
}

/// Clears the marks of a block of the text and puts each marked position at its rank. The
/// ranks stand at `n - m - 1`; those of the block start at number `l`.
pub fn merge_unique_lms_suffixes_32s(
    t: &mut [SaSint],
    sa: &mut [SaSint],
    n: SaSint,
    m: SaSint,
    l: FastSint,
    omp_block_start: FastSint,
    omp_block_size: FastSint,
)
    requires
        merge_unique_block(old(t)@, old(sa)@, n as int, m as int, l as int,
            omp_block_start as int, omp_block_size as int) is Some,
    ensures
        merge_unique_block(old(t)@, old(sa)@, n as int, m as int, l as int,
            omp_block_start as int, omp_block_size as int) == Some((final(t)@, final(sa)@)),
{
    let _ok: bool = try_merge_unique_lms_suffixes_32s(t, sa, n, m, l, omp_block_start, omp_block_size);
}

/// Fills slot `i` with the next suffix where it is empty. The state holds the array, that
/// suffix, and the slot of the one after it.
pub open spec fn merge_nonunique_step() -> spec_fn((Seq<i32>, i32, usize), int) -> Option<(Seq<i32>, i32, usize)> {
    |s: (Seq<i32>, i32, usize), i: int|
        {
            let (sa, next, src) = s;
            if !(0 <= i < sa.len()) {
                None
            } else if sa[i] != 0 {
                Some((sa, next, src))
            } else if src < sa.len() {
                let s1 = sa.update(i, next);
                Some((s1, s1[src as int], (src + 1) as usize))
            } else {
                None
            }
        }
}

/// [`merge_nonunique_step`] over the positions from `lo` to `hi`, upward.
pub open spec fn merge_nonunique_run(s: (Seq<i32>, i32, usize), lo: int, hi: int) -> Option<(Seq<i32>, i32, usize)> {
    fold_up(merge_nonunique_step(), s, lo, hi)
}

/// Performs one step, or returns `false` where the step is outside its domain.
fn merge_nonunique_at(
    sa: &mut [SaSint],
    next: &mut SaSint,
    src: &mut usize,
    i: FastSint,
) -> (ok: bool)
    ensures
        ok == (merge_nonunique_step()((old(sa)@, *old(next), *old(src)), i as int) is Some),
        ok ==> merge_nonunique_step()((old(sa)@, *old(next), *old(src)), i as int) == Some((final(sa)@, *final(next), *final(src))),
        final(sa).len() == old(sa).len(),
{
    if !word_within(i, sa.len()) {
        return false;
    }
    if sa[i as usize] != 0 {
        return true;
    }
    if *src >= sa.len() {
        return false;
    }
    sa[i as usize] = *next;
    *next = sa[*src];
    *src = *src + 1;
    true
}

/// Runs the steps as far as they are defined; `false` where one is not.
pub(crate) fn try_merge_nonunique(
    sa: &mut [SaSint],
    next: &mut SaSint,
    src: &mut usize,
    lo: FastSint,
    hi: FastSint,
) -> (ok: bool)
    ensures
        ok == (merge_nonunique_run((old(sa)@, *old(next), *old(src)), lo as int, hi as int) is Some),
        ok ==> merge_nonunique_run((old(sa)@, *old(next), *old(src)), lo as int, hi as int) == Some((final(sa)@, *final(next), *final(src))),
        final(sa).len() == old(sa).len(),
{
    let mut i: FastSint = lo;
    let ghost step = merge_nonunique_step();
    let ghost s0 = (sa@, *next, *src);
    while i < hi
        invariant
            lo <= i,
            i <= hi || hi < lo,
            hi < lo ==> i == lo,
            step == merge_nonunique_step(),
            s0 == (old(sa)@, *old(next), *old(src)),
            fold_up(step, s0, lo as int, i as int) == Some((sa@, *next, *src)),
            sa.len() == old(sa).len(),
        decreases hi - i,
    {
        proof {
            lemma_fold_up_prefix(step, s0, lo as int, i + 1, hi as int);
        }
        if !merge_nonunique_at(sa, next, src, i) {
            return false;
        }
        i += 1;
    }
    true
}

/// What [`merge_nonunique_lms_suffixes_32s`] leaves.
pub open spec fn merge_nonunique_block(
    sa: Seq<i32>,
    n: int,
    m: int,
    l: int,
    start: int,
    size: int,
) -> Option<Seq<i32>> {
    let at = rank_slot(n, m, l);
    if size <= 0 {
        Some(sa)
    } else if !(0 <= m < n && 0 <= l && at < sa.len() && 0 <= start && start + size <= isize::MAX) {
        None
    } else {
        match merge_nonunique_run((sa, sa[at], (at + 1) as usize), start, start + size) {
            Some(x) => Some(x.0),
            None => None,
        }
    }
}

/// Fills the empty slots of a block with the suffixes that stand in order from `n - m - 1`.
///
/// `false` where a slot is out of range.
pub(crate) fn try_merge_nonunique_lms_suffixes_32s(
    sa: &mut [SaSint],
    n: SaSint,
    m: SaSint,
    l: FastSint,
    omp_block_start: FastSint,
    omp_block_size: FastSint,
) -> (ok: bool)
    ensures
        ok == (merge_nonunique_block(old(sa)@, n as int, m as int, l as int,
            omp_block_start as int, omp_block_size as int) is Some),
        ok ==> merge_nonunique_block(old(sa)@, n as int, m as int, l as int,
            omp_block_start as int, omp_block_size as int) == Some(final(sa)@),
        final(sa).len() == old(sa).len(),
{
    if omp_block_size <= 0 {
        return true;
    }
    if m < 0 || m >= n || l < 0 || omp_block_start < 0 {
        return false;
    }
    let end: FastSint = match omp_block_start.checked_add(omp_block_size) {
        Some(v) => v,
        None => return false,
    };
    let at: u128 = (n - m) as u128 - 1 + l as u128;
    if at >= sa.len() as u128 {
        return false;
    }
    let mut next: SaSint = sa[at as usize];
    let mut src: usize = at as usize + 1;
    try_merge_nonunique(sa, &mut next, &mut src, omp_block_start, end)
}

/// Fills the empty slots of a block with the suffixes that stand in order from `n - m - 1`;
/// those of the block start at number `l`.
pub fn merge_nonunique_lms_suffixes_32s(
    sa: &mut [SaSint],
    n: SaSint,
    m: SaSint,
    l: FastSint,
    omp_block_start: FastSint,
    omp_block_size: FastSint,
)
    requires
        merge_nonunique_block(old(sa)@, n as int, m as int, l as int,
            omp_block_start as int, omp_block_size as int) is Some,
    ensures
        merge_nonunique_block(old(sa)@, n as int, m as int, l as int,
            omp_block_start as int, omp_block_size as int) == Some(final(sa)@),
{
    let _ok: bool = try_merge_nonunique_lms_suffixes_32s(sa, n, m, l, omp_block_start, omp_block_size);
}

/// Merges the marked positions of block `i` of `workers`. The state also holds how many the
/// blocks before had.
pub open spec fn merge_unique_part_step(n: int, m: int, workers: int) -> spec_fn((Seq<i32>, Seq<i32>, isize), int) -> Option<(Seq<i32>, Seq<i32>, isize)> {
    |s: (Seq<i32>, Seq<i32>, isize), i: int|
        {
            let (t, sa, l) = s;
            let lo = block_lo(n, workers, i);
            let hi = block_hi(n, workers, i);
            let count = count_negative_marked_in(t, lo, hi);
            if 0 <= n && 0 <= i < workers && hi <= t.len() && count <= i32::MAX && l + count <= isize::MAX {
                match merge_unique_block(t, sa, n, m, l as int, lo, hi - lo) {
                    Some(x) => Some((x.0, x.1, (l + count) as isize)),
                    None => None,
                }
            } else {
                None
            }
        }
}

/// [`merge_unique_part_step`] over the positions from `lo` to `hi`, upward.
pub open spec fn merge_unique_part_run(n: int, m: int, workers: int, s: (Seq<i32>, Seq<i32>, isize), lo: int, hi: int) -> Option<(Seq<i32>, Seq<i32>, isize)> {
    fold_up(merge_unique_part_step(n, m, workers), s, lo, hi)
}

/// Performs one step, or returns `false` where the step is outside its domain.
fn merge_unique_part_at(
    n: SaSint,
    m: SaSint,
    workers: usize,
    t: &mut [SaSint],
    sa: &mut [SaSint],
    l: &mut FastSint,
    i: FastSint,
) -> (ok: bool)
    ensures
        ok == (merge_unique_part_step(n as int, m as int, workers as int)((old(t)@, old(sa)@, *old(l)), i as int) is Some),
        ok ==> merge_unique_part_step(n as int, m as int, workers as int)((old(t)@, old(sa)@, *old(l)), i as int) == Some((final(t)@, final(sa)@, *final(l))),
        final(t).len() == old(t).len(),
        final(sa).len() == old(sa).len(),
{
    if n < 0 || i < 0 || i as usize >= workers {
        return false;
    }
    let (lo, hi) = block_range(n as usize, workers, i as usize);
    if hi > t.len() {
        return false;
    }
    proof {
        lemma_negative_bound(t@, lo as int, hi as int);
    }
    let count: SaSint = count_negative_marked_suffixes(t, lo as FastSint, (hi - lo) as FastSint);
    let next: FastSint = match (*l).checked_add(count as FastSint) {
        Some(v) => v,
        None => return false,
    };
    if !try_merge_unique_lms_suffixes_32s(t, sa, n, m, *l, lo as FastSint, (hi - lo) as FastSint) {
        return false;
    }
    *l = next;
    true
}

/// Runs the steps as far as they are defined; `false` where one is not.
pub(crate) fn try_merge_unique_part(
    n: SaSint,
    m: SaSint,
    workers: usize,
    t: &mut [SaSint],
    sa: &mut [SaSint],
    l: &mut FastSint,
    lo: FastSint,
    hi: FastSint,
) -> (ok: bool)
    ensures
        ok == (merge_unique_part_run(n as int, m as int, workers as int, (old(t)@, old(sa)@, *old(l)), lo as int, hi as int) is Some),
        ok ==> merge_unique_part_run(n as int, m as int, workers as int, (old(t)@, old(sa)@, *old(l)), lo as int, hi as int) == Some((final(t)@, final(sa)@, *final(l))),
        final(t).len() == old(t).len(),
        final(sa).len() == old(sa).len(),
{
    let mut i: FastSint = lo;
    let ghost step = merge_unique_part_step(n as int, m as int, workers as int);
    let ghost s0 = (t@, sa@, *l);
    while i < hi
        invariant
            lo <= i,
            i <= hi || hi < lo,
            hi < lo ==> i == lo,
            step == merge_unique_part_step(n as int, m as int, workers as int),
            s0 == (old(t)@, old(sa)@, *old(l)),
            fold_up(step, s0, lo as int, i as int) == Some((t@, sa@, *l)),
            t.len() == old(t).len(),
            sa.len() == old(sa).len(),
        decreases hi - i,
    {
        proof {
            lemma_fold_up_prefix(step, s0, lo as int, i + 1, hi as int);
        }
        if !merge_unique_part_at(n, m, workers, t, sa, l, i) {
            return false;
        }
        i += 1;
    }
    true
}

/// Fills the empty slots of block `i` of `workers`. The state also holds how many suffixes
/// were used before.
pub open spec fn merge_nonunique_part_step(n: int, m: int, workers: int) -> spec_fn((Seq<i32>, isize), int) -> Option<(Seq<i32>, isize)> {
    |s: (Seq<i32>, isize), i: int|
        {
            let (sa, l) = s;
            let lo = block_lo(m, workers, i);
            let hi = block_hi(m, workers, i);
            let count = count_zero_marked_in(sa, lo, hi);
            if 0 <= m && 0 <= i < workers && hi <= sa.len() && count <= i32::MAX && l + count <= isize::MAX {
                match merge_nonunique_block(sa, n, m, l as int, lo, hi - lo) {
                    Some(x) => Some((x, (l + count) as isize)),
                    None => None,
                }
            } else {
                None
            }
        }
}

/// [`merge_nonunique_part_step`] over the positions from `lo` to `hi`, upward.
pub open spec fn merge_nonunique_part_run(n: int, m: int, workers: int, s: (Seq<i32>, isize), lo: int, hi: int) -> Option<(Seq<i32>, isize)> {
    fold_up(merge_nonunique_part_step(n, m, workers), s, lo, hi)
}

/// Performs one step, or returns `false` where the step is outside its domain.
fn merge_nonunique_part_at(
    n: SaSint,
    m: SaSint,
    workers: usize,
    sa: &mut [SaSint],
    l: &mut FastSint,
    i: FastSint,
) -> (ok: bool)
    ensures
        ok == (merge_nonunique_part_step(n as int, m as int, workers as int)((old(sa)@, *old(l)), i as int) is Some),
        ok ==> merge_nonunique_part_step(n as int, m as int, workers as int)((old(sa)@, *old(l)), i as int) == Some((final(sa)@, *final(l))),
        final(sa).len() == old(sa).len(),
{
    if m < 0 || i < 0 || i as usize >= workers {
        return false;
    }
    let (lo, hi) = block_range(m as usize, workers, i as usize);
    if hi > sa.len() {
        return false;
    }
    proof {
        lemma_zero_bound(sa@, lo as int, hi as int);
    }
    let count: SaSint = count_zero_marked_suffixes(sa, lo as FastSint, (hi - lo) as FastSint);
    let next: FastSint = match (*l).checked_add(count as FastSint) {
        Some(v) => v,
        None => return false,
    };
    if !try_merge_nonunique_lms_suffixes_32s(sa, n, m, *l, lo as FastSint, (hi - lo) as FastSint) {
        return false;
    }
    *l = next;
    true
}

/// Runs the steps as far as they are defined; `false` where one is not.
pub(crate) fn try_merge_nonunique_part(
    n: SaSint,
    m: SaSint,
    workers: usize,
    sa: &mut [SaSint],
    l: &mut FastSint,
    lo: FastSint,
    hi: FastSint,
) -> (ok: bool)
    ensures
        ok == (merge_nonunique_part_run(n as int, m as int, workers as int, (old(sa)@, *old(l)), lo as int, hi as int) is Some),
        ok ==> merge_nonunique_part_run(n as int, m as int, workers as int, (old(sa)@, *old(l)), lo as int, hi as int) == Some((final(sa)@, *final(l))),
        final(sa).len() == old(sa).len(),
{
    let mut i: FastSint = lo;
    let ghost step = merge_nonunique_part_step(n as int, m as int, workers as int);
    let ghost s0 = (sa@, *l);
    while i < hi
        invariant
            lo <= i,
            i <= hi || hi < lo,
            hi < lo ==> i == lo,
            step == merge_nonunique_part_step(n as int, m as int, workers as int),
            s0 == (old(sa)@, *old(l)),
            fold_up(step, s0, lo as int, i as int) == Some((sa@, *l)),
            sa.len() == old(sa).len(),
        decreases hi - i,
    {
        proof {
            lemma_fold_up_prefix(step, s0, lo as int, i + 1, hi as int);
        }
        if !merge_nonunique_part_at(n, m, workers, sa, l, i) {
            return false;
        }
        i += 1;
    }
    true
}

/// What [`merge_unique_lms_suffixes_32s_omp`] leaves: the text and the array.
pub open spec fn merge_unique_omp(
    t: Seq<i32>,
    sa: Seq<i32>,
    n: int,
    m: int,
    workers: int,
) -> Option<(Seq<i32>, Seq<i32>)> {
    if workers <= 1 {
        merge_unique_block(t, sa, n, m, 0, 0, n)
    } else {
        match merge_unique_part_run(n, m, workers, (t, sa, 0), 0, workers) {
            Some(x) => Some((x.0, x.1)),
            None => None,
        }
    }
}

/// Clears the marks of the text and puts each marked position at its rank.
pub(crate) fn try_merge_unique_lms_suffixes_32s_omp(
    t: &mut [SaSint],
    sa: &mut [SaSint],
    n: SaSint,
    m: SaSint,
    workers: usize,
) -> (ok: bool)
    requires
        workers <= isize::MAX,
    ensures
        ok == (merge_unique_omp(old(t)@, old(sa)@, n as int, m as int, workers as int) is Some),
        ok ==> merge_unique_omp(old(t)@, old(sa)@, n as int, m as int, workers as int) == Some((final(t)@, final(sa)@)),
        final(t).len() == old(t).len(),
        final(sa).len() == old(sa).len(),
{
    if workers <= 1 {
        return try_merge_unique_lms_suffixes_32s(t, sa, n, m, 0, 0, n as FastSint);
    }
    let mut l: FastSint = 0;
    try_merge_unique_part(n, m, workers, t, sa, &mut l, 0, workers as FastSint)
}

/// What [`merge_unique_lms_suffixes_32s_omp`] leaves of the working storage `ts`: the workers
/// note how many positions are marked in their blocks.
pub open spec fn merge_unique_storage(ts: Seq<ThreadState>, t: Seq<i32>, n: int, threads: int) -> Seq<ThreadState> {
    if threads == 1 || n < 65536 {
        ts
    } else {
        let k = sharers(threads, true, n);
        tallied(ts, k, negatives(t, n, k))
    }
}

/// Clears the marks of the text and puts each marked position at its rank, block by block. The
/// workers note how many positions are marked in their blocks.
pub fn merge_unique_lms_suffixes_32s_omp(
    t: &mut [SaSint],
    sa: &mut [SaSint],
    n: SaSint,
    m: SaSint,
    threads: SaSint,
    thread_state: &mut [ThreadState],
)
    requires
        !storage_lacks(threads as int, n >= 65536, n as int, old(thread_state).len() as int),
        threads == 1 || n < 65536 || n <= old(t).len(),
        merge_unique_omp(old(t)@, old(sa)@, n as int, m as int, sharers(threads as int, n >= 65536, n as int)) is Some,
    ensures
        merge_unique_omp(old(t)@, old(sa)@, n as int, m as int, sharers(threads as int, n >= 65536, n as int))
            == Some((final(t)@, final(sa)@)),
        final(thread_state)@ == merge_unique_storage(old(thread_state)@, old(t)@, n as int, threads as int),
        final(sa).len() == old(sa).len(),
{
    let workers: usize = sharer_count(threads, n >= 65536, n);
    if threads != 1 && n >= 65536 {
        tally_negatives(t, n, workers, thread_state);
    }
    let _ok: bool = try_merge_unique_lms_suffixes_32s_omp(t, sa, n, m, workers);
}

/// What [`merge_nonunique_lms_suffixes_32s_omp`] leaves.
pub open spec fn merge_nonunique_omp(sa: Seq<i32>, n: int, m: int, f: int, workers: int) -> Option<Seq<i32>> {
    if workers <= 1 {
        merge_nonunique_block(sa, n, m, f, 0, m)
    } else {
        match merge_nonunique_part_run(n, m, workers, (sa, f as isize), 0, workers) {
            Some(x) => Some(x.0),
            None => None,
        }
    }
}

/// Fills the empty ones of the first `m` slots.
pub(crate) fn try_merge_nonunique_lms_suffixes_32s_omp(
    sa: &mut [SaSint],
    n: SaSint,
    m: SaSint,
    f: SaSint,
    workers: usize,
) -> (ok: bool)
    requires
        workers <= isize::MAX,
    ensures
        ok == (merge_nonunique_omp(old(sa)@, n as int, m as int, f as int, workers as int) is Some),
        ok ==> merge_nonunique_omp(old(sa)@, n as int, m as int, f as int, workers as int) == Some(final(sa)@),
        final(sa).len() == old(sa).len(),
{
    if workers <= 1 {
        return try_merge_nonunique_lms_suffixes_32s(sa, n, m, f as FastSint, 0, m as FastSint);
    }
    let mut l: FastSint = f as FastSint;
    try_merge_nonunique_part(n, m, workers, sa, &mut l, 0, workers as FastSint)
}

/// What [`merge_nonunique_lms_suffixes_32s_omp`] leaves of the working storage `ts`: the workers
/// note how many slots are empty in their blocks.
pub open spec fn merge_nonunique_storage(ts: Seq<ThreadState>, sa: Seq<i32>, m: int, threads: int) -> Seq<ThreadState> {
    if threads == 1 || m < 65536 {
        ts
    } else {
        let k = sharers(threads, true, m);
        tallied(ts, k, zeros_of(sa, m, k))
    }
}

/// Fills the empty ones of the first `m` slots with the suffixes that stand in order from
/// `n - m - 1 + f`, block by block. The workers note how many slots are empty in their blocks.
pub fn merge_nonunique_lms_suffixes_32s_omp(
    sa: &mut [SaSint],
    n: SaSint,
    m: SaSint,
    f: SaSint,
    threads: SaSint,
    thread_state: &mut [ThreadState],
)
    requires
        !storage_lacks(threads as int, m >= 65536, m as int, old(thread_state).len() as int),
        threads == 1 || m < 65536 || m <= old(sa).len(),
        merge_nonunique_omp(old(sa)@, n as int, m as int, f as int, sharers(threads as int, m >= 65536, m as int)) is Some,
    ensures
        merge_nonunique_omp(old(sa)@, n as int, m as int, f as int, sharers(threads as int, m >= 65536, m as int))
            == Some(final(sa)@),
        final(thread_state)@ == merge_nonunique_storage(old(thread_state)@, old(sa)@, m as int, threads as int),
{
    let workers: usize = sharer_count(threads, m >= 65536, m);
    if threads != 1 && m >= 65536 {
        tally_zeros(sa, m, workers, thread_state);
    }
    let _ok: bool = try_merge_nonunique_lms_suffixes_32s_omp(sa, n, m, f, workers);
}

/// What [`merge_compacted_lms_suffixes_32s_omp`] leaves: the text and the array.
pub open spec fn merge_compacted_run(
    t: Seq<i32>,
    sa: Seq<i32>,
    n: int,
    m: int,
    f: int,
    unique_workers: int,
    nonunique_workers: int,
) -> Option<(Seq<i32>, Seq<i32>)> {
    match merge_unique_omp(t, sa, n, m, unique_workers) {
        Some(x) => match merge_nonunique_omp(x.1, n, m, f, nonunique_workers) {
            Some(y) => Some((x.0, y)),
            None => None,
        },
        None => None,
    }
}

/// Merges the suffixes that were set apart with the others.
pub(crate) fn try_merge_compacted_lms_suffixes_32s(
    t: &mut [SaSint],
    sa: &mut [SaSint],
    n: SaSint,
    m: SaSint,
    f: SaSint,
    unique_workers: usize,
    nonunique_workers: usize,
) -> (ok: bool)
    requires
        unique_workers <= isize::MAX,
        nonunique_workers <= isize::MAX,
    ensures
        ok == (merge_compacted_run(old(t)@, old(sa)@, n as int, m as int, f as int,
            unique_workers as int, nonunique_workers as int) is Some),
        ok ==> merge_compacted_run(old(t)@, old(sa)@, n as int, m as int, f as int,
            unique_workers as int, nonunique_workers as int) == Some((final(t)@, final(sa)@)),
        final(t).len() == old(t).len(),
        final(sa).len() == old(sa).len(),
{
    try_merge_unique_lms_suffixes_32s_omp(t, sa, n, m, unique_workers)
        && try_merge_nonunique_lms_suffixes_32s_omp(sa, n, m, f, nonunique_workers)
}

/// What [`merge_compacted_lms_suffixes_32s_omp`] leaves of the working storage `ts`.
pub open spec fn merge_compacted_storage(
    ts: Seq<ThreadState>,
    t: Seq<i32>,
    sa: Seq<i32>,
    n: int,
    m: int,
    threads: int,
) -> Seq<ThreadState> {
    let merged = merge_unique_omp(t, sa, n, m, sharers(threads, n >= 65536, n)).unwrap().1;
    merge_nonunique_storage(merge_unique_storage(ts, t, n, threads), merged, m, threads)
}

/// Merges the suffixes that were set apart with the others.
pub fn merge_compacted_lms_suffixes_32s_omp(
    t: &mut [SaSint],
    sa: &mut [SaSint],
    n: SaSint,
    m: SaSint,
    f: SaSint,
    threads: SaSint,
    thread_state: &mut [ThreadState],
)
    requires
        storage_suffices(threads as int, n as int, m as int, old(thread_state).len() as int),
        threads == 1 || n < 65536 || n <= old(t).len(),
        threads == 1 || m < 65536 || m <= old(sa).len(),
        merge_compacted_run(old(t)@, old(sa)@, n as int, m as int, f as int,
            sharers(threads as int, n >= 65536, n as int), sharers(threads as int, m >= 65536, m as int)) is Some,
    ensures
        merge_compacted_run(old(t)@, old(sa)@, n as int, m as int, f as int,
            sharers(threads as int, n >= 65536, n as int), sharers(threads as int, m >= 65536, m as int))
            == Some((final(t)@, final(sa)@)),
        final(thread_state)@ == merge_compacted_storage(
            old(thread_state)@, old(t)@, old(sa)@, n as int, m as int, threads as int),
{
    merge_unique_lms_suffixes_32s_omp(t, sa, n, m, threads, thread_state);
    merge_nonunique_lms_suffixes_32s_omp(sa, n, m, f, threads, thread_state);
}

/// Whether there is working storage for every worker that takes part in a merge.
pub open spec fn storage_suffices(threads: int, n: int, m: int, available: int) -> bool {
    &&& !storage_lacks(threads, n >= 65536, n, available)
    &&& !storage_lacks(threads, m >= 65536, m, available)
}

/// The array with the ranks of the suffixes set apart in front of the gathered suffixes.
pub open spec fn ranks_restored(sa: Seq<i32>, n: int, m: int, fs: int, f: int) -> Option<Seq<i32>> {
    if fits(n - m) && fits(n - m - 1) && fits(n + fs) && fits(n + fs - m) && movable(sa.len() as int, n + fs - m, f, n - m - 1) {
        Some(moved(sa, n + fs - m, f, n - m - 1))
    } else {
        None
    }
}

/// Copies the ranks of the suffixes set apart in front of the gathered suffixes.
fn try_restore_ranks(sa: &mut [SaSint], n: SaSint, m: SaSint, fs: SaSint, f: SaSint) -> (ok: bool)
    ensures
        ok == (ranks_restored(old(sa)@, n as int, m as int, fs as int, f as int) is Some),
        ok ==> ranks_restored(old(sa)@, n as int, m as int, fs as int, f as int) == Some(final(sa)@),
        final(sa).len() == old(sa).len(),
{
    let d: SaSint = match fits_difference(n, m) {
        Some(v) => v,
        None => return false,
    };
    let end: SaSint = match fits_sum(n, fs) {
        Some(v) => v,
        None => return false,
    };
    let src: SaSint = match fits_difference(end, m) {
        Some(v) => v,
        None => return false,
    };
    if d < 1 || src < 0 || f < 0 || src as u64 + f as u64 > sa.len() as u64
        || (d - 1) as u64 + f as u64 > sa.len() as u64 {
        return false;
    }
    move_within(sa, src as usize, f as usize, (d - 1) as usize);
    true
}

/// The array with the other suffixes in order behind the ranks, and the first `m` slots empty.
pub open spec fn others_restored(sa: Seq<i32>, n: int, m: int, f: int) -> Option<Seq<i32>> {
    match reconstruct_lms_suffixes_run(sa, n, m - f, 0, m - f) {
        Some(s) => if fits(m - f) && fits(n - m) && fits(n - m - 1) && fits(n - m - 1 + f) && 0 <= m <= sa.len()
            && movable(sa.len() as int, 0, m - f, n - m - 1 + f) {
            Some(cleared(moved(s, 0, m - f, n - m - 1 + f), 0, m))
        } else {
            None
        },
        None => None,
    }
}

/// Puts the other suffixes in order behind the ranks and empties the first `m` slots.
fn try_restore_others(sa: &mut [SaSint], n: SaSint, m: SaSint, f: SaSint) -> (ok: bool)
    ensures
        ok == (others_restored(old(sa)@, n as int, m as int, f as int) is Some),
        ok ==> others_restored(old(sa)@, n as int, m as int, f as int) == Some(final(sa)@),
        final(sa).len() == old(sa).len(),
{
    let rest: SaSint = match fits_difference(m, f) {
        Some(v) => v,
        None => return false,
    };
    let d: SaSint = match fits_difference(n, m) {
        Some(v) => v,
        None => return false,
    };
    if d == SaSint::MIN {
        return false;
    }
    let dst: SaSint = match fits_sum(d - 1, f) {
        Some(v) => v,
        None => return false,
    };
    if !try_reconstruct_lms_suffixes(sa, n, rest, 0, rest as FastSint) {
        return false;
    }
    if rest < 0 || dst < 0 || m < 0 || m as u64 > sa.len() as u64 || rest as u64 > sa.len() as u64
        || dst as u64 + rest as u64 > sa.len() as u64 {
        return false;
    }
    move_within(sa, 0, rest as usize, dst as usize);
    clear_range(sa, 0, m as usize);
    true
}

/// What [`reconstruct_compacted_lms_suffixes_32s_1k_omp`] leaves: the text and the array.
pub open spec fn reconstruct_compacted_1k_run(
    t: Seq<i32>,
    sa: Seq<i32>,
    n: int,
    m: int,
    fs: int,
    f: int,
    unique_workers: int,
    nonunique_workers: int,
) -> Option<(Seq<i32>, Seq<i32>)> {
    if !(1 <= n <= t.len()) {
        None
    } else if f > 0 {
        match ranks_restored(sa, n, m, fs, f) {
            Some(s1) => match gather_compacted_lms_suffixes_32s_run(text32(t), s1, n) {
                Some(s2) => match others_restored(s2.0, n, m, f) {
                    Some(s3) => merge_compacted_run(t, s3, n, m, f, unique_workers, nonunique_workers),
                    None => None,
                },
                None => None,
            },
            None => None,
        }
    } else {
        match gather_lms_suffixes_32s_run(text32(t), sa, n) {
            Some(s) => match reconstruct_lms_suffixes_run(s.0, n, m, 0, m) {
                Some(s1) => Some((t, s1)),
                None => None,
            },
            None => None,
        }
    }
}

/// Turns the ranks that the recursion left into sorted LMS suffixes.
///
/// `false` where a slot is out of range.
pub(crate) fn try_reconstruct_compacted_lms_suffixes_32s_1k(
    t: &mut [SaSint],
    sa: &mut [SaSint],
    n: SaSint,
    m: SaSint,
    fs: SaSint,
    f: SaSint,
    unique_workers: usize,
    nonunique_workers: usize,
) -> (ok: bool)
    requires
        unique_workers <= isize::MAX,
        nonunique_workers <= isize::MAX,
    ensures
        ok == (reconstruct_compacted_1k_run(old(t)@, old(sa)@, n as int, m as int, fs as int, f as int,
            unique_workers as int, nonunique_workers as int) is Some),
        ok ==> reconstruct_compacted_1k_run(old(t)@, old(sa)@, n as int, m as int, fs as int, f as int,
            unique_workers as int, nonunique_workers as int) == Some((final(t)@, final(sa)@)),
        final(t).len() == old(t).len(),
        final(sa).len() == old(sa).len(),
{
    if n < 1 || n as u64 > t.len() as u64 {
        return false;
    }
    if f > 0 {
        if !try_restore_ranks(sa, n, m, fs, f) {
            return false;
        }
        match try_gather_compacted_lms_suffixes_32s(t, sa, n) {
            Some(_) => {},
            None => return false,
        }
        if !try_restore_others(sa, n, m, f) {
            return false;
        }
        try_merge_compacted_lms_suffixes_32s(t, sa, n, m, f, unique_workers, nonunique_workers)
    } else {
        match try_gather_lms_suffixes_32s(t, sa, n) {
            Some(_) => {},
            None => return false,
        }
        try_reconstruct_lms_suffixes(sa, n, m, 0, m as FastSint)
    }
}

/// What [`reconstruct_compacted_lms_suffixes_32s_1k_omp`] leaves of the working storage `ts`:
/// only merging back uses it.
pub open spec fn reconstruct_1k_storage(
    ts: Seq<ThreadState>,
    t: Seq<i32>,
    sa: Seq<i32>,
    n: int,
    m: int,
    fs: int,
    f: int,
    threads: int,
) -> Seq<ThreadState> {
    if f > 0 {
        let gathered = gather_compacted_lms_suffixes_32s_run(text32(t), ranks_restored(sa, n, m, fs, f).unwrap(), n).unwrap().0;
        merge_compacted_storage(ts, t, others_restored(gathered, n, m, f).unwrap(), n, m, threads)
    } else {
        ts
    }
}

/// Turns the ranks that the recursion left into sorted LMS suffixes; the `f` that were set
/// apart are merged back, and their marks in the text cleared.
pub fn reconstruct_compacted_lms_suffixes_32s_1k_omp(
    t: &mut [SaSint],
    sa: &mut [SaSint],
    n: SaSint,
    m: SaSint,
    fs: SaSint,
    f: SaSint,
    threads: SaSint,
    thread_state: &mut [ThreadState],
)
    requires
        f > 0 ==> storage_suffices(threads as int, n as int, m as int, old(thread_state).len() as int),
        reconstruct_compacted_1k_run(old(t)@, old(sa)@, n as int, m as int, fs as int, f as int,
            sharers(threads as int, n >= 65536, n as int), sharers(threads as int, m >= 65536, m as int)) is Some,
    ensures
        reconstruct_compacted_1k_run(old(t)@, old(sa)@, n as int, m as int, fs as int, f as int,
            sharers(threads as int, n >= 65536, n as int), sharers(threads as int, m >= 65536, m as int))
            == Some((final(t)@, final(sa)@)),
        final(thread_state)@ == reconstruct_1k_storage(
            old(thread_state)@, old(t)@, old(sa)@, n as int, m as int, fs as int, f as int, threads as int),
{
    if f > 0 {
        let _ranks: bool = try_restore_ranks(sa, n, m, fs, f);
        let _gathered: Option<SaSint> = try_gather_compacted_lms_suffixes_32s(t, sa, n);
        let _others: bool = try_restore_others(sa, n, m, f);
        merge_compacted_lms_suffixes_32s_omp(t, sa, n, m, f, threads, thread_state);
    } else {
        let _ok: bool = try_reconstruct_compacted_lms_suffixes_32s_1k(t, sa, n, m, fs, f, 1, 1);
    }
}

/// What [`reconstruct_compacted_lms_suffixes_32s_2k_omp`] leaves: the text, the array and
/// the counters.
pub open spec fn reconstruct_compacted_2k_run(
    t: Seq<i32>,
    sa: Seq<i32>,
    n: int,
    k: int,
    m: int,
    fs: int,
    f: int,
    buckets: Seq<i32>,
    local_buckets: int,
    threads: int,
    unique_workers: int,
    nonunique_workers: int,
) -> Option<(Seq<i32>, Seq<i32>, Seq<i32>)> {
    if !(1 <= n <= t.len()) {
        None
    } else if f > 0 {
        match ranks_restored(sa, n, m, fs, f) {
            Some(s1) => match compacted_2k_omp_run(text32(t), s1, n, k, buckets.len(), local_buckets, threads) {
                Some(s2) => match others_restored(s2.0, n, m, f) {
                    Some(s3) => match merge_compacted_run(t, s3, n, m, f, unique_workers, nonunique_workers) {
                        Some(s4) => Some((s4.0, s4.1, s2.1)),
                        None => None,
                    },
                    None => None,
                },
                None => None,
            },
            None => None,
        }
    } else {
        match count_and_gather_lms_suffixes_32s_2k_run(text32(t), sa, n, buckets.len(), 0, n) {
            Some(s) => match reconstruct_lms_suffixes_run(s.0, n, m, 0, m) {
                Some(s1) => Some((t, s1, s.1)),
                None => None,
            },
            None => None,
        }
    }
}

/// Turns the ranks that the recursion left into sorted LMS suffixes and counts the symbols.
///
/// `false` where a slot is out of range.
pub(crate) fn try_reconstruct_compacted_lms_suffixes_32s_2k(
    t: &mut [SaSint],
    sa: &mut [SaSint],
    n: SaSint,
    k: SaSint,
    m: SaSint,
    fs: SaSint,
    f: SaSint,
    buckets: &mut [SaSint],
    local_buckets: SaSint,
    threads: SaSint,
    unique_workers: usize,
    nonunique_workers: usize,
) -> (ok: bool)
    requires
        old(t).len() <= isize::MAX,
        old(buckets).len() <= isize::MAX,
        unique_workers <= isize::MAX,
        nonunique_workers <= isize::MAX,
    ensures
        ok == (reconstruct_compacted_2k_run(old(t)@, old(sa)@, n as int, k as int, m as int, fs as int, f as int,
            old(buckets)@, local_buckets as int, threads as int, unique_workers as int, nonunique_workers as int) is Some),
        ok ==> reconstruct_compacted_2k_run(old(t)@, old(sa)@, n as int, k as int, m as int, fs as int, f as int,
            old(buckets)@, local_buckets as int, threads as int, unique_workers as int, nonunique_workers as int)
            == Some((final(t)@, final(sa)@, final(buckets)@)),
        final(t).len() == old(t).len(),
        final(sa).len() == old(sa).len(),
        final(buckets).len() == old(buckets).len(),
{
    if n < 1 || n as u64 > t.len() as u64 {
        return false;
    }
    if f > 0 {
        if !try_restore_ranks(sa, n, m, fs, f) {
            return false;
        }
        if !try_compacted_2k_omp(t, sa, n, k, buckets, local_buckets, threads) {
            return false;
        }
        if !try_restore_others(sa, n, m, f) {
            return false;
        }
        try_merge_compacted_lms_suffixes_32s(t, sa, n, m, f, unique_workers, nonunique_workers)
    } else {
        let ghost s0 = sa@;
        let ghost len = buckets.len();
        proof {
            lemma_lms_slot(
                text32(t@),
                count_and_gather_lms_suffixes_32s_2k_mode(),
                (s0, zeros(len as nat), (n - 1) as isize, run_type(text32(t@), n as int, n - 1)),
                -1,
                n - 1,
            );
        }
        match try_count_and_gather_lms_suffixes_32s_2k(t, sa, n, buckets, 0, n as FastSint) {
            Some(_) => {},
            None => return false,
        }
        try_reconstruct_lms_suffixes(sa, n, m, 0, m as FastSint)
    }
}

/// What [`reconstruct_compacted_lms_suffixes_32s_2k_omp`] leaves of the working storage `ts`:
/// only merging back uses it.
pub open spec fn reconstruct_2k_storage(
    ts: Seq<ThreadState>,
    t: Seq<i32>,
    sa: Seq<i32>,
    n: int,
    k: int,
    m: int,
    fs: int,
    f: int,
    buckets: Seq<i32>,
    local_buckets: int,
    threads: int,
) -> Seq<ThreadState> {
    if f > 0 {
        let gathered = compacted_2k_omp_run(
            text32(t), ranks_restored(sa, n, m, fs, f).unwrap(), n, k, buckets.len(), local_buckets, threads).unwrap().0;
        merge_compacted_storage(ts, t, others_restored(gathered, n, m, f).unwrap(), n, m, threads)
    } else {
        ts
    }
}

/// Turns the ranks that the recursion left into sorted LMS suffixes and counts the symbols;
/// the `f` suffixes that were set apart are merged back, and their marks in the text cleared.
pub fn reconstruct_compacted_lms_suffixes_32s_2k_omp(
    t: &mut [SaSint],
    sa: &mut [SaSint],
    n: SaSint,
    k: SaSint,
    m: SaSint,
    fs: SaSint,
    f: SaSint,
    buckets: &mut [SaSint],
    local_buckets: SaSint,
    threads: SaSint,
    thread_state: &mut [ThreadState],
)
    requires
        old(t).len() <= isize::MAX,
        old(buckets).len() <= isize::MAX,
        f > 0 ==> storage_suffices(threads as int, n as int, m as int, old(thread_state).len() as int),
        reconstruct_compacted_2k_run(old(t)@, old(sa)@, n as int, k as int, m as int, fs as int, f as int,
            old(buckets)@, local_buckets as int, threads as int,
            sharers(threads as int, n >= 65536, n as int), sharers(threads as int, m >= 65536, m as int)) is Some,
    ensures
        reconstruct_compacted_2k_run(old(t)@, old(sa)@, n as int, k as int, m as int, fs as int, f as int,
            old(buckets)@, local_buckets as int, threads as int,
            sharers(threads as int, n >= 65536, n as int), sharers(threads as int, m >= 65536, m as int))
            == Some((final(t)@, final(sa)@, final(buckets)@)),
        final(thread_state)@ == reconstruct_2k_storage(old(thread_state)@, old(t)@, old(sa)@, n as int, k as int,
            m as int, fs as int, f as int, old(buckets)@, local_buckets as int, threads as int),
{
    if f > 0 {
        let _ranks: bool = try_restore_ranks(sa, n, m, fs, f);
        let _gathered: bool = try_compacted_2k_omp(t, sa, n, k, buckets, local_buckets, threads);
        let _others: bool = try_restore_others(sa, n, m, f);
        merge_compacted_lms_suffixes_32s_omp(t, sa, n, m, f, threads, thread_state);
    } else {
        let _ok: bool = try_reconstruct_compacted_lms_suffixes_32s_2k(
            t, sa, n, k, m, fs, f, buckets, local_buckets, threads, 1, 1);
    }
}

} // verus!
