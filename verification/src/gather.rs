//! Right-to-left passes over the suffix types of a text: gathering the LMS
//! suffixes and counting symbols by type.

use vstd::prelude::*;
use crate::fold::{fold_down, lemma_fold_down_prefix};
use crate::marks::bit;
use crate::types::{FastSint, SaSint};

verus! {

/// A byte text as a sequence of integers.
pub open spec fn text8(t: Seq<u8>) -> Seq<int> {
    t.map_values(|c: u8| c as int)
}

/// An integer text as a sequence of integers.
pub open spec fn text32(t: Seq<i32>) -> Seq<int> {
    t.map_values(|c: i32| c as int)
}

/// The array of `len` zeros.
pub open spec fn zeros(len: nat) -> Seq<i32> {
    Seq::new(len, |i: int| 0i32)
}

/// What a pass over the suffix types records.
#[derive(Clone, Copy)]
pub struct LmsMode {
    /// Whether the LMS suffixes are written into the array.
    pub gather: bool,
    /// How many counters each symbol has: four (by its own type and the type
    /// before it), two (LMS suffixes apart from the others) or none.
    pub lanes: u8,
    /// Whether negative symbols are marked ones, which are counted without
    /// their mark and not gathered.
    pub compact: bool,
    /// Whether nothing in front of the text can be of type L.
    pub closed: bool,
}

/// The symbol in front of position `i + 1`.
pub open spec fn symbol_before(t: Seq<int>, mode: LmsMode, i: int) -> int {
    if i >= 0 {
        t[i]
    } else if mode.closed {
        -0x8000_0002
    } else {
        -1
    }
}

/// The counter of a suffix with symbol `c1`, where `f` says whether it is of
/// type L and `g` whether the suffix before it is.
pub open spec fn lms_slot(c1: int, f: bool, g: bool, mode: LmsMode) -> int {
    let key = if mode.compact && c1 < 0 {
        c1 + 0x8000_0000
    } else {
        c1
    };
    if mode.lanes == 4 {
        4 * key + 2 * bit(f) + bit(g)
    } else {
        2 * key + bit(g && !f)
    }
}

/// Computes [`lms_slot`].
fn lms_slot_of(c1: i64, f: bool, g: bool, mode: LmsMode) -> (slot: i64)
    requires
        -0x8000_0000 <= c1 < 0x8000_0000,
    ensures
        slot == lms_slot(c1 as int, f, g, mode),
{
    let key: i64 = if mode.compact && c1 < 0 { c1 + 0x8000_0000 } else { c1 };
    if mode.lanes == 4 {
        4 * key + (if f { 2 } else { 0 }) + (if g { 1 } else { 0 })
    } else {
        2 * key + (if g && !f { 1 } else { 0 })
    }
}

/// The end of the run of `c` that starts at `j`.
pub open spec fn run_end(t: Seq<int>, n: int, j: int, c: int) -> int
    decreases n - j,
{
    if j < n && t[j] == c {
        run_end(t, n, j + 1, c)
    } else {
        j
    }
}

/// Whether the suffix at `last` is of type L, from the first symbol after it
/// that differs from its own.
pub open spec fn run_type(t: Seq<int>, n: int, last: int) -> bool {
    let j = run_end(t, n, last + 1, t[last]);
    if last + 1 >= n {
        t[last] >= -1
    } else {
        j >= n || t[last] >= t[j]
    }
}

/// Records the suffix at `i + 1`, whose symbol is `c1`, with `c0` in front of it.
/// The state holds the array, the counters, the next slot to gather into, and
/// whether the suffix at `i + 1` is of type L.
pub open spec fn lms_record_step(c1: int, c0: int, mode: LmsMode) -> spec_fn((Seq<i32>, Seq<i32>, isize, bool), int) -> Option<(Seq<i32>, Seq<i32>, isize, bool)> {
    |s: (Seq<i32>, Seq<i32>, isize, bool), i: int|
        {
            let (sa, buckets, m, f) = s;
            let g = c0 > c1 - bit(f);
            let slot = lms_slot(c1, f, g, mode);
            if mode.gather && !(0 <= m < sa.len() && 0 <= i + 1 <= i32::MAX) {
                None
            } else if mode.lanes != 0 && !(0 <= slot < buckets.len() && buckets[slot] < i32::MAX) {
                None
            } else {
                Some((
                    if mode.gather {
                        sa.update(m as int, (i + 1) as i32)
                    } else {
                        sa
                    },
                    if mode.lanes != 0 {
                        buckets.update(slot, (buckets[slot] + 1) as i32)
                    } else {
                        buckets
                    },
                    if mode.gather && g && !f && (!mode.compact || c1 >= 0) {
                        (m - 1) as isize
                    } else {
                        m
                    },
                    g,
                ))
            }
        }
}

/// Performs one step, or returns `false` where the step is outside its domain.
fn lms_record_at(
    c1: i64,
    c0: i64,
    mode: LmsMode,
    sa: &mut [SaSint],
    buckets: &mut [SaSint],
    m: &mut FastSint,
    f: &mut bool,
    i: FastSint,
) -> (ok: bool)
    requires
        -0x8000_0000 <= c1 < 0x8000_0000 && -0x8000_0002 <= c0 < 0x8000_0000,
    ensures
        ok == (lms_record_step(c1 as int, c0 as int, mode)((old(sa)@, old(buckets)@, *old(m), *old(f)), i as int) is Some),
        ok ==> lms_record_step(c1 as int, c0 as int, mode)((old(sa)@, old(buckets)@, *old(m), *old(f)), i as int) == Some((final(sa)@, final(buckets)@, *final(m), *final(f))),
        final(sa).len() == old(sa).len(),
        final(buckets).len() == old(buckets).len(),
{
    let g: bool = c0 > c1 - (if *f { 1 } else { 0 });
    let slot: i64 = lms_slot_of(c1, *f, g, mode);
    if mode.gather && !(0 <= *m && (*m as usize) < sa.len() && -1 <= i && (i as i64) < 0x7fff_ffff) {
        return false;
    }
    if mode.lanes != 0 {
        if !(0 <= slot && (slot as u64) < buckets.len() as u64) {
            return false;
        }
        let count: SaSint = buckets[slot as usize];
        if count == SaSint::MAX {
            return false;
        }
        buckets[slot as usize] = count + 1;
    }
    if mode.gather {
        sa[*m as usize] = (i + 1) as SaSint;
        if g && !*f && (!mode.compact || c1 >= 0) {
            *m = *m - 1;
        }
    }
    *f = g;
    true
}

/// One step of a pass over the suffix types of a text: records the suffix at
/// `i + 1`.
pub open spec fn lms_scan_step(t: Seq<int>, mode: LmsMode) -> spec_fn((Seq<i32>, Seq<i32>, isize, bool), int) -> Option<(Seq<i32>, Seq<i32>, isize, bool)> {
    |s: (Seq<i32>, Seq<i32>, isize, bool), i: int|
        {
            let (sa, buckets, m, f) = s;
            if -1 <= i && i + 1 < t.len() {
                lms_record_step(t[i + 1], symbol_before(t, mode, i), mode)(s, i)
            } else {
                None
            }
        }
}

/// [`lms_scan_step`] over the positions from `lo` to `hi`, downward.
pub open spec fn lms_scan_run(t: Seq<int>, mode: LmsMode, s: (Seq<i32>, Seq<i32>, isize, bool), lo: int, hi: int) -> Option<(Seq<i32>, Seq<i32>, isize, bool)> {
    fold_down(lms_scan_step(t, mode), s, lo, hi)
}

/// Performs one step, or returns `false` where the step is outside its domain.
fn lms_scan_8u_at(
    t: &[u8],
    mode: LmsMode,
    sa: &mut [SaSint],
    buckets: &mut [SaSint],
    m: &mut FastSint,
    f: &mut bool,
    i: FastSint,
) -> (ok: bool)
    ensures
        ok == (lms_scan_step(text8(t@), mode)((old(sa)@, old(buckets)@, *old(m), *old(f)), i as int) is Some),
        ok ==> lms_scan_step(text8(t@), mode)((old(sa)@, old(buckets)@, *old(m), *old(f)), i as int) == Some((final(sa)@, final(buckets)@, *final(m), *final(f))),
        final(sa).len() == old(sa).len(),
        final(buckets).len() == old(buckets).len(),
{
    if i < -1 {
        return false;
    }
    let j: usize = if i >= 0 { i as usize + 1 } else { 0 };
    if j >= t.len() {
        return false;
    }
    let c1: i64 = t[j] as i64;
    let c0: i64 = if i >= 0 {
        t[i as usize] as i64
    } else if mode.closed {
        -0x8000_0002
    } else {
        -1
    };
    lms_record_at(c1, c0, mode, sa, buckets, m, f, i)
}

/// Runs the steps as far as they are defined; `false` where one is not.
pub(crate) fn try_lms_scan_8u(
    t: &[u8],
    mode: LmsMode,
    sa: &mut [SaSint],
    buckets: &mut [SaSint],
    m: &mut FastSint,
    f: &mut bool,
    lo: FastSint,
    hi: FastSint,
) -> (ok: bool)
    ensures
        ok == (lms_scan_run(text8(t@), mode, (old(sa)@, old(buckets)@, *old(m), *old(f)), lo as int, hi as int) is Some),
        ok ==> lms_scan_run(text8(t@), mode, (old(sa)@, old(buckets)@, *old(m), *old(f)), lo as int, hi as int) == Some((final(sa)@, final(buckets)@, *final(m), *final(f))),
        final(sa).len() == old(sa).len(),
        final(buckets).len() == old(buckets).len(),
{
    if hi <= lo {
        return true;
    }
    let mut i: FastSint = hi;
    let ghost step = lms_scan_step(text8(t@), mode);
    let ghost s0 = (sa@, buckets@, *m, *f);
    while i > lo
        invariant
            lo <= i <= hi,
            step == lms_scan_step(text8(t@), mode),
            s0 == (old(sa)@, old(buckets)@, *old(m), *old(f)),
            fold_down(step, s0, i as int, hi as int) == Some((sa@, buckets@, *m, *f)),
            sa.len() == old(sa).len(),
            buckets.len() == old(buckets).len(),
        decreases i - lo,
    {
        proof {
            lemma_fold_down_prefix(step, s0, lo as int, i - 1, hi as int);
        }
        i -= 1;
        if !lms_scan_8u_at(t, mode, sa, buckets, m, f, i) {
            return false;
        }
    }
    true
}

/// Performs one step, or returns `false` where the step is outside its domain.
fn lms_scan_32s_at(
    t: &[SaSint],
    mode: LmsMode,
    sa: &mut [SaSint],
    buckets: &mut [SaSint],
    m: &mut FastSint,
    f: &mut bool,
    i: FastSint,
) -> (ok: bool)
    ensures
        ok == (lms_scan_step(text32(t@), mode)((old(sa)@, old(buckets)@, *old(m), *old(f)), i as int) is Some),
        ok ==> lms_scan_step(text32(t@), mode)((old(sa)@, old(buckets)@, *old(m), *old(f)), i as int) == Some((final(sa)@, final(buckets)@, *final(m), *final(f))),
        final(sa).len() == old(sa).len(),
        final(buckets).len() == old(buckets).len(),
{
    if i < -1 {
        return false;
    }
    let j: usize = if i >= 0 { i as usize + 1 } else { 0 };
    if j >= t.len() {
        return false;
    }
    let c1: i64 = t[j] as i64;
    let c0: i64 = if i >= 0 {
        t[i as usize] as i64
    } else if mode.closed {
        -0x8000_0002
    } else {
        -1
    };
    lms_record_at(c1, c0, mode, sa, buckets, m, f, i)
}

/// Runs the steps as far as they are defined; `false` where one is not.
pub(crate) fn try_lms_scan_32s(
    t: &[SaSint],
    mode: LmsMode,
    sa: &mut [SaSint],
    buckets: &mut [SaSint],
    m: &mut FastSint,
    f: &mut bool,
    lo: FastSint,
    hi: FastSint,
) -> (ok: bool)
    ensures
        ok == (lms_scan_run(text32(t@), mode, (old(sa)@, old(buckets)@, *old(m), *old(f)), lo as int, hi as int) is Some),
        ok ==> lms_scan_run(text32(t@), mode, (old(sa)@, old(buckets)@, *old(m), *old(f)), lo as int, hi as int) == Some((final(sa)@, final(buckets)@, *final(m), *final(f))),
        final(sa).len() == old(sa).len(),
        final(buckets).len() == old(buckets).len(),
{
    if hi <= lo {
        return true;
    }
    let mut i: FastSint = hi;
    let ghost step = lms_scan_step(text32(t@), mode);
    let ghost s0 = (sa@, buckets@, *m, *f);
    while i > lo
        invariant
            lo <= i <= hi,
            step == lms_scan_step(text32(t@), mode),
            s0 == (old(sa)@, old(buckets)@, *old(m), *old(f)),
            fold_down(step, s0, i as int, hi as int) == Some((sa@, buckets@, *m, *f)),
            sa.len() == old(sa).len(),
            buckets.len() == old(buckets).len(),
        decreases i - lo,
    {
        proof {
            lemma_fold_down_prefix(step, s0, lo as int, i - 1, hi as int);
        }
        i -= 1;
        if !lms_scan_32s_at(t, mode, sa, buckets, m, f, i) {
            return false;
        }
    }
    true
}

/// The next free slot only moves down, by at most one slot for each step.
pub proof fn lemma_lms_slot(t: Seq<int>, mode: LmsMode, s: (Seq<i32>, Seq<i32>, isize, bool), lo: int, hi: int)
    requires
        lo <= hi,
    ensures
        lms_scan_run(t, mode, s, lo, hi) matches Some(x) ==> s.2 - (hi - lo) <= x.2 <= s.2,
    decreases hi - lo,
{
    if lo < hi {
        lemma_lms_slot(t, mode, s, lo + 1, hi);
    }
}

/// A pass over the suffix types writes no slot above the one that it starts with.
pub proof fn lemma_lms_upper(t: Seq<int>, mode: LmsMode, s: (Seq<i32>, Seq<i32>, isize, bool), lo: int, hi: int)
    requires
        lo <= hi,
    ensures
        lms_scan_run(t, mode, s, lo, hi) matches Some(x) ==> x.0.len() == s.0.len() && x.2 <= s.2
            && forall|j: int| s.2 < j < s.0.len() ==> #[trigger] x.0[j] == s.0[j],
    decreases hi - lo,
{
    if lo < hi {
        lemma_lms_upper(t, mode, s, lo + 1, hi);
    }
}

/// A pass over the suffix types writes no slot below the one that it ends at.
pub proof fn lemma_lms_lower(t: Seq<int>, mode: LmsMode, s: (Seq<i32>, Seq<i32>, isize, bool), lo: int, hi: int)
    requires
        lo <= hi,
    ensures
        lms_scan_run(t, mode, s, lo, hi) matches Some(x) ==> x.0.len() == s.0.len() && x.2 <= s.2
            && forall|j: int| 0 <= j < x.2 ==> #[trigger] x.0[j] == s.0[j],
    decreases hi - lo,
{
    if lo < hi {
        lemma_lms_lower(t, mode, s, lo + 1, hi);
    }
}

/// Determines whether the suffix at `last` is of type L.
fn run_type_8u(t: &[u8], n: usize, last: usize) -> (f: bool)
    requires
        n <= t.len(),
        last < t.len(),
    ensures
        f == run_type(text8(t@), n as int, last as int),
{
    let c: u8 = t[last];
    if last + 1 >= n {
        return true;
    }
    let mut j: usize = last + 1;
    while j < n && t[j] == c
        invariant
            last < j <= n <= t.len(),
            c == t[last as int],
            run_end(text8(t@), n as int, last + 1, c as int) == run_end(text8(t@), n as int, j as int, c as int),
        decreases n - j,
    {
        j += 1;
    }
    j >= n || c >= t[j]
}

/// Determines whether the suffix at `last` is of type L.
fn run_type_32s(t: &[SaSint], n: usize, last: usize) -> (f: bool)
    requires
        n <= t.len(),
        last < t.len(),
    ensures
        f == run_type(text32(t@), n as int, last as int),
{
    let c: SaSint = t[last];
    if last + 1 >= n {
        return c >= -1;
    }
    let mut j: usize = last + 1;
    while j < n && t[j] == c
        invariant
            last < j <= n <= t.len(),
            c == t[last as int],
            run_end(text32(t@), n as int, last + 1, c as int) == run_end(text32(t@), n as int, j as int, c as int),
        decreases n - j,
    {
        j += 1;
    }
    j >= n || c >= t[j]
}

/// Fills `buckets` with zeros.
pub(crate) fn clear(buckets: &mut [SaSint])
    ensures
        final(buckets)@ == zeros(old(buckets).len() as nat),
{
    clear_range(buckets, 0, buckets.len());
    assert(buckets@ =~= zeros(old(buckets).len() as nat));
}

/// `s` with zeros from `lo` up to `hi`.
pub open spec fn cleared(s: Seq<i32>, lo: int, hi: int) -> Seq<i32> {
    Seq::new(s.len(), |i: int| if lo <= i < hi { 0i32 } else { s[i] })
}

/// Fills the slots from `lo` up to `hi` with zeros.
pub(crate) fn clear_range(buckets: &mut [SaSint], lo: usize, hi: usize)
    requires
        hi <= old(buckets).len(),
    ensures
        final(buckets)@ == cleared(old(buckets)@, lo as int, hi as int),
{
    let mut i: usize = lo;
    while i < hi
        invariant
            lo <= i,
            hi <= buckets.len(),
            i <= hi || i == lo,
            buckets@ =~= cleared(old(buckets)@, lo as int, i as int),
        decreases hi - i,
    {
        buckets[i] = 0;
        i += 1;
    }
}

/// The mode of [`gather_lms_suffixes_8u`].
pub open spec fn gather_lms_suffixes_8u_mode() -> LmsMode {
    LmsMode { gather: true, lanes: 0, compact: false, closed: false }
}

/// What [`gather_lms_suffixes_8u`] gathers: the array, and the slot in front of the
/// gathered suffixes.
pub open spec fn gather_lms_suffixes_8u_run(
    t: Seq<int>,
    sa: Seq<i32>,
    n: int,
    m: isize,
    start: int,
    size: int,
) -> Option<(Seq<i32>, Seq<i32>, isize, bool)> {
    let last = start + size - 1;
    lms_scan_run(t, gather_lms_suffixes_8u_mode(), (sa, Seq::empty(), m, run_type(t, n, last)), start, last)
}

/// What the slot in front of the gathered suffixes of a block from `start` on is left with: the
/// position in the scan where it stopped.
pub open spec fn stop_mark(start: int) -> i32 {
    if start == 0 {
        1
    } else {
        start as i32
    }
}

/// Gathers the LMS suffixes of a block, the last one at slot `m` and the others in front of it,
/// behind the first position of the block; `false` where a slot is out of range.
pub(crate) fn try_gather_lms_suffixes_8u(
    t: &[u8],
    sa: &mut [SaSint],
    n: SaSint,
    m: FastSint,
    omp_block_start: FastSint,
    omp_block_size: FastSint,
) -> (ok: bool)
    requires
        omp_block_size > 0 ==> 0 <= n <= t.len() && 0 <= omp_block_start
            && omp_block_start + omp_block_size <= t.len() <= isize::MAX,
    ensures
        final(sa).len() == old(sa).len(),
        omp_block_size <= 0 ==> ok && final(sa)@ == old(sa)@,
        omp_block_size > 0 ==> {
            let x = gather_lms_suffixes_8u_run(
                text8(t@), old(sa)@, n as int, m, omp_block_start as int, omp_block_size as int);
            &&& ok == (x is Some && 0 <= x.unwrap().2 < old(sa).len())
            &&& ok ==> final(sa)@ == x.unwrap().0.update(x.unwrap().2 as int, stop_mark(omp_block_start as int))
        },
{
    if omp_block_size <= 0 {
        return true;
    }
    let mode: LmsMode = LmsMode { gather: true, lanes: 0, compact: false, closed: false };
    let mut none: Vec<SaSint> = Vec::new();
    let mut slot: FastSint = m;
    let last: FastSint = omp_block_start + (omp_block_size - 1);
    let mut f: bool = run_type_8u(t, n as usize, last as usize);
    assert(none@ =~= Seq::<i32>::empty());
    let ok: bool = try_lms_scan_8u(t, mode, sa, none.as_mut_slice(), &mut slot, &mut f, omp_block_start, last);
    if !ok || slot < 0 || slot as usize >= sa.len() {
        return false;
    }
    sa[slot as usize] = if omp_block_start == 0 { 1 } else { omp_block_start as SaSint };
    true
}

/// Gathers the LMS suffixes of a block, the last one at slot `m` and the others in
/// front of it. The slot in front of the first is left with [`stop_mark`], and the lower slots
/// as they were.
pub fn gather_lms_suffixes_8u(
    t: &[u8],
    sa: &mut [SaSint],
    n: SaSint,
    m: FastSint,
    omp_block_start: FastSint,
    omp_block_size: FastSint,
)
    requires
        omp_block_size > 0 ==> 0 <= n <= t.len() && 0 <= omp_block_start
            && omp_block_start + omp_block_size <= t.len() <= isize::MAX,
        omp_block_size > 0 ==> {
            let x = gather_lms_suffixes_8u_run(
                text8(t@), old(sa)@, n as int, m, omp_block_start as int, omp_block_size as int);
            x is Some && 0 <= x.unwrap().2 < old(sa).len()
        },
        omp_block_start != 0 || omp_block_size != 1,
    ensures
        final(sa).len() == old(sa).len(),
        omp_block_size <= 0 ==> final(sa)@ == old(sa)@,
        omp_block_size > 0 ==> {
            let x = gather_lms_suffixes_8u_run(
                text8(t@), old(sa)@, n as int, m, omp_block_start as int, omp_block_size as int).unwrap();
            &&& final(sa)@ == x.0.update(x.2 as int, stop_mark(omp_block_start as int))
            &&& forall|j: int| 0 <= j < x.2 ==> #[trigger] final(sa)@[j] == old(sa)@[j]
        },
{
    proof {
        if omp_block_size > 0 {
            let last = omp_block_start + omp_block_size - 1;
            lemma_lms_lower(
                text8(t@),
                gather_lms_suffixes_8u_mode(),
                (sa@, Seq::empty(), m, run_type(text8(t@), n as int, last)),
                omp_block_start as int,
                last,
            );
        }
    }
    let _ok: bool = try_gather_lms_suffixes_8u(t, sa, n, m, omp_block_start, omp_block_size);
}

/// The mode of [`gather_lms_suffixes_32s`].
pub open spec fn gather_lms_suffixes_32s_mode() -> LmsMode {
    LmsMode { gather: true, lanes: 0, compact: false, closed: false }
}

/// What [`gather_lms_suffixes_32s`] leaves: the array, and the slot in front of the gathered suffixes.
pub open spec fn gather_lms_suffixes_32s_run(t: Seq<int>, sa: Seq<i32>, n: int) -> Option<(Seq<i32>, Seq<i32>, isize, bool)> {
    lms_scan_run(t, gather_lms_suffixes_32s_mode(), (sa, Seq::empty(), (n - 1) as isize, true), 0, n - 1)
}

/// Gathers the LMS suffixes of the text in ascending order, the last one at slot `n - 1`.
pub(crate) fn try_gather_lms_suffixes_32s(t: &[SaSint], sa: &mut [SaSint], n: SaSint) -> (r: Option<SaSint>)
    requires
        1 <= n <= t.len(),
    ensures
        r is Some == (gather_lms_suffixes_32s_run(text32(t@), old(sa)@, n as int) is Some),
        r is Some ==> {
            let x = gather_lms_suffixes_32s_run(text32(t@), old(sa)@, n as int)->0;
            final(sa)@ == x.0 && r->0 == n - 1 - x.2
        },
        final(sa).len() == old(sa).len(),
{
    let mode: LmsMode = LmsMode { gather: true, lanes: 0, compact: false, closed: false };
    let mut none: Vec<SaSint> = Vec::new();
    let mut m: FastSint = n as FastSint - 1;
    let mut f: bool = true;
    assert(none@ =~= Seq::<i32>::empty());
    let ok: bool = try_lms_scan_32s(t, mode, sa, none.as_mut_slice(), &mut m, &mut f, 0, n as FastSint - 1);
    if !ok {
        return None;
    }
    proof {
        lemma_lms_slot(text32(t@), mode, (old(sa)@, Seq::<i32>::empty(), (n - 1) as isize, true), 0, n - 1);
    }
    Some((n as FastSint - 1 - m) as SaSint)
}

/// Gathers the LMS suffixes of the text in ascending order, the last one at slot `n - 1`.
/// Returns how many there are.
pub fn gather_lms_suffixes_32s(t: &[SaSint], sa: &mut [SaSint], n: SaSint) -> (r: SaSint)
    requires
        1 <= n <= t.len(),
        gather_lms_suffixes_32s_run(text32(t@), old(sa)@, n as int) is Some,
    ensures
        ({
            let x = gather_lms_suffixes_32s_run(text32(t@), old(sa)@, n as int)->0;
            final(sa)@ == x.0 && r == n - 1 - x.2
        }),
{
    match try_gather_lms_suffixes_32s(t, sa, n) {
        Some(m) => m,
        None => 0,
    }
}

/// The mode of [`gather_compacted_lms_suffixes_32s`].
pub open spec fn gather_compacted_lms_suffixes_32s_mode() -> LmsMode {
    LmsMode { gather: true, lanes: 0, compact: true, closed: false }
}

/// What [`gather_compacted_lms_suffixes_32s`] leaves: the array, and the slot in front of the gathered suffixes.
pub open spec fn gather_compacted_lms_suffixes_32s_run(t: Seq<int>, sa: Seq<i32>, n: int) -> Option<(Seq<i32>, Seq<i32>, isize, bool)> {
    lms_scan_run(t, gather_compacted_lms_suffixes_32s_mode(), (sa, Seq::empty(), (n - 1) as isize, true), 0, n - 1)
}

/// Gathers the unmarked LMS suffixes of the text in ascending order, the last one at slot `n - 1`.
pub(crate) fn try_gather_compacted_lms_suffixes_32s(t: &[SaSint], sa: &mut [SaSint], n: SaSint) -> (r: Option<SaSint>)
    requires
        1 <= n <= t.len(),
    ensures
        r is Some == (gather_compacted_lms_suffixes_32s_run(text32(t@), old(sa)@, n as int) is Some),
        r is Some ==> {
            let x = gather_compacted_lms_suffixes_32s_run(text32(t@), old(sa)@, n as int)->0;
            final(sa)@ == x.0 && r->0 == n - 1 - x.2
        },
        final(sa).len() == old(sa).len(),
{
    let mode: LmsMode = LmsMode { gather: true, lanes: 0, compact: true, closed: false };
    let mut none: Vec<SaSint> = Vec::new();
    let mut m: FastSint = n as FastSint - 1;
    let mut f: bool = true;
    assert(none@ =~= Seq::<i32>::empty());
    let ok: bool = try_lms_scan_32s(t, mode, sa, none.as_mut_slice(), &mut m, &mut f, 0, n as FastSint - 1);
    if !ok {
        return None;
    }
    proof {
        lemma_lms_slot(text32(t@), mode, (old(sa)@, Seq::<i32>::empty(), (n - 1) as isize, true), 0, n - 1);
    }
    Some((n as FastSint - 1 - m) as SaSint)
}

/// Gathers the unmarked LMS suffixes of the text in ascending order, the last one at slot `n - 1`.
/// Returns how many there are.
pub fn gather_compacted_lms_suffixes_32s(t: &[SaSint], sa: &mut [SaSint], n: SaSint) -> (r: SaSint)
    requires
        1 <= n <= t.len(),
        gather_compacted_lms_suffixes_32s_run(text32(t@), old(sa)@, n as int) is Some,
    ensures
        ({
            let x = gather_compacted_lms_suffixes_32s_run(text32(t@), old(sa)@, n as int)->0;
            final(sa)@ == x.0 && r == n - 1 - x.2
        }),
{
    match try_gather_compacted_lms_suffixes_32s(t, sa, n) {
        Some(m) => m,
        None => 0,
    }
}

/// The mode of [`count_lms_suffixes_32s_4k`].
pub open spec fn count_lms_suffixes_32s_4k_mode() -> LmsMode {
    LmsMode { gather: false, lanes: 4, compact: false, closed: true }
}

/// The counters of [`count_lms_suffixes_32s_4k`].
pub open spec fn count_lms_suffixes_32s_4k_run(t: Seq<int>, n: int, len: nat) -> Option<(Seq<i32>, Seq<i32>, isize, bool)> {
    lms_scan_run(t, count_lms_suffixes_32s_4k_mode(), (Seq::empty(), zeros(len), 0, true), -1, n - 1)
}

/// Counts the symbols of the text by their own type and the type before them.
pub(crate) fn try_count_lms_suffixes_32s_4k(t: &[SaSint], n: SaSint, buckets: &mut [SaSint]) -> (ok: bool)
    requires
        1 <= n <= t.len(),
    ensures
        ok == (count_lms_suffixes_32s_4k_run(text32(t@), n as int, old(buckets).len() as nat) is Some),
        ok ==> count_lms_suffixes_32s_4k_run(text32(t@), n as int, old(buckets).len() as nat).unwrap().1 == final(buckets)@,
        final(buckets).len() == old(buckets).len(),
{
    clear(buckets);
    let mode: LmsMode = LmsMode { gather: false, lanes: 4, compact: false, closed: true };
    let mut none: Vec<SaSint> = Vec::new();
    let mut m: FastSint = 0;
    let mut f: bool = true;
    assert(none@ =~= Seq::<i32>::empty());
    try_lms_scan_32s(t, mode, none.as_mut_slice(), buckets, &mut m, &mut f, -1, n as FastSint - 1)
}

/// Counts the symbols of the text by their own type and the type before them.
pub fn count_lms_suffixes_32s_4k(t: &[SaSint], n: SaSint, k: SaSint, buckets: &mut [SaSint])
    requires
        1 <= n <= t.len(),
        0 <= k,
        count_lms_suffixes_32s_4k_run(text32(t@), n as int, old(buckets).len() as nat) is Some,
    ensures
        count_lms_suffixes_32s_4k_run(text32(t@), n as int, old(buckets).len() as nat).unwrap().1 == final(buckets)@,
{
    let _ok: bool = try_count_lms_suffixes_32s_4k(t, n, buckets);
}

/// The mode of [`count_lms_suffixes_32s_2k`].
pub open spec fn count_lms_suffixes_32s_2k_mode() -> LmsMode {
    LmsMode { gather: false, lanes: 2, compact: false, closed: true }
}

/// The counters of [`count_lms_suffixes_32s_2k`].
pub open spec fn count_lms_suffixes_32s_2k_run(t: Seq<int>, n: int, len: nat) -> Option<(Seq<i32>, Seq<i32>, isize, bool)> {
    lms_scan_run(t, count_lms_suffixes_32s_2k_mode(), (Seq::empty(), zeros(len), 0, true), -1, n - 1)
}

/// Counts the symbols of the text, LMS suffixes apart from the others.
pub(crate) fn try_count_lms_suffixes_32s_2k(t: &[SaSint], n: SaSint, buckets: &mut [SaSint]) -> (ok: bool)
    requires
        1 <= n <= t.len(),
    ensures
        ok == (count_lms_suffixes_32s_2k_run(text32(t@), n as int, old(buckets).len() as nat) is Some),
        ok ==> count_lms_suffixes_32s_2k_run(text32(t@), n as int, old(buckets).len() as nat).unwrap().1 == final(buckets)@,
        final(buckets).len() == old(buckets).len(),
{
    clear(buckets);
    let mode: LmsMode = LmsMode { gather: false, lanes: 2, compact: false, closed: true };
    let mut none: Vec<SaSint> = Vec::new();
    let mut m: FastSint = 0;
    let mut f: bool = true;
    assert(none@ =~= Seq::<i32>::empty());
    try_lms_scan_32s(t, mode, none.as_mut_slice(), buckets, &mut m, &mut f, -1, n as FastSint - 1)
}

/// Counts the symbols of the text, LMS suffixes apart from the others.
pub fn count_lms_suffixes_32s_2k(t: &[SaSint], n: SaSint, k: SaSint, buckets: &mut [SaSint])
    requires
        1 <= n <= t.len(),
        0 <= k,
        count_lms_suffixes_32s_2k_run(text32(t@), n as int, old(buckets).len() as nat) is Some,
    ensures
        count_lms_suffixes_32s_2k_run(text32(t@), n as int, old(buckets).len() as nat).unwrap().1 == final(buckets)@,
{
    let _ok: bool = try_count_lms_suffixes_32s_2k(t, n, buckets);
}

/// The mode of [`count_compacted_lms_suffixes_32s_2k`].
pub open spec fn count_compacted_lms_suffixes_32s_2k_mode() -> LmsMode {
    LmsMode { gather: false, lanes: 2, compact: true, closed: true }
}

/// The counters of [`count_compacted_lms_suffixes_32s_2k`].
pub open spec fn count_compacted_lms_suffixes_32s_2k_run(t: Seq<int>, n: int, len: nat) -> Option<(Seq<i32>, Seq<i32>, isize, bool)> {
    lms_scan_run(t, count_compacted_lms_suffixes_32s_2k_mode(), (Seq::empty(), zeros(len), 0, true), -1, n - 1)
}

/// Counts the symbols of the text without their marks, LMS suffixes apart from the others.
pub(crate) fn try_count_compacted_lms_suffixes_32s_2k(t: &[SaSint], n: SaSint, buckets: &mut [SaSint]) -> (ok: bool)
    requires
        1 <= n <= t.len(),
    ensures
        ok == (count_compacted_lms_suffixes_32s_2k_run(text32(t@), n as int, old(buckets).len() as nat) is Some),
        ok ==> count_compacted_lms_suffixes_32s_2k_run(text32(t@), n as int, old(buckets).len() as nat).unwrap().1 == final(buckets)@,
        final(buckets).len() == old(buckets).len(),
{
    clear(buckets);
    let mode: LmsMode = LmsMode { gather: false, lanes: 2, compact: true, closed: true };
    let mut none: Vec<SaSint> = Vec::new();
    let mut m: FastSint = 0;
    let mut f: bool = true;
    assert(none@ =~= Seq::<i32>::empty());
    try_lms_scan_32s(t, mode, none.as_mut_slice(), buckets, &mut m, &mut f, -1, n as FastSint - 1)
}

/// Counts the symbols of the text without their marks, LMS suffixes apart from the others.
pub fn count_compacted_lms_suffixes_32s_2k(t: &[SaSint], n: SaSint, k: SaSint, buckets: &mut [SaSint])
    requires
        1 <= n <= t.len(),
        0 <= k,
        count_compacted_lms_suffixes_32s_2k_run(text32(t@), n as int, old(buckets).len() as nat) is Some,
    ensures
        count_compacted_lms_suffixes_32s_2k_run(text32(t@), n as int, old(buckets).len() as nat).unwrap().1 == final(buckets)@,
{
    let _ok: bool = try_count_compacted_lms_suffixes_32s_2k(t, n, buckets);
}

/// The mode of [`count_and_gather_lms_suffixes_8u`].
pub open spec fn count_and_gather_lms_suffixes_8u_mode() -> LmsMode {
    LmsMode { gather: true, lanes: 4, compact: false, closed: false }
}

/// What [`count_and_gather_lms_suffixes_8u`] leaves: the array, the counters, and the slot in front
/// of the gathered suffixes.
pub open spec fn count_and_gather_lms_suffixes_8u_run(
    t: Seq<int>,
    sa: Seq<i32>,
    n: int,
    len: nat,
    start: int,
    size: int,
) -> Option<(Seq<i32>, Seq<i32>, isize, bool)> {
    let last = start + size - 1;
    if size <= 0 {
        Some((sa, zeros(len), last as isize, false))
    } else {
        lms_scan_run(
            t, count_and_gather_lms_suffixes_8u_mode(), (sa, zeros(len), last as isize, run_type(t, n, last)), start - 1, last)
    }
}

/// Counts the symbols of a block by type and gathers its LMS suffixes at its end; `None` where a slot is out of range.
pub(crate) fn try_count_and_gather_lms_suffixes_8u(
    t: &[u8],
    sa: &mut [SaSint],
    n: SaSint,
    buckets: &mut [SaSint],
    omp_block_start: FastSint,
    omp_block_size: FastSint,
) -> (r: Option<SaSint>)
    requires
        omp_block_size > 0 ==> 0 <= n <= t.len() && 0 <= omp_block_start
            && omp_block_start + omp_block_size <= t.len() <= isize::MAX,
        omp_block_size <= 0 ==> isize::MIN < omp_block_start + omp_block_size <= isize::MAX,
    ensures
        ({
            let x = count_and_gather_lms_suffixes_8u_run(text8(t@), old(sa)@, n as int,
                old(buckets).len() as nat, omp_block_start as int, omp_block_size as int);
            &&& r is Some == (x is Some && omp_block_start + omp_block_size - 1 - x.unwrap().2 <= i32::MAX)
            &&& r is Some ==> final(sa)@ == x.unwrap().0 && final(buckets)@ == x.unwrap().1
                && r->0 == omp_block_start + omp_block_size - 1 - x.unwrap().2
        }),
        final(sa).len() == old(sa).len(),
        final(buckets).len() == old(buckets).len(),
{
    clear(buckets);
    if omp_block_size <= 0 {
        return Some(0);
    }
    let mode: LmsMode = LmsMode { gather: true, lanes: 4, compact: false, closed: false };
    let last: FastSint = omp_block_start + (omp_block_size - 1);
    let mut m: FastSint = last;
    let mut f: bool = run_type_8u(t, n as usize, last as usize);
    let ghost f0 = f;
    let ok: bool = try_lms_scan_8u(t, mode, sa, buckets, &mut m, &mut f, omp_block_start - 1, last);
    if !ok {
        return None;
    }
    proof {
        lemma_lms_slot(text8(t@), mode, (old(sa)@, zeros(old(buckets).len() as nat), last, f0), omp_block_start - 1, last as int);
    }
    if (last - m) as i64 > 0x7fff_ffff {
        return None;
    }
    Some((last - m) as SaSint)
}

/// Counts the symbols of a block by type and gathers its LMS suffixes at its end. Returns how many
/// suffixes were gathered.
pub fn count_and_gather_lms_suffixes_8u(
    t: &[u8],
    sa: &mut [SaSint],
    n: SaSint,
    buckets: &mut [SaSint],
    omp_block_start: FastSint,
    omp_block_size: FastSint,
) -> (r: SaSint)
    requires
        omp_block_size > 0 ==> 0 <= n <= t.len() && 0 <= omp_block_start
            && omp_block_start + omp_block_size <= t.len() <= isize::MAX,
        omp_block_size <= 0 ==> isize::MIN < omp_block_start + omp_block_size <= isize::MAX,
        ({
            let x = count_and_gather_lms_suffixes_8u_run(text8(t@), old(sa)@, n as int,
                old(buckets).len() as nat, omp_block_start as int, omp_block_size as int);
            x is Some && omp_block_start + omp_block_size - 1 - x.unwrap().2 <= i32::MAX
        }),
    ensures
        ({
            let x = count_and_gather_lms_suffixes_8u_run(text8(t@), old(sa)@, n as int,
                old(buckets).len() as nat, omp_block_start as int, omp_block_size as int)->0;
            final(sa)@ == x.0 && final(buckets)@ == x.1
                && r == omp_block_start + omp_block_size - 1 - x.2
        }),
{
    match try_count_and_gather_lms_suffixes_8u(t, sa, n, buckets, omp_block_start, omp_block_size) {
        Some(m) => m,
        None => 0,
    }
}

/// The mode of [`count_and_gather_lms_suffixes_32s_4k`].
pub open spec fn count_and_gather_lms_suffixes_32s_4k_mode() -> LmsMode {
    LmsMode { gather: true, lanes: 4, compact: false, closed: false }
}

/// What [`count_and_gather_lms_suffixes_32s_4k`] leaves: the array, the counters, and the slot in front
/// of the gathered suffixes.
pub open spec fn count_and_gather_lms_suffixes_32s_4k_run(
    t: Seq<int>,
    sa: Seq<i32>,
    n: int,
    len: nat,
    start: int,
    size: int,
) -> Option<(Seq<i32>, Seq<i32>, isize, bool)> {
    let last = start + size - 1;
    if size <= 0 {
        Some((sa, zeros(len), last as isize, false))
    } else {
        lms_scan_run(
            t, count_and_gather_lms_suffixes_32s_4k_mode(), (sa, zeros(len), last as isize, run_type(t, n, last)), start - 1, last)
    }
}

/// Counts the symbols of a block by type and gathers its LMS suffixes at its end; `None` where a slot is out of range.
pub(crate) fn try_count_and_gather_lms_suffixes_32s_4k(
    t: &[SaSint],
    sa: &mut [SaSint],
    n: SaSint,
    buckets: &mut [SaSint],
    omp_block_start: FastSint,
    omp_block_size: FastSint,
) -> (r: Option<SaSint>)
    requires
        omp_block_size > 0 ==> 0 <= n <= t.len() && 0 <= omp_block_start
            && omp_block_start + omp_block_size <= t.len() <= isize::MAX,
        omp_block_size <= 0 ==> isize::MIN < omp_block_start + omp_block_size <= isize::MAX,
    ensures
        ({
            let x = count_and_gather_lms_suffixes_32s_4k_run(text32(t@), old(sa)@, n as int,
                old(buckets).len() as nat, omp_block_start as int, omp_block_size as int);
            &&& r is Some == (x is Some && omp_block_start + omp_block_size - 1 - x.unwrap().2 <= i32::MAX)
            &&& r is Some ==> final(sa)@ == x.unwrap().0 && final(buckets)@ == x.unwrap().1
                && r->0 == omp_block_start + omp_block_size - 1 - x.unwrap().2
        }),
        final(sa).len() == old(sa).len(),
        final(buckets).len() == old(buckets).len(),
{
    clear(buckets);
    if omp_block_size <= 0 {
        return Some(0);
    }
    let mode: LmsMode = LmsMode { gather: true, lanes: 4, compact: false, closed: false };
    let last: FastSint = omp_block_start + (omp_block_size - 1);
    let mut m: FastSint = last;
    let mut f: bool = run_type_32s(t, n as usize, last as usize);
    let ghost f0 = f;
    let ok: bool = try_lms_scan_32s(t, mode, sa, buckets, &mut m, &mut f, omp_block_start - 1, last);
    if !ok {
        return None;
    }
    proof {
        lemma_lms_slot(text32(t@), mode, (old(sa)@, zeros(old(buckets).len() as nat), last, f0), omp_block_start - 1, last as int);
    }
    if (last - m) as i64 > 0x7fff_ffff {
        return None;
    }
    Some((last - m) as SaSint)
}

/// Counts the symbols of a block by type and gathers its LMS suffixes at its end. Returns how many
/// suffixes were gathered.
pub fn count_and_gather_lms_suffixes_32s_4k(
    t: &[SaSint],
    sa: &mut [SaSint],
    n: SaSint,
    k: SaSint,
    buckets: &mut [SaSint],
    omp_block_start: FastSint,
    omp_block_size: FastSint,
) -> (r: SaSint)
    requires
        omp_block_size > 0 ==> 0 <= n <= t.len() && 0 <= omp_block_start
            && omp_block_start + omp_block_size <= t.len() <= isize::MAX,
        omp_block_size <= 0 ==> isize::MIN < omp_block_start + omp_block_size <= isize::MAX,
        0 <= k,
        ({
            let x = count_and_gather_lms_suffixes_32s_4k_run(text32(t@), old(sa)@, n as int,
                old(buckets).len() as nat, omp_block_start as int, omp_block_size as int);
            x is Some && omp_block_start + omp_block_size - 1 - x.unwrap().2 <= i32::MAX
        }),
    ensures
        ({
            let x = count_and_gather_lms_suffixes_32s_4k_run(text32(t@), old(sa)@, n as int,
                old(buckets).len() as nat, omp_block_start as int, omp_block_size as int)->0;
            final(sa)@ == x.0 && final(buckets)@ == x.1
                && r == omp_block_start + omp_block_size - 1 - x.2
        }),
{
    match try_count_and_gather_lms_suffixes_32s_4k(t, sa, n, buckets, omp_block_start, omp_block_size) {
        Some(m) => m,
        None => 0,
    }
}

/// The mode of [`count_and_gather_lms_suffixes_32s_2k`].
pub open spec fn count_and_gather_lms_suffixes_32s_2k_mode() -> LmsMode {
    LmsMode { gather: true, lanes: 2, compact: false, closed: false }
}

/// What [`count_and_gather_lms_suffixes_32s_2k`] leaves: the array, the counters, and the slot in front
/// of the gathered suffixes.
pub open spec fn count_and_gather_lms_suffixes_32s_2k_run(
    t: Seq<int>,
    sa: Seq<i32>,
    n: int,
    len: nat,
    start: int,
    size: int,
) -> Option<(Seq<i32>, Seq<i32>, isize, bool)> {
    let last = start + size - 1;
    if size <= 0 {
        Some((sa, zeros(len), last as isize, false))
    } else {
        lms_scan_run(
            t, count_and_gather_lms_suffixes_32s_2k_mode(), (sa, zeros(len), last as isize, run_type(t, n, last)), start - 1, last)
    }
}

/// Counts the symbols of a block, LMS suffixes apart, and gathers these at its end; `None` where a slot is out of range.
pub(crate) fn try_count_and_gather_lms_suffixes_32s_2k(
    t: &[SaSint],
    sa: &mut [SaSint],
    n: SaSint,
    buckets: &mut [SaSint],
    omp_block_start: FastSint,
    omp_block_size: FastSint,
) -> (r: Option<SaSint>)
    requires
        omp_block_size > 0 ==> 0 <= n <= t.len() && 0 <= omp_block_start
            && omp_block_start + omp_block_size <= t.len() <= isize::MAX,
        omp_block_size <= 0 ==> isize::MIN < omp_block_start + omp_block_size <= isize::MAX,
    ensures
        ({
            let x = count_and_gather_lms_suffixes_32s_2k_run(text32(t@), old(sa)@, n as int,
                old(buckets).len() as nat, omp_block_start as int, omp_block_size as int);
            &&& r is Some == (x is Some && omp_block_start + omp_block_size - 1 - x.unwrap().2 <= i32::MAX)
            &&& r is Some ==> final(sa)@ == x.unwrap().0 && final(buckets)@ == x.unwrap().1
                && r->0 == omp_block_start + omp_block_size - 1 - x.unwrap().2
        }),
        final(sa).len() == old(sa).len(),
        final(buckets).len() == old(buckets).len(),
{
    clear(buckets);
    if omp_block_size <= 0 {
        return Some(0);
    }
    let mode: LmsMode = LmsMode { gather: true, lanes: 2, compact: false, closed: false };
    let last: FastSint = omp_block_start + (omp_block_size - 1);
    let mut m: FastSint = last;
    let mut f: bool = run_type_32s(t, n as usize, last as usize);
    let ghost f0 = f;
    let ok: bool = try_lms_scan_32s(t, mode, sa, buckets, &mut m, &mut f, omp_block_start - 1, last);
    if !ok {
        return None;
    }
    proof {
        lemma_lms_slot(text32(t@), mode, (old(sa)@, zeros(old(buckets).len() as nat), last, f0), omp_block_start - 1, last as int);
    }
    if (last - m) as i64 > 0x7fff_ffff {
        return None;
    }
    Some((last - m) as SaSint)
}

/// Counts the symbols of a block, LMS suffixes apart, and gathers these at its end. Returns how many
/// suffixes were gathered.
pub fn count_and_gather_lms_suffixes_32s_2k(
    t: &[SaSint],
    sa: &mut [SaSint],
    n: SaSint,
    k: SaSint,
    buckets: &mut [SaSint],
    omp_block_start: FastSint,
    omp_block_size: FastSint,
) -> (r: SaSint)
    requires
        omp_block_size > 0 ==> 0 <= n <= t.len() && 0 <= omp_block_start
            && omp_block_start + omp_block_size <= t.len() <= isize::MAX,
        omp_block_size <= 0 ==> isize::MIN < omp_block_start + omp_block_size <= isize::MAX,
        0 <= k,
        ({
            let x = count_and_gather_lms_suffixes_32s_2k_run(text32(t@), old(sa)@, n as int,
                old(buckets).len() as nat, omp_block_start as int, omp_block_size as int);
            x is Some && omp_block_start + omp_block_size - 1 - x.unwrap().2 <= i32::MAX
        }),
    ensures
        ({
            let x = count_and_gather_lms_suffixes_32s_2k_run(text32(t@), old(sa)@, n as int,
                old(buckets).len() as nat, omp_block_start as int, omp_block_size as int)->0;
            final(sa)@ == x.0 && final(buckets)@ == x.1
                && r == omp_block_start + omp_block_size - 1 - x.2
        }),
{
    match try_count_and_gather_lms_suffixes_32s_2k(t, sa, n, buckets, omp_block_start, omp_block_size) {
        Some(m) => m,
        None => 0,
    }
}

/// The mode of [`count_and_gather_compacted_lms_suffixes_32s_2k`].
pub open spec fn count_and_gather_compacted_lms_suffixes_32s_2k_mode() -> LmsMode {
    LmsMode { gather: true, lanes: 2, compact: true, closed: false }
}

/// What [`count_and_gather_compacted_lms_suffixes_32s_2k`] leaves: the array, the counters, and the slot in front
/// of the gathered suffixes.
pub open spec fn count_and_gather_compacted_lms_suffixes_32s_2k_run(
    t: Seq<int>,
    sa: Seq<i32>,
    n: int,
    len: nat,
    start: int,
    size: int,
) -> Option<(Seq<i32>, Seq<i32>, isize, bool)> {
    let last = start + size - 1;
    if size <= 0 {
        Some((sa, zeros(len), last as isize, false))
    } else {
        lms_scan_run(
            t, count_and_gather_compacted_lms_suffixes_32s_2k_mode(), (sa, zeros(len), last as isize, run_type(t, n, last)), start - 1, last)
    }
}

/// Counts the unmarked symbols of a block and gathers its unmarked LMS suffixes; `None` where a slot is out of range.
pub(crate) fn try_count_and_gather_compacted_lms_suffixes_32s_2k(
    t: &[SaSint],
    sa: &mut [SaSint],
    n: SaSint,
    buckets: &mut [SaSint],
    omp_block_start: FastSint,
    omp_block_size: FastSint,
) -> (r: Option<SaSint>)
    requires
        omp_block_size > 0 ==> 0 <= n <= t.len() && 0 <= omp_block_start
            && omp_block_start + omp_block_size <= t.len() <= isize::MAX,
        omp_block_size <= 0 ==> isize::MIN < omp_block_start + omp_block_size <= isize::MAX,
    ensures
        ({
            let x = count_and_gather_compacted_lms_suffixes_32s_2k_run(text32(t@), old(sa)@, n as int,
                old(buckets).len() as nat, omp_block_start as int, omp_block_size as int);
            &&& r is Some == (x is Some && omp_block_start + omp_block_size - 1 - x.unwrap().2 <= i32::MAX)
            &&& r is Some ==> final(sa)@ == x.unwrap().0 && final(buckets)@ == x.unwrap().1
                && r->0 == omp_block_start + omp_block_size - 1 - x.unwrap().2
        }),
        final(sa).len() == old(sa).len(),
        final(buckets).len() == old(buckets).len(),
{
    clear(buckets);
    if omp_block_size <= 0 {
        return Some(0);
    }
    let mode: LmsMode = LmsMode { gather: true, lanes: 2, compact: true, closed: false };
    let last: FastSint = omp_block_start + (omp_block_size - 1);
    let mut m: FastSint = last;
    let mut f: bool = run_type_32s(t, n as usize, last as usize);
    let ghost f0 = f;
    let ok: bool = try_lms_scan_32s(t, mode, sa, buckets, &mut m, &mut f, omp_block_start - 1, last);
    if !ok {
        return None;
    }
    proof {
        lemma_lms_slot(text32(t@), mode, (old(sa)@, zeros(old(buckets).len() as nat), last, f0), omp_block_start - 1, last as int);
    }
    if (last - m) as i64 > 0x7fff_ffff {
        return None;
    }
    Some((last - m) as SaSint)
}

/// Counts the unmarked symbols of a block and gathers its unmarked LMS suffixes. Returns how many
/// suffixes were gathered.
pub fn count_and_gather_compacted_lms_suffixes_32s_2k(
    t: &[SaSint],
    sa: &mut [SaSint],
    n: SaSint,
    k: SaSint,
    buckets: &mut [SaSint],
    omp_block_start: FastSint,
    omp_block_size: FastSint,
) -> (r: SaSint)
    requires
        omp_block_size > 0 ==> 0 <= n <= t.len() && 0 <= omp_block_start
            && omp_block_start + omp_block_size <= t.len() <= isize::MAX,
        omp_block_size <= 0 ==> isize::MIN < omp_block_start + omp_block_size <= isize::MAX,
        0 <= k,
        ({
            let x = count_and_gather_compacted_lms_suffixes_32s_2k_run(text32(t@), old(sa)@, n as int,
                old(buckets).len() as nat, omp_block_start as int, omp_block_size as int);
            x is Some && omp_block_start + omp_block_size - 1 - x.unwrap().2 <= i32::MAX
        }),
    ensures
        ({
            let x = count_and_gather_compacted_lms_suffixes_32s_2k_run(text32(t@), old(sa)@, n as int,
                old(buckets).len() as nat, omp_block_start as int, omp_block_size as int)->0;
            final(sa)@ == x.0 && final(buckets)@ == x.1
                && r == omp_block_start + omp_block_size - 1 - x.2
        }),
{
    match try_count_and_gather_compacted_lms_suffixes_32s_2k(t, sa, n, buckets, omp_block_start, omp_block_size) {
        Some(m) => m,
        None => 0,
    }
}

} // verus!
