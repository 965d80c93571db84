//! Names for sorted LMS substrings: renumbering, marking the distinct ones, and
//! putting the sorted suffixes back.

use vstd::prelude::*;
use crate::blocks::{block_hi, block_lo, block_range, worker_count, workers};
use crate::fold::{fold_down, fold_up, lemma_fold_down_prefix, lemma_fold_up_prefix};
use crate::gather::{
    clear_range, cleared, gather_lms_suffixes_32s_run, text32, try_gather_lms_suffixes_32s,
};
use crate::marks::{bit, clear_mark, fits, fits_difference, marked, set_mark, unmarked, word_within};
use crate::span::{movable, move_within, moved};
use crate::tallies::{negatives, tallied, tally_negatives};
use crate::types::{FastSint, SaSint, ThreadState, SAINT_MAX};

verus! {

/// Half of the bit pattern of `x`, read without a sign.
pub open spec fn half(x: i32) -> int {
    if x >= 0 {
        x as int / 2
    } else {
        (x + 0x1_0000_0000) / 2
    }
}

/// Computes [`half`].
pub(crate) fn half_of(x: SaSint) -> (r: u64)
    ensures
        r == half(x),
{
    if x >= 0 {
        (x / 2) as u64
    } else {
        ((x as i64 + 0x1_0000_0000) / 2) as u64
    }
}

/// Names the suffix at slot `i`: the name goes to the slot behind the first `m` that half of
/// the suffix selects; a mark opens the next name.
pub open spec fn renumber_lms_step(m: int) -> spec_fn((Seq<i32>, i32), int) -> Option<(Seq<i32>, i32)> {
    |s: (Seq<i32>, i32), i: int|
        {
            let (sa, name) = s;
            let d = unmarked(sa[i]) as int / 2;
            if 0 <= i < m <= sa.len() && m + d < sa.len() && name + bit(sa[i] < 0) <= i32::MAX {
                Some((sa.update(m + d, marked(name, true)), (name + bit(sa[i] < 0)) as i32))
            } else {
                None
            }
        }
}

/// [`renumber_lms_step`] over the positions from `lo` to `hi`, upward.
pub open spec fn renumber_lms_run(m: int, s: (Seq<i32>, i32), lo: int, hi: int) -> Option<(Seq<i32>, i32)> {
    fold_up(renumber_lms_step(m), s, lo, hi)
}

/// Performs one step, or returns `false` where the step is outside its domain.
fn renumber_lms_at(
    m: usize,
    sa: &mut [SaSint],
    name: &mut SaSint,
    i: FastSint,
) -> (ok: bool)
    ensures
        ok == (renumber_lms_step(m as int)((old(sa)@, *old(name)), i as int) is Some),
        ok ==> renumber_lms_step(m as int)((old(sa)@, *old(name)), i as int) == Some((final(sa)@, *final(name))),
        final(sa).len() == old(sa).len(),
{
    if m > sa.len() || !word_within(i, m) {
        return false;
    }
    let p: SaSint = sa[i as usize];
    let d: usize = (clear_mark(p) / 2) as usize;
    if d >= sa.len() - m || (p < 0 && *name == SAINT_MAX) {
        return false;
    }
    sa[m + d] = set_mark(*name, true);
    if p < 0 {
        *name = *name + 1;
    }
    true
}

/// Runs the steps as far as they are defined; `false` where one is not.
pub(crate) fn try_renumber_lms(
    m: usize,
    sa: &mut [SaSint],
    name: &mut SaSint,
    lo: FastSint,
    hi: FastSint,
) -> (ok: bool)
    ensures
        ok == (renumber_lms_run(m as int, (old(sa)@, *old(name)), lo as int, hi as int) is Some),
        ok ==> renumber_lms_run(m as int, (old(sa)@, *old(name)), lo as int, hi as int) == Some((final(sa)@, *final(name))),
        final(sa).len() == old(sa).len(),
{
    let mut i: FastSint = lo;
    let ghost step = renumber_lms_step(m as int);
    let ghost s0 = (sa@, *name);
    while i < hi
        invariant
            lo <= i,
            i <= hi || hi < lo,
            hi < lo ==> i == lo,
            step == renumber_lms_step(m as int),
            s0 == (old(sa)@, *old(name)),
            fold_up(step, s0, lo as int, i as int) == Some((sa@, *name)),
            sa.len() == old(sa).len(),
        decreases hi - i,
    {
        proof {
            lemma_fold_up_prefix(step, s0, lo as int, i + 1, hi as int);
        }
        if !renumber_lms_at(m, sa, name, i) {
            return false;
        }
        i += 1;
    }
    true
}

/// What [`renumber_lms_suffixes_8u`] leaves: the array and the next name.
pub open spec fn renumber_lms_suffixes_8u_run(sa: Seq<i32>, m: int, name: i32, start: int, size: int) -> Option<(Seq<i32>, i32)> {
    if size <= 0 {
        Some((sa, name))
    } else if m < 0 {
        None
    } else {
        match renumber_lms_run(m, (sa, name), start, start + size) {
            Some(x) => Some((x.0, x.1)),
            None => None,
        }
    }
}

/// Names the sorted suffixes of a block, starting with `name`.
///
/// `None` where a slot or a name is out of range.
pub(crate) fn try_renumber_lms_suffixes_8u(
    sa: &mut [SaSint],
    m: SaSint,
    name: SaSint,
    omp_block_start: FastSint,
    omp_block_size: FastSint,
) -> (r: Option<SaSint>)
    requires
        isize::MIN <= omp_block_start + omp_block_size <= isize::MAX,
    ensures
        r is Some == (renumber_lms_suffixes_8u_run(old(sa)@, m as int, name, omp_block_start as int, omp_block_size as int) is Some),
        r is Some ==> renumber_lms_suffixes_8u_run(old(sa)@, m as int, name, omp_block_start as int, omp_block_size as int)
            == Some((final(sa)@, r->0)),
        final(sa).len() == old(sa).len(),
{
    if omp_block_size <= 0 {
        return Some(name);
    }
    if m < 0 {
        return None;
    }
    let mut next: SaSint = name;
    if try_renumber_lms(m as usize, sa, &mut next, omp_block_start, omp_block_start + omp_block_size) {
        Some(next)
    } else {
        None
    }
}

/// Names the sorted suffixes of a block, starting with `name`.
/// Returns the next name.
pub fn renumber_lms_suffixes_8u(
    sa: &mut [SaSint],
    m: SaSint,
    name: SaSint,
    omp_block_start: FastSint,
    omp_block_size: FastSint,
) -> (r: SaSint)
    requires
        isize::MIN <= omp_block_start + omp_block_size <= isize::MAX,
        renumber_lms_suffixes_8u_run(old(sa)@, m as int, name, omp_block_start as int, omp_block_size as int) is Some,
    ensures
        renumber_lms_suffixes_8u_run(old(sa)@, m as int, name, omp_block_start as int, omp_block_size as int) == Some((final(sa)@, r)),
{
    match try_renumber_lms_suffixes_8u(sa, m, name, omp_block_start, omp_block_size) {
        Some(r) => r,
        None => 0,
    }
}

/// The working storage `s` once `k` workers have named the first `m` entries of `sa`: several
/// note how many names open in their blocks.
pub open spec fn naming_storage(s: Seq<ThreadState>, sa: Seq<i32>, m: int, k: int) -> Seq<ThreadState> {
    if k > 1 {
        tallied(s, k, negatives(sa, m, k))
    } else {
        s
    }
}

/// Leaves the working storage as [`naming_storage`] says.
fn note_names(sa: &[SaSint], m: SaSint, k: usize, thread_state: &mut [ThreadState])
    requires
        k > 1 ==> 0 <= m <= sa.len() && k <= old(thread_state).len(),
    ensures
        final(thread_state)@ == naming_storage(old(thread_state)@, sa@, m as int, k as int),
{
    if k > 1 {
        tally_negatives(sa, m, k, thread_state);
    }
}

/// Names the `m` sorted suffixes from zero on and returns how many names there are. The
/// names do not depend on how the suffixes are shared out among workers; several workers note
/// how many names open in their blocks.
pub fn renumber_lms_suffixes_8u_omp(
    sa: &mut [SaSint],
    m: SaSint,
    threads: SaSint,
    thread_state: &mut [ThreadState],
) -> (r: SaSint)
    requires
        m <= old(sa).len(),
        renumber_lms_suffixes_8u_run(old(sa)@, m as int, 0, 0, m as int) is Some,
    ensures
        renumber_lms_suffixes_8u_run(old(sa)@, m as int, 0, 0, m as int) == Some((final(sa)@, r)),
        final(thread_state)@ == naming_storage(
            old(thread_state)@, old(sa)@, m as int, workers(threads as int, m >= 65536, old(thread_state).len() as int)),
{
    let k: usize = worker_count(threads, m >= 65536, thread_state.len());
    note_names(sa, m, k, thread_state);
    renumber_lms_suffixes_8u(sa, m, 0, 0, m as FastSint)
}

/// Moves the entry at slot `i` to the slot in the state where it is marked, without the mark.
pub open spec fn gather_marked_step() -> spec_fn((Seq<i32>, isize), int) -> Option<(Seq<i32>, isize)> {
    |s: (Seq<i32>, isize), i: int|
        {
            let (sa, l) = s;
            if 0 <= i < sa.len() && 0 <= l < sa.len() {
                Some((sa.update(l as int, unmarked(sa[i])), (l - bit(sa[i] < 0)) as isize))
            } else {
                None
            }
        }
}

/// [`gather_marked_step`] over the positions from `lo` to `hi`, downward.
pub open spec fn gather_marked_run(s: (Seq<i32>, isize), lo: int, hi: int) -> Option<(Seq<i32>, isize)> {
    fold_down(gather_marked_step(), s, lo, hi)
}

/// Performs one step, or returns `false` where the step is outside its domain.
fn gather_marked_at(
    sa: &mut [SaSint],
    l: &mut FastSint,
    i: FastSint,
) -> (ok: bool)
    ensures
        ok == (gather_marked_step()((old(sa)@, *old(l)), i as int) is Some),
        ok ==> gather_marked_step()((old(sa)@, *old(l)), i as int) == Some((final(sa)@, *final(l))),
        final(sa).len() == old(sa).len(),
{
    if !word_within(i, sa.len()) || !word_within(*l, sa.len()) {
        return false;
    }
    let s: SaSint = sa[i as usize];
    sa[*l as usize] = clear_mark(s);
    if s < 0 {
        *l = *l - 1;
    }
    true
}

/// Runs the steps as far as they are defined; `false` where one is not.
pub(crate) fn try_gather_marked(
    sa: &mut [SaSint],
    l: &mut FastSint,
    lo: FastSint,
    hi: FastSint,
) -> (ok: bool)
    ensures
        ok == (gather_marked_run((old(sa)@, *old(l)), lo as int, hi as int) is Some),
        ok ==> gather_marked_run((old(sa)@, *old(l)), lo as int, hi as int) == Some((final(sa)@, *final(l))),
        final(sa).len() == old(sa).len(),
{
    if hi <= lo {
        return true;
    }
    let mut i: FastSint = hi;
    let ghost step = gather_marked_step();
    let ghost s0 = (sa@, *l);
    while i > lo
        invariant
            lo <= i <= hi,
            step == gather_marked_step(),
            s0 == (old(sa)@, *old(l)),
            fold_down(step, s0, i as int, hi as int) == Some((sa@, *l)),
            sa.len() == old(sa).len(),
        decreases i - lo,
    {
        proof {
            lemma_fold_down_prefix(step, s0, lo as int, i - 1, hi as int);
        }
        i -= 1;
        if !gather_marked_at(sa, l, i) {
            return false;
        }
    }
    true
}

/// What [`gather_marked_lms_suffixes`] leaves: the array and the first slot of what it gathered.
pub open spec fn gather_marked_lms_suffixes_run(
    sa: Seq<i32>,
    m: int,
    l: int,
    start: int,
    size: int,
) -> Option<(Seq<i32>, isize)> {
    if size <= 0 {
        Some((sa, l as isize))
    } else if !(isize::MIN < l && isize::MIN <= m + start && m + start + size <= isize::MAX) {
        None
    } else {
        match gather_marked_run((sa, (l - 1) as isize), m + start, m + start + size) {
            Some(x) => Some((x.0, (x.1 + 1) as isize)),
            None => None,
        }
    }
}

/// Gathers the marked entries of a block behind the first `m`, in order, so that they end
/// in front of slot `l`.
///
/// `None` where a slot is out of range.
pub(crate) fn try_gather_marked_lms_suffixes(
    sa: &mut [SaSint],
    m: SaSint,
    l: FastSint,
    omp_block_start: FastSint,
    omp_block_size: FastSint,
) -> (r: Option<FastSint>)
    requires
        isize::MIN <= omp_block_start + omp_block_size <= isize::MAX,
    ensures
        r is Some == (gather_marked_lms_suffixes_run(
            old(sa)@, m as int, l as int, omp_block_start as int, omp_block_size as int) is Some),
        r is Some ==> gather_marked_lms_suffixes_run(
            old(sa)@, m as int, l as int, omp_block_start as int, omp_block_size as int) == Some((final(sa)@, r->0)),
        final(sa).len() == old(sa).len(),
{
    if omp_block_size <= 0 {
        return Some(l);
    }
    if l == isize::MIN {
        return None;
    }
    let lo: FastSint = match (m as FastSint).checked_add(omp_block_start) {
        Some(v) => v,
        None => return None,
    };
    let hi: FastSint = match lo.checked_add(omp_block_size) {
        Some(v) => v,
        None => return None,
    };
    let mut slot: FastSint = l - 1;
    if !try_gather_marked(sa, &mut slot, lo, hi) {
        return None;
    }
    proof {
        lemma_gather_marked_slot((old(sa)@, (l - 1) as isize), lo as int, hi as int);
    }
    Some(slot + 1)
}

/// The slot of a gathering pass only moves down.
proof fn lemma_gather_marked_slot(s: (Seq<i32>, isize), lo: int, hi: int)
    ensures
        gather_marked_run(s, lo, hi) matches Some(x) ==> x.1 <= s.1,
    decreases hi - lo,
{
    if lo < hi {
        lemma_gather_marked_slot(s, lo + 1, hi);
    }
}

/// Gathers the marked entries of a block behind the first `m`, in order, so that they end
/// in front of slot `l`. Returns the slot of the first.
pub fn gather_marked_lms_suffixes(
    sa: &mut [SaSint],
    m: SaSint,
    l: FastSint,
    omp_block_start: FastSint,
    omp_block_size: FastSint,
) -> (r: FastSint)
    requires
        isize::MIN <= omp_block_start + omp_block_size <= isize::MAX,
        gather_marked_lms_suffixes_run(
            old(sa)@, m as int, l as int, omp_block_start as int, omp_block_size as int) is Some,
    ensures
        gather_marked_lms_suffixes_run(
            old(sa)@, m as int, l as int, omp_block_start as int, omp_block_size as int) == Some((final(sa)@, r)),
{
    match try_gather_marked_lms_suffixes(sa, m, l, omp_block_start, omp_block_size) {
        Some(r) => r,
        None => 0,
    }
}

/// Where the entries that worker `w` of `workers` gathers end.
pub open spec fn gather_marked_end(n: int, m: int, fs: int, workers: int, w: int) -> int {
    if w + 1 < workers {
        m + block_hi(n / 2, workers, w)
    } else {
        n + fs
    }
}

/// Worker `w` of `workers` gathers the marked entries of its block at the end of the block, the
/// last worker at the end of the `n + fs` slots, and notes the slot of the first and how many
/// there are.
pub open spec fn gather_marked_part_step(n: int, m: int, fs: int, workers: int) -> spec_fn((Seq<i32>, Seq<ThreadState>), int) -> Option<(Seq<i32>, Seq<ThreadState>)> {
    |s: (Seq<i32>, Seq<ThreadState>), w: int|
        {
            let lo = block_lo(n / 2, workers, w);
            let hi = block_hi(n / 2, workers, w);
            let end = gather_marked_end(n, m, fs, workers, w);
            match gather_marked_lms_suffixes_run(s.0, m, end, lo, hi - lo) {
                Some(x) => if end <= isize::MAX && end - x.1 <= isize::MAX && 0 <= w < s.1.len() {
                    Some((x.0, s.1.update(w, ThreadState { position: x.1, count: (end - x.1) as isize, ..s.1[w] })))
                } else {
                    None
                },
                None => None,
            }
        }
}

/// Copies what worker `w` gathered in front of the slot in the state, unless it is the last.
pub open spec fn gather_marked_join_step(ts: Seq<ThreadState>, workers: int) -> spec_fn((Seq<i32>, isize), int) -> Option<(Seq<i32>, isize)> {
    |s: (Seq<i32>, isize), w: int|
        {
            let count = ts[w].count as int;
            let dst = s.1 - count;
            if !(isize::MIN <= dst <= isize::MAX && 0 <= w < ts.len()) {
                None
            } else if w + 1 == workers || count <= 0 {
                Some((s.0, dst as isize))
            } else if movable(s.0.len() as int, ts[w].position as int, count, dst) {
                Some((moved(s.0, ts[w].position as int, count, dst), dst as isize))
            } else {
                None
            }
        }
}

/// What [`gather_marked_lms_suffixes_omp`] leaves: the array and the working storage.
pub open spec fn gather_marked_shared(
    sa: Seq<i32>,
    ts: Seq<ThreadState>,
    n: int,
    m: int,
    fs: int,
    workers: int,
) -> Option<(Seq<i32>, Seq<ThreadState>)> {
    if workers <= 1 {
        match gather_marked_lms_suffixes_run(sa, m, n + fs, 0, n / 2) {
            Some(x) => Some((x.0, ts)),
            None => None,
        }
    } else {
        match fold_up(gather_marked_part_step(n, m, fs, workers), (sa, ts), 0, workers) {
            Some(x) => match fold_down(gather_marked_join_step(x.1, workers), (x.0, (n + fs) as isize), 0, workers) {
                Some(y) => Some((y.0, x.1)),
                None => None,
            },
            None => None,
        }
    }
}

/// Gathers the marked entries in the blocks of the workers.
fn gather_marked_parts(
    sa: &mut [SaSint],
    n: SaSint,
    m: SaSint,
    fs: SaSint,
    workers: usize,
    thread_state: &mut [ThreadState],
)
    requires
        0 <= n,
        0 <= fs,
        n + fs <= isize::MAX,
        workers <= old(thread_state).len(),
        workers <= isize::MAX,
        fold_up(gather_marked_part_step(n as int, m as int, fs as int, workers as int),
            (old(sa)@, old(thread_state)@), 0, workers as int) is Some,
    ensures
        fold_up(gather_marked_part_step(n as int, m as int, fs as int, workers as int),
            (old(sa)@, old(thread_state)@), 0, workers as int) == Some((final(sa)@, final(thread_state)@)),
        final(thread_state).len() == old(thread_state).len(),
{
    let ghost step = gather_marked_part_step(n as int, m as int, fs as int, workers as int);
    let ghost s0 = (sa@, thread_state@);
    let mut w: usize = 0;
    while w < workers
        invariant
            0 <= n,
            0 <= fs,
            n + fs <= isize::MAX,
            w <= workers <= thread_state.len(),
            workers <= isize::MAX,
            thread_state.len() == old(thread_state).len(),
            step == gather_marked_part_step(n as int, m as int, fs as int, workers as int),
            fold_up(step, s0, 0, workers as int) is Some,
            fold_up(step, s0, 0, w as int) == Some((sa@, thread_state@)),
        decreases workers - w,
    {
        proof {
            lemma_fold_up_prefix(step, s0, 0, w + 1, workers as int);
        }
        let (lo, hi) = block_range((n / 2) as usize, workers, w);
        let end: FastSint = if w + 1 < workers { m as FastSint + hi as FastSint } else { n as FastSint + fs as FastSint };
        let position: FastSint = gather_marked_lms_suffixes(sa, m, end, lo as FastSint, (hi - lo) as FastSint);
        thread_state[w].position = position;
        thread_state[w].count = end - position;
        w += 1;
    }
}

/// Brings together what the workers gathered.
fn gather_marked_join(sa: &mut [SaSint], end: FastSint, workers: usize, thread_state: &[ThreadState])
    requires
        workers <= thread_state.len(),
        workers <= isize::MAX,
        fold_down(gather_marked_join_step(thread_state@, workers as int), (old(sa)@, end), 0, workers as int) is Some,
    ensures
        fold_down(gather_marked_join_step(thread_state@, workers as int), (old(sa)@, end), 0, workers as int)
            .unwrap().0 == final(sa)@,
{
    let ghost step = gather_marked_join_step(thread_state@, workers as int);
    let ghost s0 = (sa@, end);
    let mut position: FastSint = end;
    let mut w: usize = workers;
    while w > 0
        invariant
            w <= workers <= thread_state.len(),
            workers <= isize::MAX,
            step == gather_marked_join_step(thread_state@, workers as int),
            fold_down(step, s0, 0, workers as int) is Some,
            fold_down(step, s0, w as int, workers as int) == Some((sa@, position)),
        decreases w,
    {
        proof {
            lemma_fold_down_prefix(step, s0, 0, w - 1, workers as int);
        }
        w -= 1;
        let count: FastSint = thread_state[w].count;
        position = position - count;
        if w + 1 != workers && count > 0 {
            move_within(sa, thread_state[w].position as usize, count as usize, position as usize);
        }
    }
}

/// Gathers the marked entries among the `n / 2` behind the first `m` at the end of the
/// `n + fs` slots. Several workers gather in blocks of their own first and note what they
/// gathered.
pub fn gather_marked_lms_suffixes_omp(
    sa: &mut [SaSint],
    n: SaSint,
    m: SaSint,
    fs: SaSint,
    threads: SaSint,
    thread_state: &mut [ThreadState],
)
    requires
        0 <= n,
        0 <= fs,
        n + fs <= isize::MAX,
        gather_marked_shared(old(sa)@, old(thread_state)@, n as int, m as int, fs as int,
            workers(threads as int, n >= 131072, old(thread_state).len() as int)) is Some,
    ensures
        gather_marked_shared(old(sa)@, old(thread_state)@, n as int, m as int, fs as int,
            workers(threads as int, n >= 131072, old(thread_state).len() as int))
            == Some((final(sa)@, final(thread_state)@)),
{
    let end: FastSint = n as FastSint + fs as FastSint;
    let k: usize = worker_count(threads, n >= 131072, thread_state.len());
    if k == 1 {
        let _l: FastSint = gather_marked_lms_suffixes(sa, m, end, 0, (n / 2) as FastSint);
    } else {
        gather_marked_parts(sa, n, m, fs, k, thread_state);
        gather_marked_join(sa, end, k, thread_state);
    }
}

/// The first `m` entries without their marks.
pub open spec fn unmarked_prefix(s: Seq<i32>, m: int) -> Seq<i32> {
    Seq::new(s.len(), |i: int| if i < m { unmarked(s[i]) } else { s[i] })
}

/// Clears the marks of the first `m` entries.
pub(crate) fn clear_marks(sa: &mut [SaSint], m: usize)
    requires
        m <= old(sa).len(),
    ensures
        final(sa)@ == unmarked_prefix(old(sa)@, m as int),
{
    let mut i: usize = 0;
    while i < m
        invariant
            i <= m <= sa.len(),
            sa@ =~= unmarked_prefix(old(sa)@, i as int),
        decreases m - i,
    {
        sa[i] = clear_mark(sa[i]);
        i += 1;
    }
}

/// What [`renumber_and_gather_lms_suffixes_omp`] leaves: the array and the number of names.
pub open spec fn renumber_and_gather_run(sa: Seq<i32>, n: int, m: int, fs: int) -> Option<(Seq<i32>, i32)> {
    if !(0 <= n && 0 <= m && 0 <= fs && m + n / 2 <= sa.len() && n + fs <= isize::MAX) {
        None
    } else {
        match renumber_lms_suffixes_8u_run(cleared(sa, m, m + n / 2), m, 0, 0, m) {
            Some(x) => if x.1 < m {
                match gather_marked_lms_suffixes_run(x.0, m, n + fs, 0, n / 2) {
                    Some(y) => Some((y.0, x.1)),
                    None => None,
                }
            } else {
                Some((unmarked_prefix(x.0, m), x.1))
            },
            None => None,
        }
    }
}

/// Names the `m` sorted suffixes; where some share a name, gathers the names in text order
/// at the end of the `n + fs` slots.
///
/// `None` where a slot is out of range.
pub(crate) fn try_renumber_and_gather_lms_suffixes(sa: &mut [SaSint], n: SaSint, m: SaSint, fs: SaSint) -> (r: Option<SaSint>)
    ensures
        r is Some == (renumber_and_gather_run(old(sa)@, n as int, m as int, fs as int) is Some),
        r is Some ==> renumber_and_gather_run(old(sa)@, n as int, m as int, fs as int) == Some((final(sa)@, r->0)),
        final(sa).len() == old(sa).len(),
{
    if n < 0 || m < 0 || fs < 0 || m as u64 + (n / 2) as u64 > sa.len() as u64 {
        return None;
    }
    let end: FastSint = match (n as FastSint).checked_add(fs as FastSint) {
        Some(v) => v,
        None => return None,
    };
    clear_range(sa, m as usize, m as usize + (n / 2) as usize);
    let ghost s1 = sa@;
    let name: SaSint = match try_renumber_lms_suffixes_8u(sa, m, 0, 0, m as FastSint) {
        Some(v) => v,
        None => return None,
    };
    if name < m {
        match try_gather_marked_lms_suffixes(sa, m, end, 0, (n / 2) as FastSint) {
            Some(_) => {},
            None => return None,
        }
    } else {
        clear_marks(sa, m as usize);
    }
    Some(name)
}

/// What [`renumber_and_gather_lms_suffixes_omp`] leaves: the array, the working storage, and
/// the number of names.
pub open spec fn renumber_and_gather_shared(
    sa: Seq<i32>,
    ts: Seq<ThreadState>,
    n: int,
    m: int,
    fs: int,
    naming_workers: int,
    gathering_workers: int,
) -> Option<(Seq<i32>, Seq<ThreadState>, i32)> {
    if !(0 <= n && 0 <= m && 0 <= fs && m + n / 2 <= sa.len() && n + fs <= isize::MAX) {
        None
    } else {
        let s = cleared(sa, m, m + n / 2);
        let named = naming_storage(ts, s, m, naming_workers);
        match renumber_lms_suffixes_8u_run(s, m, 0, 0, m) {
            Some(x) => if x.1 < m {
                match gather_marked_shared(x.0, named, n, m, fs, gathering_workers) {
                    Some(y) => Some((y.0, y.1, x.1)),
                    None => None,
                }
            } else {
                Some((unmarked_prefix(x.0, m), named, x.1))
            },
            None => None,
        }
    }
}

/// One worker leaves what [`renumber_and_gather_run`] says, and the working storage as it was.
pub proof fn law_renumber_and_gather_alone(sa: Seq<i32>, ts: Seq<ThreadState>, n: int, m: int, fs: int)
    ensures
        renumber_and_gather_shared(sa, ts, n, m, fs, 1, 1) == match renumber_and_gather_run(sa, n, m, fs) {
            Some(x) => Some((x.0, ts, x.1)),
            None => None,
        },
{
}

/// Names the `m` sorted suffixes; where some share a name, gathers the names in text order
/// at the end of the `n + fs` slots, and otherwise clears the marks. Returns the number of
/// names.
pub fn renumber_and_gather_lms_suffixes_omp(
    sa: &mut [SaSint],
    n: SaSint,
    m: SaSint,
    fs: SaSint,
    threads: SaSint,
    thread_state: &mut [ThreadState],
) -> (r: SaSint)
    requires
        renumber_and_gather_shared(old(sa)@, old(thread_state)@, n as int, m as int, fs as int,
            workers(threads as int, m >= 65536, old(thread_state).len() as int),
            workers(threads as int, n >= 131072, old(thread_state).len() as int)) is Some,
    ensures
        renumber_and_gather_shared(old(sa)@, old(thread_state)@, n as int, m as int, fs as int,
            workers(threads as int, m >= 65536, old(thread_state).len() as int),
            workers(threads as int, n >= 131072, old(thread_state).len() as int))
            == Some((final(sa)@, final(thread_state)@, r)),
{
    clear_range(sa, m as usize, m as usize + (n / 2) as usize);
    let name: SaSint = renumber_lms_suffixes_8u_omp(sa, m, threads, thread_state);
    if name < m {
        gather_marked_lms_suffixes_omp(sa, n, m, fs, threads, thread_state);
    } else {
        clear_marks(sa, m as usize);
    }
    name
}

/// Names the suffix at slot `i`, with a mark where neither it nor the suffix before it shares
/// its name.
pub open spec fn renumber_distinct_step(m: int) -> spec_fn((Seq<i32>, i32, i32), int) -> Option<(Seq<i32>, i32, i32)> {
    |s: (Seq<i32>, i32, i32), i: int|
        {
            let (sa, name, previous) = s;
            let p = sa[i];
            let q = unmarked(p);
            let d = q as int / 2;
            if 0 <= i < m <= sa.len() && m + d < sa.len() && name + bit(p < 0) <= i32::MAX {
                Some((
                    sa.update(i, q).update(m + d, marked(name, p < 0 && previous < 0)),
                    (name + bit(p < 0)) as i32,
                    p,
                ))
            } else {
                None
            }
        }
}

/// [`renumber_distinct_step`] over the positions from `lo` to `hi`, upward.
pub open spec fn renumber_distinct_run(m: int, s: (Seq<i32>, i32, i32), lo: int, hi: int) -> Option<(Seq<i32>, i32, i32)> {
    fold_up(renumber_distinct_step(m), s, lo, hi)
}

/// Performs one step, or returns `false` where the step is outside its domain.
fn renumber_distinct_at(
    m: usize,
    sa: &mut [SaSint],
    name: &mut SaSint,
    previous: &mut SaSint,
    i: FastSint,
) -> (ok: bool)
    ensures
        ok == (renumber_distinct_step(m as int)((old(sa)@, *old(name), *old(previous)), i as int) is Some),
        ok ==> renumber_distinct_step(m as int)((old(sa)@, *old(name), *old(previous)), i as int) == Some((final(sa)@, *final(name), *final(previous))),
        final(sa).len() == old(sa).len(),
{
    if m > sa.len() || !word_within(i, m) {
        return false;
    }
    let p: SaSint = sa[i as usize];
    let q: SaSint = clear_mark(p);
    let d: usize = (q / 2) as usize;
    if d >= sa.len() - m || (p < 0 && *name == SAINT_MAX) {
        return false;
    }
    sa[i as usize] = q;
    sa[m + d] = set_mark(*name, p < 0 && *previous < 0);
    if p < 0 {
        *name = *name + 1;
    }
    *previous = p;
    true
}

/// Runs the steps as far as they are defined; `false` where one is not.
pub(crate) fn try_renumber_distinct(
    m: usize,
    sa: &mut [SaSint],
    name: &mut SaSint,
    previous: &mut SaSint,
    lo: FastSint,
    hi: FastSint,
) -> (ok: bool)
    ensures
        ok == (renumber_distinct_run(m as int, (old(sa)@, *old(name), *old(previous)), lo as int, hi as int) is Some),
        ok ==> renumber_distinct_run(m as int, (old(sa)@, *old(name), *old(previous)), lo as int, hi as int) == Some((final(sa)@, *final(name), *final(previous))),
        final(sa).len() == old(sa).len(),
{
    let mut i: FastSint = lo;
    let ghost step = renumber_distinct_step(m as int);
    let ghost s0 = (sa@, *name, *previous);
    while i < hi
        invariant
            lo <= i,
            i <= hi || hi < lo,
            hi < lo ==> i == lo,
            step == renumber_distinct_step(m as int),
            s0 == (old(sa)@, *old(name), *old(previous)),
            fold_up(step, s0, lo as int, i as int) == Some((sa@, *name, *previous)),
            sa.len() == old(sa).len(),
        decreases hi - i,
    {
        proof {
            lemma_fold_up_prefix(step, s0, lo as int, i + 1, hi as int);
        }
        if !renumber_distinct_at(m, sa, name, previous, i) {
            return false;
        }
        i += 1;
    }
    true
}

/// What [`renumber_distinct_lms_suffixes_32s_4k`] leaves: the array and the next name.
pub open spec fn renumber_distinct_lms_suffixes_32s_4k_run(sa: Seq<i32>, m: int, name: i32, start: int, size: int) -> Option<(Seq<i32>, i32)> {
    if size <= 0 {
        Some((sa, name))
    } else if m < 0 {
        None
    } else {
        match renumber_distinct_run(m, (sa, name, 0), start, start + size) {
            Some(x) => Some((x.0, x.1)),
            None => None,
        }
    }
}

/// Names the sorted suffixes of a block, starting with `name`, and marks the names that stand
/// alone.
///
/// `None` where a slot or a name is out of range.
pub(crate) fn try_renumber_distinct_lms_suffixes_32s_4k(
    sa: &mut [SaSint],
    m: SaSint,
    name: SaSint,
    omp_block_start: FastSint,
    omp_block_size: FastSint,
) -> (r: Option<SaSint>)
    requires
        isize::MIN <= omp_block_start + omp_block_size <= isize::MAX,
    ensures
        r is Some == (renumber_distinct_lms_suffixes_32s_4k_run(old(sa)@, m as int, name, omp_block_start as int, omp_block_size as int) is Some),
        r is Some ==> renumber_distinct_lms_suffixes_32s_4k_run(old(sa)@, m as int, name, omp_block_start as int, omp_block_size as int)
            == Some((final(sa)@, r->0)),
        final(sa).len() == old(sa).len(),
{
    if omp_block_size <= 0 {
        return Some(name);
    }
    if m < 0 {
        return None;
    }
    let mut next: SaSint = name;
    let mut previous: SaSint = 0;
    if try_renumber_distinct(m as usize, sa, &mut next, &mut previous, omp_block_start, omp_block_start + omp_block_size) {
        Some(next)
    } else {
        None
    }
}

/// Names the sorted suffixes of a block, starting with `name`, and marks the names that stand
/// alone.
/// Returns the next name.
pub fn renumber_distinct_lms_suffixes_32s_4k(
    sa: &mut [SaSint],
    m: SaSint,
    name: SaSint,
    omp_block_start: FastSint,
    omp_block_size: FastSint,
) -> (r: SaSint)
    requires
        isize::MIN <= omp_block_start + omp_block_size <= isize::MAX,
        renumber_distinct_lms_suffixes_32s_4k_run(old(sa)@, m as int, name, omp_block_start as int, omp_block_size as int) is Some,
    ensures
        renumber_distinct_lms_suffixes_32s_4k_run(old(sa)@, m as int, name, omp_block_start as int, omp_block_size as int) == Some((final(sa)@, r)),
{
    match try_renumber_distinct_lms_suffixes_32s_4k(sa, m, name, omp_block_start, omp_block_size) {
        Some(r) => r,
        None => 0,
    }
}

/// Names the sorted suffixes of block `i` of `workers`.
pub open spec fn renumber_distinct_block_step(m: int, workers: int) -> spec_fn((Seq<i32>, i32), int) -> Option<(Seq<i32>, i32)> {
    |s: (Seq<i32>, i32), i: int|
        {
            let (sa, name) = s;
            if 0 <= m && 0 <= i < workers {
                renumber_distinct_lms_suffixes_32s_4k_run(
                    sa, m, name, block_lo(m, workers, i), block_hi(m, workers, i) - block_lo(m, workers, i))
            } else {
                None
            }
        }
}

/// [`renumber_distinct_block_step`] over the positions from `lo` to `hi`, upward.
pub open spec fn renumber_distinct_block_run(m: int, workers: int, s: (Seq<i32>, i32), lo: int, hi: int) -> Option<(Seq<i32>, i32)> {
    fold_up(renumber_distinct_block_step(m, workers), s, lo, hi)
}

/// Performs one step, or returns `false` where the step is outside its domain.
fn renumber_distinct_block_at(
    m: SaSint,
    workers: usize,
    sa: &mut [SaSint],
    name: &mut SaSint,
    i: FastSint,
) -> (ok: bool)
    ensures
        ok == (renumber_distinct_block_step(m as int, workers as int)((old(sa)@, *old(name)), i as int) is Some),
        ok ==> renumber_distinct_block_step(m as int, workers as int)((old(sa)@, *old(name)), i as int) == Some((final(sa)@, *final(name))),
        final(sa).len() == old(sa).len(),
{
    if m < 0 || i < 0 || i as usize >= workers {
        return false;
    }
    let (lo, hi) = block_range(m as usize, workers, i as usize);
    match try_renumber_distinct_lms_suffixes_32s_4k(sa, m, *name, lo as FastSint, (hi - lo) as FastSint) {
        Some(v) => {
            *name = v;
            true
        },
        None => false,
    }
}

/// Runs the steps as far as they are defined; `false` where one is not.
pub(crate) fn try_renumber_distinct_block(
    m: SaSint,
    workers: usize,
    sa: &mut [SaSint],
    name: &mut SaSint,
    lo: FastSint,
    hi: FastSint,
) -> (ok: bool)
    ensures
        ok == (renumber_distinct_block_run(m as int, workers as int, (old(sa)@, *old(name)), lo as int, hi as int) is Some),
        ok ==> renumber_distinct_block_run(m as int, workers as int, (old(sa)@, *old(name)), lo as int, hi as int) == Some((final(sa)@, *final(name))),
        final(sa).len() == old(sa).len(),
{
    let mut i: FastSint = lo;
    let ghost step = renumber_distinct_block_step(m as int, workers as int);
    let ghost s0 = (sa@, *name);
    while i < hi
        invariant
            lo <= i,
            i <= hi || hi < lo,
            hi < lo ==> i == lo,
            step == renumber_distinct_block_step(m as int, workers as int),
            s0 == (old(sa)@, *old(name)),
            fold_up(step, s0, lo as int, i as int) == Some((sa@, *name)),
            sa.len() == old(sa).len(),
        decreases hi - i,
    {
        proof {
            lemma_fold_up_prefix(step, s0, lo as int, i + 1, hi as int);
        }
        if !renumber_distinct_block_at(m, workers, sa, name, i) {
            return false;
        }
        i += 1;
    }
    true
}

/// What [`renumber_distinct_lms_suffixes_32s_4k_omp`] leaves: the array and one more than
/// the number of names.
pub open spec fn renumber_distinct_run_omp(sa: Seq<i32>, m: int, workers: int) -> Option<(Seq<i32>, i32)> {
    if 0 <= m {
        renumber_distinct_block_run(m, workers, (sa, 1), 0, workers)
    } else {
        None
    }
}

/// Names the `m` sorted suffixes from one on, block by block, and returns how many names
/// there are. Several workers note how many names open in their blocks.
pub fn renumber_distinct_lms_suffixes_32s_4k_omp(
    sa: &mut [SaSint],
    m: SaSint,
    threads: SaSint,
    thread_state: &mut [ThreadState],
) -> (r: SaSint)
    requires
        m <= old(sa).len(),
        renumber_distinct_run_omp(old(sa)@, m as int, workers(threads as int, m >= 65536, old(thread_state).len() as int)) is Some,
    ensures
        renumber_distinct_run_omp(old(sa)@, m as int, workers(threads as int, m >= 65536, old(thread_state).len() as int))
            == Some((final(sa)@, (r + 1) as i32)),
        final(thread_state)@ == naming_storage(
            old(thread_state)@, old(sa)@, m as int, workers(threads as int, m >= 65536, old(thread_state).len() as int)),
{
    let count: usize = worker_count(threads, m >= 65536, thread_state.len());
    note_names(sa, m, count, thread_state);
    let mut name: SaSint = 1;
    let _ok: bool = try_renumber_distinct_block(m, count, sa, &mut name, 0, count as FastSint);
    proof {
        lemma_renumber_distinct_names(m as int, count as int, (old(sa)@, 1), 0, count as int);
    }
    name - 1
}

/// Names only grow.
proof fn lemma_renumber_distinct_step(m: int, s: (Seq<i32>, i32, i32), lo: int, hi: int)
    ensures
        renumber_distinct_run(m, s, lo, hi) matches Some(x) ==> x.1 >= s.1,
    decreases hi - lo,
{
    if lo < hi {
        lemma_renumber_distinct_step(m, s, lo, hi - 1);
    }
}

/// Names only grow from block to block.
proof fn lemma_renumber_distinct_names(m: int, workers: int, s: (Seq<i32>, i32), lo: int, hi: int)
    ensures
        renumber_distinct_block_run(m, workers, s, lo, hi) matches Some(x) ==> x.1 >= s.1,
    decreases hi - lo,
{
    if lo < hi {
        lemma_renumber_distinct_names(m, workers, s, lo, hi - 1);
        if renumber_distinct_block_run(m, workers, s, lo, hi - 1) is Some {
            let x = renumber_distinct_block_run(m, workers, s, lo, hi - 1)->0;
            lemma_renumber_distinct_step(
                m, (x.0, x.1, 0), block_lo(m, workers, hi - 1), block_hi(m, workers, hi - 1));
        }
    }
}

/// Clears the mark of slot `i` unless the last nonzero entry before it is marked.
pub open spec fn mark_distinct_step() -> spec_fn((Seq<i32>, i32), int) -> Option<(Seq<i32>, i32)> {
    |s: (Seq<i32>, i32), i: int|
        {
            let (sa, previous) = s;
            let p = sa[i];
            if 0 <= i < sa.len() {
                Some((
                    sa.update(i, if previous < 0 { p } else { unmarked(p) }),
                    if p == 0 {
                        previous
                    } else {
                        p
                    },
                ))
            } else {
                None
            }
        }
}

/// [`mark_distinct_step`] over the positions from `lo` to `hi`, upward.
pub open spec fn mark_distinct_run(s: (Seq<i32>, i32), lo: int, hi: int) -> Option<(Seq<i32>, i32)> {
    fold_up(mark_distinct_step(), s, lo, hi)
}

/// Performs one step, or returns `false` where the step is outside its domain.
fn mark_distinct_at(
    sa: &mut [SaSint],
    previous: &mut SaSint,
    i: FastSint,
) -> (ok: bool)
    ensures
        ok == (mark_distinct_step()((old(sa)@, *old(previous)), i as int) is Some),
        ok ==> mark_distinct_step()((old(sa)@, *old(previous)), i as int) == Some((final(sa)@, *final(previous))),
        final(sa).len() == old(sa).len(),
{
    if !word_within(i, sa.len()) {
        return false;
    }
    let p: SaSint = sa[i as usize];
    if *previous >= 0 {
        sa[i as usize] = clear_mark(p);
    }
    if p != 0 {
        *previous = p;
    }
    true
}

/// Runs the steps as far as they are defined; `false` where one is not.
pub(crate) fn try_mark_distinct(
    sa: &mut [SaSint],
    previous: &mut SaSint,
    lo: FastSint,
    hi: FastSint,
) -> (ok: bool)
    ensures
        ok == (mark_distinct_run((old(sa)@, *old(previous)), lo as int, hi as int) is Some),
        ok ==> mark_distinct_run((old(sa)@, *old(previous)), lo as int, hi as int) == Some((final(sa)@, *final(previous))),
        final(sa).len() == old(sa).len(),
{
    let mut i: FastSint = lo;
    let ghost step = mark_distinct_step();
    let ghost s0 = (sa@, *previous);
    while i < hi
        invariant
            lo <= i,
            i <= hi || hi < lo,
            hi < lo ==> i == lo,
            step == mark_distinct_step(),
            s0 == (old(sa)@, *old(previous)),
            fold_up(step, s0, lo as int, i as int) == Some((sa@, *previous)),
            sa.len() == old(sa).len(),
        decreases hi - i,
    {
        proof {
            lemma_fold_up_prefix(step, s0, lo as int, i + 1, hi as int);
        }
        if !mark_distinct_at(sa, previous, i) {
            return false;
        }
        i += 1;
    }
    true
}

/// The array after [`mark_distinct_lms_suffixes_32s`].
pub open spec fn mark_distinct_lms_suffixes_32s_run(sa: Seq<i32>, m: int, start: int, size: int) -> Option<Seq<i32>> {
    if size <= 0 {
        Some(sa)
    } else if !(0 <= m && 0 <= start && m + start + size <= sa.len()) {
        None
    } else {
        match mark_distinct_run((sa, 0), m + start, m + start + size) {
            Some(x) => Some(x.0),
            None => None,
        }
    }
}

/// Clears the marks in a block behind the first `m` entries, except where the last nonzero
/// entry before is marked.
///
/// `false` where the block is out of range.
pub(crate) fn try_mark_distinct_lms_suffixes_32s(
    sa: &mut [SaSint],
    m: SaSint,
    omp_block_start: FastSint,
    omp_block_size: FastSint,
) -> (ok: bool)
    requires
        old(sa).len() <= isize::MAX,
    ensures
        ok == (mark_distinct_lms_suffixes_32s_run(old(sa)@, m as int, omp_block_start as int, omp_block_size as int) is Some),
        ok ==> mark_distinct_lms_suffixes_32s_run(old(sa)@, m as int, omp_block_start as int, omp_block_size as int)
            == Some(final(sa)@),
        final(sa).len() == old(sa).len(),
{
    if omp_block_size <= 0 {
        return true;
    }
    if m < 0 || omp_block_start < 0
        || m as u128 + omp_block_start as u128 + omp_block_size as u128 > sa.len() as u128 {
        return false;
    }
    let lo: FastSint = m as FastSint + omp_block_start;
    let mut previous: SaSint = 0;
    try_mark_distinct(sa, &mut previous, lo, lo + omp_block_size)
}

/// Clears the marks in a block behind the first `m` entries, except where the last nonzero
/// entry before is marked.
pub fn mark_distinct_lms_suffixes_32s(
    sa: &mut [SaSint],
    m: SaSint,
    omp_block_start: FastSint,
    omp_block_size: FastSint,
)
    requires
        old(sa).len() <= isize::MAX,
        mark_distinct_lms_suffixes_32s_run(old(sa)@, m as int, omp_block_start as int, omp_block_size as int) is Some,
    ensures
        mark_distinct_lms_suffixes_32s_run(old(sa)@, m as int, omp_block_start as int, omp_block_size as int)
            == Some(final(sa)@),
{
    let _ok: bool = try_mark_distinct_lms_suffixes_32s(sa, m, omp_block_start, omp_block_size);
}

/// Treats block `i` of `workers` among the `size` entries behind the first `m`.
pub open spec fn mark_distinct_block_step(m: int, size: int, workers: int) -> spec_fn(Seq<i32>, int) -> Option<Seq<i32>> {
    |s: Seq<i32>, i: int|
        {
            let sa = s;
            if 0 <= i < workers {
                mark_distinct_lms_suffixes_32s_run(
                    sa, m, block_lo(size, workers, i), block_hi(size, workers, i) - block_lo(size, workers, i))
            } else {
                None
            }
        }
}

/// [`mark_distinct_block_step`] over the positions from `lo` to `hi`, upward.
pub open spec fn mark_distinct_block_run(m: int, size: int, workers: int, s: Seq<i32>, lo: int, hi: int) -> Option<Seq<i32>> {
    fold_up(mark_distinct_block_step(m, size, workers), s, lo, hi)
}

/// Performs one step, or returns `false` where the step is outside its domain.
fn mark_distinct_block_at(
    m: SaSint,
    size: usize,
    workers: usize,
    sa: &mut [SaSint],
    i: FastSint,
) -> (ok: bool)
    requires
        old(sa).len() <= isize::MAX && size <= isize::MAX,
    ensures
        ok == (mark_distinct_block_step(m as int, size as int, workers as int)(old(sa)@, i as int) is Some),
        ok ==> mark_distinct_block_step(m as int, size as int, workers as int)(old(sa)@, i as int) == Some(final(sa)@),
        final(sa).len() == old(sa).len(),
{
    if i < 0 || i as usize >= workers {
        return false;
    }
    let (lo, hi) = block_range(size, workers, i as usize);
    try_mark_distinct_lms_suffixes_32s(sa, m, lo as FastSint, (hi - lo) as FastSint)
}

/// Runs the steps as far as they are defined; `false` where one is not.
pub(crate) fn try_mark_distinct_block(
    m: SaSint,
    size: usize,
    workers: usize,
    sa: &mut [SaSint],
    lo: FastSint,
    hi: FastSint,
) -> (ok: bool)
    requires
        old(sa).len() <= isize::MAX && size <= isize::MAX,
    ensures
        ok == (mark_distinct_block_run(m as int, size as int, workers as int, old(sa)@, lo as int, hi as int) is Some),
        ok ==> mark_distinct_block_run(m as int, size as int, workers as int, old(sa)@, lo as int, hi as int) == Some(final(sa)@),
        final(sa).len() == old(sa).len(),
{
    let mut i: FastSint = lo;
    let ghost step = mark_distinct_block_step(m as int, size as int, workers as int);
    let ghost s0 = sa@;
    while i < hi
        invariant
            lo <= i,
            i <= hi || hi < lo,
            hi < lo ==> i == lo,
            step == mark_distinct_block_step(m as int, size as int, workers as int),
            s0 == old(sa)@,
            old(sa).len() <= isize::MAX && size <= isize::MAX,
            fold_up(step, s0, lo as int, i as int) == Some(sa@),
            sa.len() == old(sa).len(),
        decreases hi - i,
    {
        proof {
            lemma_fold_up_prefix(step, s0, lo as int, i + 1, hi as int);
        }
        if !mark_distinct_block_at(m, size, workers, sa, i) {
            return false;
        }
        i += 1;
    }
    true
}

/// Treats the `n / 2` entries behind the first `m` as [`mark_distinct_lms_suffixes_32s`]
/// does, block by block.
pub(crate) fn try_mark_distinct_lms_suffixes_32s_omp(sa: &mut [SaSint], n: SaSint, m: SaSint, threads: SaSint) -> (ok: bool)
    requires
        old(sa).len() <= isize::MAX,
        0 <= n,
    ensures
        ok == (mark_distinct_block_run(m as int, n as int / 2, workers(threads as int, n >= 131072, threads as int), old(sa)@, 0,
            workers(threads as int, n >= 131072, threads as int)) is Some),
        ok ==> mark_distinct_block_run(m as int, n as int / 2, workers(threads as int, n >= 131072, threads as int), old(sa)@, 0,
            workers(threads as int, n >= 131072, threads as int)) == Some(final(sa)@),
        final(sa).len() == old(sa).len(),
{
    let count: usize = worker_count(threads, n >= 131072, if threads > 0 { threads as usize } else { 0 });
    try_mark_distinct_block(m, (n / 2) as usize, count, sa, 0, count as FastSint)
}

/// Treats the `n / 2` entries behind the first `m` as [`mark_distinct_lms_suffixes_32s`]
/// does, block by block.
pub fn mark_distinct_lms_suffixes_32s_omp(sa: &mut [SaSint], n: SaSint, m: SaSint, threads: SaSint)
    requires
        old(sa).len() <= isize::MAX,
        0 <= n,
        mark_distinct_block_run(m as int, n as int / 2, workers(threads as int, n >= 131072, threads as int), old(sa)@, 0,
            workers(threads as int, n >= 131072, threads as int)) is Some,
    ensures
        mark_distinct_block_run(m as int, n as int / 2, workers(threads as int, n >= 131072, threads as int), old(sa)@, 0,
            workers(threads as int, n >= 131072, threads as int)) == Some(final(sa)@),
{
    let _ok: bool = try_mark_distinct_lms_suffixes_32s_omp(sa, n, m, threads);
}

/// The entries from `lo` up to `hi` without marks, zero where there was none.
pub open spec fn clamped(s: Seq<i32>, lo: int, hi: int) -> Seq<i32> {
    Seq::new(s.len(), |i: int|
        if lo <= i < hi {
            if s[i] < 0 {
                unmarked(s[i])
            } else {
                0
            }
        } else {
            s[i]
        })
}

/// Keeps the marked entries from `lo` up to `hi`, without marks, and clears the others.
fn clamp_range(sa: &mut [SaSint], lo: usize, hi: usize)
    requires
        hi <= old(sa).len(),
    ensures
        final(sa)@ == clamped(old(sa)@, lo as int, hi as int),
{
    let mut i: usize = lo;
    while i < hi
        invariant
            lo <= i,
            i <= hi || i == lo,
            hi <= sa.len(),
            sa@ =~= clamped(old(sa)@, lo as int, i as int),
        decreases hi - i,
    {
        let s: SaSint = sa[i];
        sa[i] = if s < 0 { clear_mark(s) } else { 0 };
        i += 1;
    }
}

/// Keeps the marked entries of a block behind the first `m`, without marks, and clears the
/// others.
pub fn clamp_lms_suffixes_length_32s(
    sa: &mut [SaSint],
    m: SaSint,
    omp_block_start: FastSint,
    omp_block_size: FastSint,
)
    requires
        omp_block_size > 0 ==> 0 <= m && 0 <= omp_block_start && m + omp_block_start + omp_block_size <= old(sa).len(),
    ensures
        omp_block_size <= 0 ==> final(sa)@ == old(sa)@,
        omp_block_size > 0 ==> final(sa)@ == clamped(
            old(sa)@, m + omp_block_start, m + omp_block_start + omp_block_size),
{
    if omp_block_size > 0 {
        let lo: usize = m as usize + omp_block_start as usize;
        clamp_range(sa, lo, lo + omp_block_size as usize);
    }
}

/// Keeps the marked entries among the `n / 2` behind the first `m`, without marks, and
/// clears the others.
pub fn clamp_lms_suffixes_length_32s_omp(sa: &mut [SaSint], n: SaSint, m: SaSint, _threads: SaSint)
    requires
        0 <= n,
        n >= 2 ==> 0 <= m && m + n as int / 2 <= old(sa).len(),
    ensures
        final(sa)@ == clamped(old(sa)@, m as int, m + n as int / 2),
{
    if n >= 2 {
        clamp_range(sa, m as usize, m as usize + (n / 2) as usize);
    } else {
        assert(sa@ =~= clamped(old(sa)@, m as int, m + n as int / 2));
    }
}

/// What [`renumber_and_mark_distinct_lms_suffixes_32s_4k_omp`] leaves: the array and the
/// number of names.
pub open spec fn renumber_and_mark_distinct_4k_run(
    sa: Seq<i32>,
    n: int,
    m: int,
    renumber_workers: int,
    mark_workers: int,
) -> Option<(Seq<i32>, int)> {
    if !(0 <= n && 0 <= m && m + n / 2 <= sa.len()) {
        None
    } else {
        match renumber_distinct_run_omp(cleared(sa, m, m + n / 2), m, renumber_workers) {
            Some(x) => if x.1 - 1 < m {
                match mark_distinct_block_run(m, n / 2, mark_workers, x.0, 0, mark_workers) {
                    Some(y) => Some((y, x.1 - 1)),
                    None => None,
                }
            } else {
                Some((x.0, x.1 - 1))
            },
            None => None,
        }
    }
}

/// Names the `m` sorted suffixes and marks the names that stand alone, with one worker.
///
/// `None` where a slot is out of range.
pub(crate) fn try_renumber_and_mark_distinct_lms_suffixes_32s_4k(sa: &mut [SaSint], n: SaSint, m: SaSint) -> (r: Option<SaSint>)
    requires
        old(sa).len() <= isize::MAX,
    ensures
        r is Some == (renumber_and_mark_distinct_4k_run(old(sa)@, n as int, m as int, 1, 1) is Some),
        r is Some ==> renumber_and_mark_distinct_4k_run(old(sa)@, n as int, m as int, 1, 1) == Some((final(sa)@, r->0 as int)),
        final(sa).len() == old(sa).len(),
{
    renumber_and_mark_4k(sa, n, m, 1, 1)
}

/// Names the `m` sorted suffixes and marks the names that stand alone.
fn renumber_and_mark_4k(
    sa: &mut [SaSint],
    n: SaSint,
    m: SaSint,
    renumber_workers: usize,
    mark_workers: usize,
) -> (r: Option<SaSint>)
    requires
        old(sa).len() <= isize::MAX,
        1 <= renumber_workers <= isize::MAX,
        1 <= mark_workers <= isize::MAX,
    ensures
        r is Some == (renumber_and_mark_distinct_4k_run(
            old(sa)@, n as int, m as int, renumber_workers as int, mark_workers as int) is Some),
        r is Some ==> renumber_and_mark_distinct_4k_run(
            old(sa)@, n as int, m as int, renumber_workers as int, mark_workers as int) == Some((final(sa)@, r->0 as int)),
        final(sa).len() == old(sa).len(),
{
    if n < 0 || m < 0 || m as u64 + (n / 2) as u64 > sa.len() as u64 {
        return None;
    }
    clear_range(sa, m as usize, m as usize + (n / 2) as usize);
    let ghost s1 = sa@;
    let mut name: SaSint = 1;
    if !try_renumber_distinct_block(m, renumber_workers, sa, &mut name, 0, renumber_workers as FastSint) {
        return None;
    }
    proof {
        lemma_renumber_distinct_names(m as int, renumber_workers as int, (s1, 1), 0, renumber_workers as int);
    }
    let names: SaSint = name - 1;
    if names < m {
        if !try_mark_distinct_block(m, (n / 2) as usize, mark_workers, sa, 0, mark_workers as FastSint) {
            return None;
        }
    }
    Some(names)
}

/// Names the `m` sorted suffixes and marks the names that stand alone. Returns how many
/// names there are.
pub fn renumber_and_mark_distinct_lms_suffixes_32s_4k_omp(
    sa: &mut [SaSint],
    n: SaSint,
    m: SaSint,
    threads: SaSint,
    thread_state: &mut [ThreadState],
) -> (r: SaSint)
    requires
        old(sa).len() <= isize::MAX,
        renumber_and_mark_distinct_4k_run(old(sa)@, n as int, m as int,
            workers(threads as int, m >= 65536, old(thread_state).len() as int),
            workers(threads as int, n >= 131072, threads as int)) is Some,
    ensures
        renumber_and_mark_distinct_4k_run(old(sa)@, n as int, m as int,
            workers(threads as int, m >= 65536, old(thread_state).len() as int),
            workers(threads as int, n >= 131072, threads as int)) == Some((final(sa)@, r as int)),
        final(thread_state)@ == naming_storage(
            old(thread_state)@, old(sa)@, m as int, workers(threads as int, m >= 65536, old(thread_state).len() as int)),
{
    let renumber_workers: usize = worker_count(threads, m >= 65536, thread_state.len());
    note_names(sa, m, renumber_workers, thread_state);
    let mark_workers: usize = worker_count(threads, n >= 131072, if threads > 0 { threads as usize } else { 0 });
    match renumber_and_mark_4k(sa, n, m, renumber_workers, mark_workers) {
        Some(r) => r,
        None => 0,
    }
}

/// Writes the length of the LMS substring at slot `i`, marked, to the slot that half of its
/// suffix selects.
pub open spec fn lms_length_step(m: int) -> spec_fn(Seq<i32>, int) -> Option<Seq<i32>> {
    |s: Seq<i32>, i: int|
        {
            let sa = s;
            let d = sa[i + 1] - sa[i];
            let x = m + half(sa[i]);
            if 0 <= i && i + 1 < sa.len() && x < sa.len() && fits(d) && fits(d + 1) && fits(d + 1 - 0x8000_0000) {
                Some(sa.update(x, (d + 1 - 0x8000_0000) as i32))
            } else {
                None
            }
        }
}

/// [`lms_length_step`] over the positions from `lo` to `hi`, upward.
pub open spec fn lms_length_run(m: int, s: Seq<i32>, lo: int, hi: int) -> Option<Seq<i32>> {
    fold_up(lms_length_step(m), s, lo, hi)
}

/// Performs one step, or returns `false` where the step is outside its domain.
fn lms_length_at(
    m: usize,
    sa: &mut [SaSint],
    i: FastSint,
) -> (ok: bool)
    ensures
        ok == (lms_length_step(m as int)(old(sa)@, i as int) is Some),
        ok ==> lms_length_step(m as int)(old(sa)@, i as int) == Some(final(sa)@),
        final(sa).len() == old(sa).len(),
{
    if i < 0 || i as usize >= sa.len() || i as usize + 1 >= sa.len() {
        return false;
    }
    let j: usize = i as usize;
    let x: u64 = half_of(sa[j]);
    if m as u128 + x as u128 >= sa.len() as u128 {
        return false;
    }
    let d: SaSint = match fits_difference(sa[j + 1], sa[j]) {
        Some(v) => v,
        None => return false,
    };
    if d == SAINT_MAX || d < -1 {
        return false;
    }
    sa[m + x as usize] = (d + 1) + SaSint::MIN;
    true
}

/// Runs the steps as far as they are defined; `false` where one is not.
pub(crate) fn try_lms_length(
    m: usize,
    sa: &mut [SaSint],
    lo: FastSint,
    hi: FastSint,
) -> (ok: bool)
    ensures
        ok == (lms_length_run(m as int, old(sa)@, lo as int, hi as int) is Some),
        ok ==> lms_length_run(m as int, old(sa)@, lo as int, hi as int) == Some(final(sa)@),
        final(sa).len() == old(sa).len(),
{
    let mut i: FastSint = lo;
    let ghost step = lms_length_step(m as int);
    let ghost s0 = sa@;
    while i < hi
        invariant
            lo <= i,
            i <= hi || hi < lo,
            hi < lo ==> i == lo,
            step == lms_length_step(m as int),
            s0 == old(sa)@,
            fold_up(step, s0, lo as int, i as int) == Some(sa@),
            sa.len() == old(sa).len(),
        decreases hi - i,
    {
        proof {
            lemma_fold_up_prefix(step, s0, lo as int, i + 1, hi as int);
        }
        if !lms_length_at(m, sa, i) {
            return false;
        }
        i += 1;
    }
    true
}

/// How far the substrings of the text at `p` and `q` agree, at most `max` symbols from `l` on;
/// `None` where the text ends before.
pub open spec fn agreement(t: Seq<i32>, p: int, q: int, l: int, max: int) -> Option<int>
    decreases max - l,
{
    if l >= max {
        Some(l)
    } else if !(0 <= p + l < t.len() && 0 <= q + l < t.len()) {
        None
    } else if t[p + l] != t[q + l] {
        Some(l)
    } else {
        agreement(t, p, q, l + 1, max)
    }
}

/// Determines whether the substrings of length `max` at `p` and `q` differ.
fn substrings_differ(t: &[SaSint], p: usize, q: usize, max: usize) -> (r: Option<bool>)
    requires
        p <= i32::MAX,
        q <= i32::MAX,
        max <= i32::MAX,
    ensures
        r is Some == (agreement(t@, p as int, q as int, 0, max as int) is Some),
        r is Some ==> r->0 == (agreement(t@, p as int, q as int, 0, max as int)->0 < max),
{
    let mut l: usize = 0;
    while l < max
        invariant
            l <= max,
            p <= i32::MAX,
            q <= i32::MAX,
            max <= i32::MAX,
            agreement(t@, p as int, q as int, 0, max as int) == agreement(t@, p as int, q as int, l as int, max as int),
        decreases max - l,
    {
        if p + l >= t.len() || q + l >= t.len() {
            return None;
        }
        if t[p + l] != t[q + l] {
            return Some(true);
        }
        l += 1;
    }
    Some(false)
}

/// Compares the LMS substring at slot `i` with the one before it, at `p`, and names the latter.
/// The state holds the array, the next name, the suffix named next, its length, and whether
/// it differs from the one before it.
pub open spec fn name_distinct_step(t: Seq<i32>, m: int) -> spec_fn((Seq<i32>, i32, i32, i32, bool), int) -> Option<(Seq<i32>, i32, i32, i32, bool)> {
    |s: (Seq<i32>, i32, i32, i32, bool), i: int|
        {
            let (sa, name, p, len, differs) = s;
            let q = sa[i];
            let qlen = sa[m + q as int / 2];
            let a = agreement(t, p as int, q as int, 0, qlen as int);
            let d = len != qlen || a->0 < qlen;
            if 0 <= i < m <= sa.len() && 0 <= q && m + q as int / 2 < sa.len() && 0 <= p && m + p as int / 2 < sa.len()
                && (len == qlen ==> 0 <= qlen && a is Some) && name + bit(d) <= i32::MAX {
                Some((
                    sa.update(m + p as int / 2, marked(name, differs && d)),
                    (name + bit(d)) as i32,
                    q,
                    qlen,
                    d,
                ))
            } else {
                None
            }
        }
}

/// [`name_distinct_step`] over the positions from `lo` to `hi`, upward.
pub open spec fn name_distinct_run(t: Seq<i32>, m: int, s: (Seq<i32>, i32, i32, i32, bool), lo: int, hi: int) -> Option<(Seq<i32>, i32, i32, i32, bool)> {
    fold_up(name_distinct_step(t, m), s, lo, hi)
}

/// Performs one step, or returns `false` where the step is outside its domain.
fn name_distinct_at(
    t: &[SaSint],
    m: usize,
    sa: &mut [SaSint],
    name: &mut SaSint,
    p: &mut SaSint,
    len: &mut SaSint,
    differs: &mut bool,
    i: FastSint,
) -> (ok: bool)
    ensures
        ok == (name_distinct_step(t@, m as int)((old(sa)@, *old(name), *old(p), *old(len), *old(differs)), i as int) is Some),
        ok ==> name_distinct_step(t@, m as int)((old(sa)@, *old(name), *old(p), *old(len), *old(differs)), i as int) == Some((final(sa)@, *final(name), *final(p), *final(len), *final(differs))),
        final(sa).len() == old(sa).len(),
{
    if m > sa.len() || !word_within(i, m) {
        return false;
    }
    let q: SaSint = sa[i as usize];
    if q < 0 || (q / 2) as usize >= sa.len() - m || *p < 0 || (*p / 2) as usize >= sa.len() - m {
        return false;
    }
    let qlen: SaSint = sa[m + (q / 2) as usize];
    let mut d: bool = true;
    if *len == qlen {
        if qlen < 0 {
            return false;
        }
        match substrings_differ(t, *p as usize, q as usize, qlen as usize) {
            Some(v) => {
                d = v;
            },
            None => return false,
        }
    }
    if d && *name == SAINT_MAX {
        return false;
    }
    sa[m + (*p / 2) as usize] = set_mark(*name, *differs && d);
    if d {
        *name = *name + 1;
    }
    *p = q;
    *len = qlen;
    *differs = d;
    true
}

/// Runs the steps as far as they are defined; `false` where one is not.
pub(crate) fn try_name_distinct(
    t: &[SaSint],
    m: usize,
    sa: &mut [SaSint],
    name: &mut SaSint,
    p: &mut SaSint,
    len: &mut SaSint,
    differs: &mut bool,
    lo: FastSint,
    hi: FastSint,
) -> (ok: bool)
    ensures
        ok == (name_distinct_run(t@, m as int, (old(sa)@, *old(name), *old(p), *old(len), *old(differs)), lo as int, hi as int) is Some),
        ok ==> name_distinct_run(t@, m as int, (old(sa)@, *old(name), *old(p), *old(len), *old(differs)), lo as int, hi as int) == Some((final(sa)@, *final(name), *final(p), *final(len), *final(differs))),
        final(sa).len() == old(sa).len(),
{
    let mut i: FastSint = lo;
    let ghost step = name_distinct_step(t@, m as int);
    let ghost s0 = (sa@, *name, *p, *len, *differs);
    while i < hi
        invariant
            lo <= i,
            i <= hi || hi < lo,
            hi < lo ==> i == lo,
            step == name_distinct_step(t@, m as int),
            s0 == (old(sa)@, *old(name), *old(p), *old(len), *old(differs)),
            fold_up(step, s0, lo as int, i as int) == Some((sa@, *name, *p, *len, *differs)),
            sa.len() == old(sa).len(),
        decreases hi - i,
    {
        proof {
            lemma_fold_up_prefix(step, s0, lo as int, i + 1, hi as int);
        }
        if !name_distinct_at(t, m, sa, name, p, len, differs, i) {
            return false;
        }
        i += 1;
    }
    true
}

/// The lengths of the LMS substrings, in the slots that half of each suffix selects.
pub open spec fn lms_lengths(t: Seq<i32>, sa: Seq<i32>, n: int, m: int) -> Option<Seq<i32>> {
    match gather_lms_suffixes_32s_run(text32(t), sa, n) {
        Some(x) => match lms_length_run(m, cleared(x.0, m, n - m), n - m, n - 1) {
            Some(y) => if m + half(y[n - 1]) < y.len() {
                Some(clamped(y.update(m + half(y[n - 1]), (1 - 0x8000_0000) as i32), m, m + n / 2))
            } else {
                None
            },
            None => None,
        },
        None => None,
    }
}

/// The names of the `m` sorted suffixes, with one more than their number.
pub open spec fn distinct_names(t: Seq<i32>, sa: Seq<i32>, m: int) -> Option<(Seq<i32>, i32)> {
    if m <= 0 {
        Some((sa, 1))
    } else {
        let p = sa[0];
        if !(0 <= p && m + p as int / 2 < sa.len()) {
            None
        } else {
            match name_distinct_run(t, m, (sa, 1, p, sa[m + p as int / 2], true), 1, m) {
                Some(x) => if 0 <= x.2 && m + x.2 as int / 2 < sa.len() && x.1 < i32::MAX {
                    Some((x.0.update(m + x.2 as int / 2, marked(x.1, x.4)), (x.1 + 1) as i32))
                } else {
                    None
                },
                None => None,
            }
        }
    }
}

/// What [`renumber_and_mark_distinct_lms_suffixes_32s_1k_omp`] leaves: the array and the
/// number of names.
pub open spec fn renumber_and_mark_distinct_1k_run(
    t: Seq<i32>,
    sa: Seq<i32>,
    n: int,
    m: int,
    mark_workers: int,
) -> Option<(Seq<i32>, int)> {
    if !(1 <= n <= t.len() && 0 <= m && 2 * m <= n <= sa.len()) {
        None
    } else {
        match lms_lengths(t, sa, n, m) {
            Some(s) => match distinct_names(t, s, m) {
                Some(x) => if x.1 <= m {
                    match mark_distinct_block_run(m, n / 2, mark_workers, x.0, 0, mark_workers) {
                        Some(y) => Some((y, x.1 - 1)),
                        None => None,
                    }
                } else {
                    Some((x.0, x.1 - 1))
                },
                None => None,
            },
            None => None,
        }
    }
}

/// Replaces the text order of the LMS suffixes by the lengths of their substrings.
fn try_lms_lengths(t: &[SaSint], sa: &mut [SaSint], n: SaSint, m: SaSint) -> (ok: bool)
    requires
        1 <= n <= t.len(),
        0 <= m,
        2 * m <= n <= old(sa).len(),
    ensures
        ok == (lms_lengths(t@, old(sa)@, n as int, m as int) is Some),
        ok ==> lms_lengths(t@, old(sa)@, n as int, m as int) == Some(final(sa)@),
        final(sa).len() == old(sa).len(),
{
    match try_gather_lms_suffixes_32s(t, sa, n) {
        Some(_) => {},
        None => return false,
    }
    let k: usize = m as usize;
    let last: usize = n as usize - 1;
    clear_range(sa, k, n as usize - k);
    if !try_lms_length(k, sa, (n - m) as FastSint, n as FastSint - 1) {
        return false;
    }
    let x: u64 = half_of(sa[last]);
    if k as u128 + x as u128 >= sa.len() as u128 {
        return false;
    }
    sa[k + x as usize] = 1 + SaSint::MIN;
    clamp_range(sa, k, k + (n / 2) as usize);
    true
}

/// Names the `m` sorted suffixes.
fn try_distinct_names(t: &[SaSint], sa: &mut [SaSint], m: SaSint) -> (r: Option<SaSint>)
    requires
        m <= old(sa).len(),
    ensures
        r is Some == (distinct_names(t@, old(sa)@, m as int) is Some),
        r is Some ==> distinct_names(t@, old(sa)@, m as int) == Some((final(sa)@, r->0)),
        final(sa).len() == old(sa).len(),
{
    if m <= 0 {
        return Some(1);
    }
    let k: usize = m as usize;
    let mut p: SaSint = sa[0];
    if p < 0 || (p / 2) as usize >= sa.len() - k {
        return None;
    }
    let mut len: SaSint = sa[k + (p / 2) as usize];
    let mut name: SaSint = 1;
    let mut differs: bool = true;
    if !try_name_distinct(t, k, sa, &mut name, &mut p, &mut len, &mut differs, 1, m as FastSint) {
        return None;
    }
    if p < 0 || (p / 2) as usize >= sa.len() - k || name == SAINT_MAX {
        return None;
    }
    sa[k + (p / 2) as usize] = set_mark(name, differs);
    Some(name + 1)
}

/// Names the `m` sorted suffixes by comparing their substrings and marks the names that
/// stand alone.
///
/// `None` where a slot is out of range.
pub(crate) fn try_renumber_and_mark_distinct_lms_suffixes_32s_1k(
    t: &[SaSint],
    sa: &mut [SaSint],
    n: SaSint,
    m: SaSint,
    threads: SaSint,
) -> (r: Option<SaSint>)
    requires
        old(sa).len() <= isize::MAX,
    ensures
        r is Some == (renumber_and_mark_distinct_1k_run(t@, old(sa)@, n as int, m as int,
            workers(threads as int, n >= 131072, threads as int)) is Some),
        r is Some ==> renumber_and_mark_distinct_1k_run(t@, old(sa)@, n as int, m as int,
            workers(threads as int, n >= 131072, threads as int)) == Some((final(sa)@, r->0 as int)),
        final(sa).len() == old(sa).len(),
{
    if n < 1 || n as u64 > t.len() as u64 || m < 0 || m > n / 2 || n as u64 > sa.len() as u64 {
        return None;
    }
    if !try_lms_lengths(t, sa, n, m) {
        return None;
    }
    let ghost s1 = sa@;
    let name: SaSint = match try_distinct_names(t, sa, m) {
        Some(v) => v,
        None => return None,
    };
    proof {
        lemma_name_distinct_grows(t@, m as int, (s1, 1, s1[0], s1[m + s1[0] as int / 2], true), 1, m as int);
    }
    if name <= m {
        if !try_mark_distinct_lms_suffixes_32s_omp(sa, n, m, threads) {
            return None;
        }
    }
    Some(name - 1)
}

/// Names only grow.
proof fn lemma_name_distinct_grows(t: Seq<i32>, m: int, s: (Seq<i32>, i32, i32, i32, bool), lo: int, hi: int)
    ensures
        name_distinct_run(t, m, s, lo, hi) matches Some(x) ==> x.1 >= s.1,
    decreases hi - lo,
{
    if lo < hi {
        lemma_name_distinct_grows(t, m, s, lo, hi - 1);
    }
}

/// Names the `m` sorted suffixes by comparing their substrings and marks the names that
/// stand alone. Returns how many names there are.
pub fn renumber_and_mark_distinct_lms_suffixes_32s_1k_omp(
    t: &[SaSint],
    sa: &mut [SaSint],
    n: SaSint,
    m: SaSint,
    threads: SaSint,
) -> (r: SaSint)
    requires
        old(sa).len() <= isize::MAX,
        renumber_and_mark_distinct_1k_run(t@, old(sa)@, n as int, m as int,
            workers(threads as int, n >= 131072, threads as int)) is Some,
    ensures
        renumber_and_mark_distinct_1k_run(t@, old(sa)@, n as int, m as int,
            workers(threads as int, n >= 131072, threads as int)) == Some((final(sa)@, r as int)),
{
    match try_renumber_and_mark_distinct_lms_suffixes_32s_1k(t, sa, n, m, threads) {
        Some(r) => r,
        None => 0,
    }
}

/// Replaces the rank at slot `i` by the suffix with that rank, which stand from `base` on.
pub open spec fn reconstruct_lms_step(base: int) -> spec_fn(Seq<i32>, int) -> Option<Seq<i32>> {
    |s: Seq<i32>, i: int|
        {
            let sa = s;
            if 0 <= i < sa.len() && 0 <= sa[i] && base + sa[i] < sa.len() {
                Some(sa.update(i, sa[base + sa[i]]))
            } else {
                None
            }
        }
}

/// [`reconstruct_lms_step`] over the positions from `lo` to `hi`, upward.
pub open spec fn reconstruct_lms_run(base: int, s: Seq<i32>, lo: int, hi: int) -> Option<Seq<i32>> {
    fold_up(reconstruct_lms_step(base), s, lo, hi)
}

/// Performs one step, or returns `false` where the step is outside its domain.
fn reconstruct_lms_at(
    base: usize,
    sa: &mut [SaSint],
    i: FastSint,
) -> (ok: bool)
    ensures
        ok == (reconstruct_lms_step(base as int)(old(sa)@, i as int) is Some),
        ok ==> reconstruct_lms_step(base as int)(old(sa)@, i as int) == Some(final(sa)@),
        final(sa).len() == old(sa).len(),
{
    if !word_within(i, sa.len()) {
        return false;
    }
    let s: SaSint = sa[i as usize];
    if s < 0 || base as u128 + s as u128 >= sa.len() as u128 {
        return false;
    }
    sa[i as usize] = sa[base + s as usize];
    true
}

/// Runs the steps as far as they are defined; `false` where one is not.
pub(crate) fn try_reconstruct_lms(
    base: usize,
    sa: &mut [SaSint],
    lo: FastSint,
    hi: FastSint,
) -> (ok: bool)
    ensures
        ok == (reconstruct_lms_run(base as int, old(sa)@, lo as int, hi as int) is Some),
        ok ==> reconstruct_lms_run(base as int, old(sa)@, lo as int, hi as int) == Some(final(sa)@),
        final(sa).len() == old(sa).len(),
{
    let mut i: FastSint = lo;
    let ghost step = reconstruct_lms_step(base as int);
    let ghost s0 = sa@;
    while i < hi
        invariant
            lo <= i,
            i <= hi || hi < lo,
            hi < lo ==> i == lo,
            step == reconstruct_lms_step(base as int),
            s0 == old(sa)@,
            fold_up(step, s0, lo as int, i as int) == Some(sa@),
            sa.len() == old(sa).len(),
        decreases hi - i,
    {
        proof {
            lemma_fold_up_prefix(step, s0, lo as int, i + 1, hi as int);
        }
        if !reconstruct_lms_at(base, sa, i) {
            return false;
        }
        i += 1;
    }
    true
}

/// The array after [`reconstruct_lms_suffixes`].
pub open spec fn reconstruct_lms_suffixes_run(sa: Seq<i32>, n: int, m: int, start: int, size: int) -> Option<Seq<i32>> {
    if size <= 0 {
        Some(sa)
    } else if !(0 <= n - m <= i32::MAX) {
        None
    } else {
        reconstruct_lms_run(n - m, sa, start, start + size)
    }
}

/// Replaces the ranks in a block by the suffixes with those ranks, which stand from `n - m`
/// on.
///
/// `false` where a slot is out of range.
pub(crate) fn try_reconstruct_lms_suffixes(
    sa: &mut [SaSint],
    n: SaSint,
    m: SaSint,
    omp_block_start: FastSint,
    omp_block_size: FastSint,
) -> (ok: bool)
    requires
        isize::MIN <= omp_block_start + omp_block_size <= isize::MAX,
    ensures
        ok == (reconstruct_lms_suffixes_run(
            old(sa)@, n as int, m as int, omp_block_start as int, omp_block_size as int) is Some),
        ok ==> reconstruct_lms_suffixes_run(
            old(sa)@, n as int, m as int, omp_block_start as int, omp_block_size as int) == Some(final(sa)@),
        final(sa).len() == old(sa).len(),
{
    if omp_block_size <= 0 {
        return true;
    }
    let base: SaSint = match fits_difference(n, m) {
        Some(v) => v,
        None => return false,
    };
    if base < 0 {
        return false;
    }
    try_reconstruct_lms(base as usize, sa, omp_block_start, omp_block_start + omp_block_size)
}

/// Replaces the ranks in a block by the suffixes with those ranks, which stand from `n - m`
/// on.
pub fn reconstruct_lms_suffixes(
    sa: &mut [SaSint],
    n: SaSint,
    m: SaSint,
    omp_block_start: FastSint,
    omp_block_size: FastSint,
)
    requires
        isize::MIN <= omp_block_start + omp_block_size <= isize::MAX,
        reconstruct_lms_suffixes_run(
            old(sa)@, n as int, m as int, omp_block_start as int, omp_block_size as int) is Some,
    ensures
        reconstruct_lms_suffixes_run(
            old(sa)@, n as int, m as int, omp_block_start as int, omp_block_size as int) == Some(final(sa)@),
{
    let _ok: bool = try_reconstruct_lms_suffixes(sa, n, m, omp_block_start, omp_block_size);
}

/// Replaces the first `m` ranks by the suffixes with those ranks, which stand from `n - m`
/// on. The blocks of several workers follow each other, so their number does not matter.
pub fn reconstruct_lms_suffixes_omp(sa: &mut [SaSint], n: SaSint, m: SaSint, _threads: SaSint)
    requires
        0 <= m,
        reconstruct_lms_suffixes_run(old(sa)@, n as int, m as int, 0, m as int) is Some,
    ensures
        reconstruct_lms_suffixes_run(old(sa)@, n as int, m as int, 0, m as int) == Some(final(sa)@),
{
    reconstruct_lms_suffixes(sa, n, m, 0, m as FastSint);
}

} // verus!
