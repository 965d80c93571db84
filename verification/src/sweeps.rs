//! Whole scans over byte texts, for any number of workers: the last suffix is placed first where
//! a scan goes from left to right, and what the sorted suffixes induce follows.

use vstd::prelude::*;
use crate::block_8u::{
    block_bwt_aux_left, block_bwt_aux_right, block_bwt_left, block_bwt_right, block_final_gsa, block_final_left,
    block_final_right, block_gsa, block_left, block_right, final_bwt_aux_scan_left_to_right_8u_block_omp,
    final_bwt_aux_scan_right_to_left_8u_block_omp, final_bwt_scan_left_to_right_8u_block_omp,
    final_bwt_scan_right_to_left_8u_block_omp, final_gsa_scan_right_to_left_8u_block_omp,
    final_sorting_scan_left_to_right_8u_block_omp, final_sorting_scan_right_to_left_8u_block_omp,
    partial_gsa_scan_right_to_left_8u_block_omp, partial_sorting_scan_left_to_right_8u_block_omp,
    partial_sorting_scan_right_to_left_8u_block_omp, NamingState,
};
use crate::desks::{desks, desks_fit, desks_sized, quiet, Desk};
use crate::final_scan::{
    final_bwt_aux_scan_left_to_right_8u_run, final_bwt_aux_scan_right_to_left_8u_run, final_bwt_scan_left_to_right_8u_run,
    final_bwt_scan_right_to_left_8u_run, final_gsa_scan_right_to_left_8u_run, final_sorting_scan_left_to_right_8u_run,
    final_sorting_scan_right_to_left_8u_run, sampled, try_final_bwt_aux_scan_left_to_right_8u_slot,
    try_final_bwt_aux_scan_right_to_left_8u_slot, try_final_bwt_scan_left_to_right_8u, try_final_bwt_scan_right_to_left_8u,
    try_final_gsa_scan_right_to_left_8u, try_final_sorting_scan_left_to_right_8u, try_final_sorting_scan_right_to_left_8u,
    try_sample,
};
use crate::induce::{final_left_8u, partial_left_8u, seeded_8u, seeded_8u_1k, try_final_left_8u, try_partial_left_8u, try_seed_8u, try_seed_8u_1k};
use crate::orders::{bwt_aux_left_8u, bwt_left_8u};
use crate::partial_8u::{
    partial_gsa_scan_right_to_left_8u_run, partial_sorting_scan_left_to_right_8u_run, partial_sorting_scan_right_to_left_8u_run,
    try_partial_gsa_scan_right_to_left_8u, try_partial_sorting_scan_left_to_right_8u, try_partial_sorting_scan_right_to_left_8u,
};
use crate::types::{FastSint, SaSint, ThreadState};
use crate::walks::{find_down, find_up, half_span, span_for, walk_down, walk_up, worker_span};

verus! {

/// How many of `threads` workers have a desk, at least one.
pub open spec fn seated(threads: int, available: int) -> int {
    let w = if threads < available { threads } else { available };
    if w < 1 {
        1
    } else {
        w
    }
}

/// The array of a scan that names.
pub open spec fn naming_array() -> spec_fn(NamingState) -> Seq<i32> {
    |s: NamingState| s.0
}

/// An empty slot changes nothing in a scan that names.
pub open spec fn naming_empty() -> spec_fn(NamingState, int) -> NamingState {
    |s: NamingState, p: int| s
}

/// A run of slots scanned from left to right, slot by slot.
pub open spec fn left_short(t: Seq<u8>) -> spec_fn(NamingState, int, int) -> Option<NamingState> {
    |s: NamingState, lo: int, size: int|
        match partial_sorting_scan_left_to_right_8u_run(t, (s.0, s.1, s.2), lo, size) {
            Some(x) => Some((x.0, x.1, x.2, s.3)),
            None => None,
        }
}

/// A run of slots scanned from left to right, as a block.
pub open spec fn left_long(t: Seq<u8>, k: int, threads: int) -> spec_fn(NamingState, int, int) -> Option<NamingState> {
    |s: NamingState, lo: int, size: int| block_left(t, k, threads, s, lo, size)
}

/// What [`partial_sorting_scan_left_to_right_8u_omp`] leaves.
pub open spec fn partial_left_walked(t: Seq<u8>, n: int, k: int, count: int, threads: int, s: NamingState) -> Option<NamingState> {
    if threads == 1 || count < 65536 {
        match partial_left_8u(t, n, count, (s.0, s.1, s.2)) {
            Some(x) => Some((x.0, x.1, x.2, s.3)),
            None => None,
        }
    } else if threads < 0 {
        None
    } else {
        match seeded_8u(t, n, (s.0, s.1, s.2)) {
            Some(x) => walk_up(
                naming_array(), left_short(t), left_long(t, k, threads), worker_span(seated(threads, s.3.len() as int)),
                (x.0, x.1, x.2, s.3), 0, count),
            None => None,
        }
    }
}

/// How many of `threads` workers have a desk.
fn seat(threads: SaSint, available: usize) -> (r: usize)
    requires
        0 <= threads,
    ensures
        r == seated(threads as int, available as int),
        1 <= r,
{
    let w: usize = if (threads as usize) < available { threads as usize } else { available };
    if w < 1 {
        1
    } else {
        w
    }
}

/// Scans the LMS substrings of a byte text from left to right, the last suffix first. Returns
/// the last name.
pub fn partial_sorting_scan_left_to_right_8u_omp(
    t: &[u8],
    sa: &mut [SaSint],
    n: SaSint,
    k: SaSint,
    buckets: &mut [SaSint],
    left_suffixes_count: SaSint,
    d: SaSint,
    threads: SaSint,
    thread_state: &mut [ThreadState],
) -> (r: SaSint)
    requires
        threads == 1 || left_suffixes_count < 65536 || 0 <= k && 64 * k <= isize::MAX && desks_fit(old(thread_state)@),
        partial_left_walked(t@, n as int, k as int, left_suffixes_count as int, threads as int,
            (old(sa)@, old(buckets)@, d, desks(old(thread_state)@))) is Some,
    ensures
        partial_left_walked(t@, n as int, k as int, left_suffixes_count as int, threads as int,
            (old(sa)@, old(buckets)@, d, desks(old(thread_state)@)))
            == Some((final(sa)@, final(buckets)@, r, desks(final(thread_state)@))),
        quiet(old(thread_state)@, final(thread_state)@),
        desks_sized(old(thread_state)@, final(thread_state)@),
        final(sa).len() == old(sa).len(),
        final(buckets).len() == old(buckets).len(),
{
    let mut names: SaSint = d;
    if threads == 1 || left_suffixes_count < 65536 {
        let _ok: bool = try_partial_left_8u(t, n, left_suffixes_count, sa, buckets, &mut names);
        return names;
    }
    let _seeded: bool = try_seed_8u(t, n, sa, buckets, &mut names);
    let w: usize = seat(threads, thread_state.len());
    let hi: usize = left_suffixes_count as usize;
    let ghost short = left_short(t@);
    let ghost long = left_long(t@, k as int, threads as int);
    let ghost span = worker_span(w as int);
    let ghost end_state = walk_up(naming_array(), short, long, span, (sa@, buckets@, names, desks(thread_state@)), 0, hi as int);
    let mut lo: usize = 0;
    while lo < hi
        invariant
            0 <= threads,
            0 <= k,
            64 * k <= isize::MAX,
            hi <= i32::MAX,
            desks_fit(old(thread_state)@),
            desks_sized(old(thread_state)@, thread_state@),
            quiet(old(thread_state)@, thread_state@),
            w == seated(threads as int, thread_state.len() as int),
            short == left_short(t@),
            long == left_long(t@, k as int, threads as int),
            span == worker_span(w as int),
            end_state is Some,
            end_state == walk_up(naming_array(), short, long, span, (sa@, buckets@, names, desks(thread_state@)), lo as int, hi as int),
            lo <= hi,
            sa.len() == old(sa).len(),
            buckets.len() == old(buckets).len(),
        decreases hi - lo,
    {
        if sa[lo] == 0 {
            lo += 1;
        } else {
            let most: usize = span_for(w, false);
            let end: usize = find_up(sa, lo + 1, if lo + most < hi { lo + most } else { hi });
            if end - lo < 32 {
                let _ok: bool = try_partial_sorting_scan_left_to_right_8u(t, sa, buckets, &mut names, lo as FastSint, (end - lo) as FastSint);
            } else {
                proof {
                    lemma_still_fit(old(thread_state)@, thread_state@);
                }
                names = partial_sorting_scan_left_to_right_8u_block_omp(
                    t, sa, k, buckets, names, lo as FastSint, (end - lo) as FastSint, threads, thread_state);
            }
            lo = end;
        }
    }
    names
}

/// Working storage of the same sizes still fits.
pub proof fn lemma_still_fit(before: Seq<ThreadState>, after: Seq<ThreadState>)
    requires
        desks_fit(before),
        desks_sized(before, after),
    ensures
        desks_fit(after),
{
    assert forall|w: int| 0 <= w < after.len() implies (#[trigger] after[w]).buckets.len() <= isize::MAX
        && after[w].cache.len() <= isize::MAX by {
        assert(before[w].buckets.len() <= isize::MAX);
    }
}

/// A run of slots scanned from right to left, slot by slot.
pub open spec fn right_short(t: Seq<u8>) -> spec_fn(NamingState, int, int) -> Option<NamingState> {
    |s: NamingState, lo: int, size: int|
        match partial_sorting_scan_right_to_left_8u_run(t, (s.0, s.1, s.2), lo, size) {
            Some(x) => Some((x.0, x.1, x.2, s.3)),
            None => None,
        }
}

/// A run of slots scanned from right to left, as a block.
pub open spec fn right_long(t: Seq<u8>, k: int, threads: int) -> spec_fn(NamingState, int, int) -> Option<NamingState> {
    |s: NamingState, lo: int, size: int| block_right(t, k, threads, s, lo, size)
}

/// What [`partial_sorting_scan_right_to_left_8u_omp`] leaves.
pub open spec fn partial_right_walked(t: Seq<u8>, k: int, lo: int, hi: int, threads: int, s: NamingState) -> Option<NamingState> {
    if threads == 1 || hi - lo < 65536 {
        right_short(t)(s, lo, hi - lo)
    } else if threads < 0 {
        None
    } else {
        walk_down(
            naming_array(), naming_empty(), right_short(t), right_long(t, k, threads),
            worker_span(seated(threads, s.3.len() as int)) - 1, s, lo, hi)
    }
}

/// Scans the LMS substrings of a byte text from right to left.
pub fn partial_sorting_scan_right_to_left_8u_omp(
    t: &[u8],
    sa: &mut [SaSint],
    n: SaSint,
    k: SaSint,
    buckets: &mut [SaSint],
    first_lms_suffix: SaSint,
    left_suffixes_count: SaSint,
    d: SaSint,
    threads: SaSint,
    thread_state: &mut [ThreadState],
)
    requires
        0 <= first_lms_suffix <= n,
        0 <= left_suffixes_count < i32::MAX,
        threads == 1 || (n - first_lms_suffix) - (left_suffixes_count + 1) < 65536
            || 0 <= k && 64 * k <= isize::MAX && desks_fit(old(thread_state)@),
        partial_right_walked(t@, k as int, left_suffixes_count + 1, n - first_lms_suffix, threads as int,
            (old(sa)@, old(buckets)@, d, desks(old(thread_state)@))) is Some,
    ensures
        ({
            let x = partial_right_walked(t@, k as int, left_suffixes_count + 1, n - first_lms_suffix, threads as int,
                (old(sa)@, old(buckets)@, d, desks(old(thread_state)@))).unwrap();
            final(sa)@ == x.0 && final(buckets)@ == x.1 && desks(final(thread_state)@) == x.3
        }),
        quiet(old(thread_state)@, final(thread_state)@),
        desks_sized(old(thread_state)@, final(thread_state)@),
        final(sa).len() == old(sa).len(),
        final(buckets).len() == old(buckets).len(),
{
    let mut names: SaSint = d;
    let start: FastSint = left_suffixes_count as FastSint + 1;
    let stop: FastSint = (n - first_lms_suffix) as FastSint;
    if threads == 1 || stop - start < 65536 {
        let _ok: bool = try_partial_sorting_scan_right_to_left_8u(t, sa, buckets, &mut names, start, stop - start);
        return;
    }
    let w: usize = seat(threads, thread_state.len());
    let lo: usize = start as usize;
    let ghost short = right_short(t@);
    let ghost long = right_long(t@, k as int, threads as int);
    let ghost back = worker_span(w as int) - 1;
    let ghost end_state = walk_down(naming_array(), naming_empty(), short, long, back, (sa@, buckets@, names, desks(thread_state@)), lo as int, stop as int);
    let mut hi: usize = stop as usize;
    while hi > lo
        invariant
            0 <= threads,
            0 <= k,
            64 * k <= isize::MAX,
            hi <= i32::MAX,
            desks_fit(old(thread_state)@),
            desks_sized(old(thread_state)@, thread_state@),
            quiet(old(thread_state)@, thread_state@),
            w == seated(threads as int, thread_state.len() as int),
            short == right_short(t@),
            long == right_long(t@, k as int, threads as int),
            back == worker_span(w as int) - 1,
            end_state is Some,
            end_state == walk_down(naming_array(), naming_empty(), short, long, back, (sa@, buckets@, names, desks(thread_state@)), lo as int, hi as int),
            lo <= hi,
            sa.len() == old(sa).len(),
            buckets.len() == old(buckets).len(),
        decreases hi - lo,
    {
        let p: usize = hi - 1;
        if sa[p] == 0 {
            hi = p;
        } else {
            let most: usize = span_for(w, false) - 1;
            let end: usize = find_down(sa, p, if p > most && p - most > lo { p - most } else { lo });
            if hi - end < 32 {
                let _ok: bool = try_partial_sorting_scan_right_to_left_8u(t, sa, buckets, &mut names, end as FastSint, (hi - end) as FastSint);
            } else {
                proof {
                    lemma_still_fit(old(thread_state)@, thread_state@);
                }
                names = partial_sorting_scan_right_to_left_8u_block_omp(
                    t, sa, k, buckets, names, end as FastSint, (hi - end) as FastSint, threads, thread_state);
            }
            hi = end;
        }
    }
}

/// A run of slots of separated texts scanned from right to left, slot by slot.
pub open spec fn gsa_short(t: Seq<u8>) -> spec_fn(NamingState, int, int) -> Option<NamingState> {
    |s: NamingState, lo: int, size: int|
        match partial_gsa_scan_right_to_left_8u_run(t, (s.0, s.1, s.2), lo, size) {
            Some(x) => Some((x.0, x.1, x.2, s.3)),
            None => None,
        }
}

/// A run of slots of separated texts scanned from right to left, as a block.
pub open spec fn gsa_long(t: Seq<u8>, k: int, threads: int) -> spec_fn(NamingState, int, int) -> Option<NamingState> {
    |s: NamingState, lo: int, size: int| block_gsa(t, k, threads, s, lo, size)
}

/// What [`partial_gsa_scan_right_to_left_8u_omp`] leaves.
pub open spec fn partial_gsa_walked(t: Seq<u8>, k: int, lo: int, hi: int, threads: int, s: NamingState) -> Option<NamingState> {
    if threads == 1 || hi - lo < 65536 {
        gsa_short(t)(s, lo, hi - lo)
    } else if threads < 0 {
        None
    } else {
        walk_down(
            naming_array(), naming_empty(), gsa_short(t), gsa_long(t, k, threads),
            worker_span(seated(threads, s.3.len() as int)) - 1, s, lo, hi)
    }
}

/// Scans the LMS substrings of separated texts from right to left.
pub fn partial_gsa_scan_right_to_left_8u_omp(
    t: &[u8],
    sa: &mut [SaSint],
    n: SaSint,
    k: SaSint,
    buckets: &mut [SaSint],
    first_lms_suffix: SaSint,
    left_suffixes_count: SaSint,
    d: SaSint,
    threads: SaSint,
    thread_state: &mut [ThreadState],
)
    requires
        0 <= first_lms_suffix <= n,
        0 <= left_suffixes_count < i32::MAX,
        threads == 1 || (n - first_lms_suffix) - (left_suffixes_count + 1) < 65536
            || 0 <= k && 64 * k <= isize::MAX && desks_fit(old(thread_state)@),
        partial_gsa_walked(t@, k as int, left_suffixes_count + 1, n - first_lms_suffix, threads as int,
            (old(sa)@, old(buckets)@, d, desks(old(thread_state)@))) is Some,
    ensures
        ({
            let x = partial_gsa_walked(t@, k as int, left_suffixes_count + 1, n - first_lms_suffix, threads as int,
                (old(sa)@, old(buckets)@, d, desks(old(thread_state)@))).unwrap();
            final(sa)@ == x.0 && final(buckets)@ == x.1 && desks(final(thread_state)@) == x.3
        }),
        quiet(old(thread_state)@, final(thread_state)@),
        desks_sized(old(thread_state)@, final(thread_state)@),
        final(sa).len() == old(sa).len(),
        final(buckets).len() == old(buckets).len(),
{
    let mut names: SaSint = d;
    let start: FastSint = left_suffixes_count as FastSint + 1;
    let stop: FastSint = (n - first_lms_suffix) as FastSint;
    if threads == 1 || stop - start < 65536 {
        let _ok: bool = try_partial_gsa_scan_right_to_left_8u(t, sa, buckets, &mut names, start, stop - start);
        return;
    }
    let w: usize = seat(threads, thread_state.len());
    let lo: usize = start as usize;
    let ghost short = gsa_short(t@);
    let ghost long = gsa_long(t@, k as int, threads as int);
    let ghost back = worker_span(w as int) - 1;
    let ghost end_state = walk_down(naming_array(), naming_empty(), short, long, back, (sa@, buckets@, names, desks(thread_state@)), lo as int, stop as int);
    let mut hi: usize = stop as usize;
    while hi > lo
        invariant
            0 <= threads,
            0 <= k,
            64 * k <= isize::MAX,
            hi <= i32::MAX,
            desks_fit(old(thread_state)@),
            desks_sized(old(thread_state)@, thread_state@),
            quiet(old(thread_state)@, thread_state@),
            w == seated(threads as int, thread_state.len() as int),
            short == gsa_short(t@),
            long == gsa_long(t@, k as int, threads as int),
            back == worker_span(w as int) - 1,
            end_state is Some,
            end_state == walk_down(naming_array(), naming_empty(), short, long, back, (sa@, buckets@, names, desks(thread_state@)), lo as int, hi as int),
            lo <= hi,
            sa.len() == old(sa).len(),
            buckets.len() == old(buckets).len(),
        decreases hi - lo,
    {
        let p: usize = hi - 1;
        if sa[p] == 0 {
            hi = p;
        } else {
            let most: usize = span_for(w, false) - 1;
            let end: usize = find_down(sa, p, if p > most && p - most > lo { p - most } else { lo });
            if hi - end < 32 {
                let _ok: bool = try_partial_gsa_scan_right_to_left_8u(t, sa, buckets, &mut names, end as FastSint, (hi - end) as FastSint);
            } else {
                proof {
                    lemma_still_fit(old(thread_state)@, thread_state@);
                }
                names = partial_gsa_scan_right_to_left_8u_block_omp(
                    t, sa, k, buckets, names, end as FastSint, (hi - end) as FastSint, threads, thread_state);
            }
            hi = end;
        }
    }
}

/// The state of a scan for the final order: the array, the buckets, and the desks.
pub type FinalState = (Seq<i32>, Seq<i32>, Seq<Desk>);

/// The state of a scan for a transformed text with samples: the array, the buckets, the samples,
/// and the desks.
pub type SamplingState = (Seq<i32>, Seq<i32>, Seq<i32>, Seq<Desk>);

/// The state of a scan for a transformed text that looks for the whole text: the array, the
/// buckets, the slot of the whole text or `-1`, and the desks.
pub type RankingState = (Seq<i32>, Seq<i32>, i32, Seq<Desk>);

/// The array of a scan for the final order.
pub open spec fn final_array() -> spec_fn(FinalState) -> Seq<i32> {
    |s: FinalState| s.0
}

/// An empty slot changes nothing in a scan for the final order.
pub open spec fn final_empty() -> spec_fn(FinalState, int) -> FinalState {
    |s: FinalState, p: int| s
}

/// The array of a scan for samples.
pub open spec fn sampling_array() -> spec_fn(SamplingState) -> Seq<i32> {
    |s: SamplingState| s.0
}

/// An empty slot changes nothing in a scan for samples.
pub open spec fn sampling_empty() -> spec_fn(SamplingState, int) -> SamplingState {
    |s: SamplingState, p: int| s
}

/// The array of a scan that looks for the whole text.
pub open spec fn ranking_array() -> spec_fn(RankingState) -> Seq<i32> {
    |s: RankingState| s.0
}

/// An empty slot is that of the whole text.
pub open spec fn ranking_empty() -> spec_fn(RankingState, int) -> RankingState {
    |s: RankingState, p: int| (s.0, s.1, p as i32, s.3)
}

/// A run of slots scanned from left to right for the transformed text, slot by slot.
pub open spec fn bwt_left_short(t: Seq<u8>) -> spec_fn(FinalState, int, int) -> Option<FinalState> {
    |s: FinalState, lo: int, size: int|
        match final_bwt_scan_left_to_right_8u_run(t, (s.0, s.1), lo, size) {
            Some(x) => Some((x.0, x.1, s.2)),
            None => None,
        }
}

/// A run of slots scanned from left to right for the transformed text, as a block.
pub open spec fn bwt_left_long(t: Seq<u8>, k: int) -> spec_fn(FinalState, int, int) -> Option<FinalState> {
    |s: FinalState, lo: int, size: int|
        block_bwt_left(t, k, s, lo, size)
}

/// What [`final_bwt_scan_left_to_right_8u_omp`] leaves.
pub open spec fn bwt_left_walked(t: Seq<u8>, n: int, k: int, threads: int, s: FinalState) -> Option<FinalState> {
    if threads == 1 || n < 65536 {
        match bwt_left_8u(t, n, (s.0, s.1)) {
            Some(x) => Some((x.0, x.1, s.2)),
            None => None,
        }
    } else {
        match seeded_8u_1k(t, n, (s.0, s.1)) {
            Some(x) => walk_up(final_array(), bwt_left_short(t), bwt_left_long(t, k), worker_span(threads), (x.0, x.1, s.2), 0, n),
            None => None,
        }
    }
}

/// Scans a byte text from left to right for the transformed text, the last suffix first.
pub fn final_bwt_scan_left_to_right_8u_omp(
    t: &[u8],
    sa: &mut [SaSint],
    n: FastSint,
    k: SaSint,
    induction_bucket: &mut [SaSint],
    threads: SaSint,
    thread_state: &mut [ThreadState],
)
    requires
        threads == 1 || n < 65536 || desks_fit(old(thread_state)@),
        bwt_left_walked(t@, n as int, k as int, threads as int, (old(sa)@, old(induction_bucket)@, desks(old(thread_state)@))) is Some,
    ensures
        bwt_left_walked(t@, n as int, k as int, threads as int, (old(sa)@, old(induction_bucket)@, desks(old(thread_state)@)))
            == Some((final(sa)@, final(induction_bucket)@, desks(final(thread_state)@))),
        quiet(old(thread_state)@, final(thread_state)@),
        desks_sized(old(thread_state)@, final(thread_state)@),
        final(sa).len() == old(sa).len(),
        final(induction_bucket).len() == old(induction_bucket).len(),
{
    if threads == 1 || n < 65536 {
        let _ok: bool = try_seed_8u_1k(t, n as SaSint, sa, induction_bucket)
            && try_final_bwt_scan_left_to_right_8u(t, sa, induction_bucket, 0, n);
        return;
    }
    let _seeded: bool = try_seed_8u_1k(t, n as SaSint, sa, induction_bucket);
    let hi: usize = n as usize;
    let ghost short = bwt_left_short(t@);
    let ghost long = bwt_left_long(t@, k as int);
    let ghost span = worker_span(threads as int);
    let ghost end_state = walk_up(final_array(), short, long, span, (sa@, induction_bucket@, desks(thread_state@)), 0, hi as int);
    let mut lo: usize = 0;
    while lo < hi
        invariant
            hi <= i32::MAX,
            desks_fit(old(thread_state)@),
            desks_sized(old(thread_state)@, thread_state@),
            quiet(old(thread_state)@, thread_state@),
            short == bwt_left_short(t@),
            long == bwt_left_long(t@, k as int),
            span == worker_span(threads as int),
            end_state is Some,
            end_state == walk_up(final_array(), short, long, span, (sa@, induction_bucket@, desks(thread_state@)), lo as int, hi as int),
            lo <= hi,
            sa.len() == old(sa).len(),
            induction_bucket.len() == old(induction_bucket).len(),
        decreases hi - lo,
    {
        if sa[lo] == 0 {
            lo += 1;
        } else {
            let most: usize = span_for(threads as usize, false);
            let end: usize = find_up(sa, lo + 1, if lo + most < hi { lo + most } else { hi });
            if end - lo < 32 {
                let _ok: bool = try_final_bwt_scan_left_to_right_8u(t, sa, induction_bucket, lo as FastSint, (end - lo) as FastSint);
            } else {
                proof {
                    lemma_still_fit(old(thread_state)@, thread_state@);
                }
                final_bwt_scan_left_to_right_8u_block_omp(t, sa, k, induction_bucket, lo as FastSint, (end - lo) as FastSint, threads, thread_state);
            }
            lo = end;
        }
    }
}

/// A run of slots scanned from left to right for the transformed text and its samples, slot by slot.
pub open spec fn bwt_aux_left_short(t: Seq<u8>, rm: i32) -> spec_fn(SamplingState, int, int) -> Option<SamplingState> {
    |s: SamplingState, lo: int, size: int|
        match final_bwt_aux_scan_left_to_right_8u_run(t, rm, (s.0, s.1, s.2), lo, size) {
            Some(x) => Some((x.0, x.1, x.2, s.3)),
            None => None,
        }
}

/// A run of slots scanned from left to right for the transformed text and its samples, as a block.
pub open spec fn bwt_aux_left_long(t: Seq<u8>, rm: i32, k: int) -> spec_fn(SamplingState, int, int) -> Option<SamplingState> {
    |s: SamplingState, lo: int, size: int|
        block_bwt_aux_left(t, rm, k, s, lo, size)
}

/// What [`final_bwt_aux_scan_left_to_right_8u_omp`] leaves.
pub open spec fn bwt_aux_left_walked(t: Seq<u8>, n: int, rm: i32, k: int, threads: int, s: SamplingState) -> Option<SamplingState> {
    if threads == 1 || n < 65536 {
        match bwt_aux_left_8u(t, n, rm, (s.0, s.1, s.2)) {
            Some(x) => Some((x.0, x.1, x.2, s.3)),
            None => None,
        }
    } else {
        match seeded_8u_1k(t, n, (s.0, s.1)) {
            Some(x) => match sampled(s.2, rm, (n - 1) as i32, x.1[t[n - 1] as int]) {
                Some(o) => walk_up(sampling_array(), bwt_aux_left_short(t, rm), bwt_aux_left_long(t, rm, k), worker_span(threads), (x.0, x.1, o, s.3), 0, n),
                None => None,
            },
            None => None,
        }
    }
}

/// Scans a byte text from left to right for the transformed text and its samples, the last
/// suffix first.
pub fn final_bwt_aux_scan_left_to_right_8u_omp(
    t: &[u8],
    sa: &mut [SaSint],
    n: FastSint,
    k: SaSint,
    rm: SaSint,
    i_out: &mut [SaSint],
    induction_bucket: &mut [SaSint],
    threads: SaSint,
    thread_state: &mut [ThreadState],
)
    requires
        threads == 1 || n < 65536 || desks_fit(old(thread_state)@),
        bwt_aux_left_walked(t@, n as int, rm, k as int, threads as int, (old(sa)@, old(induction_bucket)@, old(i_out)@, desks(old(thread_state)@))) is Some,
    ensures
        bwt_aux_left_walked(t@, n as int, rm, k as int, threads as int, (old(sa)@, old(induction_bucket)@, old(i_out)@, desks(old(thread_state)@)))
            == Some((final(sa)@, final(induction_bucket)@, final(i_out)@, desks(final(thread_state)@))),
        quiet(old(thread_state)@, final(thread_state)@),
        desks_sized(old(thread_state)@, final(thread_state)@),
        final(sa).len() == old(sa).len(),
        final(induction_bucket).len() == old(induction_bucket).len(),
        final(i_out).len() == old(i_out).len(),
{
    if threads == 1 || n < 65536 {
        let last: usize = n as usize - 1;
        let _ok: bool = try_seed_8u_1k(t, n as SaSint, sa, induction_bucket)
            && try_sample(i_out, rm, (n - 1) as SaSint, induction_bucket[t[last] as usize])
            && try_final_bwt_aux_scan_left_to_right_8u_slot(t, rm, sa, induction_bucket, i_out, 0, n);
        return;
    }
    let last: usize = n as usize - 1;
    let _seeded: bool = try_seed_8u_1k(t, n as SaSint, sa, induction_bucket)
        && try_sample(i_out, rm, (n - 1) as SaSint, induction_bucket[t[last] as usize]);
    let hi: usize = n as usize;
    let ghost short = bwt_aux_left_short(t@, rm);
    let ghost long = bwt_aux_left_long(t@, rm, k as int);
    let ghost span = worker_span(threads as int);
    let ghost end_state = walk_up(sampling_array(), short, long, span, (sa@, induction_bucket@, i_out@, desks(thread_state@)), 0, hi as int);
    let mut lo: usize = 0;
    while lo < hi
        invariant
            hi <= i32::MAX,
            desks_fit(old(thread_state)@),
            desks_sized(old(thread_state)@, thread_state@),
            quiet(old(thread_state)@, thread_state@),
            short == bwt_aux_left_short(t@, rm),
            long == bwt_aux_left_long(t@, rm, k as int),
            span == worker_span(threads as int),
            end_state is Some,
            end_state == walk_up(sampling_array(), short, long, span, (sa@, induction_bucket@, i_out@, desks(thread_state@)), lo as int, hi as int),
            lo <= hi,
            sa.len() == old(sa).len(),
            induction_bucket.len() == old(induction_bucket).len(),
            i_out.len() == old(i_out).len(),
        decreases hi - lo,
    {
        if sa[lo] == 0 {
            lo += 1;
        } else {
            let most: usize = span_for(threads as usize, false);
            let end: usize = find_up(sa, lo + 1, if lo + most < hi { lo + most } else { hi });
            if end - lo < 32 {
                let _ok: bool = try_final_bwt_aux_scan_left_to_right_8u_slot(t, rm, sa, induction_bucket, i_out, lo as FastSint, end as FastSint);
            } else {
                proof {
                    lemma_still_fit(old(thread_state)@, thread_state@);
                }
                final_bwt_aux_scan_left_to_right_8u_block_omp(t, sa, k, rm, i_out, induction_bucket, lo as FastSint, (end - lo) as FastSint, threads, thread_state);
            }
            lo = end;
        }
    }
}

/// A run of slots scanned from left to right for the final order, slot by slot.
pub open spec fn sort_left_short(t: Seq<u8>) -> spec_fn(FinalState, int, int) -> Option<FinalState> {
    |s: FinalState, lo: int, size: int|
        match final_sorting_scan_left_to_right_8u_run(t, (s.0, s.1), lo, size) {
            Some(x) => Some((x.0, x.1, s.2)),
            None => None,
        }
}

/// A run of slots scanned from left to right for the final order, as a block.
pub open spec fn sort_left_long(t: Seq<u8>, k: int) -> spec_fn(FinalState, int, int) -> Option<FinalState> {
    |s: FinalState, lo: int, size: int|
        block_final_left(t, k, s, lo, size)
}

/// What [`final_sorting_scan_left_to_right_8u_omp`] leaves.
pub open spec fn sort_left_walked(t: Seq<u8>, n: int, k: int, threads: int, s: FinalState) -> Option<FinalState> {
    if threads == 1 || n < 65536 {
        match final_left_8u(t, n, (s.0, s.1)) {
            Some(x) => Some((x.0, x.1, s.2)),
            None => None,
        }
    } else {
        match seeded_8u_1k(t, n, (s.0, s.1)) {
            Some(x) => walk_up(final_array(), sort_left_short(t), sort_left_long(t, k), worker_span(threads), (x.0, x.1, s.2), 0, n),
            None => None,
        }
    }
}

/// Scans a byte text from left to right for the final order, the last suffix first.
pub fn final_sorting_scan_left_to_right_8u_omp(
    t: &[u8],
    sa: &mut [SaSint],
    n: FastSint,
    k: SaSint,
    induction_bucket: &mut [SaSint],
    threads: SaSint,
    thread_state: &mut [ThreadState],
)
    requires
        threads == 1 || n < 65536 || desks_fit(old(thread_state)@),
        sort_left_walked(t@, n as int, k as int, threads as int, (old(sa)@, old(induction_bucket)@, desks(old(thread_state)@))) is Some,
    ensures
        sort_left_walked(t@, n as int, k as int, threads as int, (old(sa)@, old(induction_bucket)@, desks(old(thread_state)@)))
            == Some((final(sa)@, final(induction_bucket)@, desks(final(thread_state)@))),
        quiet(old(thread_state)@, final(thread_state)@),
        desks_sized(old(thread_state)@, final(thread_state)@),
        final(sa).len() == old(sa).len(),
        final(induction_bucket).len() == old(induction_bucket).len(),
{
    if threads == 1 || n < 65536 {
        let _ok: bool = try_final_left_8u(t, n as SaSint, sa, induction_bucket);
        return;
    }
    let _seeded: bool = try_seed_8u_1k(t, n as SaSint, sa, induction_bucket);
    let hi: usize = n as usize;
    let ghost short = sort_left_short(t@);
    let ghost long = sort_left_long(t@, k as int);
    let ghost span = worker_span(threads as int);
    let ghost end_state = walk_up(final_array(), short, long, span, (sa@, induction_bucket@, desks(thread_state@)), 0, hi as int);
    let mut lo: usize = 0;
    while lo < hi
        invariant
            hi <= i32::MAX,
            desks_fit(old(thread_state)@),
            desks_sized(old(thread_state)@, thread_state@),
            quiet(old(thread_state)@, thread_state@),
            short == sort_left_short(t@),
            long == sort_left_long(t@, k as int),
            span == worker_span(threads as int),
            end_state is Some,
            end_state == walk_up(final_array(), short, long, span, (sa@, induction_bucket@, desks(thread_state@)), lo as int, hi as int),
            lo <= hi,
            sa.len() == old(sa).len(),
            induction_bucket.len() == old(induction_bucket).len(),
        decreases hi - lo,
    {
        if sa[lo] == 0 {
            lo += 1;
        } else {
            let most: usize = span_for(threads as usize, false);
            let end: usize = find_up(sa, lo + 1, if lo + most < hi { lo + most } else { hi });
            if end - lo < 32 {
                let _ok: bool = try_final_sorting_scan_left_to_right_8u(t, sa, induction_bucket, lo as FastSint, (end - lo) as FastSint);
            } else {
                proof {
                    lemma_still_fit(old(thread_state)@, thread_state@);
                }
                final_sorting_scan_left_to_right_8u_block_omp(t, sa, k, induction_bucket, lo as FastSint, (end - lo) as FastSint, threads, thread_state);
            }
            lo = end;
        }
    }
}

/// A run of slots scanned from right to left for the transformed text, slot by slot.
pub open spec fn bwt_right_short(t: Seq<u8>) -> spec_fn(RankingState, int, int) -> Option<RankingState> {
    |s: RankingState, lo: int, size: int|
        match final_bwt_scan_right_to_left_8u_run(t, (s.0, s.1, -1i32), lo, size) {
            Some(x) => Some((x.0, x.1, if x.2 >= 0 { x.2 } else { s.2 }, s.3)),
            None => None,
        }
}

/// A run of slots scanned from right to left for the transformed text, as a block.
pub open spec fn bwt_right_long(t: Seq<u8>, k: int) -> spec_fn(RankingState, int, int) -> Option<RankingState> {
    |s: RankingState, lo: int, size: int|
        match block_bwt_right(t, k, (s.0, s.1, s.3), lo, size) {
            Some(x) => Some((x.0, x.1, s.2, x.2)),
            None => None,
        }
}

/// What [`final_bwt_scan_right_to_left_8u_omp`] leaves.
pub open spec fn bwt_right_walked(t: Seq<u8>, k: int, lo: int, hi: int, threads: int, s: RankingState) -> Option<RankingState> {
    if threads == 1 || hi - lo < 65536 {
        match final_bwt_scan_right_to_left_8u_run(t, (s.0, s.1, -1i32), lo, hi - lo) {
            Some(x) => Some((x.0, x.1, x.2, s.3)),
            None => None,
        }
    } else {
        walk_down(ranking_array(), ranking_empty(), bwt_right_short(t), bwt_right_long(t, k), worker_span(threads), s, lo, hi)
    }
}

/// Scans a byte text from right to left for the transformed text. Returns the slot of the whole
/// text, or `-1` where there is none.
pub fn final_bwt_scan_right_to_left_8u_omp(
    t: &[u8],
    sa: &mut [SaSint],
    n: SaSint,
    k: SaSint,
    induction_bucket: &mut [SaSint],
    threads: SaSint,
    thread_state: &mut [ThreadState],
) -> (r: SaSint)
    requires
        threads == 1 || n < 65536 || desks_fit(old(thread_state)@),
        bwt_right_walked(t@, k as int, 0, n as int, threads as int, (old(sa)@, old(induction_bucket)@, -1i32, desks(old(thread_state)@))) is Some,
    ensures
        bwt_right_walked(t@, k as int, 0, n as int, threads as int, (old(sa)@, old(induction_bucket)@, -1i32, desks(old(thread_state)@)))
            == Some((final(sa)@, final(induction_bucket)@, r, desks(final(thread_state)@))),
        quiet(old(thread_state)@, final(thread_state)@),
        desks_sized(old(thread_state)@, final(thread_state)@),
        final(sa).len() == old(sa).len(),
        final(induction_bucket).len() == old(induction_bucket).len(),
{
    let mut index: SaSint = -1;
    if threads == 1 || n < 65536 {
        let _ok: bool = try_final_bwt_scan_right_to_left_8u(t, sa, induction_bucket, &mut index, 0, n as FastSint);
        return index;
    }
    let lo: usize = 0;
    let ghost short = bwt_right_short(t@);
    let ghost long = bwt_right_long(t@, k as int);
    let ghost back = worker_span(threads as int);
    let ghost end_state = walk_down(ranking_array(), ranking_empty(), short, long, back, (sa@, induction_bucket@, index, desks(thread_state@)), 0, n as int);
    let mut hi: usize = n as usize;
    while hi > lo
        invariant
            hi <= isize::MAX,
            desks_fit(old(thread_state)@),
            desks_sized(old(thread_state)@, thread_state@),
            quiet(old(thread_state)@, thread_state@),
            short == bwt_right_short(t@),
            long == bwt_right_long(t@, k as int),
            back == worker_span(threads as int),
            end_state is Some,
            end_state == walk_down(ranking_array(), ranking_empty(), short, long, back, (sa@, induction_bucket@, index, desks(thread_state@)), lo as int, hi as int),
            lo <= hi,
            sa.len() == old(sa).len(),
            induction_bucket.len() == old(induction_bucket).len(),
        decreases hi - lo,
    {
        let p: usize = hi - 1;
        if sa[p] == 0 {
            index = p as SaSint;
            hi = p;
        } else {
            let most: usize = span_for(threads as usize, false);
            let end: usize = find_down(sa, p, if p > most && p - most > lo { p - most } else { lo });
            if hi - end < 32 {
                let mut found: SaSint = -1;
                let _ok: bool = try_final_bwt_scan_right_to_left_8u(t, sa, induction_bucket, &mut found, end as FastSint, (hi - end) as FastSint);
                if found >= 0 {
                    index = found;
                }
            } else {
                proof {
                    lemma_still_fit(old(thread_state)@, thread_state@);
                }
                final_bwt_scan_right_to_left_8u_block_omp(t, sa, k, induction_bucket, end as FastSint, (hi - end) as FastSint, threads, thread_state);
            }
            hi = end;
        }
    }
    index
}

/// A run of slots scanned from right to left for the transformed text and its samples, slot by slot.
pub open spec fn bwt_aux_right_short(t: Seq<u8>, rm: i32) -> spec_fn(SamplingState, int, int) -> Option<SamplingState> {
    |s: SamplingState, lo: int, size: int|
        match final_bwt_aux_scan_right_to_left_8u_run(t, rm, (s.0, s.1, s.2), lo, size) {
            Some(x) => Some((x.0, x.1, x.2, s.3)),
            None => None,
        }
}

/// A run of slots scanned from right to left for the transformed text and its samples, as a block.
pub open spec fn bwt_aux_right_long(t: Seq<u8>, rm: i32, k: int) -> spec_fn(SamplingState, int, int) -> Option<SamplingState> {
    |s: SamplingState, lo: int, size: int|
        block_bwt_aux_right(t, rm, k, s, lo, size)
}

/// What [`final_bwt_aux_scan_right_to_left_8u_omp`] leaves.
pub open spec fn bwt_aux_right_walked(t: Seq<u8>, rm: i32, k: int, lo: int, hi: int, threads: int, s: SamplingState) -> Option<SamplingState> {
    if threads == 1 || hi - lo < 65536 {
        bwt_aux_right_short(t, rm)(s, lo, hi - lo)
    } else {
        walk_down(sampling_array(), sampling_empty(), bwt_aux_right_short(t, rm), bwt_aux_right_long(t, rm, k), half_span(threads), s, lo, hi)
    }
}

/// Scans a byte text from right to left for the transformed text and its samples.
pub fn final_bwt_aux_scan_right_to_left_8u_omp(
    t: &[u8],
    sa: &mut [SaSint],
    n: SaSint,
    k: SaSint,
    rm: SaSint,
    i_out: &mut [SaSint],
    induction_bucket: &mut [SaSint],
    threads: SaSint,
    thread_state: &mut [ThreadState],
)
    requires
        threads == 1 || n < 65536 || desks_fit(old(thread_state)@),
        bwt_aux_right_walked(t@, rm, k as int, 0, n as int, threads as int, (old(sa)@, old(induction_bucket)@, old(i_out)@, desks(old(thread_state)@))) is Some,
    ensures
        bwt_aux_right_walked(t@, rm, k as int, 0, n as int, threads as int, (old(sa)@, old(induction_bucket)@, old(i_out)@, desks(old(thread_state)@)))
            == Some((final(sa)@, final(induction_bucket)@, final(i_out)@, desks(final(thread_state)@))),
        quiet(old(thread_state)@, final(thread_state)@),
        desks_sized(old(thread_state)@, final(thread_state)@),
        final(sa).len() == old(sa).len(),
        final(induction_bucket).len() == old(induction_bucket).len(),
        final(i_out).len() == old(i_out).len(),
{
    if threads == 1 || n < 65536 {
        let _ok: bool = try_final_bwt_aux_scan_right_to_left_8u_slot(t, rm, sa, induction_bucket, i_out, 0, n as FastSint);
        return;
    }
    let lo: usize = 0;
    let ghost short = bwt_aux_right_short(t@, rm);
    let ghost long = bwt_aux_right_long(t@, rm, k as int);
    let ghost back = half_span(threads as int);
    let ghost end_state = walk_down(sampling_array(), sampling_empty(), short, long, back, (sa@, induction_bucket@, i_out@, desks(thread_state@)), 0, n as int);
    let mut hi: usize = n as usize;
    while hi > lo
        invariant
            hi <= isize::MAX,
            desks_fit(old(thread_state)@),
            desks_sized(old(thread_state)@, thread_state@),
            quiet(old(thread_state)@, thread_state@),
            short == bwt_aux_right_short(t@, rm),
            long == bwt_aux_right_long(t@, rm, k as int),
            back == half_span(threads as int),
            end_state is Some,
            end_state == walk_down(sampling_array(), sampling_empty(), short, long, back, (sa@, induction_bucket@, i_out@, desks(thread_state@)), lo as int, hi as int),
            lo <= hi,
            sa.len() == old(sa).len(),
            induction_bucket.len() == old(induction_bucket).len(),
            i_out.len() == old(i_out).len(),
        decreases hi - lo,
    {
        let p: usize = hi - 1;
        if sa[p] == 0 {
            hi = p;
        } else {
            let most: usize = span_for(threads as usize, true);
            let end: usize = find_down(sa, p, if p > most && p - most > lo { p - most } else { lo });
            if hi - end < 32 {
                let _ok: bool = try_final_bwt_aux_scan_right_to_left_8u_slot(t, rm, sa, induction_bucket, i_out, end as FastSint, hi as FastSint);
            } else {
                proof {
                    lemma_still_fit(old(thread_state)@, thread_state@);
                }
                final_bwt_aux_scan_right_to_left_8u_block_omp(t, sa, k, rm, i_out, induction_bucket, end as FastSint, (hi - end) as FastSint, threads, thread_state);
            }
            hi = end;
        }
    }
}

/// A run of slots scanned from right to left for the final order, slot by slot.
pub open spec fn sort_right_short(t: Seq<u8>) -> spec_fn(FinalState, int, int) -> Option<FinalState> {
    |s: FinalState, lo: int, size: int|
        match final_sorting_scan_right_to_left_8u_run(t, (s.0, s.1), lo, size) {
            Some(x) => Some((x.0, x.1, s.2)),
            None => None,
        }
}

/// A run of slots scanned from right to left for the final order, as a block.
pub open spec fn sort_right_long(t: Seq<u8>, k: int) -> spec_fn(FinalState, int, int) -> Option<FinalState> {
    |s: FinalState, lo: int, size: int|
        block_final_right(t, k, s, lo, size)
}

/// What [`final_sorting_scan_right_to_left_8u_omp`] leaves.
pub open spec fn sort_right_walked(t: Seq<u8>, k: int, lo: int, hi: int, threads: int, s: FinalState) -> Option<FinalState> {
    if threads == 1 || hi - lo < 65536 {
        sort_right_short(t)(s, lo, hi - lo)
    } else {
        walk_down(final_array(), final_empty(), sort_right_short(t), sort_right_long(t, k), worker_span(threads), s, lo, hi)
    }
}

/// Scans a block of a byte text from right to left for the final order.
pub fn final_sorting_scan_right_to_left_8u_omp(
    t: &[u8],
    sa: &mut [SaSint],
    omp_block_start: FastSint,
    omp_block_size: FastSint,
    k: SaSint,
    induction_bucket: &mut [SaSint],
    threads: SaSint,
    thread_state: &mut [ThreadState],
)
    requires
        isize::MIN <= omp_block_start + omp_block_size <= isize::MAX,
        threads == 1 || omp_block_size < 65536 || desks_fit(old(thread_state)@),
        sort_right_walked(t@, k as int, omp_block_start as int, omp_block_start + omp_block_size, threads as int, (old(sa)@, old(induction_bucket)@, desks(old(thread_state)@))) is Some,
    ensures
        sort_right_walked(t@, k as int, omp_block_start as int, omp_block_start + omp_block_size, threads as int, (old(sa)@, old(induction_bucket)@, desks(old(thread_state)@)))
            == Some((final(sa)@, final(induction_bucket)@, desks(final(thread_state)@))),
        quiet(old(thread_state)@, final(thread_state)@),
        desks_sized(old(thread_state)@, final(thread_state)@),
        final(sa).len() == old(sa).len(),
        final(induction_bucket).len() == old(induction_bucket).len(),
{
    if threads == 1 || omp_block_size < 65536 {
        let _ok: bool = try_final_sorting_scan_right_to_left_8u(t, sa, induction_bucket, omp_block_start, omp_block_size);
        return;
    }
    let lo: usize = omp_block_start as usize;
    let ghost short = sort_right_short(t@);
    let ghost long = sort_right_long(t@, k as int);
    let ghost back = worker_span(threads as int);
    let ghost end_state = walk_down(final_array(), final_empty(), short, long, back, (sa@, induction_bucket@, desks(thread_state@)), omp_block_start as int, omp_block_start + omp_block_size);
    let mut hi: usize = (omp_block_start + omp_block_size) as usize;
    while hi > lo
        invariant
            hi <= isize::MAX,
            desks_fit(old(thread_state)@),
            desks_sized(old(thread_state)@, thread_state@),
            quiet(old(thread_state)@, thread_state@),
            short == sort_right_short(t@),
            long == sort_right_long(t@, k as int),
            back == worker_span(threads as int),
            end_state is Some,
            end_state == walk_down(final_array(), final_empty(), short, long, back, (sa@, induction_bucket@, desks(thread_state@)), lo as int, hi as int),
            lo <= hi,
            sa.len() == old(sa).len(),
            induction_bucket.len() == old(induction_bucket).len(),
        decreases hi - lo,
    {
        let p: usize = hi - 1;
        if sa[p] == 0 {
            hi = p;
        } else {
            let most: usize = span_for(threads as usize, false);
            let end: usize = find_down(sa, p, if p > most && p - most > lo { p - most } else { lo });
            if hi - end < 32 {
                let _ok: bool = try_final_sorting_scan_right_to_left_8u(t, sa, induction_bucket, end as FastSint, (hi - end) as FastSint);
            } else {
                proof {
                    lemma_still_fit(old(thread_state)@, thread_state@);
                }
                final_sorting_scan_right_to_left_8u_block_omp(t, sa, k, induction_bucket, end as FastSint, (hi - end) as FastSint, threads, thread_state);
            }
            hi = end;
        }
    }
}

/// A run of slots of separated texts scanned from right to left for the final order, slot by slot.
pub open spec fn sort_gsa_short(t: Seq<u8>) -> spec_fn(FinalState, int, int) -> Option<FinalState> {
    |s: FinalState, lo: int, size: int|
        match final_gsa_scan_right_to_left_8u_run(t, (s.0, s.1), lo, size) {
            Some(x) => Some((x.0, x.1, s.2)),
            None => None,
        }
}

/// A run of slots of separated texts scanned from right to left for the final order, as a block.
pub open spec fn sort_gsa_long(t: Seq<u8>, k: int) -> spec_fn(FinalState, int, int) -> Option<FinalState> {
    |s: FinalState, lo: int, size: int|
        block_final_gsa(t, k, s, lo, size)
}

/// What [`final_gsa_scan_right_to_left_8u_omp`] leaves.
pub open spec fn sort_gsa_walked(t: Seq<u8>, k: int, lo: int, hi: int, threads: int, s: FinalState) -> Option<FinalState> {
    if threads == 1 || hi - lo < 65536 {
        sort_gsa_short(t)(s, lo, hi - lo)
    } else {
        walk_down(final_array(), final_empty(), sort_gsa_short(t), sort_gsa_long(t, k), worker_span(threads), s, lo, hi)
    }
}

/// Scans a block of separated texts from right to left for the final order.
pub fn final_gsa_scan_right_to_left_8u_omp(
    t: &[u8],
    sa: &mut [SaSint],
    omp_block_start: FastSint,
    omp_block_size: FastSint,
    k: SaSint,
    induction_bucket: &mut [SaSint],
    threads: SaSint,
    thread_state: &mut [ThreadState],
)
    requires
        isize::MIN <= omp_block_start + omp_block_size <= isize::MAX,
        threads == 1 || omp_block_size < 65536 || desks_fit(old(thread_state)@),
        sort_gsa_walked(t@, k as int, omp_block_start as int, omp_block_start + omp_block_size, threads as int, (old(sa)@, old(induction_bucket)@, desks(old(thread_state)@))) is Some,
    ensures
        sort_gsa_walked(t@, k as int, omp_block_start as int, omp_block_start + omp_block_size, threads as int, (old(sa)@, old(induction_bucket)@, desks(old(thread_state)@)))
            == Some((final(sa)@, final(induction_bucket)@, desks(final(thread_state)@))),
        quiet(old(thread_state)@, final(thread_state)@),
        desks_sized(old(thread_state)@, final(thread_state)@),
        final(sa).len() == old(sa).len(),
        final(induction_bucket).len() == old(induction_bucket).len(),
{
    if threads == 1 || omp_block_size < 65536 {
        let _ok: bool = try_final_gsa_scan_right_to_left_8u(t, sa, induction_bucket, omp_block_start, omp_block_size);
        return;
    }
    let lo: usize = omp_block_start as usize;
    let ghost short = sort_gsa_short(t@);
    let ghost long = sort_gsa_long(t@, k as int);
    let ghost back = worker_span(threads as int);
    let ghost end_state = walk_down(final_array(), final_empty(), short, long, back, (sa@, induction_bucket@, desks(thread_state@)), omp_block_start as int, omp_block_start + omp_block_size);
    let mut hi: usize = (omp_block_start + omp_block_size) as usize;
    while hi > lo
        invariant
            hi <= isize::MAX,
            desks_fit(old(thread_state)@),
            desks_sized(old(thread_state)@, thread_state@),
            quiet(old(thread_state)@, thread_state@),
            short == sort_gsa_short(t@),
            long == sort_gsa_long(t@, k as int),
            back == worker_span(threads as int),
            end_state is Some,
            end_state == walk_down(final_array(), final_empty(), short, long, back, (sa@, induction_bucket@, desks(thread_state@)), lo as int, hi as int),
            lo <= hi,
            sa.len() == old(sa).len(),
            induction_bucket.len() == old(induction_bucket).len(),
        decreases hi - lo,
    {
        let p: usize = hi - 1;
        if sa[p] == 0 {
            hi = p;
        } else {
            let most: usize = span_for(threads as usize, false);
            let end: usize = find_down(sa, p, if p > most && p - most > lo { p - most } else { lo });
            if hi - end < 32 {
                let _ok: bool = try_final_gsa_scan_right_to_left_8u(t, sa, induction_bucket, end as FastSint, (hi - end) as FastSint);
            } else {
                proof {
                    lemma_still_fit(old(thread_state)@, thread_state@);
                }
                final_gsa_scan_right_to_left_8u_block_omp(t, sa, k, induction_bucket, end as FastSint, (hi - end) as FastSint, threads, thread_state);
            }
            hi = end;
        }
    }
}

} // verus!
