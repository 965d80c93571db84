//! Whole scans over integer texts, for any number of workers: the last suffix is placed first
//! where a scan goes from left to right, and what the sorted suffixes induce follows.

use vstd::prelude::*;
use crate::block_32s::{
    cached_final_left, cached_final_right, cached_left_1k, cached_left_4k, cached_left_6k, cached_right_1k,
    cached_right_4k, cached_right_6k, final_sorting_scan_left_to_right_32s_block_omp,
    final_sorting_scan_right_to_left_32s_block_omp, partial_sorting_scan_left_to_right_32s_1k_block_omp,
    partial_sorting_scan_left_to_right_32s_4k_block_omp, partial_sorting_scan_left_to_right_32s_6k_block_omp,
    partial_sorting_scan_right_to_left_32s_1k_block_omp, partial_sorting_scan_right_to_left_32s_4k_block_omp,
    partial_sorting_scan_right_to_left_32s_6k_block_omp,
};
use crate::block_8u::NamingState;
use crate::desks::{desks, desks_fit, desks_sized, quiet, Desk};
use crate::final_scan::{final_sorting_scan_right_to_left_32s_run, try_final_sorting_scan_right_to_left_32s};
use crate::induce::{
    final_left_32s, partial_left_32s_1k, partial_left_32s_4k, partial_left_32s_6k, seeded_32s_1k, seeded_32s_4k,
    seeded_32s_6k, try_final_left_32s, try_partial_left_32s_1k, try_partial_left_32s_4k, try_partial_left_32s_6k,
    try_seed_32s_1k, try_seed_32s_4k, try_seed_32s_6k,
};
use crate::partial_32s::{
    partial_sorting_scan_left_to_right_32s_1k_run, partial_sorting_scan_left_to_right_32s_4k_run,
    partial_sorting_scan_left_to_right_32s_6k_run, partial_sorting_scan_right_to_left_32s_1k_run,
    partial_sorting_scan_right_to_left_32s_4k_run, partial_sorting_scan_right_to_left_32s_6k_run,
    try_partial_sorting_scan_right_to_left_32s_1k, try_partial_sorting_scan_right_to_left_32s_4k,
    try_partial_sorting_scan_right_to_left_32s_6k,
};
use crate::sweeps::{lemma_still_fit, FinalState};
use crate::types::{FastSint, SaSint, ThreadState, LIBSAIS_PER_THREAD_CACHE_SIZE};
use crate::walks::{chunks_down, chunks_up};

verus! {

/// How many slots a part has that `threads` workers scan with the cache of the first, at least
/// those of one.
pub open spec fn part_span(threads: int) -> int {
    if threads < 0 {
        -1
    } else if threads < 1 {
        LIBSAIS_PER_THREAD_CACHE_SIZE as int
    } else {
        threads * LIBSAIS_PER_THREAD_CACHE_SIZE
    }
}

/// How many slots a part has that `threads` workers scan with the cache of the first.
pub open spec fn full_span(threads: int) -> int {
    threads * LIBSAIS_PER_THREAD_CACHE_SIZE
}

/// Computes [`part_span`].
fn part_size(threads: SaSint) -> (r: u64)
    requires
        0 <= threads,
    ensures
        r == part_span(threads as int),
        1 <= r,
{
    let w: u64 = if threads < 1 { 1 } else { threads as u64 };
    let one: u64 = LIBSAIS_PER_THREAD_CACHE_SIZE as u64;
    assert(1 <= w * one <= 0x7fff_ffff * 24576) by (nonlinear_arith)
        requires
            1 <= w <= 0x7fff_ffff,
            one == 24576,
    ;
    w * one
}

/// The desks with another cache at the first.
pub open spec fn with_cache(d: Seq<Desk>, cache: Seq<crate::types::ThreadCache>) -> Seq<Desk> {
    d.update(0, Desk { cache, ..d[0] })
}

/// A part of a scan from left to right that names, with six buckets for each symbol.
pub open spec fn left_6k_part(t: Seq<i32>, threads: int) -> spec_fn(NamingState, int, int) -> Option<NamingState> {
    |s: NamingState, lo: int, size: int|
        if s.3.len() == 0 {
            None
        } else if threads == 1 || size < 16384 {
            match partial_sorting_scan_left_to_right_32s_6k_run(t, (s.0, s.1, s.2), lo, size) {
                Some(x) => Some((x.0, x.1, x.2, s.3)),
                None => None,
            }
        } else {
            match cached_left_6k(t, s.0, s.1, s.2, s.3[0].cache, lo, size) {
                Some(x) => Some((x.0, x.1, x.2, with_cache(s.3, x.3))),
                None => None,
            }
        }
}

/// What [`partial_sorting_scan_left_to_right_32s_6k_omp`] leaves.
pub open spec fn left_6k_walked(t: Seq<i32>, n: int, count: int, threads: int, s: NamingState) -> Option<NamingState> {
    if threads == 1 || count < 65536 || s.3.len() == 0 {
        match partial_left_32s_6k(t, n, count, (s.0, s.1, s.2)) {
            Some(x) => Some((x.0, x.1, x.2, s.3)),
            None => None,
        }
    } else {
        match seeded_32s_6k(t, n, (s.0, s.1, s.2)) {
            Some(x) => chunks_up(left_6k_part(t, threads), part_span(threads), (x.0, x.1, x.2, s.3), 0, count),
            None => None,
        }
    }
}

/// Scans the LMS substrings of an integer text from left to right, the last suffix first, with
/// six buckets for each symbol. Returns the last name.
pub fn partial_sorting_scan_left_to_right_32s_6k_omp(
    t: &[SaSint],
    sa: &mut [SaSint],
    n: SaSint,
    buckets: &mut [SaSint],
    left_suffixes_count: SaSint,
    d: SaSint,
    threads: SaSint,
    thread_state: &mut [ThreadState],
) -> (r: SaSint)
    requires
        threads == 1 || left_suffixes_count < 65536 || desks_fit(old(thread_state)@),
        left_6k_walked(t@, n as int, left_suffixes_count as int, threads as int, (old(sa)@, old(buckets)@, d, desks(old(thread_state)@))) is Some,
    ensures
        left_6k_walked(t@, n as int, left_suffixes_count as int, threads as int, (old(sa)@, old(buckets)@, d, desks(old(thread_state)@)))
            == Some((final(sa)@, final(buckets)@, r, desks(final(thread_state)@))),
        quiet(old(thread_state)@, final(thread_state)@),
        desks_sized(old(thread_state)@, final(thread_state)@),
        final(sa).len() == old(sa).len(),
        final(buckets).len() == old(buckets).len(),
{
    let mut names: SaSint = d;
    if threads == 1 || left_suffixes_count < 65536 || thread_state.len() == 0 {
        let _ok: bool = try_partial_left_32s_6k(t, n, left_suffixes_count, sa, buckets, &mut names);
        return names;
    }
    let _seeded: bool = try_seed_32s_6k(t, n, sa, buckets, &mut names);
    let ghost step = left_6k_part(t@, threads as int);
    let ghost span = part_span(threads as int);
    let ghost end_state = chunks_up(step, span, (sa@, buckets@, names, desks(thread_state@)), 0, left_suffixes_count as int);
    let hi: usize = (left_suffixes_count) as usize;
    let mut lo: usize = 0;
    while lo < hi
        invariant
            hi <= i32::MAX,
            lo <= hi,
            1 <= thread_state.len(),
            desks_fit(old(thread_state)@),
            desks_sized(old(thread_state)@, thread_state@),
            quiet(old(thread_state)@, thread_state@),
            step == left_6k_part(t@, threads as int),
            span == part_span(threads as int),
            end_state is Some,
            end_state == chunks_up(step, span, (sa@, buckets@, names, desks(thread_state@)), lo as int, hi as int),
            sa.len() == old(sa).len(),
            buckets.len() == old(buckets).len(),
        decreases hi - lo,
    {
        let most: u64 = part_size(threads);
        let end: usize = if most < (hi - lo) as u64 { lo + most as usize } else { hi };
        let ghost before = thread_state@;
        proof {
            lemma_still_fit(old(thread_state)@, before);
            assert(before[0].cache.len() <= isize::MAX);
        }
        names = partial_sorting_scan_left_to_right_32s_6k_block_omp(t, sa, buckets, names, thread_state[0].cache.as_mut_slice(), lo as FastSint, (end - lo) as FastSint, threads);
        proof {
            assert(desks(thread_state@) =~= with_cache(desks(before), thread_state@[0].cache@));
            if thread_state@[0].cache@ == before[0].cache@ {
                assert(desks(thread_state@) =~= desks(before));
            }
        }
        lo = end;
    }
    names
}

/// A part of a scan from left to right that names, with four buckets for each symbol.
pub open spec fn left_4k_part(t: Seq<i32>, k: int, threads: int) -> spec_fn(NamingState, int, int) -> Option<NamingState> {
    |s: NamingState, lo: int, size: int|
        if s.3.len() == 0 {
            None
        } else if threads == 1 || size < 16384 {
            match partial_sorting_scan_left_to_right_32s_4k_run(t, k, (s.0, s.1, s.2), lo, size) {
                Some(x) => Some((x.0, x.1, x.2, s.3)),
                None => None,
            }
        } else {
            match cached_left_4k(t, k, s.0, s.1, s.2, s.3[0].cache, lo, size) {
                Some(x) => Some((x.0, x.1, x.2, with_cache(s.3, x.3))),
                None => None,
            }
        }
}

/// What [`partial_sorting_scan_left_to_right_32s_4k_omp`] leaves.
pub open spec fn left_4k_walked(t: Seq<i32>, n: int, k: int, threads: int, s: NamingState) -> Option<NamingState> {
    if threads == 1 || n < 65536 || s.3.len() == 0 {
        match partial_left_32s_4k(t, n, k, (s.0, s.1, s.2)) {
            Some(x) => Some((x.0, x.1, x.2, s.3)),
            None => None,
        }
    } else {
        match seeded_32s_4k(t, n, k, (s.0, s.1, s.2)) {
            Some(x) => chunks_up(left_4k_part(t, k, threads), part_span(threads), (x.0, x.1, x.2, s.3), 0, n),
            None => None,
        }
    }
}

/// Scans the LMS substrings of an integer text from left to right, the last suffix first, with
/// four buckets for each symbol. Returns the last name.
pub fn partial_sorting_scan_left_to_right_32s_4k_omp(
    t: &[SaSint],
    sa: &mut [SaSint],
    n: SaSint,
    k: SaSint,
    buckets: &mut [SaSint],
    d: SaSint,
    threads: SaSint,
    thread_state: &mut [ThreadState],
) -> (r: SaSint)
    requires
        threads == 1 || n < 65536 || desks_fit(old(thread_state)@),
        left_4k_walked(t@, n as int, k as int, threads as int, (old(sa)@, old(buckets)@, d, desks(old(thread_state)@))) is Some,
    ensures
        left_4k_walked(t@, n as int, k as int, threads as int, (old(sa)@, old(buckets)@, d, desks(old(thread_state)@)))
            == Some((final(sa)@, final(buckets)@, r, desks(final(thread_state)@))),
        quiet(old(thread_state)@, final(thread_state)@),
        desks_sized(old(thread_state)@, final(thread_state)@),
        final(sa).len() == old(sa).len(),
        final(buckets).len() == old(buckets).len(),
{
    let mut names: SaSint = d;
    if threads == 1 || n < 65536 || thread_state.len() == 0 {
        let _ok: bool = try_partial_left_32s_4k(t, n, k, sa, buckets, &mut names);
        return names;
    }
    let _seeded: bool = try_seed_32s_4k(t, n, k, sa, buckets, &mut names);
    let ghost step = left_4k_part(t@, k as int, threads as int);
    let ghost span = part_span(threads as int);
    let ghost end_state = chunks_up(step, span, (sa@, buckets@, names, desks(thread_state@)), 0, n as int);
    let hi: usize = (n) as usize;
    let mut lo: usize = 0;
    while lo < hi
        invariant
            hi <= i32::MAX,
            lo <= hi,
            1 <= thread_state.len(),
            desks_fit(old(thread_state)@),
            desks_sized(old(thread_state)@, thread_state@),
            quiet(old(thread_state)@, thread_state@),
            step == left_4k_part(t@, k as int, threads as int),
            span == part_span(threads as int),
            end_state is Some,
            end_state == chunks_up(step, span, (sa@, buckets@, names, desks(thread_state@)), lo as int, hi as int),
            sa.len() == old(sa).len(),
            buckets.len() == old(buckets).len(),
        decreases hi - lo,
    {
        let most: u64 = part_size(threads);
        let end: usize = if most < (hi - lo) as u64 { lo + most as usize } else { hi };
        let ghost before = thread_state@;
        proof {
            lemma_still_fit(old(thread_state)@, before);
            assert(before[0].cache.len() <= isize::MAX);
        }
        names = partial_sorting_scan_left_to_right_32s_4k_block_omp(t, sa, k, buckets, names, thread_state[0].cache.as_mut_slice(), lo as FastSint, (end - lo) as FastSint, threads);
        proof {
            assert(desks(thread_state@) =~= with_cache(desks(before), thread_state@[0].cache@));
            if thread_state@[0].cache@ == before[0].cache@ {
                assert(desks(thread_state@) =~= desks(before));
            }
        }
        lo = end;
    }
    names
}

/// A part of a scan from left to right over LMS substrings, with one bucket for each symbol.
pub open spec fn left_1k_part(t: Seq<i32>, threads: int) -> spec_fn(FinalState, int, int) -> Option<FinalState> {
    |s: FinalState, lo: int, size: int|
        if s.2.len() == 0 {
            None
        } else if threads == 1 || size < 16384 {
            match partial_sorting_scan_left_to_right_32s_1k_run(t, (s.0, s.1), lo, size) {
                Some(x) => Some((x.0, x.1, s.2)),
                None => None,
            }
        } else {
            match cached_left_1k(t, s.0, s.1, s.2[0].cache, lo, size) {
                Some(x) => Some((x.0, x.1, with_cache(s.2, x.2))),
                None => None,
            }
        }
}

/// What [`partial_sorting_scan_left_to_right_32s_1k_omp`] leaves.
pub open spec fn left_1k_walked(t: Seq<i32>, n: int, threads: int, s: FinalState) -> Option<FinalState> {
    if threads == 1 || n < 65536 || s.2.len() == 0 {
        match partial_left_32s_1k(t, n, (s.0, s.1)) {
            Some(x) => Some((x.0, x.1, s.2)),
            None => None,
        }
    } else {
        match seeded_32s_1k(t, n, (s.0, s.1)) {
            Some(x) => chunks_up(left_1k_part(t, threads), part_span(threads), (x.0, x.1, s.2), 0, n),
            None => None,
        }
    }
}

/// Scans the LMS substrings of an integer text from left to right, the last suffix first, with
/// one bucket for each symbol.
pub fn partial_sorting_scan_left_to_right_32s_1k_omp(
    t: &[SaSint],
    sa: &mut [SaSint],
    n: SaSint,
    buckets: &mut [SaSint],
    threads: SaSint,
    thread_state: &mut [ThreadState],
)
    requires
        threads == 1 || n < 65536 || desks_fit(old(thread_state)@),
        left_1k_walked(t@, n as int, threads as int, (old(sa)@, old(buckets)@, desks(old(thread_state)@))) is Some,
    ensures
        left_1k_walked(t@, n as int, threads as int, (old(sa)@, old(buckets)@, desks(old(thread_state)@)))
            == Some((final(sa)@, final(buckets)@, desks(final(thread_state)@))),
        quiet(old(thread_state)@, final(thread_state)@),
        desks_sized(old(thread_state)@, final(thread_state)@),
        final(sa).len() == old(sa).len(),
        final(buckets).len() == old(buckets).len(),
{
    if threads == 1 || n < 65536 || thread_state.len() == 0 {
        let _ok: bool = try_partial_left_32s_1k(t, n, sa, buckets);
        return;
    }
    let _seeded: bool = try_seed_32s_1k(t, n, sa, buckets);
    let ghost step = left_1k_part(t@, threads as int);
    let ghost span = part_span(threads as int);
    let ghost end_state = chunks_up(step, span, (sa@, buckets@, desks(thread_state@)), 0, n as int);
    let hi: usize = (n) as usize;
    let mut lo: usize = 0;
    while lo < hi
        invariant
            hi <= i32::MAX,
            lo <= hi,
            1 <= thread_state.len(),
            desks_fit(old(thread_state)@),
            desks_sized(old(thread_state)@, thread_state@),
            quiet(old(thread_state)@, thread_state@),
            step == left_1k_part(t@, threads as int),
            span == part_span(threads as int),
            end_state is Some,
            end_state == chunks_up(step, span, (sa@, buckets@, desks(thread_state@)), lo as int, hi as int),
            sa.len() == old(sa).len(),
            buckets.len() == old(buckets).len(),
        decreases hi - lo,
    {
        let most: u64 = part_size(threads);
        let end: usize = if most < (hi - lo) as u64 { lo + most as usize } else { hi };
        let ghost before = thread_state@;
        proof {
            lemma_still_fit(old(thread_state)@, before);
            assert(before[0].cache.len() <= isize::MAX);
        }
        partial_sorting_scan_left_to_right_32s_1k_block_omp(t, sa, buckets, thread_state[0].cache.as_mut_slice(), lo as FastSint, (end - lo) as FastSint, threads);
        proof {
            assert(desks(thread_state@) =~= with_cache(desks(before), thread_state@[0].cache@));
            if thread_state@[0].cache@ == before[0].cache@ {
                assert(desks(thread_state@) =~= desks(before));
            }
        }
        lo = end;
    }
}

/// A part of a scan from right to left that names, with six buckets for each symbol.
pub open spec fn right_6k_part(t: Seq<i32>, threads: int) -> spec_fn(NamingState, int, int) -> Option<NamingState> {
    |s: NamingState, lo: int, size: int|
        if s.3.len() == 0 {
            None
        } else if threads == 1 || size < 16384 {
            match partial_sorting_scan_right_to_left_32s_6k_run(t, (s.0, s.1, s.2), lo, size) {
                Some(x) => Some((x.0, x.1, x.2, s.3)),
                None => None,
            }
        } else {
            match cached_right_6k(t, s.0, s.1, s.2, s.3[0].cache, lo, size) {
                Some(x) => Some((x.0, x.1, x.2, with_cache(s.3, x.3))),
                None => None,
            }
        }
}

/// What [`partial_sorting_scan_right_to_left_32s_6k_omp`] leaves.
pub open spec fn right_6k_walked(t: Seq<i32>, lo: int, hi: int, threads: int, s: NamingState) -> Option<NamingState> {
    if threads == 1 || hi - lo < 65536 || s.3.len() == 0 {
        match partial_sorting_scan_right_to_left_32s_6k_run(t, (s.0, s.1, s.2), lo, hi - lo) {
            Some(x) => Some((x.0, x.1, x.2, s.3)),
            None => None,
        }
    } else {
        chunks_down(right_6k_part(t, threads), part_span(threads), s, lo, hi)
    }
}

/// Scans the LMS substrings of an integer text from right to left, with six buckets for each
/// symbol. Returns the last name.
pub fn partial_sorting_scan_right_to_left_32s_6k_omp(
    t: &[SaSint],
    sa: &mut [SaSint],
    n: SaSint,
    buckets: &mut [SaSint],
    first_lms_suffix: SaSint,
    left_suffixes_count: SaSint,
    d: SaSint,
    threads: SaSint,
    thread_state: &mut [ThreadState],
) -> (r: SaSint)
    requires
        0 <= first_lms_suffix <= n,
        0 <= left_suffixes_count < i32::MAX,
        threads == 1 || (n - first_lms_suffix) - (left_suffixes_count + 1) < 65536 || desks_fit(old(thread_state)@),
        right_6k_walked(t@, left_suffixes_count + 1, n - first_lms_suffix, threads as int, (old(sa)@, old(buckets)@, d, desks(old(thread_state)@))) is Some,
    ensures
        right_6k_walked(t@, left_suffixes_count + 1, n - first_lms_suffix, threads as int, (old(sa)@, old(buckets)@, d, desks(old(thread_state)@)))
            == Some((final(sa)@, final(buckets)@, r, desks(final(thread_state)@))),
        quiet(old(thread_state)@, final(thread_state)@),
        desks_sized(old(thread_state)@, final(thread_state)@),
        final(sa).len() == old(sa).len(),
        final(buckets).len() == old(buckets).len(),
{
    let mut names: SaSint = d;
    if threads == 1 || (n - first_lms_suffix) - (left_suffixes_count + 1) < 65536 || thread_state.len() == 0 {
        let _ok: bool = try_partial_sorting_scan_right_to_left_32s_6k(
            t, sa, buckets, &mut names, left_suffixes_count as FastSint + 1,
            (n - first_lms_suffix) as FastSint - (left_suffixes_count as FastSint + 1));
        return names;
    }
    let ghost step = right_6k_part(t@, threads as int);
    let ghost span = part_span(threads as int);
    let ghost end_state = chunks_down(step, span, (sa@, buckets@, names, desks(thread_state@)), left_suffixes_count + 1, n - first_lms_suffix);
    let lo: usize = (left_suffixes_count as FastSint + 1) as usize;
    let mut hi: usize = (n - first_lms_suffix) as usize;
    while hi > lo
        invariant
            hi <= i32::MAX,
            lo <= hi,
            1 <= thread_state.len(),
            desks_fit(old(thread_state)@),
            desks_sized(old(thread_state)@, thread_state@),
            quiet(old(thread_state)@, thread_state@),
            step == right_6k_part(t@, threads as int),
            span == part_span(threads as int),
            end_state is Some,
            end_state == chunks_down(step, span, (sa@, buckets@, names, desks(thread_state@)), lo as int, hi as int),
            sa.len() == old(sa).len(),
            buckets.len() == old(buckets).len(),
        decreases hi - lo,
    {
        let most: u64 = part_size(threads);
        let start: usize = if most < (hi - lo) as u64 { hi - most as usize } else { lo };
        let ghost before = thread_state@;
        proof {
            lemma_still_fit(old(thread_state)@, before);
            assert(before[0].cache.len() <= isize::MAX);
        }
        names = partial_sorting_scan_right_to_left_32s_6k_block_omp(t, sa, buckets, names, thread_state[0].cache.as_mut_slice(), start as FastSint, (hi - start) as FastSint, threads);
        proof {
            assert(desks(thread_state@) =~= with_cache(desks(before), thread_state@[0].cache@));
            if thread_state@[0].cache@ == before[0].cache@ {
                assert(desks(thread_state@) =~= desks(before));
            }
        }
        hi = start;
    }
    names
}

/// A part of a scan from right to left that names, with four buckets for each symbol.
pub open spec fn right_4k_part(t: Seq<i32>, k: int, threads: int) -> spec_fn(NamingState, int, int) -> Option<NamingState> {
    |s: NamingState, lo: int, size: int|
        if s.3.len() == 0 {
            None
        } else if threads == 1 || size < 16384 {
            match partial_sorting_scan_right_to_left_32s_4k_run(t, k, (s.0, s.1, s.2), lo, size) {
                Some(x) => Some((x.0, x.1, x.2, s.3)),
                None => None,
            }
        } else {
            match cached_right_4k(t, k, s.0, s.1, s.2, s.3[0].cache, lo, size) {
                Some(x) => Some((x.0, x.1, x.2, with_cache(s.3, x.3))),
                None => None,
            }
        }
}

/// What [`partial_sorting_scan_right_to_left_32s_4k_omp`] leaves.
pub open spec fn right_4k_walked(t: Seq<i32>, lo: int, hi: int, k: int, threads: int, s: NamingState) -> Option<NamingState> {
    if threads == 1 || hi - lo < 65536 || s.3.len() == 0 {
        match partial_sorting_scan_right_to_left_32s_4k_run(t, k, (s.0, s.1, s.2), lo, hi - lo) {
            Some(x) => Some((x.0, x.1, x.2, s.3)),
            None => None,
        }
    } else {
        chunks_down(right_4k_part(t, k, threads), part_span(threads), s, lo, hi)
    }
}

/// Scans the LMS substrings of an integer text from right to left, with four buckets for each
/// symbol. Returns the last name.
pub fn partial_sorting_scan_right_to_left_32s_4k_omp(
    t: &[SaSint],
    sa: &mut [SaSint],
    n: SaSint,
    k: SaSint,
    buckets: &mut [SaSint],
    d: SaSint,
    threads: SaSint,
    thread_state: &mut [ThreadState],
) -> (r: SaSint)
    requires
        threads == 1 || n < 65536 || desks_fit(old(thread_state)@),
        right_4k_walked(t@, 0, n as int, k as int, threads as int, (old(sa)@, old(buckets)@, d, desks(old(thread_state)@))) is Some,
    ensures
        right_4k_walked(t@, 0, n as int, k as int, threads as int, (old(sa)@, old(buckets)@, d, desks(old(thread_state)@)))
            == Some((final(sa)@, final(buckets)@, r, desks(final(thread_state)@))),
        quiet(old(thread_state)@, final(thread_state)@),
        desks_sized(old(thread_state)@, final(thread_state)@),
        final(sa).len() == old(sa).len(),
        final(buckets).len() == old(buckets).len(),
{
    let mut names: SaSint = d;
    if threads == 1 || n < 65536 || thread_state.len() == 0 {
        let _ok: bool = try_partial_sorting_scan_right_to_left_32s_4k(t, sa, k, buckets, &mut names, 0, n as FastSint);
        return names;
    }
    let ghost step = right_4k_part(t@, k as int, threads as int);
    let ghost span = part_span(threads as int);
    let ghost end_state = chunks_down(step, span, (sa@, buckets@, names, desks(thread_state@)), 0, n as int);
    let lo: usize = (0) as usize;
    let mut hi: usize = (n) as usize;
    while hi > lo
        invariant
            hi <= i32::MAX,
            lo <= hi,
            1 <= thread_state.len(),
            desks_fit(old(thread_state)@),
            desks_sized(old(thread_state)@, thread_state@),
            quiet(old(thread_state)@, thread_state@),
            step == right_4k_part(t@, k as int, threads as int),
            span == part_span(threads as int),
            end_state is Some,
            end_state == chunks_down(step, span, (sa@, buckets@, names, desks(thread_state@)), lo as int, hi as int),
            sa.len() == old(sa).len(),
            buckets.len() == old(buckets).len(),
        decreases hi - lo,
    {
        let most: u64 = part_size(threads);
        let start: usize = if most < (hi - lo) as u64 { hi - most as usize } else { lo };
        let ghost before = thread_state@;
        proof {
            lemma_still_fit(old(thread_state)@, before);
            assert(before[0].cache.len() <= isize::MAX);
        }
        names = partial_sorting_scan_right_to_left_32s_4k_block_omp(t, sa, k, buckets, names, thread_state[0].cache.as_mut_slice(), start as FastSint, (hi - start) as FastSint, threads);
        proof {
            assert(desks(thread_state@) =~= with_cache(desks(before), thread_state@[0].cache@));
            if thread_state@[0].cache@ == before[0].cache@ {
                assert(desks(thread_state@) =~= desks(before));
            }
        }
        hi = start;
    }
    names
}

/// A part of a scan from right to left over LMS substrings, with one bucket for each symbol.
pub open spec fn right_1k_part(t: Seq<i32>, threads: int) -> spec_fn(FinalState, int, int) -> Option<FinalState> {
    |s: FinalState, lo: int, size: int|
        if s.2.len() == 0 {
            None
        } else if threads == 1 || size < 16384 {
            match partial_sorting_scan_right_to_left_32s_1k_run(t, (s.0, s.1), lo, size) {
                Some(x) => Some((x.0, x.1, s.2)),
                None => None,
            }
        } else {
            match cached_right_1k(t, s.0, s.1, s.2[0].cache, lo, size) {
                Some(x) => Some((x.0, x.1, with_cache(s.2, x.2))),
                None => None,
            }
        }
}

/// What [`partial_sorting_scan_right_to_left_32s_1k_omp`] leaves.
pub open spec fn right_1k_walked(t: Seq<i32>, lo: int, hi: int, threads: int, s: FinalState) -> Option<FinalState> {
    if threads == 1 || hi - lo < 65536 || s.2.len() == 0 {
        match partial_sorting_scan_right_to_left_32s_1k_run(t, (s.0, s.1), lo, hi - lo) {
            Some(x) => Some((x.0, x.1, s.2)),
            None => None,
        }
    } else {
        chunks_down(right_1k_part(t, threads), part_span(threads), s, lo, hi)
    }
}

/// Scans the LMS substrings of an integer text from right to left, with one bucket for each
/// symbol.
pub fn partial_sorting_scan_right_to_left_32s_1k_omp(
    t: &[SaSint],
    sa: &mut [SaSint],
    n: SaSint,
    buckets: &mut [SaSint],
    threads: SaSint,
    thread_state: &mut [ThreadState],
)
    requires
        threads == 1 || n < 65536 || desks_fit(old(thread_state)@),
        right_1k_walked(t@, 0, n as int, threads as int, (old(sa)@, old(buckets)@, desks(old(thread_state)@))) is Some,
    ensures
        right_1k_walked(t@, 0, n as int, threads as int, (old(sa)@, old(buckets)@, desks(old(thread_state)@)))
            == Some((final(sa)@, final(buckets)@, desks(final(thread_state)@))),
        quiet(old(thread_state)@, final(thread_state)@),
        desks_sized(old(thread_state)@, final(thread_state)@),
        final(sa).len() == old(sa).len(),
        final(buckets).len() == old(buckets).len(),
{
    if threads == 1 || n < 65536 || thread_state.len() == 0 {
        let _ok: bool = try_partial_sorting_scan_right_to_left_32s_1k(t, sa, buckets, 0, n as FastSint);
        return;
    }
    let ghost step = right_1k_part(t@, threads as int);
    let ghost span = part_span(threads as int);
    let ghost end_state = chunks_down(step, span, (sa@, buckets@, desks(thread_state@)), 0, n as int);
    let lo: usize = (0) as usize;
    let mut hi: usize = (n) as usize;
    while hi > lo
        invariant
            hi <= i32::MAX,
            lo <= hi,
            1 <= thread_state.len(),
            desks_fit(old(thread_state)@),
            desks_sized(old(thread_state)@, thread_state@),
            quiet(old(thread_state)@, thread_state@),
            step == right_1k_part(t@, threads as int),
            span == part_span(threads as int),
            end_state is Some,
            end_state == chunks_down(step, span, (sa@, buckets@, desks(thread_state@)), lo as int, hi as int),
            sa.len() == old(sa).len(),
            buckets.len() == old(buckets).len(),
        decreases hi - lo,
    {
        let most: u64 = part_size(threads);
        let start: usize = if most < (hi - lo) as u64 { hi - most as usize } else { lo };
        let ghost before = thread_state@;
        proof {
            lemma_still_fit(old(thread_state)@, before);
            assert(before[0].cache.len() <= isize::MAX);
        }
        partial_sorting_scan_right_to_left_32s_1k_block_omp(t, sa, buckets, thread_state[0].cache.as_mut_slice(), start as FastSint, (hi - start) as FastSint, threads);
        proof {
            assert(desks(thread_state@) =~= with_cache(desks(before), thread_state@[0].cache@));
            if thread_state@[0].cache@ == before[0].cache@ {
                assert(desks(thread_state@) =~= desks(before));
            }
        }
        hi = start;
    }
}

/// A part of a scan from left to right for the final order.
pub open spec fn final_left_part(t: Seq<i32>, threads: int) -> spec_fn(FinalState, int, int) -> Option<FinalState> {
    |s: FinalState, lo: int, size: int|
        if s.2.len() == 0 {
            None
        } else {
            match cached_final_left(t, s.0, s.1, s.2[0].cache, lo, size) {
                Some(x) => Some((x.0, x.1, with_cache(s.2, x.2))),
                None => None,
            }
        }
}

/// What [`final_sorting_scan_left_to_right_32s_omp`] leaves.
pub open spec fn final_left_walked(t: Seq<i32>, n: int, threads: int, s: FinalState) -> Option<FinalState> {
    if threads == 1 || n < 65536 || s.2.len() == 0 {
        match final_left_32s(t, n, (s.0, s.1)) {
            Some(x) => Some((x.0, x.1, s.2)),
            None => None,
        }
    } else {
        match seeded_32s_1k(t, n, (s.0, s.1)) {
            Some(x) => chunks_up(final_left_part(t, threads), full_span(threads), (x.0, x.1, s.2), 0, n),
            None => None,
        }
    }
}

/// Scans an integer text from left to right for the final order, the last suffix first.
pub fn final_sorting_scan_left_to_right_32s_omp(
    t: &[SaSint],
    sa: &mut [SaSint],
    n: SaSint,
    induction_bucket: &mut [SaSint],
    threads: SaSint,
    thread_state: &mut [ThreadState],
)
    requires
        threads == 1 || n < 65536 || desks_fit(old(thread_state)@),
        final_left_walked(t@, n as int, threads as int, (old(sa)@, old(induction_bucket)@, desks(old(thread_state)@))) is Some,
    ensures
        final_left_walked(t@, n as int, threads as int, (old(sa)@, old(induction_bucket)@, desks(old(thread_state)@)))
            == Some((final(sa)@, final(induction_bucket)@, desks(final(thread_state)@))),
        quiet(old(thread_state)@, final(thread_state)@),
        desks_sized(old(thread_state)@, final(thread_state)@),
        final(sa).len() == old(sa).len(),
        final(induction_bucket).len() == old(induction_bucket).len(),
{
    if threads == 1 || n < 65536 || thread_state.len() == 0 {
        let _ok: bool = try_final_left_32s(t, n, sa, induction_bucket);
        return;
    }
    let _seeded: bool = try_seed_32s_1k(t, n, sa, induction_bucket);
    let ghost step = final_left_part(t@, threads as int);
    let ghost span = full_span(threads as int);
    let ghost end_state = chunks_up(step, span, (sa@, induction_bucket@, desks(thread_state@)), 0, n as int);
    let hi: usize = (n) as usize;
    let mut lo: usize = 0;
    while lo < hi
        invariant
            hi <= i32::MAX,
            lo <= hi,
            1 <= thread_state.len(),
            desks_fit(old(thread_state)@),
            desks_sized(old(thread_state)@, thread_state@),
            quiet(old(thread_state)@, thread_state@),
            step == final_left_part(t@, threads as int),
            span == full_span(threads as int),
            end_state is Some,
            end_state == chunks_up(step, span, (sa@, induction_bucket@, desks(thread_state@)), lo as int, hi as int),
            sa.len() == old(sa).len(),
            induction_bucket.len() == old(induction_bucket).len(),
        decreases hi - lo,
    {
        let most: u64 = part_size(threads);
        let end: usize = if most < (hi - lo) as u64 { lo + most as usize } else { hi };
        let ghost before = thread_state@;
        proof {
            lemma_still_fit(old(thread_state)@, before);
            assert(before[0].cache.len() <= isize::MAX);
        }
        final_sorting_scan_left_to_right_32s_block_omp(t, sa, induction_bucket, thread_state[0].cache.as_mut_slice(), lo as FastSint, (end - lo) as FastSint, threads);
        proof {
            assert(desks(thread_state@) =~= with_cache(desks(before), thread_state@[0].cache@));
            if thread_state@[0].cache@ == before[0].cache@ {
                assert(desks(thread_state@) =~= desks(before));
            }
        }
        lo = end;
    }
}

/// A part of a scan from right to left for the final order.
pub open spec fn final_right_part(t: Seq<i32>, threads: int) -> spec_fn(FinalState, int, int) -> Option<FinalState> {
    |s: FinalState, lo: int, size: int|
        if s.2.len() == 0 {
            None
        } else {
            match cached_final_right(t, s.0, s.1, s.2[0].cache, lo, size) {
                Some(x) => Some((x.0, x.1, with_cache(s.2, x.2))),
                None => None,
            }
        }
}

/// What [`final_sorting_scan_right_to_left_32s_omp`] leaves.
pub open spec fn final_right_walked(t: Seq<i32>, lo: int, hi: int, threads: int, s: FinalState) -> Option<FinalState> {
    if threads == 1 || hi - lo < 65536 || s.2.len() == 0 {
        match final_sorting_scan_right_to_left_32s_run(t, (s.0, s.1), lo, hi - lo) {
            Some(x) => Some((x.0, x.1, s.2)),
            None => None,
        }
    } else {
        chunks_down(final_right_part(t, threads), full_span(threads), s, lo, hi)
    }
}

/// Scans an integer text from right to left for the final order.
pub fn final_sorting_scan_right_to_left_32s_omp(
    t: &[SaSint],
    sa: &mut [SaSint],
    n: SaSint,
    induction_bucket: &mut [SaSint],
    threads: SaSint,
    thread_state: &mut [ThreadState],
)
    requires
        threads == 1 || n < 65536 || desks_fit(old(thread_state)@),
        final_right_walked(t@, 0, n as int, threads as int, (old(sa)@, old(induction_bucket)@, desks(old(thread_state)@))) is Some,
    ensures
        final_right_walked(t@, 0, n as int, threads as int, (old(sa)@, old(induction_bucket)@, desks(old(thread_state)@)))
            == Some((final(sa)@, final(induction_bucket)@, desks(final(thread_state)@))),
        quiet(old(thread_state)@, final(thread_state)@),
        desks_sized(old(thread_state)@, final(thread_state)@),
        final(sa).len() == old(sa).len(),
        final(induction_bucket).len() == old(induction_bucket).len(),
{
    if threads == 1 || n < 65536 || thread_state.len() == 0 {
        let _ok: bool = try_final_sorting_scan_right_to_left_32s(t, sa, induction_bucket, 0, n as FastSint);
        return;
    }
    let ghost step = final_right_part(t@, threads as int);
    let ghost span = full_span(threads as int);
    let ghost end_state = chunks_down(step, span, (sa@, induction_bucket@, desks(thread_state@)), 0, n as int);
    let lo: usize = (0) as usize;
    let mut hi: usize = (n) as usize;
    while hi > lo
        invariant
            hi <= i32::MAX,
            lo <= hi,
            1 <= thread_state.len(),
            desks_fit(old(thread_state)@),
            desks_sized(old(thread_state)@, thread_state@),
            quiet(old(thread_state)@, thread_state@),
            step == final_right_part(t@, threads as int),
            span == full_span(threads as int),
            end_state is Some,
            end_state == chunks_down(step, span, (sa@, induction_bucket@, desks(thread_state@)), lo as int, hi as int),
            sa.len() == old(sa).len(),
            induction_bucket.len() == old(induction_bucket).len(),
        decreases hi - lo,
    {
        let most: u64 = part_size(threads);
        let start: usize = if most < (hi - lo) as u64 { hi - most as usize } else { lo };
        let ghost before = thread_state@;
        proof {
            lemma_still_fit(old(thread_state)@, before);
            assert(before[0].cache.len() <= isize::MAX);
        }
        final_sorting_scan_right_to_left_32s_block_omp(t, sa, induction_bucket, thread_state[0].cache.as_mut_slice(), start as FastSint, (hi - start) as FastSint, threads);
        proof {
            assert(desks(thread_state@) =~= with_cache(desks(before), thread_state@[0].cache@));
            if thread_state@[0].cache@ == before[0].cache@ {
                assert(desks(thread_state@) =~= desks(before));
            }
        }
        hi = start;
    }
}

} // verus!
