//! Whole passes of induced sorting: radix sorting of LMS suffixes, and the scans that induce
//! the order of LMS substrings and the final order.

use vstd::prelude::*;
use crate::buckets::{
    count_suffixes_32s_run, initialize_buckets_end_32s_1k_run, initialize_buckets_start_32s_1k_run, try_count_suffixes_32s,
    try_initialize_buckets_end_32s_1k, try_initialize_buckets_start_32s_1k,
};
use crate::desks::{desks, desks_fit, desks_sized, quiet};
use crate::final_scan::{
    buckets_cleared, clear_lms_suffixes_omp, final_bwt_aux_scan_left_to_right_8u_run,
    final_bwt_aux_scan_right_to_left_8u_run, final_bwt_scan_left_to_right_8u_run,
    final_bwt_scan_right_to_left_8u_run, final_gsa_scan_right_to_left_8u_run,
    final_sorting_scan_right_to_left_32s_run, final_sorting_scan_right_to_left_8u_run, sampled,
    try_final_gsa_scan_right_to_left_8u, try_final_sorting_scan_right_to_left_32s,
    try_final_sorting_scan_right_to_left_8u,
};
use crate::gather::{clear_range, cleared};
use crate::induce::{
    final_left_32s, final_left_8u, partial_left_32s_1k, partial_left_32s_4k, partial_left_32s_6k,
    partial_left_8u, seeded_8u_1k, try_final_left_32s, try_final_left_8u, try_partial_left_32s_1k,
    try_partial_left_32s_4k, try_partial_left_32s_6k, try_partial_left_8u,
};
use crate::marks::marked;
use crate::partial_32s::{
    partial_sorting_scan_right_to_left_32s_1k_run, partial_sorting_scan_right_to_left_32s_4k_run,
    partial_sorting_scan_right_to_left_32s_6k_run, try_partial_sorting_scan_right_to_left_32s_1k,
    try_partial_sorting_scan_right_to_left_32s_4k, try_partial_sorting_scan_right_to_left_32s_6k,
};
use crate::partial_8u::{
    partial_gsa_scan_right_to_left_8u_run, partial_sorting_scan_right_to_left_8u_run, try_partial_gsa_scan_right_to_left_8u,
    try_partial_sorting_scan_right_to_left_8u,
};
use crate::radix::{
    flip_suffix_markers_omp, flipped_prefix, partial_sorting_gather_lms_suffixes_32s_1k,
    partial_sorting_gather_lms_suffixes_32s_1k_slot_run, partial_sorting_gather_lms_suffixes_32s_4k,
    partial_sorting_gather_lms_suffixes_32s_4k_slot_run, partial_sorting_shift_markers_32s_6k_run, radix_sort_lms_suffixes_32s_2k_run,
    radix_sort_lms_suffixes_32s_6k_run, radix_sort_lms_suffixes_8u_run, shift_bucket_8u_run, shift_group_run, shifted_buckets,
    try_partial_sorting_shift_buckets_32s_6k, try_partial_sorting_shift_markers_32s_4k, try_partial_sorting_shift_markers_32s_6k,
    try_partial_sorting_shift_markers_8u, try_radix_sort_lms_suffixes_32s_2k, try_radix_sort_lms_suffixes_32s_6k,
    try_radix_sort_lms_suffixes_8u,
};
use crate::span::{movable, move_within, moved};
use crate::sweeps::{
    bwt_aux_left_walked, bwt_aux_right_walked, bwt_left_walked, bwt_right_walked, final_bwt_aux_scan_left_to_right_8u_omp,
    final_bwt_aux_scan_right_to_left_8u_omp, final_bwt_scan_left_to_right_8u_omp, final_bwt_scan_right_to_left_8u_omp,
    final_gsa_scan_right_to_left_8u_omp, final_sorting_scan_left_to_right_8u_omp, final_sorting_scan_right_to_left_8u_omp,
    lemma_still_fit, partial_gsa_scan_right_to_left_8u_omp, partial_gsa_walked, partial_left_walked, partial_right_walked,
    partial_sorting_scan_left_to_right_8u_omp, partial_sorting_scan_right_to_left_8u_omp, sort_gsa_walked, sort_left_walked,
    sort_right_walked, FinalState, RankingState, SamplingState,
};
use crate::sweeps_32s::{
    final_left_walked, final_right_walked, final_sorting_scan_left_to_right_32s_omp, final_sorting_scan_right_to_left_32s_omp,
    left_1k_walked, left_4k_walked, left_6k_walked, partial_sorting_scan_left_to_right_32s_1k_omp,
    partial_sorting_scan_left_to_right_32s_4k_omp, partial_sorting_scan_left_to_right_32s_6k_omp,
    partial_sorting_scan_right_to_left_32s_1k_omp, partial_sorting_scan_right_to_left_32s_4k_omp,
    partial_sorting_scan_right_to_left_32s_6k_omp, right_1k_walked, right_4k_walked, right_6k_walked,
};
use crate::types::{
    is_separated, separated, FastSint, InduceState, PlaceState, SaSint, ThreadState, ALPHABET_SIZE,
    LIBSAIS_FLAGS_BWT, SAINT_MIN,
};

verus! {

/// `b` with the part from `at` on replaced by `part`.
pub open spec fn spliced(b: Seq<i32>, at: int, part: Seq<i32>) -> Seq<i32> {
    b.subrange(0, at) + part
}

/// The state after radix sorting the LMS suffixes of a byte text but the first; the last
/// bucket of the separators is made one smaller for separated texts.
pub open spec fn radix_sorted_8u(t: Seq<u8>, n: int, m: int, gsa: bool, s: PlaceState) -> Option<PlaceState> {
    if s.1.len() < 1024 || (gsa && (s.1.len() == 1024 || s.1[1024] == i32::MIN)) {
        None
    } else {
        let b = if gsa { s.1.update(1024, (s.1[1024] - 1) as i32) } else { s.1 };
        match radix_sort_lms_suffixes_8u_run(t, (s.0, b.subrange(1024, b.len() as int)), n - m + 1, m - 1) {
            Some(x) => Some((x.0, spliced(b, 1024, x.1))),
            None => None,
        }
    }
}

/// Radix sorts the LMS suffixes of a byte text, all but the first.
pub fn radix_sort_lms_suffixes_8u_omp(
    t: &[u8],
    sa: &mut [SaSint],
    n: SaSint,
    m: SaSint,
    flags: SaSint,
    buckets: &mut [SaSint],
    _threads: SaSint,
    _thread_state: &mut [ThreadState],
)
    requires
        0 <= m,
        0 <= n,
        n < i32::MAX,
        radix_sorted_8u(t@, n as int, m as int, separated(flags), (old(sa)@, old(buckets)@)) is Some,
    ensures
        radix_sorted_8u(t@, n as int, m as int, separated(flags), (old(sa)@, old(buckets)@)) == Some((final(sa)@, final(buckets)@)),
        final(_thread_state)@ == old(_thread_state)@,
{
    if is_separated(flags) {
        buckets[1024] = buckets[1024] - 1;
    }
    let (_head, ends) = buckets.split_at_mut(1024);
    let _ok: bool = try_radix_sort_lms_suffixes_8u(t, sa, ends, (n - m + 1) as FastSint, (m - 1) as FastSint);
}

/// Radix sorts the LMS suffixes of an integer text, all but the first.
pub fn radix_sort_lms_suffixes_32s_6k_omp(
    t: &[SaSint],
    sa: &mut [SaSint],
    n: SaSint,
    m: SaSint,
    induction_bucket: &mut [SaSint],
    _threads: SaSint,
    _thread_state: &mut [ThreadState],
)
    requires
        0 <= m,
        0 <= n,
        n < i32::MAX,
        radix_sort_lms_suffixes_32s_6k_run(t@, (old(sa)@, old(induction_bucket)@), n - m + 1, m - 1) is Some,
    ensures
        radix_sort_lms_suffixes_32s_6k_run(t@, (old(sa)@, old(induction_bucket)@), n - m + 1, m - 1) == Some((final(sa)@, final(induction_bucket)@)),
        final(sa).len() == old(sa).len(),
        final(induction_bucket).len() == old(induction_bucket).len(),
        final(_thread_state)@ == old(_thread_state)@,
{
    let _ok: bool = try_radix_sort_lms_suffixes_32s_6k(t, sa, induction_bucket, (n - m + 1) as FastSint, (m - 1) as FastSint);
}

/// Radix sorts the LMS suffixes of an integer text, all but the first.
pub fn radix_sort_lms_suffixes_32s_2k_omp(
    t: &[SaSint],
    sa: &mut [SaSint],
    n: SaSint,
    m: SaSint,
    induction_bucket: &mut [SaSint],
    _threads: SaSint,
    _thread_state: &mut [ThreadState],
)
    requires
        0 <= m,
        0 <= n,
        n < i32::MAX,
        radix_sort_lms_suffixes_32s_2k_run(t@, (old(sa)@, old(induction_bucket)@), n - m + 1, m - 1) is Some,
    ensures
        radix_sort_lms_suffixes_32s_2k_run(t@, (old(sa)@, old(induction_bucket)@), n - m + 1, m - 1) == Some((final(sa)@, final(induction_bucket)@)),
        final(sa).len() == old(sa).len(),
        final(induction_bucket).len() == old(induction_bucket).len(),
        final(_thread_state)@ == old(_thread_state)@,
{
    let _ok: bool = try_radix_sort_lms_suffixes_32s_2k(t, sa, induction_bucket, (n - m + 1) as FastSint, (m - 1) as FastSint);
}

/// The whole left-to-right scan of a byte text for the transformed text.
pub open spec fn bwt_left_8u(t: Seq<u8>, n: int, s: PlaceState) -> Option<PlaceState> {
    match seeded_8u_1k(t, n, s) {
        Some(x) => final_bwt_scan_left_to_right_8u_run(t, x, 0, n),
        None => None,
    }
}

/// The whole left-to-right scan of a byte text for the transformed text and its samples.
pub open spec fn bwt_aux_left_8u(t: Seq<u8>, n: int, rm: i32, s: (Seq<i32>, Seq<i32>, Seq<i32>)) -> Option<(Seq<i32>, Seq<i32>, Seq<i32>)> {
    match seeded_8u_1k(t, n, (s.0, s.1)) {
        Some(x) => match sampled(s.2, rm, (n - 1) as i32, x.1[t[n - 1] as int]) {
            Some(o) => final_bwt_aux_scan_left_to_right_8u_run(t, rm, (x.0, x.1, o), 0, n),
            None => None,
        },
        None => None,
    }
}

/// The state in front of the scans over the LMS substrings of a byte text: no names yet, and
/// for separated texts the separators marked in their bucket, which is one smaller.
pub open spec fn names_opened(gsa: bool, s: PlaceState) -> Option<PlaceState> {
    let b = cleared(s.1, 512, 1024);
    let left = b[1027] - 1;
    if s.1.len() < 1024 {
        None
    } else if !gsa {
        Some((s.0, b))
    } else if 1027 < s.1.len() && 0 <= left <= s.0.len() {
        Some((flipped_prefix(s.0, left), b.update(1025, left as i32)))
    } else {
        None
    }
}

/// The state behind the scans over the LMS substrings of separated texts: the first LMS
/// suffix, where it is a separator, comes first, and the bucket of the separators is closed.
pub open spec fn separators_closed(t: Seq<u8>, first: int, s: PlaceState) -> Option<PlaceState> {
    let count = s.1[3] - 1;
    if !(0 <= first < t.len() && first <= i32::MAX && 3 < s.1.len()) {
        None
    } else if t[first] != 0 {
        Some((s.0, s.1.update(1, 0)))
    } else if 0 <= count && movable(s.0.len() as int, 0, count, 1) && s.0.len() > 0 {
        Some((moved(s.0, 0, count, 1).update(0, marked(first as i32, true)), s.1.update(1, 0)))
    } else {
        None
    }
}

/// The order of the LMS substrings of a byte text, induced from its sorted LMS suffixes.
pub open spec fn partial_order_8u(t: Seq<u8>, n: int, gsa: bool, first: int, left: int, s: PlaceState) -> Option<PlaceState> {
    match names_opened(gsa, s) {
        Some(o) => match partial_left_8u(t, n, left, (o.0, o.1, 0)) {
            Some(x) => match shift_bucket_8u_run(x.1, x.0, 1, ALPHABET_SIZE as int) {
                Some(y) => if gsa {
                    match partial_gsa_scan_right_to_left_8u_run(t, (y, x.1, x.2), left + 1, (n - first) - (left + 1)) {
                        Some(z) => separators_closed(t, first, (z.0, z.1)),
                        None => None,
                    }
                } else {
                    match partial_sorting_scan_right_to_left_8u_run(t, (y, x.1, x.2), left + 1, (n - first) - (left + 1)) {
                        Some(z) => Some((z.0, z.1)),
                        None => None,
                    }
                },
                None => None,
            },
            None => None,
        },
        None => None,
    }
}

/// Computes [`partial_order_8u`].
pub(crate) fn try_partial_order_8u(
    t: &[u8],
    sa: &mut [SaSint],
    n: SaSint,
    gsa: bool,
    buckets: &mut [SaSint],
    first: SaSint,
    left: SaSint,
) -> (ok: bool)
    requires
        0 <= first <= n,
        0 <= left < i32::MAX,
    ensures
        ok == (partial_order_8u(t@, n as int, gsa, first as int, left as int, (old(sa)@, old(buckets)@)) is Some),
        ok ==> partial_order_8u(t@, n as int, gsa, first as int, left as int, (old(sa)@, old(buckets)@))
            == Some((final(sa)@, final(buckets)@)),
        final(sa).len() == old(sa).len(),
        final(buckets).len() == old(buckets).len(),
{
    if buckets.len() < 1024 {
        return false;
    }
    clear_range(buckets, 512, 1024);
    if gsa {
        if buckets.len() <= 1027 || buckets[1027] <= 0 || (buckets[1027] - 1) as usize > sa.len() {
            return false;
        }
        let open: SaSint = buckets[1027] - 1;
        buckets[1025] = open;
        flip_suffix_markers_omp(sa, open, 1);
    }
    let mut d: SaSint = 0;
    if !try_partial_left_8u(t, n, left, sa, buckets, &mut d) || !try_partial_sorting_shift_markers_8u(sa, buckets) {
        return false;
    }
    let start: FastSint = left as FastSint + 1;
    let size: FastSint = (n - first) as FastSint - start;
    if !gsa {
        return try_partial_sorting_scan_right_to_left_8u(t, sa, buckets, &mut d, start, size);
    }
    if !try_partial_gsa_scan_right_to_left_8u(t, sa, buckets, &mut d, start, size) || first as usize >= t.len() {
        return false;
    }
    if t[first as usize] == 0 {
        if buckets[3] < 1 || sa.len() == 0 || (buckets[3] - 1) as usize > sa.len() - 1 {
            return false;
        }
        let count: usize = (buckets[3] - 1) as usize;
        move_within(sa, 0, count, 1);
        sa[0] = crate::marks::set_mark(first, true);
    }
    buckets[1] = 0;
    true
}

/// What [`induce_partial_order_8u_omp`] leaves: the array, the buckets, and the desks of the
/// workers.
pub open spec fn partial_order_8u_shared(
    t: Seq<u8>,
    n: int,
    k: int,
    gsa: bool,
    first: int,
    left: int,
    threads: int,
    s: FinalState,
) -> Option<FinalState> {
    match names_opened(gsa, (s.0, s.1)) {
        Some(o) => match partial_left_walked(t, n, k, left, threads, (o.0, o.1, 0, s.2)) {
            Some(x) => match shift_bucket_8u_run(x.1, x.0, 1, ALPHABET_SIZE as int) {
                Some(y) => if gsa {
                    match partial_gsa_walked(t, k, left + 1, n - first, threads, (y, x.1, x.2, x.3)) {
                        Some(z) => match separators_closed(t, first, (z.0, z.1)) {
                            Some(c) => Some((c.0, c.1, z.3)),
                            None => None,
                        },
                        None => None,
                    }
                } else {
                    match partial_right_walked(t, k, left + 1, n - first, threads, (y, x.1, x.2, x.3)) {
                        Some(z) => Some((z.0, z.1, z.3)),
                        None => None,
                    }
                },
                None => None,
            },
            None => None,
        },
        None => None,
    }
}

/// One worker leaves what [`partial_order_8u`] says, and the desks as they were.
pub proof fn law_partial_order_8u_alone(t: Seq<u8>, n: int, k: int, gsa: bool, first: int, left: int, s: FinalState)
    ensures
        partial_order_8u_shared(t, n, k, gsa, first, left, 1, s) == match partial_order_8u(t, n, gsa, first, left, (s.0, s.1)) {
            Some(x) => Some((x.0, x.1, s.2)),
            None => None,
        },
{
}

/// Induces the order of the LMS substrings of a byte text.
pub fn induce_partial_order_8u_omp(
    t: &[u8],
    sa: &mut [SaSint],
    n: SaSint,
    k: SaSint,
    flags: SaSint,
    buckets: &mut [SaSint],
    first_lms_suffix: SaSint,
    left_suffixes_count: SaSint,
    threads: SaSint,
    thread_state: &mut [ThreadState],
)
    requires
        0 <= first_lms_suffix <= n,
        0 <= left_suffixes_count < i32::MAX,
        threads == 1 || (n < 65536 && left_suffixes_count < 65536)
            || 0 <= k && 64 * k <= isize::MAX && desks_fit(old(thread_state)@),
        partial_order_8u_shared(t@, n as int, k as int, separated(flags), first_lms_suffix as int,
            left_suffixes_count as int, threads as int, (old(sa)@, old(buckets)@, desks(old(thread_state)@))) is Some,
    ensures
        partial_order_8u_shared(t@, n as int, k as int, separated(flags), first_lms_suffix as int,
            left_suffixes_count as int, threads as int, (old(sa)@, old(buckets)@, desks(old(thread_state)@)))
            == Some((final(sa)@, final(buckets)@, desks(final(thread_state)@))),
        quiet(old(thread_state)@, final(thread_state)@),
        desks_sized(old(thread_state)@, final(thread_state)@),
        final(sa).len() == old(sa).len(),
        final(buckets).len() == old(buckets).len(),
{
    let gsa: bool = is_separated(flags);
    clear_range(buckets, 512, 1024);
    if gsa {
        let open: SaSint = buckets[1027] - 1;
        buckets[1025] = open;
        flip_suffix_markers_omp(sa, open, threads);
    }
    let d: SaSint = partial_sorting_scan_left_to_right_8u_omp(
        t, sa, n, k, buckets, left_suffixes_count, 0, threads, thread_state);
    let _shifted: bool = try_partial_sorting_shift_markers_8u(sa, buckets);
    proof {
        if threads != 1 && !(n < 65536 && left_suffixes_count < 65536) {
            lemma_still_fit(old(thread_state)@, thread_state@);
        }
    }
    if !gsa {
        partial_sorting_scan_right_to_left_8u_omp(
            t, sa, n, k, buckets, first_lms_suffix, left_suffixes_count, d, threads, thread_state);
        return;
    }
    partial_gsa_scan_right_to_left_8u_omp(
        t, sa, n, k, buckets, first_lms_suffix, left_suffixes_count, d, threads, thread_state);
    if t[first_lms_suffix as usize] == 0 {
        let count: usize = (buckets[3] - 1) as usize;
        move_within(sa, 0, count, 1);
        sa[0] = crate::marks::set_mark(first_lms_suffix, true);
    }
    buckets[1] = 0;
}

/// The order of the LMS substrings of an integer text, with six buckets for each symbol.
pub open spec fn partial_order_32s_6k(t: Seq<i32>, n: int, k: int, first: int, left: int, s: PlaceState) -> Option<PlaceState> {
    match partial_left_32s_6k(t, n, left, (s.0, s.1, 0)) {
        Some(x) => match partial_sorting_shift_markers_32s_6k_run(x.0, k, x.1) {
            Some(y) => if 0 <= k && 6 * k <= x.1.len() {
                match partial_sorting_scan_right_to_left_32s_6k_run(t, (y, shifted_buckets(k, x.1), x.2), left + 1, (n - first) - (left + 1)) {
                    Some(z) => Some((z.0, z.1)),
                    None => None,
                }
            } else {
                None
            },
            None => None,
        },
        None => None,
    }
}

/// Computes [`partial_order_32s_6k`].
pub(crate) fn try_partial_order_32s_6k(
    t: &[SaSint],
    sa: &mut [SaSint],
    n: SaSint,
    k: SaSint,
    buckets: &mut [SaSint],
    first: SaSint,
    left: SaSint,
) -> (ok: bool)
    requires
        0 <= first <= n,
        0 <= left < i32::MAX,
    ensures
        ok == (partial_order_32s_6k(t@, n as int, k as int, first as int, left as int, (old(sa)@, old(buckets)@)) is Some),
        ok ==> partial_order_32s_6k(t@, n as int, k as int, first as int, left as int, (old(sa)@, old(buckets)@))
            == Some((final(sa)@, final(buckets)@)),
        final(sa).len() == old(sa).len(),
        final(buckets).len() == old(buckets).len(),
{
    let mut d: SaSint = 0;
    let start: FastSint = left as FastSint + 1;
    try_partial_left_32s_6k(t, n, left, sa, buckets, &mut d) && try_partial_sorting_shift_markers_32s_6k(sa, k, buckets)
        && try_partial_sorting_shift_buckets_32s_6k(k, buckets)
        && try_partial_sorting_scan_right_to_left_32s_6k(t, sa, buckets, &mut d, start, (n - first) as FastSint - start)
}

/// What [`induce_partial_order_32s_6k_omp`] leaves: the array, the buckets, and the desks of the workers.
pub open spec fn partial_order_32s_6k_shared(t: Seq<i32>, n: int, k: int, first: int, left: int, threads: int, s: FinalState) -> Option<FinalState> {
    match left_6k_walked(t, n, left, threads, (s.0, s.1, 0, s.2)) {
        Some(x) => match partial_sorting_shift_markers_32s_6k_run(x.0, k, x.1) {
            Some(y) => if 0 <= k && 6 * k <= x.1.len() {
                match right_6k_walked(t, left + 1, n - first, threads, (y, shifted_buckets(k, x.1), x.2, x.3)) {
                    Some(z) => Some((z.0, z.1, z.3)),
                    None => None,
                }
            } else {
                None
            },
            None => None,
        },
        None => None,
    }
}

/// One worker leaves what [`partial_order_32s_6k`] says, and the desks as they were.
pub proof fn law_partial_order_32s_6k_alone(t: Seq<i32>, n: int, k: int, first: int, left: int, s: FinalState)
    ensures
        partial_order_32s_6k_shared(t, n, k, first, left, 1, s) == match partial_order_32s_6k(t, n, k, first, left, (s.0, s.1)) {
            Some(x) => Some((x.0, x.1, s.2)),
            None => None,
        },
{
}

/// Induces the order of the LMS substrings of an integer text, with six buckets for each symbol.
pub fn induce_partial_order_32s_6k_omp(
    t: &[SaSint],
    sa: &mut [SaSint],
    n: SaSint,
    k: SaSint,
    buckets: &mut [SaSint],
    first_lms_suffix: SaSint,
    left_suffixes_count: SaSint,
    threads: SaSint,
    thread_state: &mut [ThreadState],
)
    requires
        0 <= first_lms_suffix <= n,
        0 <= left_suffixes_count < i32::MAX,
        threads == 1 || (n < 65536 && left_suffixes_count < 65536) || desks_fit(old(thread_state)@),
        partial_order_32s_6k_shared(t@, n as int, k as int, first_lms_suffix as int, left_suffixes_count as int, threads as int, (old(sa)@, old(buckets)@, desks(old(thread_state)@))) is Some,
    ensures
        partial_order_32s_6k_shared(t@, n as int, k as int, first_lms_suffix as int, left_suffixes_count as int, threads as int, (old(sa)@, old(buckets)@, desks(old(thread_state)@)))
            == Some((final(sa)@, final(buckets)@, desks(final(thread_state)@))),
        quiet(old(thread_state)@, final(thread_state)@),
        desks_sized(old(thread_state)@, final(thread_state)@),
        final(sa).len() == old(sa).len(),
        final(buckets).len() == old(buckets).len(),
{
    let d: SaSint = partial_sorting_scan_left_to_right_32s_6k_omp(
        t, sa, n, buckets, left_suffixes_count, 0, threads, thread_state);
    let _shifted: bool = try_partial_sorting_shift_markers_32s_6k(sa, k, buckets)
        && try_partial_sorting_shift_buckets_32s_6k(k, buckets);
    proof {
        if threads != 1 && !(n < 65536 && left_suffixes_count < 65536) {
            lemma_still_fit(old(thread_state)@, thread_state@);
        }
    }
    let _names: SaSint = partial_sorting_scan_right_to_left_32s_6k_omp(
        t, sa, n, buckets, first_lms_suffix, left_suffixes_count, d, threads, thread_state);
}

/// The first `n` entries packed as the 4k scans leave them.
pub open spec fn packed_4k(sa: Seq<i32>, n: int) -> Seq<i32> {
    if n <= 0 {
        sa
    } else {
        partial_sorting_gather_lms_suffixes_32s_4k_slot_run((sa, 0), 0, n).unwrap().0
    }
}

/// The first `n` entries packed as the 1k scans leave them.
pub open spec fn packed_1k(sa: Seq<i32>, n: int) -> Seq<i32> {
    if n <= 0 {
        sa
    } else {
        partial_sorting_gather_lms_suffixes_32s_1k_slot_run((sa, 0), 0, n).unwrap().0
    }
}

/// The order of the LMS substrings of an integer text, with four buckets for each symbol.
pub open spec fn partial_order_32s_4k(t: Seq<i32>, n: int, k: int, s: PlaceState) -> Option<PlaceState> {
    if !(0 <= k && 2 * k <= s.1.len() && n <= s.0.len()) {
        None
    } else {
        match partial_left_32s_4k(t, n, k, (s.0, cleared(s.1, 0, 2 * k), 0)) {
            Some(x) => match shift_group_run((x.0, true), 0, n) {
                Some(y) => match partial_sorting_scan_right_to_left_32s_4k_run(t, k, (y.0, x.1, x.2), 0, n) {
                    Some(z) => Some((packed_4k(z.0, n), z.1)),
                    None => None,
                },
                None => None,
            },
            None => None,
        }
    }
}

/// Computes [`partial_order_32s_4k`].
pub(crate) fn try_partial_order_32s_4k(t: &[SaSint], sa: &mut [SaSint], n: SaSint, k: SaSint, buckets: &mut [SaSint]) -> (ok: bool)
    requires
        old(sa).len() <= isize::MAX,
    ensures
        ok == (partial_order_32s_4k(t@, n as int, k as int, (old(sa)@, old(buckets)@)) is Some),
        ok ==> partial_order_32s_4k(t@, n as int, k as int, (old(sa)@, old(buckets)@)) == Some((final(sa)@, final(buckets)@)),
        final(sa).len() == old(sa).len(),
        final(buckets).len() == old(buckets).len(),
{
    if k < 0 || 2 * (k as u64) > buckets.len() as u64 || n as i64 > 0 && n as u64 > sa.len() as u64 {
        return false;
    }
    clear_range(buckets, 0, 2 * k as usize);
    let mut d: SaSint = 0;
    if !try_partial_left_32s_4k(t, n, k, sa, buckets, &mut d) || !try_partial_sorting_shift_markers_32s_4k(sa, n)
        || !try_partial_sorting_scan_right_to_left_32s_4k(t, sa, k, buckets, &mut d, 0, n as FastSint) {
        return false;
    }
    let _packed: FastSint = partial_sorting_gather_lms_suffixes_32s_4k(sa, 0, n as FastSint);
    true
}

/// What [`induce_partial_order_32s_4k_omp`] leaves: the array, the buckets, and the desks of the workers.
pub open spec fn partial_order_32s_4k_shared(t: Seq<i32>, n: int, k: int, threads: int, s: FinalState) -> Option<FinalState> {
    if !(0 <= k && 2 * k <= s.1.len() && n <= s.0.len()) {
        None
    } else {
        match left_4k_walked(t, n, k, threads, (s.0, cleared(s.1, 0, 2 * k), 0, s.2)) {
            Some(x) => match shift_group_run((x.0, true), 0, n) {
                Some(y) => match right_4k_walked(t, 0, n, k, threads, (y.0, x.1, x.2, x.3)) {
                    Some(z) => Some((packed_4k(z.0, n), z.1, z.3)),
                    None => None,
                },
                None => None,
            },
            None => None,
        }
    }
}

/// One worker leaves what [`partial_order_32s_4k`] says, and the desks as they were.
pub proof fn law_partial_order_32s_4k_alone(t: Seq<i32>, n: int, k: int, s: FinalState)
    ensures
        partial_order_32s_4k_shared(t, n, k, 1, s) == match partial_order_32s_4k(t, n, k, (s.0, s.1)) {
            Some(x) => Some((x.0, x.1, s.2)),
            None => None,
        },
{
}

/// Induces the order of the LMS substrings of an integer text, with four buckets for each
/// symbol, and packs the LMS suffixes.
pub fn induce_partial_order_32s_4k_omp(
    t: &[SaSint],
    sa: &mut [SaSint],
    n: SaSint,
    k: SaSint,
    buckets: &mut [SaSint],
    threads: SaSint,
    thread_state: &mut [ThreadState],
)
    requires
        old(sa).len() <= isize::MAX,
        threads == 1 || (n < 65536) || desks_fit(old(thread_state)@),
        partial_order_32s_4k_shared(t@, n as int, k as int, threads as int, (old(sa)@, old(buckets)@, desks(old(thread_state)@))) is Some,
    ensures
        partial_order_32s_4k_shared(t@, n as int, k as int, threads as int, (old(sa)@, old(buckets)@, desks(old(thread_state)@)))
            == Some((final(sa)@, final(buckets)@, desks(final(thread_state)@))),
        quiet(old(thread_state)@, final(thread_state)@),
        desks_sized(old(thread_state)@, final(thread_state)@),
        final(sa).len() == old(sa).len(),
        final(buckets).len() == old(buckets).len(),
{
    clear_range(buckets, 0, 2 * k as usize);
    let d: SaSint = partial_sorting_scan_left_to_right_32s_4k_omp(t, sa, n, k, buckets, 0, threads, thread_state);
    let _shifted: bool = try_partial_sorting_shift_markers_32s_4k(sa, n);
    proof {
        if threads != 1 && !(n < 65536) {
            lemma_still_fit(old(thread_state)@, thread_state@);
        }
    }
    let _names: SaSint = partial_sorting_scan_right_to_left_32s_4k_omp(t, sa, n, k, buckets, d, threads, thread_state);
    let _packed: FastSint = partial_sorting_gather_lms_suffixes_32s_4k(sa, 0, n as FastSint);
}

/// The order of the LMS substrings of an integer text, with two buckets for each symbol: the
/// ends of the buckets first, then their starts.
pub open spec fn partial_order_32s_2k(t: Seq<i32>, n: int, k: int, s: PlaceState) -> Option<PlaceState> {
    if !(0 <= k <= s.1.len() && n <= s.0.len()) {
        None
    } else {
        match partial_left_32s_1k(t, n, (s.0, s.1.subrange(k, s.1.len() as int))) {
            Some(x) => match partial_sorting_scan_right_to_left_32s_1k_run(t, (x.0, s.1.subrange(0, k)), 0, n) {
                Some(y) => Some((packed_1k(y.0, n), y.1 + x.1)),
                None => None,
            },
            None => None,
        }
    }
}

/// Computes [`partial_order_32s_2k`].
pub(crate) fn try_partial_order_32s_2k(t: &[SaSint], sa: &mut [SaSint], n: SaSint, k: SaSint, buckets: &mut [SaSint]) -> (ok: bool)
    requires
        old(sa).len() <= isize::MAX,
    ensures
        ok == (partial_order_32s_2k(t@, n as int, k as int, (old(sa)@, old(buckets)@)) is Some),
        ok ==> partial_order_32s_2k(t@, n as int, k as int, (old(sa)@, old(buckets)@)) == Some((final(sa)@, final(buckets)@)),
        final(sa).len() == old(sa).len(),
        final(buckets).len() == old(buckets).len(),
{
    if k < 0 || k as usize > buckets.len() || n as i64 > 0 && n as u64 > sa.len() as u64 {
        return false;
    }
    let (ends, starts) = buckets.split_at_mut(k as usize);
    if !try_partial_left_32s_1k(t, n, sa, starts)
        || !try_partial_sorting_scan_right_to_left_32s_1k(t, sa, ends, 0, n as FastSint) {
        return false;
    }
    let _packed: FastSint = partial_sorting_gather_lms_suffixes_32s_1k(sa, 0, n as FastSint);
    true
}

/// What [`induce_partial_order_32s_2k_omp`] leaves: the array, the buckets, and the desks of the workers.
pub open spec fn partial_order_32s_2k_shared(t: Seq<i32>, n: int, k: int, threads: int, s: FinalState) -> Option<FinalState> {
    if !(0 <= k <= s.1.len() && n <= s.0.len()) {
        None
    } else {
        match left_1k_walked(t, n, threads, (s.0, s.1.subrange(k, s.1.len() as int), s.2)) {
            Some(x) => match right_1k_walked(t, 0, n, threads, (x.0, s.1.subrange(0, k), x.2)) {
                Some(y) => Some((packed_1k(y.0, n), y.1 + x.1, y.2)),
                None => None,
            },
            None => None,
        }
    }
}

/// One worker leaves what [`partial_order_32s_2k`] says, and the desks as they were.
pub proof fn law_partial_order_32s_2k_alone(t: Seq<i32>, n: int, k: int, s: FinalState)
    ensures
        partial_order_32s_2k_shared(t, n, k, 1, s) == match partial_order_32s_2k(t, n, k, (s.0, s.1)) {
            Some(x) => Some((x.0, x.1, s.2)),
            None => None,
        },
{
}

/// Induces the order of the LMS substrings of an integer text, with two buckets for each
/// symbol, and packs the LMS suffixes.
pub fn induce_partial_order_32s_2k_omp(
    t: &[SaSint],
    sa: &mut [SaSint],
    n: SaSint,
    k: SaSint,
    buckets: &mut [SaSint],
    threads: SaSint,
    thread_state: &mut [ThreadState],
)
    requires
        old(sa).len() <= isize::MAX,
        threads == 1 || (n < 65536) || desks_fit(old(thread_state)@),
        partial_order_32s_2k_shared(t@, n as int, k as int, threads as int, (old(sa)@, old(buckets)@, desks(old(thread_state)@))) is Some,
    ensures
        partial_order_32s_2k_shared(t@, n as int, k as int, threads as int, (old(sa)@, old(buckets)@, desks(old(thread_state)@)))
            == Some((final(sa)@, final(buckets)@, desks(final(thread_state)@))),
        quiet(old(thread_state)@, final(thread_state)@),
        desks_sized(old(thread_state)@, final(thread_state)@),
        final(sa).len() == old(sa).len(),
{
    let (ends, starts) = buckets.split_at_mut(k as usize);
    partial_sorting_scan_left_to_right_32s_1k_omp(t, sa, n, starts, threads, thread_state);
    proof {
        if threads != 1 && !(n < 65536) {
            lemma_still_fit(old(thread_state)@, thread_state@);
        }
    }
    partial_sorting_scan_right_to_left_32s_1k_omp(t, sa, n, ends, threads, thread_state);
    let _packed: FastSint = partial_sorting_gather_lms_suffixes_32s_1k(sa, 0, n as FastSint);
}

/// The starts of the buckets of the symbols of an integer text.
pub open spec fn bucket_starts_1k(t: Seq<i32>, n: int, k: int, b: Seq<i32>) -> Option<Seq<i32>> {
    match count_suffixes_32s_run(t, n, k, b) {
        Some(c) => match initialize_buckets_start_32s_1k_run(k, c) {
            Some(x) => Some(x.0),
            None => None,
        },
        None => None,
    }
}

/// Computes [`bucket_starts_1k`].
pub(crate) fn try_bucket_starts_1k(t: &[SaSint], n: SaSint, k: SaSint, buckets: &mut [SaSint]) -> (ok: bool)
    ensures
        ok == (bucket_starts_1k(t@, n as int, k as int, old(buckets)@) is Some),
        ok ==> bucket_starts_1k(t@, n as int, k as int, old(buckets)@) == Some(final(buckets)@),
        final(buckets).len() == old(buckets).len(),
{
    try_count_suffixes_32s(t, n, k, buckets) && try_initialize_buckets_start_32s_1k(k, buckets)
}

/// The ends of the buckets of the symbols of an integer text.
pub open spec fn bucket_ends_1k(t: Seq<i32>, n: int, k: int, b: Seq<i32>) -> Option<Seq<i32>> {
    match count_suffixes_32s_run(t, n, k, b) {
        Some(c) => match initialize_buckets_end_32s_1k_run(k, c) {
            Some(x) => Some(x.0),
            None => None,
        },
        None => None,
    }
}

/// Computes [`bucket_ends_1k`].
pub(crate) fn try_bucket_ends_1k(t: &[SaSint], n: SaSint, k: SaSint, buckets: &mut [SaSint]) -> (ok: bool)
    ensures
        ok == (bucket_ends_1k(t@, n as int, k as int, old(buckets)@) is Some),
        ok ==> bucket_ends_1k(t@, n as int, k as int, old(buckets)@) == Some(final(buckets)@),
        final(buckets).len() == old(buckets).len(),
{
    try_count_suffixes_32s(t, n, k, buckets) && try_initialize_buckets_end_32s_1k(k, buckets)
}

/// The order of the LMS substrings of an integer text, with one bucket for each symbol, which
/// is computed anew for each scan.
pub open spec fn partial_order_32s_1k(t: Seq<i32>, n: int, k: int, s: PlaceState) -> Option<PlaceState> {
    if !(n <= s.0.len()) {
        None
    } else {
        match bucket_starts_1k(t, n, k, s.1) {
            Some(b) => match partial_left_32s_1k(t, n, (s.0, b)) {
                Some(x) => match bucket_ends_1k(t, n, k, x.1) {
                    Some(e) => match partial_sorting_scan_right_to_left_32s_1k_run(t, (x.0, e), 0, n) {
                        Some(y) => Some((packed_1k(y.0, n), y.1)),
                        None => None,
                    },
                    None => None,
                },
                None => None,
            },
            None => None,
        }
    }
}

/// Computes [`partial_order_32s_1k`].
pub(crate) fn try_partial_order_32s_1k(t: &[SaSint], sa: &mut [SaSint], n: SaSint, k: SaSint, buckets: &mut [SaSint]) -> (ok: bool)
    requires
        old(sa).len() <= isize::MAX,
    ensures
        ok == (partial_order_32s_1k(t@, n as int, k as int, (old(sa)@, old(buckets)@)) is Some),
        ok ==> partial_order_32s_1k(t@, n as int, k as int, (old(sa)@, old(buckets)@)) == Some((final(sa)@, final(buckets)@)),
        final(sa).len() == old(sa).len(),
        final(buckets).len() == old(buckets).len(),
{
    if n as i64 > 0 && n as u64 > sa.len() as u64 {
        return false;
    }
    if !try_bucket_starts_1k(t, n, k, buckets) || !try_partial_left_32s_1k(t, n, sa, buckets)
        || !try_bucket_ends_1k(t, n, k, buckets)
        || !try_partial_sorting_scan_right_to_left_32s_1k(t, sa, buckets, 0, n as FastSint) {
        return false;
    }
    let _packed: FastSint = partial_sorting_gather_lms_suffixes_32s_1k(sa, 0, n as FastSint);
    true
}

/// What [`induce_partial_order_32s_1k_omp`] leaves: the array, the buckets, and the desks of the workers.
pub open spec fn partial_order_32s_1k_shared(t: Seq<i32>, n: int, k: int, threads: int, s: FinalState) -> Option<FinalState> {
    if !(n <= s.0.len()) {
        None
    } else {
        match bucket_starts_1k(t, n, k, s.1) {
            Some(b) => match left_1k_walked(t, n, threads, (s.0, b, s.2)) {
                Some(x) => match bucket_ends_1k(t, n, k, x.1) {
                    Some(e) => match right_1k_walked(t, 0, n, threads, (x.0, e, x.2)) {
                        Some(y) => Some((packed_1k(y.0, n), y.1, y.2)),
                        None => None,
                    },
                    None => None,
                },
                None => None,
            },
            None => None,
        }
    }
}

/// One worker leaves what [`partial_order_32s_1k`] says, and the desks as they were.
pub proof fn law_partial_order_32s_1k_alone(t: Seq<i32>, n: int, k: int, s: FinalState)
    ensures
        partial_order_32s_1k_shared(t, n, k, 1, s) == match partial_order_32s_1k(t, n, k, (s.0, s.1)) {
            Some(x) => Some((x.0, x.1, s.2)),
            None => None,
        },
{
}

/// Induces the order of the LMS substrings of an integer text, with one bucket for each symbol,
/// and packs the LMS suffixes.
pub fn induce_partial_order_32s_1k_omp(
    t: &[SaSint],
    sa: &mut [SaSint],
    n: SaSint,
    k: SaSint,
    buckets: &mut [SaSint],
    threads: SaSint,
    thread_state: &mut [ThreadState],
)
    requires
        old(sa).len() <= isize::MAX,
        threads == 1 || (n < 65536) || desks_fit(old(thread_state)@),
        partial_order_32s_1k_shared(t@, n as int, k as int, threads as int, (old(sa)@, old(buckets)@, desks(old(thread_state)@))) is Some,
    ensures
        partial_order_32s_1k_shared(t@, n as int, k as int, threads as int, (old(sa)@, old(buckets)@, desks(old(thread_state)@)))
            == Some((final(sa)@, final(buckets)@, desks(final(thread_state)@))),
        quiet(old(thread_state)@, final(thread_state)@),
        desks_sized(old(thread_state)@, final(thread_state)@),
        final(sa).len() == old(sa).len(),
        final(buckets).len() == old(buckets).len(),
{
    let _starts: bool = try_bucket_starts_1k(t, n, k, buckets);
    partial_sorting_scan_left_to_right_32s_1k_omp(t, sa, n, buckets, threads, thread_state);
    let _ends: bool = try_bucket_ends_1k(t, n, k, buckets);
    proof {
        if threads != 1 && !(n < 65536) {
            lemma_still_fit(old(thread_state)@, thread_state@);
        }
    }
    partial_sorting_scan_right_to_left_32s_1k_omp(t, sa, n, buckets, threads, thread_state);
    let _packed: FastSint = partial_sorting_gather_lms_suffixes_32s_1k(sa, 0, n as FastSint);
}

/// Whether the parts of the buckets between `starts` and `ends` exist.
pub open spec fn clearable(sa: Seq<i32>, starts: Seq<i32>, ends: Seq<i32>) -> bool {
    &&& starts.len() >= ALPHABET_SIZE
    &&& ends.len() >= ALPHABET_SIZE
    &&& forall|c: int| 0 <= c < ALPHABET_SIZE && #[trigger] starts[c] < #[trigger] ends[c] ==> 0 <= starts[c] && ends[c] <= sa.len()
}

/// The array between the two final scans: with several workers and a long text, what is left
/// of the buckets is cleared.
pub open spec fn between_scans(sa: Seq<i32>, n: i32, threads: i32, starts: Seq<i32>, ends: Seq<i32>) -> Option<Seq<i32>> {
    if !(threads > 1 && n >= 65536) {
        Some(sa)
    } else if clearable(sa, starts, ends) {
        Some(buckets_cleared(sa, ALPHABET_SIZE as int, starts, ends))
    } else {
        None
    }
}

/// Puts the array between the two final scans in order.
fn settle_between(sa: &mut [SaSint], n: SaSint, threads: SaSint, starts: &[SaSint], ends: &[SaSint])
    requires
        between_scans(old(sa)@, n, threads, starts@, ends@) is Some,
    ensures
        between_scans(old(sa)@, n, threads, starts@, ends@) == Some(final(sa)@),
        final(sa).len() == old(sa).len(),
{
    if threads > 1 && n >= 65536 {
        clear_lms_suffixes_omp(sa, n, 256, starts, ends, threads);
    }
}

/// The buckets of the final order: what stands in front of the starts, the starts and the ends.
pub open spec fn final_buckets(b: Seq<i32>, starts: Seq<i32>, ends: Seq<i32>) -> Seq<i32> {
    b.subrange(0, 1536) + (starts + (ends + b.subrange(2048, b.len() as int)))
}

/// The final order of a byte text, from its sorted LMS suffixes.
pub open spec fn final_order_8u(t: Seq<u8>, n: i32, gsa: bool, threads: i32, s: PlaceState) -> Option<PlaceState> {
    let b = if gsa { s.1.update(1536, (s.1[1792] - 1) as i32) } else { s.1 };
    if s.1.len() < 2048 || (gsa && s.1[1792] == i32::MIN) {
        None
    } else {
        match final_left_8u(t, n as int, (s.0, b.subrange(1536, 1792))) {
            Some(x) => {
                let ends = b.subrange(1792, 2048);
                match between_scans(x.0, n, threads, x.1, ends) {
                    Some(y) => if gsa {
                        if 0 <= ends[0] <= y.len() && ends[0] <= n {
                            match final_gsa_scan_right_to_left_8u_run(t, (flipped_prefix(y, ends[0] as int), ends), ends[0] as int, n - ends[0]) {
                                Some(z) => Some((z.0, final_buckets(b, x.1, z.1))),
                                None => None,
                            }
                        } else {
                            None
                        }
                    } else {
                        match final_sorting_scan_right_to_left_8u_run(t, (y, ends), 0, n as int) {
                            Some(z) => Some((z.0, final_buckets(b, x.1, z.1))),
                            None => None,
                        }
                    },
                    None => None,
                }
            },
            None => None,
        }
    }
}

/// Computes [`final_order_8u`] with one worker.
pub(crate) fn try_final_order_8u(t: &[u8], sa: &mut [SaSint], n: SaSint, gsa: bool, buckets: &mut [SaSint]) -> (ok: bool)
    requires
        0 <= n,
    ensures
        ok == (final_order_8u(t@, n, gsa, 1, (old(sa)@, old(buckets)@)) is Some),
        ok ==> final_order_8u(t@, n, gsa, 1, (old(sa)@, old(buckets)@)) == Some((final(sa)@, final(buckets)@)),
        final(sa).len() == old(sa).len(),
        final(buckets).len() == old(buckets).len(),
{
    if buckets.len() < 2048 {
        return false;
    }
    if gsa {
        if buckets[1792] == SAINT_MIN {
            return false;
        }
        buckets[1536] = buckets[1792] - 1;
    }
    let ghost b = buckets@;
    let (_head, rest) = buckets.split_at_mut(1536);
    let (starts, rest) = rest.split_at_mut(256);
    let (ends, _tail) = rest.split_at_mut(256);
    proof {
        assert(starts@ =~= b.subrange(1536, 1792));
        assert(ends@ =~= b.subrange(1792, 2048));
        assert(_tail@ =~= b.subrange(2048, b.len() as int));
    }
    if !try_final_left_8u(t, n, sa, starts) {
        return false;
    }
    if gsa {
        let zeros: SaSint = ends[0];
        if zeros < 0 || zeros > n || zeros as usize > sa.len() {
            return false;
        }
        flip_suffix_markers_omp(sa, zeros, 1);
        try_final_gsa_scan_right_to_left_8u(t, sa, ends, zeros as FastSint, (n - zeros) as FastSint)
    } else {
        try_final_sorting_scan_right_to_left_8u(t, sa, ends, 0, n as FastSint)
    }
}

/// The transformed text with its samples, from the sorted LMS suffixes of a byte text.
pub open spec fn final_bwt_aux_8u(t: Seq<u8>, n: i32, rm: i32, threads: i32, s: (Seq<i32>, Seq<i32>, Seq<i32>)) -> Option<(Seq<i32>, Seq<i32>, Seq<i32>)> {
    if s.1.len() < 2048 {
        None
    } else {
        match bwt_aux_left_8u(t, n as int, rm, (s.0, s.1.subrange(1536, 1792), s.2)) {
            Some(x) => match between_scans(x.0, n, threads, x.1, s.1.subrange(1792, 2048)) {
                Some(y) => match final_bwt_aux_scan_right_to_left_8u_run(t, rm, (y, s.1.subrange(1792, 2048), x.2), 0, n as int) {
                    Some(z) => Some((z.0, final_buckets(s.1, x.1, z.1), z.2)),
                    None => None,
                },
                None => None,
            },
            None => None,
        }
    }
}

/// The transformed text and its primary index, from the sorted LMS suffixes of a byte text.
pub open spec fn final_bwt_8u(t: Seq<u8>, n: i32, threads: i32, s: PlaceState) -> Option<InduceState> {
    if s.1.len() < 2048 {
        None
    } else {
        match bwt_left_8u(t, n as int, (s.0, s.1.subrange(1536, 1792))) {
            Some(x) => match between_scans(x.0, n, threads, x.1, s.1.subrange(1792, 2048)) {
                Some(y) => match final_bwt_scan_right_to_left_8u_run(t, (y, s.1.subrange(1792, 2048), -1i32), 0, n as int) {
                    Some(z) => Some((z.0, final_buckets(s.1, x.1, z.1), z.2)),
                    None => None,
                },
                None => None,
            },
            None => None,
        }
    }
}

/// Whether `flags` ask for the transformed text.
pub open spec fn transforms(flags: i32) -> bool {
    flags & LIBSAIS_FLAGS_BWT != 0
}

/// The final order of a byte text with `threads` workers: the array, the buckets, and the desks.
pub open spec fn final_order_8u_shared(t: Seq<u8>, n: i32, k: int, gsa: bool, threads: i32, s: FinalState) -> Option<FinalState> {
    let b = if gsa { s.1.update(1536, (s.1[1792] - 1) as i32) } else { s.1 };
    if s.1.len() < 2048 || (gsa && s.1[1792] == i32::MIN) {
        None
    } else {
        match sort_left_walked(t, n as int, k, threads as int, (s.0, b.subrange(1536, 1792), s.2)) {
            Some(x) => {
                let ends = b.subrange(1792, 2048);
                match between_scans(x.0, n, threads, x.1, ends) {
                    Some(y) => if gsa {
                        if 0 <= ends[0] <= y.len() && ends[0] <= n {
                            match sort_gsa_walked(t, k, ends[0] as int, n as int, threads as int, (flipped_prefix(y, ends[0] as int), ends, x.2)) {
                                Some(z) => Some((z.0, final_buckets(b, x.1, z.1), z.2)),
                                None => None,
                            }
                        } else {
                            None
                        }
                    } else {
                        match sort_right_walked(t, k, 0, n as int, threads as int, (y, ends, x.2)) {
                            Some(z) => Some((z.0, final_buckets(b, x.1, z.1), z.2)),
                            None => None,
                        }
                    },
                    None => None,
                }
            },
            None => None,
        }
    }
}

/// One worker leaves what [`final_order_8u`] says, and the desks as they were.
pub proof fn law_final_order_8u_alone(t: Seq<u8>, n: i32, k: int, gsa: bool, s: FinalState)
    ensures
        final_order_8u_shared(t, n, k, gsa, 1, s) == match final_order_8u(t, n, gsa, 1, (s.0, s.1)) {
            Some(x) => Some((x.0, x.1, s.2)),
            None => None,
        },
{
}

/// The transformed text with its samples, with `threads` workers.
pub open spec fn final_bwt_aux_8u_shared(t: Seq<u8>, n: i32, k: int, rm: i32, threads: i32, s: SamplingState) -> Option<SamplingState> {
    if s.1.len() < 2048 {
        None
    } else {
        match bwt_aux_left_walked(t, n as int, rm, k, threads as int, (s.0, s.1.subrange(1536, 1792), s.2, s.3)) {
            Some(x) => match between_scans(x.0, n, threads, x.1, s.1.subrange(1792, 2048)) {
                Some(y) => match bwt_aux_right_walked(t, rm, k, 0, n as int, threads as int, (y, s.1.subrange(1792, 2048), x.2, x.3)) {
                    Some(z) => Some((z.0, final_buckets(s.1, x.1, z.1), z.2, z.3)),
                    None => None,
                },
                None => None,
            },
            None => None,
        }
    }
}

/// One worker leaves what [`final_bwt_aux_8u`] says, and the desks as they were.
pub proof fn law_final_bwt_aux_8u_alone(t: Seq<u8>, n: i32, k: int, rm: i32, s: SamplingState)
    ensures
        final_bwt_aux_8u_shared(t, n, k, rm, 1, s) == match final_bwt_aux_8u(t, n, rm, 1, (s.0, s.1, s.2)) {
            Some(x) => Some((x.0, x.1, x.2, s.3)),
            None => None,
        },
{
}

/// The transformed text and its primary index, with `threads` workers.
pub open spec fn final_bwt_8u_shared(t: Seq<u8>, n: i32, k: int, threads: i32, s: FinalState) -> Option<RankingState> {
    if s.1.len() < 2048 {
        None
    } else {
        match bwt_left_walked(t, n as int, k, threads as int, (s.0, s.1.subrange(1536, 1792), s.2)) {
            Some(x) => match between_scans(x.0, n, threads, x.1, s.1.subrange(1792, 2048)) {
                Some(y) => match bwt_right_walked(t, k, 0, n as int, threads as int, (y, s.1.subrange(1792, 2048), -1i32, x.2)) {
                    Some(z) => Some((z.0, final_buckets(s.1, x.1, z.1), z.2, z.3)),
                    None => None,
                },
                None => None,
            },
            None => None,
        }
    }
}

/// One worker leaves what [`final_bwt_8u`] says, and the desks as they were.
pub proof fn law_final_bwt_8u_alone(t: Seq<u8>, n: i32, k: int, s: FinalState)
    ensures
        final_bwt_8u_shared(t, n, k, 1, s) == match final_bwt_8u(t, n, 1, (s.0, s.1)) {
            Some(x) => Some((x.0, x.1, x.2, s.2)),
            None => None,
        },
{
}

/// Induces the final order of a byte text, or its transformed text, with samples at rate `r`
/// where `i_out` is given. Returns the primary index of a transformed text without samples,
/// and `0` otherwise.
#[verifier::spinoff_prover]
#[verifier::rlimit(60)]
pub fn induce_final_order_8u_omp(
    t: &[u8],
    sa: &mut [SaSint],
    n: SaSint,
    k: SaSint,
    flags: SaSint,
    r: SaSint,
    i_out: Option<&mut [SaSint]>,
    buckets: &mut [SaSint],
    threads: SaSint,
    thread_state: &mut [ThreadState],
) -> (index: SaSint)
    requires
        0 <= n,
        threads == 1 || n < 65536 || desks_fit(old(thread_state)@),
        !transforms(flags) ==> final_order_8u_shared(
            t@, n, k as int, separated(flags), threads, (old(sa)@, old(buckets)@, desks(old(thread_state)@))) is Some,
        transforms(flags) ==> match i_out {
            Some(o) => r > i32::MIN && final_bwt_aux_8u_shared(
                t@, n, k as int, (r - 1) as i32, threads, (old(sa)@, old(buckets)@, o@, desks(old(thread_state)@))) is Some,
            None => final_bwt_8u_shared(t@, n, k as int, threads, (old(sa)@, old(buckets)@, desks(old(thread_state)@))) is Some,
        },
    ensures
        !transforms(flags) ==> index == 0 && final_order_8u_shared(
            t@, n, k as int, separated(flags), threads, (old(sa)@, old(buckets)@, desks(old(thread_state)@)))
            == Some((final(sa)@, final(buckets)@, desks(final(thread_state)@))) && (i_out matches Some(o) ==> final(o)@ == o@),
        transforms(flags) ==> match i_out {
            Some(o) => index == 0 && final_bwt_aux_8u_shared(
                t@, n, k as int, (r - 1) as i32, threads, (old(sa)@, old(buckets)@, o@, desks(old(thread_state)@)))
                == Some((final(sa)@, final(buckets)@, final(o)@, desks(final(thread_state)@))),
            None => final_bwt_8u_shared(t@, n, k as int, threads, (old(sa)@, old(buckets)@, desks(old(thread_state)@)))
                == Some((final(sa)@, final(buckets)@, index, desks(final(thread_state)@))),
        },
        quiet(old(thread_state)@, final(thread_state)@),
        desks_sized(old(thread_state)@, final(thread_state)@),
        final(sa).len() == old(sa).len(),
        final(buckets).len() == old(buckets).len(),
{
    let ghost b0 = buckets@;
    if flags & LIBSAIS_FLAGS_BWT == 0 {
        let gsa: bool = is_separated(flags);
        if gsa {
            buckets[1536] = buckets[1792] - 1;
        }
        let ghost b = buckets@;
        let (_head, rest) = buckets.split_at_mut(1536);
        let (starts, rest) = rest.split_at_mut(256);
        let (ends, _tail) = rest.split_at_mut(256);
        proof {
            assert(starts@ =~= b.subrange(1536, 1792));
            assert(ends@ =~= b.subrange(1792, 2048));
            assert(_tail@ =~= b.subrange(2048, b.len() as int));
        }
        final_sorting_scan_left_to_right_8u_omp(t, sa, n as FastSint, k, starts, threads, thread_state);
        proof {
            if threads != 1 && n >= 65536 {
                lemma_still_fit(old(thread_state)@, thread_state@);
            }
        }
        settle_between(sa, n, threads, starts, ends);
        if gsa {
            let zeros: SaSint = ends[0];
            flip_suffix_markers_omp(sa, zeros, threads);
            final_gsa_scan_right_to_left_8u_omp(
                t, sa, zeros as FastSint, (n - zeros) as FastSint, k, ends, threads, thread_state);
        } else {
            final_sorting_scan_right_to_left_8u_omp(t, sa, 0, n as FastSint, k, ends, threads, thread_state);
        }
        0
    } else {
        let (_head, rest) = buckets.split_at_mut(1536);
        let (starts, rest) = rest.split_at_mut(256);
        let (ends, _tail) = rest.split_at_mut(256);
        proof {
            assert(starts@ =~= b0.subrange(1536, 1792));
            assert(ends@ =~= b0.subrange(1792, 2048));
            assert(_tail@ =~= b0.subrange(2048, b0.len() as int));
        }
        match i_out {
            Some(o) => {
                let rm: SaSint = r - 1;
                final_bwt_aux_scan_left_to_right_8u_omp(t, sa, n as FastSint, k, rm, o, starts, threads, thread_state);
                proof {
                    if threads != 1 && n >= 65536 {
                        lemma_still_fit(old(thread_state)@, thread_state@);
                    }
                }
                settle_between(sa, n, threads, starts, ends);
                final_bwt_aux_scan_right_to_left_8u_omp(t, sa, n, k, rm, o, ends, threads, thread_state);
                0
            },
            None => {
                final_bwt_scan_left_to_right_8u_omp(t, sa, n as FastSint, k, starts, threads, thread_state);
                proof {
                    if threads != 1 && n >= 65536 {
                        lemma_still_fit(old(thread_state)@, thread_state@);
                    }
                }
                settle_between(sa, n, threads, starts, ends);
                final_bwt_scan_right_to_left_8u_omp(t, sa, n, k, ends, threads, thread_state)
            },
        }
    }
}

/// The final order of an integer text, with six buckets for each symbol: the starts behind four for each, then the ends.
pub open spec fn final_order_32s_6k(t: Seq<i32>, n: int, k: int, s: PlaceState) -> Option<PlaceState> {
    if !(0 <= k && 5 * k <= s.1.len()) {
        None
    } else {
        match final_left_32s(t, n, (s.0, s.1.subrange(4 * k, 5 * k))) {
            Some(x) => match final_sorting_scan_right_to_left_32s_run(t, (x.0, s.1.subrange(5 * k, s.1.len() as int)), 0, n) {
                Some(y) => Some((y.0, s.1.subrange(0, 4 * k) + (x.1 + y.1))),
                None => None,
            },
            None => None,
        }
    }
}

/// Computes [`final_order_32s_6k`].
pub(crate) fn try_final_order_32s_6k(t: &[SaSint], sa: &mut [SaSint], n: SaSint, k: SaSint, buckets: &mut [SaSint]) -> (ok: bool)
    ensures
        ok == (final_order_32s_6k(t@, n as int, k as int, (old(sa)@, old(buckets)@)) is Some),
        ok ==> final_order_32s_6k(t@, n as int, k as int, (old(sa)@, old(buckets)@)) == Some((final(sa)@, final(buckets)@)),
        final(sa).len() == old(sa).len(),
        final(buckets).len() == old(buckets).len(),
{
    if k < 0 || 5 * (k as u64) > buckets.len() as u64 {
        return false;
    }
    let ghost b = buckets@;
    assert(b.len() == buckets.len());
    let (_head, rest) = buckets.split_at_mut(4 * k as usize);
    let (starts, ends) = rest.split_at_mut(k as usize);
    proof {
        assert(starts@ =~= b.subrange(4 * k, 5 * k));
        assert(ends@ =~= b.subrange(5 * k, b.len() as int));
    }
    try_final_left_32s(t, n, sa, starts) && try_final_sorting_scan_right_to_left_32s(t, sa, ends, 0, n as FastSint)
}

/// What [`induce_final_order_32s_6k`] leaves: the array, the buckets, and the desks of the workers.
pub open spec fn final_order_32s_6k_shared(t: Seq<i32>, n: int, k: int, threads: int, s: FinalState) -> Option<FinalState> {
    if !(0 <= k && 5 * k <= s.1.len()) {
        None
    } else {
        match final_left_walked(t, n, threads, (s.0, s.1.subrange(4 * k, 5 * k), s.2)) {
            Some(x) => match final_right_walked(t, 0, n, threads, (x.0, s.1.subrange(5 * k, s.1.len() as int), x.2)) {
                Some(y) => Some((y.0, s.1.subrange(0, 4 * k) + (x.1 + y.1), y.2)),
                None => None,
            },
            None => None,
        }
    }
}

/// One worker leaves what [`final_order_32s_6k`] says, and the desks as they were.
pub proof fn law_final_order_32s_6k_alone(t: Seq<i32>, n: int, k: int, s: FinalState)
    ensures
        final_order_32s_6k_shared(t, n, k, 1, s) == match final_order_32s_6k(t, n, k, (s.0, s.1)) {
            Some(x) => Some((x.0, x.1, s.2)),
            None => None,
        },
{
}

/// Induces the final order of an integer text, with six buckets for each symbol: the starts behind four for each, then the ends.
pub fn induce_final_order_32s_6k(
    t: &[SaSint],
    sa: &mut [SaSint],
    n: SaSint,
    k: SaSint,
    buckets: &mut [SaSint],
    threads: SaSint,
    thread_state: &mut [ThreadState],
)
    requires
        threads == 1 || (n < 65536) || desks_fit(old(thread_state)@),
        final_order_32s_6k_shared(t@, n as int, k as int, threads as int, (old(sa)@, old(buckets)@, desks(old(thread_state)@))) is Some,
    ensures
        final_order_32s_6k_shared(t@, n as int, k as int, threads as int, (old(sa)@, old(buckets)@, desks(old(thread_state)@)))
            == Some((final(sa)@, final(buckets)@, desks(final(thread_state)@))),
        quiet(old(thread_state)@, final(thread_state)@),
        desks_sized(old(thread_state)@, final(thread_state)@),
        final(sa).len() == old(sa).len(),
{
    let ghost b = buckets@;
    assert(b.len() == buckets.len());
    let (_head, rest) = buckets.split_at_mut(4 * k as usize);
    let (starts, ends) = rest.split_at_mut(k as usize);
    proof {
        assert(starts@ =~= b.subrange(4 * k, 5 * k));
        assert(ends@ =~= b.subrange(5 * k, b.len() as int));
    }
    final_sorting_scan_left_to_right_32s_omp(t, sa, n, starts, threads, thread_state);
    proof {
        if threads != 1 && !(n < 65536) {
            lemma_still_fit(old(thread_state)@, thread_state@);
        }
    }
    final_sorting_scan_right_to_left_32s_omp(t, sa, n, ends, threads, thread_state);
}

/// The final order of an integer text, with four buckets for each symbol: the starts behind two for each, then the ends.
pub open spec fn final_order_32s_4k(t: Seq<i32>, n: int, k: int, s: PlaceState) -> Option<PlaceState> {
    if !(0 <= k && 3 * k <= s.1.len()) {
        None
    } else {
        match final_left_32s(t, n, (s.0, s.1.subrange(2 * k, 3 * k))) {
            Some(x) => match final_sorting_scan_right_to_left_32s_run(t, (x.0, s.1.subrange(3 * k, s.1.len() as int)), 0, n) {
                Some(y) => Some((y.0, s.1.subrange(0, 2 * k) + (x.1 + y.1))),
                None => None,
            },
            None => None,
        }
    }
}

/// Computes [`final_order_32s_4k`].
pub(crate) fn try_final_order_32s_4k(t: &[SaSint], sa: &mut [SaSint], n: SaSint, k: SaSint, buckets: &mut [SaSint]) -> (ok: bool)
    ensures
        ok == (final_order_32s_4k(t@, n as int, k as int, (old(sa)@, old(buckets)@)) is Some),
        ok ==> final_order_32s_4k(t@, n as int, k as int, (old(sa)@, old(buckets)@)) == Some((final(sa)@, final(buckets)@)),
        final(sa).len() == old(sa).len(),
        final(buckets).len() == old(buckets).len(),
{
    if k < 0 || 3 * (k as u64) > buckets.len() as u64 {
        return false;
    }
    let ghost b = buckets@;
    assert(b.len() == buckets.len());
    let (_head, rest) = buckets.split_at_mut(2 * k as usize);
    let (starts, ends) = rest.split_at_mut(k as usize);
    proof {
        assert(starts@ =~= b.subrange(2 * k, 3 * k));
        assert(ends@ =~= b.subrange(3 * k, b.len() as int));
    }
    try_final_left_32s(t, n, sa, starts) && try_final_sorting_scan_right_to_left_32s(t, sa, ends, 0, n as FastSint)
}

/// What [`induce_final_order_32s_4k`] leaves: the array, the buckets, and the desks of the workers.
pub open spec fn final_order_32s_4k_shared(t: Seq<i32>, n: int, k: int, threads: int, s: FinalState) -> Option<FinalState> {
    if !(0 <= k && 3 * k <= s.1.len()) {
        None
    } else {
        match final_left_walked(t, n, threads, (s.0, s.1.subrange(2 * k, 3 * k), s.2)) {
            Some(x) => match final_right_walked(t, 0, n, threads, (x.0, s.1.subrange(3 * k, s.1.len() as int), x.2)) {
                Some(y) => Some((y.0, s.1.subrange(0, 2 * k) + (x.1 + y.1), y.2)),
                None => None,
            },
            None => None,
        }
    }
}

/// One worker leaves what [`final_order_32s_4k`] says, and the desks as they were.
pub proof fn law_final_order_32s_4k_alone(t: Seq<i32>, n: int, k: int, s: FinalState)
    ensures
        final_order_32s_4k_shared(t, n, k, 1, s) == match final_order_32s_4k(t, n, k, (s.0, s.1)) {
            Some(x) => Some((x.0, x.1, s.2)),
            None => None,
        },
{
}

/// Induces the final order of an integer text, with four buckets for each symbol: the starts behind two for each, then the ends.
pub fn induce_final_order_32s_4k(
    t: &[SaSint],
    sa: &mut [SaSint],
    n: SaSint,
    k: SaSint,
    buckets: &mut [SaSint],
    threads: SaSint,
    thread_state: &mut [ThreadState],
)
    requires
        threads == 1 || (n < 65536) || desks_fit(old(thread_state)@),
        final_order_32s_4k_shared(t@, n as int, k as int, threads as int, (old(sa)@, old(buckets)@, desks(old(thread_state)@))) is Some,
    ensures
        final_order_32s_4k_shared(t@, n as int, k as int, threads as int, (old(sa)@, old(buckets)@, desks(old(thread_state)@)))
            == Some((final(sa)@, final(buckets)@, desks(final(thread_state)@))),
        quiet(old(thread_state)@, final(thread_state)@),
        desks_sized(old(thread_state)@, final(thread_state)@),
        final(sa).len() == old(sa).len(),
{
    let ghost b = buckets@;
    assert(b.len() == buckets.len());
    let (_head, rest) = buckets.split_at_mut(2 * k as usize);
    let (starts, ends) = rest.split_at_mut(k as usize);
    proof {
        assert(starts@ =~= b.subrange(2 * k, 3 * k));
        assert(ends@ =~= b.subrange(3 * k, b.len() as int));
    }
    final_sorting_scan_left_to_right_32s_omp(t, sa, n, starts, threads, thread_state);
    proof {
        if threads != 1 && !(n < 65536) {
            lemma_still_fit(old(thread_state)@, thread_state@);
        }
    }
    final_sorting_scan_right_to_left_32s_omp(t, sa, n, ends, threads, thread_state);
}

/// The final order of an integer text, with two buckets for each symbol: the ends first, then the starts.
pub open spec fn final_order_32s_2k(t: Seq<i32>, n: int, k: int, s: PlaceState) -> Option<PlaceState> {
    if !(0 <= k <= s.1.len()) {
        None
    } else {
        match final_left_32s(t, n, (s.0, s.1.subrange(k, s.1.len() as int))) {
            Some(x) => match final_sorting_scan_right_to_left_32s_run(t, (x.0, s.1.subrange(0, k)), 0, n) {
                Some(y) => Some((y.0, y.1 + x.1)),
                None => None,
            },
            None => None,
        }
    }
}

/// Computes [`final_order_32s_2k`].
pub(crate) fn try_final_order_32s_2k(t: &[SaSint], sa: &mut [SaSint], n: SaSint, k: SaSint, buckets: &mut [SaSint]) -> (ok: bool)
    ensures
        ok == (final_order_32s_2k(t@, n as int, k as int, (old(sa)@, old(buckets)@)) is Some),
        ok ==> final_order_32s_2k(t@, n as int, k as int, (old(sa)@, old(buckets)@)) == Some((final(sa)@, final(buckets)@)),
        final(sa).len() == old(sa).len(),
        final(buckets).len() == old(buckets).len(),
{
    if k < 0 || k as usize > buckets.len() {
        return false;
    }
    let (ends, starts) = buckets.split_at_mut(k as usize);
    try_final_left_32s(t, n, sa, starts) && try_final_sorting_scan_right_to_left_32s(t, sa, ends, 0, n as FastSint)
}

/// What [`induce_final_order_32s_2k`] leaves: the array, the buckets, and the desks of the workers.
pub open spec fn final_order_32s_2k_shared(t: Seq<i32>, n: int, k: int, threads: int, s: FinalState) -> Option<FinalState> {
    if !(0 <= k <= s.1.len()) {
        None
    } else {
        match final_left_walked(t, n, threads, (s.0, s.1.subrange(k, s.1.len() as int), s.2)) {
            Some(x) => match final_right_walked(t, 0, n, threads, (x.0, s.1.subrange(0, k), x.2)) {
                Some(y) => Some((y.0, y.1 + x.1, y.2)),
                None => None,
            },
            None => None,
        }
    }
}

/// One worker leaves what [`final_order_32s_2k`] says, and the desks as they were.
pub proof fn law_final_order_32s_2k_alone(t: Seq<i32>, n: int, k: int, s: FinalState)
    ensures
        final_order_32s_2k_shared(t, n, k, 1, s) == match final_order_32s_2k(t, n, k, (s.0, s.1)) {
            Some(x) => Some((x.0, x.1, s.2)),
            None => None,
        },
{
}

/// Induces the final order of an integer text, with two buckets for each symbol: the ends first, then the starts.
pub fn induce_final_order_32s_2k(
    t: &[SaSint],
    sa: &mut [SaSint],
    n: SaSint,
    k: SaSint,
    buckets: &mut [SaSint],
    threads: SaSint,
    thread_state: &mut [ThreadState],
)
    requires
        threads == 1 || (n < 65536) || desks_fit(old(thread_state)@),
        final_order_32s_2k_shared(t@, n as int, k as int, threads as int, (old(sa)@, old(buckets)@, desks(old(thread_state)@))) is Some,
    ensures
        final_order_32s_2k_shared(t@, n as int, k as int, threads as int, (old(sa)@, old(buckets)@, desks(old(thread_state)@)))
            == Some((final(sa)@, final(buckets)@, desks(final(thread_state)@))),
        quiet(old(thread_state)@, final(thread_state)@),
        desks_sized(old(thread_state)@, final(thread_state)@),
        final(sa).len() == old(sa).len(),
{
    let (ends, starts) = buckets.split_at_mut(k as usize);
    final_sorting_scan_left_to_right_32s_omp(t, sa, n, starts, threads, thread_state);
    proof {
        if threads != 1 && !(n < 65536) {
            lemma_still_fit(old(thread_state)@, thread_state@);
        }
    }
    final_sorting_scan_right_to_left_32s_omp(t, sa, n, ends, threads, thread_state);
}

/// The final order of an integer text, with one bucket for each symbol, which is computed anew
/// for each scan.
pub open spec fn final_order_32s_1k(t: Seq<i32>, n: int, k: int, s: PlaceState) -> Option<PlaceState> {
    match bucket_starts_1k(t, n, k, s.1) {
        Some(b) => match final_left_32s(t, n, (s.0, b)) {
            Some(x) => match bucket_ends_1k(t, n, k, x.1) {
                Some(e) => final_sorting_scan_right_to_left_32s_run(t, (x.0, e), 0, n),
                None => None,
            },
            None => None,
        },
        None => None,
    }
}

/// Computes [`final_order_32s_1k`].
pub(crate) fn try_final_order_32s_1k(t: &[SaSint], sa: &mut [SaSint], n: SaSint, k: SaSint, buckets: &mut [SaSint]) -> (ok: bool)
    ensures
        ok == (final_order_32s_1k(t@, n as int, k as int, (old(sa)@, old(buckets)@)) is Some),
        ok ==> final_order_32s_1k(t@, n as int, k as int, (old(sa)@, old(buckets)@)) == Some((final(sa)@, final(buckets)@)),
        final(sa).len() == old(sa).len(),
        final(buckets).len() == old(buckets).len(),
{
    try_bucket_starts_1k(t, n, k, buckets) && try_final_left_32s(t, n, sa, buckets) && try_bucket_ends_1k(t, n, k, buckets)
        && try_final_sorting_scan_right_to_left_32s(t, sa, buckets, 0, n as FastSint)
}

/// What [`induce_final_order_32s_1k`] leaves: the array, the buckets, and the desks of the workers.
pub open spec fn final_order_32s_1k_shared(t: Seq<i32>, n: int, k: int, threads: int, s: FinalState) -> Option<FinalState> {
    match bucket_starts_1k(t, n, k, s.1) {
        Some(b) => match final_left_walked(t, n, threads, (s.0, b, s.2)) {
            Some(x) => match bucket_ends_1k(t, n, k, x.1) {
                Some(e) => final_right_walked(t, 0, n, threads, (x.0, e, x.2)),
                None => None,
            },
            None => None,
        },
        None => None,
    }
}

/// One worker leaves what [`final_order_32s_1k`] says, and the desks as they were.
pub proof fn law_final_order_32s_1k_alone(t: Seq<i32>, n: int, k: int, s: FinalState)
    ensures
        final_order_32s_1k_shared(t, n, k, 1, s) == match final_order_32s_1k(t, n, k, (s.0, s.1)) {
            Some(x) => Some((x.0, x.1, s.2)),
            None => None,
        },
{
}

/// Induces the final order of an integer text, with one bucket for each symbol.
pub fn induce_final_order_32s_1k(
    t: &[SaSint],
    sa: &mut [SaSint],
    n: SaSint,
    k: SaSint,
    buckets: &mut [SaSint],
    threads: SaSint,
    thread_state: &mut [ThreadState],
)
    requires
        threads == 1 || (n < 65536) || desks_fit(old(thread_state)@),
        final_order_32s_1k_shared(t@, n as int, k as int, threads as int, (old(sa)@, old(buckets)@, desks(old(thread_state)@))) is Some,
    ensures
        final_order_32s_1k_shared(t@, n as int, k as int, threads as int, (old(sa)@, old(buckets)@, desks(old(thread_state)@)))
            == Some((final(sa)@, final(buckets)@, desks(final(thread_state)@))),
        quiet(old(thread_state)@, final(thread_state)@),
        desks_sized(old(thread_state)@, final(thread_state)@),
        final(sa).len() == old(sa).len(),
        final(buckets).len() == old(buckets).len(),
{
    let _starts: bool = try_bucket_starts_1k(t, n, k, buckets);
    final_sorting_scan_left_to_right_32s_omp(t, sa, n, buckets, threads, thread_state);
    let _ends: bool = try_bucket_ends_1k(t, n, k, buckets);
    proof {
        if threads != 1 && !(n < 65536) {
            lemma_still_fit(old(thread_state)@, thread_state@);
        }
    }
    final_sorting_scan_right_to_left_32s_omp(t, sa, n, buckets, threads, thread_state);
}

} // verus!
