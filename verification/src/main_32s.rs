//! Suffix arrays of integer texts: the recursion over names of LMS substrings.

use vstd::prelude::*;
use crate::buckets::{
    initialize_buckets_end_32s_2k_run, initialize_buckets_for_lms_suffixes_radix_sort_32s_2k_run,
    initialize_buckets_for_lms_suffixes_radix_sort_32s_6k_run, initialize_buckets_for_partial_sorting_32s_6k_run,
    initialize_buckets_for_radix_and_partial_sorting_32s_4k_run, initialize_buckets_start_and_end_32s_4k_run,
    initialize_buckets_start_and_end_32s_6k_run, packed_bounds, packed_bounds_fit, try_initialize_buckets_end_32s_2k,
    try_initialize_buckets_for_lms_suffixes_radix_sort_32s_2k,
    try_initialize_buckets_for_lms_suffixes_radix_sort_32s_6k, try_initialize_buckets_for_partial_sorting_32s_6k,
    try_initialize_buckets_for_radix_and_partial_sorting_32s_4k, try_initialize_buckets_start_and_end_32s_2k,
    try_initialize_buckets_start_and_end_32s_4k, try_initialize_buckets_start_and_end_32s_6k,
};
use crate::compact::{
    compact_lms_run, reconstruct_compacted_1k_run, reconstruct_compacted_2k_run, try_compact_lms_suffixes_32s,
    try_reconstruct_compacted_lms_suffixes_32s_1k, try_reconstruct_compacted_lms_suffixes_32s_2k,
};
use crate::gather::{
    clear_range, cleared, count_and_gather_lms_suffixes_32s_2k_run, count_and_gather_lms_suffixes_32s_4k_run,
    count_lms_suffixes_32s_2k_run, text32, try_count_and_gather_lms_suffixes_32s_2k,
    try_count_and_gather_lms_suffixes_32s_4k, try_count_lms_suffixes_32s_2k, zeros,
};
use crate::induction::symbols_below;
use crate::integer_sort::law_integers_sort;
use crate::order::{is_suffix_array, sort_by_insertion};
use crate::orders::{
    bucket_ends_1k, final_order_32s_1k, final_order_32s_2k, final_order_32s_4k, final_order_32s_6k, partial_order_32s_1k,
    partial_order_32s_2k, partial_order_32s_4k, partial_order_32s_6k, try_bucket_ends_1k, try_final_order_32s_1k,
    try_final_order_32s_2k, try_final_order_32s_4k, try_final_order_32s_6k, try_partial_order_32s_1k,
    try_partial_order_32s_2k, try_partial_order_32s_4k, try_partial_order_32s_6k,
};
use crate::place::{
    place_lms_suffixes_histogram_32s_2k_run, place_lms_suffixes_histogram_32s_4k_run,
    place_lms_suffixes_histogram_32s_6k_run, place_lms_suffixes_interval_32s_1k_run,
    place_lms_suffixes_interval_32s_2k_run, place_lms_suffixes_interval_32s_4k_run,
    try_place_lms_suffixes_histogram_32s_2k, try_place_lms_suffixes_histogram_32s_4k,
    try_place_lms_suffixes_histogram_32s_6k, try_place_lms_suffixes_interval_32s_1k,
    try_place_lms_suffixes_interval_32s_2k, try_place_lms_suffixes_interval_32s_4k,
};
use crate::radix::{
    radix_sort_lms_suffixes_32s_1k_run, radix_sort_lms_suffixes_32s_2k_run, radix_sort_lms_suffixes_32s_6k_run,
    radix_sort_set_markers_32s_4k_slot_run, radix_sort_set_markers_32s_6k_slot_run, try_radix_sort_lms_suffixes_32s_1k,
    try_radix_sort_lms_suffixes_32s_2k, try_radix_sort_lms_suffixes_32s_6k, try_radix_sort_set_markers_32s_4k,
    try_radix_sort_set_markers_32s_6k,
};
use crate::renumber::{
    renumber_and_gather_run, renumber_and_mark_distinct_1k_run, renumber_and_mark_distinct_4k_run,
    try_renumber_and_gather_lms_suffixes, try_renumber_and_mark_distinct_lms_suffixes_32s_1k,
    try_renumber_and_mark_distinct_lms_suffixes_32s_4k,
};
use crate::types::{FastSint, PlaceState, SaSint, ThreadState, LIBSAIS_LOCAL_BUFFER_SIZE, SAINT_MAX};

verus! {

/// A copy of the entries from `lo` up to `hi`.
pub(crate) fn copy_of(s: &[SaSint], lo: usize, hi: usize) -> (v: Vec<SaSint>)
    requires
        lo <= hi <= s.len(),
    ensures
        v@ == s@.subrange(lo as int, hi as int),
{
    let mut v: Vec<SaSint> = Vec::with_capacity(hi - lo);
    let mut i: usize = lo;
    while i < hi
        invariant
            lo <= i <= hi <= s.len(),
            v@ =~= s@.subrange(lo as int, i as int),
        decreases hi - i,
    {
        v.push(s[i]);
        i += 1;
    }
    v
}

/// Whether the reduced text of `m - f` names does not fit in the space that is left of the
/// `n + fs` slots.
pub open spec fn reduced_refused(n: int, m: int, f: int, names: int, fs: int) -> bool {
    ||| f < 0
    ||| m < f
    ||| m > n
    ||| names < f
    ||| n + fs > i32::MAX
    ||| m - f >= n
    ||| fs + n - 2 * m + f < 0
}

/// Whether `r` is `s` with the reduced text, the `m - f` names at the end of the `n + fs` slots,
/// sorted in the first slots. The last `m` slots are kept, the others are scratch.
pub open spec fn reduced_sorted(s: Seq<i32>, r: Seq<i32>, n: int, m: int, f: int, fs: int) -> bool {
    &&& r.len() == s.len()
    &&& is_suffix_array(text32(s.subrange(n + fs - (m - f), n + fs)), r.subrange(0, m - f))
    &&& forall|i: int| n + fs - m <= i < s.len() ==> #[trigger] r[i] == s[i]
}

/// Sorts the reduced text that the `m - f` names at the end of the `n + fs` slots form, in
/// place of its ranks.
fn sort_reduced(sa: &mut [SaSint], n: SaSint, m: SaSint, f: SaSint, names: SaSint, fs: SaSint) -> (ok: bool)
    requires
        0 <= n,
        0 <= fs,
        n + fs <= old(sa).len(),
    ensures
        ok == !reduced_refused(n as int, m as int, f as int, names as int, fs as int),
        ok ==> reduced_sorted(old(sa)@, final(sa)@, n as int, m as int, f as int, fs as int),
        !ok ==> final(sa)@ == old(sa)@,
        final(sa).len() == old(sa).len(),
    decreases n, 0int,
{
    if f < 0 || m < f || m > n || names < f || n as i64 + fs as i64 > SAINT_MAX as i64 {
        return false;
    }
    let size: SaSint = m - f;
    let free: i64 = fs as i64 + n as i64 - 2 * (m as i64) + f as i64;
    if size >= n || free < 0 {
        return false;
    }
    let total: usize = n as usize + fs as usize;
    let mut reduced: Vec<SaSint> = copy_of(sa, total - size as usize, total);
    libsais_main_32s_recursion(reduced.as_mut_slice(), sa, size, names - f, free as SaSint) == 0
}

/// Whether a step that computes `o` ends in `s`, or fails where there is nothing to compute.
pub open spec fn computes<S>(o: Option<S>, ok: bool, s: S) -> bool {
    &&& ok == (o is Some)
    &&& ok ==> o == Some(s)
}

/// The text and the array with the names that stand alone taken out, and how many those are;
/// where that is not wanted, everything is left as it is.
pub open spec fn compacted(t: Seq<i32>, s: Seq<i32>, n: int, m: int, fs: int, wanted: bool) -> Option<(Seq<i32>, Seq<i32>, i32)> {
    if wanted {
        compact_lms_run(t, s, n, m, fs)
    } else {
        Some((t, s, 0))
    }
}

/// What is left of a text, its array and its buckets.
pub type SortState = (Seq<i32>, Seq<i32>, Seq<i32>);

/// Whether sorting the LMS suffixes of `x` by their names ends in `y`: nothing is left to sort
/// where every name stands alone, and the suffixes are only counted; elsewhere the reduced text
/// is sorted and the suffixes take its order.
pub open spec fn names_sorted(
    n: int,
    k: int,
    m: int,
    names: int,
    fs: int,
    wanted: bool,
    x: SortState,
    ok: bool,
    y: SortState,
) -> bool {
    if names >= m {
        match count_lms_suffixes_32s_2k_run(text32(x.0), n, x.2.len()) {
            Some(c) => ok && y == (x.0, x.1, c.1),
            None => !ok,
        }
    } else {
        match compacted(x.0, x.1, n, m, fs, wanted) {
            Some(c) => if reduced_refused(n, m, c.2 as int, names, fs) {
                !ok
            } else {
                exists|r: Seq<i32>| #[trigger] reduced_sorted(c.1, r, n, m, c.2 as int, fs) && computes(
                    reconstruct_compacted_2k_run(c.0, r, n, k, m, fs, c.2 as int, x.2, 0, 1, 1, 1),
                    ok,
                    y,
                )
            },
            None => !ok,
        }
    }
}

/// Sorts the LMS suffixes by their names, as [`names_sorted`] says.
fn sort_names(
    t: &mut [SaSint],
    sa: &mut [SaSint],
    n: SaSint,
    k: SaSint,
    m: SaSint,
    names: SaSint,
    fs: SaSint,
    wanted: bool,
    buckets: &mut [SaSint],
) -> (ok: bool)
    requires
        n == old(t).len(),
        1 <= n,
        0 <= fs,
        n + fs <= old(sa).len() <= isize::MAX,
        old(buckets).len() <= isize::MAX,
    ensures
        names_sorted(n as int, k as int, m as int, names as int, fs as int, wanted, (old(t)@, old(sa)@, old(buckets)@), ok,
            (final(t)@, final(sa)@, final(buckets)@)),
        final(t).len() == old(t).len(),
        final(sa).len() == old(sa).len(),
        final(buckets).len() == old(buckets).len(),
    decreases n, 1int,
{
    if names >= m {
        return try_count_lms_suffixes_32s_2k(t, n, buckets);
    }
    let mut f: SaSint = 0;
    if wanted {
        match try_compact_lms_suffixes_32s(t, sa, n, m, fs) {
            Some(alone) => {
                f = alone;
            },
            None => return false,
        }
    }
    let ghost c = (t@, sa@, f);
    if !sort_reduced(sa, n, m, f, names, fs) {
        return false;
    }
    let ghost r = sa@;
    let ok: bool = try_reconstruct_compacted_lms_suffixes_32s_2k(t, sa, n, k, m, fs, f, buckets, 0, 1, 1, 1);
    proof {
        assert(compacted(old(t)@, old(sa)@, n as int, m as int, fs as int, wanted) == Some(c));
        assert(reduced_sorted(c.1, r, n as int, m as int, c.2 as int, fs as int));
    }
    ok
}

/// What naming the LMS substrings leaves: the array, the buckets, the number of LMS suffixes
/// and the number of their names.
pub type NamedState = (Seq<i32>, Seq<i32>, int, int);

/// The LMS substrings named, with six buckets for each symbol. Where many symbols share the
/// slots, the names that stand alone are marked; elsewhere the names are gathered.
pub open spec fn named_6k(t: Seq<i32>, sa: Seq<i32>, n: int, k: int, fs: int, b: Seq<i32>) -> Option<NamedState> {
    match count_and_gather_lms_suffixes_32s_4k_run(text32(t), sa, n, b.len(), 0, n) {
        Some(x) => {
            let m = n - 1 - x.2;
            let first = x.0[n - m] as int;
            if !(0 <= m <= n / 2) {
                None
            } else if m <= 1 {
                Some((x.0.update(0, x.0[n - 1]), x.1, m, m))
            } else {
                match initialize_buckets_for_lms_suffixes_radix_sort_32s_6k_run(text32(t), k, x.1, first) {
                    Some(y) => match radix_sorted_6k(t, n, k, m, (cleared(x.0, 0, n - m), y.0)) {
                        Some(z) => match initialize_buckets_for_partial_sorting_32s_6k_run(t, k, z.1, first, y.1 as int) {
                            Some(p) => if 0 <= first <= n && 0 <= y.1 < n {
                                match partial_order_32s_6k(t, n, k, first, y.1 as int, (z.0, p.0)) {
                                    Some(o) => if n / 8192 < k {
                                        match renumber_and_mark_distinct_4k_run(o.0, n, m, 1, 1) {
                                            Some(r) => Some((r.0, o.1, m, r.1)),
                                            None => None,
                                        }
                                    } else {
                                        match renumber_and_gather_run(o.0, n, m, fs) {
                                            Some(r) => Some((r.0, o.1, m, r.1 as int)),
                                            None => None,
                                        }
                                    },
                                    None => None,
                                }
                            } else {
                                None
                            },
                            None => None,
                        },
                        None => None,
                    },
                    None => None,
                }
            }
        },
        None => None,
    }
}

/// The LMS suffixes but the first sorted by their first symbols, with six buckets for each
/// symbol; where many symbols share the slots, the last of each bucket is marked.
pub open spec fn radix_sorted_6k(t: Seq<i32>, n: int, k: int, m: int, s: PlaceState) -> Option<PlaceState> {
    if !(0 <= k && 4 * k <= s.1.len()) {
        None
    } else {
        match radix_sort_lms_suffixes_32s_6k_run(t, (s.0, s.1.subrange(4 * k, s.1.len() as int)), n - m + 1, m - 1) {
            Some(x) => if n / 8192 < k {
                match radix_sort_set_markers_32s_6k_slot_run(x.1, x.0, 0, k - 1) {
                    Some(y) => Some((y, s.1.subrange(0, 4 * k) + x.1)),
                    None => None,
                }
            } else {
                Some((x.0, s.1.subrange(0, 4 * k) + x.1))
            },
            None => None,
        }
    }
}

/// Names the LMS substrings, as [`named_6k`] says. Returns the number of LMS suffixes and the
/// number of their names.
fn name_6k(t: &[SaSint], sa: &mut [SaSint], n: SaSint, k: SaSint, fs: SaSint, buckets: &mut [SaSint]) -> (r: Option<(SaSint, SaSint)>)
    requires
        n == t.len(),
        2 <= n <= old(sa).len() <= isize::MAX,
        1 <= k,
        old(buckets).len() == 6 * k,
    ensures
        r is Some == (named_6k(t@, old(sa)@, n as int, k as int, fs as int, old(buckets)@) is Some),
        r matches Some(v) ==> named_6k(t@, old(sa)@, n as int, k as int, fs as int, old(buckets)@)
            == Some((final(sa)@, final(buckets)@, v.0 as int, v.1 as int)),
        r matches Some(v) ==> 0 <= v.0 <= n / 2 && (v.0 <= 1 ==> v.1 == v.0),
        final(sa).len() == old(sa).len(),
        final(buckets).len() == old(buckets).len(),
{
    let kk: usize = k as usize;
    let m: SaSint = match try_count_and_gather_lms_suffixes_32s_4k(t, sa, n, buckets, 0, n as FastSint) {
        Some(m) => m,
        None => return None,
    };
    if m < 0 || m > n / 2 {
        return None;
    }
    if m <= 1 {
        sa[0] = sa[n as usize - 1];
        return Some((m, m));
    }
    clear_range(sa, 0, (n - m) as usize);
    let first: SaSint = sa[(n - m) as usize];
    let left: SaSint = match try_initialize_buckets_for_lms_suffixes_radix_sort_32s_6k(t, k, buckets, first) {
        Some(left) => left,
        None => return None,
    };
    let many: bool = n / 8192 < k;
    if !radix_sort_6k(t, sa, n, k, m, buckets)
        || !try_initialize_buckets_for_partial_sorting_32s_6k(t, k, buckets, first, left) {
        return None;
    }
    if first < 0 || first > n || left < 0 || left >= n || !try_partial_order_32s_6k(t, sa, n, k, buckets, first, left) {
        return None;
    }
    let named: Option<SaSint> = if many {
        try_renumber_and_mark_distinct_lms_suffixes_32s_4k(sa, n, m)
    } else {
        try_renumber_and_gather_lms_suffixes(sa, n, m, fs)
    };
    match named {
        Some(names) => Some((m, names)),
        None => None,
    }
}

/// Sorts the LMS suffixes but the first by their first symbols, as [`radix_sorted_6k`] says.
fn radix_sort_6k(t: &[SaSint], sa: &mut [SaSint], n: SaSint, k: SaSint, m: SaSint, buckets: &mut [SaSint]) -> (ok: bool)
    requires
        2 <= n,
        2 <= m <= n,
        1 <= k,
        old(buckets).len() == 6 * k,
    ensures
        ok == (radix_sorted_6k(t@, n as int, k as int, m as int, (old(sa)@, old(buckets)@)) is Some),
        ok ==> radix_sorted_6k(t@, n as int, k as int, m as int, (old(sa)@, old(buckets)@))
            == Some((final(sa)@, final(buckets)@)),
        final(sa).len() == old(sa).len(),
        final(buckets).len() == old(buckets).len(),
{
    let (_head, ends) = buckets.split_at_mut(4 * k as usize);
    if !try_radix_sort_lms_suffixes_32s_6k(t, sa, ends, (n - m + 1) as FastSint, (m - 1) as FastSint) {
        return false;
    }
    if n / 8192 < k {
        try_radix_sort_set_markers_32s_6k(sa, ends, 0, (k - 1) as FastSint)
    } else {
        true
    }
}

/// The order of the suffixes from their sorted LMS suffixes, with six buckets for each symbol:
/// where there are several LMS suffixes, four of the buckets are used.
pub open spec fn ordered_6k(t: Seq<i32>, n: int, k: int, m: int, s: PlaceState) -> Option<Seq<i32>> {
    if m > 1 {
        ordered_4k(t, n, k, m, s)
    } else {
        match initialize_buckets_start_and_end_32s_6k_run(k, s.1) {
            Some(x) => match place_lms_suffixes_histogram_32s_6k_run(s.0, n, k, m, x.0) {
                Some(p) => match final_order_32s_6k(t, n, k, (p, x.0)) {
                    Some(o) => Some(o.0),
                    None => None,
                },
                None => None,
            },
            None => None,
        }
    }
}

/// Induces the order of the suffixes, as [`ordered_6k`] says.
fn order_6k(t: &[SaSint], sa: &mut [SaSint], n: SaSint, k: SaSint, m: SaSint, buckets: &mut [SaSint]) -> (ok: bool)
    ensures
        computes(ordered_6k(t@, n as int, k as int, m as int, (old(sa)@, old(buckets)@)), ok, final(sa)@),
        final(sa).len() == old(sa).len(),
{
    if m > 1 {
        order_4k(t, sa, n, k, m, buckets)
    } else {
        try_initialize_buckets_start_and_end_32s_6k(k, buckets)
            && try_place_lms_suffixes_histogram_32s_6k(sa, n, k, m, buckets) && try_final_order_32s_6k(t, sa, n, k, buckets)
    }
}

/// The LMS substrings named, with four buckets for each symbol; the names that stand alone are
/// marked.
pub open spec fn named_4k(t: Seq<i32>, sa: Seq<i32>, n: int, k: int, b: Seq<i32>) -> Option<NamedState> {
    match count_and_gather_lms_suffixes_32s_2k_run(text32(t), sa, n, b.len(), 0, n) {
        Some(x) => {
            let m = n - 1 - x.2;
            let first = x.0[n - m] as int;
            if !(0 <= m <= n / 2) {
                None
            } else if m <= 1 {
                Some((x.0.update(0, x.0[n - 1]), x.1, m, m))
            } else {
                match initialize_buckets_for_radix_and_partial_sorting_32s_4k_run(t, k, x.1, first) {
                    Some(y) => match radix_sorted_2k(t, n, m, (x.0, y.0)) {
                        Some(z) => match radix_sort_set_markers_32s_4k_slot_run(
                            z.1.subrange(1, z.1.len() as int), z.0, 0, k - 1) {
                            Some(q) => match place_lms_suffixes_interval_32s_4k_run(q, n, k, m - 1, z.1) {
                                Some(p) => match partial_order_32s_4k(t, n, k, (p, z.1)) {
                                    Some(o) => match renumber_and_mark_distinct_4k_run(o.0, n, m, 1, 1) {
                                        Some(r) => Some((r.0, o.1, m, r.1)),
                                        None => None,
                                    },
                                    None => None,
                                },
                                None => None,
                            },
                            None => None,
                        },
                        None => None,
                    },
                    None => None,
                }
            }
        },
        None => None,
    }
}

/// The LMS suffixes but the first sorted by their first symbols, with every other bucket.
pub open spec fn radix_sorted_2k(t: Seq<i32>, n: int, m: int, s: PlaceState) -> Option<PlaceState> {
    if s.1.len() < 1 {
        None
    } else {
        match radix_sort_lms_suffixes_32s_2k_run(t, (s.0, s.1.subrange(1, s.1.len() as int)), n - m + 1, m - 1) {
            Some(x) => Some((x.0, s.1.subrange(0, 1) + x.1)),
            None => None,
        }
    }
}

/// Sorts the LMS suffixes but the first by their first symbols, as [`radix_sorted_2k`] says.
fn radix_sort_2k(t: &[SaSint], sa: &mut [SaSint], n: SaSint, m: SaSint, buckets: &mut [SaSint]) -> (ok: bool)
    requires
        2 <= m <= n,
        1 <= old(buckets).len(),
    ensures
        ok == (radix_sorted_2k(t@, n as int, m as int, (old(sa)@, old(buckets)@)) is Some),
        ok ==> radix_sorted_2k(t@, n as int, m as int, (old(sa)@, old(buckets)@)) == Some((final(sa)@, final(buckets)@)),
        final(sa).len() == old(sa).len(),
        final(buckets).len() == old(buckets).len(),
{
    let (_head, ends) = buckets.split_at_mut(1);
    try_radix_sort_lms_suffixes_32s_2k(t, sa, ends, (n - m + 1) as FastSint, (m - 1) as FastSint)
}

/// Names the LMS substrings, as [`named_4k`] says. Returns the number of LMS suffixes and the
/// number of their names.
fn name_4k(t: &[SaSint], sa: &mut [SaSint], n: SaSint, k: SaSint, buckets: &mut [SaSint]) -> (r: Option<(SaSint, SaSint)>)
    requires
        n == t.len(),
        2 <= n <= old(sa).len() <= isize::MAX,
        1 <= k,
        old(buckets).len() == 4 * k,
    ensures
        r is Some == (named_4k(t@, old(sa)@, n as int, k as int, old(buckets)@) is Some),
        r matches Some(v) ==> named_4k(t@, old(sa)@, n as int, k as int, old(buckets)@)
            == Some((final(sa)@, final(buckets)@, v.0 as int, v.1 as int)),
        r matches Some(v) ==> 0 <= v.0 <= n / 2 && (v.0 <= 1 ==> v.1 == v.0),
        final(sa).len() == old(sa).len(),
        final(buckets).len() == old(buckets).len(),
{
    let m: SaSint = match try_count_and_gather_lms_suffixes_32s_2k(t, sa, n, buckets, 0, n as FastSint) {
        Some(m) => m,
        None => return None,
    };
    if m < 0 || m > n / 2 {
        return None;
    }
    if m <= 1 {
        sa[0] = sa[n as usize - 1];
        return Some((m, m));
    }
    let first: SaSint = sa[(n - m) as usize];
    if !try_initialize_buckets_for_radix_and_partial_sorting_32s_4k(t, k, buckets, first) {
        return None;
    }
    if !radix_sort_2k(t, sa, n, m, buckets) {
        return None;
    }
    let ghost b = buckets@;
    {
        let (_head, ends) = buckets.split_at_mut(1);
        if !try_radix_sort_set_markers_32s_4k(sa, ends, 0, (k - 1) as FastSint) {
            return None;
        }
    }
    assert(buckets@ =~= b);
    if !try_place_lms_suffixes_interval_32s_4k(sa, n, k, m - 1, buckets) || !try_partial_order_32s_4k(t, sa, n, k, buckets) {
        return None;
    }
    match try_renumber_and_mark_distinct_lms_suffixes_32s_4k(sa, n, m) {
        Some(names) => Some((m, names)),
        None => None,
    }
}

/// The order of the suffixes from their sorted LMS suffixes, with four buckets for each symbol.
pub open spec fn ordered_4k(t: Seq<i32>, n: int, k: int, m: int, s: PlaceState) -> Option<Seq<i32>> {
    match initialize_buckets_start_and_end_32s_4k_run(k, s.1) {
        Some(x) => match place_lms_suffixes_histogram_32s_4k_run(s.0, n, k, m, x.0) {
            Some(p) => match final_order_32s_4k(t, n, k, (p, x.0)) {
                Some(o) => Some(o.0),
                None => None,
            },
            None => None,
        },
        None => None,
    }
}

/// Induces the order of the suffixes, as [`ordered_4k`] says.
fn order_4k(t: &[SaSint], sa: &mut [SaSint], n: SaSint, k: SaSint, m: SaSint, buckets: &mut [SaSint]) -> (ok: bool)
    ensures
        computes(ordered_4k(t@, n as int, k as int, m as int, (old(sa)@, old(buckets)@)), ok, final(sa)@),
        final(sa).len() == old(sa).len(),
{
    try_initialize_buckets_start_and_end_32s_4k(k, buckets)
        && try_place_lms_suffixes_histogram_32s_4k(sa, n, k, m, buckets) && try_final_order_32s_4k(t, sa, n, k, buckets)
}

/// The LMS substrings named, with two buckets for each symbol; the names that stand alone are
/// marked.
pub open spec fn named_2k(t: Seq<i32>, sa: Seq<i32>, n: int, k: int, b: Seq<i32>) -> Option<NamedState> {
    match count_and_gather_lms_suffixes_32s_2k_run(text32(t), sa, n, b.len(), 0, n) {
        Some(x) => {
            let m = n - 1 - x.2;
            let first = x.0[n - m] as int;
            if !(0 <= m <= n / 2) {
                None
            } else if m <= 1 {
                Some((x.0.update(0, x.0[n - 1]), x.1, m, m))
            } else {
                match initialize_buckets_for_lms_suffixes_radix_sort_32s_2k_run(t, k, x.1, first) {
                    Some(y) => match radix_sorted_2k(t, n, m, (x.0, y.0)) {
                        Some(z) => match place_lms_suffixes_interval_32s_2k_run(z.0, n, k, m - 1, z.1) {
                            Some(p) => if packed_bounds_fit(k, z.1.len() as int) {
                                match partial_order_32s_2k(t, n, k, (p, packed_bounds(k, z.1))) {
                                    Some(o) => match renumber_and_mark_distinct_1k_run(t, o.0, n, m, 1) {
                                        Some(r) => Some((r.0, o.1, m, r.1)),
                                        None => None,
                                    },
                                    None => None,
                                }
                            } else {
                                None
                            },
                            None => None,
                        },
                        None => None,
                    },
                    None => None,
                }
            }
        },
        None => None,
    }
}

/// Names the LMS substrings, as [`named_2k`] says. Returns the number of LMS suffixes and the
/// number of their names.
fn name_2k(t: &[SaSint], sa: &mut [SaSint], n: SaSint, k: SaSint, buckets: &mut [SaSint]) -> (r: Option<(SaSint, SaSint)>)
    requires
        n == t.len(),
        2 <= n <= old(sa).len() <= isize::MAX,
        1 <= k,
        old(buckets).len() == 2 * k,
    ensures
        r is Some == (named_2k(t@, old(sa)@, n as int, k as int, old(buckets)@) is Some),
        r matches Some(v) ==> named_2k(t@, old(sa)@, n as int, k as int, old(buckets)@)
            == Some((final(sa)@, final(buckets)@, v.0 as int, v.1 as int)),
        r matches Some(v) ==> 0 <= v.0 <= n / 2 && (v.0 <= 1 ==> v.1 == v.0),
        final(sa).len() == old(sa).len(),
        final(buckets).len() == old(buckets).len(),
{
    let m: SaSint = match try_count_and_gather_lms_suffixes_32s_2k(t, sa, n, buckets, 0, n as FastSint) {
        Some(m) => m,
        None => return None,
    };
    if m < 0 || m > n / 2 {
        return None;
    }
    if m <= 1 {
        sa[0] = sa[n as usize - 1];
        return Some((m, m));
    }
    let first: SaSint = sa[(n - m) as usize];
    if !try_initialize_buckets_for_lms_suffixes_radix_sort_32s_2k(t, k, buckets, first) {
        return None;
    }
    if !radix_sort_2k(t, sa, n, m, buckets) || !try_place_lms_suffixes_interval_32s_2k(sa, n, k, m - 1, buckets)
        || !try_initialize_buckets_start_and_end_32s_2k(k, buckets) || !try_partial_order_32s_2k(t, sa, n, k, buckets) {
        return None;
    }
    match try_renumber_and_mark_distinct_lms_suffixes_32s_1k(t, sa, n, m, 1) {
        Some(names) => Some((m, names)),
        None => None,
    }
}

/// The order of the suffixes from their sorted LMS suffixes, with two buckets for each symbol.
pub open spec fn ordered_2k(t: Seq<i32>, n: int, k: int, m: int, s: PlaceState) -> Option<Seq<i32>> {
    match initialize_buckets_end_32s_2k_run(k, s.1) {
        Some(x) => match place_lms_suffixes_histogram_32s_2k_run(s.0, n, k, m, x.0) {
            Some(p) => if packed_bounds_fit(k, x.0.len() as int) {
                match final_order_32s_2k(t, n, k, (p, packed_bounds(k, x.0))) {
                    Some(o) => Some(o.0),
                    None => None,
                }
            } else {
                None
            },
            None => None,
        },
        None => None,
    }
}

/// Induces the order of the suffixes, as [`ordered_2k`] says.
fn order_2k(t: &[SaSint], sa: &mut [SaSint], n: SaSint, k: SaSint, m: SaSint, buckets: &mut [SaSint]) -> (ok: bool)
    ensures
        computes(ordered_2k(t@, n as int, k as int, m as int, (old(sa)@, old(buckets)@)), ok, final(sa)@),
        final(sa).len() == old(sa).len(),
{
    try_initialize_buckets_end_32s_2k(k, buckets) && try_place_lms_suffixes_histogram_32s_2k(sa, n, k, m, buckets)
        && try_initialize_buckets_start_and_end_32s_2k(k, buckets) && try_final_order_32s_2k(t, sa, n, k, buckets)
}

/// The LMS substrings named, with one bucket for each symbol; the names that stand alone are
/// marked.
pub open spec fn named_1k(t: Seq<i32>, sa: Seq<i32>, n: int, k: int, b: Seq<i32>) -> Option<NamedState> {
    match bucket_ends_1k(t, n, k, b) {
        Some(e) => match radix_sort_lms_suffixes_32s_1k_run(t, cleared(sa, 0, n), n, e) {
            Some(x) => if !(0 <= x.2 <= n / 2) {
                None
            } else if x.2 <= 1 {
                Some((x.0, x.1, x.2 as int, x.2 as int))
            } else {
                match partial_order_32s_1k(t, n, k, (x.0, x.1)) {
                    Some(o) => match renumber_and_mark_distinct_1k_run(t, o.0, n, x.2 as int, 1) {
                        Some(r) => Some((r.0, o.1, x.2 as int, r.1)),
                        None => None,
                    },
                    None => None,
                }
            },
            None => None,
        },
        None => None,
    }
}

/// Names the LMS substrings, as [`named_1k`] says. Returns the number of LMS suffixes and the
/// number of their names.
fn name_1k(t: &[SaSint], sa: &mut [SaSint], n: SaSint, k: SaSint, buckets: &mut [SaSint]) -> (r: Option<(SaSint, SaSint)>)
    requires
        n == t.len(),
        2 <= n <= old(sa).len() <= isize::MAX,
    ensures
        r is Some == (named_1k(t@, old(sa)@, n as int, k as int, old(buckets)@) is Some),
        r matches Some(v) ==> named_1k(t@, old(sa)@, n as int, k as int, old(buckets)@)
            == Some((final(sa)@, final(buckets)@, v.0 as int, v.1 as int)),
        r matches Some(v) ==> 0 <= v.0 <= n / 2 && (v.0 <= 1 ==> v.1 == v.0),
        final(sa).len() == old(sa).len(),
        final(buckets).len() == old(buckets).len(),
{
    clear_range(sa, 0, n as usize);
    if !try_bucket_ends_1k(t, n, k, buckets) {
        return None;
    }
    let m: SaSint = match try_radix_sort_lms_suffixes_32s_1k(t, sa, n, buckets) {
        Some(m) => m,
        None => return None,
    };
    if m < 0 || m > n / 2 {
        return None;
    }
    if m <= 1 {
        return Some((m, m));
    }
    if !try_partial_order_32s_1k(t, sa, n, k, buckets) {
        return None;
    }
    match try_renumber_and_mark_distinct_lms_suffixes_32s_1k(t, sa, n, m, 1) {
        Some(names) => Some((m, names)),
        None => None,
    }
}

/// The order of the suffixes from their sorted LMS suffixes, with one bucket for each symbol.
/// One LMS suffix stands in its place already.
pub open spec fn ordered_1k(t: Seq<i32>, n: int, k: int, m: int, s: PlaceState) -> Option<Seq<i32>> {
    match placed_1k(t, n, k, m, s) {
        Some(p) => match final_order_32s_1k(t, n, k, p) {
            Some(o) => Some(o.0),
            None => None,
        },
        None => None,
    }
}

/// The sorted LMS suffixes placed in their buckets.
pub open spec fn placed_1k(t: Seq<i32>, n: int, k: int, m: int, s: PlaceState) -> Option<PlaceState> {
    if m <= 1 {
        Some(s)
    } else {
        match bucket_ends_1k(t, n, k, s.1) {
            Some(e) => match place_lms_suffixes_interval_32s_1k_run(t, s.0, k, m, e) {
                Some(p) => Some((p, e)),
                None => None,
            },
            None => None,
        }
    }
}

/// Induces the order of the suffixes, as [`ordered_1k`] says.
fn order_1k(t: &[SaSint], sa: &mut [SaSint], n: SaSint, k: SaSint, m: SaSint, buckets: &mut [SaSint]) -> (ok: bool)
    ensures
        computes(ordered_1k(t@, n as int, k as int, m as int, (old(sa)@, old(buckets)@)), ok, final(sa)@),
        final(sa).len() == old(sa).len(),
{
    if m > 1 {
        if !try_bucket_ends_1k(t, n, k, buckets) || !try_place_lms_suffixes_interval_32s_1k(t, sa, k, m, buckets) {
            return false;
        }
    }
    try_final_order_32s_1k(t, sa, n, k, buckets)
}

/// Whether sorting the LMS suffixes of `x` by their names ends in `y`, with one bucket for each
/// symbol: nothing is left to sort where every name stands alone.
pub open spec fn names_sorted_1k(n: int, m: int, names: int, fs: int, x: PlaceState, ok: bool, y: PlaceState) -> bool {
    if names >= m {
        ok && y == x
    } else {
        match compact_lms_run(x.0, x.1, n, m, fs) {
            Some(c) => if reduced_refused(n, m, c.2 as int, names, fs) {
                !ok
            } else {
                exists|r: Seq<i32>| #[trigger] reduced_sorted(c.1, r, n, m, c.2 as int, fs) && computes(
                    reconstruct_compacted_1k_run(c.0, r, n, m, fs, c.2 as int, 1, 1),
                    ok,
                    y,
                )
            },
            None => !ok,
        }
    }
}

/// Sorts the LMS suffixes by their names, as [`names_sorted_1k`] says.
fn sort_names_1k(t: &mut [SaSint], sa: &mut [SaSint], n: SaSint, m: SaSint, names: SaSint, fs: SaSint) -> (ok: bool)
    requires
        0 <= n,
        0 <= fs,
        n + fs <= old(sa).len() <= isize::MAX,
    ensures
        names_sorted_1k(n as int, m as int, names as int, fs as int, (old(t)@, old(sa)@), ok, (final(t)@, final(sa)@)),
        final(t).len() == old(t).len(),
        final(sa).len() == old(sa).len(),
    decreases n, 1int,
{
    if names >= m {
        return true;
    }
    let f: SaSint = match try_compact_lms_suffixes_32s(t, sa, n, m, fs) {
        Some(f) => f,
        None => return false,
    };
    let ghost c = (t@, sa@, f);
    if !sort_reduced(sa, n, m, f, names, fs) {
        return false;
    }
    let ghost r = sa@;
    let ok: bool = try_reconstruct_compacted_lms_suffixes_32s_1k(t, sa, n, m, fs, f, 1, 1);
    proof {
        assert(reduced_sorted(c.1, r, n as int, m as int, c.2 as int, fs as int));
    }
    ok
}

/// How many buckets for each of `k` symbols the free space or a small buffer holds, or one.
pub open spec fn layout(n: int, k: int, fs: int) -> int {
    let buffer = LIBSAIS_LOCAL_BUFFER_SIZE as int;
    if !(0 < k <= 0x0fff_ffff) {
        1
    } else if fs / k >= 6 || buffer / k >= 6 {
        6
    } else if n <= i32::MAX / 2 && (fs / k >= 4 || buffer / k >= 4) {
        4
    } else if fs / k >= 2 || buffer / k >= 2 {
        2
    } else {
        1
    }
}

/// The LMS substrings named with the buckets that there are.
#[verifier::opaque]
pub open spec fn named(t: Seq<i32>, sa: Seq<i32>, n: int, k: int, fs: int) -> Option<NamedState> {
    let b = zeros((layout(n, k, fs) * k) as nat);
    if layout(n, k, fs) == 6 {
        named_6k(t, sa, n, k, fs, b)
    } else if layout(n, k, fs) == 4 {
        named_4k(t, sa, n, k, b)
    } else if layout(n, k, fs) == 2 {
        named_2k(t, sa, n, k, b)
    } else {
        named_1k(t, sa, n, k, b)
    }
}

/// The order of the suffixes from their sorted LMS suffixes, with the buckets that there are.
#[verifier::opaque]
pub open spec fn ordered(t: Seq<i32>, n: int, k: int, fs: int, m: int, s: PlaceState) -> Option<Seq<i32>> {
    if layout(n, k, fs) == 6 {
        ordered_6k(t, n, k, m, s)
    } else if layout(n, k, fs) == 4 {
        ordered_4k(t, n, k, m, s)
    } else if layout(n, k, fs) == 2 {
        ordered_2k(t, n, k, m, s)
    } else {
        ordered_1k(t, n, k, m, s)
    }
}

/// Whether sorting the LMS suffixes of `x` by their names ends in `y`, with the buckets that
/// there are. A single LMS suffix is sorted.
pub open spec fn lms_ordered(
    n: int,
    k: int,
    fs: int,
    m: int,
    names: int,
    x: SortState,
    ok: bool,
    y: SortState,
) -> bool {
    if m <= 1 {
        ok && y == x
    } else if layout(n, k, fs) == 1 {
        names_sorted_1k(n, m, names, fs, (x.0, x.1), ok, (y.0, y.1)) && (ok ==> y.2 == x.2)
    } else {
        names_sorted(n, k, m, names, fs, layout(n, k, fs) < 6 || n / 8192 < k, x, ok, y)
    }
}

/// Whether induced sorting of the suffixes of `t` ends in the array `r`: the LMS substrings are
/// named, the LMS suffixes sorted by their names, and the order of all suffixes induced.
pub open spec fn induced(t: Seq<i32>, sa: Seq<i32>, n: int, k: int, fs: int, ok: bool, u: Seq<i32>, r: Seq<i32>) -> bool {
    match named(t, sa, n, k, fs) {
        Some(x) => exists|done: bool, y: SortState| #[trigger] lms_ordered(n, k, fs, x.2, x.3, (t, x.0, x.1), done, y) && (if done {
            u == y.0 && computes(ordered(y.0, n, k, fs, x.2, (y.1, y.2)), ok, r)
        } else {
            !ok
        }),
        None => !ok,
    }
}

/// How many buckets there are for each symbol, as [`layout`] says.
fn choose_layout(n: SaSint, k: SaSint, fs: SaSint) -> (lanes: usize)
    requires
        0 <= n,
        0 <= k,
        0 <= fs,
    ensures
        lanes == layout(n as int, k as int, fs as int),
{
    let buffer: SaSint = LIBSAIS_LOCAL_BUFFER_SIZE as SaSint;
    if k == 0 || k > 0x0fff_ffff {
        1
    } else if fs / k >= 6 || buffer / k >= 6 {
        6
    } else if n <= SAINT_MAX / 2 && (fs / k >= 4 || buffer / k >= 4) {
        4
    } else if fs / k >= 2 || buffer / k >= 2 {
        2
    } else {
        1
    }
}

/// Names the LMS substrings, as [`named`] says. Returns the number of LMS suffixes and the
/// number of their names.
fn name_substrings(
    t: &[SaSint],
    sa: &mut [SaSint],
    n: SaSint,
    k: SaSint,
    fs: SaSint,
    lanes: usize,
    buckets: &mut [SaSint],
) -> (r: Option<(SaSint, SaSint)>)
    requires
        n == t.len(),
        2 <= n <= old(sa).len() <= isize::MAX,
        0 <= k,
        lanes == layout(n as int, k as int, fs as int),
        old(buckets)@ == zeros((lanes * k) as nat),
    ensures
        r is Some == (named(t@, old(sa)@, n as int, k as int, fs as int) is Some),
        r matches Some(v) ==> named(t@, old(sa)@, n as int, k as int, fs as int)
            == Some((final(sa)@, final(buckets)@, v.0 as int, v.1 as int)),
        r matches Some(v) ==> 0 <= v.0 <= n / 2 && (v.0 <= 1 ==> v.1 == v.0),
        final(sa).len() == old(sa).len(),
        final(buckets).len() == old(buckets).len(),
{
    proof {
        reveal(named);
    }
    if lanes == 6 {
        name_6k(t, sa, n, k, fs, buckets)
    } else if lanes == 4 {
        name_4k(t, sa, n, k, buckets)
    } else if lanes == 2 {
        name_2k(t, sa, n, k, buckets)
    } else {
        name_1k(t, sa, n, k, buckets)
    }
}

/// Induces the order of the suffixes, as [`ordered`] says.
fn order_suffixes(
    t: &[SaSint],
    sa: &mut [SaSint],
    n: SaSint,
    k: SaSint,
    fs: SaSint,
    lanes: usize,
    m: SaSint,
    buckets: &mut [SaSint],
) -> (ok: bool)
    requires
        lanes == layout(n as int, k as int, fs as int),
    ensures
        computes(ordered(t@, n as int, k as int, fs as int, m as int, (old(sa)@, old(buckets)@)), ok, final(sa)@),
        final(sa).len() == old(sa).len(),
{
    proof {
        reveal(ordered);
    }
    if lanes == 6 {
        order_6k(t, sa, n, k, m, buckets)
    } else if lanes == 4 {
        order_4k(t, sa, n, k, m, buckets)
    } else if lanes == 2 {
        order_2k(t, sa, n, k, m, buckets)
    } else {
        order_1k(t, sa, n, k, m, buckets)
    }
}

/// Sorts the LMS suffixes by their names, as [`lms_ordered`] says.
fn order_lms(
    t: &mut [SaSint],
    sa: &mut [SaSint],
    n: SaSint,
    k: SaSint,
    fs: SaSint,
    lanes: usize,
    m: SaSint,
    names: SaSint,
    buckets: &mut [SaSint],
) -> (ok: bool)
    requires
        n == old(t).len(),
        2 <= n,
        0 <= fs,
        n + fs <= old(sa).len() <= isize::MAX,
        old(buckets).len() <= isize::MAX,
        lanes == layout(n as int, k as int, fs as int),
    ensures
        lms_ordered(n as int, k as int, fs as int, m as int, names as int, (old(t)@, old(sa)@, old(buckets)@), ok,
            (final(t)@, final(sa)@, final(buckets)@)),
        final(t).len() == old(t).len(),
        final(sa).len() == old(sa).len(),
    decreases n, 2int,
{
    if m <= 1 {
        true
    } else if lanes == 1 {
        sort_names_1k(t, sa, n, m, names, fs)
    } else {
        sort_names(t, sa, n, k, m, names, fs, lanes < 6 || n / 8192 < k, buckets)
    }
}

/// Induces the order of the suffixes, as [`induced`] says.
fn induce_32s(t: &mut [SaSint], sa: &mut [SaSint], n: SaSint, k: SaSint, fs: SaSint) -> (ok: bool)
    requires
        n == old(t).len(),
        2 <= n,
        0 <= k,
        0 <= fs,
        n + fs <= old(sa).len() <= isize::MAX,
    ensures
        induced(old(t)@, old(sa)@, n as int, k as int, fs as int, ok, final(t)@, final(sa)@),
        final(t).len() == old(t).len(),
        final(sa).len() == old(sa).len(),
    decreases n, 3int,
{
    let lanes: usize = choose_layout(n, k, fs);
    assert(lanes * k <= i32::MAX) by (nonlinear_arith)
        requires
            lanes == 1 || (lanes <= 6 && k <= 0x0fff_ffff),
            0 <= k <= i32::MAX,
    ;
    let mut room: Vec<SaSint> = vec![0; lanes * k as usize];
    let buckets: &mut [SaSint] = room.as_mut_slice();
    assert(buckets@ =~= zeros((lanes * k) as nat));
    let (m, names) = match name_substrings(t, sa, n, k, fs, lanes, buckets) {
        Some(v) => v,
        None => return false,
    };
    let ghost x = named(t@, old(sa)@, n as int, k as int, fs as int)->0;
    let done: bool = order_lms(t, sa, n, k, fs, lanes, m, names, buckets);
    let ghost y = (t@, sa@, buckets@);
    proof {
        assert(lms_ordered(n as int, k as int, fs as int, x.2, x.3, (old(t)@, x.0, x.1), done, y));
    }
    if !done {
        return false;
    }
    order_suffixes(t, sa, n, k, fs, lanes, m, buckets)
}

/// Determines whether all symbols of `t` are below `k`.
fn symbols_fit(t: &[SaSint], k: SaSint) -> (r: bool)
    ensures
        r == symbols_below(t@, k as int),
{
    let mut i: usize = 0;
    while i < t.len()
        invariant
            i <= t.len(),
            forall|j: int| 0 <= j < i ==> 0 <= #[trigger] t@[j] < k,
        decreases t.len() - i,
    {
        if t[i] < 0 || t[i] >= k {
            return false;
        }
        i += 1;
    }
    true
}

/// Sorts the suffixes of an integer text over the symbols below `k` by induced sorting, working
/// in the first `n + fs` slots. The text is left as it was. Where a symbol is not below `k`, no
/// buckets can be used, and suffixes are sorted by insertion.
pub fn libsais_main_32s_recursion(t: &mut [SaSint], sa: &mut [SaSint], n: SaSint, k: SaSint, fs: SaSint) -> (r: SaSint)
    requires
        n == old(t).len(),
        0 <= n,
        0 <= fs,
        n + fs <= old(sa).len(),
    ensures
        r == 0,
        final(t)@ == old(t)@,
        final(sa).len() == old(sa).len(),
        is_suffix_array(text32(old(t)@), final(sa)@.subrange(0, n as int)),
        forall|i: int| n + fs <= i < old(sa).len() ==> final(sa)@[i] == old(sa)@[i],
    decreases n, 4int,
{
    let free: SaSint = if fs < SAINT_MAX - n { fs } else { SAINT_MAX - n };
    let (work, _rest) = sa.split_at_mut(n as usize + free as usize);
    if n >= 2 && symbols_fit(t, k) {
        assert(0 <= t@[0] < k);
        let ghost before = work@;
        let _sorted: bool = induce_32s(t, work, n, k, free);
        proof {
            law_integers_sort(old(t)@, before, k as int, free as int, _sorted, t@, work@);
        }
    } else {
        sort_by_insertion(t, work);
    }
    assert(sa@.subrange(0, n as int) =~= work@.subrange(0, n as int));
    0
}

/// Sorts the suffixes of the first `n` symbols of an integer text over the symbols below
/// `k`. The text is left as it was; the `fs` slots behind the first `n` are scratch, and so is
/// the working storage where several workers are meant and the text is long.
pub fn libsais_main_32s_entry(
    t: &mut [SaSint],
    sa: &mut [SaSint],
    n: SaSint,
    k: SaSint,
    fs: SaSint,
    threads: SaSint,
    _thread_state: &mut [ThreadState],
) -> (r: SaSint)
    requires
        0 <= n <= old(t).len(),
        0 <= fs,
        n + fs <= old(sa).len(),
    ensures
        r == 0,
        final(t)@ == old(t)@,
        final(sa).len() == old(sa).len(),
        is_suffix_array(text32(old(t)@.subrange(0, n as int)), final(sa)@.subrange(0, n as int)),
        forall|i: int| n + fs <= i < old(sa).len() ==> final(sa)@[i] == old(sa)@[i],
        threads == 1 || n < 65536 ==> final(_thread_state)@ == old(_thread_state)@,
        final(_thread_state).len() == old(_thread_state).len(),
{
    let (text, _rest) = t.split_at_mut(n as usize);
    let r: SaSint = libsais_main_32s_recursion(text, sa, n, k, fs);
    assert(t@ =~= old(t)@);
    r
}

} // verus!
