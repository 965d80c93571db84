//! Suffix arrays of byte texts.

use vstd::prelude::*;
use crate::blocks::workers;
use crate::buckets::{
    initialize_buckets_for_lms_suffixes_radix_sort_8u_run, initialize_buckets_for_partial_sorting_8u_run,
    initialize_buckets_start_and_end_8u_run, try_initialize_buckets_for_lms_suffixes_radix_sort_8u,
    try_initialize_buckets_for_partial_sorting_8u, try_initialize_buckets_start_and_end_8u,
};
use crate::byte_sort::{law_bytes_readied, law_bytes_sort, lemma_byte_gathered};
use crate::bytes::{is_well_separated, sample_count, samples_from, sorted_text, valid_rate, well_separated};
use crate::context::alloc_thread_state;
use crate::desks::desks;
use crate::gather::{
    clear_range, cleared, count_and_gather_lms_suffixes_8u_run, gather_lms_suffixes_8u_run, text32, text8,
    try_count_and_gather_lms_suffixes_8u, try_gather_lms_suffixes_8u,
};
use crate::gather_omp::count_and_gather_lms_suffixes_8u_omp;
use crate::induction_8u::{front_byte, law_final_bwt_8u};
use crate::laws::law_suffix_array_exists;
use crate::main_32s::{computes, copy_of, libsais_main_32s_entry, reduced_sorted};
use crate::order::is_suffix_array;
use crate::orders::{
    final_order_8u, induce_final_order_8u_omp, law_final_bwt_8u_alone, law_final_bwt_aux_8u_alone, partial_order_8u,
    radix_sorted_8u, try_final_order_8u, try_partial_order_8u,
};
use crate::place::{place_lms_suffixes_interval_8u_run, try_place_lms_suffixes_interval_8u};
use crate::radix::try_radix_sort_lms_suffixes_8u;
use crate::renumber::{
    reconstruct_lms_suffixes_run, renumber_and_gather_run, try_reconstruct_lms_suffixes,
    try_renumber_and_gather_lms_suffixes,
};
use crate::sampling::{law_final_bwt_aux_8u, samples_kept};
use crate::separated_sort::law_separated_sort;
use crate::shares::{gathered_by, gathering_entry};
use crate::types::{
    is_separated, same_sizes, separated, workers_wf, Context, FastSint, PlaceState, SaSint, ThreadState, ALPHABET_SIZE,
    LIBSAIS_FLAGS_BWT, LIBSAIS_PER_THREAD_CACHE_SIZE, SAINT_MAX, SAINT_MIN,
};

verus! {

/// Sorts the LMS suffixes but the first by their first symbols, as [`radix_sorted_8u`] says.
fn radix_sort_8u(t: &[u8], sa: &mut [SaSint], n: SaSint, m: SaSint, gsa: bool, buckets: &mut [SaSint]) -> (ok: bool)
    requires
        1 <= m <= n,
    ensures
        ok == (radix_sorted_8u(t@, n as int, m as int, gsa, (old(sa)@, old(buckets)@)) is Some),
        ok ==> radix_sorted_8u(t@, n as int, m as int, gsa, (old(sa)@, old(buckets)@)) == Some((final(sa)@, final(buckets)@)),
        final(sa).len() == old(sa).len(),
        final(buckets).len() == old(buckets).len(),
{
    if buckets.len() < 1024 {
        return false;
    }
    if gsa {
        if buckets.len() == 1024 || buckets[1024] == SAINT_MIN {
            return false;
        }
        buckets[1024] = buckets[1024] - 1;
    }
    let (_head, ends) = buckets.split_at_mut(1024);
    try_radix_sort_lms_suffixes_8u(t, sa, ends, (n - m + 1) as FastSint, (m - 1) as FastSint)
}

/// The LMS suffixes of a byte text gathered and counted: the array, the buckets with their
/// bounds, and the number of LMS suffixes.
pub open spec fn gathered_8u(t: Seq<u8>, sa: Seq<i32>, n: int, len: nat) -> Option<(Seq<i32>, Seq<i32>, int)> {
    match count_and_gather_lms_suffixes_8u_run(text8(t), sa, n, len, 0, n) {
        Some(x) => match initialize_buckets_start_and_end_8u_run(x.1) {
            Some(y) => if 0 <= n - 1 - x.2 <= n / 2 {
                Some((x.0, y.0, n - 1 - x.2))
            } else {
                None
            },
            None => None,
        },
        None => None,
    }
}

/// Gathers and counts the LMS suffixes, as [`gathered_8u`] says. Returns their number.
fn gather_8u(t: &[u8], sa: &mut [SaSint], n: SaSint, buckets: &mut [SaSint]) -> (r: Option<SaSint>)
    requires
        n == t.len(),
        2 <= n,
    ensures
        r is Some == (gathered_8u(t@, old(sa)@, n as int, old(buckets).len() as nat) is Some),
        r matches Some(m) ==> gathered_8u(t@, old(sa)@, n as int, old(buckets).len() as nat)
            == Some((final(sa)@, final(buckets)@, m as int)) && 0 <= m <= n / 2,
        final(sa).len() == old(sa).len(),
        final(buckets).len() == old(buckets).len(),
{
    let m: SaSint = match try_count_and_gather_lms_suffixes_8u(t, sa, n, buckets, 0, n as FastSint) {
        Some(m) => m,
        None => return None,
    };
    match try_initialize_buckets_start_and_end_8u(buckets) {
        Some(_) => {},
        None => return None,
    }
    if m < 0 || m > n / 2 {
        return None;
    }
    Some(m)
}

/// The LMS substrings of a byte text named, where there are any: the array, the buckets and the
/// number of names.
pub open spec fn named_8u(t: Seq<u8>, n: int, m: int, gsa: bool, fs: int, s: PlaceState) -> Option<(Seq<i32>, Seq<i32>, int)> {
    let first = s.0[n - m] as int;
    match initialize_buckets_for_lms_suffixes_radix_sort_8u_run(text8(t), s.1, first) {
        Some(x) => match radix_sorted_8u(t, n, m, gsa, (s.0, x.0)) {
            Some(y) => match initialize_buckets_for_partial_sorting_8u_run(t, y.1, first, x.1 as int) {
                Some(p) => if 0 <= first < n && 0 <= x.1 < n {
                    match partial_order_8u(t, n, gsa, first, x.1 as int, (y.0, p.0)) {
                        Some(o) => match renumber_and_gather_run(o.0, n, m, fs) {
                            Some(r) => Some((r.0, o.1, r.1 as int)),
                            None => None,
                        },
                        None => None,
                    }
                } else {
                    None
                },
                None => None,
            },
            None => None,
        },
        None => None,
    }
}

/// Names the LMS substrings, as [`named_8u`] says. Returns the number of names.
fn name_8u(t: &[u8], sa: &mut [SaSint], n: SaSint, m: SaSint, gsa: bool, fs: SaSint, buckets: &mut [SaSint]) -> (r: Option<SaSint>)
    requires
        n == t.len(),
        1 <= m <= n <= old(sa).len(),
    ensures
        r is Some == (named_8u(t@, n as int, m as int, gsa, fs as int, (old(sa)@, old(buckets)@)) is Some),
        r matches Some(names) ==> named_8u(t@, n as int, m as int, gsa, fs as int, (old(sa)@, old(buckets)@))
            == Some((final(sa)@, final(buckets)@, names as int)),
        final(sa).len() == old(sa).len(),
        final(buckets).len() == old(buckets).len(),
{
    let first: SaSint = sa[(n - m) as usize];
    let left: SaSint = match try_initialize_buckets_for_lms_suffixes_radix_sort_8u(t, buckets, first) {
        Some(left) => left,
        None => return None,
    };
    if !radix_sort_8u(t, sa, n, m, gsa, buckets) || !try_initialize_buckets_for_partial_sorting_8u(t, buckets, first, left) {
        return None;
    }
    if first < 0 || first >= n || left < 0 || left >= n || !try_partial_order_8u(t, sa, n, gsa, buckets, first, left) {
        return None;
    }
    try_renumber_and_gather_lms_suffixes(sa, n, m, fs)
}

/// The LMS suffixes in place of their ranks, which the array starts with.
pub open spec fn restored_8u(t: Seq<u8>, n: int, m: int, sa: Seq<i32>) -> Option<Seq<i32>> {
    match gather_lms_suffixes_8u_run(text8(t), sa, n, (n - 1) as isize, 0, n) {
        Some(x) => if 0 <= x.2 < sa.len() {
            reconstruct_lms_suffixes_run(x.0.update(x.2 as int, 1), n, m, 0, m)
        } else {
            None
        },
        None => None,
    }
}

/// Whether sorting the `m` LMS suffixes of `s` by their names ends in `y`: the reduced text is
/// sorted where a name is shared, and the suffixes take its order.
pub open spec fn lms_ordered_8u(t: Seq<u8>, n: int, m: int, names: int, fs: int, s: Seq<i32>, ok: bool, y: Seq<i32>) -> bool {
    if names >= m {
        ok && y == s
    } else {
        exists|r: Seq<i32>| #[trigger] reduced_sorted(s, r, n, m, 0, fs) && computes(restored_8u(t, n, m, r), ok, y)
    }
}

/// Sorts the LMS suffixes by their names, as [`lms_ordered_8u`] says.
fn order_lms_8u(t: &[u8], sa: &mut [SaSint], n: SaSint, m: SaSint, names: SaSint, fs: SaSint) -> (ok: bool)
    requires
        n == t.len(),
        2 <= n,
        1 <= m <= n / 2,
        0 <= fs,
        n + fs <= i32::MAX,
        n + fs == old(sa).len(),
    ensures
        lms_ordered_8u(t@, n as int, m as int, names as int, fs as int, old(sa)@, ok, final(sa)@),
        final(sa).len() == old(sa).len(),
{
    if names >= m {
        return true;
    }
    let total: usize = sa.len();
    let mut reduced: Vec<SaSint> = copy_of(sa, total - m as usize, total);
    let mut nobody: Vec<ThreadState> = Vec::new();
    let _sorted: SaSint = libsais_main_32s_entry(
        reduced.as_mut_slice(), sa, m, names, fs + (n - m) - m, 1, nobody.as_mut_slice());
    let ghost r = sa@;
    proof {
        let s = old(sa)@;
        assert(s.subrange(total - m, total as int).subrange(0, m as int) =~= s.subrange(n + fs - (m - 0), n + fs));
        assert(reduced_sorted(s, r, n as int, m as int, 0, fs as int));
    }
    try_gather_lms_suffixes_8u(t, sa, n, n as FastSint - 1, 0, n as FastSint)
        && try_reconstruct_lms_suffixes(sa, n, m, 0, m as FastSint)
}

/// Whether the stages in front of the final scans over a byte text end in the array and the
/// buckets `s`: the LMS substrings are named, the LMS suffixes sorted by their names, and put
/// into their buckets.
pub open spec fn readied_8u(t: Seq<u8>, sa: Seq<i32>, n: i32, flags: i32, fs: int, len: nat, ok: bool, s: PlaceState) -> bool {
    match gathered_8u(t, sa, n as int, len) {
        Some(g) => if g.2 == 0 {
            ok && s == (cleared(g.0, 0, n as int), g.1)
        } else {
            match named_8u(t, n as int, g.2, separated(flags), fs, (g.0, g.1)) {
                Some(x) => exists|done: bool, y: Seq<i32>|
                    #[trigger] lms_ordered_8u(t, n as int, g.2, x.2, fs, x.0, done, y) && (if done {
                        match place_lms_suffixes_interval_8u_run(y, n as int, g.2, flags, x.1) {
                            Some(p) => ok && s == (p, x.1),
                            None => !ok,
                        }
                    } else {
                        !ok
                    }),
                None => !ok,
            }
        },
        None => !ok,
    }
}

/// Readies the array and the buckets for the final scans over a byte text, as [`readied_8u`]
/// says.
fn ready_8u(t: &[u8], sa: &mut [SaSint], n: SaSint, flags: SaSint, fs: SaSint, buckets: &mut [SaSint]) -> (ok: bool)
    requires
        n == t.len(),
        2 <= n,
        0 <= fs,
        n + fs <= i32::MAX,
        n + fs == old(sa).len(),
    ensures
        readied_8u(t@, old(sa)@, n, flags, fs as int, old(buckets).len() as nat, ok, (final(sa)@, final(buckets)@)),
        final(sa).len() == old(sa).len(),
        final(buckets).len() == old(buckets).len(),
{
    let gsa: bool = is_separated(flags);
    let m: SaSint = match gather_8u(t, sa, n, buckets) {
        Some(m) => m,
        None => return false,
    };
    if m == 0 {
        clear_range(sa, 0, n as usize);
        return true;
    }
    let ghost g = gathered_8u(t@, old(sa)@, n as int, old(buckets).len() as nat)->0;
    let names: SaSint = match name_8u(t, sa, n, m, gsa, fs, buckets) {
        Some(names) => names,
        None => return false,
    };
    let ghost x = named_8u(t@, n as int, g.2, separated(flags), fs as int, (g.0, g.1))->0;
    let done: bool = order_lms_8u(t, sa, n, m, names, fs);
    let ghost y = sa@;
    proof {
        assert(lms_ordered_8u(t@, n as int, g.2, x.2, fs as int, x.0, done, y));
    }
    if !done {
        return false;
    }
    try_place_lms_suffixes_interval_8u(sa, n, m, flags, buckets)
}

/// Whether induced sorting of the suffixes of a byte text ends in the array `r`: the array and
/// the buckets are readied, and the order of all suffixes is induced.
pub open spec fn induced_8u(t: Seq<u8>, sa: Seq<i32>, n: i32, flags: i32, fs: int, len: nat, ok: bool, r: Seq<i32>) -> bool {
    exists|ready: bool, s: PlaceState|
        #[trigger] readied_8u(t, sa, n, flags, fs, len, ready, s) && (if ready {
            match final_order_8u(t, n, separated(flags), 1, s) {
                Some(o) => ok && r == o.0,
                None => !ok,
            }
        } else {
            !ok
        })
}

/// Induces the order of the suffixes of a byte text, working in the `n + fs` slots, as
/// [`induced_8u`] says.
fn induce_8u(t: &[u8], sa: &mut [SaSint], n: SaSint, flags: SaSint, fs: SaSint, buckets: &mut [SaSint]) -> (ok: bool)
    requires
        n == t.len(),
        2 <= n,
        0 <= fs,
        n + fs <= i32::MAX,
        n + fs == old(sa).len(),
    ensures
        induced_8u(t@, old(sa)@, n, flags, fs as int, old(buckets).len() as nat, ok, final(sa)@),
        final(sa).len() == old(sa).len(),
        final(buckets).len() == old(buckets).len(),
{
    let gsa: bool = is_separated(flags);
    let ready: bool = ready_8u(t, sa, n, flags, fs, buckets);
    proof {
        assert(readied_8u(t@, old(sa)@, n, flags, fs as int, old(buckets).len() as nat, ready, (sa@, buckets@)));
    }
    ready && try_final_order_8u(t, sa, n, gsa, buckets)
}

/// The array of a text that is refused because it is none of separated texts: the LMS suffixes
/// have been gathered in the last of the slots that the text takes.
pub open spec fn refused_slots(t: Seq<u8>, sa: Seq<i32>) -> Seq<i32> {
    let n = t.len() as int;
    gathered_8u(t, sa.subrange(0, n), n, 2048).unwrap().0 + sa.subrange(n, sa.len() as int)
}

/// The array of a text that is refused because it is none of separated texts, where `k` workers
/// have gathered the LMS suffixes.
pub open spec fn refused_by(t: Seq<u8>, sa: Seq<i32>, k: int) -> Seq<i32> {
    let n = t.len() as int;
    if k > 1 {
        gathered_by(text8(t), sa.subrange(0, n), n, k) + sa.subrange(n, sa.len() as int)
    } else {
        refused_slots(t, sa)
    }
}

/// Whether the entries of `k` workers are `after` where they were `before` and the workers have
/// gathered the LMS suffixes of `t`.
pub open spec fn entries_noted(t: Seq<u8>, k: int, before: Seq<ThreadState>, after: Seq<ThreadState>) -> bool {
    let n = t.len() as int;
    if k > 1 {
        &&& after.len() == before.len()
        &&& forall|w: int| 0 <= w < k ==> gathering_entry(text8(t), n, k, w, before[w], #[trigger] after[w])
        &&& forall|w: int| k <= w < before.len() ==> #[trigger] after[w] == before[w]
    } else {
        after == before
    }
}

/// Whether the storage of every worker has the sizes that the passes rely on.
fn workers_fit(s: &[ThreadState]) -> (r: bool)
    ensures
        r == workers_wf(s@),
{
    let mut i: usize = 0;
    while i < s.len()
        invariant
            i <= s.len(),
            forall|j: int| 0 <= j < i ==> (#[trigger] s@[j]).wf(),
        decreases s.len() - i,
    {
        if s[i].buckets.len() != 4 * ALPHABET_SIZE || s[i].cache.len() != LIBSAIS_PER_THREAD_CACHE_SIZE {
            assert(!s@[i as int].wf());
            return false;
        }
        i += 1;
    }
    true
}

/// How many of the `spare` slots behind a text of length `n` are used where `fs` are offered.
fn free_slots(n: usize, spare: usize, fs: SaSint) -> (free: usize)
    requires
        n <= i32::MAX,
    ensures
        free <= spare,
        n + free <= i32::MAX,
        free <= (if fs > 0 { fs as int } else { 0 }),
{
    let limit: usize = SAINT_MAX as usize - n;
    let wanted: usize = if fs > 0 { fs as usize } else { 0 };
    let capped: usize = if wanted < limit { wanted } else { limit };
    if capped < spare {
        capped
    } else {
        spare
    }
}

/// Sorts the suffixes of a byte text by induced sorting, working in the first `n + fs` slots.
/// Where `flags` ask for it, the text is separated texts.
///
/// Returns `-1` where separated texts are asked for and the text is none. The workers have
/// gathered its LMS suffixes then.
pub fn libsais_main_8u(
    t: &[u8],
    sa: &mut [SaSint],
    buckets: &mut [SaSint],
    flags: SaSint,
    fs: SaSint,
    threads: SaSint,
    thread_state: &mut [ThreadState],
) -> (r: SaSint)
    requires
        2 <= t.len() <= i32::MAX,
        t.len() <= old(sa).len(),
        old(buckets).len() == 8 * ALPHABET_SIZE,
    ensures
        r == (if separated(flags) && !well_separated(t@) { -1int } else { 0 }),
        r == 0 ==> is_suffix_array(sorted_text(t@, separated(flags)), final(sa)@.subrange(0, t.len() as int)),
        ({
            let k = workers(threads as int, t.len() >= 65536, old(thread_state).len() as int);
            &&& r == -1 && (k == 1 || workers_wf(old(thread_state)@)) ==> final(sa)@ == refused_by(t@, old(sa)@, k)
                && entries_noted(t@, k, old(thread_state)@, final(thread_state)@)
            &&& k == 1 ==> final(thread_state)@ == old(thread_state)@
        }),
        r == -1 ==> final(buckets)@ == gathered_8u(t@, old(sa)@.subrange(0, t.len() as int), t.len() as int, 2048).unwrap().1,
        final(sa).len() == old(sa).len(),
        forall|i: int| t.len() + (if fs > 0 { fs as int } else { 0 }) <= i < old(sa).len()
            ==> final(sa)@[i] == old(sa)@[i],
        final(buckets).len() == old(buckets).len(),
        same_sizes(old(thread_state)@, final(thread_state)@),
{
    let gsa: bool = is_separated(flags);
    let n: SaSint = t.len() as SaSint;
    if gsa && !is_well_separated(t) {
        let (front, _behind) = sa.split_at_mut(t.len());
        proof {
            law_suffix_array_exists(text8(t@));
            let order = choose|order: Seq<i32>| is_suffix_array(text8(t@), order);
            lemma_byte_gathered(t@, order, front@, 2048);
        }
        let present: SaSint = if workers_fit(thread_state) { threads } else { 1 };
        let _gathered: SaSint = count_and_gather_lms_suffixes_8u_omp(t, front, n, buckets, present, thread_state);
        let _symbols: Option<SaSint> = try_initialize_buckets_start_and_end_8u(buckets);
        let ghost k = workers(present as int, n >= 65536, old(thread_state).len() as int);
        assert(sa@ =~= refused_by(t@, old(sa)@, k));
        return -1;
    }
    let free: usize = free_slots(t.len(), sa.len() - t.len(), fs);
    let (work, _rest) = sa.split_at_mut(t.len() + free);
    let ghost before = work@;
    let _sorted: bool = induce_8u(t, work, n, flags, free as SaSint, buckets);
    proof {
        if gsa {
            law_separated_sort(t@, before, flags, free as int, 2048, _sorted, work@);
        } else {
            law_bytes_sort(t@, before, flags, free as int, 2048, _sorted, work@);
        }
    }
    assert(sa@.subrange(0, t.len() as int) =~= work@.subrange(0, t.len() as int));
    0
}

/// Whether `a` starts with the bytes in front of the sorted suffixes of `t`, whose suffix array
/// is `order`.
pub open spec fn fronts(t: Seq<u8>, order: Seq<i32>, a: Seq<i32>) -> bool {
    &&& is_suffix_array(text8(t), order)
    &&& t.len() <= a.len()
    &&& forall|j: int| 0 <= j < t.len() ==> #[trigger] a[j] == front_byte(t, order[j] as int)
}

/// Transforms a byte text by induced sorting, working in the first `n + fs` slots: the byte in
/// front of each suffix is left in its slot. Where `samples` are given, one more than the rank
/// of every `r`-th suffix is noted there, and the result is `0`; elsewhere it is the rank of the
/// whole text.
pub fn transform_8u(
    t: &[u8],
    sa: &mut [SaSint],
    buckets: &mut [SaSint],
    r: SaSint,
    samples: Option<&mut [SaSint]>,
    fs: SaSint,
) -> (index: SaSint)
    requires
        2 <= t.len() <= i32::MAX,
        t.len() <= old(sa).len(),
        old(buckets).len() == 8 * ALPHABET_SIZE,
        samples matches Some(o) ==> valid_rate(r) && sample_count(t.len() as int, r as int) <= o.len(),
    ensures
        exists|order: Seq<i32>| #[trigger] fronts(t@, order, final(sa)@) && match samples {
            Some(o) => index == 0 && samples_from(order, t.len() as int, r as int, final(o)@)
                && samples_kept(t.len() as int, (r - 1) as i32, o@, final(o)@),
            None => 0 <= index < t.len() && order[index as int] == 0,
        },
        final(sa).len() == old(sa).len(),
        forall|i: int| t.len() + (if fs > 0 { fs as int } else { 0 }) <= i < old(sa).len()
            ==> final(sa)@[i] == old(sa)@[i],
        final(buckets).len() == old(buckets).len(),
{
    let n: SaSint = t.len() as SaSint;
    let free: usize = free_slots(t.len(), sa.len() - t.len(), fs);
    let (work, _rest) = sa.split_at_mut(t.len() + free);
    let ghost before = work@;
    let _ready: bool = ready_8u(t, work, n, LIBSAIS_FLAGS_BWT, free as SaSint, buckets);
    let ghost order = choose|order: Seq<i32>| is_suffix_array(text8(t@), order);
    proof {
        assert(1i32 & 2i32 == 0 && 1i32 & 1i32 != 0) by (bit_vector);
        law_suffix_array_exists(text8(t@));
        law_bytes_readied(t@, order, before, LIBSAIS_FLAGS_BWT, free as int, 2048, _ready, (work@, buckets@));
        if samples is Some {
            law_final_bwt_aux_8u(t@, order, work@, buckets@, r, samples->0@, 1);
            law_final_bwt_aux_8u_alone(t@, n, 256, (r - 1) as i32, (work@, buckets@, samples->0@, Seq::empty()));
        } else {
            law_final_bwt_8u(t@, order, work@, buckets@, 1);
            law_final_bwt_8u_alone(t@, n, 256, (work@, buckets@, Seq::empty()));
        }
    }
    let mut nobody: Vec<ThreadState> = Vec::new();
    assert(desks(nobody@) =~= Seq::empty());
    let index: SaSint = induce_final_order_8u_omp(
        t, work, n, 256, LIBSAIS_FLAGS_BWT, r, samples, buckets, 1, nobody.as_mut_slice());
    assert(fronts(t@, order, work@));
    assert(fronts(t@, order, sa@));
    index
}

/// Sorts the suffixes of a byte text with buckets and working storage of its own, as
/// [`libsais_main_8u`] does.
pub fn libsais_main(t: &[u8], sa: &mut [SaSint], flags: SaSint, fs: SaSint, threads: SaSint) -> (r: SaSint)
    requires
        2 <= t.len() <= i32::MAX,
        t.len() <= old(sa).len(),
    ensures
        r == (if separated(flags) && !well_separated(t@) { -1int } else { 0 }),
        r == 0 ==> is_suffix_array(sorted_text(t@, separated(flags)), final(sa)@.subrange(0, t.len() as int)),
        r == -1 ==> final(sa)@ == refused_by(t@, old(sa)@, workers(threads as int, t.len() >= 65536, threads as int)),
        final(sa).len() == old(sa).len(),
        forall|i: int| t.len() + (if fs > 0 { fs as int } else { 0 }) <= i < old(sa).len()
            ==> final(sa)@[i] == old(sa)@[i],
{
    let mut buckets: Vec<SaSint> = vec![0; 8 * ALPHABET_SIZE];
    let mut thread_state: Vec<ThreadState> = Vec::new();
    if is_separated(flags) && threads > 1 && t.len() >= 65536 {
        if let Some(all) = alloc_thread_state(threads) {
            thread_state = all;
        }
    }
    libsais_main_8u(t, sa, buckets.as_mut_slice(), flags, fs, threads, thread_state.as_mut_slice())
}

/// Sorts the suffixes of an integer text over the symbols below `k`. The text is left as it
/// was.
pub fn libsais_main_int(t: &mut [SaSint], sa: &mut [SaSint], k: SaSint, fs: SaSint) -> (r: SaSint)
    requires
        old(t).len() <= i32::MAX,
        old(t).len() <= old(sa).len(),
    ensures
        r == 0,
        final(t)@ == old(t)@,
        is_suffix_array(text32(old(t)@), final(sa)@.subrange(0, old(t).len() as int)),
        final(sa).len() == old(sa).len(),
        forall|i: int| old(t).len() + (if fs > 0 { fs as int } else { 0 }) <= i < old(sa).len()
            ==> final(sa)@[i] == old(sa)@[i],
{
    let n: SaSint = t.len() as SaSint;
    let spare: usize = sa.len() - t.len();
    let wanted: usize = if fs > 0 { fs as usize } else { 0 };
    let free: usize = if wanted < spare { wanted } else { spare };
    let mut nobody: Vec<ThreadState> = Vec::new();
    let r: SaSint = libsais_main_32s_entry(t, sa, n, k, free as SaSint, 1, nobody.as_mut_slice());
    assert(old(t)@.subrange(0, n as int) =~= old(t)@);
    r
}

/// Whether the array is `slots`, and the context is `after`, where they were `sa` and `before`
/// and the text is refused because it is none of separated texts.
pub open spec fn refused_in(t: Seq<u8>, sa: Seq<i32>, slots: Seq<i32>, before: &Context, after: &Context) -> bool {
    let n = t.len() as int;
    &&& slots == refused_by(t, sa, before.sharing(n))
    &&& entries_noted(t, before.sharing(n), before.storage(), after.storage())
    &&& after.buckets@ == gathered_8u(t, sa.subrange(0, n), n, 2048).unwrap().1
}

/// Sorts the suffixes of a byte text in the buckets of `ctx`, as [`libsais_main_8u`] does.
///
/// Returns `-2` where the context has no buckets of the right size.
pub fn libsais_main_ctx(ctx: &mut Context, t: &[u8], sa: &mut [SaSint], flags: SaSint, fs: SaSint) -> (r: SaSint)
    requires
        old(ctx).has_buckets() ==> 2 <= t.len() <= i32::MAX && t.len() <= old(sa).len(),
    ensures
        r == (if !old(ctx).has_buckets() {
            -2int
        } else if separated(flags) && !well_separated(t@) {
            -1
        } else {
            0
        }),
        r == 0 ==> is_suffix_array(sorted_text(t@, separated(flags)), final(sa)@.subrange(0, t.len() as int)),
        r == -1 && old(ctx).can_share(t.len() as int) ==> refused_in(t@, old(sa)@, final(sa)@, old(ctx), final(ctx)),
        r == -2 ==> final(sa)@ == old(sa)@ && *final(ctx) == *old(ctx),
        final(sa).len() == old(sa).len(),
        forall|i: int| t.len() + (if fs > 0 { fs as int } else { 0 }) <= i < old(sa).len()
            ==> final(sa)@[i] == old(sa)@[i],
        old(ctx).same_shape(final(ctx), t.len() as int),
{
    if ctx.buckets.len() != 8 * ALPHABET_SIZE {
        return -2;
    }
    let threads: SaSint = #[verifier::truncate] (ctx.threads as SaSint);
    if threads > 1 && t.len() >= 65536 {
        if let Some(thread_state) = &mut ctx.thread_state {
            return libsais_main_8u(
                t, sa, ctx.buckets.as_mut_slice(), flags, fs, threads, thread_state.as_mut_slice());
        }
    }
    let mut nobody: Vec<ThreadState> = Vec::new();
    libsais_main_8u(t, sa, ctx.buckets.as_mut_slice(), flags, fs, threads, nobody.as_mut_slice())
}

} // verus!
