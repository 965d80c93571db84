//! Induced sorting of byte texts: from the gathered leftmost suffixes of type S to the order of
//! all suffixes.

use vstd::prelude::*;
use crate::bounds::{counted, law_bounds_of_bytes};
use crate::buckets::{
    initialize_buckets_for_lms_suffixes_radix_sort_8u_run, initialize_buckets_for_partial_sorting_8u_run,
};
use crate::byte_lanes::{all_left, later_count, lemma_partial_buckets, lemma_radix_buckets};
use crate::byte_scans::{byte_ready, lemma_byte_scans};
use crate::fold::lemma_fold_down_same;
use crate::gather::{
    cleared, count_and_gather_lms_suffixes_8u_mode, count_and_gather_lms_suffixes_8u_run,
    gather_lms_suffixes_32s_run, lms_slot, run_type, text8, zeros,
};
use crate::induction::{bucket_ends, bucket_starts, lms_in_place};
use crate::induction_8u::{law_final_order_8u, lemma_wide, prepared_8u, wide};
use crate::kinds::{is_lms, law_last_type, lemma_run_type, slot_count};
use crate::lane_left::mark_count;
use crate::lane_names::{lane_name, lemma_lane_renumbered, lemma_low_marks, marks_names};
use crate::lane_restoring::lemma_lane_restored;
use crate::lane_right::low_start;
use crate::lanes::{start, width};
use crate::laws::law_suffix_array_exists;
use crate::lengths::{gathers, law_lms_few, lemma_gathered_all, lists_all};
use crate::listing::{
    all_later, even, lemma_below_bound, lemma_below_grows, lemma_radix_segments, segmented,
};
use crate::main_32s::{computes, reduced_sorted};
use crate::main_8u::{gathered_8u, induced_8u, lms_ordered_8u, named_8u, readied_8u, restored_8u};
use crate::order::is_suffix_array;
use crate::ordering::lemma_sorted_grouped;
use crate::orders::{final_order_8u, partial_order_8u, radix_sorted_8u};
use crate::partial_induction::{first_lms, lms_count};
use crate::place::{mode_8u, place_lms_suffixes_interval_8u_run, placed};
use crate::placement::{lemma_found, lms_sorted};
use crate::radix::{
    radix_sort_lms_suffixes_32s_2k_run, radix_sort_lms_suffixes_32s_2k_step, radix_sort_lms_suffixes_8u_run,
    radix_sort_lms_suffixes_8u_step,
};
use crate::recount::{below_of, every_lms, has_slots, lemma_counting_first, uncounted};
use crate::renumber::renumber_and_gather_run;
use crate::separated_order::byte_bounds;
use crate::segments::{left_tops, lemma_laid_field, lemma_left_radix};
use crate::spreading::{holds_end, law_spread, lemma_spread_in_place, spreadable, tabled};
use crate::types::{separated, PlaceState};

verus! {

/// What gathering and counting leaves: the leftmost suffixes of type S at the end of the array,
/// and the counters of all suffixes.
pub open spec fn byte_gathered(t: Seq<u8>, m: int, g: PlaceState) -> bool {
    let n = t.len() as int;
    &&& 2 <= n <= i32::MAX
    &&& n <= g.0.len() <= isize::MAX
    &&& 2048 <= g.1.len()
    &&& m == lms_count(text8(t), 0)
    &&& lists_all(text8(t), g.0, m)
    &&& forall|slot: int| 0 <= slot < 1024 ==> #[trigger] g.1[slot] == slot_count(
        text8(t),
        count_and_gather_lms_suffixes_8u_mode(),
        slot,
        0,
        n,
    )
}

/// Gathering and counting the suffixes of a byte text.
#[verifier::spinoff_prover]
pub proof fn lemma_byte_gathered(t: Seq<u8>, order: Seq<i32>, sa: Seq<i32>, len: nat)
    requires
        2 <= t.len() <= i32::MAX,
        t.len() <= sa.len() <= isize::MAX,
        2048 <= len,
        is_suffix_array(text8(t), order),
    ensures
        ({
            let g = gathered_8u(t, sa, t.len() as int, len);
            &&& g is Some
            &&& byte_gathered(t, g.unwrap().2, (g.unwrap().0, g.unwrap().1))
            &&& g.unwrap().0.len() == sa.len()
            &&& g.unwrap().1.len() == len
            &&& bucket_starts(wide(t), order, 256, g.unwrap().1.subrange(1536, 1792))
            &&& bucket_ends(wide(t), order, 256, g.unwrap().1.subrange(1792, 2048))
            &&& byte_bounds(t, g.unwrap().1)
        }),
{
    let x = text8(t);
    let n = t.len() as int;
    let m = lms_count(x, 0);
    let mode = count_and_gather_lms_suffixes_8u_mode();
    law_lms_few(x);
    law_last_type(x);
    lemma_wide(t);
    lemma_gathered_all(x, sa);
    lemma_run_type(x, n - 1);
    assert(run_type(x, n, n - 1));
    assert(has_slots(x, mode, len as int)) by {
        assert forall|i: int, f: bool, g: bool| 0 <= i < x.len() implies 0 <= #[trigger] lms_slot(x[i], f, g, mode) < len by {
            assert(x[i] == t[i]);
        }
    }
    assert(uncounted(mode) == crate::gather::gather_lms_suffixes_32s_mode());
    lemma_counting_first(x, mode, (sa, zeros(len), (n - 1) as isize, run_type(x, n, n - 1)), n - 1);
    let z = gather_lms_suffixes_32s_run(x, sa, n)->0;
    let c = count_and_gather_lms_suffixes_8u_run(x, sa, n, len, 0, n)->0;
    assert(c.0 == z.0.update(z.2 as int, 0));
    assert(lists_all(x, c.0, m)) by {
        let sel = gathers(x, false);
        assert forall|p: int| 0 <= p < n && #[trigger] sel(p) implies crate::placement::among(c.0, n - m, n, p as i32) by {
            let j = lemma_found(z.0, n - m, n, p as i32);
            assert(c.0[j] == z.0[j]);
            crate::placement::lemma_among(c.0, n - m, n, j);
        }
    }
    assert(counted(wide(t), mode, 256, c.1)) by {
        assert forall|slot: int| 0 <= slot < mode.lanes * 256 implies #[trigger] c.1[slot] == slot_count(x, mode, slot, 0, n) by {}
    }
    law_bounds_of_bytes(t, order, mode, c.1);
}

/// Sorting the suffixes of a byte text by first symbols is sorting those of the wide text.
proof fn lemma_radix_same(t: Seq<u8>, s: PlaceState, lo: int, size: int)
    ensures
        radix_sort_lms_suffixes_8u_run(t, s, lo, size) == radix_sort_lms_suffixes_32s_2k_run(wide(t), s, lo, size),
{
    let f = radix_sort_lms_suffixes_8u_step(t);
    let g = radix_sort_lms_suffixes_32s_2k_step(wide(t));
    lemma_wide(t);
    assert forall|st: PlaceState, i: int| lo <= i < lo + size implies #[trigger] f(st, i) == g(st, i) by {
        let p = st.0[i] as int;
        if 0 <= p < t.len() {
            assert(wide(t)[p] == t[p]);
        }
    }
    lemma_fold_down_same(f, g, s, lo, lo + size);
}

/// The leftmost suffixes of type S sorted by first symbols into the slots that the scan to the
/// right visits.
#[verifier::spinoff_prover]
proof fn lemma_byte_radix(t: Seq<u8>, m: int, s: PlaceState)
    requires
        byte_gathered(t, m, s),
        1 <= m,
    ensures
        ({
            let n = t.len() as int;
            let x = text8(t);
            let f = s.0[n - m] as int;
            let a = initialize_buckets_for_lms_suffixes_radix_sort_8u_run(x, s.1, f);
            let z = radix_sorted_8u(t, n, m, false, (s.0, a.unwrap().0));
            let below = below_of(x, all_left(x, f));
            &&& first_lms(x, f)
            &&& a is Some
            &&& a.unwrap().1 == below(256)
            &&& z is Some
            &&& z.unwrap().0.len() == s.0.len()
            &&& z.unwrap().1.len() == s.1.len()
            &&& segmented(wide(t), all_later(x, f), 256, left_tops(x, f), z.unwrap().0)
            &&& forall|c: int| 0 <= c < 256 ==> z.unwrap().1[#[trigger] (1024 + 2 * c + 1)] == below(c)
            &&& forall|slot: int| 0 <= slot < 1024 ==> #[trigger] z.unwrap().1[slot] == later_count(
                x,
                f,
                count_and_gather_lms_suffixes_8u_mode(),
                slot,
            )
            &&& forall|j: int| 1536 <= j < s.1.len() ==> #[trigger] z.unwrap().1[j] == s.1[j]
        }),
{
    let n = t.len() as int;
    let x = text8(t);
    let w = wide(t);
    let mode = count_and_gather_lms_suffixes_8u_mode();
    lemma_wide(t);
    law_lms_few(x);
    crate::two_buckets::lemma_first_gathered(x, s.0, m);
    let f = s.0[n - m] as int;
    assert(is_lms(x, f));
    let later = all_later(x, f);
    let below = below_of(x, all_left(x, f));
    let top = left_tops(x, f);
    lemma_radix_buckets(t, f, mode, s.1);
    let a = initialize_buckets_for_lms_suffixes_radix_sort_8u_run(x, s.1, f)->0;
    let b = a.0;
    let tail = b.subrange(1024, b.len() as int);
    assert forall|c: int| 0 <= c < 256 implies #[trigger] even(tail, c) == top(c) by {
        assert(b[1024 + 2 * c] == below(c + 1));
    }
    lemma_left_radix(w, 256, f, m, s.0, tail);
    lemma_radix_segments(w, later, s.0, tail, 256, n - m + 1, top);
    lemma_radix_same(t, (s.0, tail), n - m + 1, m - 1);
    let st = radix_sort_lms_suffixes_32s_2k_run(w, (s.0, tail), n - m + 1, m - 1)->0;
    let z = (st.0, b.subrange(0, 1024) + st.1);
    assert(radix_sorted_8u(t, n, m, false, (s.0, b)) == Some(z));
    assert forall|c: int| 0 <= c < 256 implies z.1[#[trigger] (1024 + 2 * c + 1)] == below(c) by {
        assert((2 * c + 1) % 2 == 1);
        assert(st.1[2 * c + 1] == tail[2 * c + 1]);
        assert(b[1024 + 2 * c + 1] == below(c));
    }
    assert forall|slot: int| 0 <= slot < 1024 implies #[trigger] z.1[slot] == later_count(x, f, mode, slot) by {
        assert(b[slot] == later_count(x, f, mode, slot));
    }
    assert forall|j: int| 1536 <= j < s.1.len() implies #[trigger] z.1[j] == s.1[j] by {
        assert(st.1[j - 1024] == tail[j - 1024]);
        assert(b[j] == s.1[j]);
    }
}

/// What naming leaves of the substrings that `w` lists, marked in `marks` where the next differs.
pub open spec fn byte_named(t: Seq<u8>, m: int, fs: int, w: Seq<i32>, marks: Seq<i32>, s: Seq<i32>, names: int) -> bool {
    let n = t.len() as int;
    let x = text8(t);
    &&& marks_names(wide(t), w, m, marks)
    &&& names == mark_count(marks, m)
    &&& names < m ==> forall|p: int| #[trigger] is_lms(x, p) ==> s[n + fs - lms_count(x, p)] == lane_name(w, m, marks, p)
    &&& names >= m ==> lms_sorted(wide(t), s, m)
}

/// Naming the substrings of a byte text.
#[verifier::spinoff_prover]
proof fn lemma_byte_named(t: Seq<u8>, m: int, fs: int, s: PlaceState) -> (r: (Seq<i32>, Seq<i32>))
    requires
        byte_gathered(t, m, s),
        1 <= m,
        0 <= fs,
        t.len() + fs <= s.0.len(),
    ensures
        ({
            let v = named_8u(t, t.len() as int, m, false, fs, s);
            &&& v is Some
            &&& v.unwrap().0.len() == s.0.len()
            &&& v.unwrap().1.len() == s.1.len()
            &&& byte_named(t, m, fs, r.0, r.1, v.unwrap().0, v.unwrap().2)
            &&& forall|c: int| 0 <= c < 256 ==> v.unwrap().1[#[trigger] (2 * c + 1)] == below_of(text8(t), every_lms(text8(t)))(c)
            &&& forall|j: int| 1536 <= j < s.1.len() ==> #[trigger] v.unwrap().1[j] == s.1[j]
        }),
{
    let n = t.len() as int;
    let x = text8(t);
    let mode = count_and_gather_lms_suffixes_8u_mode();
    lemma_wide(t);
    lemma_byte_radix(t, m, s);
    let f = s.0[n - m] as int;
    let a = initialize_buckets_for_lms_suffixes_radix_sort_8u_run(x, s.1, f)->0;
    let z = radix_sorted_8u(t, n, m, false, (s.0, a.0))->0;
    assert(is_lms(x, f));
    let (g, low) = lemma_laid_field(wide(t), 256, f, z.0, false);
    lemma_partial_buckets(t, f, mode, z.1, a.1 as int);
    let p = initialize_buckets_for_partial_sorting_8u_run(t, z.1, f, a.1 as int).unwrap().0;
    assert(byte_ready(t, g, low, z.0, p)) by {
        assert forall|c: int| 0 <= c < 256 implies p[#[trigger] (1024 + 2 * c)] == start(g, c, false) by {}
        assert forall|c: int| 0 <= c < 256 implies p[#[trigger] (1024 + 2 * c + 1)] == start(g, c, true) by {
            assert(z.1[1024 + 2 * c + 1] == below_of(x, all_left(x, f))(c));
        }
        assert forall|c: int| 0 <= c < 256 implies p[#[trigger] (2 * c)] == start(g, c + 1, false) by {}
        assert forall|c: int| 0 <= c < 256 implies p[#[trigger] (2 * c + 1)] == low_start(g, low, c + 1) by {}
    }
    lemma_byte_scans(t, g, low, z.0, p);
    let o = partial_order_8u(t, n, false, f, width(g), (z.0, p))->0;
    lemma_low_marks(wide(t), g, low, o.0);
    lemma_lane_renumbered(wide(t), low, m, o.0, fs);
    let v = renumber_and_gather_run(o.0, n, m, fs)->0;
    assert(named_8u(t, n, m, false, fs, s) == Some((v.0, o.1, v.1 as int)));
    assert forall|c: int| 0 <= c < 256 implies o.1[#[trigger] (2 * c + 1)] == below_of(x, every_lms(x))(c) by {
        assert(low_start(g, low, c) == below_of(x, every_lms(x))(c));
    }
    assert forall|j: int| 1536 <= j < s.1.len() implies #[trigger] o.1[j] == s.1[j] by {
        assert(p[j] == z.1[j]);
        assert(z.1[j] == s.1[j]);
    }
    (low, o.0)
}

/// The sorted leftmost suffixes of type S of a byte text are put into their buckets.
#[verifier::spinoff_prover]
proof fn lemma_byte_placed(t: Seq<u8>, order: Seq<i32>, m: int, flags: i32, s: PlaceState)
    requires
        2 <= t.len() <= i32::MAX,
        t.len() <= s.0.len(),
        2048 <= s.1.len(),
        0 <= m <= t.len(),
        !separated(flags),
        is_suffix_array(text8(t), order),
        lms_sorted(wide(t), s.0, m),
        bucket_starts(wide(t), order, 256, s.1.subrange(1536, 1792)),
        bucket_ends(wide(t), order, 256, s.1.subrange(1792, 2048)),
        forall|c: int| 0 <= c < 256 ==> s.1[#[trigger] (2 * c + 1)] == below_of(text8(t), every_lms(text8(t)))(c),
    ensures
        place_lms_suffixes_interval_8u_run(s.0, t.len() as int, m, flags, s.1) is Some,
        prepared_8u(t, order, place_lms_suffixes_interval_8u_run(s.0, t.len() as int, m, flags, s.1)->0, s.1),
{
    let x = text8(t);
    let w = wide(t);
    let n = t.len() as int;
    let b = s.1;
    let below = below_of(x, every_lms(x));
    let ends = b.subrange(1792, 2048);
    lemma_wide(t);
    lemma_sorted_grouped(w, s.0, m, 256);
    assert forall|p: int| 0 <= p < x.len() implies 0 <= #[trigger] x[p] by {
        assert(x[p] == t[p]);
    }
    assert forall|c: int| #![trigger below(c)] 0 <= c < 255 implies crate::place::lms_count(mode_8u(), b, c) == Some(below(c + 1) - below(c)) by {
        lemma_below_grows(x, every_lms(x), c, c + 1);
        lemma_below_bound(x, every_lms(x), c);
        lemma_below_bound(x, every_lms(x), c + 1);
        assert(b[2 * c + 1] == below(c));
        assert(b[2 * (c + 1) + 1] == below(c + 1));
    }
    assert forall|c: int| #![trigger ends[c]] 0 <= c < 255 implies holds_end(mode_8u(), b, c, ends[c]) by {}
    assert(spreadable(w, order, s.0, m, 256, ends, below));
    assert(tabled(mode_8u(), b, 256, ends, below));
    law_spread(w, order, s.0, m, 256, ends, below, mode_8u(), b);
    let p = placed(mode_8u(), b, s.0, n, m, 255)->0;
    lemma_spread_in_place(w, order, s.0, m, p);
    assert(prepared_8u(t, order, p, b));
}

/// Sorting by names sorts the leftmost suffixes of type S.
#[verifier::spinoff_prover]
proof fn lemma_byte_names_sort(
    t: Seq<u8>,
    m: int,
    fs: int,
    w: Seq<i32>,
    marks: Seq<i32>,
    s: Seq<i32>,
    names: int,
    done: bool,
    y: Seq<i32>,
)
    requires
        2 <= t.len() <= i32::MAX,
        1 <= m == lms_count(text8(t), 0),
        0 <= fs,
        t.len() + fs <= s.len() <= isize::MAX,
        byte_named(t, m, fs, w, marks, s, names),
        lms_ordered_8u(t, t.len() as int, m, names, fs, s, done, y),
    ensures
        done,
        y.len() == s.len(),
        lms_sorted(wide(t), y, m),
{
    let n = t.len() as int;
    if names < m {
        let r = choose|r: Seq<i32>| #[trigger] reduced_sorted(s, r, n, m, 0, fs) && computes(restored_8u(t, n, m, r), done, y);
        lemma_lane_restored(t, w, m, marks, fs, s, r);
    }
}

/// Without leftmost suffixes of type S an empty array holds them all.
proof fn lemma_byte_bare(t: Seq<u8>, order: Seq<i32>, g: PlaceState)
    requires
        byte_gathered(t, 0, g),
        is_suffix_array(text8(t), order),
        bucket_starts(wide(t), order, 256, g.1.subrange(1536, 1792)),
        bucket_ends(wide(t), order, 256, g.1.subrange(1792, 2048)),
    ensures
        prepared_8u(t, order, cleared(g.0, 0, t.len() as int), g.1),
{
    let x = text8(t);
    let n = t.len() as int;
    let s = cleared(g.0, 0, n);
    lemma_wide(t);
    assert(lms_in_place(wide(t), order, s)) by {
        let sel = gathers(x, false);
        assert forall|p: int| #[trigger] is_lms(x, p) implies exists|j: int| 0 <= j < n && #[trigger] s[j] == p by {
            assert(sel(p));
            let j = lemma_found(g.0, n, n, p as i32);
        }
    }
}

/// The stages in front of the final scans over a byte text succeed, and put its leftmost suffixes
/// of type S into their buckets in order: whatever order the sorting of the reduced text finds.
pub proof fn law_bytes_readied(
    t: Seq<u8>,
    order: Seq<i32>,
    sa: Seq<i32>,
    flags: i32,
    fs: int,
    len: nat,
    ok: bool,
    s: PlaceState,
)
    requires
        2 <= t.len(),
        0 <= fs,
        t.len() + fs <= i32::MAX,
        t.len() + fs <= sa.len() <= isize::MAX,
        2048 <= len,
        !separated(flags),
        is_suffix_array(text8(t), order),
        readied_8u(t, sa, t.len() as i32, flags, fs, len, ok, s),
    ensures
        ok,
        prepared_8u(t, order, s.0, s.1),
{
    let n = t.len() as int;
    let x = text8(t);
    lemma_wide(t);
    law_lms_few(x);
    lemma_byte_gathered(t, order, sa, len);
    let g = gathered_8u(t, sa, n, len)->0;
    let m = g.2;
    if m == 0 {
        lemma_byte_bare(t, order, (g.0, g.1));
    } else {
        let (w, marks) = lemma_byte_named(t, m, fs, (g.0, g.1));
        let v = named_8u(t, n, m, false, fs, (g.0, g.1))->0;
        let (done, y) = choose|done: bool, y: Seq<i32>|
            #[trigger] lms_ordered_8u(t, n, m, v.2, fs, v.0, done, y) && (if done {
                match place_lms_suffixes_interval_8u_run(y, n, m, flags, v.1) {
                    Some(p) => ok && s == (p, v.1),
                    None => !ok,
                }
            } else {
                !ok
            });
        lemma_byte_names_sort(t, m, fs, w, marks, v.0, v.2, done, y);
        assert(v.1.subrange(1536, 1792) =~= g.1.subrange(1536, 1792));
        assert(v.1.subrange(1792, 2048) =~= g.1.subrange(1792, 2048));
        lemma_byte_placed(t, order, m, flags, (y, v.1));
    }
}

/// Induced sorting of a byte text sorts its suffixes: whatever order the sorting of the reduced
/// text finds, it ends in the suffix array.
pub proof fn law_bytes_sort(t: Seq<u8>, sa: Seq<i32>, flags: i32, fs: int, len: nat, ok: bool, r: Seq<i32>)
    requires
        2 <= t.len(),
        0 <= fs,
        t.len() + fs <= i32::MAX,
        t.len() + fs <= sa.len() <= isize::MAX,
        2048 <= len,
        !separated(flags),
        induced_8u(t, sa, t.len() as i32, flags, fs, len, ok, r),
    ensures
        ok,
        is_suffix_array(text8(t), r.subrange(0, t.len() as int)),
{
    let n = t.len() as int;
    law_suffix_array_exists(text8(t));
    let order = choose|a: Seq<i32>| is_suffix_array(text8(t), a);
    let (ready, s) = choose|ready: bool, s: PlaceState|
        #[trigger] readied_8u(t, sa, n as i32, flags, fs, len, ready, s) && (if ready {
            match final_order_8u(t, n as i32, separated(flags), 1, s) {
                Some(o) => ok && r == o.0,
                None => !ok,
            }
        } else {
            !ok
        });
    law_bytes_readied(t, order, sa, flags, fs, len, ready, s);
    law_final_order_8u(t, order, s.0, s.1, 1);
}

} // verus!
