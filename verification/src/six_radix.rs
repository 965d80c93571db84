//! The sorting by first symbols with six buckets for each symbol.

use vstd::prelude::*;
use crate::bounds::counted;
use crate::buckets::initialize_buckets_for_lms_suffixes_radix_sort_32s_6k_run;
use crate::byte_lanes::{all_left, later_count};
use crate::gather::{
    cleared, count_and_gather_lms_suffixes_32s_4k_mode, count_and_gather_lms_suffixes_32s_4k_run, gather_lms_suffixes_32s_run,
    lms_slot, run_type, text32, zeros,
};
use crate::induction::symbols_below;
use crate::kinds::{is_l, is_lms, law_last_type, law_type_step};
use crate::lane_left::opens;
use crate::lanes::{at, fielded, lemma_area_order, lemma_at, start, width, Field};
use crate::lengths::{gathers, law_lms_few, lemma_gathered_all, lists_all};
use crate::listing::{all_later, even, lemma_below_bound, lemma_below_grows, lemma_radix_segments, segmented, size_of_symbol};
use crate::main_32s::radix_sorted_6k;
use crate::marks::marked;
use crate::partial_induction::{first_lms, lms_count};
use crate::placement::{among, lemma_among, lemma_found};
use crate::radix::{
    radix_sort_lms_suffixes_32s_2k_run, radix_sort_lms_suffixes_32s_2k_step, radix_sort_lms_suffixes_32s_6k_run,
    radix_sort_lms_suffixes_32s_6k_step, radix_sort_set_markers_32s_6k_slot_run, radix_sort_set_markers_32s_6k_slot_step,
};
use crate::recount::{below_of, has_slots, lemma_counting_first, uncounted};
use crate::segments::{left_tops, lemma_left_radix, lemma_left_size, lemma_lms_border};
use crate::two_buckets::lemma_first_gathered;
use crate::types::PlaceState;

verus! {

/// What gathering and counting leaves: the leftmost suffixes of type S at the end of the array,
/// and the counters of all suffixes.
pub open spec fn six_gathered(t: Seq<i32>, k: int, m: int, g: PlaceState) -> bool {
    let n = t.len() as int;
    &&& 2 <= n <= i32::MAX
    &&& n <= g.0.len() <= isize::MAX
    &&& symbols_below(t, k)
    &&& 1 <= k
    &&& 6 * k <= g.1.len()
    &&& m == lms_count(text32(t), 0)
    &&& lists_all(text32(t), g.0, m)
    &&& counted(t, count_and_gather_lms_suffixes_32s_4k_mode(), k, g.1)
}

/// Counting with four counters for each symbol while all are gathered.
pub proof fn lemma_six_gathered(t: Seq<i32>, s: Seq<i32>, k: int, len: nat)
    requires
        2 <= t.len() <= i32::MAX,
        symbols_below(t, k),
        1 <= k,
        t.len() <= s.len() <= isize::MAX,
        6 * k <= len,
    ensures
        ({
            let n = t.len() as int;
            let m = lms_count(text32(t), 0);
            let g = count_and_gather_lms_suffixes_32s_4k_run(text32(t), s, n, len, 0, n);
            &&& g is Some
            &&& g.unwrap().2 == n - 1 - m
            &&& g.unwrap().0.len() == s.len()
            &&& g.unwrap().1.len() == len
            &&& six_gathered(t, k, m, (g.unwrap().0, g.unwrap().1))
        }),
{
    let x = text32(t);
    let n = t.len() as int;
    let m = lms_count(x, 0);
    let mode = count_and_gather_lms_suffixes_32s_4k_mode();
    law_lms_few(x);
    law_last_type(x);
    lemma_gathered_all(x, s);
    assert(0 <= t[n - 1] && 0 <= t[0]);
    assert(run_type(x, n, n - 1));
    assert(has_slots(x, mode, len as int)) by {
        assert forall|i: int, f: bool, g: bool| 0 <= i < x.len() implies 0 <= #[trigger] lms_slot(x[i], f, g, mode) < len by {
            assert(0 <= t[i] < k);
        }
    }
    assert(uncounted(mode) == crate::gather::gather_lms_suffixes_32s_mode());
    lemma_counting_first(x, mode, (s, zeros(len), (n - 1) as isize, run_type(x, n, n - 1)), n - 1);
    let z = gather_lms_suffixes_32s_run(x, s, n)->0;
    let g = count_and_gather_lms_suffixes_32s_4k_run(x, s, n, len, 0, n)->0;
    assert(g.0 == z.0.update(z.2 as int, 0));
    assert(lists_all(x, g.0, m)) by {
        let sel = gathers(x, false);
        assert forall|p: int| 0 <= p < n && #[trigger] sel(p) implies among(g.0, n - m, n, p as i32) by {
            let j = lemma_found(z.0, n - m, n, p as i32);
            assert(g.0[j] == z.0[j]);
            lemma_among(g.0, n - m, n, j);
        }
    }
}

/// The buckets with room for another entry behind each.
spec fn doubled(b: Seq<i32>) -> Seq<i32> {
    Seq::new(2 * b.len(), |j: int| b[j / 2])
}

/// Sorting by first symbols with one bucket for each symbol is sorting with two.
proof fn lemma_radix_doubled(t: Seq<i32>, s: Seq<i32>, b: Seq<i32>, lo: int, hi: int)
    requires
        radix_sort_lms_suffixes_32s_2k_run(t, (s, doubled(b)), lo, hi - lo) is Some,
    ensures
        ({
            let u = radix_sort_lms_suffixes_32s_2k_run(t, (s, doubled(b)), lo, hi - lo)->0;
            let v = radix_sort_lms_suffixes_32s_6k_run(t, (s, b), lo, hi - lo);
            &&& v is Some
            &&& v.unwrap().0 == u.0
            &&& v.unwrap().1.len() == b.len()
            &&& u.1.len() == 2 * b.len()
            &&& forall|c: int| 0 <= c < b.len() ==> v.unwrap().1[c] == #[trigger] even(u.1, c)
        }),
    decreases hi - lo,
{
    if lo < hi {
        lemma_radix_doubled(t, s, b, lo + 1, hi);
        let u = radix_sort_lms_suffixes_32s_2k_run(t, (s, doubled(b)), lo + 1, hi - (lo + 1))->0;
        let v = radix_sort_lms_suffixes_32s_6k_run(t, (s, b), lo + 1, hi - (lo + 1))->0;
        let u2 = radix_sort_lms_suffixes_32s_2k_step(t)(u, lo);
        let v2 = radix_sort_lms_suffixes_32s_6k_step(t)(v, lo);
        assert(radix_sort_lms_suffixes_32s_2k_run(t, (s, doubled(b)), lo, hi - lo) == u2);
        assert(radix_sort_lms_suffixes_32s_6k_run(t, (s, b), lo, hi - lo) == v2);
        let p = u.0[lo] as int;
        let c = t[p] as int;
        assert(0 <= c < b.len());
        assert(v.1[c] == even(u.1, c));
        assert forall|d: int| 0 <= d < b.len() implies v2.unwrap().1[d] == #[trigger] even(u2.unwrap().1, d) by {
            assert(v.1[d] == even(u.1, d));
        }
    } else {
        assert forall|c: int| 0 <= c < b.len() implies b[c] == #[trigger] even(doubled(b), c) by {}
    }
}

/// Whether a bucket of the first `hi` points at slot `j`.
pub open spec fn pointed(b: Seq<i32>, hi: int, j: int) -> bool {
    exists|c: int| 0 <= c < hi && #[trigger] b[c] == j
}

/// The marks go where buckets point.
proof fn lemma_markers(b: Seq<i32>, s: Seq<i32>, hi: int)
    requires
        0 <= hi <= b.len(),
        forall|c: int| 0 <= c < hi ==> 0 <= #[trigger] b[c] < s.len(),
    ensures
        ({
            let r = radix_sort_set_markers_32s_6k_slot_run(b, s, 0, hi);
            &&& r is Some
            &&& r.unwrap().len() == s.len()
            &&& forall|j: int| 0 <= j < s.len() ==> #[trigger] r.unwrap()[j] == marked(s[j], pointed(b, hi, j))
        }),
    decreases hi,
{
    if hi > 0 {
        lemma_markers(b, s, hi - 1);
        let r = radix_sort_set_markers_32s_6k_slot_run(b, s, 0, hi - 1)->0;
        let y = b[hi - 1] as int;
        let nx = r.update(y, marked(r[y], true));
        assert(radix_sort_set_markers_32s_6k_slot_run(b, s, 0, hi) == radix_sort_set_markers_32s_6k_slot_step(b)(r, hi - 1));
        assert(radix_sort_set_markers_32s_6k_slot_step(b)(r, hi - 1) == Some(nx));
        assert forall|j: int| 0 <= j < s.len() implies #[trigger] nx[j] == marked(s[j], pointed(b, hi, j)) by {
            assert(r[j] == marked(s[j], pointed(b, hi - 1, j)));
            if j == y {
                assert(b[hi - 1] == j);
                assert(pointed(b, hi, j));
            } else if pointed(b, hi, j) {
                let c = choose|c: int| 0 <= c < hi && #[trigger] b[c] == j;
                assert(c < hi - 1);
                assert(pointed(b, hi - 1, j));
            } else if pointed(b, hi - 1, j) {
                let c = choose|c: int| 0 <= c < hi - 1 && #[trigger] b[c] == j;
                assert(b[c] == j);
            }
        }
    }
}

/// The slots where the sorting begins the suffixes of each symbol.
pub open spec fn first_slots(t: Seq<i32>, f: int, k: int, e: Seq<i32>) -> bool {
    let x = text32(t);
    &&& k <= e.len()
    &&& forall|c: int| 0 <= c < k ==> #[trigger] e[c] == left_tops(x, f)(c) - size_of_symbol(t, all_later(x, f), c)
}

/// The leftmost suffixes of type S sorted by first symbols into the slots that the scan to the
/// right visits, marked where the first of each symbol stands if marks are wanted.
#[verifier::spinoff_prover]
pub proof fn lemma_six_radix(t: Seq<i32>, k: int, m: int, s: PlaceState) -> (r: (Seq<i32>, Seq<i32>))
    requires
        six_gathered(t, k, m, s),
        1 <= m,
    ensures
        ({
            let n = t.len() as int;
            let x = text32(t);
            let f = s.0[n - m] as int;
            let a = initialize_buckets_for_lms_suffixes_radix_sort_32s_6k_run(x, k, s.1, f);
            let z = radix_sorted_6k(t, n, k, m, (cleared(s.0, 0, n - m), a.unwrap().0));
            &&& first_lms(x, f)
            &&& a is Some
            &&& a.unwrap().1 == below_of(x, all_left(x, f))(k)
            &&& z is Some
            &&& z.unwrap().0.len() == s.0.len()
            &&& z.unwrap().1.len() == s.1.len()
            &&& r.0.len() == s.0.len()
            &&& segmented(t, all_later(x, f), k, left_tops(x, f), r.0)
            &&& first_slots(t, f, k, r.1)
            &&& forall|j: int| 0 <= j < s.0.len() ==> #[trigger] z.unwrap().0[j] == marked(
                r.0[j],
                n / 8192 < k && pointed(r.1, k - 1, j),
            )
            &&& forall|slot: int| 0 <= slot < 4 * k ==> #[trigger] z.unwrap().1[slot] == later_count(
                x,
                f,
                count_and_gather_lms_suffixes_32s_4k_mode(),
                slot,
            )
        }),
{
    let n = t.len() as int;
    let x = text32(t);
    let mode = count_and_gather_lms_suffixes_32s_4k_mode();
    law_lms_few(x);
    lemma_first_gathered(x, s.0, m);
    let f = s.0[n - m] as int;
    assert(is_lms(x, f));
    let later = all_later(x, f);
    let below = below_of(x, all_left(x, f));
    let top = left_tops(x, f);
    crate::six_lanes::lemma_radix_buckets_6k(t, f, k, mode, s.1);
    let a = initialize_buckets_for_lms_suffixes_radix_sort_32s_6k_run(x, k, s.1, f)->0;
    let b = a.0;
    let tail = b.subrange(4 * k, b.len() as int);
    let c0 = cleared(s.0, 0, n - m);
    let twice = doubled(tail);
    assert forall|c: int| 0 <= c < k implies #[trigger] even(twice, c) == top(c) by {
        assert(b[4 * k + c] == below(c + 1));
        assert((2 * c) / 2 == c);
        assert(twice[2 * c] == tail[c]);
    }
    assert forall|p: int| 0 <= p < n && #[trigger] later(p) implies among(c0, n - m + 1, n, p as i32) by {
        let j = lemma_found(s.0, n - m + 1, n, p as i32);
        assert(c0[j] == s.0[j]);
        lemma_among(c0, n - m + 1, n, j);
    }
    assert forall|j: int| n - m < j < n implies 0 <= #[trigger] c0[j] < n && later(c0[j] as int) by {
        assert(0 <= s.0[j] < n && later(s.0[j] as int));
    }
    assert forall|i: int, j: int| n - m < i < j < n implies #[trigger] c0[i] != #[trigger] c0[j] by {
        assert(s.0[i] != s.0[j]);
    }
    lemma_left_radix(t, k, f, m, c0, twice);
    lemma_radix_segments(t, later, c0, twice, k, n - m + 1, top);
    lemma_radix_doubled(t, c0, tail, n - m + 1, n);
    let st = radix_sort_lms_suffixes_32s_6k_run(t, (c0, tail), n - m + 1, m - 1)->0;
    let e = st.1;
    assert(first_slots(t, f, k, e)) by {
        assert forall|c: int| 0 <= c < k implies #[trigger] e[c] == top(c) - size_of_symbol(t, later, c) by {
            let u = radix_sort_lms_suffixes_32s_2k_run(t, (c0, twice), n - m + 1, m - 1)->0;
            assert(e[c] == even(u.1, c));
        }
    }
    assert forall|p: int| 0 <= p < x.len() implies 0 <= #[trigger] x[p] by {
        assert(0 <= t[p] < k);
    }
    if n / 8192 < k {
        assert forall|c: int| 0 <= c < k - 1 implies 0 <= #[trigger] e[c] < st.0.len() by {
            lemma_left_size(t, f, c);
            lemma_below_bound(x, all_left(x, f), c);
            lemma_below_bound(x, all_left(x, f), c + 1);
            lemma_below_grows(x, all_left(x, f), c + 1, k);
            lemma_left_fits(t, k, f);
        }
        lemma_markers(e, st.0, k - 1);
    }
    assert forall|slot: int| 0 <= slot < 4 * k implies (b.subrange(0, 4 * k) + e)[slot] == #[trigger] later_count(x, f, mode, slot) by {
        assert(b[slot] == later_count(x, f, mode, slot));
    }
    (st.0, e)
}

/// The slots that the scan to the right visits are fewer than the suffixes.
proof fn lemma_left_fits(t: Seq<i32>, k: int, f: int)
    requires
        2 <= t.len() <= i32::MAX,
        symbols_below(t, k),
        1 <= k,
        first_lms(text32(t), f),
    ensures
        below_of(text32(t), all_left(text32(t), f))(k) < t.len(),
{
    let x = text32(t);
    assert forall|i: int| 0 <= i < x.len() implies 0 <= #[trigger] x[i] < k by {
        assert(0 <= t[i] < k);
    }
    law_lms_few(x);
    crate::segments::lemma_left_width(x, f, k);
}

/// A suffix of type S does not start with the greatest symbol.
pub proof fn lemma_not_greatest(x: Seq<int>, k: int, p: int)
    requires
        0 <= p < x.len(),
        !is_l(x, p),
        forall|i: int| 0 <= i < x.len() ==> 0 <= #[trigger] x[i] < k,
    ensures
        x[p] < k - 1,
    decreases x.len() - p,
{
    law_last_type(x);
    law_type_step(x, p);
    assert(0 <= x[p + 1] < k);
    if x[p] == x[p + 1] {
        lemma_not_greatest(x, k, p + 1);
    }
}

/// The marks stand at the first leftmost suffix of type S of each symbol.
pub proof fn lemma_marks_open(t: Seq<i32>, g: Field, e: Seq<i32>, y: int)
    requires
        g.x == text32(t),
        2 <= t.len() <= i32::MAX,
        fielded(g),
        symbols_below(t, g.k),
        forall|c: int| #[trigger] start(g, c, true) == below_of(g.x, all_left(g.x, g.f))(c),
        first_slots(t, g.f, g.k, e),
        0 <= y < width(g),
        is_lms(g.x, at(g, y)),
    ensures
        pointed(e, g.k - 1, y) == opens(g, y),
{
    let x = g.x;
    let f = g.f;
    let k = g.k;
    let below = below_of(x, all_left(x, f));
    lemma_at(g, y);
    let v = at(g, y);
    let c = x[v];
    assert(is_lms(x, f));
    assert forall|i: int| 0 <= i < x.len() implies 0 <= #[trigger] x[i] < k by {
        assert(0 <= t[i] < k);
    }
    assert forall|p: int| 0 <= p < x.len() implies 0 <= #[trigger] x[p] by {
        assert(0 <= x[p] < k);
    }
    lemma_not_greatest(x, k, v);
    lemma_lms_border(t, g, c, y);
    let lo = e[c] as int;
    assert(lo == left_tops(x, f)(c) - size_of_symbol(t, all_later(x, f), c));
    assert(lo <= y);
    crate::lanes::lemma_start(g, c + 1, y);
    assert(y < below(c + 1)) by {
        assert(start(g, c + 1, true) == below(c + 1));
    }
    if y > 0 {
        lemma_at(g, y - 1);
        lemma_area_order(g, y - 1, y);
        lemma_lms_border(t, g, c, y - 1);
    }
    lemma_left_size(t, f, c);
    lemma_below_bound(x, all_left(x, f), c);
    if opens(g, y) {
        if lo < y {
            assert(is_lms(x, at(g, y - 1)));
        }
        assert(lo == y);
        assert(e[c] == y);
    }
    if pointed(e, k - 1, y) {
        let d = choose|d: int| 0 <= d < k - 1 && #[trigger] e[d] == y;
        lemma_left_size(t, f, d);
        lemma_left_size(t, f, c);
        if d < c {
            lemma_below_grows(x, all_left(x, f), d + 1, c);
        } else if c < d {
            lemma_below_grows(x, all_left(x, f), c + 1, d);
        }
        assert(y == lo);
    }
}

} // verus!
