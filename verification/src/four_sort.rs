//! Induced sorting with four buckets for each symbol: from the gathered leftmost suffixes of type S
//! to the order of all suffixes.

use vstd::prelude::*;
use crate::bounds::{count_below, counted, lemma_sums_are_ends, lemma_sums_are_starts};
use crate::buckets::initialize_buckets_for_radix_and_partial_sorting_32s_4k_run;
use crate::fields::{lemma_field, lemma_field_sizes};
use crate::four_left::{four_ready, lemma_four_left};
use crate::four_lists::{heads, lemma_four_buckets, lemma_four_tags, lemma_tags_placed, tagged};
use crate::four_right::{lemma_four_packed, lemma_four_right, turns};
use crate::gather::{
    cleared, count_and_gather_lms_suffixes_32s_2k_mode, count_and_gather_lms_suffixes_32s_2k_run,
    count_lms_suffixes_32s_2k_mode, text32, zeros,
};
use crate::induce::partial_left_32s_4k;
use crate::induction::{slot_of, symbols_below};
use crate::kinds::is_lms;
use crate::lane_left::opens;
use crate::lane_right::low_true;
use crate::lanes::{at, fielded, in_left, lemma_area_order, lemma_at, lemma_left_order, lemma_place, place_of, width, Field};
use crate::laws::law_suffix_array_exists;
use crate::lengths::law_lms_few;
use crate::listing::{all_later, even, lemma_below_bound, lemma_below_grows};
use crate::main_32s::{
    computes, induced, layout, lms_ordered, named, named_4k, ordered, ordered_4k, radix_sorted_2k, SortState,
};
use crate::mark_names::{law_marked_names, lemma_low_exact, unmarked_all};
use crate::marks::{grouped, marked, unmarked};
use crate::order::is_suffix_array;
use crate::ordering::law_sorted_lms_suffice_4k;
use crate::orders::{packed_4k, partial_order_32s_4k};
use crate::partial_induction::{first_lms, later_lms, lms_count, scattered, standing};
use crate::place::{place_lms_suffixes_interval_32s_4k_run, placed, PlaceMode};
use crate::placement::lemma_found;
use crate::radix::{radix_sort_set_markers_32s_4k_slot_run, shift_group_run};
use crate::rebuild::lemma_all_counted;
use crate::recount::{below_of, lemma_grouped, lists_base};
use crate::renumber::renumber_and_mark_distinct_4k_run;
use crate::scattering::lemma_arranged;
use crate::spreading::{holds_end, law_spread, lemma_listed_pair, spread, spreadable, tabled};
use crate::substrings::{lemma_keys, met_less, slots_differ};
use crate::two_buckets::{
    lemma_first_gathered, lemma_names_sort, lemma_radix_packed, lemma_single_sorted, lemma_spread_scatters, name_listed,
};

verus! {

/// Different leftmost suffixes of type S stand in different slots.
proof fn lemma_standing_differ(t: Seq<i32>, f: int, s: Seq<i32>, a: Seq<i32>)
    requires
        first_lms(text32(t), f),
        scattered(t, f, s, a),
    ensures
        slots_differ(text32(t), standing(s, t.len() as int, f)),
{
    let x = text32(t);
    let n = t.len() as int;
    let slot = standing(s, n, f);
    assert forall|u: int, v: int| #![trigger slot(u), slot(v)] is_lms(x, u) && is_lms(x, v) && u != v implies slot(u) != slot(v) by {
        assert(u != f ==> later_lms(x, f, u));
        assert(v != f ==> later_lms(x, f, v));
    }
}

/// The first of each symbol in the list is the first that the scan over lanes meets.
#[verifier::spinoff_prover]
proof fn lemma_heads_open(t: Seq<i32>, g: Field, order: Seq<i32>, w: Seq<i32>, m: int, r: Seq<i32>, y: int)
    requires
        g.x == text32(t),
        2 <= t.len() <= i32::MAX,
        symbols_below(t, g.k),
        fielded(g),
        g.slot == standing(r, t.len() as int, g.f),
        lists_base(t, all_later(text32(t), g.f), w, m),
        spread(t, order, w, 0, m, r, 0),
        t.len() <= r.len(),
        0 <= y < width(g),
        is_lms(g.x, at(g, y)),
    ensures
        heads(t, g.f, w, at(g, y) as i32) == opens(g, y),
        r[slot_of(r, t.len() as int, at(g, y))] == at(g, y),
{
    let x = g.x;
    let f = g.f;
    let n = t.len() as int;
    let later = all_later(x, f);
    let below = below_of(x, later);
    assert(is_lms(x, f));
    lemma_at(g, y);
    let v = at(g, y);
    assert(later(v));
    lemma_grouped(t, later, w, m, g.k);
    let b = lemma_found(w, 0, m, v as i32);
    assert(w[b] == v);
    let j = lemma_found(r, 0, n, w[b]);
    assert(0 <= j < n && r[j] == v);
    let i = slot_of(r, n, v);
    assert(0 <= i < n && r[i] == v);
    let c = t[v] as int;
    assert(0 <= t[v] < g.k);
    assert((t[w[b] as int] < c) == (b < below(c)));
    assert((t[w[b] as int] < c + 1) == (b < below(c + 1)));
    assert(0 <= below(c) <= m);
    let h = below(c);
    assert((t[w[h] as int] < c) == (h < below(c)));
    assert((t[w[h] as int] < c + 1) == (h < below(c + 1)));
    if heads(t, f, w, v as i32) && !opens(g, y) {
        let u = at(g, y - 1);
        lemma_at(g, y - 1);
        lemma_area_order(g, y - 1, y);
        assert(later(u));
        let l = lemma_found(w, 0, m, u as i32);
        let e = lemma_found(r, 0, n, w[l]);
        let o = slot_of(r, n, u);
        assert(0 <= o < n && r[o] == u);
        lemma_keys(x, f, u, v);
        assert(o < i);
        let (p1, p2) = lemma_listed_pair(w, 0, m, r[o], r[i]);
        assert(p2 == h) by {
            if p2 < h {
                assert(w[p2] != w[h]);
            } else if h < p2 {
                assert(w[h] != w[p2]);
            }
        }
        assert((t[w[p1] as int] < c) == (p1 < below(c)));
    }
    if opens(g, y) && !heads(t, f, w, v as i32) {
        assert(h < b);
        let u = w[h] as int;
        assert(w[h] != w[b]);
        assert(later(w[h] as int));
        assert(t[u] == c);
        let e = lemma_found(r, 0, n, w[h]);
        assert(0 <= e < n && r[e] == u);
        let o = slot_of(r, n, u);
        assert(0 <= o < n && r[o] == u);
        assert(o < i) by {
            if i < o {
                let (p1, p2) = lemma_listed_pair(w, 0, m, r[i], r[o]);
                if p1 < b {
                    assert(w[p1] != w[b]);
                } else if b < p1 {
                    assert(w[b] != w[p1]);
                }
                if p2 < h {
                    assert(w[p2] != w[h]);
                } else if h < p2 {
                    assert(w[h] != w[p2]);
                }
            }
        }
        lemma_keys(x, f, u, v);
        assert(met_less(x, f, g.slot, u, v));
        assert(in_left(x, f, u) && in_left(x, f, v));
        lemma_left_order(g, u, v);
        lemma_place(g, u);
        let z = place_of(g, u);
        assert(z < y);
        lemma_at(g, y - 1);
        lemma_area_order(g, y - 1, y);
        if z < y - 1 {
            lemma_area_order(g, z, y - 1);
            lemma_keys(x, f, u, at(g, y - 1));
            lemma_keys(x, f, at(g, y - 1), v);
            assert(is_lms(x, at(g, y - 1)));
        }
    }
}

/// What the scans start from.
pub open spec fn four_laid(t: Seq<i32>, k: int, f: int, order: Seq<i32>, w: Seq<i32>, m: int, r: Seq<i32>, p: Seq<i32>, b: Seq<i32>) -> bool {
    let n = t.len() as int;
    &&& 2 <= n <= 0x3fff_ffff
    &&& symbols_below(t, k)
    &&& 1 <= k
    &&& 4 * k <= b.len()
    &&& n <= r.len()
    &&& p.len() == r.len()
    &&& first_lms(text32(t), f)
    &&& is_suffix_array(text32(t), order)
    &&& 0 <= m <= n
    &&& lists_base(t, all_later(text32(t), f), w, m)
    &&& spread(t, order, w, 0, m, r, 0)
    &&& scattered(t, f, r, order)
    &&& forall|j: int| 0 <= j < n ==> #[trigger] p[j] == tagged(t, f, w, r[j])
    &&& forall|c: int| 0 <= c < k ==> b[#[trigger] (2 * k + c)] == count_below(t, c, n)
    &&& forall|c: int| 0 <= c < k ==> b[#[trigger] (3 * k + c)] == count_below(t, c + 1, n)
}

/// Gathering, sorting by first symbols and spreading lay out the later suffixes.
#[verifier::spinoff_prover]
proof fn lemma_four_laid(t: Seq<i32>, order: Seq<i32>, sa: Seq<i32>, k: int, len: nat) -> (r: (Seq<i32>, Seq<i32>))
    requires
        2 <= t.len() <= 0x3fff_ffff,
        t.len() <= sa.len() <= isize::MAX,
        symbols_below(t, k),
        1 <= k <= i32::MAX,
        4 * k <= len <= usize::MAX,
        lms_count(text32(t), 0) > 1,
        is_suffix_array(text32(t), order),
    ensures
        ({
            let n = t.len() as int;
            let m = lms_count(text32(t), 0);
            let x = count_and_gather_lms_suffixes_32s_2k_run(text32(t), sa, n, len, 0, n);
            let f = x.unwrap().0[n - m] as int;
            let y = initialize_buckets_for_radix_and_partial_sorting_32s_4k_run(t, k, x.unwrap().1, f);
            let z = radix_sorted_2k(t, n, m, (x.unwrap().0, y.unwrap().0));
            let b = z.unwrap().1;
            let q = radix_sort_set_markers_32s_4k_slot_run(b.subrange(1, b.len() as int), z.unwrap().0, 0, k - 1);
            let p = place_lms_suffixes_interval_32s_4k_run(q->0, n, k, m - 1, b);
            &&& x is Some
            &&& x.unwrap().2 == n - 1 - m
            &&& y is Some
            &&& z is Some
            &&& q is Some
            &&& p is Some
            &&& p.unwrap().len() == sa.len()
            &&& b.len() == len
            &&& four_laid(t, k, f, order, r.0, m - 1, r.1, p->0, b)
        }),
{
    let n = t.len() as int;
    let x = text32(t);
    let m = lms_count(x, 0);
    let mode = count_and_gather_lms_suffixes_32s_2k_mode();
    law_lms_few(x);
    lemma_all_counted(t, sa, k, len);
    let g = count_and_gather_lms_suffixes_32s_2k_run(x, sa, n, len, 0, n)->0;
    lemma_first_gathered(x, g.0, m);
    let f = g.0[n - m] as int;
    assert(is_lms(x, f));
    let later = all_later(x, f);
    let below = below_of(x, later);
    lemma_four_buckets(t, k, mode, g.1, f);
    let y = initialize_buckets_for_radix_and_partial_sorting_32s_4k_run(t, k, g.1, f).unwrap().0;
    lemma_radix_packed(t, k, m, f, (g.0, y));
    let z = radix_sorted_2k(t, n, m, (g.0, y))->0;
    let w = z.0;
    let b = z.1;
    let e = b.subrange(1, b.len() as int);
    assert forall|c: int| 0 <= c < k implies #[trigger] even(e, c) == below(c) by {
        assert(b[2 * c + 1] == below(c));
    }
    lemma_four_tags(t, f, k, w, m - 1, e);
    let q = radix_sort_set_markers_32s_4k_slot_run(e, w, 0, k - 1)->0;
    assert forall|c: int| 0 <= c < k implies b[#[trigger] (2 * k + c)] == count_below(t, c, n) by {
        assert(y[2 * k + c] == count_below(t, c, n));
    }
    assert forall|c: int| 0 <= c < k implies b[#[trigger] (3 * k + c)] == count_below(t, c + 1, n) by {
        assert(y[3 * k + c] == count_below(t, c + 1, n));
        assert(b[3 * k + c] == y[3 * k + c]);
    }
    let ends = b.subrange(3 * k, 4 * k);
    assert forall|c: int| 0 <= c < k implies #[trigger] ends[c] == count_below(t, c + 1, n) by {
        assert(b[3 * k + c] == count_below(t, c + 1, n));
    }
    lemma_sums_are_ends(t, order, k, ends);
    lemma_grouped(t, later, w, m - 1, k);
    let place = PlaceMode { step: 2, sums: true, ends: (3 * k) as usize, end_step: 1 };
    assert forall|c: int| #![trigger below(c)] 0 <= c < k - 1 implies crate::place::lms_count(place, b, c) == Some(below(c + 1) - below(c)) by {
        lemma_below_grows(x, later, c, c + 1);
        lemma_below_bound(x, later, c);
        lemma_below_bound(x, later, c + 1);
        assert(b[2 * c + 1] == below(c));
        assert(b[2 * (c + 1) + 1] == below(c + 1));
    }
    assert(spreadable(t, order, w, m - 1, k, ends, below));
    assert forall|c: int| #![trigger ends[c]] 0 <= c < k - 1 implies holds_end(place, b, c, ends[c]) by {}
    assert(tabled(place, b, k, ends, below));
    law_spread(t, order, w, m - 1, k, ends, below, place, b);
    let r = placed(place, b, w, n, m - 1, k - 1)->0;
    lemma_spread_scatters(t, order, f, w, m - 1, r);
    lemma_tags_placed(t, order, f, w, m - 1, k, ends, below, place, b, q);
    (w, r)
}

/// The scans with four buckets sort the leftmost suffixes of type S by their substrings and mark
/// exactly which are the last of their kind.
#[verifier::spinoff_prover]
proof fn lemma_four_scans(
    t: Seq<i32>,
    k: int,
    f: int,
    order: Seq<i32>,
    w: Seq<i32>,
    m: int,
    r: Seq<i32>,
    p: Seq<i32>,
    b: Seq<i32>,
)
    requires
        four_laid(t, k, f, order, w, m - 1, r, p, b),
        1 <= m == lms_count(text32(t), 0),
        p.len() <= usize::MAX,
    ensures
        ({
            let o = partial_order_32s_4k(t, t.len() as int, k, (p, b));
            &&& o is Some
            &&& o.unwrap().0.len() == p.len()
            &&& o.unwrap().1.len() == b.len()
            &&& crate::mark_names::marks_exact(t, m, o.unwrap().0)
        }),
{
    let n = t.len() as int;
    let x = text32(t);
    let b4 = cleared(b, 0, 2 * k);
    let starts = b4.subrange(2 * k, 3 * k);
    let ends = b4.subrange(3 * k, 4 * k);
    assert(is_lms(x, f));
    assert forall|c: int| 0 <= c < k implies #[trigger] starts[c] == count_below(t, c, n) by {
        assert(b[2 * k + c] == count_below(t, c, n));
    }
    assert forall|c: int| 0 <= c < k implies #[trigger] ends[c] == count_below(t, c + 1, n) by {
        assert(b[3 * k + c] == count_below(t, c + 1, n));
    }
    lemma_sums_are_starts(t, order, k, starts);
    lemma_sums_are_ends(t, order, k, ends);
    let a = lemma_arranged(t, f, r, order, k, starts, ends);
    lemma_standing_differ(t, f, r, order);
    assert forall|i: int| 0 <= i < x.len() implies 0 <= #[trigger] x[i] < k by {
        assert(0 <= t[i] < k);
    }
    let (g, low) = lemma_field(x, f, standing(r, n, f), k, true);
    lemma_field_sizes(g, low);
    assert(four_ready(t, g, r, a, p, b4)) by {
        assert forall|j: int| 0 <= j < n implies crate::four_left::carries(#[trigger] p[j], r[j]) by {
            assert(p[j] == tagged(t, f, w, r[j]));
            if r[j] != 0 {
                assert(later_lms(x, f, r[j] as int));
            }
        }
        assert forall|y: int| 0 <= y < width(g) && is_lms(g.x, #[trigger] at(g, y)) implies grouped(p[slot_of(r, n, at(g, y))]) == opens(
            g,
            y,
        ) by {
            lemma_heads_open(t, g, order, w, m - 1, r, y);
            lemma_at(g, y);
            let v = at(g, y);
            let i = slot_of(r, n, v);
            assert(later_lms(x, f, v));
            assert(0 <= i < n);
            assert(p[i] == tagged(t, f, w, r[i]));
        }
    }
    lemma_four_left(t, g, r, a, p, b4);
    let st = partial_left_32s_4k(t, n, k, (p, b4, 0))->0;
    assert(turns(t, g, low, r, a, p, b4, st));
    let marks = lemma_four_right(t, g, low, r, a, p, b4, st);
    let h = shift_group_run((st.0, true), 0, n).unwrap().0;
    let z = crate::partial_32s::partial_sorting_scan_right_to_left_32s_4k_run(t, k, (h, st.1, st.2), 0, n)->0;
    lemma_four_packed(t, g, low, r, a, p, b4, z.0, marks, n);
    let o = packed_4k(z.0, n);
    assert(partial_order_32s_4k(t, n, k, (p, b)) == Some((o, z.1)));
    assert forall|j: int| #![trigger low[j]] 0 <= j < low.len() implies unmarked(o[j]) == low[j] && low_true(g, low, o, j) by {
        assert(o[j] == marked(low[j], marks[j] < 0));
        crate::lane_right::lemma_low_at(g, low, j);
        assert(unmarked(marks[j]) == low[j] && low_true(g, low, marks, j));
    }
    lemma_low_exact(t, g, low, o);
}

/// Naming the substrings.
#[verifier::spinoff_prover]
proof fn lemma_four_named(t: Seq<i32>, sa: Seq<i32>, k: int, b: Seq<i32>) -> (w: Seq<i32>)
    requires
        2 <= t.len() <= 0x3fff_ffff,
        t.len() <= sa.len() <= isize::MAX,
        symbols_below(t, k),
        1 <= k <= i32::MAX,
        4 * k == b.len(),
        b.len() <= usize::MAX,
        lms_count(text32(t), 0) > 1,
    ensures
        named_4k(t, sa, t.len() as int, k, b) is Some,
        ({
            let v = named_4k(t, sa, t.len() as int, k, b)->0;
            &&& v.2 == lms_count(text32(t), 0)
            &&& v.1.len() == b.len()
            &&& v.0.len() == sa.len()
            &&& name_listed(t, w, v.2, v.0, v.3, false)
        }),
{
    let n = t.len() as int;
    let x = text32(t);
    let m = lms_count(x, 0);
    law_lms_few(x);
    law_suffix_array_exists(x);
    let order = choose|a: Seq<i32>| is_suffix_array(x, a);
    let (list, r) = lemma_four_laid(t, order, sa, k, b.len());
    let c = count_and_gather_lms_suffixes_32s_2k_run(x, sa, n, b.len(), 0, n)->0;
    let f = c.0[n - m] as int;
    let y = initialize_buckets_for_radix_and_partial_sorting_32s_4k_run(t, k, c.1, f)->0;
    let z = radix_sorted_2k(t, n, m, (c.0, y.0))->0;
    let q = radix_sort_set_markers_32s_4k_slot_run(z.1.subrange(1, z.1.len() as int), z.0, 0, k - 1)->0;
    let p = place_lms_suffixes_interval_32s_4k_run(q, n, k, m - 1, z.1)->0;
    lemma_four_scans(t, k, f, order, list, m, r, p, z.1);
    let o = partial_order_32s_4k(t, n, k, (p, z.1))->0;
    assert forall|i: int| 0 <= i < n implies 0 <= #[trigger] t[i] by {
        assert(0 <= t[i] < k);
    }
    law_marked_names(t, m, o.0);
    let v = renumber_and_mark_distinct_4k_run(o.0, n, m, 1, 1)->0;
    assert(named_4k(t, sa, n, k, b) == Some((v.0, o.1, m, v.1)));
    unmarked_all(o.0)
}

/// What induced sorting with four buckets for each symbol starts from.
pub open spec fn four_buckets(t: Seq<i32>, sa: Seq<i32>, k: int, fs: int) -> bool {
    &&& 2 <= t.len()
    &&& 0 <= fs
    &&& t.len() + fs <= sa.len() <= isize::MAX
    &&& t.len() + fs <= i32::MAX
    &&& symbols_below(t, k)
    &&& 1 <= k <= i32::MAX
    &&& layout(t.len() as int, k, fs) == 4
}

/// One leftmost suffix of type S at most.
#[verifier::spinoff_prover]
proof fn lemma_four_single(t: Seq<i32>, sa: Seq<i32>, k: int, fs: int, ok: bool, u: Seq<i32>, r: Seq<i32>)
    requires
        four_buckets(t, sa, k, fs),
        lms_count(text32(t), 0) <= 1,
        induced(t, sa, t.len() as int, k, fs, ok, u, r),
    ensures
        ok,
        u == t,
        is_suffix_array(text32(t), r.subrange(0, t.len() as int)),
{
    let n = t.len() as int;
    let x = text32(t);
    let b = zeros((4 * k) as nat);
    law_suffix_array_exists(x);
    let order = choose|a: Seq<i32>| is_suffix_array(x, a);
    law_lms_few(x);
    let m = lms_count(x, 0);
    lemma_all_counted(t, sa, k, b.len());
    let g = count_and_gather_lms_suffixes_32s_2k_run(x, sa, n, b.len(), 0, n)->0;
    let s = g.0.update(0, g.0[n - 1]);
    assert(named(t, sa, n, k, fs) == Some((s, g.1, m, m))) by {
        reveal(named);
    }
    lemma_single_sorted(t, g.0, s, m);
    let (done, y) = choose|done: bool, y: SortState|
        #[trigger] lms_ordered(n, k, fs, m, m, (t, s, g.1), done, y) && (if done {
            u == y.0 && computes(ordered(y.0, n, k, fs, m, (y.1, y.2)), ok, r)
        } else {
            !ok
        });
    assert(done && y == (t, s, g.1));
    assert(ordered(t, n, k, fs, m, (s, g.1)) == ordered_4k(t, n, k, m, (s, g.1))) by {
        reveal(ordered);
    }
    law_sorted_lms_suffice_4k(t, order, s, m, k, count_and_gather_lms_suffixes_32s_2k_mode(), g.1);
}

/// Several leftmost suffixes of type S.
#[verifier::spinoff_prover]
proof fn lemma_four_several(t: Seq<i32>, sa: Seq<i32>, k: int, fs: int, ok: bool, u: Seq<i32>, r: Seq<i32>)
    requires
        four_buckets(t, sa, k, fs),
        lms_count(text32(t), 0) > 1,
        induced(t, sa, t.len() as int, k, fs, ok, u, r),
    ensures
        ok,
        u == t,
        is_suffix_array(text32(t), r.subrange(0, t.len() as int)),
{
    let n = t.len() as int;
    let x = text32(t);
    let b = zeros((4 * k) as nat);
    law_suffix_array_exists(x);
    let order = choose|a: Seq<i32>| is_suffix_array(x, a);
    law_lms_few(x);
    let m = lms_count(x, 0);
    let w = lemma_four_named(t, sa, k, b);
    let v = named_4k(t, sa, n, k, b)->0;
    assert(named(t, sa, n, k, fs) == Some(v)) by {
        reveal(named);
    }
    let (done, y) = choose|done: bool, y: SortState|
        #[trigger] lms_ordered(n, k, fs, m, v.3, (t, v.0, v.1), done, y) && (if done {
            u == y.0 && computes(ordered(y.0, n, k, fs, m, (y.1, y.2)), ok, r)
        } else {
            !ok
        });
    lemma_names_sort(t, w, k, m, v.0, v.3, fs, v.1, done, y, false);
    assert(ordered(t, n, k, fs, m, (y.1, y.2)) == ordered_4k(t, n, k, m, (y.1, y.2))) by {
        reveal(ordered);
    }
    if counted(t, count_and_gather_lms_suffixes_32s_2k_mode(), k, y.2) {
        law_sorted_lms_suffice_4k(t, order, y.1, m, k, count_and_gather_lms_suffixes_32s_2k_mode(), y.2);
    } else {
        law_sorted_lms_suffice_4k(t, order, y.1, m, k, count_lms_suffixes_32s_2k_mode(), y.2);
    }
}

/// Induced sorting sorts, with four buckets for each symbol: naming the LMS substrings, sorting
/// the LMS suffixes by their names, with the help of a sorted reduced text, and inducing the
/// order of all suffixes never fails, leaves the suffix array, and leaves the text as it was.
pub proof fn law_four_buckets_sort(t: Seq<i32>, sa: Seq<i32>, k: int, fs: int, ok: bool, u: Seq<i32>, r: Seq<i32>)
    requires
        four_buckets(t, sa, k, fs),
        induced(t, sa, t.len() as int, k, fs, ok, u, r),
    ensures
        ok,
        u == t,
        is_suffix_array(text32(t), r.subrange(0, t.len() as int)),
{
    if lms_count(text32(t), 0) <= 1 {
        lemma_four_single(t, sa, k, fs, ok, u, r);
    } else {
        lemma_four_several(t, sa, k, fs, ok, u, r);
    }
}

} // verus!
