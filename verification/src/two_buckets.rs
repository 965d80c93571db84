//! Induced sorting with two buckets for each symbol, from the text to its suffix array.

use vstd::prelude::*;
use crate::bounds::{count_below, counted, lemma_sums_are_ends, lemma_sums_are_starts};
use crate::buckets::{initialize_buckets_for_lms_suffixes_radix_sort_32s_2k_run, packed_bounds};
use crate::compact::{compact_lms_run, reconstruct_compacted_2k_run};
use crate::compaction::{compactable, law_compacted};
use crate::gather::{
    count_and_gather_lms_suffixes_32s_2k_mode, count_and_gather_lms_suffixes_32s_2k_run, count_lms_suffixes_32s_2k_mode,
    count_lms_suffixes_32s_2k_run, text32, zeros,
};
use crate::induce::partial_left_32s_1k;
use crate::induction::symbols_below;
use crate::kinds::{is_lms, law_counted_apart, slot_count};
use crate::laws::law_suffix_array_exists;
use crate::lengths::{gathers, law_lms_few};
use crate::listing::{
    all_later, even, lemma_below_bound, lemma_below_grows, lemma_bounded, lemma_packed_tops, lemma_radix_list, packed_tops,
    radix_ready, size_of_symbol,
};
use crate::main_32s::{
    computes, induced, layout, lms_ordered, named, named_2k, names_sorted, ordered, ordered_2k, radix_sorted_2k,
    reduced_sorted, SortState,
};
use crate::naming::{law_names, name_at, nameable};
use crate::one_bucket::{lemma_all_alone, lemma_reduced_fits};
use crate::order::is_suffix_array;
use crate::ordering::law_sorted_lms_suffice_2k;
use crate::orders::partial_order_32s_2k;
use crate::partial_32s::partial_sorting_scan_right_to_left_32s_1k_run;
use crate::partial_induction::{
    first_lms, later_lms, lemma_packed, lemma_scans_induce, lms_count, scattered, standing,
};
use crate::place::{place_lms_suffixes_interval_32s_2k_run, placed, PlaceMode};
use crate::placement::{among, lemma_among, lemma_found, lms_sorted};
use crate::radix::radix_sort_lms_suffixes_32s_2k_run;
use crate::rebuild::{law_restored_and_counted, lemma_all_counted};
use crate::recount::{below_of, lemma_grouped, lemma_list_tally, lemma_tally_full, lists_base};
use crate::renumber::renumber_and_mark_distinct_1k_run;
use crate::scattering::lemma_arranged;
use crate::spreading::{holds_end, law_spread, lemma_listed_pair, spread, spreadable, tabled};
use crate::types::PlaceState;

verus! {

/// The gathered leftmost suffixes of type S start with the first of them.
pub proof fn lemma_first_gathered(x: Seq<int>, g: Seq<i32>, m: int)
    requires
        x.len() <= i32::MAX,
        x.len() <= g.len(),
        1 <= m <= x.len(),
        crate::lengths::lists_all(x, g, m),
    ensures
        first_lms(x, g[x.len() - m] as int),
        forall|j: int| x.len() - m < j < x.len() ==> 0 <= #[trigger] g[j] < x.len() && all_later(x, g[x.len() - m] as int)(g[j] as int),
        forall|i: int, j: int| x.len() - m < i < j < x.len() ==> #[trigger] g[i] != #[trigger] g[j],
        forall|p: int| 0 <= p < x.len() && #[trigger] all_later(x, g[x.len() - m] as int)(p) ==> among(
            g,
            x.len() - m + 1,
            x.len() as int,
            p as i32,
        ),
{
    let n = x.len() as int;
    let f = g[n - m] as int;
    let sel = gathers(x, false);
    assert(sel(g[n - m] as int));
    assert forall|p: int| #[trigger] is_lms(x, p) implies f <= p by {
        assert(sel(p));
        let j = lemma_found(g, n - m, n, p as i32);
        assert(n - m < j ==> g[n - m] < g[j]);
    }
    assert forall|j: int| n - m < j < n implies 0 <= #[trigger] g[j] < n && all_later(x, f)(g[j] as int) by {
        assert(sel(g[j] as int));
        assert(g[n - m] < g[j]);
    }
    assert forall|p: int| 0 <= p < n && #[trigger] all_later(x, f)(p) implies among(g, n - m + 1, n, p as i32) by {
        assert(sel(p));
        let j = lemma_found(g, n - m, n, p as i32);
        lemma_among(g, n - m + 1, n, j);
    }
}

/// Spread suffixes are scattered.
pub proof fn lemma_spread_scatters(t: Seq<i32>, sa: Seq<i32>, f: int, s: Seq<i32>, m: int, r: Seq<i32>)
    requires
        1 <= t.len() <= i32::MAX,
        t.len() <= r.len(),
        lists_base(t, all_later(text32(t), f), s, m),
        spread(t, sa, s, 0, m, r, 0),
    ensures
        scattered(t, f, r, sa),
{
    let n = t.len() as int;
    let x = text32(t);
    let later = all_later(x, f);
    assert forall|j: int| 0 <= j < n && #[trigger] r[j] != 0 implies later_lms(x, f, r[j] as int) by {
        let a = lemma_found(s, 0, m, r[j]);
        assert(later(s[a] as int));
    }
    assert forall|j: int, l: int| 0 <= j < l < n && #[trigger] r[j] != 0 && #[trigger] r[l] != 0 implies r[j] != r[l] by {
        let (a, b) = lemma_listed_pair(s, 0, m, r[j], r[l]);
        assert(s[a] != s[b]);
    }
    assert forall|p: int| #[trigger] later_lms(x, f, p) implies exists|j: int| 0 <= j < n && #[trigger] r[j] == p by {
        assert(later(p));
        let a = lemma_found(s, 0, m, p as i32);
        assert(s[a] == p);
        let j = lemma_found(r, 0, n, s[a]);
        assert(r[j] == p);
    }
}

/// The buckets after the sorting by first symbols: the ends of all, and behind each the number of
/// the later suffixes that start with smaller symbols.
pub open spec fn listed_buckets(t: Seq<i32>, f: int, k: int, b: Seq<i32>) -> bool {
    &&& 2 * k <= b.len()
    &&& forall|c: int| 0 <= c < k ==> #[trigger] even(b, c) == count_below(t, c + 1, t.len() as int)
    &&& forall|c: int| 0 <= c < k ==> #[trigger] b[2 * c + 1] == below_of(text32(t), all_later(text32(t), f))(c)
}

/// Sorting by first symbols lists the later suffixes by first symbols.
pub proof fn lemma_radix_packed(t: Seq<i32>, k: int, m: int, f: int, s: PlaceState)
    requires
        2 <= t.len() <= i32::MAX,
        t.len() <= s.0.len(),
        symbols_below(t, k),
        1 <= k,
        2 * k <= s.1.len(),
        1 <= m <= t.len(),
        forall|j: int| t.len() - m < j < t.len() ==> 0 <= #[trigger] s.0[j] < t.len() && all_later(text32(t), f)(s.0[j] as int),
        forall|i: int, j: int| t.len() - m < i < j < t.len() ==> #[trigger] s.0[i] != #[trigger] s.0[j],
        forall|p: int| 0 <= p < t.len() && #[trigger] all_later(text32(t), f)(p) ==> among(
            s.0,
            t.len() - m + 1,
            t.len() as int,
            p as i32,
        ),
        forall|c: int| 0 <= c < k ==> s.1[#[trigger] (2 * c + 1)] == below_of(text32(t), all_later(text32(t), f))(c + 1),
        2 * m <= t.len(),
    ensures
        ({
            let z = radix_sorted_2k(t, t.len() as int, m, s);
            let below = below_of(text32(t), all_later(text32(t), f));
            &&& z is Some
            &&& z.unwrap().0.len() == s.0.len()
            &&& z.unwrap().1.len() == s.1.len()
            &&& lists_base(t, all_later(text32(t), f), z.unwrap().0, m - 1)
            &&& forall|c: int| 0 <= c < k ==> z.unwrap().1[#[trigger] (2 * c + 1)] == below(c)
            &&& forall|c: int| 0 <= c < k ==> #[trigger] even(z.unwrap().1, c) == even(s.1, c)
            &&& forall|j: int| 2 * k < j < s.1.len() ==> #[trigger] z.unwrap().1[j] == s.1[j]
            &&& s.1.len() > 2 * k ==> z.unwrap().1[2 * k] == s.1[2 * k]
        }),
{
    let n = t.len() as int;
    let x = text32(t);
    let later = all_later(x, f);
    let y = s.1;
    let tail = y.subrange(1, y.len() as int);
    let top = packed_tops(x, later);
    assert forall|c: int| 0 <= c < k implies #[trigger] even(tail, c) == top(c) by {
        assert(y[2 * c + 1] == below_of(x, later)(c + 1));
    }
    assert forall|c: int| 0 <= c < k implies size_of_symbol(t, later, c) <= #[trigger] top(c) <= n - m + 1 by {
        lemma_packed_tops(t, later, c, c + 1);
        let all = |j: int| later(s.0[j] as int);
        lemma_list_tally(s.0, n - m + 1, n, n, later);
        lemma_tally_full(all, n - m + 1, n);
        lemma_below_bound(x, later, c + 1);
    }
    assert forall|c: int, d: int| #![trigger top(c), top(d)] 0 <= c < d < k implies top(c) <= top(d) - size_of_symbol(t, later, d) by {
        lemma_packed_tops(t, later, c, d);
    }
    assert(radix_ready(t, later, s.0, tail, k, n - m + 1, top));
    lemma_radix_list(t, later, s.0, tail, k, n - m + 1);
    let st = radix_sort_lms_suffixes_32s_2k_run(t, (s.0, tail), n - m + 1, m - 1)->0;
    let z = y.subrange(0, 1) + st.1;
    assert forall|c: int| 0 <= c < k implies #[trigger] even(z, c) == even(y, c) by {
        if c > 0 {
            assert(z[2 * c] == st.1[2 * c - 1]);
            assert((2 * c - 1) % 2 == 1);
            assert(st.1[2 * c - 1] == tail[2 * c - 1]);
        }
    }
    assert forall|c: int| 0 <= c < k implies z[#[trigger] (2 * c + 1)] == below_of(x, later)(c) by {
        assert(even(st.1, c) == below_of(x, later)(c));
    }
    assert forall|j: int| 2 * k < j < y.len() implies #[trigger] z[j] == y[j] by {
        assert(st.1[j - 1] == tail[j - 1]);
    }
    if y.len() > 2 * k {
        assert((2 * k - 1) % 2 == 1);
        assert(st.1[2 * k - 1] == tail[2 * k - 1]);
    }
}

/// Gathering, counting and sorting by first symbols lists the later suffixes by first symbols.
pub proof fn lemma_radix_sorted(t: Seq<i32>, sa: Seq<i32>, k: int, len: nat)
    requires
        2 <= t.len() <= i32::MAX,
        t.len() <= sa.len() <= isize::MAX,
        symbols_below(t, k),
        2 * k <= len,
        1 <= k,
        lms_count(text32(t), 0) > 1,
    ensures
        ({
            let n = t.len() as int;
            let m = lms_count(text32(t), 0);
            let x = count_and_gather_lms_suffixes_32s_2k_run(text32(t), sa, n, len, 0, n);
            let f = x.unwrap().0[n - m] as int;
            let y = initialize_buckets_for_lms_suffixes_radix_sort_32s_2k_run(t, k, x.unwrap().1, f);
            let z = radix_sorted_2k(t, n, m, (x.unwrap().0, y.unwrap().0));
            &&& x is Some
            &&& x.unwrap().2 == n - 1 - m
            &&& first_lms(text32(t), f)
            &&& y is Some
            &&& z is Some
            &&& z.unwrap().0.len() == sa.len()
            &&& z.unwrap().1.len() == len
            &&& lists_base(t, all_later(text32(t), f), z.unwrap().0, m - 1)
            &&& listed_buckets(t, f, k, z.unwrap().1)
        }),
{
    let n = t.len() as int;
    let x = text32(t);
    let m = lms_count(x, 0);
    law_lms_few(x);
    lemma_all_counted(t, sa, k, len);
    let g = count_and_gather_lms_suffixes_32s_2k_run(x, sa, n, len, 0, n)->0;
    lemma_first_gathered(x, g.0, m);
    let f = g.0[n - m] as int;
    let later = all_later(x, f);
    lemma_bounded(t, k, count_and_gather_lms_suffixes_32s_2k_mode(), g.1, f);
    let y = initialize_buckets_for_lms_suffixes_radix_sort_32s_2k_run(t, k, g.1, f).unwrap().0;
    lemma_radix_packed(t, k, m, f, (g.0, y));
    let z = radix_sorted_2k(t, n, m, (g.0, y)).unwrap().1;
    assert forall|c: int| 0 <= c < k implies #[trigger] even(z, c) == count_below(t, c + 1, n) by {
        assert(even(z, c) == even(y, c));
        assert(y[2 * c] == count_below(t, c + 1, n));
    }
    assert forall|c: int| 0 <= c < k implies #[trigger] z[2 * c + 1] == below_of(x, later)(c) by {}
}

/// Spreading the list of later suffixes scatters them.
proof fn lemma_scattered_2k(t: Seq<i32>, sa: Seq<i32>, f: int, s: Seq<i32>, m: int, k: int, b: Seq<i32>)
    requires
        2 <= t.len() <= i32::MAX,
        t.len() <= s.len(),
        0 <= m <= t.len(),
        is_suffix_array(text32(t), sa),
        symbols_below(t, k),
        1 <= k <= i32::MAX,
        lists_base(t, all_later(text32(t), f), s, m),
        listed_buckets(t, f, k, b),
    ensures
        ({
            let p = place_lms_suffixes_interval_32s_2k_run(s, t.len() as int, k, m, b);
            &&& p is Some
            &&& p.unwrap().len() == s.len()
            &&& scattered(t, f, p->0, sa)
        }),
{
    let n = t.len() as int;
    let x = text32(t);
    let later = all_later(x, f);
    let below = below_of(x, later);
    let mode = PlaceMode { step: 2, sums: true, ends: 0, end_step: 2 };
    let ends = Seq::new(k as nat, |c: int| even(b, c));
    lemma_grouped(t, later, s, m, k);
    assert forall|c: int| 0 <= c < k implies #[trigger] ends[c] == count_below(t, c + 1, n) by {
        assert(even(b, c) == count_below(t, c + 1, n));
    }
    lemma_sums_are_ends(t, sa, k, ends);
    assert forall|c: int| #![trigger below(c)] 0 <= c < k - 1 implies crate::place::lms_count(mode, b, c) == Some(below(c + 1) - below(c)) by {
        lemma_below_grows(x, later, c, c + 1);
        lemma_below_bound(x, later, c);
        lemma_below_bound(x, later, c + 1);
        assert(b[2 * c + 1] == below(c));
        assert(b[2 * (c + 1) + 1] == below(c + 1));
    }
    assert(spreadable(t, sa, s, m, k, ends, below));
    assert forall|c: int| #![trigger ends[c]] 0 <= c < k - 1 implies holds_end(mode, b, c, ends[c]) by {}
    assert(tabled(mode, b, k, ends, below));
    law_spread(t, sa, s, m, k, ends, below, mode, b);
    lemma_spread_scatters(t, sa, f, s, m, placed(mode, b, s, n, m, k - 1)->0);
}

/// The partial order sorts substrings, with two buckets for each symbol.
proof fn lemma_partial_order_2k(t: Seq<i32>, sa: Seq<i32>, f: int, p: Seq<i32>, k: int, b: Seq<i32>)
    requires
        2 <= t.len() <= i32::MAX,
        t.len() <= p.len(),
        is_suffix_array(text32(t), sa),
        symbols_below(t, k),
        1 <= k,
        first_lms(text32(t), f),
        listed_buckets(t, f, k, b),
        scattered(t, f, p, sa),
    ensures
        ({
            let o = partial_order_32s_2k(t, t.len() as int, k, (p, packed_bounds(k, b)));
            &&& o is Some
            &&& o.unwrap().0.len() == p.len()
            &&& o.unwrap().1.len() == b.len()
            &&& crate::partial_induction::substrings_sorted(t, o.unwrap().0, lms_count(text32(t), 0))
        }),
{
    let n = t.len() as int;
    let bounds = packed_bounds(k, b);
    let starts = bounds.subrange(k, bounds.len() as int);
    let ends = bounds.subrange(0, k);
    assert forall|c: int| 0 <= c < k implies #[trigger] starts[c] == count_below(t, c, n) by {
        if c > 0 {
            assert(even(b, c - 1) == count_below(t, c, n));
        } else {
            crate::bounds::lemma_count_below_zero(t, n);
        }
    }
    assert forall|c: int| 0 <= c < k implies #[trigger] ends[c] == count_below(t, c + 1, n) by {
        assert(even(b, c) == count_below(t, c + 1, n));
    }
    lemma_sums_are_starts(t, sa, k, starts);
    lemma_sums_are_ends(t, sa, k, ends);
    let a = lemma_arranged(t, f, p, sa, k, starts, ends);
    lemma_scans_induce(t, f, p, a, k, starts, ends);
    let left = partial_left_32s_1k(t, n, (p, starts))->0;
    let right = partial_sorting_scan_right_to_left_32s_1k_run(t, (left.0, ends), 0, n)->0;
    lemma_packed(t, f, standing(p, n, f), a, right.0);
}

/// Whether `s` lists the leftmost suffixes of type S by their substrings, as `w` does, and notes
/// their names where some of them share one.
pub open spec fn name_listed(t: Seq<i32>, w: Seq<i32>, m: int, s: Seq<i32>, names: int, lead: bool) -> bool {
    &&& nameable(t, w, m)
    &&& s.len() == w.len()
    &&& names == name_at(text32(t), w, m, m - 1)
    &&& forall|j: int| 0 <= j < m ==> #[trigger] s[j] == w[j]
    &&& names < m ==> compactable(t, w, m, s, lead)
}

/// Naming with two buckets for each symbol names the substrings in their order.
proof fn lemma_named_2k(t: Seq<i32>, sa: Seq<i32>, k: int, b: Seq<i32>) -> (w: Seq<i32>)
    requires
        2 <= t.len() <= i32::MAX,
        t.len() <= sa.len() <= isize::MAX,
        symbols_below(t, k),
        1 <= k <= i32::MAX,
        2 * k == b.len(),
        lms_count(text32(t), 0) > 1,
    ensures
        named_2k(t, sa, t.len() as int, k, b) is Some,
        ({
            let r = named_2k(t, sa, t.len() as int, k, b)->0;
            &&& r.2 == lms_count(text32(t), 0)
            &&& r.1.len() == b.len()
            &&& r.0.len() == sa.len()
            &&& name_listed(t, w, r.2, r.0, r.3, true)
        }),
{
    let n = t.len() as int;
    let x = text32(t);
    let m = lms_count(x, 0);
    law_lms_few(x);
    law_suffix_array_exists(x);
    let order = choose|a: Seq<i32>| is_suffix_array(x, a);
    lemma_radix_sorted(t, sa, k, b.len());
    let g = count_and_gather_lms_suffixes_32s_2k_run(x, sa, n, b.len(), 0, n)->0;
    let f = g.0[n - m] as int;
    let y = initialize_buckets_for_lms_suffixes_radix_sort_32s_2k_run(t, k, g.1, f)->0;
    let z = radix_sorted_2k(t, n, m, (g.0, y.0))->0;
    lemma_scattered_2k(t, order, f, z.0, m - 1, k, z.1);
    let p = place_lms_suffixes_interval_32s_2k_run(z.0, n, k, m - 1, z.1)->0;
    lemma_partial_order_2k(t, order, f, p, k, z.1);
    let o = partial_order_32s_2k(t, n, k, (p, packed_bounds(k, z.1)))->0;
    assert(nameable(t, o.0, m));
    law_names(t, o.0, m);
    assert forall|i: int| 0 <= i < n implies 0 <= #[trigger] t[i] by {}
    let (s, names) = renumber_and_mark_distinct_1k_run(t, o.0, n, m, 1)->0;
    assert(name_listed(t, o.0, m, s, names, true));
    assert(named_2k(t, sa, n, k, b) == Some((s, o.1, m, names)));
    o.0
}

/// Counting alone counts all suffixes.
pub proof fn lemma_lms_counted(t: Seq<i32>, k: int, len: nat)
    requires
        1 <= t.len() <= i32::MAX,
        symbols_below(t, k),
        1 <= k,
        2 * k <= len,
    ensures
        ({
            let c = count_lms_suffixes_32s_2k_run(text32(t), t.len() as int, len);
            &&& c is Some
            &&& c.unwrap().1.len() == len
            &&& counted(t, count_lms_suffixes_32s_2k_mode(), k, c.unwrap().1)
        }),
{
    let x = text32(t);
    let n = t.len() as int;
    let mode = count_lms_suffixes_32s_2k_mode();
    assert forall|i: int| 0 <= i < x.len() implies 0 <= #[trigger] x[i] && 2 * x[i] + 2 <= len by {
        assert(0 <= t[i] < k);
    }
    law_counted_apart(x, len, 0);
    let c = count_lms_suffixes_32s_2k_run(x, n, len)->0;
    crate::kinds::law_counts_every_suffix(x, mode, (Seq::<i32>::empty(), zeros(len), 0isize, true), -1, n - 1);
    assert forall|slot: int| 0 <= slot < mode.lanes * k implies #[trigger] c.1[slot] == slot_count(x, mode, slot, 0, n) by {
        law_counted_apart(x, len, slot);
    }
}

/// Sorting by names sorts the leftmost suffixes of type S and counts all suffixes.
#[verifier::spinoff_prover]
pub proof fn lemma_names_sort(
    t: Seq<i32>,
    w: Seq<i32>,
    k: int,
    m: int,
    s: Seq<i32>,
    names: int,
    fs: int,
    b: Seq<i32>,
    ok: bool,
    y: SortState,
    lead: bool,
)
    requires
        name_listed(t, w, m, s, names, lead),
        symbols_below(t, k),
        1 <= k,
        2 * k <= b.len(),
        0 <= fs,
        t.len() + fs <= s.len() <= isize::MAX,
        t.len() + fs <= i32::MAX,
        names_sorted(t.len() as int, k, m, names, fs, true, (t, s, b), ok, y),
    ensures
        ok,
        y.0 == t,
        y.1.len() == s.len(),
        y.2.len() == b.len(),
        lms_sorted(t, y.1, m),
        counted(t, count_and_gather_lms_suffixes_32s_2k_mode(), k, y.2) || counted(t, count_lms_suffixes_32s_2k_mode(), k, y.2),
{
    let n = t.len() as int;
    let x = text32(t);
    law_lms_few(x);
    if names >= m {
        lemma_all_alone(t, w, m, s);
        lemma_lms_counted(t, k, b.len());
    } else {
        law_compacted(t, w, m, s, fs, lead);
        lemma_reduced_fits(t, w, m, fs, lead);
        let c = compact_lms_run(t, s, n, m, fs)->0;
        let r = choose|r: Seq<i32>| #[trigger] reduced_sorted(c.1, r, n, m, c.2 as int, fs) && computes(
            reconstruct_compacted_2k_run(c.0, r, n, k, m, fs, c.2 as int, b, 0, 1, 1, 1),
            ok,
            y,
        );
        law_restored_and_counted(t, w, m, s, fs, r, k, b, lead);
    }
}

/// A single leftmost suffix of type S is sorted.
pub proof fn lemma_single_sorted(t: Seq<i32>, g: Seq<i32>, s: Seq<i32>, m: int)
    requires
        1 <= t.len() <= i32::MAX,
        t.len() <= g.len(),
        0 <= m <= 1,
        crate::lengths::lists_all(text32(t), g, m),
        s == g.update(0, g[t.len() - 1]),
    ensures
        lms_sorted(t, s, m),
{
    let x = text32(t);
    let n = t.len() as int;
    let sel = gathers(x, false);
    assert forall|a: int| 0 <= a < m implies is_lms(x, #[trigger] s[a] as int) by {
        assert(sel(g[n - 1] as int));
    }
    assert forall|p: int| #[trigger] is_lms(x, p) implies among(s, 0, m, p as i32) by {
        assert(sel(p));
        let j = lemma_found(g, n - m, n, p as i32);
        assert(s[0] == g[j]);
        lemma_among(s, 0, m, 0);
    }
}

/// What induced sorting with two buckets for each symbol starts from.
pub open spec fn two_buckets(t: Seq<i32>, sa: Seq<i32>, k: int, fs: int) -> bool {
    &&& 2 <= t.len()
    &&& 0 <= fs
    &&& t.len() + fs <= sa.len() <= isize::MAX
    &&& t.len() + fs <= i32::MAX
    &&& symbols_below(t, k)
    &&& 1 <= k <= i32::MAX
    &&& layout(t.len() as int, k, fs) == 2
}

/// One leftmost suffix of type S at most.
#[verifier::spinoff_prover]
proof fn lemma_two_single(t: Seq<i32>, sa: Seq<i32>, k: int, fs: int, ok: bool, u: Seq<i32>, r: Seq<i32>)
    requires
        two_buckets(t, sa, k, fs),
        lms_count(text32(t), 0) <= 1,
        induced(t, sa, t.len() as int, k, fs, ok, u, r),
    ensures
        ok,
        u == t,
        is_suffix_array(text32(t), r.subrange(0, t.len() as int)),
{
    let n = t.len() as int;
    let x = text32(t);
    let b = zeros((2 * k) as nat);
    law_suffix_array_exists(x);
    let order = choose|a: Seq<i32>| is_suffix_array(x, a);
    law_lms_few(x);
    let m = lms_count(x, 0);
    lemma_all_counted(t, sa, k, b.len());
    let g = count_and_gather_lms_suffixes_32s_2k_run(x, sa, n, b.len(), 0, n)->0;
    let s = g.0.update(0, g.0[n - 1]);
    assert(named(t, sa, n, k, fs) == Some((s, g.1, m, m))) by {
        reveal(named);
    }
    lemma_single_sorted(t, g.0, s, m);
    let (done, y) = choose|done: bool, y: SortState|
        #[trigger] lms_ordered(n, k, fs, m, m, (t, s, g.1), done, y) && (if done {
            u == y.0 && computes(ordered(y.0, n, k, fs, m, (y.1, y.2)), ok, r)
        } else {
            !ok
        });
    assert(done && y == (t, s, g.1));
    assert(ordered(t, n, k, fs, m, (s, g.1)) == ordered_2k(t, n, k, m, (s, g.1))) by {
        reveal(ordered);
    }
    law_sorted_lms_suffice_2k(t, order, s, m, k, count_and_gather_lms_suffixes_32s_2k_mode(), g.1);
}

/// Several leftmost suffixes of type S.
#[verifier::spinoff_prover]
proof fn lemma_two_several(t: Seq<i32>, sa: Seq<i32>, k: int, fs: int, ok: bool, u: Seq<i32>, r: Seq<i32>)
    requires
        two_buckets(t, sa, k, fs),
        lms_count(text32(t), 0) > 1,
        induced(t, sa, t.len() as int, k, fs, ok, u, r),
    ensures
        ok,
        u == t,
        is_suffix_array(text32(t), r.subrange(0, t.len() as int)),
{
    let n = t.len() as int;
    let x = text32(t);
    let b = zeros((2 * k) as nat);
    law_suffix_array_exists(x);
    let order = choose|a: Seq<i32>| is_suffix_array(x, a);
    law_lms_few(x);
    let m = lms_count(x, 0);
    let w = lemma_named_2k(t, sa, k, b);
    let v = named_2k(t, sa, n, k, b)->0;
    assert(named(t, sa, n, k, fs) == Some(v)) by {
        reveal(named);
    }
    let (done, y) = choose|done: bool, y: SortState|
        #[trigger] lms_ordered(n, k, fs, m, v.3, (t, v.0, v.1), done, y) && (if done {
            u == y.0 && computes(ordered(y.0, n, k, fs, m, (y.1, y.2)), ok, r)
        } else {
            !ok
        });
    lemma_names_sort(t, w, k, m, v.0, v.3, fs, v.1, done, y, true);
    assert(ordered(t, n, k, fs, m, (y.1, y.2)) == ordered_2k(t, n, k, m, (y.1, y.2))) by {
        reveal(ordered);
    }
    if counted(t, count_and_gather_lms_suffixes_32s_2k_mode(), k, y.2) {
        law_sorted_lms_suffice_2k(t, order, y.1, m, k, count_and_gather_lms_suffixes_32s_2k_mode(), y.2);
    } else {
        law_sorted_lms_suffice_2k(t, order, y.1, m, k, count_lms_suffixes_32s_2k_mode(), y.2);
    }
}

/// Induced sorting sorts, with two buckets for each symbol: naming the LMS substrings, sorting
/// the LMS suffixes by their names, with the help of a sorted reduced text, and inducing the
/// order of all suffixes never fails, leaves the suffix array, and leaves the text as it was.
pub proof fn law_two_buckets_sort(t: Seq<i32>, sa: Seq<i32>, k: int, fs: int, ok: bool, u: Seq<i32>, r: Seq<i32>)
    requires
        two_buckets(t, sa, k, fs),
        induced(t, sa, t.len() as int, k, fs, ok, u, r),
    ensures
        ok,
        u == t,
        is_suffix_array(text32(t), r.subrange(0, t.len() as int)),
{
    if lms_count(text32(t), 0) <= 1 {
        lemma_two_single(t, sa, k, fs, ok, u, r);
    } else {
        lemma_two_several(t, sa, k, fs, ok, u, r);
    }
}

} // verus!
