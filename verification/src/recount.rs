//! What counting passes count: leftmost suffixes of type S by their first symbols, with or without
//! marks in the text.

use vstd::prelude::*;
use crate::bounds::lemma_closed_range;
use crate::compaction::marked_text;
use crate::gather::{lms_scan_run, lms_scan_step, lms_slot, symbol_before, text32, LmsMode};
use crate::kinds::{is_l, is_lms, law_type_step, slot_count};
use crate::lengths::tally;
use crate::marks::{bit, marked};
use crate::naming::settled;
use crate::placement::{among, lemma_found};
use crate::restoring::lemma_marked_types;
use crate::spreading::grouped;

verus! {

/// The mode without counters.
pub open spec fn uncounted(mode: LmsMode) -> LmsMode {
    LmsMode { gather: mode.gather, lanes: 0, compact: mode.compact, closed: mode.closed }
}

/// Whether every symbol of `x` has its counters among `len`.
pub open spec fn has_slots(x: Seq<int>, mode: LmsMode, len: int) -> bool {
    forall|i: int, f: bool, g: bool| 0 <= i < x.len() ==> 0 <= #[trigger] lms_slot(x[i], f, g, mode) < len
}

/// Counting does not change what is gathered, and counts every suffix in its slot.
pub proof fn lemma_counting(x: Seq<int>, mode: LmsMode, s: (Seq<i32>, Seq<i32>, isize, bool), lo: int, hi: int)
    requires
        x.len() <= i32::MAX,
        0 <= lo <= hi < x.len(),
        mode.lanes != 0,
        has_slots(x, mode, s.1.len() as int),
        forall|j: int| 0 <= j < s.1.len() ==> #[trigger] s.1[j] == 0,
        s.3 == is_l(x, hi),
        lms_scan_run(x, uncounted(mode), (s.0, Seq::<i32>::empty(), s.2, s.3), lo, hi) is Some,
    ensures
        ({
            let y = lms_scan_run(x, mode, s, lo, hi);
            let z = lms_scan_run(x, uncounted(mode), (s.0, Seq::<i32>::empty(), s.2, s.3), lo, hi)->0;
            &&& y is Some
            &&& y.unwrap().0 == z.0
            &&& y.unwrap().2 == z.2
            &&& y.unwrap().3 == z.3
            &&& z.3 == is_l(x, lo)
            &&& y.unwrap().1.len() == s.1.len()
            &&& forall|j: int| 0 <= j < s.1.len() ==> #[trigger] y.unwrap().1[j] == slot_count(x, mode, j, lo + 1, hi + 1)
                && 0 <= y.unwrap().1[j] <= hi - lo
        }),
    decreases hi - lo,
{
    if lo < hi {
        let w0 = lms_scan_run(x, uncounted(mode), (s.0, Seq::<i32>::empty(), s.2, s.3), lo + 1, hi);
        assert(w0 is Some);
        lemma_counting(x, mode, s, lo + 1, hi);
        let w = lms_scan_run(x, mode, s, lo + 1, hi)->0;
        law_type_step(x, lo);
        let g = x[lo] > x[lo + 1] - bit(w.3);
        assert(g == is_l(x, lo));
        let slot = lms_slot(x[lo + 1], w.3, g, mode);
        assert(0 <= slot < s.1.len());
        assert(w.1[slot] == slot_count(x, mode, slot, lo + 2, hi + 1));
        let y = lms_scan_run(x, mode, s, lo, hi)->0;
        assert(y.1 == w.1.update(slot, (w.1[slot] + 1) as i32));
        assert forall|j: int| 0 <= j < s.1.len() implies #[trigger] y.1[j] == slot_count(x, mode, j, lo + 1, hi + 1)
            && 0 <= y.1[j] <= hi - lo by {
            assert(w.1[j] == slot_count(x, mode, j, lo + 2, hi + 1));
        }
    }
}

/// The last step of a pass treats the first suffix of the text.
pub proof fn lemma_counting_first(x: Seq<int>, mode: LmsMode, s: (Seq<i32>, Seq<i32>, isize, bool), hi: int)
    requires
        1 <= x.len() <= i32::MAX,
        0 <= hi < x.len(),
        mode.gather,
        !mode.closed,
        mode.lanes != 0,
        has_slots(x, mode, s.1.len() as int),
        forall|j: int| 0 <= j < s.1.len() ==> #[trigger] s.1[j] == 0,
        s.3 == is_l(x, hi),
        x[0] >= 0,
        lms_scan_run(x, uncounted(mode), (s.0, Seq::<i32>::empty(), s.2, s.3), 0, hi) is Some,
        ({
            let z = lms_scan_run(x, uncounted(mode), (s.0, Seq::<i32>::empty(), s.2, s.3), 0, hi)->0;
            0 <= z.2 < z.0.len()
        }),
    ensures
        ({
            let y = lms_scan_run(x, mode, s, -1, hi);
            let z = lms_scan_run(x, uncounted(mode), (s.0, Seq::<i32>::empty(), s.2, s.3), 0, hi)->0;
            &&& y is Some
            &&& y.unwrap().0 == z.0.update(z.2 as int, 0)
            &&& y.unwrap().2 == z.2
            &&& y.unwrap().1.len() == s.1.len()
            &&& forall|j: int| 0 <= j < s.1.len() ==> #[trigger] y.unwrap().1[j] == slot_count(x, mode, j, 0, hi + 1)
        }),
{
    lemma_counting(x, mode, s, 0, hi);
    let w = lms_scan_run(x, mode, s, 0, hi)->0;
    let g = symbol_before(x, mode, -1) > x[0] - bit(w.3);
    assert(!g);
    let slot = lms_slot(x[0], w.3, g, mode);
    assert(0 <= slot < s.1.len());
    assert(w.1[slot] == slot_count(x, mode, slot, 1, hi + 1));
    let y = lms_scan_run(x, mode, s, -1, hi)->0;
    assert(y == lms_scan_step(x, mode)(w, -1)->0);
    assert(y.1 == w.1.update(slot, (w.1[slot] + 1) as i32));
    assert forall|j: int| 0 <= j < s.1.len() implies #[trigger] y.1[j] == slot_count(x, mode, j, 0, hi + 1) by {
        assert(w.1[j] == slot_count(x, mode, j, 1, hi + 1));
    }
}

/// Marks do not change what is counted.
pub proof fn lemma_marked_counts(t: Seq<i32>, w: Seq<i32>, m: int, u: Seq<i32>, plain: LmsMode, compact: LmsMode, slot: int, lo: int, lead: bool)
    requires
        1 <= t.len() <= i32::MAX,
        marked_text(t, w, m, u, lead),
        forall|j: int| 0 <= j < t.len() ==> 0 <= #[trigger] t[j],
        !plain.compact,
        compact.compact,
        plain.lanes == compact.lanes,
        0 <= lo <= t.len(),
    ensures
        slot_count(text32(u), compact, slot, lo, t.len() as int) == slot_count(text32(t), plain, slot, lo, t.len() as int),
    decreases t.len() - lo,
{
    let x = text32(t);
    let y = text32(u);
    if lo < t.len() {
        lemma_marked_counts(t, w, m, u, plain, compact, slot, lo + 1, lead);
        lemma_marked_types(t, w, m, u, lo, lead);
        if lo > 0 {
            lemma_marked_types(t, w, m, u, lo - 1, lead);
        }
        assert(u[lo] == marked(t[lo], is_lms(x, lo) && settled(x, w, m, lo, lead)));
        assert(0 <= t[lo]);
        assert(y[lo] == u[lo]);
    }
}

/// The leftmost suffixes of type S among `base` that start with `c`.
pub open spec fn with_symbol(x: Seq<int>, base: spec_fn(int) -> bool, c: int) -> spec_fn(int) -> bool {
    |p: int| base(p) && x[p] == c
}

/// The leftmost suffixes of type S among `base` that start with a symbol below `c`.
pub open spec fn with_smaller(x: Seq<int>, base: spec_fn(int) -> bool, c: int) -> spec_fn(int) -> bool {
    |p: int| base(p) && x[p] < c
}

/// How many of `base` start with a symbol below another.
pub open spec fn below_of(x: Seq<int>, base: spec_fn(int) -> bool) -> spec_fn(int) -> int {
    |c: int| tally(with_smaller(x, base, c), 0, x.len() as int)
}

/// All leftmost suffixes of type S.
pub open spec fn every_lms(x: Seq<int>) -> spec_fn(int) -> bool {
    |p: int| is_lms(x, p)
}

/// Steps of the counts below.
pub proof fn lemma_below_step(x: Seq<int>, base: spec_fn(int) -> bool, c: int, lo: int)
    requires
        0 <= lo <= x.len(),
    ensures
        tally(with_smaller(x, base, c + 1), lo, x.len() as int) - tally(with_smaller(x, base, c), lo, x.len() as int) == tally(
            with_symbol(x, base, c),
            lo,
            x.len() as int,
        ),
    decreases x.len() - lo,
{
    if lo < x.len() {
        lemma_below_step(x, base, c, lo + 1);
    }
}

/// The counter of leftmost suffixes of type S.
pub proof fn lemma_lms_slot_count(x: Seq<int>, mode: LmsMode, c: int, lo: int)
    requires
        0 <= lo <= x.len(),
        !mode.compact,
        mode.lanes == 2 || mode.lanes == 4,
    ensures
        slot_count(x, mode, mode.lanes * c + 1, lo, x.len() as int) == tally(with_symbol(x, every_lms(x), c), lo, x.len() as int),
    decreases x.len() - lo,
{
    if lo < x.len() {
        lemma_lms_slot_count(x, mode, c, lo + 1);
        let sel = with_symbol(x, every_lms(x), c);
        let f = is_l(x, lo);
        let g = lo > 0 && is_l(x, lo - 1);
        assert((lms_slot(x[lo], f, g, mode) == mode.lanes * c + 1) == sel(lo)) by {
            if mode.lanes == 2 {
                assert(lms_slot(x[lo], f, g, mode) == 2 * x[lo] + bit(g && !f));
            } else {
                assert(lms_slot(x[lo], f, g, mode) == 4 * x[lo] + 2 * bit(f) + bit(g));
            }
        }
    }
}

/// The selected positions as a set.
pub open spec fn picked(sel: spec_fn(int) -> bool, lo: int, hi: int) -> Set<int> {
    Set::new(|p: int| lo <= p < hi && sel(p))
}

/// Tallies count positions.
pub proof fn lemma_picked(sel: spec_fn(int) -> bool, lo: int, hi: int)
    ensures
        picked(sel, lo, hi).finite(),
        picked(sel, lo, hi).len() == tally(sel, lo, hi),
    decreases hi - lo,
{
    if lo < hi {
        lemma_picked(sel, lo + 1, hi);
        if sel(lo) {
            assert(picked(sel, lo, hi) =~= picked(sel, lo + 1, hi).insert(lo));
        } else {
            assert(picked(sel, lo, hi) =~= picked(sel, lo + 1, hi));
        }
    } else {
        assert(picked(sel, lo, hi) =~= Set::empty());
    }
}

/// Whether the first `m` entries of `s` list `base` by first symbols, each once.
pub open spec fn lists_base(t: Seq<i32>, base: spec_fn(int) -> bool, s: Seq<i32>, m: int) -> bool {
    &&& 0 <= m <= s.len()
    &&& forall|a: int| 0 <= a < m ==> 0 <= #[trigger] s[a] < t.len() && base(s[a] as int)
    &&& forall|a: int, b: int| 0 <= a < b < m ==> #[trigger] s[a] != #[trigger] s[b]
    &&& forall|a: int, b: int| 0 <= a < b < m ==> t[#[trigger] s[a] as int] <= t[#[trigger] s[b] as int]
    &&& forall|p: int| 0 <= p < t.len() && #[trigger] base(p) ==> among(s, 0, m, p as i32)
}

/// A list by first symbols is grouped.
pub proof fn lemma_grouped(t: Seq<i32>, base: spec_fn(int) -> bool, s: Seq<i32>, m: int, k: int)
    requires
        t.len() <= i32::MAX,
        lists_base(t, base, s, m),
        forall|p: int| #[trigger] base(p) ==> is_lms(text32(t), p),
    ensures
        grouped(t, s, m, k, below_of(text32(t), base)),
{
    let x = text32(t);
    let below = below_of(x, base);
    assert forall|a: int| 0 <= a < m implies is_lms(x, #[trigger] s[a] as int) by {
        assert(base(s[a] as int));
    }
    assert forall|c: int| 0 <= c <= k implies 0 <= #[trigger] below(c) <= m by {
        lemma_prefix_size(t, base, s, m, c);
    }
    assert forall|a: int, c: int| #![trigger s[a], below(c)] 0 <= a < m && 0 <= c <= k implies (t[s[a] as int] < c) == (a < below(
        c,
    )) by {
        lemma_prefix_size(t, base, s, m, c);
    }
}

/// The entries with smaller symbols come first.
proof fn lemma_prefix_size(t: Seq<i32>, base: spec_fn(int) -> bool, s: Seq<i32>, m: int, c: int)
    requires
        t.len() <= i32::MAX,
        lists_base(t, base, s, m),
    ensures
        ({
            let q = tally(with_smaller(text32(t), base, c), 0, t.len() as int);
            0 <= q <= m && forall|a: int| 0 <= a < m ==> (t[#[trigger] s[a] as int] < c) == (a < q)
        }),
{
    let x = text32(t);
    let n = t.len() as int;
    let sel = with_smaller(x, base, c);
    let slots = Set::new(|a: int| 0 <= a < m && t[s[a] as int] < c);
    let g = |a: int| s[a] as int;
    assert forall|i: int, j: int| 0 <= i < j && #[trigger] slots.contains(j) implies #[trigger] slots.contains(i) by {
        assert(t[s[i] as int] <= t[s[j] as int]);
    }
    lemma_closed_range(slots, m);
    lemma_picked(sel, 0, n);
    assert(vstd::relations::injective_on(g, slots)) by {
        assert forall|a: int, b: int| slots.contains(a) && slots.contains(b) && #[trigger] g(a) == #[trigger] g(b) implies a == b by {
            if a < b {
                assert(s[a] != s[b]);
            } else if b < a {
                assert(s[b] != s[a]);
            }
        }
    }
    assert(slots.map(g) =~= picked(sel, 0, n)) by {
        assert forall|p: int| picked(sel, 0, n).contains(p) implies slots.map(g).contains(p) by {
            assert(base(p));
            let a = lemma_found(s, 0, m, p as i32);
            assert(slots.contains(a) && g(a) == p);
        }
        assert forall|p: int| slots.map(g).contains(p) implies picked(sel, 0, n).contains(p) by {
            let a = choose|a: int| slots.contains(a) && g(a) == p;
            assert(0 <= s[a] < n && base(s[a] as int));
        }
    }
    vstd::set_lib::lemma_map_size(slots, picked(sel, 0, n), g);
    let q = slots.len() as int;
    vstd::set_lib::lemma_int_range(0, m);
    assert(slots.subset_of(vstd::set_lib::set_int_range(0, m)));
    vstd::set_lib::lemma_len_subset(slots, vstd::set_lib::set_int_range(0, m));
    assert forall|a: int| 0 <= a < m implies (t[#[trigger] s[a] as int] < c) == (a < q) by {
        assert(slots.contains(a) == (a < q));
    }
}

/// What a list of all that is selected counts is what there is.
pub proof fn lemma_list_tally(s: Seq<i32>, from: int, to: int, n: int, sel: spec_fn(int) -> bool)
    requires
        n <= i32::MAX,
        forall|j: int| from <= j < to ==> 0 <= #[trigger] s[j] < n,
        forall|i: int, j: int| from <= i < j < to ==> #[trigger] s[i] != #[trigger] s[j],
        forall|p: int| 0 <= p < n && #[trigger] sel(p) ==> among(s, from, to, p as i32),
    ensures
        tally(|j: int| sel(s[j] as int), from, to) == tally(sel, 0, n),
{
    let at = |j: int| sel(s[j] as int);
    let g = |j: int| s[j] as int;
    lemma_picked(at, from, to);
    lemma_picked(sel, 0, n);
    let slots = picked(at, from, to);
    assert(vstd::relations::injective_on(g, slots)) by {
        assert forall|a: int, b: int| slots.contains(a) && slots.contains(b) && #[trigger] g(a) == #[trigger] g(b) implies a == b by {
            if a < b {
                assert(s[a] != s[b]);
            } else if b < a {
                assert(s[b] != s[a]);
            }
        }
    }
    assert(slots.map(g) =~= picked(sel, 0, n)) by {
        assert forall|p: int| picked(sel, 0, n).contains(p) implies slots.map(g).contains(p) by {
            let a = lemma_found(s, from, to, p as i32);
            assert(slots.contains(a) && g(a) == p);
        }
        assert forall|p: int| slots.map(g).contains(p) implies picked(sel, 0, n).contains(p) by {
            let a = choose|a: int| slots.contains(a) && g(a) == p;
            assert(0 <= s[a] < n);
        }
    }
    vstd::set_lib::lemma_map_size(slots, picked(sel, 0, n), g);
}

/// A narrower selection counts less.
pub proof fn lemma_tally_less(a: spec_fn(int) -> bool, b: spec_fn(int) -> bool, lo: int, hi: int)
    requires
        forall|p: int| lo <= p < hi && #[trigger] a(p) ==> b(p),
    ensures
        tally(a, lo, hi) <= tally(b, lo, hi),
    decreases hi - lo,
{
    if lo < hi {
        lemma_tally_less(a, b, lo + 1, hi);
    }
}

/// Where all is selected, everything counts.
pub proof fn lemma_tally_full(a: spec_fn(int) -> bool, lo: int, hi: int)
    requires
        lo <= hi,
        forall|p: int| lo <= p < hi ==> #[trigger] a(p),
    ensures
        tally(a, lo, hi) == hi - lo,
    decreases hi - lo,
{
    if lo < hi {
        lemma_tally_full(a, lo + 1, hi);
        assert(a(lo));
    }
}

/// A tally of one more position.
pub proof fn lemma_tally_last(sel: spec_fn(int) -> bool, lo: int, hi: int)
    requires
        lo <= hi,
    ensures
        tally(sel, lo, hi + 1) == tally(sel, lo, hi) + bit(sel(hi)),
    decreases hi - lo,
{
    if lo < hi {
        lemma_tally_last(sel, lo + 1, hi);
    } else {
        assert(tally(sel, lo + 1, hi + 1) == 0);
        assert(tally(sel, lo, hi) == 0);
    }
}

} // verus!
