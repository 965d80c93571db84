//! Where the sorting by first symbols leaves the leftmost suffixes of type S among the slots that
//! the scan to the right visits.

use vstd::prelude::*;
use crate::byte_lanes::{all_left, all_right};
use crate::fields::{lemma_field, lemma_field_sizes, lemma_sublist_border};
use crate::gather::text32;
use crate::induction::symbols_below;
use crate::kinds::{is_l, is_lms};
use crate::lane_right::{low_start, lows};
use crate::lanes::{
    at, fielded, in_left, lemma_at, lemma_left_order, lemma_place, lemma_start, limit, place_of, start, width, Field,
};
use crate::lengths::tally;
use crate::listing::{
    all_later, even, lemma_below_bound, lemma_below_grows, radix_ready, segmented, size_of_symbol,
};
use crate::marks::bit;
use crate::partial_induction::{first_lms, later_lms, lms_count};
use crate::placement::{among, lemma_found};
use crate::recount::{below_of, every_lms, lemma_below_step, lemma_tally_less, with_smaller, with_symbol};
use crate::substrings::{class_of, lemma_keys, met_less, slots_differ};

verus! {

/// The slot of a later suffix among those of its symbol; the first leftmost suffix of type S
/// stands in front.
pub open spec fn segment_slot(t: Seq<i32>, f: int, top: spec_fn(int) -> int, cur: Seq<i32>) -> spec_fn(int) -> int {
    |v: int|
        if v == f {
            -1
        } else {
            choose|j: int|
                top(t[v] as int) - size_of_symbol(t, all_later(text32(t), f), t[v] as int) <= j < top(t[v] as int) && #[trigger] cur[j]
                    == v
        }
}

/// A later suffix stands in its slot.
pub proof fn lemma_segment_slot(t: Seq<i32>, f: int, k: int, top: spec_fn(int) -> int, cur: Seq<i32>, v: int)
    requires
        t.len() <= i32::MAX,
        segmented(t, all_later(text32(t), f), k, top, cur),
        later_lms(text32(t), f, v),
    ensures
        ({
            let j = segment_slot(t, f, top, cur)(v);
            &&& top(t[v] as int) - size_of_symbol(t, all_later(text32(t), f), t[v] as int) <= j < top(t[v] as int)
            &&& cur[j] == v
        }),
{
    let base = all_later(text32(t), f);
    assert(base(v));
    let j = lemma_found(cur, top(t[v] as int) - size_of_symbol(t, base, t[v] as int), top(t[v] as int), v as i32);
    assert(cur[j] == v);
}

/// Different suffixes stand in different slots.
pub proof fn lemma_segment_slots_differ(t: Seq<i32>, f: int, k: int, top: spec_fn(int) -> int, cur: Seq<i32>)
    requires
        t.len() <= i32::MAX,
        first_lms(text32(t), f),
        symbols_below(t, k),
        segmented(t, all_later(text32(t), f), k, top, cur),
        forall|c: int| 0 <= c < k ==> size_of_symbol(t, all_later(text32(t), f), c) <= #[trigger] top(c),
    ensures
        slots_differ(text32(t), segment_slot(t, f, top, cur)),
{
    let x = text32(t);
    let slot = segment_slot(t, f, top, cur);
    assert forall|u: int, v: int| #![trigger slot(u), slot(v)] is_lms(x, u) && is_lms(x, v) && u != v implies slot(u) != slot(v) by {
        if u != f {
            assert(later_lms(x, f, u));
            lemma_segment_slot(t, f, k, top, cur, u);
            assert(0 <= t[u] < k);
            assert(size_of_symbol(t, all_later(x, f), t[u] as int) <= top(t[u] as int));
        }
        if v != f {
            assert(later_lms(x, f, v));
            lemma_segment_slot(t, f, k, top, cur, v);
            assert(0 <= t[v] < k);
            assert(size_of_symbol(t, all_later(x, f), t[v] as int) <= top(t[v] as int));
        }
    }
}

/// The suffixes that come before the leftmost ones of type S with symbol `c`.
spec fn before_lms(x: Seq<int>, f: int, c: int) -> spec_fn(int) -> bool {
    |v: int| in_left(x, f, v) && (x[v] < c || x[v] == c && is_l(x, v))
}

/// How many come before.
proof fn lemma_before_count(t: Seq<i32>, f: int, c: int, lo: int)
    requires
        0 <= lo <= t.len(),
        0 <= f,
    ensures
        ({
            let x = text32(t);
            let n = t.len() as int;
            tally(before_lms(x, f, c), lo, n) == tally(with_smaller(x, all_left(x, f), c + 1), lo, n) - tally(
                with_symbol(x, all_later(x, f), c),
                lo,
                n,
            )
        }),
    decreases t.len() - lo,
{
    let x = text32(t);
    if lo < t.len() {
        lemma_before_count(t, f, c, lo + 1);
        let a = before_lms(x, f, c);
        let b = with_smaller(x, all_left(x, f), c + 1);
        let d = with_symbol(x, all_later(x, f), c);
        assert(bit(a(lo)) == bit(b(lo)) - bit(d(lo)));
    }
}

/// Where the leftmost suffixes of type S begin among the slots of a symbol.
pub proof fn lemma_lms_border(t: Seq<i32>, g: Field, c: int, y: int)
    requires
        g.x == text32(t),
        fielded(g),
        0 <= y < width(g),
    ensures
        ({
            let v = at(g, y);
            let e = below_of(g.x, all_left(g.x, g.f))(c + 1) - size_of_symbol(t, all_later(g.x, g.f), c);
            (g.x[v] < c || g.x[v] == c && is_l(g.x, v)) == (y < e)
        }),
{
    let x = g.x;
    let n = x.len() as int;
    let sel = before_lms(x, g.f, c);
    assert(is_lms(x, g.f));
    lemma_before_count(t, g.f, c, 0);
    assert forall|i: int, j: int| 0 <= i < j < g.left.len() && sel(#[trigger] g.left[j] as int) implies sel(#[trigger] g.left[i] as int) by {
        crate::lanes::lemma_area_order(g, i, j);
        assert(in_left(x, g.f, g.left[i] as int));
    }
    assert forall|i: int, j: int| 0 <= i < j < g.left.len() implies #[trigger] g.left[i] != #[trigger] g.left[j] by {
        crate::substrings::lemma_met_irreflexive(x, g.f, g.slot, g.left[i] as int);
        assert(met_less(x, g.f, g.slot, g.left[i] as int, g.left[j] as int));
    }
    assert forall|j: int| 0 <= j < g.left.len() implies 0 <= #[trigger] g.left[j] < n by {
        assert(in_left(x, g.f, g.left[j] as int));
    }
    assert forall|p: int| 0 <= p < n && #[trigger] sel(p) implies among(g.left, 0, g.left.len() as int, p as i32) by {
        assert(in_left(x, g.f, p));
    }
    lemma_sublist_border(x, sel, g.left);
    assert(in_left(x, g.f, g.left[y] as int));
    assert(sel(g.left[y] as int) == (y < tally(sel, 0, n)));
}

/// The slots of the leftmost suffixes of type S are those where the sorting left them.
proof fn lemma_segment_agrees(t: Seq<i32>, g: Field, top: spec_fn(int) -> int, cur: Seq<i32>, c: int, y: int)
    requires
        g.x == text32(t),
        t.len() <= i32::MAX,
        fielded(g),
        symbols_below(t, g.k),
        segmented(t, all_later(g.x, g.f), g.k, top, cur),
        g.slot == segment_slot(t, g.f, top, cur),
        forall|d: int| #[trigger] start(g, d, true) == below_of(g.x, all_left(g.x, g.f))(d),
        top(c) == below_of(g.x, all_left(g.x, g.f))(c + 1),
        0 <= c < g.k,
        0 <= top(c) - size_of_symbol(t, all_later(g.x, g.f), c) <= y < top(c) <= width(g),
    ensures
        at(g, y) == cur[y],
    decreases y,
{
    let x = g.x;
    let f = g.f;
    let lo = top(c) - size_of_symbol(t, all_later(x, f), c);
    let v = cur[y] as int;
    assert(0 <= cur[y] < t.len() && all_later(x, f)(cur[y] as int) && t[cur[y] as int] == c);
    assert(later_lms(x, f, v));
    assert(in_left(x, f, v));
    lemma_place(g, v);
    let z = place_of(g, v);
    lemma_lms_border(t, g, c, z);
    lemma_start(g, c + 1, z);
    assert(start(g, c + 1, true) == top(c));
    assert(lo <= z < top(c));
    if z < y {
        lemma_segment_agrees(t, g, top, cur, c, z);
        assert(top(c) == top(c) && cur[z] != cur[y]);
    } else if y < z {
        lemma_at(g, y);
        lemma_lms_border(t, g, c, y);
        lemma_start(g, c + 1, y);
        let u = at(g, y);
        assert(x[u] == c && !is_l(x, u));
        assert(later_lms(x, f, u));
        lemma_segment_slot(t, f, g.k, top, cur, u);
        lemma_segment_slot(t, f, g.k, top, cur, v);
        let j = (g.slot)(u);
        let i = (g.slot)(v);
        assert(cur[j] == u && cur[i] == v);
        if i < y {
            assert(top(c) == top(c) && cur[i] != cur[y]);
        } else if y < i {
            assert(top(c) == top(c) && cur[y] != cur[i]);
        }
        assert(i == y);
        if j < y {
            lemma_segment_agrees(t, g, top, cur, c, j);
            lemma_at(g, j);
        }
        assert(y < j);
        lemma_keys(x, f, v, u);
        assert(class_of(x, f, v) == 3 && class_of(x, f, u) == 3);
        assert(met_less(x, f, g.slot, v, u));
        assert(in_left(x, f, u));
        lemma_left_order(g, v, u);
    }
}

/// The leftmost suffixes of type S stand in their slots.
pub proof fn lemma_segments_in_place(t: Seq<i32>, g: Field, top: spec_fn(int) -> int, cur: Seq<i32>)
    requires
        g.x == text32(t),
        t.len() <= i32::MAX,
        fielded(g),
        symbols_below(t, g.k),
        segmented(t, all_later(g.x, g.f), g.k, top, cur),
        g.slot == segment_slot(t, g.f, top, cur),
        forall|d: int| #[trigger] start(g, d, true) == below_of(g.x, all_left(g.x, g.f))(d),
        forall|c: int| 0 <= c < g.k ==> #[trigger] top(c) == below_of(g.x, all_left(g.x, g.f))(c + 1),
        forall|c: int| 0 <= c < g.k ==> size_of_symbol(t, all_later(g.x, g.f), c) <= #[trigger] top(c) <= width(g),
    ensures
        forall|y: int| 0 <= y < width(g) && is_lms(g.x, #[trigger] at(g, y)) ==> cur[y] == at(g, y),
{
    let x = g.x;
    assert forall|y: int| 0 <= y < width(g) && is_lms(x, #[trigger] at(g, y)) implies cur[y] == at(g, y) by {
        let u = at(g, y);
        lemma_at(g, y);
        let c = x[u];
        assert(0 <= t[u] < g.k);
        lemma_lms_border(t, g, c, y);
        lemma_start(g, c + 1, y);
        assert(start(g, c + 1, true) == below_of(x, all_left(x, g.f))(c + 1));
        assert(size_of_symbol(t, all_later(x, g.f), c) <= top(c) <= width(g));
        lemma_segment_agrees(t, g, top, cur, c, y);
    }
}

/// Where the slots of each symbol end among those that the scan to the right visits.
pub open spec fn left_tops(x: Seq<int>, f: int) -> spec_fn(int) -> int {
    |c: int| below_of(x, all_left(x, f))(c + 1)
}

/// The later suffixes of a symbol are among those that the scan to the right visits.
pub proof fn lemma_left_size(t: Seq<i32>, f: int, c: int)
    requires
        0 <= f,
    ensures
        ({
            let x = text32(t);
            let below = below_of(x, all_left(x, f));
            0 <= size_of_symbol(t, all_later(x, f), c) <= below(c + 1) - below(c)
        }),
{
    let x = text32(t);
    let n = t.len() as int;
    let a = with_symbol(x, all_later(x, f), c);
    let b = with_symbol(x, all_left(x, f), c);
    lemma_below_step(x, all_left(x, f), c, 0);
    assert forall|p: int| 0 <= p < n && #[trigger] a(p) implies b(p) by {}
    lemma_tally_less(a, b, 0, n);
    crate::lengths::lemma_tally_bound(a, 0, n);
}

/// How many suffixes the scan to the right visits.
pub proof fn lemma_left_width(x: Seq<int>, f: int, k: int)
    requires
        2 <= x.len() <= i32::MAX,
        first_lms(x, f),
        0 <= k,
        forall|i: int| 0 <= i < x.len() ==> 0 <= #[trigger] x[i] < k,
    ensures
        below_of(x, all_left(x, f))(k) + lms_count(x, 0) < x.len(),
{
    let (g, low) = lemma_field(x, f, |v: int| v, k, false);
    lemma_field_sizes(g, low);
}

/// The gathered leftmost suffixes of type S can be sorted by first symbols into the slots that the
/// scan to the right visits.
pub proof fn lemma_left_radix(t: Seq<i32>, k: int, f: int, m: int, s: Seq<i32>, b: Seq<i32>)
    requires
        2 <= t.len() <= i32::MAX,
        t.len() <= s.len(),
        symbols_below(t, k),
        1 <= k,
        2 * k <= b.len() + 1,
        first_lms(text32(t), f),
        1 <= m == lms_count(text32(t), 0),
        forall|j: int| t.len() - m < j < t.len() ==> 0 <= #[trigger] s[j] < t.len() && all_later(text32(t), f)(s[j] as int),
        forall|i: int, j: int| t.len() - m < i < j < t.len() ==> #[trigger] s[i] != #[trigger] s[j],
        forall|p: int| 0 <= p < t.len() && #[trigger] all_later(text32(t), f)(p) ==> among(
            s,
            t.len() - m + 1,
            t.len() as int,
            p as i32,
        ),
        forall|c: int| 0 <= c < k ==> #[trigger] even(b, c) == left_tops(text32(t), f)(c),
    ensures
        radix_ready(t, all_later(text32(t), f), s, b, k, t.len() - m + 1, left_tops(text32(t), f)),
{
    let x = text32(t);
    let n = t.len() as int;
    let later = all_later(x, f);
    let top = left_tops(x, f);
    assert(is_lms(x, f));
    assert forall|i: int| 0 <= i < x.len() implies 0 <= #[trigger] x[i] < k by {
        assert(0 <= t[i] < k);
    }
    assert forall|p: int| 0 <= p < x.len() implies 0 <= #[trigger] x[p] by {
        assert(0 <= x[p] < k);
    }
    lemma_left_width(x, f, k);
    assert forall|c: int| 0 <= c < k implies size_of_symbol(t, later, c) <= #[trigger] top(c) <= n - m + 1 by {
        lemma_left_size(t, f, c);
        lemma_below_bound(x, all_left(x, f), c);
        lemma_below_grows(x, all_left(x, f), c + 1, k);
    }
    assert forall|c: int, d: int| #![trigger top(c), top(d)] 0 <= c < d < k implies top(c) <= top(d) - size_of_symbol(t, later, d) by {
        lemma_left_size(t, f, d);
        lemma_below_grows(x, all_left(x, f), c + 1, d);
    }
    crate::lengths::law_lms_few(x);
}

/// The field on which the scans over the substrings work, after the sorting by first symbols.
#[verifier::spinoff_prover]
pub proof fn lemma_laid_field(t: Seq<i32>, k: int, f: int, cur: Seq<i32>, exact: bool) -> (r: (Field, Seq<i32>))
    requires
        2 <= t.len() <= i32::MAX,
        symbols_below(t, k),
        1 <= k,
        first_lms(text32(t), f),
        segmented(t, all_later(text32(t), f), k, left_tops(text32(t), f), cur),
    ensures
        ({
            let x = text32(t);
            let (g, low) = r;
            &&& fielded(g)
            &&& g.x == x
            &&& g.f == f
            &&& g.k == k
            &&& g.exact == exact
            &&& width(g) == below_of(x, all_left(x, f))(k)
            &&& g.right.len() == below_of(x, all_right(x, f))(k)
            &&& low.len() == lms_count(x, 0)
            &&& limit(g) == t.len() - f
            &&& lows(g, low)
            &&& forall|c: int| #[trigger] start(g, c, true) == below_of(x, all_left(x, f))(c)
            &&& forall|c: int| #[trigger] start(g, c, false) == width(g) + 1 + below_of(x, all_right(x, f))(c)
            &&& forall|c: int| #[trigger] low_start(g, low, c) == below_of(x, every_lms(x))(c)
            &&& forall|y: int| 0 <= y < width(g) && is_lms(x, #[trigger] at(g, y)) ==> cur[y] == at(g, y)
        }),
{
    let x = text32(t);
    let top = left_tops(x, f);
    assert(is_lms(x, f));
    assert forall|i: int| 0 <= i < x.len() implies 0 <= #[trigger] x[i] < k by {
        assert(0 <= t[i] < k);
    }
    assert forall|p: int| 0 <= p < x.len() implies 0 <= #[trigger] x[p] by {
        assert(0 <= x[p] < k);
    }
    assert forall|c: int| 0 <= c < k implies size_of_symbol(t, all_later(x, f), c) <= #[trigger] top(c) by {
        lemma_left_size(t, f, c);
        lemma_below_bound(x, all_left(x, f), c);
    }
    lemma_segment_slots_differ(t, f, k, top, cur);
    let (g, low) = lemma_field(x, f, segment_slot(t, f, top, cur), k, exact);
    lemma_field_sizes(g, low);
    assert forall|c: int| 0 <= c < g.k implies size_of_symbol(t, all_later(g.x, g.f), c) <= #[trigger] top(c) <= width(g) by {
        lemma_below_grows(x, all_left(x, f), c + 1, k);
    }
    lemma_segments_in_place(t, g, top, cur);
    (g, low)
}

} // verus!
