//! Setting up a field for the partial scans of lanes: its lists, and where the leftmost suffixes of
//! type S stand.

use vstd::prelude::*;
use crate::bounds::lemma_closed_range;
use crate::byte_lanes::{all_left, all_right};
use crate::kinds::{is_lms, law_last_type};
use crate::lane_right::lows;
use crate::lanes::{at, fielded, in_left, in_right, limit, start, width, Field};
use crate::lengths::tally;
use crate::marks::bit;
use crate::partial_induction::{first_lms, lms_count};
use crate::placement::{among, lemma_among, lemma_found};
use crate::recount::{
    below_of, every_lms, lemma_list_tally, lemma_picked, lemma_tally_full, lemma_tally_less, picked,
    with_smaller,
};
use crate::substrings::{
    induced_less, lemma_induced_irreflexive, lemma_induced_total, lemma_induced_transitive,
    lemma_met_irreflexive, lemma_met_total, lemma_met_transitive, met_less, slots_differ,
};

verus! {

/// Whether `less` is a strict order that is total on `sel`.
pub open spec fn orders(sel: spec_fn(int) -> bool, less: spec_fn(int, int) -> bool) -> bool {
    &&& forall|u: int| !#[trigger] less(u, u)
    &&& forall|u: int, v: int, w: int| #[trigger] less(u, v) && #[trigger] less(v, w) ==> less(u, w)
    &&& forall|u: int, v: int| #![trigger less(u, v)] sel(u) && sel(v) && u != v ==> less(u, v) || less(v, u)
}

/// Whether `l` lists the positions below `k` that `sel` selects, in their order.
pub open spec fn lists_in_order(sel: spec_fn(int) -> bool, less: spec_fn(int, int) -> bool, l: Seq<i32>, k: int) -> bool {
    &&& forall|j: int| 0 <= j < l.len() ==> 0 <= #[trigger] l[j] < k && sel(l[j] as int)
    &&& forall|i: int, j: int| 0 <= i < j < l.len() ==> less(#[trigger] l[i] as int, #[trigger] l[j] as int)
    &&& forall|p: int| 0 <= p < k && #[trigger] sel(p) ==> among(l, 0, l.len() as int, p as i32)
}

/// Where a position goes in a list.
proof fn lemma_list_point(sel: spec_fn(int) -> bool, less: spec_fn(int, int) -> bool, l: Seq<i32>, k: int, hi: int) -> (j: int)
    requires
        orders(sel, less),
        lists_in_order(sel, less, l, k),
        sel(k),
        0 <= hi <= l.len(),
        forall|i: int| hi <= i < l.len() ==> less(k, #[trigger] l[i] as int),
    ensures
        0 <= j <= l.len(),
        forall|i: int| 0 <= i < j ==> less(#[trigger] l[i] as int, k),
        forall|i: int| j <= i < l.len() ==> less(k, #[trigger] l[i] as int),
    decreases hi,
{
    if hi == 0 {
        0
    } else {
        let v = l[hi - 1] as int;
        assert(0 <= l[hi - 1] < k && sel(l[hi - 1] as int));
        if less(k, v) {
            lemma_list_point(sel, less, l, k, hi - 1)
        } else {
            assert(less(v, k));
            assert forall|i: int| 0 <= i < hi implies less(#[trigger] l[i] as int, k) by {
                if i < hi - 1 {
                    assert(less(l[i] as int, l[hi - 1] as int));
                }
            }
            hi
        }
    }
}

/// Positions can be listed in an order.
pub proof fn lemma_listable(sel: spec_fn(int) -> bool, less: spec_fn(int, int) -> bool, k: int) -> (l: Seq<i32>)
    requires
        orders(sel, less),
        0 <= k <= i32::MAX,
    ensures
        lists_in_order(sel, less, l, k),
    decreases k,
{
    if k == 0 {
        Seq::empty()
    } else {
        let l = lemma_listable(sel, less, k - 1);
        if sel(k - 1) {
            let v = k - 1;
            let j = lemma_list_point(sel, less, l, v, l.len() as int);
            let r = l.insert(j, v as i32);
            assert forall|i: int| 0 <= i < r.len() implies 0 <= #[trigger] r[i] < k && sel(r[i] as int) by {
                if i < j {
                    assert(r[i] == l[i]);
                } else if i > j {
                    assert(r[i] == l[i - 1]);
                }
            }
            assert forall|a: int, b: int| 0 <= a < b < r.len() implies less(#[trigger] r[a] as int, #[trigger] r[b] as int) by {
                if b < j {
                    assert(r[a] == l[a] && r[b] == l[b]);
                } else if b == j {
                    assert(r[a] == l[a]);
                } else if a < j {
                    assert(r[a] == l[a] && r[b] == l[b - 1]);
                } else if a == j {
                    assert(r[b] == l[b - 1]);
                } else {
                    assert(r[a] == l[a - 1] && r[b] == l[b - 1]);
                }
            }
            assert forall|p: int| 0 <= p < k && #[trigger] sel(p) implies among(r, 0, r.len() as int, p as i32) by {
                if p == v {
                    assert(r[j] == v);
                    lemma_among(r, 0, r.len() as int, j);
                } else {
                    let i = lemma_found(l, 0, l.len() as int, p as i32);
                    if i < j {
                        assert(r[i] == l[i]);
                        lemma_among(r, 0, r.len() as int, i);
                    } else {
                        assert(r[i + 1] == l[i]);
                        lemma_among(r, 0, r.len() as int, i + 1);
                    }
                }
            }
            r
        } else {
            assert forall|p: int| 0 <= p < k && #[trigger] sel(p) implies among(l, 0, l.len() as int, p as i32) by {
                assert(p < k - 1);
            }
            l
        }
    }
}

/// A field for a text with its leftmost suffixes of type S in given slots, and their list.
pub proof fn lemma_field(x: Seq<int>, f: int, slot: spec_fn(int) -> int, k: int, exact: bool) -> (r: (Field, Seq<i32>))
    requires
        2 <= x.len() <= i32::MAX,
        first_lms(x, f),
        slots_differ(x, slot),
        0 <= k,
        forall|i: int| 0 <= i < x.len() ==> 0 <= #[trigger] x[i] < k,
    ensures
        fielded(r.0),
        r.0.x == x,
        r.0.f == f,
        r.0.slot == slot,
        r.0.k == k,
        r.0.exact == exact,
        lists_in_order(every_lms(x), |u: int, v: int| induced_less(x, f, slot, u, v), r.1, x.len() as int),
{
    let n = x.len() as int;
    let inside = |v: int| 0 <= v < n;
    let met = |u: int, v: int| met_less(x, f, slot, u, v);
    let induced = |u: int, v: int| induced_less(x, f, slot, u, v);
    assert forall|u: int| !#[trigger] met(u, u) by {
        lemma_met_irreflexive(x, f, slot, u);
    }
    assert forall|u: int| !#[trigger] induced(u, u) by {
        lemma_induced_irreflexive(x, f, slot, u);
    }
    assert forall|u: int, v: int, w: int| #[trigger] met(u, v) && #[trigger] met(v, w) implies met(u, w) by {
        lemma_met_transitive(x, f, slot, u, v, w);
    }
    assert forall|u: int, v: int, w: int| #[trigger] induced(u, v) && #[trigger] induced(v, w) implies induced(u, w) by {
        lemma_induced_transitive(x, f, slot, u, v, w);
    }
    assert(is_lms(x, f));
    assert forall|u: int, v: int| #![trigger met(u, v)] all_left(x, f)(u) && all_left(x, f)(v) && u != v implies met(u, v) || met(v, u) by {
        lemma_met_total(x, f, slot, u, v);
    }
    assert forall|u: int, v: int| #![trigger induced(u, v)] all_right(x, f)(u) && all_right(x, f)(v) && u != v implies induced(u, v)
        || induced(v, u) by {
        lemma_induced_total(x, f, slot, u, v);
    }
    assert forall|u: int, v: int| #![trigger induced(u, v)] every_lms(x)(u) && every_lms(x)(v) && u != v implies induced(u, v) || induced(
        v,
        u,
    ) by {
        lemma_induced_total(x, f, slot, u, v);
    }
    let left = lemma_listable(all_left(x, f), met, n);
    let right = lemma_listable(all_right(x, f), induced, n);
    let low = lemma_listable(every_lms(x), induced, n);
    let g = Field { x, f, slot, left, right, k, exact };
    assert forall|j: int| 0 <= j < left.len() implies in_left(x, f, #[trigger] left[j] as int) by {
        assert(all_left(x, f)(left[j] as int));
    }
    assert forall|j: int| 0 <= j < right.len() implies in_right(x, f, #[trigger] right[j] as int) by {
        assert(all_right(x, f)(right[j] as int));
    }
    assert forall|i: int, j: int| 0 <= i < j < left.len() implies met_less(
        x,
        f,
        slot,
        #[trigger] left[i] as int,
        #[trigger] left[j] as int,
    ) by {
        assert(met(left[i] as int, left[j] as int));
    }
    assert forall|i: int, j: int| 0 <= i < j < right.len() implies induced_less(
        x,
        f,
        slot,
        #[trigger] right[i] as int,
        #[trigger] right[j] as int,
    ) by {
        assert(induced(right[i] as int, right[j] as int));
    }
    assert forall|v: int| #[trigger] in_left(x, f, v) implies among(left, 0, left.len() as int, v as i32) by {
        assert(all_left(x, f)(v));
    }
    assert forall|v: int| #[trigger] in_right(x, f, v) implies among(right, 0, right.len() as int, v as i32) by {
        assert(all_right(x, f)(v));
    }
    assert(lists_in_order(every_lms(x), |u: int, v: int| induced_less(x, f, slot, u, v), low, n));
    (g, low)
}

/// How the areas of a field are filled.
pub proof fn lemma_field_sizes(g: Field, low: Seq<i32>)
    requires
        fielded(g),
        lists_in_order(every_lms(g.x), |u: int, v: int| induced_less(g.x, g.f, g.slot, u, v), low, g.x.len() as int),
    ensures
        width(g) == tally(all_left(g.x, g.f), 0, g.x.len() as int),
        width(g) == below_of(g.x, all_left(g.x, g.f))(g.k),
        g.right.len() == tally(all_right(g.x, g.f), 0, g.x.len() as int),
        g.right.len() == below_of(g.x, all_right(g.x, g.f))(g.k),
        low.len() == lms_count(g.x, 0),
        limit(g) == g.x.len() - g.f,
        width(g) + low.len() < g.x.len(),
        lows(g, low),
        forall|c: int| #[trigger] start(g, c, true) == below_of(g.x, all_left(g.x, g.f))(c),
        forall|c: int| #[trigger] start(g, c, false) == width(g) + 1 + below_of(g.x, all_right(g.x, g.f))(c),
        forall|c: int| #[trigger] crate::lane_right::low_start(g, low, c) == below_of(g.x, every_lms(g.x))(c),
{
    let x = g.x;
    let n = x.len() as int;
    let f = g.f;
    let w = g.left.len() as int;
    let h = g.right.len() as int;
    let m = low.len() as int;
    let less = |u: int, v: int| induced_less(x, f, g.slot, u, v);
    assert(is_lms(x, f));
    assert forall|i: int, j: int| 0 <= i < j < w implies #[trigger] g.left[i] != #[trigger] g.left[j] by {
        lemma_met_irreflexive(x, f, g.slot, g.left[i] as int);
        assert(met_less(x, f, g.slot, g.left[i] as int, g.left[j] as int));
    }
    assert forall|i: int, j: int| 0 <= i < j < h implies #[trigger] g.right[i] != #[trigger] g.right[j] by {
        lemma_induced_irreflexive(x, f, g.slot, g.right[i] as int);
        assert(induced_less(x, f, g.slot, g.right[i] as int, g.right[j] as int));
    }
    assert forall|i: int, j: int| 0 <= i < j < m implies #[trigger] low[i] != #[trigger] low[j] by {
        lemma_induced_irreflexive(x, f, g.slot, low[i] as int);
        assert(less(low[i] as int, low[j] as int));
    }
    assert forall|j: int| 0 <= j < w implies 0 <= #[trigger] g.left[j] < n by {
        assert(in_left(x, f, g.left[j] as int));
    }
    assert forall|j: int| 0 <= j < h implies 0 <= #[trigger] g.right[j] < n by {
        assert(in_right(x, f, g.right[j] as int));
    }
    assert forall|c: int| true implies #[trigger] start(g, c, true) == below_of(x, all_left(x, f))(c) by {
        lemma_sublist_tally(x, all_left(x, f), g.left, c);
    }
    assert forall|c: int| true implies #[trigger] start(g, c, false) == w + 1 + below_of(x, all_right(x, f))(c) by {
        lemma_sublist_tally(x, all_right(x, f), g.right, c);
    }
    assert forall|c: int| true implies #[trigger] crate::lane_right::low_start(g, low, c) == below_of(x, every_lms(x))(c) by {
        lemma_sublist_tally(x, every_lms(x), low, c);
    }
    lemma_list_tally(g.left, 0, w, n, all_left(x, f));
    lemma_list_tally(g.right, 0, h, n, all_right(x, f));
    lemma_list_tally(low, 0, m, n, every_lms(x));
    lemma_tally_full(|j: int| all_left(x, f)(g.left[j] as int), 0, w);
    lemma_tally_full(|j: int| all_right(x, f)(g.right[j] as int), 0, h);
    lemma_tally_full(|j: int| every_lms(x)(low[j] as int), 0, m);
    lemma_all_below(x, all_left(x, f), g.k, 0);
    lemma_all_below(x, all_right(x, f), g.k, 0);
    lemma_lms_tally(x, 0);
    lemma_sides(x, f, f + 1);
    lemma_front_empty(x, f, 0);
    lemma_followers(x, f, f);
    assert(tally(every_lms(x), 0, n) == tally(every_lms(x), f, n)) by {
        lemma_no_lms_before(x, f, 0);
    }
    assert(lows(g, low)) by {
        assert forall|j: int| 0 <= j < m implies is_lms(x, #[trigger] low[j] as int) by {
            assert(every_lms(x)(low[j] as int));
        }
        assert forall|i: int, j: int| 0 <= i < j < m implies induced_less(
            x,
            f,
            g.slot,
            #[trigger] low[i] as int,
            #[trigger] low[j] as int,
        ) by {
            assert(less(low[i] as int, low[j] as int));
        }
        assert forall|p: int| #[trigger] is_lms(x, p) implies among(low, 0, m, p as i32) by {
            assert(every_lms(x)(p));
        }
        lemma_later_left(x, f, f + 1);
    }
}

/// A list of positions counts what lies below a symbol.
proof fn lemma_sublist_tally(x: Seq<int>, sel: spec_fn(int) -> bool, l: Seq<i32>, c: int)
    requires
        x.len() <= i32::MAX,
        forall|j: int| 0 <= j < l.len() ==> 0 <= #[trigger] l[j] < x.len(),
        forall|j: int| 0 <= j < l.len() ==> sel(#[trigger] l[j] as int),
        forall|i: int, j: int| 0 <= i < j < l.len() ==> #[trigger] l[i] != #[trigger] l[j],
        forall|p: int| 0 <= p < x.len() && #[trigger] sel(p) ==> among(l, 0, l.len() as int, p as i32),
    ensures
        tally(|j: int| x[l[j] as int] < c, 0, l.len() as int) == below_of(x, sel)(c),
{
    let n = x.len() as int;
    let m = l.len() as int;
    let small = with_smaller(x, sel, c);
    let a = |j: int| small(l[j] as int);
    let b = |j: int| x[l[j] as int] < c;
    assert forall|p: int| 0 <= p < n && #[trigger] small(p) implies among(l, 0, m, p as i32) by {
        assert(sel(p));
    }
    lemma_list_tally(l, 0, m, n, small);
    lemma_tally_less(a, b, 0, m);
    assert forall|j: int| 0 <= j < m && #[trigger] b(j) implies a(j) by {
        assert(sel(l[j] as int));
    }
    lemma_tally_less(b, a, 0, m);
}

/// Everything lies below the limit.
proof fn lemma_all_below(x: Seq<int>, sel: spec_fn(int) -> bool, k: int, lo: int)
    requires
        0 <= lo <= x.len(),
        forall|p: int| 0 <= p < x.len() ==> 0 <= #[trigger] x[p] < k,
    ensures
        tally(with_smaller(x, sel, k), lo, x.len() as int) == tally(sel, lo, x.len() as int),
    decreases x.len() - lo,
{
    if lo < x.len() {
        lemma_all_below(x, sel, k, lo + 1);
        assert(0 <= x[lo] < k);
    }
}

/// Two ways to count the leftmost suffixes of type S.
pub proof fn lemma_lms_tally(x: Seq<int>, lo: int)
    requires
        0 <= lo <= x.len(),
    ensures
        tally(every_lms(x), lo, x.len() as int) == lms_count(x, lo),
    decreases x.len() - lo,
{
    if lo < x.len() {
        lemma_lms_tally(x, lo + 1);
    }
}

/// Every suffix behind the first leftmost one of type S is visited by one scan.
proof fn lemma_sides(x: Seq<int>, f: int, lo: int)
    requires
        f < lo <= x.len(),
    ensures
        tally(all_left(x, f), lo, x.len() as int) + tally(all_right(x, f), lo, x.len() as int) == x.len() - lo,
    decreases x.len() - lo,
{
    if lo < x.len() {
        lemma_sides(x, f, lo + 1);
    }
}

/// No suffix up to the first leftmost one of type S is visited.
proof fn lemma_front_empty(x: Seq<int>, f: int, lo: int)
    requires
        0 <= lo <= f + 1 <= x.len(),
    ensures
        tally(all_left(x, f), lo, x.len() as int) == tally(all_left(x, f), f + 1, x.len() as int),
        tally(all_right(x, f), lo, x.len() as int) == tally(all_right(x, f), f + 1, x.len() as int),
    decreases f + 1 - lo,
{
    if lo <= f {
        lemma_front_empty(x, f, lo + 1);
    }
}

/// Behind every leftmost suffix of type S stands one that the scan to the left visits.
proof fn lemma_followers(x: Seq<int>, f: int, lo: int)
    requires
        0 <= f <= lo < x.len(),
    ensures
        tally(every_lms(x), lo, x.len() as int) <= tally(all_right(x, f), lo + 1, x.len() as int),
    decreases x.len() - lo,
{
    law_last_type(x);
    if lo + 1 < x.len() {
        lemma_followers(x, f, lo + 1);
        assert(tally(all_right(x, f), lo + 1, x.len() as int) == tally(all_right(x, f), lo + 2, x.len() as int) + bit(
            all_right(x, f)(lo + 1),
        ));
    } else {
        assert(tally(every_lms(x), lo + 1, x.len() as int) == 0);
        assert(!is_lms(x, lo));
    }
}

/// There is no leftmost suffix of type S in front of the first.
proof fn lemma_no_lms_before(x: Seq<int>, f: int, lo: int)
    requires
        first_lms(x, f),
        0 <= lo <= f,
    ensures
        tally(every_lms(x), lo, x.len() as int) == tally(every_lms(x), f, x.len() as int),
    decreases f - lo,
{
    assert(is_lms(x, f));
    if lo < f {
        lemma_no_lms_before(x, f, lo + 1);
        assert(!is_lms(x, lo));
    }
}

/// The leftmost suffixes of type S but the first are visited by the scan to the right.
proof fn lemma_later_left(x: Seq<int>, f: int, lo: int)
    requires
        0 <= f < lo <= x.len(),
    ensures
        tally(every_lms(x), lo, x.len() as int) <= tally(all_left(x, f), lo, x.len() as int),
    decreases x.len() - lo,
{
    if lo < x.len() {
        lemma_later_left(x, f, lo + 1);
    }
}

/// Where the entries of a list that are selected come first, there are as many as are selected.
pub proof fn lemma_sublist_border(x: Seq<int>, sel: spec_fn(int) -> bool, l: Seq<i32>)
    requires
        x.len() <= i32::MAX,
        forall|j: int| 0 <= j < l.len() ==> 0 <= #[trigger] l[j] < x.len(),
        forall|i: int, j: int| 0 <= i < j < l.len() ==> #[trigger] l[i] != #[trigger] l[j],
        forall|i: int, j: int| 0 <= i < j < l.len() && sel(#[trigger] l[j] as int) ==> sel(#[trigger] l[i] as int),
        forall|p: int| 0 <= p < x.len() && #[trigger] sel(p) ==> among(l, 0, l.len() as int, p as i32),
    ensures
        forall|j: int| 0 <= j < l.len() ==> sel(#[trigger] l[j] as int) == (j < tally(sel, 0, x.len() as int)),
{
    let n = x.len() as int;
    let m = l.len() as int;
    let at = |j: int| sel(l[j] as int);
    let s = picked(at, 0, m);
    lemma_list_tally(l, 0, m, n, sel);
    lemma_picked(at, 0, m);
    assert forall|i: int, j: int| 0 <= i < j && #[trigger] s.contains(j) implies #[trigger] s.contains(i) by {
        assert(sel(l[j] as int));
        assert(sel(l[i] as int));
    }
    lemma_closed_range(s, m);
    assert forall|j: int| 0 <= j < m implies sel(#[trigger] l[j] as int) == (j < tally(sel, 0, n)) by {
        assert(s.contains(j) == (j < s.len()));
    }
}

} // verus!
