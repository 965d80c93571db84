//! The scans over the substrings of an integer text with six buckets for each symbol.

use vstd::prelude::*;
use crate::byte_scans::{lemma_left_frame, lemma_right_frame, untouched};
use crate::fold::{fold_down, fold_up, lemma_fold_down_same, lemma_fold_up_same};
use crate::gather::text32;
use crate::induce::{partial_left_32s_6k, seeded_32s_6k};
use crate::induction::symbols_below;
use crate::kinds::is_lms;
use crate::lane_left::{
    lane_left_step, lane_seeded, left_ready, lemma_left_first, name_of, next_of, opens, tables_apart,
};
use crate::lane_right::{finish, lane_right_step, lemma_right_lows, low_start, low_true, lows, right_ready};
use crate::lane_turn::{left_done, lemma_left_done, lemma_turned, shift_lane_step};
use crate::lanes::{at, fielded, limit, start, width, Field, Lanes};
use crate::marks::{bit, marked, unmarked};
use crate::orders::partial_order_32s_6k;
use crate::partial_32s::{
    partial_sorting_scan_left_to_right_32s_6k_run, partial_sorting_scan_left_to_right_32s_6k_step,
    partial_sorting_scan_right_to_left_32s_6k_run, partial_sorting_scan_right_to_left_32s_6k_step,
};
use crate::radix::{
    partial_sorting_shift_markers_32s_6k_run, shift_bucket_32s_6k_step, shifted_buckets,
};
use crate::types::InduceState;

verus! {

/// The tables of both scans.
pub open spec fn six_tables() -> Lanes {
    Lanes { next: |c: int, v: bool| 4 * c + bit(v), name: |c: int, v: bool| 4 * c + 2 + bit(v) }
}

/// The scan to the right is one over lanes.
proof fn lemma_left_scan_6k(t: Seq<i32>, k: int, s: InduceState, lo: int, hi: int)
    requires
        symbols_below(t, k),
    ensures
        partial_sorting_scan_left_to_right_32s_6k_run(t, s, lo, hi - lo) == fold_up(
            lane_left_step(text32(t), six_tables()),
            s,
            lo,
            hi,
        ),
{
    let f = partial_sorting_scan_left_to_right_32s_6k_step(t);
    let g = lane_left_step(text32(t), six_tables());
    assert forall|st: InduceState, i: int| lo <= i < hi implies #[trigger] f(st, i) == g(st, i) by {
        let p = unmarked(st.0[i]);
        if 2 <= p <= t.len() {
            assert(text32(t)[p - 1] == t[p - 1] && text32(t)[p - 2] == t[p - 2]);
            assert(0 <= t[p - 1] < k);
        }
    }
    lemma_fold_up_same(f, g, s, lo, hi);
}

/// The scan to the left is one over lanes.
proof fn lemma_right_scan_6k(t: Seq<i32>, k: int, s: InduceState, lo: int, hi: int)
    requires
        symbols_below(t, k),
    ensures
        partial_sorting_scan_right_to_left_32s_6k_run(t, s, lo, hi - lo) == fold_down(
            lane_right_step(text32(t), six_tables()),
            s,
            lo,
            hi,
        ),
{
    let f = partial_sorting_scan_right_to_left_32s_6k_step(t);
    let g = lane_right_step(text32(t), six_tables());
    assert forall|st: InduceState, i: int| lo <= i < hi implies #[trigger] f(st, i) == g(st, i) by {
        let p = unmarked(st.0[i]);
        if 2 <= p <= t.len() {
            assert(text32(t)[p - 1] == t[p - 1] && text32(t)[p - 2] == t[p - 2]);
            assert(0 <= t[p - 1] < k);
        }
    }
    lemma_fold_down_same(f, g, s, lo, hi);
}

/// What the scans start from: the leftmost suffixes of type S in their slots, and the bounds of
/// the lanes.
pub open spec fn six_ready(t: Seq<i32>, g: Field, low: Seq<i32>, cur: Seq<i32>, p: Seq<i32>) -> bool {
    let k = g.k;
    &&& g.x == text32(t)
    &&& fielded(g)
    &&& 1 <= k
    &&& symbols_below(t, k)
    &&& lows(g, low)
    &&& limit(g) == t.len() - g.f
    &&& t.len() <= cur.len()
    &&& 6 * k <= p.len()
    &&& forall|y: int| 0 <= y < width(g) && is_lms(g.x, #[trigger] at(g, y)) ==> cur[y] == marked(
        at(g, y) as i32,
        g.exact && opens(g, y),
    )
    &&& forall|c: int| 0 <= c < k ==> p[#[trigger] (4 * c)] == start(g, c, false)
    &&& forall|c: int| 0 <= c < k ==> p[#[trigger] (4 * c + 1)] == start(g, c, true)
    &&& forall|c: int| 0 <= c < k ==> p[#[trigger] (4 * c + 2)] == 0
    &&& forall|c: int| 0 <= c < k ==> p[#[trigger] (4 * c + 3)] == 0
    &&& forall|c: int| 0 <= c < k ==> p[#[trigger] (4 * k + 2 * c)] == start(g, c + 1, false)
    &&& forall|c: int| 0 <= c < k ==> p[#[trigger] (4 * k + 2 * c + 1)] == low_start(g, low, c + 1)
}

/// The scan to the right.
#[verifier::spinoff_prover]
proof fn lemma_six_left(t: Seq<i32>, g: Field, low: Seq<i32>, cur: Seq<i32>, p: Seq<i32>)
    requires
        six_ready(t, g, low, cur, p),
    ensures
        ({
            let r = partial_left_32s_6k(t, t.len() as int, width(g), (cur, p, 0));
            &&& r is Some
            &&& left_done(g, six_tables(), r->0)
            &&& r.unwrap().0.len() == cur.len()
            &&& r.unwrap().1.len() == p.len()
            &&& forall|j: int| 4 * g.k <= j < p.len() ==> #[trigger] r.unwrap().1[j] == p[j]
        }),
{
    let n = t.len() as int;
    let ln = six_tables();
    let len = p.len() as int;
    let s: InduceState = (cur, p, 0);
    assert(is_lms(g.x, g.f));
    assert forall|c: int, v: bool| 0 <= c < g.k implies #[trigger] next_of(ln, p, c, v) == start(g, c, v) by {
        assert(p[4 * c] == start(g, c, false));
        assert(p[4 * c + 1] == start(g, c, true));
    }
    assert forall|c: int, v: bool| 0 <= c < g.k implies #[trigger] name_of(ln, p, c, v) == 0 by {
        assert(p[4 * c + 2] == 0 && p[4 * c + 3] == 0);
    }
    assert(tables_apart(ln, g.k, len));
    assert(left_ready(g, ln, len, s));
    lemma_left_first(g, ln, len, s);
    let first = lane_seeded(g.x, ln, s);
    assert(g.x[n - 1] == t[n - 1] && g.x[n - 2] == t[n - 2]);
    let c = g.x[n - 1];
    let v = g.x[n - 2] >= g.x[n - 1];
    assert(0 <= t[n - 1] < g.k);
    assert((ln.next)(c, v) == 4 * c + bit(v));
    assert((ln.name)(c, v) == 4 * c + 2 + bit(v));
    assert(next_of(ln, p, c, v) == p[4 * c + bit(v)]);
    assert(seeded_32s_6k(t, n, s) == Some(first));
    lemma_left_scan_6k(t, g.k, first, 0, width(g));
    lemma_left_done(g, ln, len, s);
    let st = fold_up(lane_left_step(g.x, ln), first, 0, width(g))->0;
    assert forall|j: int| 4 * g.k <= j < p.len() implies #[trigger] st.1[j] == p[j] by {
        assert(untouched(ln, g.k, j));
        lemma_left_frame(g.x, ln, g.k, first, 0, width(g), j);
    }
    assert(untouched(ln, g.k, 4 * g.k));
    lemma_left_frame(g.x, ln, g.k, first, 0, width(g), 4 * g.k);
}

/// The marks move between the scans, and the bounds of the other scan take their place.
#[verifier::spinoff_prover]
proof fn lemma_six_turn(t: Seq<i32>, g: Field, low: Seq<i32>, cur: Seq<i32>, p: Seq<i32>, st: InduceState)
    requires
        six_ready(t, g, low, cur, p),
        left_done(g, six_tables(), st),
        st.0.len() == cur.len(),
        st.1.len() == p.len(),
        forall|j: int| 4 * g.k <= j < p.len() ==> #[trigger] st.1[j] == p[j],
    ensures
        ({
            let r = partial_sorting_shift_markers_32s_6k_run(st.0, g.k, st.1);
            &&& r is Some
            &&& r.unwrap().len() == cur.len()
            &&& right_ready(g, low, six_tables(), p.len() as int, (r->0, shifted_buckets(g.k, st.1), st.2))
        }),
{
    let b = st.1;
    let k = g.k;
    let ln = six_tables();
    let lo = |i: int| b[4 * k + 2 * (i - 1)] as int;
    let hi = |i: int| b[4 * i] as int;
    assert(is_lms(g.x, g.f));
    assert forall|i: int| 1 <= i < k implies #[trigger] lo(i) == start(g, i, false) by {
        assert(p[4 * k + 2 * (i - 1)] == start(g, i, false));
        assert(b[4 * k + 2 * (i - 1)] == p[4 * k + 2 * (i - 1)]);
    }
    assert forall|i: int| 1 <= i < k implies #[trigger] hi(i) == next_of(ln, b, i, false) by {}
    lemma_turned(g, ln, st, lo, hi);
    let f = shift_bucket_32s_6k_step(k, b);
    let h = shift_lane_step(lo, hi);
    assert forall|s: Seq<i32>, i: int| 1 <= i < k implies #[trigger] f(s, i) == h(s, i) by {}
    lemma_fold_down_same(f, h, st.0, 1, k);
    assert(tables_apart(ln, k, p.len() as int));
    let b2 = shifted_buckets(k, b);
    assert forall|c: int, v: bool| 0 <= c < k implies #[trigger] next_of(ln, b2, c, v) == finish(g, low, c, v) by {
        assert(p[4 * k + 2 * c] == start(g, c + 1, false));
        assert(p[4 * k + 2 * c + 1] == low_start(g, low, c + 1));
        assert(b[4 * k + 2 * c] == p[4 * k + 2 * c] && b[4 * k + 2 * c + 1] == p[4 * k + 2 * c + 1]);
        let i = 4 * c + bit(v);
        assert((ln.next)(c, v) == i);
        assert(i / 4 == c && i % 4 == bit(v));
        assert(b2[i] == b[4 * k + 2 * c + bit(v)]);
    }
    assert forall|c: int, v: bool| 0 <= c < k implies #[trigger] name_of(ln, b2, c, v) <= st.2 by {
        assert(name_of(ln, b, c, v) <= st.2);
        let i = 4 * c + 2 + bit(v);
        assert((ln.name)(c, v) == i);
        assert(i % 4 == 2 + bit(v));
        assert(b2[i] == b[i]);
    }
}

/// The scans over the substrings sort the leftmost suffixes of type S by their substrings and mark
/// where a substring differs from the next.
#[verifier::spinoff_prover]
pub proof fn lemma_six_scans(t: Seq<i32>, g: Field, low: Seq<i32>, cur: Seq<i32>, p: Seq<i32>)
    requires
        six_ready(t, g, low, cur, p),
    ensures
        ({
            let r = partial_order_32s_6k(t, t.len() as int, g.k, g.f, width(g), (cur, p));
            &&& r is Some
            &&& r.unwrap().0.len() == cur.len()
            &&& r.unwrap().1.len() == p.len()
            &&& forall|j: int| #![trigger low[j]] 0 <= j < low.len() ==> unmarked(r.unwrap().0[j]) == low[j] && low_true(
                g,
                low,
                r.unwrap().0,
                j,
            )
        }),
{
    let n = t.len() as int;
    let ln = six_tables();
    let len = p.len() as int;
    lemma_six_left(t, g, low, cur, p);
    let st = partial_left_32s_6k(t, n, width(g), (cur, p, 0))->0;
    lemma_six_turn(t, g, low, cur, p, st);
    let y = partial_sorting_shift_markers_32s_6k_run(st.0, g.k, st.1)->0;
    let s: InduceState = (y, shifted_buckets(g.k, st.1), st.2);
    lemma_right_lows(g, low, ln, len, s);
    lemma_right_scan_6k(t, g.k, s, width(g) + 1, limit(g));
    let z = fold_down(lane_right_step(g.x, ln), s, width(g) + 1, limit(g))->0;
    assert(partial_order_32s_6k(t, n, g.k, g.f, width(g), (cur, p)) == Some((z.0, z.1)));
    assert(untouched(ln, g.k, 4 * g.k));
    lemma_right_frame(g.x, ln, g.k, s, width(g) + 1, limit(g), 4 * g.k);
}

} // verus!
