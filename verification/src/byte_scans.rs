//! The scans over the substrings of a byte text, with a lane for every pair of types.

use vstd::prelude::*;
use crate::fold::{fold_down, fold_up, lemma_fold_down_same, lemma_fold_up_same};
use crate::gather::{cleared, text8};
use crate::induce::{partial_left_8u, seeded_8u};
use crate::kinds::is_lms;
use crate::lane_left::{lane_left_step, lane_seeded, left_ready, lemma_left_first, name_of, next_of, tables_apart};
use crate::lane_right::{
    finish, lane_right_step, lemma_right_lows, low_start, low_true, lows, right_ready,
};
use crate::lane_turn::{left_done, lemma_left_done, lemma_turned, shift_lane_step};
use crate::lanes::{at, fielded, limit, start, width, Field, Lanes};
use crate::marks::{bit, unmarked};
use crate::orders::partial_order_8u;
use crate::partial_8u::{
    partial_sorting_scan_left_to_right_8u_run, partial_sorting_scan_left_to_right_8u_step,
    partial_sorting_scan_right_to_left_8u_run, partial_sorting_scan_right_to_left_8u_step,
};
use crate::radix::{shift_bucket_8u_run, shift_bucket_8u_step};
use crate::types::InduceState;

verus! {

/// The tables of the scan to the right.
pub open spec fn byte_left() -> Lanes {
    Lanes { next: |c: int, v: bool| 1024 + 2 * c + bit(v), name: |c: int, v: bool| 512 + 2 * c + bit(v) }
}

/// The tables of the scan to the left.
pub open spec fn byte_right() -> Lanes {
    Lanes { next: |c: int, v: bool| 2 * c + bit(v), name: |c: int, v: bool| 512 + 2 * c + bit(v) }
}

/// Whether the tables leave entry `j` alone.
pub open spec fn untouched(ln: Lanes, k: int, j: int) -> bool {
    &&& forall|c: int, v: bool| 0 <= c < k ==> #[trigger] (ln.next)(c, v) != j
    &&& forall|c: int, v: bool| 0 <= c < k ==> #[trigger] (ln.name)(c, v) != j
}

/// What the scan to the right leaves alone.
pub proof fn lemma_left_frame(x: Seq<int>, ln: Lanes, k: int, s: InduceState, lo: int, hi: int, j: int)
    requires
        forall|i: int| 0 <= i < x.len() ==> 0 <= #[trigger] x[i] < k,
        fold_up(lane_left_step(x, ln), s, lo, hi) is Some,
        untouched(ln, k, j),
    ensures
        ({
            let st = fold_up(lane_left_step(x, ln), s, lo, hi)->0;
            &&& st.0.len() == s.0.len()
            &&& st.1.len() == s.1.len()
            &&& 0 <= j < s.1.len() ==> st.1[j] == s.1[j]
        }),
    decreases hi - lo,
{
    if lo < hi {
        lemma_left_frame(x, ln, k, s, lo, hi - 1, j);
        let st = fold_up(lane_left_step(x, ln), s, lo, hi - 1)->0;
        let p = unmarked(st.0[hi - 1]);
        assert(0 <= x[p - 1] < k);
    }
}

/// What the scan to the left leaves alone.
pub proof fn lemma_right_frame(x: Seq<int>, ln: Lanes, k: int, s: InduceState, lo: int, hi: int, j: int)
    requires
        forall|i: int| 0 <= i < x.len() ==> 0 <= #[trigger] x[i] < k,
        fold_down(lane_right_step(x, ln), s, lo, hi) is Some,
        untouched(ln, k, j),
    ensures
        ({
            let st = fold_down(lane_right_step(x, ln), s, lo, hi)->0;
            &&& st.0.len() == s.0.len()
            &&& st.1.len() == s.1.len()
            &&& 0 <= j < s.1.len() ==> st.1[j] == s.1[j]
        }),
    decreases hi - lo,
{
    if lo < hi {
        lemma_right_frame(x, ln, k, s, lo + 1, hi, j);
        let st = fold_down(lane_right_step(x, ln), s, lo + 1, hi)->0;
        let p = unmarked(st.0[lo]);
        assert(0 <= x[p - 1] < k);
    }
}

/// The scan to the right of a byte text is one over its lanes.
proof fn lemma_left_scan(t: Seq<u8>, s: InduceState, lo: int, hi: int)
    ensures
        partial_sorting_scan_left_to_right_8u_run(t, s, lo, hi - lo) == fold_up(lane_left_step(text8(t), byte_left()), s, lo, hi),
{
    let f = partial_sorting_scan_left_to_right_8u_step(t);
    let g = lane_left_step(text8(t), byte_left());
    assert forall|st: InduceState, i: int| lo <= i < hi implies #[trigger] f(st, i) == g(st, i) by {
        let p = unmarked(st.0[i]);
        if 2 <= p <= t.len() {
            assert(text8(t)[p - 1] == t[p - 1] && text8(t)[p - 2] == t[p - 2]);
        }
    }
    lemma_fold_up_same(f, g, s, lo, hi);
}

/// The scan to the left of a byte text is one over its lanes.
proof fn lemma_right_scan(t: Seq<u8>, s: InduceState, lo: int, hi: int)
    ensures
        partial_sorting_scan_right_to_left_8u_run(t, s, lo, hi - lo) == fold_down(lane_right_step(text8(t), byte_right()), s, lo, hi),
{
    let f = partial_sorting_scan_right_to_left_8u_step(t);
    let g = lane_right_step(text8(t), byte_right());
    assert forall|st: InduceState, i: int| lo <= i < hi implies #[trigger] f(st, i) == g(st, i) by {
        let p = unmarked(st.0[i]);
        if 2 <= p <= t.len() {
            assert(text8(t)[p - 1] == t[p - 1] && text8(t)[p - 2] == t[p - 2]);
        }
    }
    lemma_fold_down_same(f, g, s, lo, hi);
}

/// What the scans start from: the leftmost suffixes of type S in their slots, and the bounds of
/// the lanes.
pub open spec fn byte_ready(t: Seq<u8>, g: Field, low: Seq<i32>, cur: Seq<i32>, p: Seq<i32>) -> bool {
    &&& g.x == text8(t)
    &&& fielded(g)
    &&& g.k == 256
    &&& !g.exact
    &&& lows(g, low)
    &&& limit(g) == t.len() - g.f
    &&& t.len() <= cur.len()
    &&& 2048 <= p.len()
    &&& forall|y: int| 0 <= y < width(g) && is_lms(g.x, #[trigger] at(g, y)) ==> cur[y] == at(g, y)
    &&& forall|c: int| 0 <= c < 256 ==> p[#[trigger] (1024 + 2 * c)] == start(g, c, false)
    &&& forall|c: int| 0 <= c < 256 ==> p[#[trigger] (1024 + 2 * c + 1)] == start(g, c, true)
    &&& forall|c: int| 0 <= c < 256 ==> p[#[trigger] (2 * c)] == start(g, c + 1, false)
    &&& forall|c: int| 0 <= c < 256 ==> p[#[trigger] (2 * c + 1)] == low_start(g, low, c + 1)
}

/// The scan to the right of a byte text.
#[verifier::spinoff_prover]
proof fn lemma_byte_left(t: Seq<u8>, g: Field, low: Seq<i32>, cur: Seq<i32>, p: Seq<i32>)
    requires
        byte_ready(t, g, low, cur, p),
    ensures
        ({
            let r = partial_left_8u(t, t.len() as int, width(g), (cur, cleared(p, 512, 1024), 0));
            &&& r is Some
            &&& left_done(g, byte_left(), r->0)
            &&& r.unwrap().0.len() == cur.len()
            &&& r.unwrap().1.len() == p.len()
            &&& forall|j: int| 0 <= j < 512 || 1536 <= j < p.len() ==> #[trigger] r.unwrap().1[j] == p[j]
        }),
{
    let n = t.len() as int;
    let ln = byte_left();
    let len = p.len() as int;
    let b = cleared(p, 512, 1024);
    let s: InduceState = (cur, b, 0);
    assert(is_lms(g.x, g.f));
    assert forall|c: int, v: bool| 0 <= c < g.k implies #[trigger] next_of(ln, b, c, v) == start(g, c, v) by {
        assert(p[1024 + 2 * c] == start(g, c, false));
        assert(p[1024 + 2 * c + 1] == start(g, c, true));
    }
    assert forall|c: int, v: bool| 0 <= c < g.k implies #[trigger] name_of(ln, b, c, v) == 0 by {}
    assert(tables_apart(ln, g.k, len));
    assert(left_ready(g, ln, len, s));
    lemma_left_first(g, ln, len, s);
    let first = lane_seeded(g.x, ln, s);
    assert(g.x[n - 1] == t[n - 1] && g.x[n - 2] == t[n - 2]);
    let c = g.x[n - 1];
    let v = g.x[n - 2] >= g.x[n - 1];
    assert((ln.next)(c, v) == 1024 + 2 * c + bit(v));
    assert((ln.name)(c, v) == 512 + 2 * c + bit(v));
    assert(next_of(ln, b, c, v) == b[1024 + 2 * c + bit(v)]);
    assert(seeded_8u(t, n, s) == Some(first));
    lemma_left_scan(t, first, 0, width(g));
    lemma_left_done(g, ln, len, s);
    let st = fold_up(lane_left_step(g.x, ln), first, 0, width(g))->0;
    assert forall|j: int| 0 <= j < 512 || 1536 <= j < p.len() implies #[trigger] st.1[j] == p[j] by {
        assert(untouched(ln, g.k, j));
        lemma_left_frame(g.x, ln, g.k, first, 0, width(g), j);
    }
    assert(untouched(ln, g.k, 0));
    lemma_left_frame(g.x, ln, g.k, first, 0, width(g), 0);
}

/// The marks move between the scans of a byte text.
#[verifier::spinoff_prover]
proof fn lemma_byte_turn(t: Seq<u8>, g: Field, low: Seq<i32>, cur: Seq<i32>, p: Seq<i32>, st: InduceState)
    requires
        byte_ready(t, g, low, cur, p),
        left_done(g, byte_left(), st),
        st.0.len() == cur.len(),
        st.1.len() == p.len(),
        forall|j: int| 0 <= j < 512 || 1536 <= j < p.len() ==> #[trigger] st.1[j] == p[j],
    ensures
        ({
            let r = shift_bucket_8u_run(st.1, st.0, 1, 256);
            &&& r is Some
            &&& r.unwrap().len() == cur.len()
            &&& right_ready(g, low, byte_right(), p.len() as int, (r->0, st.1, st.2))
        }),
{
    let b = st.1;
    let ln = byte_right();
    let lo = |i: int| b[2 * i - 2] as int;
    let hi = |i: int| b[1024 + 2 * i] as int;
    assert(is_lms(g.x, g.f));
    assert forall|i: int| 1 <= i < g.k implies #[trigger] lo(i) == start(g, i, false) by {
        assert(p[2 * (i - 1)] == start(g, i, false));
        assert(b[2 * i - 2] == p[2 * i - 2]);
    }
    assert forall|i: int| 1 <= i < g.k implies #[trigger] hi(i) == next_of(byte_left(), b, i, false) by {}
    lemma_turned(g, byte_left(), st, lo, hi);
    let f = shift_bucket_8u_step(b);
    let h = shift_lane_step(lo, hi);
    assert forall|s: Seq<i32>, i: int| 1 <= i < 256 implies #[trigger] f(s, i) == h(s, i) by {}
    lemma_fold_down_same(f, h, st.0, 1, 256);
    assert(tables_apart(ln, g.k, p.len() as int));
    assert forall|c: int, v: bool| 0 <= c < g.k implies #[trigger] next_of(ln, b, c, v) == finish(g, low, c, v) by {
        assert(p[2 * c] == start(g, c + 1, false));
        assert(p[2 * c + 1] == low_start(g, low, c + 1));
        assert(b[2 * c] == p[2 * c] && b[2 * c + 1] == p[2 * c + 1]);
    }
    assert forall|c: int, v: bool| 0 <= c < g.k implies #[trigger] name_of(ln, b, c, v) <= st.2 by {
        assert(name_of(byte_left(), b, c, v) <= st.2);
    }
}

/// The scans over the substrings of a byte text sort its leftmost suffixes of type S by their
/// substrings and mark where a substring differs from the next, and leave how many of these
/// suffixes start with smaller symbols.
#[verifier::spinoff_prover]
pub proof fn lemma_byte_scans(t: Seq<u8>, g: Field, low: Seq<i32>, cur: Seq<i32>, p: Seq<i32>)
    requires
        byte_ready(t, g, low, cur, p),
    ensures
        ({
            let r = partial_order_8u(t, t.len() as int, false, g.f, width(g), (cur, p));
            &&& r is Some
            &&& r.unwrap().0.len() == cur.len()
            &&& r.unwrap().1.len() == p.len()
            &&& forall|j: int| #![trigger low[j]] 0 <= j < low.len() ==> unmarked(r.unwrap().0[j]) == low[j] && low_true(
                g,
                low,
                r.unwrap().0,
                j,
            )
            &&& forall|c: int| 0 <= c < 256 ==> r.unwrap().1[#[trigger] (2 * c + 1)] == low_start(g, low, c)
            &&& forall|j: int| 1536 <= j < p.len() ==> #[trigger] r.unwrap().1[j] == p[j]
        }),
{
    let n = t.len() as int;
    let ln = byte_right();
    let len = p.len() as int;
    lemma_byte_left(t, g, low, cur, p);
    let st = partial_left_8u(t, n, width(g), (cur, cleared(p, 512, 1024), 0))->0;
    lemma_byte_turn(t, g, low, cur, p, st);
    let y = shift_bucket_8u_run(st.1, st.0, 1, 256)->0;
    let s: InduceState = (y, st.1, st.2);
    lemma_right_lows(g, low, ln, len, s);
    lemma_right_scan(t, s, width(g) + 1, limit(g));
    let z = fold_down(lane_right_step(g.x, ln), s, width(g) + 1, limit(g))->0;
    assert(partial_order_8u(t, n, false, g.f, width(g), (cur, p)) == Some((z.0, z.1)));
    assert forall|c: int| 0 <= c < 256 implies z.1[#[trigger] (2 * c + 1)] == low_start(g, low, c) by {
        assert(next_of(ln, z.1, c, true) == low_start(g, low, c));
        assert((ln.next)(c, true) == 2 * c + 1);
    }
    assert(untouched(ln, g.k, 1536));
    lemma_right_frame(g.x, ln, g.k, s, width(g) + 1, limit(g), 1536);
    assert forall|j: int| 1536 <= j < p.len() implies #[trigger] z.1[j] == p[j] by {
        assert(untouched(ln, g.k, j));
        lemma_right_frame(g.x, ln, g.k, s, width(g) + 1, limit(g), j);
    }
}

} // verus!
