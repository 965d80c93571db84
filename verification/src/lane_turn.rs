//! Between the two scans over the substrings: marks move from the first entries of the chains to
//! their last.

use vstd::prelude::*;
use crate::fold::{fold_down, fold_up};
use crate::kinds::{is_l, law_type_step};
use crate::lane_left::{
    filled_left, lane_left_step, lane_pair, lane_seeded, lane_true, left_ready, lemma_left_run,
    lemma_mark_count, mark_true, name_of, next_of, placed_left,
};
use crate::lane_right::{back_true, type_pair};
use crate::lanes::{
    at, fielded, in_area, in_left, lemma_at, lemma_place, lemma_start, lemma_starts, limit, place_of,
    start, width, Field, Lanes,
};
use crate::marks::{marked, unmarked};
use crate::radix::{shift_mark_run, shift_mark_step};
use crate::types::InduceState;

verus! {

/// What the scan to the right leaves for the other scan: the suffixes of type L with one of type S
/// in front, marked where they begin a chain, and tables that point behind them.
pub open spec fn left_done(g: Field, ln: Lanes, st: InduceState) -> bool {
    let (sa, b, d) = st;
    &&& limit(g) <= sa.len()
    &&& 1 <= d <= 1 + width(g)
    &&& forall|y: int| width(g) < y < limit(g) && is_l(g.x, #[trigger] at(g, y)) ==> unmarked(sa[y]) == at(g, y) && mark_true(
        g,
        sa,
        y,
    )
    &&& forall|y: int| width(g) < y < limit(g) && is_l(g.x, #[trigger] at(g, y)) ==> y < next_of(ln, b, g.x[at(g, y)], false)
    &&& forall|c: int| 0 <= c < g.k ==> start(g, c, false) <= #[trigger] next_of(ln, b, c, false) <= start(g, c + 1, false)
    &&& forall|c: int, y: int| #![trigger next_of(ln, b, c, false), at(g, y)]
        0 <= c < g.k && start(g, c, false) <= y < next_of(ln, b, c, false) ==> is_l(g.x, at(g, y)) && g.x[at(g, y)] == c
    &&& forall|c: int, v: bool| 0 <= c < g.k ==> #[trigger] name_of(ln, b, c, v) <= d
}

/// The whole scan to the right.
#[verifier::spinoff_prover]
pub proof fn lemma_left_done(g: Field, ln: Lanes, len: int, s: InduceState)
    requires
        left_ready(g, ln, len, s),
    ensures
        ({
            let st = fold_up(lane_left_step(g.x, ln), lane_seeded(g.x, ln, s), 0, width(g));
            &&& st is Some
            &&& st.unwrap().1.len() == len
            &&& left_done(g, ln, st->0)
        }),
{
    let w = width(g);
    lemma_left_run(g, ln, len, s, w);
    let st = fold_up(lane_left_step(g.x, ln), lane_seeded(g.x, ln, s), 0, w)->0;
    let (sa, b, d) = st;
    lemma_mark_count(sa, 0, w);
    assert forall|y: int| in_area(g, y) && is_l(g.x, #[trigger] at(g, y)) implies placed_left(g, at(g, y), w) by {
        lemma_at(g, y);
        if at(g, y) + 1 < g.x.len() {
            assert(in_left(g.x, g.f, at(g, y) + 1));
            lemma_place(g, at(g, y) + 1);
        }
    }
    assert forall|y: int| width(g) < y < limit(g) && is_l(g.x, #[trigger] at(g, y)) implies unmarked(sa[y]) == at(g, y)
        && mark_true(g, sa, y) by {
        assert(in_area(g, y));
        assert(filled_left(g, y, w));
    }
    assert forall|y: int| width(g) < y < limit(g) && is_l(g.x, #[trigger] at(g, y)) implies y < next_of(
        ln,
        b,
        g.x[at(g, y)],
        false,
    ) by {
        assert(in_area(g, y));
    }
    assert forall|c: int, y: int| #![trigger next_of(ln, b, c, false), at(g, y)]
        0 <= c < g.k && start(g, c, false) <= y < next_of(ln, b, c, false) implies is_l(g.x, at(g, y)) && g.x[at(g, y)] == c by {
        assert(lane_true(g, ln, sa, b, c, false));
        lemma_starts(g, c);
        assert(in_area(g, y));
        assert(false == (y < width(g)));
    }
    assert forall|c: int| 0 <= c < g.k implies start(g, c, false) <= #[trigger] next_of(ln, b, c, false) <= start(g, c + 1, false) by {
        assert(lane_true(g, ln, sa, b, c, false));
        let y = next_of(ln, b, c, false);
        lemma_starts(g, c);
        lemma_starts(g, c + 1);
        if start(g, c, false) < y {
            assert(g.x[at(g, y - 1)] == c);
            lemma_start(g, c + 1, y - 1);
        } else if start(g, c + 1, false) < y {
            let z = start(g, c + 1, false);
            assert(in_area(g, z));
            lemma_start(g, c, z);
            lemma_start(g, c + 1, z);
        }
    }
    assert forall|c: int, v: bool| 0 <= c < g.k implies #[trigger] name_of(ln, b, c, v) <= d by {
        assert(lane_true(g, ln, sa, b, c, v));
        let y = next_of(ln, b, c, v);
        lemma_starts(g, c);
        if y != start(g, c, v) {
            assert(in_area(g, y - 1));
            assert(v == (y - 1 < width(g)));
            let p = at(g, y - 1);
            assert(is_l(g.x, p));
            lemma_at(g, y - 1);
            if p + 1 < g.x.len() {
                assert(in_left(g.x, g.f, p + 1));
                lemma_place(g, p + 1);
                lemma_mark_count(sa, place_of(g, p + 1) + 1, w);
            }
        }
    }
}

/// Moving the marks of a range down by one entry.
pub proof fn lemma_shift(sa: Seq<i32>, lo: int, hi: int, i: int)
    requires
        0 <= lo <= i <= hi <= sa.len(),
    ensures
        ({
            let r = shift_mark_run((sa, true), i, hi);
            &&& r is Some
            &&& r.unwrap().0.len() == sa.len()
            &&& r.unwrap().1 == (i == hi || sa[i] < 0)
            &&& forall|y: int| i <= y < hi ==> #[trigger] r.unwrap().0[y] == marked(unmarked(sa[y]), y + 1 == hi || sa[y + 1] < 0)
            &&& forall|y: int| 0 <= y < i || hi <= y < sa.len() ==> #[trigger] r.unwrap().0[y] == sa[y]
        }),
    decreases hi - i,
{
    if i < hi {
        lemma_shift(sa, lo, hi, i + 1);
        let r = shift_mark_run((sa, true), i + 1, hi)->0;
        assert(shift_mark_run((sa, true), i, hi) == shift_mark_step()(r, i));
    }
}

/// A step that moves the marks of one bucket.
pub open spec fn shift_lane_step(lo: spec_fn(int) -> int, hi: spec_fn(int) -> int) -> spec_fn(Seq<i32>, int) -> Option<Seq<i32>> {
    |s: Seq<i32>, i: int|
        match shift_mark_run((s, true), lo(i), hi(i)) {
            Some(x) => Some(x.0),
            None => None,
        }
}

/// What slot `y` holds when the marks of the buckets from `c` on have been moved.
spec fn shifted_at(g: Field, ln: Lanes, b: Seq<i32>, sa: Seq<i32>, c: int, y: int) -> i32 {
    if is_l(g.x, at(g, y)) && g.x[at(g, y)] >= c {
        marked(unmarked(sa[y]), y + 1 == next_of(ln, b, g.x[at(g, y)], false) || sa[y + 1] < 0)
    } else {
        sa[y]
    }
}

/// The marks move from bucket to bucket.
proof fn lemma_shift_lanes(g: Field, ln: Lanes, st: InduceState, lo: spec_fn(int) -> int, hi: spec_fn(int) -> int, c: int)
    requires
        fielded(g),
        left_done(g, ln, st),
        forall|i: int| 1 <= i < g.k ==> #[trigger] lo(i) == start(g, i, false),
        forall|i: int| 1 <= i < g.k ==> #[trigger] hi(i) == next_of(ln, st.1, i, false),
        1 <= c <= g.k,
    ensures
        ({
            let r = fold_down(shift_lane_step(lo, hi), st.0, c, g.k);
            &&& r is Some
            &&& r.unwrap().len() == st.0.len()
            &&& forall|y: int| width(g) < y < limit(g) ==> r.unwrap()[y] == shifted_at(g, ln, st.1, st.0, c, y)
        }),
    decreases g.k - c,
{
    let (sa, b, d) = st;
    if c < g.k {
        lemma_shift_lanes(g, ln, st, lo, hi, c + 1);
        let r0 = fold_down(shift_lane_step(lo, hi), sa, c + 1, g.k)->0;
        lemma_starts(g, c);
        lemma_starts(g, c + 1);
        assert(lo(c) == start(g, c, false));
        assert(hi(c) == next_of(ln, b, c, false));
        assert(start(g, c, false) <= next_of(ln, b, c, false) <= start(g, c + 1, false));
        lemma_shift(r0, lo(c), hi(c), lo(c));
        let r = shift_mark_run((r0, true), lo(c), hi(c)).unwrap().0;
        assert(fold_down(shift_lane_step(lo, hi), sa, c, g.k) == Some(r));
        assert forall|y: int| width(g) < y < limit(g) implies r[y] == shifted_at(g, ln, b, sa, c, y) by {
            let q = at(g, y);
            lemma_at(g, y);
            lemma_start(g, c, y);
            assert(r0[y] == shifted_at(g, ln, b, sa, c + 1, y));
            if lo(c) <= y < hi(c) {
                assert(is_l(g.x, at(g, y)) && g.x[at(g, y)] == c);
                if y + 1 < hi(c) {
                    assert(is_l(g.x, at(g, y + 1)) && g.x[at(g, y + 1)] == c);
                    assert(r0[y + 1] == shifted_at(g, ln, b, sa, c + 1, y + 1));
                }
            } else {
                assert(r[y] == r0[y]);
                if is_l(g.x, q) && g.x[q] == c {
                    assert(y < next_of(ln, b, g.x[at(g, y)], false));
                }
            }
        }
    } else {
        assert forall|y: int| width(g) < y < limit(g) implies sa[y] == shifted_at(g, ln, b, sa, c, y) by {
            lemma_at(g, y);
            assert(0 <= g.x[at(g, y)] < g.k);
        }
    }
}

/// After the marks have moved, they say where the next suffix is another.
#[verifier::spinoff_prover]
pub proof fn lemma_turned(g: Field, ln: Lanes, st: InduceState, lo: spec_fn(int) -> int, hi: spec_fn(int) -> int)
    requires
        fielded(g),
        left_done(g, ln, st),
        1 <= g.k,
        forall|i: int| 1 <= i < g.k ==> #[trigger] lo(i) == start(g, i, false),
        forall|i: int| 1 <= i < g.k ==> #[trigger] hi(i) == next_of(ln, st.1, i, false),
    ensures
        ({
            let r = fold_down(shift_lane_step(lo, hi), st.0, 1, g.k);
            &&& r is Some
            &&& r.unwrap().len() == st.0.len()
            &&& forall|y: int| width(g) < y < limit(g) && is_l(g.x, #[trigger] at(g, y)) ==> unmarked(r.unwrap()[y]) == at(g, y)
                && back_true(g, r->0, y)
        }),
{
    let (sa, b, d) = st;
    lemma_shift_lanes(g, ln, st, lo, hi, 1);
    let r = fold_down(shift_lane_step(lo, hi), sa, 1, g.k)->0;
    assert forall|y: int| width(g) < y < limit(g) && is_l(g.x, #[trigger] at(g, y)) implies unmarked(r[y]) == at(g, y) && back_true(
        g,
        r,
        y,
    ) by {
        let q = at(g, y);
        lemma_at(g, y);
        let c = g.x[q];
        assert(0 <= g.x[q] < g.k);
        assert(0 <= g.x[q - 1] < g.k);
        law_type_step(g.x, q - 1);
        assert(c >= 1);
        assert(r[y] == shifted_at(g, ln, b, sa, 1, y));
        assert(unmarked(sa[y]) == at(g, y));
        let h = next_of(ln, b, c, false);
        assert(y < h);
        assert(start(g, c, false) <= next_of(ln, b, c, false) <= start(g, c + 1, false));
        lemma_starts(g, c + 1);
        lemma_start(g, c, y);
        if y + 1 < h {
            assert(is_l(g.x, at(g, y + 1)) && g.x[at(g, y + 1)] == c);
            assert(mark_true(g, sa, y + 1));
            assert(at(g, y + 1 - 1) == q);
            assert(lane_pair(g, y + 1));
            assert(type_pair(g, y));
        } else {
            if type_pair(g, y) {
                assert(is_l(g.x, at(g, y + 1)) && g.x[at(g, y + 1)] == c);
                assert(y + 1 < next_of(ln, b, g.x[at(g, y + 1)], false));
            }
        }
    }
}

} // verus!
