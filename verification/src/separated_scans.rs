//! The scans over the substrings of separated texts: one lane for the separators does what a lane
//! for each of them would do.

use vstd::prelude::*;
use crate::bytes::well_separated;
use crate::fold::{fold_down, fold_up, lemma_fold_shifted};
use crate::gather::{cleared, text32, text8};
use crate::induce::{partial_left_8u, seeded_8u};
use crate::kinds::is_lms;
use crate::lane_left::{
    lane_left_step, lane_seeded, left_ready, lefted, lemma_left_does, lemma_left_first, lemma_left_next, lemma_left_run,
    lemma_visited_filled, name_of, next_of, opens, tables_apart,
};
use crate::lane_right::{
    back_place, finish, lane_right_step, lemma_back_filled, lemma_low_start, lemma_right_does,
    lemma_right_lows, lemma_right_next, lemma_right_run, lemma_right_target, low_pair, low_start,
    low_true, lows, right_ready, righted,
};
use crate::lane_turn::{left_done, lemma_left_done, lemma_shift, lemma_turned, shift_lane_step};
use crate::lanes::{
    at, fielded, in_right, lemma_at, lemma_place, lemma_start, lemma_starts, limit, place_of, start,
    width, Field, Lanes,
};
use crate::marks::{bit, flipped, marked, unmarked};
use crate::orders::{names_opened, partial_order_8u, separators_closed};
use crate::partial_8u::{
    partial_gsa_scan_right_to_left_8u_run, partial_gsa_scan_right_to_left_8u_step,
    partial_sorting_scan_left_to_right_8u_step,
};
use crate::partial_induction::first_lms;
use crate::radix::{flipped_prefix, shift_bucket_8u_run, shift_bucket_8u_step};
use crate::separators::{
    first_closed, lemma_first_closed, lemma_ranked, lemma_ranked_lms, lemma_ranked_types,
    lemma_separator_alone, ranked, ranked_symbol, ranked_symbols, separators,
};
use crate::span::moved;
use crate::types::InduceState;

verus! {

/// Tables with a lane for each of `k` symbols.
pub open spec fn plain_lanes(k: int) -> Lanes {
    Lanes { next: |c: int, v: bool| 2 * c + bit(v), name: |c: int, v: bool| 2 * k + 2 * c + bit(v) }
}

/// What the scans over separated texts start from.
pub open spec fn separated_ready(t: Seq<u8>, g: Field, low: Seq<i32>, cur: Seq<i32>, p: Seq<i32>) -> bool {
    &&& 2 <= t.len() <= i32::MAX
    &&& well_separated(t)
    &&& first_lms(text8(t), g.f)
    &&& g.x == text32(ranked(t))
    &&& fielded(g)
    &&& g.k == ranked_symbols(t)
    &&& !g.exact
    &&& lows(g, low)
    &&& limit(g) == t.len() - g.f
    &&& t.len() <= cur.len()
    &&& 2048 <= p.len()
    &&& forall|y: int| 0 <= y < width(g) && is_lms(g.x, #[trigger] at(g, y)) ==> cur[y] == at(g, y)
    &&& forall|c: int| first_closed(t, g.f) <= c <= separators(t) ==> #[trigger] start(g, c, true) == c - first_closed(t, g.f)
    &&& forall|c: int| 0 <= c < separators(t) ==> #[trigger] low_start(g, low, c) == c
    &&& p[0] == start(g, separators(t), false)
    &&& forall|c: int| 1 <= c < 256 ==> p[#[trigger] (1024 + 2 * c)] == start(g, ranked_symbol(t, c), false)
    &&& forall|c: int| 1 <= c < 256 ==> p[#[trigger] (1024 + 2 * c + 1)] == start(g, ranked_symbol(t, c), true)
    &&& forall|c: int| 1 <= c < 256 ==> p[#[trigger] (2 * c)] == start(g, ranked_symbol(t, c + 1), false)
    &&& forall|c: int| 1 <= c < 256 ==> p[#[trigger] (2 * c + 1)] == low_start(g, low, ranked_symbol(t, c + 1))
}

/// How many separators stand in the slots that the scan to the right visits first.
pub open spec fn leading(t: Seq<u8>, g: Field) -> int {
    separators(t) - 1 - first_closed(t, g.f)
}

/// Whether the tables of bytes hold what the tables of the small symbols hold: the next slots from
/// entry `base` on, and the names.
pub open spec fn same_tables(t: Seq<u8>, base: int, b: Seq<i32>, v: Seq<i32>) -> bool {
    &&& forall|c: int, w: bool| #![trigger next_of(plain_lanes(ranked_symbols(t)), v, ranked_symbol(t, c), w)]
        1 <= c < 256 ==> b[base + 2 * c + bit(w)] == next_of(plain_lanes(ranked_symbols(t)), v, ranked_symbol(t, c), w)
    &&& forall|c: int, w: bool| #![trigger name_of(plain_lanes(ranked_symbols(t)), v, ranked_symbol(t, c), w)]
        1 <= c < 256 ==> b[512 + 2 * c + bit(w)] == name_of(plain_lanes(ranked_symbols(t)), v, ranked_symbol(t, c), w)
}

/// What belongs to the first slots, and what no separator belongs to.
proof fn lemma_leading(t: Seq<u8>, g: Field, y: int)
    requires
        2 <= t.len() <= i32::MAX,
        well_separated(t),
        first_lms(text8(t), g.f),
        g.x == text32(ranked(t)),
        fielded(g),
        forall|c: int| first_closed(t, g.f) <= c <= separators(t) ==> #[trigger] start(g, c, true) == c - first_closed(t, g.f),
        0 <= y < limit(g),
        y != width(g),
    ensures
        0 <= leading(t, g) < width(g),
        y < leading(t, g) ==> g.x[at(g, y)] == y + first_closed(t, g.f) && t[at(g, y)] == 0 && at(g, y) < t.len() - 1 && is_lms(g.x, at(g, y)),
        y < leading(t, g) ==> opens(g, y),
        y > leading(t, g) ==> t[at(g, y)] != 0,
        g.x[at(g, y)] >= separators(t) ==> y > leading(t, g),
{
    let z0 = first_closed(t, g.f);
    let z = separators(t);
    lemma_ranked(t);
    lemma_ranked_lms(t);
    lemma_first_closed(t, g.f);
    lemma_at(g, y);
    let p = at(g, y);
    assert(g.x[p] == ranked(t)[p]);
    assert(start(g, z, true) == z - z0);
    assert(start(g, z - 1, true) == z - 1 - z0);
    lemma_starts(g, z);
    lemma_starts(g, z - 1);
    lemma_start(g, z, y);
    lemma_start(g, z - 1, y);
    assert(t[p] == 0 || t[p] != 0);
    if y > width(g) {
        if t[p] == 0 {
            lemma_ranked_types(t, p);
            lemma_ranked_types(t, p - 1);
        }
    } else if y < leading(t, g) {
        lemma_start(g, y + z0, y);
        lemma_start(g, y + z0 + 1, y);
        assert(start(g, y + z0, true) == y);
        assert(start(g, y + z0 + 1, true) == y + 1);
        assert(is_lms(text8(t), p));
        assert(is_lms(g.x, p));
        if y > 0 {
            lemma_at(g, y - 1);
            lemma_start(g, y + z0, y - 1);
        }
    }
}

/// The tables of the small symbols in front of the scan to the right.
spec fn first_tables(g: Field) -> Seq<i32> {
    Seq::new((4 * g.k) as nat, |j: int| if j < 2 * g.k { start(g, j / 2, j % 2 == 1) as i32 } else { 0 })
}

/// The scan to the right with a lane for each separator can start.
proof fn lemma_separated_start(t: Seq<u8>, g: Field, low: Seq<i32>, cur: Seq<i32>, p: Seq<i32>)
    requires
        separated_ready(t, g, low, cur, p),
    ensures
        left_ready(g, plain_lanes(g.k), 4 * g.k, (flipped_prefix(cur, leading(t, g)), first_tables(g), 0)),
        tables_apart(plain_lanes(g.k), g.k, 4 * g.k),
{
    let ln = plain_lanes(g.k);
    let sa = flipped_prefix(cur, leading(t, g));
    let b = first_tables(g);
    lemma_ranked(t);
    assert(is_lms(g.x, g.f)) by {
        lemma_ranked_lms(t);
        assert(is_lms(text8(t), g.f));
    }
    assert forall|c: int, v: bool| 0 <= c < g.k implies #[trigger] next_of(ln, b, c, v) == start(g, c, v) by {
        lemma_starts(g, c);
        assert((2 * c + bit(v)) / 2 == c);
        assert(((2 * c + bit(v)) % 2 == 1) == v);
    }
    assert forall|c: int, v: bool| 0 <= c < g.k implies #[trigger] name_of(ln, b, c, v) == 0 by {}
    assert forall|y: int| 0 <= y < width(g) && is_lms(g.x, #[trigger] at(g, y)) implies unmarked(sa[y]) == at(g, y) && (sa[y] < 0
        ==> opens(g, y)) by {
        lemma_at(g, y);
        lemma_leading(t, g, y);
        assert(cur[y] == at(g, y));
    }
}

/// A step of the scan to the right follows the one with a lane for each separator.
proof fn lemma_separated_left_step(t: Seq<u8>, g: Field, low: Seq<i32>, cur: Seq<i32>, p: Seq<i32>, st: InduceState, sv: InduceState, i: int)
    requires
        separated_ready(t, g, low, cur, p),
        tables_apart(plain_lanes(g.k), g.k, 4 * g.k),
        lefted(g, plain_lanes(g.k), 4 * g.k, sv, i),
        0 <= i < width(g),
        st.0 == sv.0,
        st.2 == sv.2,
        st.1.len() == p.len(),
        same_tables(t, 1024, st.1, sv.1),
    ensures
        ({
            let x = partial_sorting_scan_left_to_right_8u_step(t)(st, i);
            let y = lane_left_step(g.x, plain_lanes(g.k))(sv, i);
            &&& x is Some
            &&& y is Some
            &&& x.unwrap().0 == y.unwrap().0
            &&& x.unwrap().2 == y.unwrap().2
            &&& x.unwrap().1.len() == p.len()
            &&& same_tables(t, 1024, x.unwrap().1, y.unwrap().1)
            &&& forall|j: int| 0 <= j < 512 || 1536 <= j < p.len() ==> #[trigger] x.unwrap().1[j] == st.1[j]
            &&& forall|j: int| 0 <= j < leading(t, g) ==> #[trigger] x.unwrap().0[j] == st.0[j]
            &&& x.unwrap().0.len() == st.0.len()
        }),
{
    let ln = plain_lanes(g.k);
    let n = t.len() as int;
    let v = at(g, i);
    let q = v - 1;
    lemma_ranked(t);
    lemma_left_does(g, ln, 4 * g.k, sv, i);
    lemma_left_next(g, i);
    lemma_visited_filled(g, i, i);
    assert(unmarked(sv.0[i]) == v);
    lemma_ranked_types(t, q);
    lemma_first_closed(t, g.f);
    assert(t[q] != 0);
    assert(t[q - 1] == 0 || t[q - 1] != 0);
    let c = t[q] as int;
    let w = t[q - 1] >= t[q];
    assert(g.x[q] == ranked(t)[q] && g.x[q - 1] == ranked(t)[q - 1]);
    assert(w == (g.x[q - 1] >= g.x[q]));
    assert(ranked_symbol(t, c) == g.x[q]);
    let r = place_of(g, q);
    lemma_place(g, q);
    lemma_leading(t, g, r);
    assert(next_of(ln, sv.1, ranked_symbol(t, c), w) == sv.1[(ln.next)(g.x[q], w)]);
    assert(st.1[1024 + 2 * c + bit(w)] == next_of(ln, sv.1, ranked_symbol(t, c), w));
    assert(st.1[512 + 2 * c + bit(w)] == name_of(ln, sv.1, ranked_symbol(t, c), w));
    let x = partial_sorting_scan_left_to_right_8u_step(t)(st, i)->0;
    let y = lane_left_step(g.x, ln)(sv, i)->0;
    assert(x.0 == y.0);
    assert forall|d: int, u: bool| #![trigger next_of(ln, y.1, ranked_symbol(t, d), u)]
        1 <= d < 256 implies x.1[1024 + 2 * d + bit(u)] == next_of(ln, y.1, ranked_symbol(t, d), u) by {
        assert(st.1[1024 + 2 * d + bit(u)] == next_of(ln, sv.1, ranked_symbol(t, d), u));
    }
    assert forall|d: int, u: bool| #![trigger name_of(ln, y.1, ranked_symbol(t, d), u)]
        1 <= d < 256 implies x.1[512 + 2 * d + bit(u)] == name_of(ln, y.1, ranked_symbol(t, d), u) by {
        assert(st.1[512 + 2 * d + bit(u)] == name_of(ln, sv.1, ranked_symbol(t, d), u));
    }
}

/// The scan to the right follows the one with a lane for each separator.
#[verifier::spinoff_prover]
proof fn lemma_separated_left(t: Seq<u8>, g: Field, low: Seq<i32>, cur: Seq<i32>, p: Seq<i32>, i: int)
    requires
        separated_ready(t, g, low, cur, p),
        0 <= i <= width(g),
    ensures
        ({
            let ln = plain_lanes(g.k);
            let lead = leading(t, g);
            let o = (flipped_prefix(cur, lead), cleared(p, 512, 1024).update(1025, lead as i32), 0i32);
            let first = seeded_8u(t, t.len() as int, o);
            let x = fold_up(partial_sorting_scan_left_to_right_8u_step(t), first->0, 0, i);
            let y = fold_up(lane_left_step(g.x, ln), lane_seeded(g.x, ln, (o.0, first_tables(g), 0)), 0, i);
            &&& first is Some
            &&& x is Some
            &&& y is Some
            &&& x.unwrap().0 == y.unwrap().0
            &&& x.unwrap().2 == y.unwrap().2
            &&& x.unwrap().1.len() == p.len()
            &&& x.unwrap().0.len() == cur.len()
            &&& same_tables(t, 1024, x.unwrap().1, y.unwrap().1)
            &&& forall|j: int| 0 <= j < 512 || 1536 <= j < p.len() ==> #[trigger] x.unwrap().1[j] == p[j]
            &&& forall|j: int| 0 <= j < lead ==> #[trigger] x.unwrap().0[j] == flipped(cur[j])
        }),
    decreases i,
{
    let n = t.len() as int;
    let ln = plain_lanes(g.k);
    let lead = leading(t, g);
    let o = (flipped_prefix(cur, lead), cleared(p, 512, 1024).update(1025, lead as i32), 0i32);
    let v0 = first_tables(g);
    let z = separators(t);
    lemma_ranked(t);
    lemma_first_closed(t, g.f);
    lemma_separated_start(t, g, low, cur, p);
    lemma_left_first(g, ln, 4 * g.k, (o.0, v0, 0));
    let fv = lane_seeded(g.x, ln, (o.0, v0, 0));
    lemma_ranked_types(t, n - 1);
    assert(g.x[n - 1] == z - 1 && g.x[n - 2] == ranked(t)[n - 2]);
    assert(g.x[n - 2] >= g.x[n - 1]);
    assert(next_of(ln, v0, z - 1, true) == start(g, z - 1, true));
    assert(start(g, z - 1, true) == lead);
    let first = seeded_8u(t, n, o);
    lemma_starts(g, z - 1);
    assert(first is Some);
    assert(first.unwrap().0 == fv.0);
    assert forall|d: int, u: bool| #![trigger next_of(ln, fv.1, ranked_symbol(t, d), u)]
        1 <= d < 256 implies first.unwrap().1[1024 + 2 * d + bit(u)] == next_of(ln, fv.1, ranked_symbol(t, d), u) by {
        assert(next_of(ln, v0, ranked_symbol(t, d), u) == start(g, ranked_symbol(t, d), u));
        assert(p[1024 + 2 * d] == start(g, ranked_symbol(t, d), false));
        assert(p[1024 + 2 * d + 1] == start(g, ranked_symbol(t, d), true));
    }
    assert forall|d: int, u: bool| #![trigger name_of(ln, fv.1, ranked_symbol(t, d), u)]
        1 <= d < 256 implies first.unwrap().1[512 + 2 * d + bit(u)] == name_of(ln, fv.1, ranked_symbol(t, d), u) by {
        assert(name_of(ln, v0, ranked_symbol(t, d), u) == 0);
    }
    if i > 0 {
        lemma_separated_left(t, g, low, cur, p, i - 1);
        lemma_left_run(g, ln, 4 * g.k, (o.0, v0, 0), i - 1);
        let st = fold_up(partial_sorting_scan_left_to_right_8u_step(t), first->0, 0, i - 1)->0;
        let sv = fold_up(lane_left_step(g.x, ln), fv, 0, i - 1)->0;
        lemma_separated_left_step(t, g, low, cur, p, st, sv, i - 1);
    }
}

/// Buckets without entries change nothing.
proof fn lemma_shift_none(lo: spec_fn(int) -> int, hi: spec_fn(int) -> int, s: Seq<i32>, c: int, z: int, k: int)
    requires
        c <= z <= k,
        forall|i: int| c <= i < z ==> #[trigger] lo(i) >= hi(i),
    ensures
        fold_down(shift_lane_step(lo, hi), s, c, k) == fold_down(shift_lane_step(lo, hi), s, z, k),
    decreases z - c,
{
    if c < z {
        lemma_shift_none(lo, hi, s, c + 1, z, k);
        assert(lo(c) >= hi(c));
    }
}

/// Moving marks keeps the slots in front.
proof fn lemma_shift_frame(lo: spec_fn(int) -> int, hi: spec_fn(int) -> int, s: Seq<i32>, c: int, k: int, w: int)
    requires
        forall|i: int| c <= i < k ==> w <= #[trigger] lo(i) <= hi(i) <= s.len(),
        0 <= w,
    ensures
        ({
            let r = fold_down(shift_lane_step(lo, hi), s, c, k);
            &&& r is Some
            &&& r.unwrap().len() == s.len()
            &&& forall|j: int| 0 <= j < w ==> #[trigger] r.unwrap()[j] == s[j]
        }),
    decreases k - c,
{
    if c < k {
        lemma_shift_frame(lo, hi, s, c + 1, k, w);
        let r = fold_down(shift_lane_step(lo, hi), s, c + 1, k)->0;
        assert(w <= lo(c));
        lemma_shift(r, lo(c), hi(c), lo(c));
    }
}

/// No separator stands in the second area.
proof fn lemma_second_start(t: Seq<u8>, g: Field, c: int)
    requires
        2 <= t.len() <= i32::MAX,
        well_separated(t),
        g.x == text32(ranked(t)),
        fielded(g),
        0 <= c <= separators(t),
    ensures
        start(g, c, false) == width(g) + 1,
{
    let sel = |j: int| g.x[g.right[j] as int] < c;
    lemma_ranked(t);
    assert forall|j: int| 0 <= j < g.right.len() implies !#[trigger] sel(j) by {
        let v = g.right[j] as int;
        assert(in_right(g.x, g.f, v));
        assert(is_lms(g.x, g.f));
        lemma_ranked_types(t, v);
        lemma_ranked_types(t, v - 1);
        assert(t[v] == 0 || t[v] != 0);
        assert(g.x[v] == ranked(t)[v]);
    }
    lemma_none(sel, 0, g.right.len() as int);
}

/// Where nothing is selected, nothing is counted.
proof fn lemma_none(sel: spec_fn(int) -> bool, lo: int, hi: int)
    requires
        forall|j: int| lo <= j < hi ==> !#[trigger] sel(j),
    ensures
        crate::lengths::tally(sel, lo, hi) == 0,
    decreases hi - lo,
{
    if lo < hi {
        lemma_none(sel, lo + 1, hi);
        assert(!sel(lo));
    }
}

/// The tables of the small symbols in front of the scan to the left, with the names of bytes in
/// the tables `b`.
spec fn second_tables(t: Seq<u8>, g: Field, low: Seq<i32>, b: Seq<i32>) -> Seq<i32> {
    Seq::new(
        (4 * g.k) as nat,
        |j: int|
            if j < 2 * g.k {
                finish(g, low, j / 2, j % 2 == 1) as i32
            } else if (j - 2 * g.k) / 2 >= separators(t) {
                b[512 + (j - 2 * g.k) - 2 * (separators(t) - 1)]
            } else {
                0
            },
    )
}

/// The scan to the left with a lane for each separator can start.
#[verifier::spinoff_prover]
proof fn lemma_separated_turn(t: Seq<u8>, g: Field, low: Seq<i32>, cur: Seq<i32>, p: Seq<i32>, st: InduceState, sv: InduceState)
    requires
        separated_ready(t, g, low, cur, p),
        left_done(g, plain_lanes(g.k), sv),
        st.0 == sv.0,
        st.2 == sv.2,
        st.0.len() == cur.len(),
        st.1.len() == p.len(),
        same_tables(t, 1024, st.1, sv.1),
        forall|j: int| 0 <= j < 512 || 1536 <= j < p.len() ==> #[trigger] st.1[j] == p[j],
    ensures
        ({
            let r = shift_bucket_8u_run(st.1, st.0, 1, 256);
            &&& r is Some
            &&& r.unwrap().len() == cur.len()
            &&& right_ready(g, low, plain_lanes(g.k), 4 * g.k, (r->0, second_tables(t, g, low, st.1), st.2))
            &&& same_tables(t, 0, st.1, second_tables(t, g, low, st.1))
            &&& forall|j: int| 0 <= j <= width(g) ==> #[trigger] r.unwrap()[j] == st.0[j]
        }),
{
    let ln = plain_lanes(g.k);
    let k = g.k;
    let z = separators(t);
    let b = st.1;
    let lo = |i: int| start(g, i, false);
    let hi = |i: int| next_of(ln, sv.1, i, false);
    let f = shift_bucket_8u_step(b);
    let h = shift_lane_step(lo, hi);
    lemma_ranked(t);
    assert(is_lms(g.x, g.f)) by {
        lemma_ranked_lms(t);
        assert(is_lms(text8(t), g.f));
    }
    lemma_turned(g, ln, sv, lo, hi);
    assert forall|i: int| 1 <= i < z implies #[trigger] lo(i) >= hi(i) by {
        lemma_second_start(t, g, i);
        lemma_second_start(t, g, i + 1);
        assert(next_of(ln, sv.1, i, false) <= start(g, i + 1, false));
    }
    lemma_shift_none(lo, hi, sv.0, 1, z, k);
    assert forall|s: Seq<i32>, i: int| 1 <= i < 256 implies #[trigger] f(s, i) == h(s, i + (z - 1)) by {
        assert(i + (z - 1) == ranked_symbol(t, i));
        assert(b[1024 + 2 * i + bit(false)] == next_of(ln, sv.1, ranked_symbol(t, i), false));
        assert(b[2 * i - 2] == p[2 * i - 2]);
        if i > 1 {
            assert(p[2 * (i - 1)] == start(g, ranked_symbol(t, i - 1 + 1), false));
        } else {
            assert(ranked_symbol(t, 1) == z);
        }
        assert(b[2 * i - 2] == lo(i + (z - 1)));
        assert(b[1024 + 2 * i] == hi(i + (z - 1)));
    }
    lemma_fold_shifted(f, h, sv.0, z - 1, 1, 256);
    assert forall|i: int| 1 <= i < k implies width(g) + 1 <= #[trigger] lo(i) <= hi(i) <= sv.0.len() by {
        lemma_starts(g, i);
        lemma_starts(g, i + 1);
        assert(next_of(ln, sv.1, i, false) <= start(g, i + 1, false));
    }
    lemma_shift_frame(lo, hi, sv.0, 1, k, width(g) + 1);
    let r = shift_bucket_8u_run(st.1, st.0, 1, 256)->0;
    let v = second_tables(t, g, low, b);
    assert(tables_apart(ln, k, 4 * k));
    assert forall|c: int, w: bool| 0 <= c < k implies #[trigger] next_of(ln, v, c, w) == finish(g, low, c, w) by {
        lemma_starts(g, c + 1);
        lemma_low_start(g, low, c + 1);
        assert((2 * c + bit(w)) / 2 == c);
        assert(((2 * c + bit(w)) % 2 == 1) == w);
    }
    assert forall|c: int, w: bool| 0 <= c < k implies #[trigger] name_of(ln, v, c, w) <= st.2 by {
        assert((2 * k + 2 * c + bit(w) - 2 * k) / 2 == c);
        if c >= z {
            let d = c - (z - 1);
            assert(ranked_symbol(t, d) == c);
            assert(b[512 + 2 * d + bit(w)] == name_of(ln, sv.1, ranked_symbol(t, d), w));
            assert(name_of(ln, sv.1, c, w) <= sv.2);
        }
    }
    assert forall|c: int, w: bool| #![trigger next_of(ln, v, ranked_symbol(t, c), w)]
        1 <= c < 256 implies b[0 + 2 * c + bit(w)] == next_of(ln, v, ranked_symbol(t, c), w) by {
        assert(p[2 * c] == start(g, ranked_symbol(t, c + 1), false));
        assert(p[2 * c + 1] == low_start(g, low, ranked_symbol(t, c + 1)));
        assert(b[2 * c] == p[2 * c] && b[2 * c + 1] == p[2 * c + 1]);
        assert(next_of(ln, v, ranked_symbol(t, c), w) == finish(g, low, ranked_symbol(t, c), w));
        assert(ranked_symbol(t, c + 1) == ranked_symbol(t, c) + 1);
    }
    assert forall|c: int, w: bool| #![trigger name_of(ln, v, ranked_symbol(t, c), w)]
        1 <= c < 256 implies b[512 + 2 * c + bit(w)] == name_of(ln, v, ranked_symbol(t, c), w) by {
        assert((2 * k + 2 * ranked_symbol(t, c) + bit(w) - 2 * k) / 2 == ranked_symbol(t, c));
    }
}

/// How the arrays of the scan to the left stand to each other: the one without lanes for the
/// separators keeps the first slots.
spec fn back_follows(t: Seq<u8>, y: Seq<i32>, sa: Seq<i32>, va: Seq<i32>) -> bool {
    &&& sa.len() == va.len()
    &&& sa.len() == y.len()
    &&& forall|j: int| separators(t) - 1 <= j < sa.len() ==> #[trigger] sa[j] == va[j]
    &&& forall|j: int| 0 <= j < separators(t) - 1 ==> #[trigger] sa[j] == y[j]
}

/// A step of the scan to the left follows the one with a lane for each separator.
#[verifier::spinoff_prover]
#[verifier::rlimit(60)]
proof fn lemma_separated_right_step(
    t: Seq<u8>,
    g: Field,
    low: Seq<i32>,
    cur: Seq<i32>,
    p: Seq<i32>,
    y: Seq<i32>,
    d0: int,
    st: InduceState,
    sv: InduceState,
    i: int,
)
    requires
        separated_ready(t, g, low, cur, p),
        tables_apart(plain_lanes(g.k), g.k, 4 * g.k),
        righted(g, low, plain_lanes(g.k), 4 * g.k, d0, sv, i + 1),
        d0 + g.right.len() <= i32::MAX,
        width(g) < i < limit(g),
        back_follows(t, y, st.0, sv.0),
        st.2 == sv.2,
        st.1.len() == p.len(),
        same_tables(t, 0, st.1, sv.1),
    ensures
        ({
            let x = partial_gsa_scan_right_to_left_8u_step(t)(st, i);
            let z = lane_right_step(g.x, plain_lanes(g.k))(sv, i);
            &&& x is Some
            &&& z is Some
            &&& back_follows(t, y, x.unwrap().0, z.unwrap().0)
            &&& x.unwrap().2 == z.unwrap().2
            &&& x.unwrap().1.len() == p.len()
            &&& same_tables(t, 0, x.unwrap().1, z.unwrap().1)
            &&& forall|j: int| 1536 <= j < p.len() ==> #[trigger] x.unwrap().1[j] == st.1[j]
        }),
{
    let ln = plain_lanes(g.k);
    let n = t.len() as int;
    let v = at(g, i);
    let q = v - 1;
    let zs = separators(t);
    lemma_ranked(t);
    lemma_ranked_lms(t);
    lemma_right_does(g, low, ln, 4 * g.k, d0, sv, i);
    lemma_right_next(g, low, i);
    lemma_back_filled(g, i, i + 1);
    assert(unmarked(sv.0[i]) == v);
    lemma_first_closed(t, g.f);
    lemma_low_start(g, low, zs - 1);
    lemma_low_start(g, low, zs);
    assert(low_start(g, low, zs - 1) == zs - 1);
    assert(zs - 1 <= low.len() <= width(g) + 1);
    assert(st.0[i] == sv.0[i]);
    assert(t[q - 1] == 0 || t[q - 1] != 0);
    assert(g.x[q] == ranked(t)[q] && g.x[q - 1] == ranked(t)[q - 1]);
    let r = back_place(g, low, q);
    let x = partial_gsa_scan_right_to_left_8u_step(t)(st, i);
    let z = lane_right_step(g.x, ln)(sv, i)->0;
    if t[q] == 0 {
        assert(is_lms(text8(t), q));
        assert(is_lms(g.x, q));
        assert(low[r] == q);
        assert((g.x[low[r] as int] < zs - 1) == (r < zs - 1));
        assert(t[q - 1] > t[q]);
        assert(x == Some((st.0, st.1, z.2)));
        assert forall|d: int, u: bool| #![trigger next_of(ln, z.1, ranked_symbol(t, d), u)]
            1 <= d < 256 implies st.1[0 + 2 * d + bit(u)] == next_of(ln, z.1, ranked_symbol(t, d), u) by {
            assert(st.1[0 + 2 * d + bit(u)] == next_of(ln, sv.1, ranked_symbol(t, d), u));
        }
        assert forall|d: int, u: bool| #![trigger name_of(ln, z.1, ranked_symbol(t, d), u)]
            1 <= d < 256 implies st.1[512 + 2 * d + bit(u)] == name_of(ln, z.1, ranked_symbol(t, d), u) by {
            assert(st.1[512 + 2 * d + bit(u)] == name_of(ln, sv.1, ranked_symbol(t, d), u));
        }
    } else {
        let c = t[q] as int;
        let w = t[q - 1] > t[q];
        assert(w == (g.x[q - 1] > g.x[q]));
        assert(ranked_symbol(t, c) == g.x[q]);
        if is_lms(g.x, q) {
            assert(low[r] == q);
            assert((g.x[low[r] as int] < zs - 1) == (r < zs - 1));
        }
        assert(r >= zs - 1);
        assert(st.1[0 + 2 * c + bit(w)] == next_of(ln, sv.1, ranked_symbol(t, c), w));
        assert(st.1[512 + 2 * c + bit(w)] == name_of(ln, sv.1, ranked_symbol(t, c), w));
        lemma_right_target(g, low, ln, 4 * g.k, d0, sv, i);
        assert(w == is_lms(g.x, q));
        assert(st.1[0 + 2 * c + bit(w)] - 1 == r);
        let x1 = x->0;
        assert(x is Some);
        assert(x1.0 == st.0.update(r, z.0[r]));
        assert forall|d: int, u: bool| #![trigger next_of(ln, z.1, ranked_symbol(t, d), u)]
            1 <= d < 256 implies x1.1[0 + 2 * d + bit(u)] == next_of(ln, z.1, ranked_symbol(t, d), u) by {
            assert(st.1[0 + 2 * d + bit(u)] == next_of(ln, sv.1, ranked_symbol(t, d), u));
        }
        assert forall|d: int, u: bool| #![trigger name_of(ln, z.1, ranked_symbol(t, d), u)]
            1 <= d < 256 implies x1.1[512 + 2 * d + bit(u)] == name_of(ln, z.1, ranked_symbol(t, d), u) by {
            assert(st.1[512 + 2 * d + bit(u)] == name_of(ln, sv.1, ranked_symbol(t, d), u));
        }
    }
}

/// The scan to the left follows the one with a lane for each separator.
#[verifier::spinoff_prover]
proof fn lemma_separated_right(
    t: Seq<u8>,
    g: Field,
    low: Seq<i32>,
    cur: Seq<i32>,
    p: Seq<i32>,
    s: InduceState,
    v: Seq<i32>,
    i: int,
)
    requires
        separated_ready(t, g, low, cur, p),
        right_ready(g, low, plain_lanes(g.k), 4 * g.k, (s.0, v, s.2)),
        s.1.len() == p.len(),
        same_tables(t, 0, s.1, v),
        width(g) < i <= limit(g),
    ensures
        ({
            let x = fold_down(partial_gsa_scan_right_to_left_8u_step(t), s, i, limit(g));
            let y = fold_down(lane_right_step(g.x, plain_lanes(g.k)), (s.0, v, s.2), i, limit(g));
            &&& x is Some
            &&& y is Some
            &&& back_follows(t, s.0, x.unwrap().0, y.unwrap().0)
            &&& x.unwrap().2 == y.unwrap().2
            &&& x.unwrap().1.len() == p.len()
            &&& same_tables(t, 0, x.unwrap().1, y.unwrap().1)
            &&& forall|j: int| 1536 <= j < p.len() ==> #[trigger] x.unwrap().1[j] == s.1[j]
        }),
    decreases limit(g) - i,
{
    let ln = plain_lanes(g.k);
    if i < limit(g) {
        lemma_separated_right(t, g, low, cur, p, s, v, i + 1);
        lemma_right_run(g, low, ln, 4 * g.k, (s.0, v, s.2), i + 1);
        let st = fold_down(partial_gsa_scan_right_to_left_8u_step(t), s, i + 1, limit(g))->0;
        let sv = fold_down(lane_right_step(g.x, ln), (s.0, v, s.2), i + 1, limit(g))->0;
        lemma_separated_right_step(t, g, low, cur, p, s.0, s.2 as int, st, sv, i);
    }
}

/// How many leftmost suffixes of type S are separators, and their symbols.
proof fn lemma_low_separators(t: Seq<u8>, g: Field, low: Seq<i32>, cur: Seq<i32>, p: Seq<i32>)
    requires
        separated_ready(t, g, low, cur, p),
    ensures
        separators(t) - 1 <= low.len() <= width(g) + 1,
        low_start(g, low, separators(t)) == separators(t) - 1,
        forall|j: int| 0 <= j < separators(t) - 1 ==> 0 < #[trigger] low[j] < t.len() && ranked(t)[low[j] as int] == j,
        forall|j: int| 0 <= j < separators(t) - 1 ==> !#[trigger] low_pair(g, low, j),
{
    let n = t.len() as int;
    let zs = separators(t);
    lemma_ranked(t);
    lemma_ranked_lms(t);
    lemma_low_start(g, low, zs - 1);
    lemma_low_start(g, low, zs);
    assert(low_start(g, low, zs - 1) == zs - 1);
    assert forall|j: int| 0 <= j < low.len() implies 0 < #[trigger] low[j] < n - 1 && g.x[low[j] as int] == ranked(t)[low[j] as int]
        && (g.x[low[j] as int] < zs) == (g.x[low[j] as int] < zs - 1) by {
        assert(is_lms(g.x, low[j] as int));
        assert(is_lms(text8(t), low[j] as int));
        if ranked(t)[low[j] as int] == zs - 1 {
            lemma_separator_alone(t, low[j] as int, n - 1);
        }
    }
    let l = low_start(g, low, zs);
    if l < zs - 1 {
        assert((g.x[low[l] as int] < zs) == (l < l));
        assert((g.x[low[l] as int] < zs - 1) == (l < zs - 1));
    } else if l > zs - 1 {
        assert((g.x[low[zs - 1] as int] < zs) == (zs - 1 < l));
        assert((g.x[low[zs - 1] as int] < zs - 1) == (zs - 1 < zs - 1));
    }
    assert forall|j: int| 0 <= j < zs - 1 implies 0 < #[trigger] low[j] < n && ranked(t)[low[j] as int] == j by {
        lemma_low_start(g, low, j);
        lemma_low_start(g, low, j + 1);
        assert(low_start(g, low, j) == j);
        assert(low_start(g, low, j + 1) == j + 1);
        assert((g.x[low[j] as int] < j) == (j < j));
        assert((g.x[low[j] as int] < j + 1) == (j < j + 1));
    }
    assert forall|j: int| 0 <= j < zs - 1 implies !#[trigger] low_pair(g, low, j) by {
        if j + 1 < low.len() {
            assert(ranked(t)[low[j] as int] == j);
            if j + 1 < zs - 1 {
                assert(ranked(t)[low[j + 1] as int] == j + 1);
            } else {
                assert((g.x[low[j + 1] as int] < zs - 1) == (j + 1 < zs - 1));
            }
            assert(g.x[low[j] as int] == ranked(t)[low[j] as int]);
            assert(g.x[low[j + 1] as int] == ranked(t)[low[j + 1] as int]);
        }
    }
}

/// Closing the bucket of the separators.
#[verifier::spinoff_prover]
proof fn lemma_separated_closed(t: Seq<u8>, g: Field, low: Seq<i32>, cur: Seq<i32>, p: Seq<i32>, sa: Seq<i32>, b: Seq<i32>, va: Seq<i32>)
    requires
        separated_ready(t, g, low, cur, p),
        sa.len() == cur.len(),
        va.len() == cur.len(),
        b.len() == p.len(),
        b[3] == separators(t) - 1,
        forall|j: int| 0 <= j < leading(t, g) ==> #[trigger] sa[j] == flipped(cur[j]),
        forall|j: int| separators(t) - 1 <= j < sa.len() ==> #[trigger] sa[j] == va[j],
        forall|j: int| #![trigger low[j]] 0 <= j < low.len() ==> unmarked(va[j]) == low[j] && low_true(g, low, va, j),
    ensures
        ({
            let r = separators_closed(t, g.f, (sa, b));
            &&& r is Some
            &&& r.unwrap().0.len() == cur.len()
            &&& r.unwrap().1 == b.update(1, 0)
            &&& forall|j: int| #![trigger low[j]] 0 <= j < low.len() ==> unmarked(r.unwrap().0[j]) == low[j] && low_true(
                g,
                low,
                r.unwrap().0,
                j,
            )
        }),
{
    let n = t.len() as int;
    let zs = separators(t);
    let z0 = first_closed(t, g.f);
    let lead = leading(t, g);
    let f = g.f;
    lemma_ranked(t);
    lemma_first_closed(t, f);
    lemma_low_separators(t, g, low, cur, p);
    assert forall|j: int| 0 <= j < lead implies #[trigger] sa[j] == marked(low[j + z0], true) by {
        lemma_starts(g, zs);
        assert(start(g, zs, true) == zs - z0);
        lemma_leading(t, g, j);
        lemma_at(g, j);
        assert(cur[j] == at(g, j));
        assert(g.x[at(g, j)] == ranked(t)[at(g, j)]);
        assert(ranked(t)[low[j + z0] as int] == j + z0);
        lemma_separator_alone(t, at(g, j), low[j + z0] as int);
    }
    let r = separators_closed(t, f, (sa, b));
    if t[f] == 0 {
        assert(ranked(t)[f] == 0);
        assert(ranked(t)[low[0] as int] == 0);
        lemma_separator_alone(t, f, low[0] as int);
        assert(r == Some((moved(sa, 0, lead, 1).update(0, marked(f as i32, true)), b.update(1, 0))));
    } else {
        assert(r == Some((sa, b.update(1, 0))));
    }
    let a = r.unwrap().0;
    assert forall|j: int| 0 <= j < zs - 1 implies #[trigger] a[j] == marked(low[j], true) by {
        if j >= z0 {
            assert(sa[j - z0] == marked(low[j - z0 + z0], true));
        }
    }
    assert forall|j: int| zs - 1 <= j < low.len() implies #[trigger] a[j] == va[j] by {
        assert(sa[j] == va[j]);
    }
    assert forall|j: int| #![trigger low[j]] 0 <= j < low.len() implies unmarked(a[j]) == low[j] && low_true(g, low, a, j) by {
        if j < zs - 1 {
            assert(a[j] == marked(low[j], true));
            assert(!low_pair(g, low, j));
        } else {
            assert(a[j] == va[j]);
            assert(low_true(g, low, va, j));
        }
    }
}

/// The scans over the substrings of separated texts sort the leftmost suffixes of type S by their
/// substrings and mark where a substring differs from the next, and leave how many of these
/// suffixes start with smaller symbols.
#[verifier::spinoff_prover]
pub proof fn lemma_separated_scans(t: Seq<u8>, g: Field, low: Seq<i32>, cur: Seq<i32>, p: Seq<i32>)
    requires
        separated_ready(t, g, low, cur, p),
    ensures
        ({
            let r = partial_order_8u(t, t.len() as int, true, g.f, width(g), (cur, p));
            &&& r is Some
            &&& r.unwrap().0.len() == cur.len()
            &&& r.unwrap().1.len() == p.len()
            &&& forall|j: int| #![trigger low[j]] 0 <= j < low.len() ==> unmarked(r.unwrap().0[j]) == low[j] && low_true(
                g,
                low,
                r.unwrap().0,
                j,
            )
            &&& r.unwrap().1[1] == 0
            &&& forall|c: int| 1 <= c < 256 ==> r.unwrap().1[#[trigger] (2 * c + 1)] == low_start(g, low, ranked_symbol(t, c))
            &&& forall|j: int| 1536 <= j < p.len() ==> #[trigger] r.unwrap().1[j] == p[j]
        }),
{
    let n = t.len() as int;
    let ln = plain_lanes(g.k);
    let zs = separators(t);
    let z0 = first_closed(t, g.f);
    let lead = leading(t, g);
    let f = g.f;
    lemma_ranked(t);
    lemma_first_closed(t, f);
    lemma_low_separators(t, g, low, cur, p);
    let one: int = 1;
    assert(p[1024 + 2 * one + 1] == start(g, ranked_symbol(t, one), true));
    assert(ranked_symbol(t, 1) == zs);
    assert(start(g, zs, true) == zs - z0);
    let o = (flipped_prefix(cur, lead), cleared(p, 512, 1024).update(1025, lead as i32), 0i32);
    lemma_starts(g, zs);
    assert(names_opened(true, (cur, p)) == Some((o.0, o.1)));
    lemma_separated_start(t, g, low, cur, p);
    lemma_separated_left(t, g, low, cur, p, width(g));
    lemma_left_done(g, ln, 4 * g.k, (o.0, first_tables(g), 0));
    let st = partial_left_8u(t, n, width(g), o)->0;
    let sv = fold_up(lane_left_step(g.x, ln), lane_seeded(g.x, ln, (o.0, first_tables(g), 0)), 0, width(g))->0;
    assert(partial_left_8u(t, n, width(g), o) is Some);
    lemma_separated_turn(t, g, low, cur, p, st, sv);
    let y = shift_bucket_8u_run(st.1, st.0, 1, 256)->0;
    let v = second_tables(t, g, low, st.1);
    let s: InduceState = (y, st.1, st.2);
    lemma_separated_right(t, g, low, cur, p, s, v, width(g) + 1);
    lemma_right_lows(g, low, ln, 4 * g.k, (y, v, st.2));
    let z = fold_down(partial_gsa_scan_right_to_left_8u_step(t), s, width(g) + 1, limit(g))->0;
    let zv = fold_down(lane_right_step(g.x, ln), (y, v, st.2), width(g) + 1, limit(g))->0;
    assert(partial_gsa_scan_right_to_left_8u_run(t, s, width(g) + 1, (n - f) - (width(g) + 1)) == Some(z));
    assert forall|c: int| 1 <= c < 256 implies z.1[#[trigger] (2 * c + 1)] == low_start(g, low, ranked_symbol(t, c)) by {
        assert(z.1[0 + 2 * c + bit(true)] == next_of(ln, zv.1, ranked_symbol(t, c), true));
        assert(next_of(ln, zv.1, ranked_symbol(t, c), true) == low_start(g, low, ranked_symbol(t, c)));
    }
    assert(z.1[2 * one + 1] == low_start(g, low, ranked_symbol(t, one)));
    assert forall|j: int| 0 <= j < lead implies #[trigger] z.0[j] == flipped(cur[j]) by {
        assert(z.0[j] == y[j]);
        assert(y[j] == st.0[j]);
        assert(st.0[j] == flipped(cur[j]));
    }
    lemma_separated_closed(t, g, low, cur, p, z.0, z.1, zv.0);
    let r = separators_closed(t, f, (z.0, z.1));
    assert(partial_order_8u(t, n, true, f, width(g), (cur, p)) == r);
    assert forall|c: int| 1 <= c < 256 implies r.unwrap().1[#[trigger] (2 * c + 1)] == low_start(g, low, ranked_symbol(t, c)) by {
        assert(z.1[2 * c + 1] == low_start(g, low, ranked_symbol(t, c)));
    }
    assert forall|j: int| 1536 <= j < p.len() implies #[trigger] r.unwrap().1[j] == p[j] by {
        assert(z.1[j] == st.1[j]);
        assert(st.1[j] == p[j]);
    }
}

} // verus!
