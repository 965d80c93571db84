//! The scan to the right with four buckets for each symbol: it visits what the scan over lanes
//! visits, in the same order and under the same names.

use vstd::prelude::*;
use crate::fold::fold_up;
use crate::gather::text32;
use crate::induce::{partial_left_32s_4k, seeded_32s_1k, seeded_32s_4k};
use crate::induction::slot_of;
use crate::kinds::{is_l, is_lms, law_type_step};
use crate::lane_left::{
    lane_left_step, lane_seeded, left_ready, lefted, lemma_left_does, lemma_left_first, lemma_left_run,
    lemma_visited_filled, name_of, next_of, opens, tables_apart,
};
use crate::lane_turn::{left_done, lemma_left_done};
use crate::lanes::{
    at, fielded, in_left, lemma_area_order, lemma_at, lemma_place, lemma_starts, limit, place_of, start,
    width, Field,
};
use crate::marks::{bit, grouped, marked, ungrouped, unmarked, with_group};
use crate::partial_32s::{
    partial_sorting_scan_left_to_right_32s_1k_step, partial_sorting_scan_left_to_right_32s_4k_step,
};
use crate::partial_induction::{
    arranged, later_lms, left_at, left_slot, lemma_left_visit, lemma_next_visited, lemma_put_left,
    lemma_visit, lemma_visits_in_order, put_l, spent_l, standing, turned, visit, visited,
};
use crate::six_scans::six_tables;
use crate::substrings::{class_of, lemma_induced_distinct};
use crate::types::{InduceState, PlaceState};

verus! {

/// What the scans start from: the leftmost suffixes of type S scattered over their buckets, those
/// that are the first of their symbol with a group bit, and the bounds of the buckets.
pub open spec fn four_ready(t: Seq<i32>, g: Field, s: Seq<i32>, a: Seq<i32>, q: Seq<i32>, b: Seq<i32>) -> bool {
    let n = t.len() as int;
    let k = g.k;
    &&& g.x == text32(t)
    &&& fielded(g)
    &&& g.exact
    &&& g.slot == standing(s, n, g.f)
    &&& limit(g) == n - g.f
    &&& n <= 0x3fff_ffff
    &&& 1 <= k
    &&& 4 * k <= b.len()
    &&& arranged(t, g.f, s, a, k, b.subrange(2 * k, 3 * k), b.subrange(3 * k, 4 * k))
    &&& q.len() == s.len()
    &&& forall|j: int| 0 <= j < n ==> carries(#[trigger] q[j], s[j])
    &&& forall|y: int| 0 <= y < width(g) && is_lms(g.x, #[trigger] at(g, y)) ==> grouped(q[slot_of(s, n, at(g, y))]) == opens(g, y)
    &&& forall|j: int| 0 <= j < 2 * k ==> #[trigger] b[j] == 0
}

/// Whether `p` is the entry `v`, perhaps with a group bit.
pub open spec fn carries(p: i32, v: i32) -> bool {
    ungrouped(p) == v && (v == 0 ==> p == 0)
}

/// A state from which the scan over lanes starts.
pub open spec fn lane_start(g: Field) -> InduceState {
    (
        Seq::new(limit(g) as nat, |y: int| marked(at(g, y) as i32, opens(g, y))),
        Seq::new((6 * g.k) as nat, |j: int| if j % 4 < 2 { start(g, j / 4, j % 4 == 1) as i32 } else { 0i32 }),
        0,
    )
}

/// The scan over lanes can start.
proof fn lemma_lane_start(g: Field)
    requires
        fielded(g),
        g.exact,
        1 <= g.k,
        limit(g) <= g.x.len(),
    ensures
        left_ready(g, six_tables(), 6 * g.k, lane_start(g)),
{
    let ln = six_tables();
    let b = lane_start(g).1;
    assert forall|c: int, v: bool| 0 <= c < g.k implies #[trigger] next_of(ln, b, c, v) == start(g, c, v) by {
        let j = 4 * c + bit(v);
        assert((ln.next)(c, v) == j);
        assert(j / 4 == c && j % 4 == bit(v));
        lemma_starts(g, c);
    }
    assert forall|c: int, v: bool| 0 <= c < g.k implies #[trigger] name_of(ln, b, c, v) == 0 by {
        let j = 4 * c + 2 + bit(v);
        assert((ln.name)(c, v) == j);
        assert(j % 4 == 2 + bit(v));
    }
    assert(tables_apart(ln, g.k, 6 * g.k));
}

/// The state of the scan over lanes in front of slot `y`.
pub open spec fn lane_state(g: Field, y: int) -> InduceState {
    fold_up(lane_left_step(g.x, six_tables()), lane_seeded(g.x, six_tables(), lane_start(g)), 0, y)->0
}

/// What is known of the scan over lanes.
proof fn lemma_lane_state(t: Seq<i32>, g: Field, s: Seq<i32>, a: Seq<i32>, q: Seq<i32>, b: Seq<i32>, y: int)
    requires
        four_ready(t, g, s, a, q, b),
        0 <= y <= width(g),
    ensures
        lefted(g, six_tables(), 6 * g.k, lane_state(g, y), y),
        tables_apart(six_tables(), g.k, 6 * g.k),
        y < width(g) ==> lane_left_step(g.x, six_tables())(lane_state(g, y), y) == Some(lane_state(g, y + 1)),
{
    assert(is_lms(g.x, g.f));
    lemma_lane_start(g);
    lemma_left_run(g, six_tables(), 6 * g.k, lane_start(g), y);
    if y < width(g) {
        lemma_left_run(g, six_tables(), 6 * g.k, lane_start(g), y + 1);
    }
}

/// The slot where the scan visits what the scan over lanes visits in slot `z`.
pub open spec fn pos(t: Seq<i32>, g: Field, s: Seq<i32>, a: Seq<i32>, z: int) -> int {
    visit(t, g.f, s, a, at(g, z))
}

/// What the scan visits.
proof fn lemma_pos(t: Seq<i32>, g: Field, s: Seq<i32>, a: Seq<i32>, q: Seq<i32>, b: Seq<i32>, z: int)
    requires
        four_ready(t, g, s, a, q, b),
        0 <= z < width(g),
    ensures
        visited(t, g.f, at(g, z)),
        0 <= pos(t, g, s, a, z) < t.len(),
{
    let k = g.k;
    assert(is_lms(g.x, g.f));
    lemma_at(g, z);
    lemma_visit(t, g.f, s, a, k, b.subrange(2 * k, 3 * k), b.subrange(3 * k, 4 * k), at(g, z));
}

/// The scan visits in the order of the lanes.
proof fn lemma_pos_order(t: Seq<i32>, g: Field, s: Seq<i32>, a: Seq<i32>, q: Seq<i32>, b: Seq<i32>, y: int, z: int)
    requires
        four_ready(t, g, s, a, q, b),
        0 <= y < z < width(g),
    ensures
        pos(t, g, s, a, y) < pos(t, g, s, a, z),
{
    let k = g.k;
    lemma_pos(t, g, s, a, q, b, y);
    lemma_pos(t, g, s, a, q, b, z);
    lemma_area_order(g, y, z);
    lemma_visits_in_order(t, g.f, s, a, k, b.subrange(2 * k, 3 * k), b.subrange(3 * k, 4 * k), at(g, y), at(g, z));
}

/// What the scan finds in slot `i`.
#[verifier::spinoff_prover]
proof fn lemma_found_here(t: Seq<i32>, g: Field, s: Seq<i32>, a: Seq<i32>, q: Seq<i32>, b: Seq<i32>, st: PlaceState, i: int)
    requires
        four_ready(t, g, s, a, q, b),
        left_at(t, g.f, s, a, g.k, b.subrange(2 * g.k, 3 * g.k), st, i),
        0 <= i < t.len(),
    ensures
        st.0[i] > 0 ==> in_left(g.x, g.f, st.0[i] as int) && visit(t, g.f, s, a, st.0[i] as int) == i,
        st.0[i] <= 0 ==> forall|w: int| #[trigger] in_left(g.x, g.f, w) ==> visit(t, g.f, s, a, w) != i,
{
    let x = g.x;
    let f = g.f;
    let k = g.k;
    let n = t.len() as int;
    let starts = b.subrange(2 * k, 3 * k);
    let ends = b.subrange(3 * k, 4 * k);
    let p = st.0[i];
    let v = a[i] as int;
    assert(is_lms(x, f));
    assert(0 <= a[i] < n);
    assert(p == left_slot(t, f, s, a, i, i));
    if class_of(x, f, v) == 0 {
        crate::partial_induction::lemma_slot_of_entry(t, f, s, a, i);
        assert(visit(t, f, s, a, v) == i);
        law_type_step(x, v - 1);
    } else if p > 0 {
        assert(later_lms(x, f, s[i] as int));
        lemma_visit(t, f, s, a, k, starts, ends, p as int);
        let j = visit(t, f, s, a, p as int);
        if j < i {
            assert(s[j] != s[i]);
        } else if i < j {
            assert(s[i] != s[j]);
        }
    }
    if p <= 0 {
        assert forall|w: int| #[trigger] in_left(x, f, w) implies visit(t, f, s, a, w) != i by {
            if visit(t, f, s, a, w) == i {
                assert(visited(t, f, w));
                lemma_visit(t, f, s, a, k, starts, ends, w);
                if is_l(x, w) {
                    assert(v == w);
                    law_type_step(x, w - 1);
                    if w + 1 < n {
                        lemma_next_visited(t, f, w);
                        crate::partial_induction::lemma_descends(x, f, standing(s, n, f), w);
                        lemma_visits_in_order(t, f, s, a, k, starts, ends, w + 1, w);
                    }
                    assert(put_l(t, f, s, a, w, i));
                } else {
                    assert(s[i] == w);
                }
            }
        }
    }
}

/// Whether the scan with four buckets does in slot `i` what the scan with one bucket and the scan
/// over lanes, in slot `y`, do.
pub open spec fn left_sim(
    t: Seq<i32>,
    g: Field,
    s: Seq<i32>,
    a: Seq<i32>,
    b0: Seq<i32>,
    st: InduceState,
    one: PlaceState,
    i: int,
    y: int,
) -> bool {
    let n = t.len() as int;
    let k = g.k;
    let lane = lane_state(g, y);
    let (sa, b, d) = st;
    &&& sa.len() == s.len()
    &&& b.len() == b0.len()
    &&& d == lane.2
    &&& forall|c: int, v: bool| 0 <= c < k ==> b[2 * c + bit(!v)] == #[trigger] name_of(six_tables(), lane.1, c, v)
    &&& forall|c: int| 0 <= c < k ==> b[2 * k + c] == #[trigger] one.1[c]
    &&& forall|j: int| 3 * k <= j < b0.len() ==> #[trigger] b[j] == b0[j]
    &&& forall|j: int| 0 <= j < n ==> carries(#[trigger] sa[j], one.0[j])
    &&& forall|j: int| 0 <= j < n && one.0[j] != 0 ==> grouped(#[trigger] sa[j]) == (lane.0[place_of(g, unmarked(one.0[j]) as int)] < 0)
    &&& 0 <= y <= width(g)
    &&& forall|z: int| 0 <= z < y ==> #[trigger] pos(t, g, s, a, z) < i
    &&& forall|z: int| y <= z < width(g) ==> #[trigger] pos(t, g, s, a, z) >= i
}

/// What the slots of the scan with one bucket hold.
proof fn lemma_left_entry(t: Seq<i32>, g: Field, s: Seq<i32>, a: Seq<i32>, q: Seq<i32>, b: Seq<i32>, one: PlaceState, i: int, j: int)
    requires
        four_ready(t, g, s, a, q, b),
        left_at(t, g.f, s, a, g.k, b.subrange(2 * g.k, 3 * g.k), one, i),
        0 <= j < t.len(),
    ensures
        0 <= unmarked(one.0[j]) < t.len(),
        one.0[j] != 0 ==> g.f < unmarked(one.0[j]),
        one.0[j] != 0 ==> unmarked(one.0[j]) == a[j] || unmarked(one.0[j]) == s[j],
        one.0[j] != 0 ==> (unmarked(one.0[j]) == a[j] || one.0[j] == s[j]),
        one.0[j] == 0 || one.0[j] == marked(unmarked(one.0[j]), one.0[j] < 0),
{
    let x = g.x;
    assert(is_lms(x, g.f));
    assert(0 <= a[j] < t.len());
    assert(one.0[j] == left_slot(t, g.f, s, a, i, j));
    if s[j] != 0 {
        assert(later_lms(x, g.f, s[j] as int));
    }
}

/// Group bits do not disturb entries.
proof fn lemma_group(p: i32, v: i32, m: bool, e: bool)
    requires
        0 <= v < 0x4000_0000,
        v == 0 ==> !m,
        carries(p, marked(v, m)),
    ensures
        (p <= 0) == (marked(v, m) <= 0),
        ungrouped(unmarked(p)) == v,
        grouped(unmarked(p)) == grouped(p),
        !m ==> unmarked(p) == p,
        ungrouped(with_group(marked(v, m), e)) == marked(v, m),
        grouped(with_group(marked(v, m), e)) == e,
{
}

/// A visit of the scan with four buckets.
#[verifier::spinoff_prover]
proof fn lemma_four_left_visit(
    t: Seq<i32>,
    g: Field,
    s: Seq<i32>,
    a: Seq<i32>,
    q: Seq<i32>,
    b0: Seq<i32>,
    st: InduceState,
    one: PlaceState,
    i: int,
    y: int,
)
    requires
        four_ready(t, g, s, a, q, b0),
        left_at(t, g.f, s, a, g.k, b0.subrange(2 * g.k, 3 * g.k), one, i),
        0 <= i < t.len(),
        left_sim(t, g, s, a, b0, st, one, i, y),
        one.0[i] > 0,
        partial_sorting_scan_left_to_right_32s_1k_step(t)(one, i) is Some,
    ensures
        y < width(g),
        partial_sorting_scan_left_to_right_32s_4k_step(t, g.k)(st, i) is Some,
        left_sim(
            t,
            g,
            s,
            a,
            b0,
            partial_sorting_scan_left_to_right_32s_4k_step(t, g.k)(st, i)->0,
            partial_sorting_scan_left_to_right_32s_1k_step(t)(one, i)->0,
            i + 1,
            y + 1,
        ),
{
    let x = g.x;
    let f = g.f;
    let k = g.k;
    let n = t.len() as int;
    let starts = b0.subrange(2 * k, 3 * k);
    let ends = b0.subrange(3 * k, 4 * k);
    let ln = six_tables();
    let (sa, b, d) = st;
    let p = sa[i];
    let w = one.0[i] as int;
    assert(is_lms(x, f));
    lemma_found_here(t, g, s, a, q, b0, one, i);
    lemma_left_entry(t, g, s, a, q, b0, one, i, i);
    assert(in_left(x, f, w));
    lemma_place(g, w);
    let z = place_of(g, w);
    assert(pos(t, g, s, a, z) == i);
    assert(y == z) by {
        if z < y {
            assert(pos(t, g, s, a, z) < i);
        } else if y < z {
            lemma_pos_order(t, g, s, a, q, b0, y, z);
            assert(pos(t, g, s, a, y) >= i);
        }
    }
    lemma_lane_state(t, g, s, a, q, b0, y);
    let lane = lane_state(g, y);
    let nl = lane_state(g, y + 1);
    lemma_left_does(g, ln, 6 * k, lane, y);
    lemma_visited_filled(g, y, y);
    assert(unmarked(lane.0[y]) == at(g, y));
    assert(carries(sa[i], one.0[i]));
    lemma_group(p, one.0[i], false, false);
    assert(grouped(p) == (lane.0[place_of(g, unmarked(one.0[i]) as int)] < 0));
    assert(grouped(p) == (lane.0[y] < 0));
    let v = w - 1;
    let c = x[v];
    assert(x[v] == t[v] && x[v - 1] == t[v - 1]);
    crate::lane_left::lemma_left_next(g, y);
    let e = d + bit(grouped(p));
    let m = t[v - 1] < t[v];
    let u = is_l(x, v - 1);
    assert(u == !m);
    let name = name_of(ln, lane.1, c, u);
    assert(b[2 * c + bit(!u)] == name_of(ln, lane.1, c, u));
    assert(one.1[c] == b[2 * k + c]);
    let r = one.1[c] as int;
    assert(class_of(x, f, v) == 0);
    lemma_put_left(t, f, s, a, k, starts, ends, one, i, v);
    assert(r == slot_of(a, n, v) && i < r < n && a[r] == v);
    let fresh = name != e;
    let nx = (
        sa.update(i, 0).update(r, with_group(marked(v as i32, m), fresh)),
        b.update(2 * k + c, (r + 1) as i32).update(2 * c + bit(m), e as i32),
        e as i32,
    );
    assert(partial_sorting_scan_left_to_right_32s_4k_step(t, k)(st, i) == Some(nx));
    let one2 = (one.0.update(i, 0).update(r, marked(v as i32, m)), one.1.update(c, (r + 1) as i32));
    assert(partial_sorting_scan_left_to_right_32s_1k_step(t)(one, i) == Some(one2));
    let rl = place_of(g, v);
    assert(nl.0 == lane.0.update(rl, marked(v as i32, fresh)));
    assert(nl.2 == e);
    lemma_place(g, v);
    assert forall|c2: int, v2: bool| 0 <= c2 < k implies nx.1[2 * c2 + bit(!v2)] == #[trigger] name_of(ln, nl.1, c2, v2) by {
        assert(b[2 * c2 + bit(!v2)] == name_of(ln, lane.1, c2, v2));
        assert((ln.name)(c2, v2) != (ln.next)(c, u));
        if c2 == c && v2 == u {
        } else {
            assert((ln.name)(c2, v2) != (ln.name)(c, u));
        }
    }
    assert forall|c2: int| 0 <= c2 < k implies nx.1[2 * k + c2] == #[trigger] one2.1[c2] by {
        assert(b[2 * k + c2] == one.1[c2]);
    }
    lemma_group(with_group(marked(v as i32, m), fresh), v as i32, m, fresh);
    assert forall|j: int| 0 <= j < n implies carries(#[trigger] nx.0[j], one2.0[j]) by {
        assert(carries(sa[j], one.0[j]));
    }
    assert forall|j: int| 0 <= j < n && one2.0[j] != 0 implies grouped(#[trigger] nx.0[j]) == (nl.0[place_of(
        g,
        unmarked(one2.0[j]) as int,
    )] < 0) by {
        if j == r {
        } else {
            assert(j != i);
            assert(one2.0[j] == one.0[j] && nx.0[j] == sa[j]);
            assert(grouped(sa[j]) == (lane.0[place_of(g, unmarked(one.0[j]) as int)] < 0));
            lemma_left_entry(t, g, s, a, q, b0, one, i, j);
            let el = unmarked(one.0[j]) as int;
            assert(0 <= a[j] < n);
            assert(el != v) by {
                if el == v {
                    if a[j] == v {
                        lemma_induced_distinct(x, f, standing(s, n, f), a, j, r);
                    } else {
                        assert(s[j] == v);
                        assert(later_lms(x, f, s[j] as int));
                    }
                }
            }
            lemma_place(g, el);
            assert(place_of(g, el) != rl) by {
                assert(at(g, place_of(g, el)) == el && at(g, rl) == v);
            }
        }
    }
    assert forall|z2: int| 0 <= z2 < y + 1 implies #[trigger] pos(t, g, s, a, z2) < i + 1 by {
        assert(z2 < y ==> pos(t, g, s, a, z2) < i);
    }
    assert forall|z2: int| y + 1 <= z2 < width(g) implies #[trigger] pos(t, g, s, a, z2) >= i + 1 by {
        lemma_pos_order(t, g, s, a, q, b0, y, z2);
    }
}

/// A slot without a visit.
#[verifier::spinoff_prover]
proof fn lemma_four_left_pass(
    t: Seq<i32>,
    g: Field,
    s: Seq<i32>,
    a: Seq<i32>,
    q: Seq<i32>,
    b0: Seq<i32>,
    st: InduceState,
    one: PlaceState,
    i: int,
    y: int,
)
    requires
        four_ready(t, g, s, a, q, b0),
        left_at(t, g.f, s, a, g.k, b0.subrange(2 * g.k, 3 * g.k), one, i),
        0 <= i < t.len(),
        left_sim(t, g, s, a, b0, st, one, i, y),
        one.0[i] <= 0,
    ensures
        partial_sorting_scan_left_to_right_32s_4k_step(t, g.k)(st, i) is Some,
        partial_sorting_scan_left_to_right_32s_1k_step(t)(one, i) is Some,
        left_sim(
            t,
            g,
            s,
            a,
            b0,
            partial_sorting_scan_left_to_right_32s_4k_step(t, g.k)(st, i)->0,
            partial_sorting_scan_left_to_right_32s_1k_step(t)(one, i)->0,
            i + 1,
            y,
        ),
{
    let n = t.len() as int;
    let (sa, b, d) = st;
    lemma_found_here(t, g, s, a, q, b0, one, i);
    lemma_left_entry(t, g, s, a, q, b0, one, i, i);
    assert(carries(sa[i], one.0[i]));
    lemma_group(sa[i], unmarked(one.0[i]), one.0[i] < 0, false);
    let nx = (sa.update(i, unmarked(sa[i])), b, d);
    let one2 = (one.0.update(i, unmarked(one.0[i])), one.1);
    assert(partial_sorting_scan_left_to_right_32s_4k_step(t, g.k)(st, i) == Some(nx));
    assert(partial_sorting_scan_left_to_right_32s_1k_step(t)(one, i) == Some(one2));
    assert forall|j: int| 0 <= j < n implies carries(#[trigger] nx.0[j], one2.0[j]) by {
        assert(carries(sa[j], one.0[j]));
    }
    assert forall|j: int| 0 <= j < n && one2.0[j] != 0 implies grouped(#[trigger] nx.0[j]) == (lane_state(g, y).0[place_of(
        g,
        unmarked(one2.0[j]) as int,
    )] < 0) by {
        assert(grouped(sa[j]) == (lane_state(g, y).0[place_of(g, unmarked(one.0[j]) as int)] < 0));
    }
    assert forall|z: int| y <= z < width(g) implies #[trigger] pos(t, g, s, a, z) >= i + 1 by {
        assert(pos(t, g, s, a, z) >= i);
        lemma_at(g, z);
        assert(in_left(g.x, g.f, at(g, z)));
    }
}

/// Placing the last suffix starts the scan.
#[verifier::spinoff_prover]
proof fn lemma_four_first(t: Seq<i32>, g: Field, s: Seq<i32>, a: Seq<i32>, q: Seq<i32>, b0: Seq<i32>)
    requires
        four_ready(t, g, s, a, q, b0),
    ensures
        ({
            let n = t.len() as int;
            let first = seeded_32s_4k(t, n, g.k, (q, b0, 0));
            let one = seeded_32s_1k(t, n, (s, b0.subrange(2 * g.k, 3 * g.k)));
            &&& first is Some
            &&& one is Some
            &&& left_at(t, g.f, s, a, g.k, b0.subrange(2 * g.k, 3 * g.k), one->0, 0)
            &&& left_sim(t, g, s, a, b0, first->0, one->0, 0, 0)
        }),
{
    let x = g.x;
    let f = g.f;
    let k = g.k;
    let n = t.len() as int;
    let starts = b0.subrange(2 * k, 3 * k);
    let ends = b0.subrange(3 * k, 4 * k);
    let ln = six_tables();
    assert(is_lms(x, f));
    crate::partial_induction::lemma_left_first(t, f, s, a, k, starts, ends);
    crate::partial_induction::lemma_last_leads(t, f, s, a, k, starts, ends);
    lemma_lane_start(g);
    lemma_left_first(g, ln, 6 * k, lane_start(g));
    let one = seeded_32s_1k(t, n, (s, starts))->0;
    let c = t[n - 1] as int;
    assert(0 <= t[n - 1] < k);
    let r = starts[c] as int;
    assert(starts[c] == b0[2 * k + c]);
    let m = t[n - 2] < t[n - 1];
    let nx = (
        q.update(r, with_group(marked((n - 1) as i32, m), true)),
        b0.update(2 * k + c, (r + 1) as i32).update(2 * c + bit(m), 1),
        1i32,
    );
    assert(seeded_32s_4k(t, n, k, (q, b0, 0)) == Some(nx));
    assert(one == (s.update(r, marked((n - 1) as i32, m)), starts.update(c, (r + 1) as i32)));
    let lane = lane_state(g, 0);
    let ls = lane_start(g);
    assert(x[n - 1] == t[n - 1] && x[n - 2] == t[n - 2]);
    let u = x[n - 2] >= x[n - 1];
    assert(u == !m);
    let rl = place_of(g, n - 1);
    lemma_place(g, n - 1);
    assert(lane == lane_seeded(x, ln, ls));
    assert(lane.0 == ls.0.update(rl, marked((n - 1) as i32, true)));
    assert forall|c2: int, v2: bool| 0 <= c2 < k implies nx.1[2 * c2 + bit(!v2)] == #[trigger] name_of(ln, lane.1, c2, v2) by {
        assert(name_of(ln, ls.1, c2, v2) == 0);
        assert(b0[2 * c2 + bit(!v2)] == 0);
        assert(tables_apart(ln, k, 6 * k));
        assert((ln.name)(c2, v2) != (ln.next)(c, u));
        if c2 == c && v2 == u {
        } else {
            assert((ln.name)(c2, v2) != (ln.name)(c, u));
        }
    }
    lemma_group(with_group(marked((n - 1) as i32, m), true), (n - 1) as i32, m, true);
    assert forall|j: int| 0 <= j < n implies carries(#[trigger] nx.0[j], one.0[j]) by {
        assert(carries(q[j], s[j]));
    }
    assert forall|j: int| 0 <= j < n && one.0[j] != 0 implies grouped(#[trigger] nx.0[j]) == (lane.0[place_of(
        g,
        unmarked(one.0[j]) as int,
    )] < 0) by {
        if j == r {
        } else {
            let v = s[j] as int;
            assert(later_lms(x, f, s[j] as int));
            assert(in_left(x, f, v));
            lemma_place(g, v);
            let z = place_of(g, v);
            assert(z != rl) by {
                assert(at(g, rl) == n - 1);
                crate::kinds::law_last_type(x);
            }
            assert(is_lms(x, at(g, z)));
            let i = slot_of(s, n, v);
            assert(0 <= i < n && s[i] == v);
            if i < j {
                assert(s[i] != s[j]);
            } else if j < i {
                assert(s[j] != s[i]);
            }
            assert(grouped(q[j]) == opens(g, z));
            assert(lane.0[z] == ls.0[z]);
            assert(ls.0[z] == marked(v as i32, opens(g, z)));
        }
    }
    assert forall|z: int| 0 <= z < width(g) implies #[trigger] pos(t, g, s, a, z) >= 0 by {
        lemma_pos(t, g, s, a, q, b0, z);
    }
}

/// The scan runs from slot to slot.
proof fn lemma_four_left_run(t: Seq<i32>, g: Field, s: Seq<i32>, a: Seq<i32>, q: Seq<i32>, b0: Seq<i32>, i: int) -> (y: int)
    requires
        four_ready(t, g, s, a, q, b0),
        0 <= i <= t.len(),
    ensures
        ({
            let n = t.len() as int;
            let first = seeded_32s_4k(t, n, g.k, (q, b0, 0))->0;
            let one = seeded_32s_1k(t, n, (s, b0.subrange(2 * g.k, 3 * g.k)))->0;
            let st = fold_up(partial_sorting_scan_left_to_right_32s_4k_step(t, g.k), first, 0, i);
            let so = fold_up(partial_sorting_scan_left_to_right_32s_1k_step(t), one, 0, i);
            &&& st is Some
            &&& so is Some
            &&& left_at(t, g.f, s, a, g.k, b0.subrange(2 * g.k, 3 * g.k), so->0, i)
            &&& left_sim(t, g, s, a, b0, st->0, so->0, i, y)
        }),
    decreases i,
{
    let n = t.len() as int;
    let k = g.k;
    lemma_four_first(t, g, s, a, q, b0);
    if i > 0 {
        let y = lemma_four_left_run(t, g, s, a, q, b0, i - 1);
        let first = seeded_32s_4k(t, n, k, (q, b0, 0))->0;
        let one = seeded_32s_1k(t, n, (s, b0.subrange(2 * k, 3 * k)))->0;
        let st = fold_up(partial_sorting_scan_left_to_right_32s_4k_step(t, k), first, 0, i - 1)->0;
        let so = fold_up(partial_sorting_scan_left_to_right_32s_1k_step(t), one, 0, i - 1)->0;
        lemma_left_visit(t, g.f, s, a, k, b0.subrange(2 * k, 3 * k), b0.subrange(3 * k, 4 * k), so, i - 1);
        if so.0[i - 1] > 0 {
            lemma_four_left_visit(t, g, s, a, q, b0, st, so, i - 1, y);
            y + 1
        } else {
            lemma_four_left_pass(t, g, s, a, q, b0, st, so, i - 1, y);
            y
        }
    } else {
        0
    }
}

/// What the scan leaves: the suffixes of type L with one of type S in front, each in its slot,
/// with a group bit where the scan over lanes leaves a mark.
pub open spec fn four_left(t: Seq<i32>, g: Field, a: Seq<i32>, b0: Seq<i32>, st: InduceState, len: int) -> bool {
    let n = t.len() as int;
    let k = g.k;
    let lane = lane_state(g, width(g));
    let (sa, b, d) = st;
    &&& sa.len() == len
    &&& b.len() == b0.len()
    &&& d == lane.2
    &&& left_done(g, six_tables(), lane)
    &&& forall|c: int, v: bool| 0 <= c < k ==> b[2 * c + bit(!v)] == #[trigger] name_of(six_tables(), lane.1, c, v)
    &&& forall|j: int| 3 * k <= j < b0.len() ==> #[trigger] b[j] == b0[j]
    &&& turned(t, g.f, a, Seq::new(sa.len(), |j: int| ungrouped(sa[j])))
    &&& forall|j: int| 0 <= j < n ==> carries(#[trigger] sa[j], ungrouped(sa[j]))
    &&& forall|j: int| 0 <= j < n && ungrouped(sa[j]) != 0 ==> grouped(#[trigger] sa[j]) == (lane.0[place_of(g, a[j] as int)] < 0)
}

/// The whole scan to the right.
#[verifier::spinoff_prover]
pub proof fn lemma_four_left(t: Seq<i32>, g: Field, s: Seq<i32>, a: Seq<i32>, q: Seq<i32>, b0: Seq<i32>)
    requires
        four_ready(t, g, s, a, q, b0),
    ensures
        ({
            let r = partial_left_32s_4k(t, t.len() as int, g.k, (q, b0, 0));
            &&& r is Some
            &&& four_left(t, g, a, b0, r->0, q.len() as int)
        }),
{
    let n = t.len() as int;
    let x = g.x;
    let k = g.k;
    let starts = b0.subrange(2 * k, 3 * k);
    let ends = b0.subrange(3 * k, 4 * k);
    assert(is_lms(x, g.f));
    lemma_four_first(t, g, s, a, q, b0);
    let y = lemma_four_left_run(t, g, s, a, q, b0, n);
    assert(y == width(g)) by {
        if y < width(g) {
            lemma_pos(t, g, s, a, q, b0, y);
            assert(pos(t, g, s, a, y) >= n);
        }
    }
    let first = seeded_32s_4k(t, n, k, (q, b0, 0))->0;
    let one = seeded_32s_1k(t, n, (s, starts))->0;
    let st = fold_up(partial_sorting_scan_left_to_right_32s_4k_step(t, k), first, 0, n)->0;
    let so = fold_up(partial_sorting_scan_left_to_right_32s_1k_step(t), one, 0, n)->0;
    crate::partial_induction::lemma_left_turned(t, g.f, s, a, k, starts, ends);
    lemma_lane_start(g);
    lemma_left_done(g, six_tables(), 6 * k, lane_start(g));
    let z = Seq::new(st.0.len(), |j: int| ungrouped(st.0[j]));
    assert forall|j: int| 0 <= j < n implies #[trigger] z[j] == so.0[j] by {
        assert(carries(st.0[j], so.0[j]));
    }
    assert(turned(t, g.f, a, z)) by {
        assert forall|j: int| 0 <= j < n implies #[trigger] z[j] == (if class_of(x, g.f, a[j] as int) == 0 {
            spent_l(t, a[j] as int)
        } else {
            0
        }) by {
            assert(z[j] == so.0[j]);
        }
    }
    assert forall|j: int| 0 <= j < n && ungrouped(st.0[j]) != 0 implies grouped(#[trigger] st.0[j]) == (lane_state(g, y).0[place_of(
        g,
        a[j] as int,
    )] < 0) by {
        assert(carries(st.0[j], so.0[j]));
        assert(z[j] == so.0[j]);
        assert(0 <= a[j] < n);
        assert(unmarked(so.0[j]) == a[j]);
    }
}

} // verus!
