//! The scan to the left with four buckets for each symbol: it visits what the scan over lanes
//! visits, in the same order and under the same names.

use vstd::prelude::*;
use crate::fold::fold_down;
use crate::four_left::{carries, four_left, four_ready, lane_state};
use crate::induction::slot_of;
use crate::kinds::{is_l, is_lms, law_type_step};
use crate::lane_left::{lane_pair, mark_true, name_of, next_of, tables_apart};
use crate::lane_right::{
    back_place, back_true, finish, lane_right_step, lemma_low_at, lemma_low_place, lemma_low_start,
    lemma_right_does, lemma_right_lows, lemma_right_next, lemma_right_run, low_place, low_true, lows,
    right_ready, righted, type_pair,
};
use crate::lanes::{
    at, in_right, lemma_area_order, lemma_at, lemma_place, lemma_starts, limit, place_of, width, Field,
};
use crate::marks::{bit, flipped, grouped, marked, ungrouped, unmarked, with_group};
use crate::partial_32s::{
    partial_sorting_scan_right_to_left_32s_1k_step, partial_sorting_scan_right_to_left_32s_4k_step,
};
use crate::partial_induction::{
    lemma_put_right, lemma_right_visit, lemma_slot, lemma_slots_ascend, right_at, right_slot, spent_l,
    standing, turned,
};
use crate::radix::{
    partial_sorting_gather_lms_suffixes_32s_4k_slot_run, partial_sorting_gather_lms_suffixes_32s_4k_slot_step,
    shift_group_run, shift_group_step,
};
use crate::six_scans::six_tables;
use crate::substrings::{class_of, lemma_induced_distinct, lemma_induced_rank};
use crate::types::{InduceState, PlaceState};

verus! {

/// The group bit of the first positive entry from slot `i` on.
spec fn next_flag(sa: Seq<i32>, n: int, i: int) -> bool
    decreases n - i,
{
    if i >= n {
        true
    } else if sa[i] > 0 {
        grouped(sa[i])
    } else {
        next_flag(sa, n, i + 1)
    }
}

/// Group bits move from positive entries to the ones in front of them.
proof fn lemma_shift_groups(sa: Seq<i32>, n: int, i: int)
    requires
        0 <= i <= n <= sa.len(),
    ensures
        ({
            let r = shift_group_run((sa, true), i, n);
            &&& r is Some
            &&& r.unwrap().0.len() == sa.len()
            &&& r.unwrap().1 == next_flag(sa, n, i)
            &&& forall|j: int| i <= j < n ==> #[trigger] r.unwrap().0[j] == (if sa[j] > 0 {
                with_group(ungrouped(sa[j]), next_flag(sa, n, j + 1))
            } else {
                sa[j]
            })
            &&& forall|j: int| 0 <= j < i || n <= j < sa.len() ==> #[trigger] r.unwrap().0[j] == sa[j]
        }),
    decreases n - i,
{
    if i < n {
        lemma_shift_groups(sa, n, i + 1);
        let r = shift_group_run((sa, true), i + 1, n)->0;
        assert(r.0[i] == sa[i]);
        assert(shift_group_run((sa, true), i, n) == shift_group_step()(r, i));
    }
}

/// Where the next positive entry is.
proof fn lemma_next_flag(sa: Seq<i32>, n: int, i: int) -> (j: int)
    requires
        0 <= i <= n,
    ensures
        i <= j <= n,
        j < n ==> sa[j] > 0 && next_flag(sa, n, i) == grouped(sa[j]),
        j == n ==> next_flag(sa, n, i),
        forall|z: int| i <= z < j ==> #[trigger] sa[z] <= 0,
    decreases n - i,
{
    if i >= n {
        n
    } else if sa[i] > 0 {
        i
    } else {
        lemma_next_flag(sa, n, i + 1)
    }
}

/// What the scans have in common when they turn.
pub open spec fn turns(t: Seq<i32>, g: Field, low: Seq<i32>, s: Seq<i32>, a: Seq<i32>, q: Seq<i32>, b0: Seq<i32>, st: InduceState) -> bool {
    &&& four_ready(t, g, s, a, q, b0)
    &&& four_left(t, g, a, b0, st, q.len() as int)
    &&& lows(g, low)
}

/// Which entries are positive when the scans turn.
proof fn lemma_positive(t: Seq<i32>, g: Field, low: Seq<i32>, s: Seq<i32>, a: Seq<i32>, q: Seq<i32>, b0: Seq<i32>, st: InduceState, j: int)
    requires
        turns(t, g, low, s, a, q, b0, st),
        0 <= j < t.len(),
    ensures
        0 <= a[j] < t.len(),
        (st.0[j] > 0) == (is_l(g.x, a[j] as int) && in_right(g.x, g.f, a[j] as int)),
        st.0[j] >= 0,
        st.0[j] > 0 ==> ungrouped(st.0[j]) == a[j],
{
    let x = g.x;
    let v = a[j] as int;
    let z = Seq::new(st.0.len(), |j: int| ungrouped(st.0[j]));
    assert(is_lms(x, g.f));
    assert(0 <= a[j] < t.len());
    assert(z[j] == (if class_of(x, g.f, v) == 0 {
        spent_l(t, v)
    } else {
        0
    }));
    assert(carries(st.0[j], ungrouped(st.0[j])));
    if v > g.f {
        law_type_step(x, v - 1);
    }
}

/// The slot of the suffix at `v` in the induced order.
pub open spec fn rank_of(t: Seq<i32>, a: Seq<i32>, v: int) -> int {
    slot_of(a, t.len() as int, v)
}

/// Ranks are slots.
proof fn lemma_rank(t: Seq<i32>, g: Field, s: Seq<i32>, a: Seq<i32>, q: Seq<i32>, b0: Seq<i32>, v: int)
    requires
        four_ready(t, g, s, a, q, b0),
        0 <= v < t.len(),
    ensures
        0 <= rank_of(t, a, v) < t.len(),
        a[rank_of(t, a, v)] == v,
{
    lemma_slot(t, g.f, s, a, v);
}

/// Ranks in the second area are in the order of its slots.
proof fn lemma_rank_order(t: Seq<i32>, g: Field, s: Seq<i32>, a: Seq<i32>, q: Seq<i32>, b0: Seq<i32>, y: int, z: int)
    requires
        four_ready(t, g, s, a, q, b0),
        width(g) < y < z < limit(g),
    ensures
        rank_of(t, a, at(g, y)) < rank_of(t, a, at(g, z)),
        0 <= at(g, y) < t.len(),
        0 <= at(g, z) < t.len(),
{
    assert(is_lms(g.x, g.f));
    lemma_at(g, y);
    lemma_at(g, z);
    lemma_area_order(g, y, z);
    lemma_rank(t, g, s, a, q, b0, at(g, y));
    lemma_rank(t, g, s, a, q, b0, at(g, z));
    lemma_induced_rank(g.x, g.f, g.slot, a, rank_of(t, a, at(g, y)), rank_of(t, a, at(g, z)));
}

/// A state from which the scan over lanes turns back.
pub open spec fn back_start(t: Seq<i32>, g: Field, low: Seq<i32>, a: Seq<i32>, h: Seq<i32>, b: Seq<i32>, d: i32) -> InduceState {
    (
        Seq::new(limit(g) as nat, |y: int| marked(at(g, y) as i32, grouped(h[rank_of(t, a, at(g, y))]))),
        Seq::new(
            (6 * g.k) as nat,
            |j: int| if j % 4 < 2 { finish(g, low, j / 4, j % 4 == 1) as i32 } else { b[2 * (j / 4) + (j % 4 - 2)] },
        ),
        d,
    )
}

/// The marks say of the suffixes of type L what they should.
#[verifier::spinoff_prover]
proof fn lemma_flags_true(
    t: Seq<i32>,
    g: Field,
    low: Seq<i32>,
    s: Seq<i32>,
    a: Seq<i32>,
    q: Seq<i32>,
    b0: Seq<i32>,
    st: InduceState,
    y: int,
)
    requires
        turns(t, g, low, s, a, q, b0, st),
        width(g) < y < limit(g),
        is_l(g.x, at(g, y)),
    ensures
        ({
            let h = shift_group_run((st.0, true), 0, t.len() as int).unwrap().0;
            let sr = back_start(t, g, low, a, h, st.1, st.2).0;
            unmarked(sr[y]) == at(g, y) && back_true(g, sr, y)
        }),
{
    let x = g.x;
    let n = t.len() as int;
    let sa = st.0;
    let lane = lane_state(g, width(g));
    assert(is_lms(x, g.f));
    lemma_shift_groups(sa, n, 0);
    let h = shift_group_run((sa, true), 0, n).unwrap().0;
    let sr = back_start(t, g, low, a, h, st.1, st.2).0;
    lemma_at(g, y);
    let v = at(g, y);
    let i = rank_of(t, a, v);
    lemma_rank(t, g, s, a, q, b0, v);
    lemma_positive(t, g, low, s, a, q, b0, st, i);
    assert(in_right(x, g.f, v));
    assert(sa[i] > 0);
    let flag = next_flag(sa, n, i + 1);
    assert(h[i] == with_group(ungrouped(sa[i]), flag));
    assert(grouped(h[i]) == flag);
    assert(sr[y] == marked(v as i32, flag));
    let j = lemma_next_flag(sa, n, i + 1);
    if j < n {
        lemma_positive(t, g, low, s, a, q, b0, st, j);
        let u = a[j] as int;
        lemma_place(g, u);
        let z = place_of(g, u);
        assert(rank_of(t, a, u) == j) by {
            lemma_rank(t, g, s, a, q, b0, u);
            lemma_induced_distinct(x, g.f, g.slot, a, rank_of(t, a, u), j);
        }
        assert(y < z) by {
            if z < y {
                lemma_rank_order(t, g, s, a, q, b0, z, y);
            }
        }
        assert(ungrouped(sa[j]) != 0);
        assert(flag == (lane.0[z] < 0));
        assert(is_l(x, at(g, z)));
        assert(mark_true(g, lane.0, z));
        if type_pair(g, y) {
            lemma_at(g, y + 1);
            let w = at(g, y + 1);
            lemma_rank(t, g, s, a, q, b0, w);
            lemma_rank_order(t, g, s, a, q, b0, y, y + 1);
            lemma_positive(t, g, low, s, a, q, b0, st, rank_of(t, a, w));
            if y + 1 < z {
                lemma_rank_order(t, g, s, a, q, b0, y + 1, z);
                assert(sa[rank_of(t, a, w)] <= 0);
            }
            assert(z == y + 1);
            assert(lane_pair(g, z));
        } else {
            if lane_pair(g, z) {
                let w = at(g, z - 1);
                lemma_at(g, z - 1);
                assert(z - 1 > width(g)) by {
                    assert(z - 1 >= y);
                }
                if z - 1 > y {
                    lemma_rank(t, g, s, a, q, b0, w);
                    lemma_rank_order(t, g, s, a, q, b0, y, z - 1);
                    lemma_rank_order(t, g, s, a, q, b0, z - 1, z);
                    lemma_positive(t, g, low, s, a, q, b0, st, rank_of(t, a, w));
                    assert(sa[rank_of(t, a, w)] <= 0);
                }
            }
        }
    } else if type_pair(g, y) {
        lemma_at(g, y + 1);
        let w = at(g, y + 1);
        lemma_rank(t, g, s, a, q, b0, w);
        lemma_rank_order(t, g, s, a, q, b0, y, y + 1);
        lemma_positive(t, g, low, s, a, q, b0, st, rank_of(t, a, w));
        assert(sa[rank_of(t, a, w)] <= 0);
    }
}

/// The scan over lanes can turn back.
#[verifier::spinoff_prover]
proof fn lemma_back_start(t: Seq<i32>, g: Field, low: Seq<i32>, s: Seq<i32>, a: Seq<i32>, q: Seq<i32>, b0: Seq<i32>, st: InduceState)
    requires
        turns(t, g, low, s, a, q, b0, st),
    ensures
        ({
            let h = shift_group_run((st.0, true), 0, t.len() as int).unwrap().0;
            right_ready(g, low, six_tables(), 6 * g.k, back_start(t, g, low, a, h, st.1, st.2))
        }),
{
    let n = t.len() as int;
    let ln = six_tables();
    let k = g.k;
    lemma_shift_groups(st.0, n, 0);
    let h = shift_group_run((st.0, true), 0, n).unwrap().0;
    let rs = back_start(t, g, low, a, h, st.1, st.2);
    assert(is_lms(g.x, g.f));
    assert(tables_apart(ln, k, 6 * k));
    assert forall|y: int| width(g) < y < limit(g) && is_l(g.x, #[trigger] at(g, y)) implies unmarked(rs.0[y]) == at(g, y)
        && back_true(g, rs.0, y) by {
        lemma_flags_true(t, g, low, s, a, q, b0, st, y);
    }
    assert forall|c: int, v: bool| 0 <= c < k implies #[trigger] next_of(ln, rs.1, c, v) == finish(g, low, c, v) by {
        let j = 4 * c + bit(v);
        assert((ln.next)(c, v) == j);
        assert(j / 4 == c && j % 4 == bit(v));
        lemma_starts(g, c + 1);
        lemma_low_start(g, low, c + 1);
    }
    assert forall|c: int, v: bool| 0 <= c < k implies #[trigger] name_of(ln, rs.1, c, v) <= st.2 by {
        let j = 4 * c + 2 + bit(v);
        assert((ln.name)(c, v) == j);
        assert(j / 4 == c && j % 4 == 2 + bit(v));
        assert(rs.1[j] == st.1[2 * c + bit(v)]);
        assert(st.1[2 * c + bit(!!v)] == name_of(ln, lane_state(g, width(g)).1, c, !v));
    }
}

/// The state of the scan over lanes when it has visited the slots from `y` on.
pub open spec fn back_state(g: Field, rs: InduceState, y: int) -> InduceState {
    fold_down(lane_right_step(g.x, six_tables()), rs, y, limit(g))->0
}

/// What is known of the scan over lanes.
proof fn lemma_back_state(g: Field, low: Seq<i32>, rs: InduceState, y: int)
    requires
        right_ready(g, low, six_tables(), 6 * g.k, rs),
        width(g) < y <= limit(g),
    ensures
        righted(g, low, six_tables(), 6 * g.k, rs.2 as int, back_state(g, rs, y), y),
        y > width(g) + 1 ==> lane_right_step(g.x, six_tables())(back_state(g, rs, y), y - 1) == Some(back_state(g, rs, y - 1)),
{
    lemma_right_run(g, low, six_tables(), 6 * g.k, rs, y);
    if y > width(g) + 1 {
        lemma_right_run(g, low, six_tables(), 6 * g.k, rs, y - 1);
    }
}

/// Where the scan over lanes has the suffix of an entry.
pub open spec fn spot(g: Field, low: Seq<i32>, e: i32) -> int {
    if e < 0 {
        low_place(low, unmarked(e) as int)
    } else {
        place_of(g, e as int)
    }
}

/// Whether the scan with four buckets has done behind slot `i` what the scan with one bucket and
/// the scan over lanes, behind slot `y`, have done.
pub open spec fn right_sim(
    t: Seq<i32>,
    g: Field,
    low: Seq<i32>,
    a: Seq<i32>,
    rs: InduceState,
    len: int,
    st: InduceState,
    one: PlaceState,
    i: int,
    y: int,
) -> bool {
    let n = t.len() as int;
    let k = g.k;
    let lane = back_state(g, rs, y);
    let (sa, b, d) = st;
    &&& sa.len() == one.0.len()
    &&& b.len() == len
    &&& d == lane.2
    &&& forall|c: int, v: bool| 0 <= c < k ==> b[2 * c + bit(v)] == #[trigger] name_of(six_tables(), lane.1, c, v)
    &&& forall|c: int| 0 <= c < k ==> b[3 * k + c] == #[trigger] one.1[c]
    &&& forall|j: int| 0 <= j < n ==> carries(#[trigger] sa[j], one.0[j])
    &&& forall|j: int| 0 <= j < n && one.0[j] != 0 ==> grouped(#[trigger] sa[j]) == (lane.0[spot(g, low, one.0[j])] < 0)
    &&& width(g) < y <= limit(g)
    &&& forall|z: int| y <= z < limit(g) ==> rank_of(t, a, #[trigger] at(g, z)) >= i
    &&& forall|z: int| width(g) < z < y ==> rank_of(t, a, #[trigger] at(g, z)) < i
}

/// What the slots of the scan with one bucket hold.
proof fn lemma_right_entry(
    t: Seq<i32>,
    g: Field,
    s: Seq<i32>,
    a: Seq<i32>,
    q: Seq<i32>,
    b0: Seq<i32>,
    h: Seq<i32>,
    one: PlaceState,
    i: int,
    j: int,
)
    requires
        four_ready(t, g, s, a, q, b0),
        right_at(t, g.f, a, h, g.k, b0.subrange(3 * g.k, 4 * g.k), one, i),
        0 <= j < t.len(),
        0 <= i <= t.len(),
    ensures
        0 <= a[j] < t.len(),
        one.0[j] != 0 ==> unmarked(one.0[j]) == a[j] && a[j] > 0,
        one.0[j] < 0 ==> is_lms(g.x, a[j] as int) && g.f <= a[j],
        one.0[j] > 0 ==> in_right(g.x, g.f, a[j] as int) && j < i,
        j < i && j >= i - 1 && in_right(g.x, g.f, a[j] as int) ==> one.0[j] > 0,
        one.0[j] == 0 || one.0[j] == marked(a[j], one.0[j] < 0),
{
    let x = g.x;
    let f = g.f;
    let n = t.len() as int;
    let v = a[j] as int;
    assert(is_lms(x, f));
    assert(0 <= a[j] < n);
    assert(one.0[j] == right_slot(t, f, a, i, j));
    if v > 0 {
        law_type_step(x, v - 1);
    }
    if class_of(x, f, v) == 3 {
        lemma_slots_ascend(t, f, standing(s, n, f), a, v);
        lemma_rank(t, g, s, a, q, b0, v);
        lemma_induced_distinct(x, f, standing(s, n, f), a, rank_of(t, a, v), j);
    }
}

/// Group bits do not disturb entries.
proof fn lemma_group_right(p: i32, v: i32, m: bool, e: bool)
    requires
        0 < v < 0x4000_0000,
    ensures
        carries(p, marked(v, m)) ==> (p <= 0) == m,
        carries(p, v) ==> ungrouped(p) == v && p > 0,
        carries(with_group(marked(v, m), e), marked(v, m)),
        grouped(with_group(marked(v, m), e)) == e,
        (marked(v, m) < 0) == m,
        unmarked(marked(v, m)) == v,
        marked(v, m) != 0,
{
}

/// A visit of the scan with four buckets.
#[verifier::spinoff_prover]
proof fn lemma_four_right_visit(
    t: Seq<i32>,
    g: Field,
    low: Seq<i32>,
    s: Seq<i32>,
    a: Seq<i32>,
    q: Seq<i32>,
    b0: Seq<i32>,
    h: Seq<i32>,
    rs: InduceState,
    len: int,
    st: InduceState,
    one: PlaceState,
    i: int,
    y: int,
)
    requires
        four_ready(t, g, s, a, q, b0),
        lows(g, low),
        right_ready(g, low, six_tables(), 6 * g.k, rs),
        right_at(t, g.f, a, h, g.k, b0.subrange(3 * g.k, 4 * g.k), one, i + 1),
        0 <= i < t.len() <= h.len(),
        4 * g.k <= len,
        right_sim(t, g, low, a, rs, len, st, one, i + 1, y),
        one.0[i] > 0,
        partial_sorting_scan_right_to_left_32s_1k_step(t)(one, i) is Some,
    ensures
        width(g) + 1 < y,
        partial_sorting_scan_right_to_left_32s_4k_step(t, g.k)(st, i) is Some,
        right_sim(
            t,
            g,
            low,
            a,
            rs,
            len,
            partial_sorting_scan_right_to_left_32s_4k_step(t, g.k)(st, i)->0,
            partial_sorting_scan_right_to_left_32s_1k_step(t)(one, i)->0,
            i,
            y - 1,
        ),
{
    let x = g.x;
    let f = g.f;
    let k = g.k;
    let n = t.len() as int;
    let ends = b0.subrange(3 * k, 4 * k);
    let ln = six_tables();
    let (sa, b, d) = st;
    let p = sa[i];
    let w = one.0[i] as int;
    assert(is_lms(x, f));
    lemma_right_entry(t, g, s, a, q, b0, h, one, i + 1, i);
    assert(a[i] == w);
    assert(in_right(x, f, w));
    lemma_place(g, w);
    let z = place_of(g, w);
    assert(rank_of(t, a, w) == i) by {
        lemma_rank(t, g, s, a, q, b0, w);
        lemma_induced_distinct(x, f, g.slot, a, rank_of(t, a, w), i);
    }
    assert(at(g, z) == w);
    assert(z == y - 1) by {
        if z >= y {
            assert(rank_of(t, a, at(g, z)) >= i + 1);
        } else if z < y - 1 {
            lemma_rank_order(t, g, s, a, q, b0, z, y - 1);
            assert(rank_of(t, a, at(g, y - 1)) < i + 1);
        }
    }
    lemma_back_state(g, low, rs, y);
    let lane = back_state(g, rs, y);
    let nl = back_state(g, rs, y - 1);
    lemma_right_does(g, low, ln, 6 * k, rs.2 as int, lane, z);
    lemma_right_next(g, low, z);
    assert(carries(sa[i], one.0[i]));
    lemma_group_right(p, w as i32, false, false);
    assert(grouped(p) == (lane.0[spot(g, low, one.0[i])] < 0));
    assert(grouped(p) == (lane.0[z] < 0));
    let v = w - 1;
    let c = x[v];
    assert(x[v] == t[v]);
    assert(v > 0);
    assert(x[v - 1] == t[v - 1]);
    let e = d + bit(grouped(p));
    let m = t[v - 1] > t[v];
    assert(m == is_lms(x, v));
    let name = name_of(ln, lane.1, c, m);
    assert(b[2 * c + bit(m)] == name_of(ln, lane.1, c, m));
    assert(one.1[c] == b[3 * k + c]);
    assert(class_of(x, f, v) == 3);
    lemma_put_right(t, f, g.slot, a, h, k, ends, one, i, v);
    let r = one.1[c] - 1;
    assert(r == slot_of(a, n, v) && 0 <= r < i && a[r] == v);
    let fresh = name != e;
    let nx = (
        sa.update(i, 0).update(r, with_group(marked(v as i32, m), fresh)),
        b.update(3 * k + c, r as i32).update(2 * c + bit(m), e as i32),
        e as i32,
    );
    assert(partial_sorting_scan_right_to_left_32s_4k_step(t, k)(st, i) == Some(nx));
    let one2 = (one.0.update(i, 0).update(r, marked(v as i32, m)), one.1.update(c, r as i32));
    assert(partial_sorting_scan_right_to_left_32s_1k_step(t)(one, i) == Some(one2));
    let rl = back_place(g, low, v);
    assert(nl.0 == lane.0.update(rl, marked(v as i32, fresh)));
    assert(nl.2 == e);
    assert(tables_apart(ln, k, 6 * k));
    assert forall|c2: int, v2: bool| 0 <= c2 < k implies nx.1[2 * c2 + bit(v2)] == #[trigger] name_of(ln, nl.1, c2, v2) by {
        assert(b[2 * c2 + bit(v2)] == name_of(ln, lane.1, c2, v2));
        assert((ln.name)(c2, v2) != (ln.next)(c, m));
        if c2 == c && v2 == m {
        } else {
            assert((ln.name)(c2, v2) != (ln.name)(c, m));
        }
    }
    assert forall|c2: int| 0 <= c2 < k implies nx.1[3 * k + c2] == #[trigger] one2.1[c2] by {
        assert(b[3 * k + c2] == one.1[c2]);
    }
    lemma_group_right(0, v as i32, m, fresh);
    assert forall|j: int| 0 <= j < n implies carries(#[trigger] nx.0[j], one2.0[j]) by {
        assert(carries(sa[j], one.0[j]));
    }
    assert forall|j: int| 0 <= j < n && one2.0[j] != 0 implies grouped(#[trigger] nx.0[j]) == (nl.0[spot(g, low, one2.0[j])] < 0) by {
        if j == r {
            assert(spot(g, low, one2.0[j]) == rl);
        } else {
            assert(j != i);
            assert(one2.0[j] == one.0[j] && nx.0[j] == sa[j]);
            assert(grouped(sa[j]) == (lane.0[spot(g, low, one.0[j])] < 0));
            lemma_right_entry(t, g, s, a, q, b0, h, one, i + 1, j);
            let el = a[j] as int;
            assert(el != v) by {
                if el == v {
                    lemma_induced_distinct(x, f, g.slot, a, j, r);
                }
            }
            if one.0[j] < 0 {
                lemma_low_place(g, low, el);
            } else {
                lemma_place(g, el);
            }
            assert(spot(g, low, one.0[j]) != rl);
        }
    }
    assert forall|z2: int| y - 1 <= z2 < limit(g) implies rank_of(t, a, #[trigger] at(g, z2)) >= i by {
        assert(z2 >= y ==> rank_of(t, a, at(g, z2)) >= i + 1);
    }
    assert forall|z2: int| width(g) < z2 < y - 1 implies rank_of(t, a, #[trigger] at(g, z2)) < i by {
        lemma_rank_order(t, g, s, a, q, b0, z2, y - 1);
    }
}

/// A slot without a visit.
proof fn lemma_four_right_pass(
    t: Seq<i32>,
    g: Field,
    low: Seq<i32>,
    s: Seq<i32>,
    a: Seq<i32>,
    q: Seq<i32>,
    b0: Seq<i32>,
    h: Seq<i32>,
    rs: InduceState,
    len: int,
    st: InduceState,
    one: PlaceState,
    i: int,
    y: int,
)
    requires
        four_ready(t, g, s, a, q, b0),
        right_at(t, g.f, a, h, g.k, b0.subrange(3 * g.k, 4 * g.k), one, i + 1),
        0 <= i < t.len() <= h.len(),
        h.len() == one.0.len(),
        right_sim(t, g, low, a, rs, len, st, one, i + 1, y),
        one.0[i] <= 0,
    ensures
        partial_sorting_scan_right_to_left_32s_4k_step(t, g.k)(st, i) == Some(st),
        partial_sorting_scan_right_to_left_32s_1k_step(t)(one, i) == Some(one),
        right_sim(t, g, low, a, rs, len, st, one, i, y),
{
    let x = g.x;
    assert(is_lms(x, g.f));
    lemma_right_entry(t, g, s, a, q, b0, h, one, i + 1, i);
    assert(carries(st.0[i], one.0[i]));
    if one.0[i] != 0 {
        lemma_group_right(st.0[i], a[i], one.0[i] < 0, false);
    }
    assert forall|z: int| width(g) < z < y implies rank_of(t, a, #[trigger] at(g, z)) < i by {
        assert(rank_of(t, a, at(g, z)) < i + 1);
        lemma_at(g, z);
        lemma_rank(t, g, s, a, q, b0, at(g, z));
        assert(in_right(x, g.f, at(g, z)));
    }
}

/// The scan runs from slot to slot.
proof fn lemma_four_right_run(
    t: Seq<i32>,
    g: Field,
    low: Seq<i32>,
    s: Seq<i32>,
    a: Seq<i32>,
    q: Seq<i32>,
    b0: Seq<i32>,
    st: InduceState,
    i: int,
) -> (y: int)
    requires
        turns(t, g, low, s, a, q, b0, st),
        0 <= i <= t.len(),
    ensures
        ({
            let n = t.len() as int;
            let k = g.k;
            let h = shift_group_run((st.0, true), 0, n).unwrap().0;
            let hu = Seq::new(h.len(), |j: int| ungrouped(h[j]));
            let rs = back_start(t, g, low, a, h, st.1, st.2);
            let sr = fold_down(partial_sorting_scan_right_to_left_32s_4k_step(t, k), (h, st.1, st.2), i, n);
            let so = fold_down(partial_sorting_scan_right_to_left_32s_1k_step(t), (hu, b0.subrange(3 * k, 4 * k)), i, n);
            &&& sr is Some
            &&& so is Some
            &&& so.unwrap().0.len() == h.len()
            &&& right_at(t, g.f, a, hu, k, b0.subrange(3 * k, 4 * k), so->0, i)
            &&& right_sim(t, g, low, a, rs, b0.len() as int, sr->0, so->0, i, y)
        }),
    decreases t.len() - i,
{
    let n = t.len() as int;
    let k = g.k;
    let x = g.x;
    let ends = b0.subrange(3 * k, 4 * k);
    lemma_shift_groups(st.0, n, 0);
    let h = shift_group_run((st.0, true), 0, n).unwrap().0;
    let hu = Seq::new(h.len(), |j: int| ungrouped(h[j]));
    let rs = back_start(t, g, low, a, h, st.1, st.2);
    lemma_back_start(t, g, low, s, a, q, b0, st);
    assert(is_lms(x, g.f));
    assert(turned(t, g.f, a, hu)) by {
        let z = Seq::new(st.0.len(), |j: int| ungrouped(st.0[j]));
        assert forall|j: int| 0 <= j < n implies #[trigger] hu[j] == (if class_of(x, g.f, a[j] as int) == 0 {
            spent_l(t, a[j] as int)
        } else {
            0
        }) by {
            lemma_positive(t, g, low, s, a, q, b0, st, j);
            assert(z[j] == ungrouped(st.0[j]));
            assert(carries(st.0[j], ungrouped(st.0[j])));
        }
    }
    crate::partial_induction::lemma_right_visits(t, g.f, g.slot, a, hu, k, ends, i);
    if i < n {
        let y = lemma_four_right_run(t, g, low, s, a, q, b0, st, i + 1);
        let sr = fold_down(partial_sorting_scan_right_to_left_32s_4k_step(t, k), (h, st.1, st.2), i + 1, n)->0;
        let so = fold_down(partial_sorting_scan_right_to_left_32s_1k_step(t), (hu, ends), i + 1, n)->0;
        lemma_right_visit(t, g.f, g.slot, a, hu, k, ends, so, i);
        if so.0[i] > 0 {
            lemma_four_right_visit(t, g, low, s, a, q, b0, hu, rs, b0.len() as int, sr, so, i, y);
            y - 1
        } else {
            lemma_four_right_pass(t, g, low, s, a, q, b0, hu, rs, b0.len() as int, sr, so, i, y);
            y
        }
    } else {
        let y = limit(g);
        assert(back_state(g, rs, y) == rs);
        assert forall|c: int, v: bool| 0 <= c < k implies st.1[2 * c + bit(v)] == #[trigger] name_of(six_tables(), rs.1, c, v) by {
            let j = 4 * c + 2 + bit(v);
            assert((six_tables().name)(c, v) == j);
            assert(j / 4 == c && j % 4 == 2 + bit(v));
        }
        assert forall|c: int| 0 <= c < k implies st.1[3 * k + c] == #[trigger] ends[c] by {
            assert(st.1[3 * k + c] == b0[3 * k + c]);
        }
        assert forall|j: int| 0 <= j < n implies carries(#[trigger] h[j], hu[j]) by {
            lemma_positive(t, g, low, s, a, q, b0, st, j);
            assert(carries(st.0[j], ungrouped(st.0[j])));
        }
        assert forall|j: int| 0 <= j < n && hu[j] != 0 implies grouped(#[trigger] h[j]) == (rs.0[spot(g, low, hu[j])] < 0) by {
            lemma_positive(t, g, low, s, a, q, b0, st, j);
            assert(carries(st.0[j], ungrouped(st.0[j])));
            let v = a[j] as int;
            assert(hu[j] == v);
            lemma_place(g, v);
            lemma_rank(t, g, s, a, q, b0, v);
            lemma_induced_distinct(x, g.f, g.slot, a, rank_of(t, a, v), j);
        }
        assert forall|z: int| width(g) < z < y implies rank_of(t, a, #[trigger] at(g, z)) < n by {
            lemma_at(g, z);
            lemma_rank(t, g, s, a, q, b0, at(g, z));
        }
        y
    }
}

/// The whole scan to the left: it leaves the leftmost suffixes of type S in their slots, with a
/// group bit where the scan over lanes leaves a mark.
#[verifier::spinoff_prover]
pub proof fn lemma_four_right(t: Seq<i32>, g: Field, low: Seq<i32>, s: Seq<i32>, a: Seq<i32>, q: Seq<i32>, b0: Seq<i32>, st: InduceState) -> (marks: Seq<i32>)
    requires
        turns(t, g, low, s, a, q, b0, st),
    ensures
        shift_group_run((st.0, true), 0, t.len() as int) is Some,
        ({
            let n = t.len() as int;
            let h = shift_group_run((st.0, true), 0, n).unwrap().0;
            let r = fold_down(partial_sorting_scan_right_to_left_32s_4k_step(t, g.k), (h, st.1, st.2), 0, n);
            &&& r is Some
            &&& r.unwrap().0.len() == q.len()
            &&& r.unwrap().1.len() == b0.len()
            &&& forall|j: int| #![trigger low[j]] 0 <= j < low.len() ==> unmarked(marks[j]) == low[j] && low_true(g, low, marks, j)
            &&& forall|j: int| 0 <= j < n ==> #[trigger] r.unwrap().0[j] == (if is_lms(g.x, a[j] as int) {
                with_group(marked(a[j], true), marks[low_place(low, a[j] as int)] < 0)
            } else {
                0
            })
        }),
{
    let n = t.len() as int;
    let k = g.k;
    let x = g.x;
    lemma_shift_groups(st.0, n, 0);
    let h = shift_group_run((st.0, true), 0, n).unwrap().0;
    let hu = Seq::new(h.len(), |j: int| ungrouped(h[j]));
    let rs = back_start(t, g, low, a, h, st.1, st.2);
    lemma_back_start(t, g, low, s, a, q, b0, st);
    let y = lemma_four_right_run(t, g, low, s, a, q, b0, st, 0);
    assert(is_lms(x, g.f));
    assert(y == width(g) + 1) by {
        if y > width(g) + 1 {
            lemma_at(g, y - 1);
            lemma_rank(t, g, s, a, q, b0, at(g, y - 1));
            assert(rank_of(t, a, at(g, y - 1)) < 0);
        }
    }
    lemma_right_lows(g, low, six_tables(), 6 * k, rs);
    let marks = back_state(g, rs, y).0;
    let sr = fold_down(partial_sorting_scan_right_to_left_32s_4k_step(t, k), (h, st.1, st.2), 0, n)->0;
    let so = fold_down(partial_sorting_scan_right_to_left_32s_1k_step(t), (hu, b0.subrange(3 * k, 4 * k)), 0, n)->0;
    assert forall|j: int| 0 <= j < n implies #[trigger] sr.0[j] == (if is_lms(x, a[j] as int) {
        with_group(marked(a[j], true), marks[low_place(low, a[j] as int)] < 0)
    } else {
        0
    }) by {
        lemma_right_entry(t, g, s, a, q, b0, hu, so, 0, j);
        assert(carries(sr.0[j], so.0[j]));
        let v = a[j] as int;
        if v > 0 {
            law_type_step(x, v - 1);
        }
        if is_lms(x, v) {
            assert(g.f <= v);
            lemma_slots_ascend(t, g.f, g.slot, a, v);
            assert(so.0[j] == right_slot(t, g.f, a, 0, j));
            assert(so.0[j] == marked(v as i32, true));
            lemma_group_right(sr.0[j], v as i32, true, grouped(sr.0[j]));
            assert(grouped(sr.0[j]) == (marks[spot(g, low, so.0[j])] < 0));
        } else {
            assert(so.0[j] == 0);
        }
    }
    marks
}

/// The state of the packing in front of slot `i`.
pub open spec fn packing(t: Seq<i32>, g: Field, low: Seq<i32>, a: Seq<i32>, z: Seq<i32>, marks: Seq<i32>, st: (Seq<i32>, usize), i: int) -> bool {
    let n = t.len() as int;
    let (w, l) = st;
    &&& w.len() == z.len()
    &&& l <= i
    &&& l <= low.len()
    &&& forall|j: int| i <= j < n ==> #[trigger] w[j] == z[j]
    &&& forall|b: int| 0 <= b < l ==> #[trigger] w[b] == marked(low[b], marks[b] < 0)
    &&& forall|b: int| 0 <= b < l ==> rank_of(t, a, #[trigger] low[b] as int) < i
    &&& forall|b: int| l <= b < low.len() ==> rank_of(t, a, #[trigger] low[b] as int) >= i
}

/// The packing runs from slot to slot.
#[verifier::spinoff_prover]
pub proof fn lemma_four_packed(
    t: Seq<i32>,
    g: Field,
    low: Seq<i32>,
    s: Seq<i32>,
    a: Seq<i32>,
    q: Seq<i32>,
    b0: Seq<i32>,
    z: Seq<i32>,
    marks: Seq<i32>,
    i: int,
)
    requires
        four_ready(t, g, s, a, q, b0),
        lows(g, low),
        t.len() <= z.len() <= usize::MAX,
        forall|j: int| 0 <= j < t.len() ==> #[trigger] z[j] == (if is_lms(g.x, a[j] as int) {
            with_group(marked(a[j], true), marks[low_place(low, a[j] as int)] < 0)
        } else {
            0
        }),
        0 <= i <= t.len(),
    ensures
        ({
            let st = partial_sorting_gather_lms_suffixes_32s_4k_slot_run((z, 0), 0, i);
            &&& st is Some
            &&& st.unwrap().0.len() == z.len()
            &&& i == t.len() ==> forall|b: int| 0 <= b < low.len() ==> #[trigger] st.unwrap().0[b] == marked(low[b], marks[b] < 0)
            &&& packing(t, g, low, a, z, marks, st->0, i)
        }),
    decreases i,
{
    let n = t.len() as int;
    let x = g.x;
    assert(is_lms(x, g.f));
    if i > 0 {
        lemma_four_packed(t, g, low, s, a, q, b0, z, marks, i - 1);
        let st = partial_sorting_gather_lms_suffixes_32s_4k_slot_run((z, 0), 0, i - 1)->0;
        let (w, l) = st;
        let p = z[i - 1];
        assert(w[i - 1] == z[i - 1]);
        let v = a[i - 1] as int;
        assert(0 <= a[i - 1] < n);
        let entry = if grouped(p) {
            ungrouped(p)
        } else {
            flipped(p)
        };
        let nx = (w.update(l as int, entry), (l + bit(p < 0)) as usize);
        assert(partial_sorting_gather_lms_suffixes_32s_4k_slot_run((z, 0), 0, i) == partial_sorting_gather_lms_suffixes_32s_4k_slot_step()(st, i - 1));
        assert(partial_sorting_gather_lms_suffixes_32s_4k_slot_step()(st, i - 1) == Some(nx));
        assert forall|b: int| 0 <= b < low.len() implies 0 <= #[trigger] low[b] < n && a[rank_of(t, a, low[b] as int)] == low[b] by {
            lemma_low_at(g, low, b);
            lemma_rank(t, g, s, a, q, b0, low[b] as int);
        }
        if is_lms(x, v) {
            lemma_low_place(g, low, v);
            let c = low_place(low, v);
            assert(low[c] == v);
            assert(rank_of(t, a, v) == i - 1) by {
                lemma_rank(t, g, s, a, q, b0, v);
                lemma_induced_distinct(x, g.f, g.slot, a, rank_of(t, a, v), i - 1);
            }
            assert(c == l) by {
                if c < l {
                    assert(rank_of(t, a, low[c] as int) < i - 1);
                } else if l < c {
                    lemma_low_rank(t, g, low, s, a, q, b0, l as int, c);
                    assert(rank_of(t, a, low[l as int] as int) >= i - 1);
                }
            }
            lemma_group_right(p, v as i32, true, marks[c] < 0);
            assert(p < 0);
            assert(entry == marked(low[c], marks[c] < 0));
            assert forall|b: int| l + 1 <= b < low.len() implies rank_of(t, a, #[trigger] low[b] as int) >= i by {
                lemma_low_rank(t, g, low, s, a, q, b0, l as int, b);
            }
        } else {
            assert(p == 0);
            assert forall|b: int| l <= b < low.len() implies rank_of(t, a, #[trigger] low[b] as int) >= i by {
                assert(rank_of(t, a, low[b] as int) >= i - 1);
                lemma_low_at(g, low, b);
            }
        }
        assert forall|b: int| 0 <= b < nx.1 implies #[trigger] nx.0[b] == marked(low[b], marks[b] < 0) by {
            if b < l {
                assert(w[b] == marked(low[b], marks[b] < 0));
            }
        }
        assert forall|b: int| 0 <= b < nx.1 implies rank_of(t, a, #[trigger] low[b] as int) < i by {
            if b < l {
                assert(rank_of(t, a, low[b] as int) < i - 1);
            }
        }
        if i == n {
            assert(nx.1 == low.len()) by {
                if nx.1 < low.len() {
                    let b = nx.1 as int;
                    assert(rank_of(t, a, low[b] as int) >= n);
                    lemma_low_at(g, low, b);
                    lemma_rank(t, g, s, a, q, b0, low[b] as int);
                }
            }
        }
    } else {
        assert forall|b: int| 0 <= b < low.len() implies rank_of(t, a, #[trigger] low[b] as int) >= 0 by {
            lemma_low_at(g, low, b);
            lemma_rank(t, g, s, a, q, b0, low[b] as int);
        }
    }
}

/// Ranks of the leftmost suffixes of type S are in the order of their list.
proof fn lemma_low_rank(t: Seq<i32>, g: Field, low: Seq<i32>, s: Seq<i32>, a: Seq<i32>, q: Seq<i32>, b0: Seq<i32>, b: int, c: int)
    requires
        four_ready(t, g, s, a, q, b0),
        lows(g, low),
        0 <= b < c < low.len(),
    ensures
        rank_of(t, a, low[b] as int) < rank_of(t, a, low[c] as int),
{
    assert(is_lms(g.x, g.f));
    lemma_low_at(g, low, b);
    lemma_low_at(g, low, c);
    crate::lane_right::lemma_low_order(g, low, b, c);
    lemma_rank(t, g, s, a, q, b0, low[b] as int);
    lemma_rank(t, g, s, a, q, b0, low[c] as int);
    lemma_induced_rank(g.x, g.f, g.slot, a, rank_of(t, a, low[b] as int), rank_of(t, a, low[c] as int));
}

} // verus!
