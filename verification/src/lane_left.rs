//! The scan to the right over the substrings, with a lane for every pair of types.

use vstd::prelude::*;
use crate::fold::fold_up;
use crate::kinds::{is_l, is_lms, law_last_type, law_type_step};
use crate::lanes::{
    at, fielded, in_area, in_left, lemma_area_order, lemma_at, lemma_left_order, lemma_linked_in_front, lemma_linked_transitive,
    lemma_place, lemma_start, lemma_starts, limit, linked, place_of, start, width, Field, Lanes,
};
use crate::lengths::tally;
use crate::marks::{bit, marked, unmarked};
use crate::partial_induction::lemma_descends;
use crate::recount::lemma_tally_less;
use crate::substrings::{class_of, lemma_keys, met_less};
use crate::ties::{
    lemma_met_between, lemma_same_stop, lemma_same_symmetric, lemma_same_transitive, lemma_stop_below,
    same_chain, stop_symbol,
};
use crate::types::InduceState;

verus! {

/// A step of the scan to the right: the suffix in front of the one at slot `i` goes to the next
/// slot of its lane, marked where a new name begins.
pub open spec fn lane_left_step(x: Seq<int>, ln: Lanes) -> spec_fn(InduceState, int) -> Option<InduceState> {
    |s: InduceState, i: int|
        {
            let (sa, b, d) = s;
            let p = unmarked(sa[i]);
            let e = d + bit(sa[i] < 0);
            let v = x[p - 2] >= x[p - 1];
            let u = (ln.next)(x[p - 1], v);
            let w = (ln.name)(x[p - 1], v);
            let y = b[u];
            if 0 <= i < sa.len() && e <= i32::MAX && 2 <= p <= x.len() && 0 <= u < b.len() && 0 <= w < b.len() && 0 <= y < sa.len()
                && y < i32::MAX {
                Some((
                    sa.update(y as int, marked((p - 1) as i32, b[w] != e)),
                    b.update(u, (y + 1) as i32).update(w, e as i32),
                    e as i32,
                ))
            } else {
                None
            }
        }
}

/// The state with the last suffix placed under the first name.
pub open spec fn lane_seeded(x: Seq<int>, ln: Lanes, s: InduceState) -> InduceState {
    let (sa, b, d) = s;
    let n = x.len() as int;
    let v = x[n - 2] >= x[n - 1];
    let u = (ln.next)(x[n - 1], v);
    let w = (ln.name)(x[n - 1], v);
    (sa.update(b[u] as int, marked((n - 1) as i32, true)), b.update(u, (b[u] + 1) as i32).update(w, (d + 1) as i32), (d + 1) as i32)
}

/// The next slot of a lane.
pub open spec fn next_of(ln: Lanes, b: Seq<i32>, c: int, v: bool) -> int {
    b[(ln.next)(c, v)] as int
}

/// The name that was used last in a lane.
pub open spec fn name_of(ln: Lanes, b: Seq<i32>, c: int, v: bool) -> int {
    b[(ln.name)(c, v)] as int
}

/// Whether the tables hold what they hold apart.
pub open spec fn tables_apart(ln: Lanes, k: int, len: int) -> bool {
    &&& forall|c: int, v: bool| #![trigger (ln.next)(c, v)] 0 <= c < k ==> 0 <= (ln.next)(c, v) < len
    &&& forall|c: int, v: bool| #![trigger (ln.name)(c, v)] 0 <= c < k ==> 0 <= (ln.name)(c, v) < len
    &&& forall|c: int, v: bool, d: int, w: bool| #![trigger (ln.next)(c, v), (ln.next)(d, w)]
        0 <= c < k && 0 <= d < k && (ln.next)(c, v) == (ln.next)(d, w) ==> c == d && v == w
    &&& forall|c: int, v: bool, d: int, w: bool| #![trigger (ln.name)(c, v), (ln.name)(d, w)]
        0 <= c < k && 0 <= d < k && (ln.name)(c, v) == (ln.name)(d, w) ==> c == d && v == w
    &&& forall|c: int, v: bool, d: int, w: bool| #![trigger (ln.next)(c, v), (ln.name)(d, w)]
        0 <= c < k && 0 <= d < k ==> (ln.next)(c, v) != (ln.name)(d, w)
}

/// Whether the scan to the right has placed the suffix at `q`, of type L, before slot `i`.
pub open spec fn placed_left(g: Field, q: int, i: int) -> bool {
    q == g.x.len() - 1 || place_of(g, q + 1) < i
}

/// Whether slot `y` holds its suffix before the scan to the right visits slot `i`.
pub open spec fn filled_left(g: Field, y: int, i: int) -> bool {
    &&& in_area(g, y)
    &&& if is_l(g.x, at(g, y)) {
        placed_left(g, at(g, y), i)
    } else {
        y < width(g)
    }
}

/// How many of the first `j` slots are marked.
pub open spec fn mark_count(sa: Seq<i32>, j: int) -> int {
    tally(|y: int| sa[y] < 0, 0, j)
}

/// The name under which the scan to the right treats the suffix at `v`.
pub open spec fn name_met(g: Field, sa: Seq<i32>, v: int) -> int {
    if v >= g.x.len() {
        1
    } else {
        1 + mark_count(sa, place_of(g, v) + 1)
    }
}

/// Whether slots `y - 1` and `y` belong to suffixes of type L in the same lane.
pub open spec fn lane_pair(g: Field, y: int) -> bool {
    &&& in_area(g, y - 1)
    &&& in_area(g, y)
    &&& is_l(g.x, at(g, y - 1))
    &&& is_l(g.x, at(g, y))
    &&& g.x[at(g, y - 1)] == g.x[at(g, y)]
}

/// What the mark of a filled slot says of its suffix and the one in front.
pub open spec fn mark_true(g: Field, sa: Seq<i32>, y: int) -> bool {
    if sa[y] < 0 {
        if is_l(g.x, at(g, y)) {
            lane_pair(g, y) ==> !same_chain(g.x, at(g, y - 1), at(g, y))
        } else {
            y > 0 ==> !same_chain(g.x, at(g, y - 1), at(g, y))
        }
    } else if is_l(g.x, at(g, y)) {
        lane_pair(g, y) && linked(g, at(g, y - 1), at(g, y))
    } else {
        (g.exact ==> y > 0) && (y > 0 ==> linked(g, at(g, y - 1), at(g, y)))
    }
}

/// What a lane's tables say.
pub open spec fn lane_true(g: Field, ln: Lanes, sa: Seq<i32>, b: Seq<i32>, c: int, v: bool) -> bool {
    let y = next_of(ln, b, c, v);
    &&& start(g, c, v) <= y <= (if v {
        width(g)
    } else {
        limit(g)
    })
    &&& name_of(ln, b, c, v) == (if y == start(g, c, v) {
        0
    } else {
        name_met(g, sa, at(g, y - 1) + 1)
    })
}

/// The state of the scan to the right when it is about to visit slot `i`.
pub open spec fn lefted(g: Field, ln: Lanes, len: int, st: InduceState, i: int) -> bool {
    let (sa, b, d) = st;
    &&& sa.len() >= limit(g)
    &&& b.len() == len
    &&& d == 1 + mark_count(sa, i)
    &&& forall|y: int| #[trigger] filled_left(g, y, i) ==> unmarked(sa[y]) == at(g, y) && mark_true(g, sa, y)
    &&& forall|y: int| in_area(g, y) && is_l(g.x, #[trigger] at(g, y)) ==> placed_left(g, at(g, y), i) == (y < next_of(
        ln,
        b,
        g.x[at(g, y)],
        y < width(g),
    ))
    &&& forall|c: int, v: bool| 0 <= c < g.k ==> #[trigger] lane_true(g, ln, sa, b, c, v)
    &&& forall|c: int, v: bool, y: int| #![trigger next_of(ln, b, c, v), at(g, y)]
        0 <= c < g.k && in_area(g, y) && v == (y < width(g)) && start(g, c, v) <= y < next_of(ln, b, c, v) ==> is_l(g.x, at(g, y))
            && g.x[at(g, y)] == c
}

/// Counts of marks grow.
pub proof fn lemma_mark_count(sa: Seq<i32>, i: int, j: int)
    requires
        0 <= i <= j,
    ensures
        0 <= mark_count(sa, i) <= mark_count(sa, j) <= j,
        mark_count(sa, j + 1) == mark_count(sa, j) + bit(sa[j] < 0),
    decreases j - i,
{
    crate::recount::lemma_tally_last(|y: int| sa[y] < 0, 0, j);
    crate::lengths::lemma_tally_bound(|y: int| sa[y] < 0, 0, i);
    crate::lengths::lemma_tally_bound(|y: int| sa[y] < 0, 0, j);
    if i < j {
        lemma_mark_count(sa, i, j - 1);
    }
}

/// Where the count of marks grows, there is a mark.
pub proof fn lemma_mark_between(sa: Seq<i32>, i: int, j: int) -> (z: int)
    requires
        0 <= i <= j,
        mark_count(sa, i) != mark_count(sa, j),
    ensures
        i <= z < j,
        sa[z] < 0,
    decreases j - i,
{
    if i < j {
        lemma_mark_count(sa, i, j - 1);
        if sa[j - 1] < 0 {
            j - 1
        } else {
            lemma_mark_between(sa, i, j - 1)
        }
    } else {
        0
    }
}

/// Where the count of marks stays, there is none.
pub proof fn lemma_no_mark(sa: Seq<i32>, i: int, j: int, z: int)
    requires
        0 <= i <= z < j,
        mark_count(sa, i) == mark_count(sa, j),
    ensures
        sa[z] >= 0,
{
    lemma_mark_count(sa, i, z);
    lemma_mark_count(sa, z + 1, j);
}

/// Counts of marks look at the first slots only.
proof fn lemma_mark_count_same(sa: Seq<i32>, ta: Seq<i32>, j: int)
    requires
        forall|y: int| 0 <= y < j ==> #[trigger] sa[y] == ta[y],
    ensures
        mark_count(sa, j) == mark_count(ta, j),
{
    lemma_tally_less(|y: int| sa[y] < 0, |y: int| ta[y] < 0, 0, j);
    lemma_tally_less(|y: int| ta[y] < 0, |y: int| sa[y] < 0, 0, j);
}

/// Whether slot `z` holds its suffix without a mark.
pub open spec fn quiet(g: Field, sa: Seq<i32>, z: int, i: int) -> bool {
    filled_left(g, z, i) && sa[z] >= 0
}

/// Without marks between them, visited suffixes are linked.
proof fn lemma_tied_run(g: Field, ln: Lanes, len: int, st: InduceState, i: int, lo: int, hi: int)
    requires
        fielded(g),
        lefted(g, ln, len, st, i),
        0 <= lo <= hi < width(g),
        forall|z: int| lo < z <= hi ==> #[trigger] quiet(g, st.0, z, i),
    ensures
        linked(g, at(g, lo), at(g, hi)),
    decreases hi - lo,
{
    if lo < hi {
        lemma_tied_run(g, ln, len, st, i, lo, hi - 1);
        assert(quiet(g, st.0, hi, i));
        assert(mark_true(g, st.0, hi));
        lemma_linked_transitive(g, at(g, lo), at(g, hi - 1), at(g, hi));
    } else {
        lemma_same_self(g.x, at(g, lo));
    }
}

/// A chain is the same as itself.
pub proof fn lemma_same_self(x: Seq<int>, u: int)
    ensures
        same_chain(x, u, u),
    decreases x.len() - u,
{
    if u < x.len() {
        lemma_same_self(x, u + 1);
    }
}

/// What is visited at slot `i` has been placed.
pub proof fn lemma_visited_filled(g: Field, z: int, i: int)
    requires
        fielded(g),
        0 <= z <= i,
        z < width(g),
    ensures
        filled_left(g, z, i),
{
    lemma_at(g, z);
    let v = at(g, z);
    if is_l(g.x, v) && v + 1 < g.x.len() {
        assert(class_of(g.x, g.f, v) == 0);
        lemma_descends(g.x, g.f, g.slot, v);
        assert(in_left(g.x, g.f, v + 1));
        assert(in_left(g.x, g.f, v));
        lemma_left_order(g, v + 1, v);
    }
}

/// The suffix that a visit places, and its type.
pub proof fn lemma_left_next(g: Field, i: int)
    requires
        fielded(g),
        0 <= i < width(g),
    ensures
        ({
            let q = at(g, i) - 1;
            &&& g.f < q
            &&& q + 1 < g.x.len()
            &&& is_l(g.x, q)
            &&& class_of(g.x, g.f, q) == 0
            &&& is_l(g.x, q - 1) == (g.x[q - 1] >= g.x[q])
            &&& place_of(g, q) > i
            &&& place_of(g, q + 1) == i
        }),
{
    lemma_at(g, i);
    let q = at(g, i) - 1;
    assert(is_lms(g.x, g.f));
    assert(q != g.f);
    law_type_step(g.x, q - 1);
    lemma_descends(g.x, g.f, g.slot, q);
    lemma_place(g, q);
    if is_l(g.x, q - 1) {
        assert(in_left(g.x, g.f, q + 1) && in_left(g.x, g.f, q));
        lemma_left_order(g, q + 1, q);
    }
}

/// The next suffix of type L goes to its slot.
proof fn lemma_left_target(g: Field, ln: Lanes, len: int, st: InduceState, i: int)
    requires
        fielded(g),
        lefted(g, ln, len, st, i),
        0 <= i < width(g),
    ensures
        ({
            let q = at(g, i) - 1;
            next_of(ln, st.1, g.x[q], is_l(g.x, q - 1)) == place_of(g, q)
        }),
{
    let q = at(g, i) - 1;
    lemma_left_next(g, i);
    lemma_place(g, q);
    let r = place_of(g, q);
    let c = g.x[q];
    let v = is_l(g.x, q - 1);
    assert(v == (r < width(g)));
    let y = next_of(ln, st.1, c, v);
    assert(at(g, r) == q);
    assert(!placed_left(g, q, i));
    assert(y <= r);
    assert(0 <= g.x[q] < g.k);
    assert(lane_true(g, ln, st.0, st.1, c, v));
    lemma_starts(g, c);
    if y < r {
        assert((y < width(g)) == v);
        assert(in_area(g, y));
        lemma_start(g, c, y);
        lemma_area_order(g, y, r);
        lemma_at(g, y);
        let p = at(g, y);
        assert(g.x[p] == c && is_l(g.x, p));
        assert(met_less(g.x, g.f, g.slot, p, q));
        assert(!placed_left(g, p, i));
        lemma_keys(g.x, g.f, p, q);
        assert(class_of(g.x, g.f, p) == 0);
        assert(met_less(g.x, g.f, g.slot, p + 1, q + 1));
        assert(in_left(g.x, g.f, p + 1) && in_left(g.x, g.f, q + 1));
        lemma_left_order(g, p + 1, q + 1);
    }
}

/// Where the lane has no entry yet, or the name has changed, the next entry begins a chain.
#[verifier::spinoff_prover]
proof fn lemma_left_mark(g: Field, ln: Lanes, len: int, st: InduceState, i: int, sa: Seq<i32>)
    requires
        fielded(g),
        lefted(g, ln, len, st, i),
        0 <= i < width(g),
        ({
            let q = at(g, i) - 1;
            let e = st.2 + bit(st.0[i] < 0);
            sa[place_of(g, q)] == marked(q as i32, name_of(ln, st.1, g.x[q], is_l(g.x, q - 1)) != e)
        }),
    ensures
        mark_true(g, sa, place_of(g, at(g, i) - 1)),
{
    let q = at(g, i) - 1;
    let v = at(g, i);
    let (s, b, d) = st;
    let r = place_of(g, q);
    let c = g.x[q];
    let w = is_l(g.x, q - 1);
    lemma_left_next(g, i);
    lemma_left_target(g, ln, len, st, i);
    lemma_place(g, q);
    lemma_at(g, i);
    assert(0 <= g.x[q] < g.k);
    assert(lane_true(g, ln, s, b, c, w));
    lemma_starts(g, c);
    lemma_mark_count(s, 0, i);
    let e = 1 + mark_count(s, i + 1);
    assert(e == d + bit(s[i] < 0));
    let name = name_of(ln, b, c, w);
    if r == start(g, c, w) {
        assert(name == 0);
        if lane_pair(g, r) {
            lemma_start(g, c, r - 1);
        }
    } else {
        assert(in_area(g, r - 1));
        assert((r - 1 < width(g)) == w);
        let p = at(g, r - 1);
        assert(is_l(g.x, p) && g.x[p] == c);
        assert(lane_pair(g, r));
        lemma_at(g, r - 1);
        assert(placed_left(g, p, i));
        assert(name == name_met(g, s, p + 1));
        lemma_linked_in_front(g, p, q);
        if name == e {
            if p + 1 < g.x.len() {
                assert(in_left(g.x, g.f, p + 1));
                lemma_place(g, p + 1);
                let lo = place_of(g, p + 1);
                assert forall|z: int| lo < z <= i implies #[trigger] quiet(g, s, z, i) by {
                    lemma_no_mark(s, lo + 1, i + 1, z);
                    lemma_visited_filled(g, z, i);
                }
                lemma_tied_run(g, ln, len, st, i, lo, i);
            } else {
                lemma_mark_count(s, 0, i + 1);
                assert(mark_count(s, 0) == 0);
                assert forall|z: int| 0 <= z <= i implies #[trigger] quiet(g, s, z, i) by {
                    lemma_no_mark(s, 0, i + 1, z);
                    lemma_visited_filled(g, z, i);
                }
                lemma_tied_run(g, ln, len, st, i, 0, i);
                assert(quiet(g, s, 0, i) && mark_true(g, s, 0));
                lemma_at(g, 0);
                let u = at(g, 0);
                assert(!g.exact && is_lms(g.x, u));
                assert(stop_symbol(g.x, u) == g.x[u]);
                assert(0 <= g.x[u]);
                if same_chain(g.x, u, v) {
                    lemma_same_stop(g.x, u, v);
                }
                assert(stop_symbol(g.x, p + 1) == -1);
            }
            assert(linked(g, p + 1, q + 1));
        } else if same_chain(g.x, p, q) {
            assert(same_chain(g.x, p + 1, v));
            assert(p + 1 < g.x.len());
            assert(in_left(g.x, g.f, p + 1));
            lemma_place(g, p + 1);
            let lo = place_of(g, p + 1);
            assert(lo < i);
            let z = lemma_mark_between(s, lo + 1, i + 1);
            lemma_visited_filled(g, z, i);
            assert(mark_true(g, s, z));
            lemma_at(g, z);
            lemma_at(g, z - 1);
            lemma_at(g, lo);
            lemma_area_order(g, lo, z);
            if z < i {
                lemma_area_order(g, z, i);
                lemma_met_between(g.x, g.f, g.slot, p + 1, at(g, z), v);
            }
            assert(same_chain(g.x, p + 1, at(g, z)));
            if lo < z - 1 {
                lemma_area_order(g, lo, z - 1);
                lemma_area_order(g, z - 1, z);
                lemma_met_between(g.x, g.f, g.slot, p + 1, at(g, z - 1), at(g, z));
            } else {
                lemma_same_self(g.x, p + 1);
            }
            lemma_same_symmetric(g.x, p + 1, at(g, z - 1));
            lemma_same_transitive(g.x, at(g, z - 1), p + 1, at(g, z));
            if is_l(g.x, at(g, z)) {
                assert(is_l(g.x, p + 1));
                assert(lane_pair(g, z));
            }
        }
    }
}

/// What a visit of the scan to the right does.
pub proof fn lemma_left_does(g: Field, ln: Lanes, len: int, st: InduceState, i: int)
    requires
        fielded(g),
        tables_apart(ln, g.k, len),
        lefted(g, ln, len, st, i),
        0 <= i < width(g),
        limit(g) <= g.x.len(),
    ensures
        ({
            let (sa, b, d) = st;
            let q = at(g, i) - 1;
            let r = place_of(g, q);
            let v = is_l(g.x, q - 1);
            let e = 1 + mark_count(sa, i + 1);
            &&& e == d + bit(sa[i] < 0)
            &&& i < r < limit(g)
            &&& 0 <= g.x[q] < g.k
            &&& lane_left_step(g.x, ln)(st, i) == Some((
                sa.update(r, marked(q as i32, name_of(ln, b, g.x[q], v) != e)),
                b.update((ln.next)(g.x[q], v), (r + 1) as i32).update((ln.name)(g.x[q], v), e as i32),
                e as i32,
            ))
        }),
{
    let (sa, b, d) = st;
    let q = at(g, i) - 1;
    lemma_visited_filled(g, i, i);
    lemma_left_next(g, i);
    lemma_left_target(g, ln, len, st, i);
    lemma_place(g, q);
    lemma_at(g, i);
    lemma_mark_count(sa, 0, i);
    lemma_mark_count(sa, 0, i + 1);
    assert(unmarked(sa[i]) == at(g, i));
    assert(0 <= g.x[q] < g.k);
    assert(lane_true(g, ln, sa, b, g.x[q], is_l(g.x, q - 1)));
}

/// Which suffixes a visit of the scan to the right places.
proof fn lemma_placed_next(g: Field, i: int, q: int, p: int)
    requires
        fielded(g),
        0 <= i < width(g),
        q == at(g, i) - 1,
        g.f < p < g.x.len(),
        is_l(g.x, p),
    ensures
        placed_left(g, p, i + 1) == (placed_left(g, p, i) || p == q),
        !placed_left(g, q, i),
{
    lemma_left_next(g, i);
    if p + 1 < g.x.len() {
        assert(in_left(g.x, g.f, p + 1));
        lemma_place(g, p + 1);
    }
}

/// A visit of the scan to the right keeps its state.
#[verifier::spinoff_prover]
pub proof fn lemma_left_step(g: Field, ln: Lanes, len: int, st: InduceState, i: int)
    requires
        fielded(g),
        tables_apart(ln, g.k, len),
        lefted(g, ln, len, st, i),
        0 <= i < width(g),
        limit(g) <= g.x.len(),
    ensures
        lane_left_step(g.x, ln)(st, i) is Some,
        lefted(g, ln, len, lane_left_step(g.x, ln)(st, i)->0, i + 1),
{
    let (sa, b, d) = st;
    let q = at(g, i) - 1;
    let r = place_of(g, q);
    let c = g.x[q];
    let w = is_l(g.x, q - 1);
    let e = 1 + mark_count(sa, i + 1);
    lemma_left_does(g, ln, len, st, i);
    lemma_left_next(g, i);
    lemma_left_target(g, ln, len, st, i);
    lemma_place(g, q);
    lemma_at(g, i);
    let sa1 = sa.update(r, marked(q as i32, name_of(ln, b, c, w) != e));
    let b1 = b.update((ln.next)(c, w), (r + 1) as i32).update((ln.name)(c, w), e as i32);
    lemma_left_mark(g, ln, len, st, i, sa1);
    lemma_mark_count_same(sa, sa1, i + 1);
    assert(next_of(ln, b1, c, w) == r + 1);
    assert(name_of(ln, b1, c, w) == e);
    assert forall|c2: int, w2: bool| 0 <= c2 < g.k && !(c2 == c && w2 == w) implies #[trigger] next_of(ln, b1, c2, w2) == next_of(
        ln,
        b,
        c2,
        w2,
    ) && name_of(ln, b1, c2, w2) == name_of(ln, b, c2, w2) by {}
    assert forall|y: int| #[trigger] filled_left(g, y, i + 1) implies unmarked(sa1[y]) == at(g, y) && mark_true(g, sa1, y) by {
        if y != r {
            lemma_at(g, y);
            if is_l(g.x, at(g, y)) {
                lemma_placed_next(g, i, q, at(g, y));
            }
            assert(filled_left(g, y, i));
            assert(sa1[y] == sa[y]);
            assert(mark_true(g, sa, y));
        }
    }
    assert forall|y: int| in_area(g, y) && is_l(g.x, #[trigger] at(g, y)) implies placed_left(g, at(g, y), i + 1) == (y < next_of(
        ln,
        b1,
        g.x[at(g, y)],
        y < width(g),
    )) by {
        lemma_at(g, y);
        lemma_placed_next(g, i, q, at(g, y));
        assert(0 <= g.x[at(g, y)] < g.k);
    }
    assert forall|c2: int, w2: bool| 0 <= c2 < g.k implies #[trigger] lane_true(g, ln, sa1, b1, c2, w2) by {
        assert(lane_true(g, ln, sa, b, c2, w2));
        lemma_starts(g, c2);
        if c2 == c && w2 == w {
        } else {
            let y = next_of(ln, b, c2, w2);
            assert(next_of(ln, b1, c2, w2) == y);
            if y != start(g, c2, w2) {
                assert(in_area(g, y - 1));
                assert(w2 == (y - 1 < width(g)));
                lemma_at(g, y - 1);
                let p = at(g, y - 1);
                assert(is_l(g.x, p) && g.x[p] == c2);
                assert(placed_left(g, p, i));
                if p + 1 < g.x.len() {
                    assert(in_left(g.x, g.f, p + 1));
                    lemma_place(g, p + 1);
                    lemma_mark_count_same(sa, sa1, place_of(g, p + 1) + 1);
                }
            }
        }
    }
    assert forall|c2: int, w2: bool, y: int| #![trigger next_of(ln, b1, c2, w2), at(g, y)]
        0 <= c2 < g.k && in_area(g, y) && w2 == (y < width(g)) && start(g, c2, w2) <= y < next_of(ln, b1, c2, w2) implies is_l(
        g.x,
        at(g, y),
    ) && g.x[at(g, y)] == c2 by {
        if c2 == c && w2 == w && y == r {
        } else {
            assert(y < next_of(ln, b, c2, w2));
        }
    }
}

/// Whether slot `y` belongs to the first leftmost suffix of type S of its symbol.
pub open spec fn opens(g: Field, y: int) -> bool {
    y == 0 || !(is_lms(g.x, at(g, y - 1)) && g.x[at(g, y - 1)] == g.x[at(g, y)])
}

/// What the scan to the right starts from: leftmost suffixes of type S in their slots, marked at
/// most where they are the first of their symbol, and always there where the scan is exact, and
/// tables that point at the first slots.
pub open spec fn left_ready(g: Field, ln: Lanes, len: int, s: InduceState) -> bool {
    let (sa, b, d) = s;
    &&& fielded(g)
    &&& tables_apart(ln, g.k, len)
    &&& limit(g) <= g.x.len()
    &&& limit(g) <= sa.len()
    &&& b.len() == len
    &&& d == 0
    &&& forall|y: int| 0 <= y < width(g) && is_lms(g.x, #[trigger] at(g, y)) ==> unmarked(sa[y]) == at(g, y) && (sa[y] < 0
        ==> opens(g, y)) && (g.exact && opens(g, y) ==> sa[y] < 0)
    &&& forall|c: int, v: bool| 0 <= c < g.k ==> #[trigger] next_of(ln, b, c, v) == start(g, c, v)
    &&& forall|c: int, v: bool| 0 <= c < g.k ==> #[trigger] name_of(ln, b, c, v) == 0
}

/// The last suffix is the first of its lane.
proof fn lemma_last_first(g: Field)
    requires
        fielded(g),
    ensures
        ({
            let q = g.x.len() - 1;
            &&& g.f < q
            &&& is_l(g.x, q)
            &&& is_l(g.x, q - 1) == (g.x[q - 1] >= g.x[q])
            &&& place_of(g, q) == start(g, g.x[q], is_l(g.x, q - 1))
        }),
{
    let q = g.x.len() - 1;
    law_last_type(g.x);
    assert(is_lms(g.x, g.f));
    assert(g.f < q);
    law_type_step(g.x, q - 1);
    lemma_place(g, q);
    let r = place_of(g, q);
    let v = is_l(g.x, q - 1);
    lemma_start(g, g.x[q], r);
    lemma_starts(g, g.x[q]);
    if start(g, g.x[q], v) < r {
        lemma_start(g, g.x[q], r - 1);
        lemma_area_order(g, r - 1, r);
        lemma_at(g, r - 1);
        let p = at(g, r - 1);
        lemma_keys(g.x, g.f, p, q);
        assert(met_less(g.x, g.f, g.slot, p, q));
        assert(met_less(g.x, g.f, g.slot, p + 1, q + 1));
    }
}

/// Placing the last suffix starts the scan to the right.
#[verifier::spinoff_prover]
pub proof fn lemma_left_first(g: Field, ln: Lanes, len: int, s: InduceState)
    requires
        left_ready(g, ln, len, s),
    ensures
        lefted(g, ln, len, lane_seeded(g.x, ln, s), 0),
        place_of(g, g.x.len() - 1) == next_of(ln, s.1, g.x[g.x.len() - 1], is_l(g.x, g.x.len() - 2)),
        in_area(g, place_of(g, g.x.len() - 1)),
        is_l(g.x, g.x.len() - 2) == (g.x[g.x.len() - 2] >= g.x[g.x.len() - 1]),
{
    let (sa, b, d) = s;
    let q = g.x.len() - 1;
    let r = place_of(g, q);
    let c = g.x[q];
    let w = is_l(g.x, q - 1);
    lemma_last_first(g);
    lemma_place(g, q);
    lemma_starts(g, c);
    assert(0 <= g.x[q] < g.k);
    assert(next_of(ln, b, c, w) == r);
    let (sa1, b1, d1) = lane_seeded(g.x, ln, s);
    assert(sa1 == sa.update(r, marked(q as i32, true)));
    assert(mark_count(sa1, 0) == 0);
    assert(next_of(ln, b1, c, w) == r + 1);
    assert(name_of(ln, b1, c, w) == 1);
    assert forall|c2: int, w2: bool| 0 <= c2 < g.k && !(c2 == c && w2 == w) implies #[trigger] next_of(ln, b1, c2, w2) == start(
        g,
        c2,
        w2,
    ) && name_of(ln, b1, c2, w2) == 0 by {
        assert(next_of(ln, b, c2, w2) == start(g, c2, w2));
        assert(name_of(ln, b, c2, w2) == 0);
    }
    assert forall|y: int| in_area(g, y) && is_l(g.x, #[trigger] at(g, y)) implies placed_left(g, at(g, y), 0) == (y == r) by {
        lemma_at(g, y);
        let p = at(g, y);
        if p + 1 < g.x.len() {
            assert(in_left(g.x, g.f, p + 1));
            lemma_place(g, p + 1);
        }
    }
    assert forall|y: int| #[trigger] filled_left(g, y, 0) implies unmarked(sa1[y]) == at(g, y) && mark_true(g, sa1, y) by {
        lemma_at(g, y);
        if y == r {
            if lane_pair(g, r) {
                lemma_start(g, c, r - 1);
            }
        } else if is_l(g.x, at(g, y)) {
            assert(placed_left(g, at(g, y), 0) == (y == r));
        } else {
            assert(is_lms(g.x, at(g, y)));
            assert(sa1[y] == sa[y]);
            if y > 0 {
                lemma_lms_linked(g, y);
            }
        }
    }
    assert forall|y: int| in_area(g, y) && is_l(g.x, #[trigger] at(g, y)) implies placed_left(g, at(g, y), 0) == (y < next_of(
        ln,
        b1,
        g.x[at(g, y)],
        y < width(g),
    )) by {
        lemma_at(g, y);
        assert(0 <= g.x[at(g, y)] < g.k);
        lemma_start(g, g.x[at(g, y)], y);
    }
    assert forall|c2: int, w2: bool| 0 <= c2 < g.k implies #[trigger] lane_true(g, ln, sa1, b1, c2, w2) by {
        lemma_starts(g, c2);
        if c2 == c && w2 == w {
            assert(at(g, r) + 1 >= g.x.len());
        } else {
            assert(next_of(ln, b1, c2, w2) == start(g, c2, w2));
        }
    }
    assert forall|c2: int, w2: bool, y: int| #![trigger next_of(ln, b1, c2, w2), at(g, y)]
        0 <= c2 < g.k && in_area(g, y) && w2 == (y < width(g)) && start(g, c2, w2) <= y < next_of(ln, b1, c2, w2) implies is_l(
        g.x,
        at(g, y),
    ) && g.x[at(g, y)] == c2 by {
        if !(c2 == c && w2 == w) {
            assert(next_of(ln, b1, c2, w2) == start(g, c2, w2));
        }
    }
}

/// A leftmost suffix of type S is linked to what stands in front of it, unless it is the first of
/// its symbol.
proof fn lemma_lms_linked(g: Field, y: int)
    requires
        fielded(g),
        0 < y < width(g),
        is_lms(g.x, at(g, y)),
    ensures
        linked(g, at(g, y - 1), at(g, y)) || (g.exact && opens(g, y)),
        opens(g, y) ==> !same_chain(g.x, at(g, y - 1), at(g, y)),
{
    lemma_at(g, y);
    lemma_at(g, y - 1);
    lemma_area_order(g, y - 1, y);
    let u = at(g, y - 1);
    let v = at(g, y);
    assert(stop_symbol(g.x, v) == g.x[v]);
    if is_l(g.x, u) {
        assert forall|i: int| 0 <= i < g.x.len() implies 0 <= #[trigger] g.x[i] by {}
        lemma_stop_below(g.x, u);
    } else {
        assert(stop_symbol(g.x, u) == g.x[u]);
    }
}

/// The scan to the right runs from slot to slot.
pub proof fn lemma_left_run(g: Field, ln: Lanes, len: int, s: InduceState, i: int)
    requires
        left_ready(g, ln, len, s),
        0 <= i <= width(g),
    ensures
        ({
            let st = fold_up(lane_left_step(g.x, ln), lane_seeded(g.x, ln, s), 0, i);
            st is Some && lefted(g, ln, len, st->0, i)
        }),
    decreases i,
{
    lemma_left_first(g, ln, len, s);
    if i > 0 {
        lemma_left_run(g, ln, len, s, i - 1);
        let st = fold_up(lane_left_step(g.x, ln), lane_seeded(g.x, ln, s), 0, i - 1)->0;
        lemma_left_step(g, ln, len, st, i - 1);
    }
}

} // verus!
