//! The scan to the left over the substrings, with a lane for every pair of types.

use vstd::prelude::*;
use crate::fold::fold_down;
use crate::induction::slot_of;
use crate::kinds::{is_l, is_lms, law_last_type, law_type_step};
use crate::lane_left::{lemma_same_self, name_of, next_of, tables_apart};
use crate::lanes::{
    at, fielded, in_right, lemma_area_order, lemma_at, lemma_linked_in_front, lemma_linked_transitive, lemma_place,
    lemma_right_order, lemma_start, lemma_starts, limit, linked, place_of, start, width, Field, Lanes,
};
use crate::lengths::{lemma_tally_bound, tally};
use crate::marks::{bit, marked, unmarked};
use crate::placement::{among, lemma_found};
use crate::recount::lemma_tally_less;
use crate::substrings::{
    class_of, induced_less, lemma_induced_irreflexive, lemma_induced_transitive, lemma_keys,
};
use crate::ties::{
    lemma_met_between, lemma_same_symmetric, lemma_same_transitive, same_chain,
};
use crate::types::InduceState;

verus! {

/// A step of the scan to the left: the suffix in front of the one at slot `i` goes to the last
/// free slot of its lane, marked where a new name begins.
pub open spec fn lane_right_step(x: Seq<int>, ln: Lanes) -> spec_fn(InduceState, int) -> Option<InduceState> {
    |s: InduceState, i: int|
        {
            let (sa, b, d) = s;
            let p = unmarked(sa[i]);
            let e = d + bit(sa[i] < 0);
            let v = x[p - 2] > x[p - 1];
            let u = (ln.next)(x[p - 1], v);
            let w = (ln.name)(x[p - 1], v);
            let y = b[u] - 1;
            if 0 <= i < sa.len() && e <= i32::MAX && 2 <= p <= x.len() && 0 <= u < b.len() && 0 <= w < b.len() && 0 <= y
                < sa.len() {
                Some((
                    sa.update(y, marked((p - 1) as i32, b[w] != e)),
                    b.update(u, y as i32).update(w, e as i32),
                    e as i32,
                ))
            } else {
                None
            }
        }
}

/// Whether `low` lists the leftmost suffixes of type S in the induced order.
pub open spec fn lows(g: Field, low: Seq<i32>) -> bool {
    &&& forall|j: int| 0 <= j < low.len() ==> is_lms(g.x, #[trigger] low[j] as int)
    &&& forall|i: int, j: int| 0 <= i < j < low.len() ==> induced_less(
        g.x,
        g.f,
        g.slot,
        #[trigger] low[i] as int,
        #[trigger] low[j] as int,
    )
    &&& forall|p: int| #[trigger] is_lms(g.x, p) ==> among(low, 0, low.len() as int, p as i32)
    &&& low.len() <= width(g) + 1
}

/// The first slot of the bucket of `c` among the leftmost suffixes of type S.
pub open spec fn low_start(g: Field, low: Seq<i32>, c: int) -> int {
    tally(|j: int| g.x[low[j] as int] < c, 0, low.len() as int)
}

/// The slot of the leftmost suffix of type S at `v`.
pub open spec fn low_place(low: Seq<i32>, v: int) -> int {
    slot_of(low, low.len() as int, v)
}

/// Every leftmost suffix of type S has its slot.
pub proof fn lemma_low_place(g: Field, low: Seq<i32>, v: int)
    requires
        fielded(g),
        lows(g, low),
        is_lms(g.x, v),
    ensures
        0 <= low_place(low, v) < low.len(),
        low[low_place(low, v)] == v,
{
    let j = lemma_found(low, 0, low.len() as int, v as i32);
    assert(low[j] == v);
}

/// The slot of an entry is its own.
pub proof fn lemma_low_at(g: Field, low: Seq<i32>, j: int)
    requires
        fielded(g),
        lows(g, low),
        0 <= j < low.len(),
    ensures
        is_lms(g.x, low[j] as int),
        g.f <= low[j] < g.x.len(),
        low_place(low, low[j] as int) == j,
{
    let v = low[j] as int;
    assert(is_lms(g.x, low[j] as int));
    lemma_low_place(g, low, v);
    let i = low_place(low, v);
    lemma_induced_irreflexive(g.x, g.f, g.slot, v);
    if i < j {
        assert(induced_less(g.x, g.f, g.slot, low[i] as int, low[j] as int));
    } else if j < i {
        assert(induced_less(g.x, g.f, g.slot, low[j] as int, low[i] as int));
    }
}

/// Entries of the list are in their order.
pub proof fn lemma_low_order(g: Field, low: Seq<i32>, i: int, j: int)
    requires
        fielded(g),
        lows(g, low),
        0 <= i < low.len(),
        0 <= j < low.len(),
    ensures
        i < j ==> induced_less(g.x, g.f, g.slot, low[i] as int, low[j] as int) && g.x[low[i] as int] <= g.x[low[j] as int],
        induced_less(g.x, g.f, g.slot, low[i] as int, low[j] as int) ==> i < j,
{
    lemma_low_at(g, low, i);
    lemma_low_at(g, low, j);
    lemma_keys(g.x, g.f, low[i] as int, low[j] as int);
    lemma_keys(g.x, g.f, low[j] as int, low[i] as int);
    lemma_induced_irreflexive(g.x, g.f, g.slot, low[i] as int);
    if i < j {
        assert(induced_less(g.x, g.f, g.slot, low[i] as int, low[j] as int));
    } else if j < i {
        assert(induced_less(g.x, g.f, g.slot, low[j] as int, low[i] as int));
        if induced_less(g.x, g.f, g.slot, low[i] as int, low[j] as int) {
            lemma_induced_transitive(g.x, g.f, g.slot, low[i] as int, low[j] as int, low[i] as int);
        }
    }
}

/// The first slot of a bucket is a border.
pub proof fn lemma_low_start(g: Field, low: Seq<i32>, c: int)
    requires
        fielded(g),
        lows(g, low),
    ensures
        0 <= low_start(g, low, c) <= low.len(),
        forall|j: int| 0 <= j < low.len() ==> (g.x[#[trigger] low[j] as int] < c) == (j < low_start(g, low, c)),
{
    assert forall|i: int, j: int| 0 <= i < j < low.len() implies g.x[#[trigger] low[i] as int] <= g.x[#[trigger] low[j] as int] by {
        lemma_low_order(g, low, i, j);
    }
    crate::lanes::lemma_border(g.x, low, c);
}

/// What the scan to the left visits between two of the same chain is of that chain.
pub proof fn lemma_induced_between(x: Seq<int>, f: int, slot: spec_fn(int) -> int, u: int, z: int, v: int)
    requires
        0 <= f < u < x.len(),
        f < v < x.len(),
        f < z < x.len(),
        !is_lms(x, u),
        !is_lms(x, v),
        !is_lms(x, z),
        induced_less(x, f, slot, u, z),
        induced_less(x, f, slot, z, v),
        same_chain(x, u, v),
    ensures
        same_chain(x, u, z),
        is_l(x, z) == is_l(x, u),
        x[z] == x[u],
    decreases x.len() - u,
{
    lemma_keys(x, f, u, z);
    lemma_keys(x, f, z, v);
    lemma_keys(x, f, u, v);
    lemma_keys(x, f, z, u);
    lemma_keys(x, f, v, z);
    assert(class_of(x, f, u) == class_of(x, f, v));
    assert(class_of(x, f, u) == class_of(x, f, z));
    if is_l(x, u) {
        lemma_met_between(x, f, slot, u, z, v);
    } else {
        law_last_type(x);
        assert(u + 1 < x.len() && v + 1 < x.len() && z + 1 < x.len());
        lemma_induced_between(x, f, slot, u + 1, z + 1, v + 1);
    }
}

/// How many of the slots from `i` up to the limit are marked.
pub open spec fn back_count(g: Field, sa: Seq<i32>, i: int) -> int {
    tally(|y: int| sa[y] < 0, i, limit(g))
}

/// Whether the scan to the left has placed the suffix at `q`, of type S, behind slot `i`.
pub open spec fn placed_right(g: Field, q: int, i: int) -> bool {
    place_of(g, q + 1) >= i
}

/// Whether slot `y` of the second area holds its suffix when the slots from `i` on have been
/// visited.
pub open spec fn filled_right(g: Field, y: int, i: int) -> bool {
    &&& width(g) < y < limit(g)
    &&& is_l(g.x, at(g, y)) || placed_right(g, at(g, y), i)
}

/// Whether slots `y` and `y + 1` belong to suffixes of the same symbol and type.
pub open spec fn type_pair(g: Field, y: int) -> bool {
    &&& width(g) < y
    &&& y + 1 < limit(g)
    &&& is_l(g.x, at(g, y)) == is_l(g.x, at(g, y + 1))
    &&& g.x[at(g, y)] == g.x[at(g, y + 1)]
}

/// What the mark of a filled slot says of its suffix and the one behind.
pub open spec fn back_true(g: Field, sa: Seq<i32>, y: int) -> bool {
    if sa[y] < 0 {
        type_pair(g, y) ==> !same_chain(g.x, at(g, y), at(g, y + 1))
    } else {
        type_pair(g, y) && linked(g, at(g, y), at(g, y + 1))
    }
}

/// Whether two neighbours among the leftmost suffixes of type S have the same symbol.
pub open spec fn low_pair(g: Field, low: Seq<i32>, j: int) -> bool {
    0 <= j && j + 1 < low.len() && g.x[low[j] as int] == g.x[low[j + 1] as int]
}

/// What the mark of a leftmost suffix of type S says of its substring and the next.
pub open spec fn low_true(g: Field, low: Seq<i32>, sa: Seq<i32>, j: int) -> bool {
    if sa[j] < 0 {
        low_pair(g, low, j) ==> !same_chain(g.x, low[j] + 1, low[j + 1] + 1)
    } else {
        low_pair(g, low, j) && linked(g, low[j] + 1, low[j + 1] + 1)
    }
}

/// Where the lane of `c` ends.
pub open spec fn finish(g: Field, low: Seq<i32>, c: int, v: bool) -> int {
    if v {
        low_start(g, low, c + 1)
    } else {
        start(g, c + 1, false)
    }
}

/// The suffix that belongs to a slot of a lane.
pub open spec fn lane_at(g: Field, low: Seq<i32>, v: bool, y: int) -> int {
    if v {
        low[y] as int
    } else {
        at(g, y)
    }
}

/// What a lane's tables say.
pub open spec fn lane_back(g: Field, low: Seq<i32>, ln: Lanes, d0: int, sa: Seq<i32>, b: Seq<i32>, c: int, v: bool) -> bool {
    let y = next_of(ln, b, c, v);
    let name = name_of(ln, b, c, v);
    &&& (if v {
        0
    } else {
        width(g) + 1
    }) <= y <= finish(g, low, c, v)
    &&& if y == finish(g, low, c, v) {
        name <= d0
    } else {
        name == d0 + back_count(g, sa, place_of(g, lane_at(g, low, v, y) + 1))
    }
}

/// The state of the scan to the left when it has visited the slots from `i` on.
pub open spec fn righted(g: Field, low: Seq<i32>, ln: Lanes, len: int, d0: int, st: InduceState, i: int) -> bool {
    let (sa, b, d) = st;
    &&& sa.len() >= limit(g)
    &&& b.len() == len
    &&& d == d0 + back_count(g, sa, i)
    &&& forall|y: int| #[trigger] filled_right(g, y, i) ==> unmarked(sa[y]) == at(g, y) && back_true(g, sa, y)
    &&& forall|y: int| width(g) < y < limit(g) && !is_l(g.x, #[trigger] at(g, y)) ==> placed_right(g, at(g, y), i) == (y
        >= next_of(ln, b, g.x[at(g, y)], false))
    &&& forall|j: int| 0 <= j < low.len() ==> placed_right(g, #[trigger] low[j] as int, i) == (j >= next_of(
        ln,
        b,
        g.x[low[j] as int],
        true,
    ))
    &&& forall|j: int| #![trigger low[j]]
        0 <= j < low.len() && placed_right(g, low[j] as int, i) ==> unmarked(sa[j]) == low[j] && low_true(g, low, sa, j)
    &&& forall|c: int, v: bool| 0 <= c < g.k ==> #[trigger] lane_back(g, low, ln, d0, sa, b, c, v)
    &&& forall|c: int, y: int| #![trigger next_of(ln, b, c, false), at(g, y)]
        0 <= c < g.k && next_of(ln, b, c, false) <= y < start(g, c + 1, false) ==> !is_l(g.x, at(g, y)) && g.x[at(g, y)] == c
    &&& forall|c: int, j: int| #![trigger next_of(ln, b, c, true), low[j]]
        0 <= c < g.k && next_of(ln, b, c, true) <= j < low_start(g, low, c + 1) ==> g.x[low[j] as int] == c
}

/// Counts of marks grow to the left.
proof fn lemma_back_count(g: Field, sa: Seq<i32>, i: int, j: int)
    requires
        i <= j <= limit(g),
    ensures
        0 <= back_count(g, sa, j) <= back_count(g, sa, i) <= limit(g) - i,
    decreases j - i,
{
    lemma_tally_bound(|y: int| sa[y] < 0, i, limit(g));
    lemma_tally_bound(|y: int| sa[y] < 0, j, limit(g));
    if i < j {
        lemma_back_count(g, sa, i + 1, j);
        assert(back_count(g, sa, i) == back_count(g, sa, i + 1) + bit(sa[i] < 0));
    }
}

/// Where the count of marks grows, there is a mark.
proof fn lemma_back_between(g: Field, sa: Seq<i32>, i: int, j: int) -> (z: int)
    requires
        i <= j <= limit(g),
        back_count(g, sa, i) != back_count(g, sa, j),
    ensures
        i <= z < j,
        sa[z] < 0,
    decreases j - i,
{
    if i < j {
        assert(back_count(g, sa, i) == back_count(g, sa, i + 1) + bit(sa[i] < 0));
        if sa[i] < 0 {
            i
        } else {
            lemma_back_between(g, sa, i + 1, j)
        }
    } else {
        0
    }
}

/// Where the count of marks stays, there is none.
proof fn lemma_no_back(g: Field, sa: Seq<i32>, i: int, j: int, z: int)
    requires
        i <= z < j <= limit(g),
        back_count(g, sa, i) == back_count(g, sa, j),
    ensures
        sa[z] >= 0,
{
    lemma_back_count(g, sa, i, z);
    lemma_back_count(g, sa, z + 1, j);
    assert(back_count(g, sa, z) == back_count(g, sa, z + 1) + bit(sa[z] < 0));
}

/// Counts of marks look at the last slots only.
proof fn lemma_back_count_same(g: Field, sa: Seq<i32>, ta: Seq<i32>, i: int)
    requires
        forall|y: int| i <= y < limit(g) ==> #[trigger] sa[y] == ta[y],
    ensures
        back_count(g, sa, i) == back_count(g, ta, i),
{
    lemma_tally_less(|y: int| sa[y] < 0, |y: int| ta[y] < 0, i, limit(g));
    lemma_tally_less(|y: int| ta[y] < 0, |y: int| sa[y] < 0, i, limit(g));
}

/// The suffix behind one of type S comes after it.
proof fn lemma_back_ascends(g: Field, q: int)
    requires
        fielded(g),
        g.f <= q < g.x.len(),
        !is_l(g.x, q),
    ensures
        q + 1 < g.x.len(),
        in_right(g.x, g.f, q + 1),
        width(g) < place_of(g, q + 1) < limit(g),
        at(g, place_of(g, q + 1)) == q + 1,
        is_l(g.x, q - 1) == (g.x[q - 1] > g.x[q]),
        is_lms(g.x, q) == is_l(g.x, q - 1),
        is_lms(g.x, q) || (in_right(g.x, g.f, q) && width(g) < place_of(g, q) < place_of(g, q + 1)),
{
    law_last_type(g.x);
    assert(is_lms(g.x, g.f));
    law_type_step(g.x, q - 1);
    lemma_place(g, q + 1);
    if !is_lms(g.x, q) {
        assert(q > g.f);
        lemma_place(g, q);
        crate::partial_induction::lemma_ascends_text(g.x, g.f, g.slot, q);
        lemma_right_order(g, q, q + 1);
    }
}

/// What the scan to the left has visited has been placed.
pub proof fn lemma_back_filled(g: Field, z: int, i: int)
    requires
        fielded(g),
        width(g) < z < limit(g),
        i <= z + 1,
    ensures
        filled_right(g, z, i),
{
    lemma_at(g, z);
    if !is_l(g.x, at(g, z)) {
        lemma_back_ascends(g, at(g, z));
    }
}

/// Whether slot `z` holds its suffix without a mark.
pub open spec fn quiet_back(g: Field, sa: Seq<i32>, z: int, i: int) -> bool {
    filled_right(g, z, i) && sa[z] >= 0
}

/// Without marks between them, visited suffixes are linked.
proof fn lemma_tied_back(g: Field, low: Seq<i32>, ln: Lanes, len: int, d0: int, st: InduceState, i: int, lo: int, hi: int)
    requires
        fielded(g),
        righted(g, low, ln, len, d0, st, i),
        width(g) < lo <= hi < limit(g),
        forall|z: int| lo <= z < hi ==> #[trigger] quiet_back(g, st.0, z, i),
    ensures
        linked(g, at(g, lo), at(g, hi)),
    decreases hi - lo,
{
    if lo < hi {
        lemma_tied_back(g, low, ln, len, d0, st, i, lo + 1, hi);
        assert(quiet_back(g, st.0, lo, i));
        assert(back_true(g, st.0, lo));
        lemma_linked_transitive(g, at(g, lo), at(g, lo + 1), at(g, hi));
    } else {
        lemma_same_self(g.x, at(g, lo));
    }
}

/// Suffixes of the second area are no leftmost ones of type S.
pub proof fn lemma_not_low(g: Field, y: int)
    requires
        fielded(g),
        width(g) < y < limit(g),
    ensures
        !is_lms(g.x, at(g, y)),
        g.f < at(g, y) < g.x.len(),
        place_of(g, at(g, y)) == y,
{
    lemma_at(g, y);
}

/// The slot of the suffix of type S at `q`.
pub open spec fn back_place(g: Field, low: Seq<i32>, q: int) -> int {
    if is_lms(g.x, q) {
        low_place(low, q)
    } else {
        place_of(g, q)
    }
}

/// The suffix that a visit places, and its type.
pub proof fn lemma_right_next(g: Field, low: Seq<i32>, i: int)
    requires
        fielded(g),
        lows(g, low),
        width(g) < i < limit(g),
    ensures
        ({
            let q = at(g, i) - 1;
            let r = back_place(g, low, q);
            &&& g.f <= q
            &&& q + 1 < g.x.len()
            &&& !is_l(g.x, q)
            &&& class_of(g.x, g.f, q) == 3
            &&& is_lms(g.x, q) == (g.x[q - 1] > g.x[q])
            &&& place_of(g, q + 1) == i
            &&& 0 <= g.x[q] < g.k
            &&& is_lms(g.x, q) ==> 0 <= r <= width(g) && r < low.len() && low[r] == q
            &&& !is_lms(g.x, q) ==> width(g) < r < i && at(g, r) == q && in_right(g.x, g.f, q)
        }),
{
    lemma_at(g, i);
    let q = at(g, i) - 1;
    lemma_back_ascends(g, q);
    assert(0 <= g.x[q] < g.k);
    if is_lms(g.x, q) {
        lemma_low_place(g, low, q);
    } else {
        lemma_place(g, q);
    }
}

/// The next suffix of type S goes to its slot.
#[verifier::spinoff_prover]
pub proof fn lemma_right_target(g: Field, low: Seq<i32>, ln: Lanes, len: int, d0: int, st: InduceState, i: int)
    requires
        fielded(g),
        lows(g, low),
        righted(g, low, ln, len, d0, st, i + 1),
        width(g) < i < limit(g),
    ensures
        ({
            let q = at(g, i) - 1;
            next_of(ln, st.1, g.x[q], is_lms(g.x, q)) - 1 == back_place(g, low, q)
        }),
{
    let q = at(g, i) - 1;
    lemma_right_next(g, low, i);
    let c = g.x[q];
    let v = is_lms(g.x, q);
    let r = back_place(g, low, q);
    let y = next_of(ln, st.1, c, v) - 1;
    assert(lane_back(g, low, ln, d0, st.0, st.1, c, v));
    assert(!placed_right(g, q, i + 1));
    if v {
        assert(low[r] == q);
        assert(r <= y);
        lemma_low_start(g, low, c + 1);
        if r < y {
            lemma_low_order(g, low, r, y);
            lemma_low_at(g, low, y);
            let p = low[y] as int;
            assert(g.x[p] == c);
            lemma_keys(g.x, g.f, q, p);
            lemma_back_ascends(g, p);
            assert(induced_less(g.x, g.f, g.slot, q + 1, p + 1));
            assert(in_right(g.x, g.f, q + 1));
            lemma_right_order(g, q + 1, p + 1);
            assert(placed_right(g, p, i + 1));
        }
    } else {
        assert(at(g, r) == q);
        assert(r <= y);
        lemma_starts(g, c + 1);
        if r < y {
            lemma_start(g, c + 1, y);
            lemma_area_order(g, r, y);
            lemma_not_low(g, y);
            let p = at(g, y);
            assert(g.x[p] == c);
            lemma_keys(g.x, g.f, q, p);
            lemma_keys(g.x, g.f, p, q);
            assert(!is_l(g.x, p));
            lemma_back_ascends(g, p);
            assert(class_of(g.x, g.f, p) == 3);
            assert(induced_less(g.x, g.f, g.slot, q + 1, p + 1));
            assert(in_right(g.x, g.f, q + 1));
            lemma_right_order(g, q + 1, p + 1);
            assert(placed_right(g, p, i + 1));
        }
    }
}

/// The first visit of all begins a name.
proof fn lemma_back_begun(g: Field, low: Seq<i32>, ln: Lanes, len: int, d0: int, st: InduceState, i: int)
    requires
        fielded(g),
        righted(g, low, ln, len, d0, st, i + 1),
        width(g) < i < limit(g),
    ensures
        back_count(g, st.0, i) >= 1,
{
    let z = limit(g) - 1;
    lemma_back_filled(g, z, i + 1);
    assert(back_true(g, st.0, z));
    assert(!type_pair(g, z));
    lemma_back_count(g, st.0, i, z);
    assert(back_count(g, st.0, z) == back_count(g, st.0, z + 1) + bit(st.0[z] < 0));
    assert(back_count(g, st.0, z + 1) == 0);
}

/// Where a name changes between two of a chain, that chain ends.
proof fn lemma_back_parted(g: Field, low: Seq<i32>, ln: Lanes, len: int, d0: int, st: InduceState, i: int, hi: int)
    requires
        fielded(g),
        righted(g, low, ln, len, d0, st, i + 1),
        width(g) < i < hi < limit(g),
        back_count(g, st.0, i) != back_count(g, st.0, hi),
    ensures
        !same_chain(g.x, at(g, i), at(g, hi)),
{
    if same_chain(g.x, at(g, i), at(g, hi)) {
        let z = lemma_back_between(g, st.0, i, hi);
        let u = at(g, i);
        lemma_back_filled(g, z, i + 1);
        assert(back_true(g, st.0, z));
        lemma_not_low(g, i);
        lemma_not_low(g, hi);
        lemma_not_low(g, z);
        lemma_not_low(g, z + 1);
        lemma_same_self(g.x, u);
        if i < z {
            lemma_area_order(g, i, z);
            lemma_area_order(g, z, hi);
            lemma_induced_between(g.x, g.f, g.slot, u, at(g, z), at(g, hi));
        }
        if z + 1 < hi {
            lemma_area_order(g, i, z + 1);
            lemma_area_order(g, z + 1, hi);
            lemma_induced_between(g.x, g.f, g.slot, u, at(g, z + 1), at(g, hi));
        }
        assert(same_chain(g.x, u, at(g, z)) && same_chain(g.x, u, at(g, z + 1)));
        lemma_same_symmetric(g.x, u, at(g, z));
        lemma_same_transitive(g.x, at(g, z), u, at(g, z + 1));
        assert(type_pair(g, z));
    }
}

/// Where no name changes between two visits, they are linked.
proof fn lemma_back_tied(g: Field, low: Seq<i32>, ln: Lanes, len: int, d0: int, st: InduceState, i: int, hi: int)
    requires
        fielded(g),
        righted(g, low, ln, len, d0, st, i + 1),
        width(g) < i < hi < limit(g),
        back_count(g, st.0, i) == back_count(g, st.0, hi),
    ensures
        linked(g, at(g, i), at(g, hi)),
{
    assert forall|z: int| i <= z < hi implies #[trigger] quiet_back(g, st.0, z, i + 1) by {
        lemma_no_back(g, st.0, i, hi, z);
        lemma_back_filled(g, z, i + 1);
    }
    lemma_tied_back(g, low, ln, len, d0, st, i + 1, i, hi);
}

/// What the mark of the next suffix of type S says.
#[verifier::spinoff_prover]
proof fn lemma_right_mark(g: Field, low: Seq<i32>, ln: Lanes, len: int, d0: int, st: InduceState, i: int, sa: Seq<i32>)
    requires
        fielded(g),
        lows(g, low),
        righted(g, low, ln, len, d0, st, i + 1),
        width(g) < i < limit(g),
        ({
            let q = at(g, i) - 1;
            let e = d0 + back_count(g, st.0, i);
            sa[back_place(g, low, q)] == marked(q as i32, name_of(ln, st.1, g.x[q], is_lms(g.x, q)) != e)
        }),
    ensures
        ({
            let q = at(g, i) - 1;
            if is_lms(g.x, q) {
                low_true(g, low, sa, back_place(g, low, q))
            } else {
                back_true(g, sa, back_place(g, low, q))
            }
        }),
{
    let q = at(g, i) - 1;
    let (s, b, d) = st;
    let c = g.x[q];
    let v = is_lms(g.x, q);
    let r = back_place(g, low, q);
    let e = d0 + back_count(g, s, i);
    lemma_right_next(g, low, i);
    lemma_right_target(g, low, ln, len, d0, st, i);
    lemma_back_begun(g, low, ln, len, d0, st, i);
    assert(lane_back(g, low, ln, d0, s, b, c, v));
    let name = name_of(ln, b, c, v);
    lemma_low_start(g, low, c + 1);
    lemma_starts(g, c + 1);
    assert(0 <= q);
    assert(sa[r] < 0 <==> name != e);
    if r + 1 == finish(g, low, c, v) {
        assert(name <= d0);
        if v {
            if low_pair(g, low, r) {
                assert(!(g.x[low[r + 1] as int] < c + 1));
            }
        } else {
            if type_pair(g, r) {
                lemma_start(g, c + 1, r + 1);
            }
        }
    } else {
        let p = lane_at(g, low, v, r + 1);
        if v {
            lemma_low_at(g, low, r + 1);
            assert(g.x[low[r + 1] as int] == c);
            assert(placed_right(g, low[r + 1] as int, i + 1));
            assert(low_pair(g, low, r));
        } else {
            assert(!is_l(g.x, at(g, r + 1)) && g.x[at(g, r + 1)] == c);
            lemma_not_low(g, r + 1);
            assert(placed_right(g, at(g, r + 1), i + 1));
            assert(type_pair(g, r));
        }
        lemma_back_ascends(g, p);
        let hi = place_of(g, p + 1);
        assert(i < hi < limit(g));
        assert(name == d0 + back_count(g, s, hi));
        if name == e {
            lemma_back_tied(g, low, ln, len, d0, st, i, hi);
        } else {
            lemma_back_parted(g, low, ln, len, d0, st, i, hi);
        }
        assert(at(g, i) == q + 1 && at(g, hi) == p + 1);
        if !v {
            lemma_linked_in_front(g, q, p);
        }
    }
}

/// What a visit of the scan to the left does.
pub proof fn lemma_right_does(g: Field, low: Seq<i32>, ln: Lanes, len: int, d0: int, st: InduceState, i: int)
    requires
        fielded(g),
        lows(g, low),
        tables_apart(ln, g.k, len),
        righted(g, low, ln, len, d0, st, i + 1),
        width(g) < i < limit(g),
        d0 + g.right.len() <= i32::MAX,
    ensures
        ({
            let (sa, b, d) = st;
            let q = at(g, i) - 1;
            let r = back_place(g, low, q);
            let v = is_lms(g.x, q);
            let e = d0 + back_count(g, sa, i);
            &&& e == d + bit(sa[i] < 0)
            &&& e <= i32::MAX
            &&& lane_right_step(g.x, ln)(st, i) == Some((
                sa.update(r, marked(q as i32, name_of(ln, b, g.x[q], v) != e)),
                b.update((ln.next)(g.x[q], v), r as i32).update((ln.name)(g.x[q], v), e as i32),
                e as i32,
            ))
        }),
{
    let (sa, b, d) = st;
    let q = at(g, i) - 1;
    lemma_back_filled(g, i, i + 1);
    lemma_right_next(g, low, i);
    lemma_right_target(g, low, ln, len, d0, st, i);
    lemma_not_low(g, i);
    assert(unmarked(sa[i]) == at(g, i));
    assert(back_count(g, sa, i) == back_count(g, sa, i + 1) + bit(sa[i] < 0));
    lemma_back_count(g, sa, i, i);
    assert(is_lms(g.x, g.f));
    assert(lane_back(g, low, ln, d0, sa, b, g.x[q], is_lms(g.x, q)));
}

/// Which suffixes a visit of the scan to the left places.
proof fn lemma_placed_back(g: Field, low: Seq<i32>, i: int, q: int, p: int)
    requires
        fielded(g),
        lows(g, low),
        width(g) < i < limit(g),
        q == at(g, i) - 1,
        g.f <= p < g.x.len(),
        !is_l(g.x, p),
    ensures
        placed_right(g, p, i) == (placed_right(g, p, i + 1) || p == q),
        !placed_right(g, q, i + 1),
{
    lemma_right_next(g, low, i);
    lemma_back_ascends(g, p);
}

/// A visit of the scan to the left keeps its state.
#[verifier::spinoff_prover]
#[verifier::rlimit(40)]
pub proof fn lemma_right_step(g: Field, low: Seq<i32>, ln: Lanes, len: int, d0: int, st: InduceState, i: int)
    requires
        fielded(g),
        lows(g, low),
        tables_apart(ln, g.k, len),
        righted(g, low, ln, len, d0, st, i + 1),
        width(g) < i < limit(g),
        d0 + g.right.len() <= i32::MAX,
    ensures
        lane_right_step(g.x, ln)(st, i) is Some,
        righted(g, low, ln, len, d0, lane_right_step(g.x, ln)(st, i)->0, i),
{
    let (sa, b, d) = st;
    let q = at(g, i) - 1;
    let r = back_place(g, low, q);
    let c = g.x[q];
    let v = is_lms(g.x, q);
    let e = d0 + back_count(g, sa, i);
    lemma_right_does(g, low, ln, len, d0, st, i);
    lemma_right_next(g, low, i);
    lemma_right_target(g, low, ln, len, d0, st, i);
    let sa1 = sa.update(r, marked(q as i32, name_of(ln, b, c, v) != e));
    let b1 = b.update((ln.next)(c, v), r as i32).update((ln.name)(c, v), e as i32);
    lemma_right_mark(g, low, ln, len, d0, st, i, sa1);
    lemma_back_count_same(g, sa, sa1, i);
    assert(lane_back(g, low, ln, d0, sa, b, c, v));
    assert(next_of(ln, b1, c, v) == r);
    assert(name_of(ln, b1, c, v) == e);
    assert forall|c2: int, w2: bool| 0 <= c2 < g.k && !(c2 == c && w2 == v) implies #[trigger] next_of(ln, b1, c2, w2) == next_of(
        ln,
        b,
        c2,
        w2,
    ) && name_of(ln, b1, c2, w2) == name_of(ln, b, c2, w2) by {}
    assert forall|y: int| #[trigger] filled_right(g, y, i) implies unmarked(sa1[y]) == at(g, y) && back_true(g, sa1, y) by {
        if y != r {
            lemma_not_low(g, y);
            if !is_l(g.x, at(g, y)) {
                lemma_placed_back(g, low, i, q, at(g, y));
                assert(at(g, y) != q);
            }
            assert(filled_right(g, y, i + 1));
            assert(sa1[y] == sa[y]);
            assert(back_true(g, sa, y));
        }
    }
    assert forall|y: int| width(g) < y < limit(g) && !is_l(g.x, #[trigger] at(g, y)) implies placed_right(g, at(g, y), i) == (y
        >= next_of(ln, b1, g.x[at(g, y)], false)) by {
        lemma_not_low(g, y);
        lemma_placed_back(g, low, i, q, at(g, y));
        assert(0 <= g.x[at(g, y)] < g.k);
    }
    assert forall|j: int| 0 <= j < low.len() implies placed_right(g, #[trigger] low[j] as int, i) == (j >= next_of(
        ln,
        b1,
        g.x[low[j] as int],
        true,
    )) by {
        lemma_low_at(g, low, j);
        lemma_placed_back(g, low, i, q, low[j] as int);
        assert(0 <= g.x[low[j] as int] < g.k);
    }
    assert forall|j: int| #![trigger low[j]] 0 <= j < low.len() && placed_right(g, low[j] as int, i) implies unmarked(sa1[j])
        == low[j] && low_true(g, low, sa1, j) by {
        lemma_low_at(g, low, j);
        lemma_placed_back(g, low, i, q, low[j] as int);
        if low[j] == q {
            assert(j == r);
        } else {
            assert(j != r);
            assert(placed_right(g, low[j] as int, i + 1));
            assert(sa1[j] == sa[j]);
            assert(low_true(g, low, sa, j));
        }
    }
    assert forall|c2: int, w2: bool| 0 <= c2 < g.k implies #[trigger] lane_back(g, low, ln, d0, sa1, b1, c2, w2) by {
        assert(lane_back(g, low, ln, d0, sa, b, c2, w2));
        lemma_starts(g, c2 + 1);
        lemma_low_start(g, low, c2 + 1);
        if c2 == c && w2 == v {
        } else {
            let y = next_of(ln, b, c2, w2);
            assert(next_of(ln, b1, c2, w2) == y);
            if y != finish(g, low, c2, w2) {
                let p = lane_at(g, low, w2, y);
                if w2 {
                    lemma_low_at(g, low, y);
                    assert(g.x[low[y] as int] == c2);
                    assert(placed_right(g, p, i + 1));
                } else {
                    lemma_not_low(g, y);
                    assert(!is_l(g.x, at(g, y)) && g.x[at(g, y)] == c2);
                    assert(placed_right(g, p, i + 1));
                }
                lemma_back_count_same(g, sa, sa1, place_of(g, p + 1));
            }
        }
    }
    assert forall|c2: int, y: int| #![trigger next_of(ln, b1, c2, false), at(g, y)]
        0 <= c2 < g.k && next_of(ln, b1, c2, false) <= y < start(g, c2 + 1, false) implies !is_l(g.x, at(g, y)) && g.x[at(g, y)]
        == c2 by {
        if c2 == c && !v && y == r {
        } else {
            assert(y >= next_of(ln, b, c2, false));
        }
    }
    assert forall|c2: int, j: int| #![trigger next_of(ln, b1, c2, true), low[j]]
        0 <= c2 < g.k && next_of(ln, b1, c2, true) <= j < low_start(g, low, c2 + 1) implies g.x[low[j] as int] == c2 by {
        if c2 == c && v && j == r {
        } else {
            assert(j >= next_of(ln, b, c2, true));
        }
    }
}

/// What the scan to the left starts from: the suffixes of type L in their slots, marked where the
/// next one is another, and tables that point behind the last slots.
pub open spec fn right_ready(g: Field, low: Seq<i32>, ln: Lanes, len: int, s: InduceState) -> bool {
    let (sa, b, d) = s;
    &&& fielded(g)
    &&& lows(g, low)
    &&& tables_apart(ln, g.k, len)
    &&& limit(g) <= sa.len()
    &&& b.len() == len
    &&& 0 <= d
    &&& d + g.right.len() <= i32::MAX
    &&& forall|y: int| width(g) < y < limit(g) && is_l(g.x, #[trigger] at(g, y)) ==> unmarked(sa[y]) == at(g, y) && back_true(
        g,
        sa,
        y,
    )
    &&& forall|c: int, v: bool| 0 <= c < g.k ==> #[trigger] next_of(ln, b, c, v) == finish(g, low, c, v)
    &&& forall|c: int, v: bool| 0 <= c < g.k ==> #[trigger] name_of(ln, b, c, v) <= d
}

/// The scan to the left starts.
pub proof fn lemma_right_first(g: Field, low: Seq<i32>, ln: Lanes, len: int, s: InduceState)
    requires
        right_ready(g, low, ln, len, s),
    ensures
        righted(g, low, ln, len, s.2 as int, s, limit(g)),
{
    let (sa, b, d) = s;
    assert(back_count(g, sa, limit(g)) == 0);
    assert forall|y: int| #[trigger] filled_right(g, y, limit(g)) implies unmarked(sa[y]) == at(g, y) && back_true(g, sa, y) by {
        lemma_not_low(g, y);
        if !is_l(g.x, at(g, y)) {
            lemma_back_ascends(g, at(g, y));
        }
    }
    assert forall|y: int| width(g) < y < limit(g) && !is_l(g.x, #[trigger] at(g, y)) implies placed_right(g, at(g, y), limit(g))
        == (y >= next_of(ln, b, g.x[at(g, y)], false)) by {
        lemma_not_low(g, y);
        lemma_back_ascends(g, at(g, y));
        assert(0 <= g.x[at(g, y)] < g.k);
        lemma_start(g, g.x[at(g, y)] + 1, y);
        assert(next_of(ln, b, g.x[at(g, y)], false) == finish(g, low, g.x[at(g, y)], false));
    }
    assert forall|j: int| 0 <= j < low.len() implies !placed_right(g, #[trigger] low[j] as int, limit(g)) && j < next_of(
        ln,
        b,
        g.x[low[j] as int],
        true,
    ) by {
        lemma_low_at(g, low, j);
        lemma_back_ascends(g, low[j] as int);
        assert(0 <= g.x[low[j] as int] < g.k);
        lemma_low_start(g, low, g.x[low[j] as int] + 1);
        assert(next_of(ln, b, g.x[low[j] as int], true) == finish(g, low, g.x[low[j] as int], true));
    }
    assert forall|c: int, v: bool| 0 <= c < g.k implies #[trigger] lane_back(g, low, ln, d as int, sa, b, c, v) by {
        assert(next_of(ln, b, c, v) == finish(g, low, c, v));
        assert(name_of(ln, b, c, v) <= d);
        lemma_starts(g, c + 1);
        lemma_low_start(g, low, c + 1);
    }
    assert forall|c: int, y: int| #![trigger next_of(ln, b, c, false), at(g, y)]
        0 <= c < g.k && next_of(ln, b, c, false) <= y < start(g, c + 1, false) implies !is_l(g.x, at(g, y)) && g.x[at(g, y)] == c by {
        assert(next_of(ln, b, c, false) == finish(g, low, c, false));
    }
    assert forall|c: int, j: int| #![trigger next_of(ln, b, c, true), low[j]]
        0 <= c < g.k && next_of(ln, b, c, true) <= j < low_start(g, low, c + 1) implies g.x[low[j] as int] == c by {
        assert(next_of(ln, b, c, true) == finish(g, low, c, true));
    }
}

/// The scan to the left runs from slot to slot.
pub proof fn lemma_right_run(g: Field, low: Seq<i32>, ln: Lanes, len: int, s: InduceState, i: int)
    requires
        right_ready(g, low, ln, len, s),
        width(g) < i <= limit(g),
    ensures
        ({
            let st = fold_down(lane_right_step(g.x, ln), s, i, limit(g));
            st is Some && righted(g, low, ln, len, s.2 as int, st->0, i)
        }),
    decreases limit(g) - i,
{
    lemma_right_first(g, low, ln, len, s);
    if i < limit(g) {
        lemma_right_run(g, low, ln, len, s, i + 1);
        let st = fold_down(lane_right_step(g.x, ln), s, i + 1, limit(g))->0;
        lemma_right_step(g, low, ln, len, s.2 as int, st, i);
    }
}

/// The scan to the left leaves the leftmost suffixes of type S in the induced order, marked where
/// the next substring is another, and the first slots of their buckets.
pub proof fn lemma_right_lows(g: Field, low: Seq<i32>, ln: Lanes, len: int, s: InduceState)
    requires
        right_ready(g, low, ln, len, s),
    ensures
        ({
            let st = fold_down(lane_right_step(g.x, ln), s, width(g) + 1, limit(g));
            &&& st is Some
            &&& st.unwrap().0.len() >= limit(g)
            &&& st.unwrap().1.len() == len
            &&& forall|j: int| #![trigger low[j]] 0 <= j < low.len() ==> unmarked(st.unwrap().0[j]) == low[j] && low_true(
                g,
                low,
                st.unwrap().0,
                j,
            )
            &&& forall|c: int| 0 <= c < g.k ==> #[trigger] next_of(ln, st.unwrap().1, c, true) == low_start(g, low, c)
        }),
{
    let w = width(g) + 1;
    lemma_right_run(g, low, ln, len, s, w);
    let (sa, b, d) = fold_down(lane_right_step(g.x, ln), s, w, limit(g))->0;
    assert forall|j: int| #![trigger low[j]] 0 <= j < low.len() implies placed_right(g, low[j] as int, w) by {
        lemma_low_at(g, low, j);
        lemma_back_ascends(g, low[j] as int);
    }
    assert forall|c: int| 0 <= c < g.k implies #[trigger] next_of(ln, b, c, true) == low_start(g, low, c) by {
        let y = next_of(ln, b, c, true);
        let z = low_start(g, low, c);
        assert(lane_back(g, low, ln, s.2 as int, sa, b, c, true));
        lemma_low_start(g, low, c);
        lemma_low_start(g, low, c + 1);
        if y < z {
            assert(g.x[low[y] as int] < c);
            assert(y < low_start(g, low, c + 1)) by {
                assert((g.x[low[y] as int] < c + 1) == (y < low_start(g, low, c + 1)));
            }
        }
        if z < y {
            assert(z < low.len());
            assert(!(g.x[low[z] as int] < c));
            assert(g.x[low[z] as int] < c + 1);
            assert(placed_right(g, low[z] as int, w));
        }
    }
}

} // verus!
