//! The lists that the partial scans fill where each symbol has a lane for every pair of types: the
//! suffixes that the scan to the right visits in one area, those that the scan to the left visits
//! in another.

use vstd::prelude::*;
use crate::bounds::lemma_closed_range;
use crate::induction::slot_of;
use crate::kinds::{is_l, is_lms};
use crate::lengths::tally;
use crate::partial_induction::first_lms;
use crate::placement::{among, lemma_found};
use crate::recount::{lemma_picked, picked};
use crate::substrings::{
    induced_less, lemma_induced_irreflexive, lemma_induced_transitive, lemma_keys,
    lemma_met_irreflexive, lemma_met_transitive, met_less, slots_differ,
};
use crate::ties::{lemma_same_transitive, lemma_tied_in_front, lemma_tied_transitive, same_chain, tied};

verus! {

/// Where the scans find, for a symbol and a type, the next slot of the lane and the name that was
/// used in it last.
pub struct Lanes {
    pub next: spec_fn(int, bool) -> int,
    pub name: spec_fn(int, bool) -> int,
}

/// What the partial scans work on: a text, its first leftmost suffix of type S, the slots of the
/// others, and the lists of the suffixes that each scan visits. The scans are exact where the
/// leftmost suffixes of type S carry marks.
pub struct Field {
    pub x: Seq<int>,
    pub f: int,
    pub slot: spec_fn(int) -> int,
    pub left: Seq<i32>,
    pub right: Seq<i32>,
    pub k: int,
    pub exact: bool,
}

/// Whether the scan to the right visits the suffix at `v`: the one in front of it is of type L.
pub open spec fn in_left(x: Seq<int>, f: int, v: int) -> bool {
    f < v < x.len() && is_l(x, v - 1)
}

/// Whether the scan to the left visits the suffix at `v`: the one in front of it is of type S.
pub open spec fn in_right(x: Seq<int>, f: int, v: int) -> bool {
    f < v < x.len() && !is_l(x, v - 1)
}

/// Whether the field is set up.
pub open spec fn fielded(g: Field) -> bool {
    &&& 2 <= g.x.len() <= i32::MAX
    &&& first_lms(g.x, g.f)
    &&& slots_differ(g.x, g.slot)
    &&& 0 <= g.k
    &&& forall|i: int| 0 <= i < g.x.len() ==> 0 <= #[trigger] g.x[i] < g.k
    &&& forall|j: int| 0 <= j < g.left.len() ==> in_left(g.x, g.f, #[trigger] g.left[j] as int)
    &&& forall|i: int, j: int| 0 <= i < j < g.left.len() ==> met_less(
        g.x,
        g.f,
        g.slot,
        #[trigger] g.left[i] as int,
        #[trigger] g.left[j] as int,
    )
    &&& forall|v: int| #[trigger] in_left(g.x, g.f, v) ==> among(g.left, 0, g.left.len() as int, v as i32)
    &&& forall|j: int| 0 <= j < g.right.len() ==> in_right(g.x, g.f, #[trigger] g.right[j] as int)
    &&& forall|i: int, j: int| 0 <= i < j < g.right.len() ==> induced_less(
        g.x,
        g.f,
        g.slot,
        #[trigger] g.right[i] as int,
        #[trigger] g.right[j] as int,
    )
    &&& forall|v: int| #[trigger] in_right(g.x, g.f, v) ==> among(g.right, 0, g.right.len() as int, v as i32)
}

/// Whether the scans may take the chains at `u` and `v` for one.
pub open spec fn linked(g: Field, u: int, v: int) -> bool {
    if g.exact {
        same_chain(g.x, u, v)
    } else {
        tied(g.x, u, v)
    }
}

/// Links are transitive.
pub proof fn lemma_linked_transitive(g: Field, u: int, v: int, w: int)
    requires
        linked(g, u, v),
        linked(g, v, w),
    ensures
        linked(g, u, w),
{
    if g.exact {
        lemma_same_transitive(g.x, u, v, w);
    } else {
        lemma_tied_transitive(g.x, u, v, w);
    }
}

/// Chains of the same symbols and types in front of others are linked as these are.
pub proof fn lemma_linked_in_front(g: Field, u: int, v: int)
    requires
        0 <= u < g.x.len(),
        0 <= v < g.x.len(),
        g.x[u] == g.x[v],
        is_l(g.x, u) == is_l(g.x, v),
        !is_lms(g.x, u),
        !is_lms(g.x, v),
    ensures
        linked(g, u, v) == linked(g, u + 1, v + 1),
        same_chain(g.x, u, v) == same_chain(g.x, u + 1, v + 1),
{
    lemma_tied_in_front(g.x, u, v);
}

/// How many suffixes the scan to the right visits.
pub open spec fn width(g: Field) -> int {
    g.left.len() as int
}

/// Where the second area ends.
pub open spec fn limit(g: Field) -> int {
    width(g) + 1 + g.right.len()
}

/// Whether slot `y` lies in one of the areas, which one slot separates.
pub open spec fn in_area(g: Field, y: int) -> bool {
    0 <= y < limit(g) && y != width(g)
}

/// The suffix that belongs to slot `y`.
pub open spec fn at(g: Field, y: int) -> int {
    if y < width(g) {
        g.left[y] as int
    } else {
        g.right[y - width(g) - 1] as int
    }
}

/// The slot of the suffix at `v`.
pub open spec fn place_of(g: Field, v: int) -> int {
    if is_l(g.x, v - 1) {
        slot_of(g.left, g.left.len() as int, v)
    } else {
        width(g) + 1 + slot_of(g.right, g.right.len() as int, v)
    }
}

/// The first slot of the bucket of `c` in the area of the scan to the right, or in the other.
pub open spec fn start(g: Field, c: int, visited: bool) -> int {
    if visited {
        tally(|j: int| g.x[g.left[j] as int] < c, 0, g.left.len() as int)
    } else {
        width(g) + 1 + tally(|j: int| g.x[g.right[j] as int] < c, 0, g.right.len() as int)
    }
}

/// Every suffix behind the first leftmost one of type S has its slot.
pub proof fn lemma_place(g: Field, v: int)
    requires
        fielded(g),
        g.f < v < g.x.len(),
    ensures
        in_area(g, place_of(g, v)),
        at(g, place_of(g, v)) == v,
        is_l(g.x, v - 1) == (place_of(g, v) < width(g)),
{
    if is_l(g.x, v - 1) {
        assert(in_left(g.x, g.f, v));
        let j = lemma_found(g.left, 0, g.left.len() as int, v as i32);
        assert(g.left[j] == v);
    } else {
        assert(in_right(g.x, g.f, v));
        let j = lemma_found(g.right, 0, g.right.len() as int, v as i32);
        assert(g.right[j] == v);
    }
}

/// What belongs to a slot.
pub proof fn lemma_at(g: Field, y: int)
    requires
        fielded(g),
        in_area(g, y),
    ensures
        g.f < at(g, y) < g.x.len(),
        is_l(g.x, at(g, y) - 1) == (y < width(g)),
        place_of(g, at(g, y)) == y,
        y < width(g) ==> is_l(g.x, at(g, y)) || is_lms(g.x, at(g, y)),
{
    let v = at(g, y);
    if y < width(g) {
        assert(in_left(g.x, g.f, g.left[y] as int));
        let j = slot_of(g.left, g.left.len() as int, v);
        assert(g.left[y] == v);
        assert(0 <= j < g.left.len() && g.left[j] == v);
        lemma_met_irreflexive(g.x, g.f, g.slot, v);
        if j < y {
            assert(met_less(g.x, g.f, g.slot, g.left[j] as int, g.left[y] as int));
        } else if y < j {
            assert(met_less(g.x, g.f, g.slot, g.left[y] as int, g.left[j] as int));
        }
    } else {
        let i = y - width(g) - 1;
        assert(in_right(g.x, g.f, g.right[i] as int));
        let j = slot_of(g.right, g.right.len() as int, v);
        assert(g.right[i] == v);
        assert(0 <= j < g.right.len() && g.right[j] == v);
        lemma_induced_irreflexive(g.x, g.f, g.slot, v);
        if j < i {
            assert(induced_less(g.x, g.f, g.slot, g.right[j] as int, g.right[i] as int));
        } else if i < j {
            assert(induced_less(g.x, g.f, g.slot, g.right[i] as int, g.right[j] as int));
        }
    }
}

/// Slots of the first area have the order in which suffixes are met.
pub proof fn lemma_left_order(g: Field, u: int, v: int)
    requires
        fielded(g),
        in_left(g.x, g.f, u),
        in_left(g.x, g.f, v),
        met_less(g.x, g.f, g.slot, u, v),
    ensures
        place_of(g, u) < place_of(g, v),
{
    lemma_place(g, u);
    lemma_place(g, v);
    let i = place_of(g, u);
    let j = place_of(g, v);
    lemma_met_irreflexive(g.x, g.f, g.slot, u);
    if j < i {
        assert(met_less(g.x, g.f, g.slot, g.left[j] as int, g.left[i] as int));
        lemma_met_transitive(g.x, g.f, g.slot, u, v, u);
    }
}

/// Slots of the second area have the induced order.
pub proof fn lemma_right_order(g: Field, u: int, v: int)
    requires
        fielded(g),
        in_right(g.x, g.f, u),
        in_right(g.x, g.f, v),
        induced_less(g.x, g.f, g.slot, u, v),
    ensures
        place_of(g, u) < place_of(g, v),
{
    lemma_place(g, u);
    lemma_place(g, v);
    let i = place_of(g, u) - width(g) - 1;
    let j = place_of(g, v) - width(g) - 1;
    lemma_induced_irreflexive(g.x, g.f, g.slot, u);
    if j < i {
        assert(induced_less(g.x, g.f, g.slot, g.right[j] as int, g.right[i] as int));
        lemma_induced_transitive(g.x, g.f, g.slot, u, v, u);
    }
}

/// Neighbours in an area are in their order.
pub proof fn lemma_area_order(g: Field, y: int, z: int)
    requires
        fielded(g),
        in_area(g, y),
        in_area(g, z),
        y < z,
        (y < width(g)) == (z < width(g)),
    ensures
        z < width(g) ==> met_less(g.x, g.f, g.slot, at(g, y), at(g, z)),
        z > width(g) ==> induced_less(g.x, g.f, g.slot, at(g, y), at(g, z)),
        g.x[at(g, y)] <= g.x[at(g, z)],
        g.x[at(g, y)] == g.x[at(g, z)] && is_l(g.x, at(g, z)) ==> is_l(g.x, at(g, y)) && met_less(
            g.x,
            g.f,
            g.slot,
            at(g, y),
            at(g, z),
        ),
{
    let u = at(g, y);
    let v = at(g, z);
    lemma_at(g, y);
    lemma_at(g, z);
    if z < width(g) {
        assert(met_less(g.x, g.f, g.slot, g.left[y] as int, g.left[z] as int));
    } else {
        assert(induced_less(g.x, g.f, g.slot, g.right[y - width(g) - 1] as int, g.right[z - width(g) - 1] as int));
    }
    lemma_keys(g.x, g.f, u, v);
    lemma_keys(g.x, g.f, v, u);
}

/// A count of entries below a limit is a border.
pub proof fn lemma_border(x: Seq<int>, l: Seq<i32>, c: int)
    requires
        forall|i: int, j: int| 0 <= i < j < l.len() ==> x[#[trigger] l[i] as int] <= x[#[trigger] l[j] as int],
    ensures
        ({
            let q = tally(|j: int| x[l[j] as int] < c, 0, l.len() as int);
            0 <= q <= l.len() && forall|j: int| 0 <= j < l.len() ==> (x[#[trigger] l[j] as int] < c) == (j < q)
        }),
{
    let sel = |j: int| x[l[j] as int] < c;
    let n = l.len() as int;
    let s = picked(sel, 0, n);
    lemma_picked(sel, 0, n);
    assert forall|i: int, j: int| 0 <= i < j && #[trigger] s.contains(j) implies #[trigger] s.contains(i) by {
        assert(x[l[i] as int] <= x[l[j] as int]);
    }
    lemma_closed_range(s, n);
    vstd::set_lib::lemma_int_range(0, n);
    assert(s.subset_of(vstd::set_lib::set_int_range(0, n)));
    vstd::set_lib::lemma_len_subset(s, vstd::set_lib::set_int_range(0, n));
    assert forall|j: int| 0 <= j < n implies (x[#[trigger] l[j] as int] < c) == (j < s.len()) by {
        assert(s.contains(j) == (j < s.len()));
    }
}

/// The first slot of a bucket is a border.
pub proof fn lemma_start(g: Field, c: int, y: int)
    requires
        fielded(g),
        in_area(g, y),
    ensures
        (g.x[at(g, y)] < c) == (y < start(g, c, y < width(g))),
{
    lemma_starts(g, c);
    if y < width(g) {
        assert forall|i: int, j: int| 0 <= i < j < g.left.len() implies g.x[#[trigger] g.left[i] as int] <= g.x[#[trigger] g.left[j] as int] by {
            lemma_area_order(g, i, j);
        }
        lemma_border(g.x, g.left, c);
        assert((g.x[g.left[y] as int] < c) == (y < start(g, c, true)));
    } else {
        let w = width(g) + 1;
        assert forall|i: int, j: int| 0 <= i < j < g.right.len() implies g.x[#[trigger] g.right[i] as int]
            <= g.x[#[trigger] g.right[j] as int] by {
            lemma_area_order(g, w + i, w + j);
        }
        lemma_border(g.x, g.right, c);
        assert((g.x[g.right[y - w] as int] < c) == (y - w < start(g, c, false) - w));
    }
}

/// The first slots lie in their areas.
pub proof fn lemma_starts(g: Field, c: int)
    requires
        fielded(g),
    ensures
        0 <= start(g, c, true) <= width(g),
        width(g) < start(g, c, false) <= limit(g),
{
    crate::lengths::lemma_tally_bound(|j: int| g.x[g.left[j] as int] < c, 0, g.left.len() as int);
    crate::lengths::lemma_tally_bound(|j: int| g.x[g.right[j] as int] < c, 0, g.right.len() as int);
}

} // verus!
