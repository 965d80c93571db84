//! Why the partial scans sort substrings, with one bucket for each symbol: what they leave is
//! the induced order of the leftmost suffixes of type S.

use vstd::prelude::*;
use crate::final_scan::before32;
use crate::fold::{fold_down, fold_up};
use crate::gather::text32;
use crate::induce::{partial_left_32s_1k, seeded_32s_1k};
use crate::induction::{bucket_ends, bucket_starts, entry_l, entry_s, slot_of, symbols_below};
use crate::kinds::{is_l, is_lms, law_last_type, law_type_step};
use crate::marks::{bit, marked, unmarked};
use crate::orders::packed_1k;
use crate::partial_32s::{
    partial_sorting_scan_left_to_right_32s_1k_step, partial_sorting_scan_right_to_left_32s_1k_run,
    partial_sorting_scan_right_to_left_32s_1k_step,
};
use crate::placement::{among, lemma_among, lemma_found};
use crate::radix::{
    partial_sorting_gather_lms_suffixes_32s_1k_slot_run, partial_sorting_gather_lms_suffixes_32s_1k_slot_step,
};
use crate::substrings::{
    class_of, induced_less, is_induced, key_of, lemma_induced_distinct, lemma_induced_rank,
    lemma_induced_slot, lemma_keys, lemma_next_class, met_less, substring_less, lemma_substrings_induce,
};
use crate::types::PlaceState;

verus! {

/// Where the leftmost suffixes of type S stand in `s`; the first of them, at `f`, stands in front.
pub open spec fn standing(s: Seq<i32>, n: int, f: int) -> spec_fn(int) -> int {
    |v: int|
        if v == f {
            -1
        } else {
            slot_of(s, n, v)
        }
}

/// Whether the suffix at `f` is the first of the leftmost suffixes of type S.
pub open spec fn first_lms(x: Seq<int>, f: int) -> bool {
    &&& is_lms(x, f)
    &&& forall|p: int| #[trigger] is_lms(x, p) ==> f <= p
}

/// Whether the suffix at `v` is a leftmost one of type S, and not the first.
pub open spec fn later_lms(x: Seq<int>, f: int, v: int) -> bool {
    is_lms(x, v) && v > f
}

/// Whether the first slots of `s` hold the leftmost suffixes of type S but the first, each in
/// its bucket among the slots that `a` gives to suffixes of type S, and zeros elsewhere.
pub open spec fn scattered(t: Seq<i32>, f: int, s: Seq<i32>, a: Seq<i32>) -> bool {
    let n = t.len() as int;
    let x = text32(t);
    &&& s.len() >= n
    &&& forall|j: int| 0 <= j < n && #[trigger] s[j] != 0 ==> later_lms(x, f, s[j] as int) && !is_l(x, a[j] as int)
        && t[a[j] as int] == t[s[j] as int]
    &&& forall|j: int, l: int| 0 <= j < l < n && #[trigger] s[j] != 0 && #[trigger] s[l] != 0 ==> s[j] != s[l]
    &&& forall|p: int| #[trigger] later_lms(x, f, p) ==> exists|j: int| 0 <= j < n && #[trigger] s[j] == p
}

/// Everything that the partial scans start from.
pub open spec fn arranged(t: Seq<i32>, f: int, s: Seq<i32>, a: Seq<i32>, k: int, starts: Seq<i32>, ends: Seq<i32>) -> bool {
    &&& 2 <= t.len() <= i32::MAX
    &&& symbols_below(t, k)
    &&& first_lms(text32(t), f)
    &&& is_induced(text32(t), f, standing(s, t.len() as int, f), a)
    &&& bucket_starts(t, a, k, starts)
    &&& bucket_ends(t, a, k, ends)
    &&& scattered(t, f, s, a)
}

/// Whether the scan to the right meets the suffix at `v`.
pub open spec fn visited(t: Seq<i32>, f: int, v: int) -> bool {
    0 <= v < t.len() && (class_of(text32(t), f, v) == 0 || later_lms(text32(t), f, v))
}

/// Where the scan to the right meets the suffix at `v`.
pub open spec fn visit(t: Seq<i32>, f: int, s: Seq<i32>, a: Seq<i32>, v: int) -> int {
    if is_l(text32(t), v) {
        slot_of(a, t.len() as int, v)
    } else {
        slot_of(s, t.len() as int, v)
    }
}

/// A suffix stands at its slot in the induced order.
pub proof fn lemma_slot(t: Seq<i32>, f: int, s: Seq<i32>, a: Seq<i32>, v: int)
    requires
        is_induced(text32(t), f, standing(s, t.len() as int, f), a),
        0 <= v < t.len(),
    ensures
        0 <= slot_of(a, t.len() as int, v) < t.len(),
        a[slot_of(a, t.len() as int, v)] == v,
{
    let r = lemma_induced_slot(text32(t), f, standing(s, t.len() as int, f), a, v);
    assert(0 <= r < t.len() && a[r] == v);
}

/// The slot of an entry is its own.
pub proof fn lemma_slot_of_entry(t: Seq<i32>, f: int, s: Seq<i32>, a: Seq<i32>, j: int)
    requires
        is_induced(text32(t), f, standing(s, t.len() as int, f), a),
        0 <= j < t.len(),
    ensures
        0 <= a[j] < t.len(),
        slot_of(a, t.len() as int, a[j] as int) == j,
{
    lemma_slot(t, f, s, a, a[j] as int);
    lemma_induced_distinct(
        text32(t), f, standing(s, t.len() as int, f), a, slot_of(a, t.len() as int, a[j] as int), j);
}

/// Visited suffixes have slots.
pub proof fn lemma_visit(t: Seq<i32>, f: int, s: Seq<i32>, a: Seq<i32>, k: int, starts: Seq<i32>, ends: Seq<i32>, v: int)
    requires
        arranged(t, f, s, a, k, starts, ends),
        visited(t, f, v),
    ensures
        0 <= visit(t, f, s, a, v) < t.len(),
        is_l(text32(t), v) ==> a[visit(t, f, s, a, v)] == v,
        !is_l(text32(t), v) ==> s[visit(t, f, s, a, v)] == v && v > 0,
{
    if is_l(text32(t), v) {
        lemma_slot(t, f, s, a, v);
    } else {
        assert(later_lms(text32(t), f, v));
    }
}

/// Suffixes are visited in their order.
pub proof fn lemma_visits_in_order(
    t: Seq<i32>,
    f: int,
    s: Seq<i32>,
    a: Seq<i32>,
    k: int,
    starts: Seq<i32>,
    ends: Seq<i32>,
    u: int,
    v: int,
)
    requires
        arranged(t, f, s, a, k, starts, ends),
        visited(t, f, u),
        visited(t, f, v),
        met_less(text32(t), f, standing(s, t.len() as int, f), u, v),
    ensures
        visit(t, f, s, a, u) < visit(t, f, s, a, v),
{
    let x = text32(t);
    let n = t.len() as int;
    let slot = standing(s, n, f);
    let i = visit(t, f, s, a, u);
    let j = visit(t, f, s, a, v);
    lemma_visit(t, f, s, a, k, starts, ends, u);
    lemma_visit(t, f, s, a, k, starts, ends, v);
    lemma_keys(x, f, u, v);
    let p = a[i] as int;
    let q = a[j] as int;
    assert(0 <= a[i] < n && 0 <= a[j] < n);
    lemma_keys(x, f, p, q);
    lemma_keys(x, f, q, p);
    if is_l(x, u) && is_l(x, v) {
        lemma_induced_rank(x, f, slot, a, i, j);
    } else if is_l(x, u) {
        assert(x[q] == x[v]);
        assert(induced_less(x, f, slot, p, q));
        lemma_induced_rank(x, f, slot, a, i, j);
    } else if is_l(x, v) {
        assert(x[p] == x[u]);
        assert(induced_less(x, f, slot, p, q));
        lemma_induced_rank(x, f, slot, a, i, j);
    } else if key_of(x, f, u) != key_of(x, f, v) {
        assert(x[p] == x[u] && x[q] == x[v]);
        assert(induced_less(x, f, slot, p, q));
        lemma_induced_rank(x, f, slot, a, i, j);
    } else {
        assert(slot(u) < slot(v));
    }
}

/// The suffix behind one of type L comes before it.
pub proof fn lemma_descends(x: Seq<int>, f: int, slot: spec_fn(int) -> int, q: int)
    requires
        0 <= f,
        0 <= q < x.len(),
        class_of(x, f, q) == 0,
    ensures
        met_less(x, f, slot, q + 1, q),
    decreases x.len() - q,
{
    if q + 1 < x.len() {
        law_type_step(x, q);
        lemma_keys(x, f, q + 1, q);
        if x[q + 1] == x[q] {
            lemma_descends(x, f, slot, q + 1);
        }
    }
}

/// The suffix behind one that is placed is visited.
pub proof fn lemma_next_visited(t: Seq<i32>, f: int, q: int)
    requires
        0 <= f,
        0 <= q,
        q + 1 < t.len(),
        class_of(text32(t), f, q) == 0,
    ensures
        visited(t, f, q + 1),
{
    lemma_next_class(text32(t), f, q);
}

/// Whether the scan to the right has placed the suffix at `q`, of type L, before slot `i`.
pub open spec fn put_l(t: Seq<i32>, f: int, s: Seq<i32>, a: Seq<i32>, q: int, i: int) -> bool {
    q == t.len() - 1 || visit(t, f, s, a, q + 1) < i
}

/// What is left of an entry of type L that has been visited: nothing where it induced.
pub open spec fn spent_l(t: Seq<i32>, q: int) -> i32 {
    if entry_l(t, q) > 0 {
        0
    } else {
        unmarked(entry_l(t, q))
    }
}

/// What slot `j` holds when the scan to the right is about to visit slot `i`.
pub open spec fn left_slot(t: Seq<i32>, f: int, s: Seq<i32>, a: Seq<i32>, i: int, j: int) -> i32 {
    let q = a[j] as int;
    if class_of(text32(t), f, q) == 0 {
        if !put_l(t, f, s, a, q, i) {
            0
        } else if j < i {
            spent_l(t, q)
        } else {
            entry_l(t, q)
        }
    } else if j < i {
        0
    } else {
        s[j]
    }
}

/// The state of the scan to the right when it is about to visit slot `i`.
pub open spec fn left_at(
    t: Seq<i32>,
    f: int,
    s: Seq<i32>,
    a: Seq<i32>,
    k: int,
    starts: Seq<i32>,
    st: PlaceState,
    i: int,
) -> bool {
    let n = t.len() as int;
    let x = text32(t);
    &&& st.0.len() == s.len()
    &&& st.1.len() == starts.len()
    &&& forall|j: int| 0 <= j < n ==> #[trigger] st.0[j] == left_slot(t, f, s, a, i, j)
    &&& forall|j: int| 0 <= j < n && class_of(x, f, #[trigger] a[j] as int) == 0 ==> put_l(t, f, s, a, a[j] as int, i) == (j
        < st.1[t[a[j] as int] as int])
    &&& forall|c: int| 0 <= c < k ==> starts[c] <= #[trigger] st.1[c] <= n
    &&& forall|c: int, j: int| #![trigger st.1[c], a[j]]
        0 <= c < k && starts[c] <= j < st.1[c] ==> t[a[j] as int] == c && class_of(x, f, a[j] as int) == 0
}

/// The next suffix of type L goes to its slot.
pub proof fn lemma_put_left(
    t: Seq<i32>,
    f: int,
    s: Seq<i32>,
    a: Seq<i32>,
    k: int,
    starts: Seq<i32>,
    ends: Seq<i32>,
    st: PlaceState,
    i: int,
    q: int,
)
    requires
        arranged(t, f, s, a, k, starts, ends),
        left_at(t, f, s, a, k, starts, st, i),
        0 <= i < t.len(),
        0 <= q,
        q + 1 < t.len(),
        class_of(text32(t), f, q) == 0,
        visit(t, f, s, a, q + 1) == i,
    ensures
        i < slot_of(a, t.len() as int, q) < t.len(),
        a[slot_of(a, t.len() as int, q)] == q,
        st.1[t[q] as int] == slot_of(a, t.len() as int, q),
{
    let x = text32(t);
    let n = t.len() as int;
    let slot = standing(s, n, f);
    let c = t[q] as int;
    let r = slot_of(a, n, q);
    lemma_slot(t, f, s, a, q);
    lemma_next_visited(t, f, q);
    lemma_descends(x, f, slot, q);
    lemma_visits_in_order(t, f, s, a, k, starts, ends, q + 1, q);
    assert(r == visit(t, f, s, a, q));
    assert(!put_l(t, f, s, a, q, i));
    assert(a[r] == q);
    assert(0 <= t[q] < k);
    let y = st.1[c] as int;
    assert(y <= r);
    assert(starts[c] <= y);
    if y < r {
        let p = a[y] as int;
        assert(0 <= a[y] < n);
        assert(!(t[a[y] as int] < c));
        assert(induced_less(x, f, slot, a[y] as int, a[r] as int));
        lemma_keys(x, f, p, q);
        lemma_keys(x, f, q, p);
        assert(x[p] == x[q] && class_of(x, f, p) == 0);
        assert(!put_l(t, f, s, a, p, i));
        lemma_next_visited(t, f, p);
        assert(met_less(x, f, slot, p, q));
        assert(met_less(x, f, slot, p + 1, q + 1));
        lemma_visits_in_order(t, f, s, a, k, starts, ends, p + 1, q + 1);
    }
}

/// Each slot is one visit.
pub proof fn lemma_visited_here(t: Seq<i32>, f: int, s: Seq<i32>, a: Seq<i32>, k: int, starts: Seq<i32>, ends: Seq<i32>, i: int, v: int)
    requires
        arranged(t, f, s, a, k, starts, ends),
        0 <= i < t.len(),
        visited(t, f, v),
        visit(t, f, s, a, v) == i,
    ensures
        v == (if is_l(text32(t), a[i] as int) { a[i] } else { s[i] }),
{
    lemma_visit(t, f, s, a, k, starts, ends, v);
}

/// A visit of the scan to the right keeps its state.
#[verifier::spinoff_prover]
pub proof fn lemma_left_visit(
    t: Seq<i32>,
    f: int,
    s: Seq<i32>,
    a: Seq<i32>,
    k: int,
    starts: Seq<i32>,
    ends: Seq<i32>,
    st: PlaceState,
    i: int,
)
    requires
        arranged(t, f, s, a, k, starts, ends),
        left_at(t, f, s, a, k, starts, st, i),
        0 <= i < t.len(),
    ensures
        partial_sorting_scan_left_to_right_32s_1k_step(t)(st, i) is Some,
        left_at(t, f, s, a, k, starts, partial_sorting_scan_left_to_right_32s_1k_step(t)(st, i)->0, i + 1),
{
    let x = text32(t);
    let n = t.len() as int;
    let slot = standing(s, n, f);
    let step = partial_sorting_scan_left_to_right_32s_1k_step(t);
    let v = a[i] as int;
    assert(0 <= a[i] < n);
    let p = st.0[i];
    assert(p == left_slot(t, f, s, a, i, i));
    // The suffix that is visited in this slot, or zero.
    let w = if class_of(x, f, v) == 0 { v } else { s[i] as int };
    if class_of(x, f, v) == 0 {
        lemma_slot_of_entry(t, f, s, a, i);
        assert(visit(t, f, s, a, v) == i);
        if v + 1 < n {
            lemma_next_visited(t, f, v);
            lemma_descends(x, f, slot, v);
            lemma_visits_in_order(t, f, s, a, k, starts, ends, v + 1, v);
        }
        assert(put_l(t, f, s, a, v, i));
        assert(p == entry_l(t, v));
        law_type_step(x, v - 1);
    }
    let induces = w > 0 && is_l(x, w - 1);
    assert(induces == (p > 0));
    if induces {
        let q = w - 1;
        assert(p == w);
        assert(w > f);
        assert(q > f);
        assert(class_of(x, f, q) == 0);
        assert(visit(t, f, s, a, w) == i) by {
            if class_of(x, f, v) != 0 {
                assert(later_lms(x, f, w));
                lemma_visit(t, f, s, a, k, starts, ends, w);
                let j = visit(t, f, s, a, w);
                if j < i {
                    assert(s[j] != s[i]);
                } else if i < j {
                    assert(s[i] != s[j]);
                }
            }
        }
        lemma_put_left(t, f, s, a, k, starts, ends, st, i, q);
        let r = slot_of(a, n, q);
        let c = t[q] as int;
        assert(0 <= t[q] < k);
        let nx = step(st, i)->0;
        assert(t[p - 2] == before32(t, q));
        assert(nx.0 == st.0.update(i, 0).update(r, entry_l(t, q)));
        assert(nx.1 == st.1.update(c, (r + 1) as i32));
        assert forall|j: int| 0 <= j < n && class_of(x, f, #[trigger] a[j] as int) == 0 implies put_l(
            t, f, s, a, a[j] as int, i + 1) == (j < nx.1[t[a[j] as int] as int]) && (j != r ==> put_l(
            t, f, s, a, a[j] as int, i + 1) == put_l(t, f, s, a, a[j] as int, i)) by {
            let u = a[j] as int;
            assert(0 <= u < n);
            if u + 1 < n {
                lemma_next_visited(t, f, u);
                if visit(t, f, s, a, u + 1) == i {
                    lemma_visited_here(t, f, s, a, k, starts, ends, i, u + 1);
                    assert(u == q);
                    lemma_induced_distinct(x, f, slot, a, j, r);
                }
            }
            if j == r {
                assert(put_l(t, f, s, a, q, i + 1));
            }
        }
        assert(left_at(t, f, s, a, k, starts, nx, i + 1));
    } else {
        let nx = step(st, i)->0;
        assert(nx.0 == st.0.update(i, unmarked(p)));
        assert(nx.1 == st.1);
        assert forall|j: int| 0 <= j < n && class_of(x, f, #[trigger] a[j] as int) == 0 implies put_l(
            t, f, s, a, a[j] as int, i + 1) == put_l(t, f, s, a, a[j] as int, i) by {
            let u = a[j] as int;
            assert(0 <= u < n);
            if u + 1 < n {
                lemma_next_visited(t, f, u);
                if visit(t, f, s, a, u + 1) == i {
                    lemma_visited_here(t, f, s, a, k, starts, ends, i, u + 1);
                }
            }
        }
        assert(left_at(t, f, s, a, k, starts, nx, i + 1));
    }
}

/// The last suffix is the first of its bucket.
pub proof fn lemma_last_leads(t: Seq<i32>, f: int, s: Seq<i32>, a: Seq<i32>, k: int, starts: Seq<i32>, ends: Seq<i32>)
    requires
        arranged(t, f, s, a, k, starts, ends),
    ensures
        class_of(text32(t), f, t.len() - 1) == 0,
        starts[t[t.len() - 1] as int] < t.len(),
        a[starts[t[t.len() - 1] as int] as int] == t.len() - 1,
{
    let x = text32(t);
    let n = t.len() as int;
    let slot = standing(s, n, f);
    let c = t[n - 1] as int;
    law_last_type(x);
    let r = slot_of(a, n, n - 1);
    lemma_slot(t, f, s, a, n - 1);
    let y = starts[c] as int;
    assert(0 <= t[n - 1] < k);
    assert(!(t[a[r] as int] < c));
    assert(y <= r);
    if y < r {
        let p = a[y] as int;
        assert(0 <= a[y] < n);
        assert(!(t[p] < c));
        assert(induced_less(x, f, slot, a[y] as int, a[r] as int));
        lemma_keys(x, f, p, n - 1);
        lemma_keys(x, f, n - 1, p);
        assert(met_less(x, f, slot, p, n - 1));
        assert(met_less(x, f, slot, p + 1, n));
    }
}

/// Placing the last suffix starts the scan to the right.
pub proof fn lemma_left_first(t: Seq<i32>, f: int, s: Seq<i32>, a: Seq<i32>, k: int, starts: Seq<i32>, ends: Seq<i32>)
    requires
        arranged(t, f, s, a, k, starts, ends),
    ensures
        seeded_32s_1k(t, t.len() as int, (s, starts)) is Some,
        left_at(t, f, s, a, k, starts, seeded_32s_1k(t, t.len() as int, (s, starts))->0, 0),
{
    let x = text32(t);
    let n = t.len() as int;
    let slot = standing(s, n, f);
    let c = t[n - 1] as int;
    lemma_last_leads(t, f, s, a, k, starts, ends);
    assert(0 <= t[n - 1] < k);
    let y = starts[c] as int;
    let st = seeded_32s_1k(t, n, (s, starts))->0;
    assert(st.0 == s.update(y, entry_l(t, n - 1)));
    assert forall|j: int| 0 <= j < n && class_of(x, f, #[trigger] a[j] as int) == 0 implies put_l(t, f, s, a, a[j] as int, 0)
        == (j == y) && (j != y ==> s[j] == 0) by {
        let u = a[j] as int;
        assert(0 <= u < n);
        if u == n - 1 {
            lemma_induced_distinct(x, f, slot, a, j, y);
        } else {
            lemma_next_visited(t, f, u);
            lemma_visit(t, f, s, a, k, starts, ends, u + 1);
        }
    }
    assert forall|j: int| 0 <= j < n && class_of(x, f, #[trigger] a[j] as int) == 0 implies put_l(t, f, s, a, a[j] as int, 0)
        == (j < st.1[t[a[j] as int] as int]) by {
        let d = t[a[j] as int] as int;
        assert(0 <= a[j] < n);
        assert(0 <= d < k);
        assert(!(t[a[j] as int] < d));
        assert(starts[d] <= j);
    }
}

/// The scan to the right runs from slot to slot.
pub proof fn lemma_left_visits(t: Seq<i32>, f: int, s: Seq<i32>, a: Seq<i32>, k: int, starts: Seq<i32>, ends: Seq<i32>, i: int)
    requires
        arranged(t, f, s, a, k, starts, ends),
        0 <= i <= t.len(),
    ensures
        ({
            let first = seeded_32s_1k(t, t.len() as int, (s, starts))->0;
            let st = fold_up(partial_sorting_scan_left_to_right_32s_1k_step(t), first, 0, i);
            st is Some && left_at(t, f, s, a, k, starts, st->0, i)
        }),
    decreases i,
{
    lemma_left_first(t, f, s, a, k, starts, ends);
    if i > 0 {
        lemma_left_visits(t, f, s, a, k, starts, ends, i - 1);
        let first = seeded_32s_1k(t, t.len() as int, (s, starts))->0;
        let st = fold_up(partial_sorting_scan_left_to_right_32s_1k_step(t), first, 0, i - 1)->0;
        lemma_left_visit(t, f, s, a, k, starts, ends, st, i - 1);
    }
}

/// Whether `y` holds what the scan to the right leaves: the suffixes of type L whose
/// predecessor is of type S, each at its slot, and zeros elsewhere.
pub open spec fn turned(t: Seq<i32>, f: int, a: Seq<i32>, y: Seq<i32>) -> bool {
    &&& y.len() >= t.len()
    &&& forall|j: int| 0 <= j < t.len() ==> #[trigger] y[j] == (if class_of(text32(t), f, a[j] as int) == 0 {
        spent_l(t, a[j] as int)
    } else {
        0
    })
}

/// The scan to the right leaves the ends of the chains of suffixes of type L.
pub proof fn lemma_left_turned(t: Seq<i32>, f: int, s: Seq<i32>, a: Seq<i32>, k: int, starts: Seq<i32>, ends: Seq<i32>)
    requires
        arranged(t, f, s, a, k, starts, ends),
    ensures
        partial_left_32s_1k(t, t.len() as int, (s, starts)) is Some,
        partial_left_32s_1k(t, t.len() as int, (s, starts)).unwrap().0.len() == s.len(),
        partial_left_32s_1k(t, t.len() as int, (s, starts)).unwrap().1.len() == starts.len(),
        turned(t, f, a, partial_left_32s_1k(t, t.len() as int, (s, starts)).unwrap().0),
{
    let n = t.len() as int;
    let x = text32(t);
    lemma_left_first(t, f, s, a, k, starts, ends);
    lemma_left_visits(t, f, s, a, k, starts, ends, n);
    let r = partial_left_32s_1k(t, n, (s, starts))->0;
    assert forall|j: int| 0 <= j < n implies #[trigger] r.0[j] == (if class_of(x, f, a[j] as int) == 0 {
        spent_l(t, a[j] as int)
    } else {
        0
    }) by {
        let u = a[j] as int;
        assert(0 <= a[j] < n);
        assert(r.0[j] == left_slot(t, f, s, a, n, j));
        if class_of(x, f, u) == 0 && u + 1 < n {
            lemma_next_visited(t, f, u);
            lemma_visit(t, f, s, a, k, starts, ends, u + 1);
        }
    }
}

/// Everything that the scan to the left starts from.
pub open spec fn turnable(t: Seq<i32>, f: int, slot: spec_fn(int) -> int, a: Seq<i32>, k: int, ends: Seq<i32>) -> bool {
    &&& 2 <= t.len() <= i32::MAX
    &&& symbols_below(t, k)
    &&& first_lms(text32(t), f)
    &&& is_induced(text32(t), f, slot, a)
    &&& bucket_ends(t, a, k, ends)
}

/// The suffix behind one of type S comes after it.
pub proof fn lemma_ascends_text(x: Seq<int>, f: int, slot: spec_fn(int) -> int, q: int)
    requires
        0 <= f,
        0 <= q < x.len(),
        class_of(x, f, q) == 3,
    ensures
        q + 1 < x.len(),
        induced_less(x, f, slot, q, q + 1),
    decreases x.len() - q,
{
    law_last_type(x);
    assert(q + 1 < x.len());
    law_type_step(x, q);
    lemma_keys(x, f, q, q + 1);
    if x[q] == x[q + 1] {
        lemma_ascends_text(x, f, slot, q + 1);
    }
}

/// The slots of a suffix of type S and of the one behind it.
pub proof fn lemma_slots_ascend(t: Seq<i32>, f: int, slot: spec_fn(int) -> int, a: Seq<i32>, q: int)
    requires
        0 <= f,
        is_induced(text32(t), f, slot, a),
        0 <= q < t.len(),
        class_of(text32(t), f, q) == 3,
    ensures
        q + 1 < t.len(),
        0 <= slot_of(a, t.len() as int, q) < slot_of(a, t.len() as int, q + 1) < t.len(),
        a[slot_of(a, t.len() as int, q)] == q,
        a[slot_of(a, t.len() as int, q + 1)] == q + 1,
{
    let x = text32(t);
    let n = t.len() as int;
    lemma_ascends_text(x, f, slot, q);
    let r = lemma_induced_slot(x, f, slot, a, q);
    let w = lemma_induced_slot(x, f, slot, a, q + 1);
    assert(0 <= r < n && a[r] == q);
    assert(0 <= w < n && a[w] == q + 1);
    lemma_induced_rank(x, f, slot, a, slot_of(a, n, q), slot_of(a, n, q + 1));
}

/// Whether the scan to the left has placed the suffix at `q`, of type S, behind slot `i`.
pub open spec fn put_s(t: Seq<i32>, a: Seq<i32>, q: int, i: int) -> bool {
    slot_of(a, t.len() as int, q + 1) >= i
}

/// What slot `j` holds when the scan to the left has visited slot `i`.
pub open spec fn right_slot(t: Seq<i32>, f: int, a: Seq<i32>, i: int, j: int) -> i32 {
    let q = a[j] as int;
    let e = if class_of(text32(t), f, q) == 0 {
        spent_l(t, q)
    } else if class_of(text32(t), f, q) == 3 && put_s(t, a, q, i) {
        entry_s(t, q)
    } else {
        0
    };
    if j >= i && e > 0 {
        0
    } else {
        e
    }
}

/// The state of the scan to the left when it has visited slot `i`.
pub open spec fn right_at(t: Seq<i32>, f: int, a: Seq<i32>, y: Seq<i32>, k: int, ends: Seq<i32>, st: PlaceState, i: int) -> bool {
    let n = t.len() as int;
    let x = text32(t);
    &&& st.0.len() == y.len()
    &&& st.1.len() == ends.len()
    &&& forall|j: int| 0 <= j < n ==> #[trigger] st.0[j] == right_slot(t, f, a, i, j)
    &&& forall|j: int| 0 <= j < n && class_of(x, f, #[trigger] a[j] as int) == 3 ==> put_s(t, a, a[j] as int, i) == (j
        >= st.1[t[a[j] as int] as int])
    &&& forall|c: int| 0 <= c < k ==> 0 <= #[trigger] st.1[c] <= ends[c]
    &&& forall|c: int, j: int| #![trigger st.1[c], a[j]]
        0 <= c < k && st.1[c] <= j < ends[c] ==> t[a[j] as int] == c && class_of(x, f, a[j] as int) == 3
}

/// The next suffix of type S goes to its slot.
pub proof fn lemma_put_right(
    t: Seq<i32>,
    f: int,
    slot: spec_fn(int) -> int,
    a: Seq<i32>,
    y: Seq<i32>,
    k: int,
    ends: Seq<i32>,
    st: PlaceState,
    i: int,
    q: int,
)
    requires
        turnable(t, f, slot, a, k, ends),
        right_at(t, f, a, y, k, ends, st, i + 1),
        0 <= i < t.len(),
        0 <= q < t.len(),
        class_of(text32(t), f, q) == 3,
        a[i] == q + 1,
    ensures
        0 <= slot_of(a, t.len() as int, q) < i,
        a[slot_of(a, t.len() as int, q)] == q,
        st.1[t[q] as int] - 1 == slot_of(a, t.len() as int, q),
{
    let x = text32(t);
    let n = t.len() as int;
    let c = t[q] as int;
    let r = slot_of(a, n, q);
    lemma_slots_ascend(t, f, slot, a, q);
    lemma_induced_distinct(x, f, slot, a, i, slot_of(a, n, q + 1));
    assert(!put_s(t, a, q, i + 1));
    assert(a[r] == q);
    assert(0 <= t[q] < k);
    let w = st.1[c] - 1;
    assert(r <= w);
    assert(w < ends[c]);
    if r < w {
        let p = a[w] as int;
        assert(0 <= a[w] < n);
        assert(t[p] <= c);
        assert(induced_less(x, f, slot, a[r] as int, a[w] as int));
        lemma_keys(x, f, q, p);
        lemma_keys(x, f, p, q);
        assert(x[p] == x[q] && class_of(x, f, p) == 3);
        lemma_slots_ascend(t, f, slot, a, p);
        assert(induced_less(x, f, slot, q + 1, p + 1));
        lemma_induced_rank(x, f, slot, a, i, slot_of(a, n, p + 1));
        assert(put_s(t, a, p, i + 1));
    }
}

/// A visit of the scan to the left keeps its state.
#[verifier::spinoff_prover]
pub proof fn lemma_right_visit(
    t: Seq<i32>,
    f: int,
    slot: spec_fn(int) -> int,
    a: Seq<i32>,
    y: Seq<i32>,
    k: int,
    ends: Seq<i32>,
    st: PlaceState,
    i: int,
)
    requires
        turnable(t, f, slot, a, k, ends),
        y.len() >= t.len(),
        right_at(t, f, a, y, k, ends, st, i + 1),
        0 <= i < t.len(),
    ensures
        partial_sorting_scan_right_to_left_32s_1k_step(t)(st, i) is Some,
        right_at(t, f, a, y, k, ends, partial_sorting_scan_right_to_left_32s_1k_step(t)(st, i)->0, i),
{
    let x = text32(t);
    let n = t.len() as int;
    let step = partial_sorting_scan_right_to_left_32s_1k_step(t);
    let v = a[i] as int;
    assert(0 <= a[i] < n);
    let p = st.0[i];
    assert(p == right_slot(t, f, a, i + 1, i));
    let r0 = slot_of(a, n, v);
    lemma_induced_distinct(x, f, slot, a, i, r0);
    if class_of(x, f, v) == 3 {
        lemma_slots_ascend(t, f, slot, a, v);
        assert(put_s(t, a, v, i + 1));
        assert(p == entry_s(t, v));
    }
    if v > 0 {
        law_type_step(x, v - 1);
    }
    let class = class_of(x, f, v);
    let induces = (class == 0 || class == 3) && v > f && !is_l(x, v - 1);
    assert(induces == (p > 0));
    if induces {
        let q = v - 1;
        assert(p == v);
        assert(class_of(x, f, q) == 3);
        lemma_put_right(t, f, slot, a, y, k, ends, st, i, q);
        let r = slot_of(a, n, q);
        let c = t[q] as int;
        assert(0 <= t[q] < k);
        let nx = step(st, i)->0;
        assert(t[p - 2] == before32(t, q));
        assert(nx.0 == st.0.update(i, 0).update(r, entry_s(t, q)));
        assert(nx.1 == st.1.update(c, r as i32));
        assert forall|j: int| 0 <= j < n && class_of(x, f, #[trigger] a[j] as int) == 3 implies put_s(t, a, a[j] as int, i) == (j
            >= nx.1[t[a[j] as int] as int]) && (j != r ==> put_s(t, a, a[j] as int, i) == put_s(t, a, a[j] as int, i + 1)) by {
            let u = a[j] as int;
            assert(0 <= u < n);
            lemma_slots_ascend(t, f, slot, a, u);
            if slot_of(a, n, u + 1) == i {
                assert(u == q);
                lemma_induced_distinct(x, f, slot, a, j, r);
            }
            if j == r {
                lemma_slots_ascend(t, f, slot, a, q);
                lemma_induced_distinct(x, f, slot, a, i, slot_of(a, n, q + 1));
                assert(put_s(t, a, q, i));
            }
        }
        assert(right_at(t, f, a, y, k, ends, nx, i));
    } else {
        let nx = step(st, i)->0;
        assert(nx == st);
        assert forall|j: int| 0 <= j < n && class_of(x, f, #[trigger] a[j] as int) == 3 implies put_s(t, a, a[j] as int, i)
            == put_s(t, a, a[j] as int, i + 1) by {
            let u = a[j] as int;
            assert(0 <= u < n);
            lemma_slots_ascend(t, f, slot, a, u);
            if slot_of(a, n, u + 1) == i {
                assert(u + 1 == v);
                law_type_step(x, u);
            }
        }
        assert(right_at(t, f, a, y, k, ends, nx, i));
    }
}

/// The scan to the left runs from slot to slot.
pub proof fn lemma_right_visits(
    t: Seq<i32>,
    f: int,
    slot: spec_fn(int) -> int,
    a: Seq<i32>,
    y: Seq<i32>,
    k: int,
    ends: Seq<i32>,
    i: int,
)
    requires
        turnable(t, f, slot, a, k, ends),
        turned(t, f, a, y),
        0 <= i <= t.len(),
    ensures
        ({
            let st = fold_down(partial_sorting_scan_right_to_left_32s_1k_step(t), (y, ends), i, t.len() as int);
            st is Some && right_at(t, f, a, y, k, ends, st->0, i)
        }),
    decreases t.len() - i,
{
    let n = t.len() as int;
    let x = text32(t);
    if i < n {
        lemma_right_visits(t, f, slot, a, y, k, ends, i + 1);
        let st = fold_down(partial_sorting_scan_right_to_left_32s_1k_step(t), (y, ends), i + 1, n)->0;
        lemma_right_visit(t, f, slot, a, y, k, ends, st, i);
    } else {
        assert forall|j: int| 0 <= j < n && class_of(x, f, #[trigger] a[j] as int) == 3 implies !put_s(t, a, a[j] as int, n)
            && j < ends[t[a[j] as int] as int] by {
            assert(0 <= a[j] < n);
            lemma_slots_ascend(t, f, slot, a, a[j] as int);
            let d = t[a[j] as int] as int;
            assert(0 <= d < k);
            assert(t[a[j] as int] <= d);
        }
    }
}

/// Whether `z` holds the leftmost suffixes of type S, each marked at its slot, and zeros
/// elsewhere.
pub open spec fn marked_lms(t: Seq<i32>, a: Seq<i32>, z: Seq<i32>) -> bool {
    &&& z.len() >= t.len()
    &&& forall|j: int| 0 <= j < t.len() ==> #[trigger] z[j] == (if is_lms(text32(t), a[j] as int) {
        marked(a[j], true)
    } else {
        0
    })
}

/// The partial scans leave the leftmost suffixes of type S in the induced order, marked.
pub proof fn lemma_scans_induce(t: Seq<i32>, f: int, s: Seq<i32>, a: Seq<i32>, k: int, starts: Seq<i32>, ends: Seq<i32>)
    requires
        arranged(t, f, s, a, k, starts, ends),
    ensures
        partial_left_32s_1k(t, t.len() as int, (s, starts)) is Some,
        ({
            let left = partial_left_32s_1k(t, t.len() as int, (s, starts))->0;
            let right = partial_sorting_scan_right_to_left_32s_1k_run(t, (left.0, ends), 0, t.len() as int);
            &&& left.1.len() == starts.len()
            &&& right is Some
            &&& right.unwrap().0.len() == s.len()
            &&& right.unwrap().1.len() == ends.len()
            &&& marked_lms(t, a, right.unwrap().0)
        }),
{
    let n = t.len() as int;
    let x = text32(t);
    let slot = standing(s, n, f);
    lemma_left_turned(t, f, s, a, k, starts, ends);
    let left = partial_left_32s_1k(t, n, (s, starts))->0;
    lemma_right_visits(t, f, slot, a, left.0, k, ends, 0);
    let right = partial_sorting_scan_right_to_left_32s_1k_run(t, (left.0, ends), 0, n)->0;
    assert forall|j: int| 0 <= j < n implies #[trigger] right.0[j] == (if is_lms(x, a[j] as int) {
        marked(a[j], true)
    } else {
        0
    }) by {
        let u = a[j] as int;
        assert(0 <= a[j] < n);
        assert(right.0[j] == right_slot(t, f, a, 0, j));
        if u > 0 {
            law_type_step(x, u - 1);
        }
        if class_of(x, f, u) == 3 {
            lemma_slots_ascend(t, f, slot, a, u);
        }
    }
}

/// How many leftmost suffixes of type S start at `lo` or behind it.
pub open spec fn lms_count(x: Seq<int>, lo: int) -> int
    decreases x.len() - lo,
{
    if lo >= x.len() {
        0
    } else {
        lms_count(x, lo + 1) + bit(is_lms(x, lo))
    }
}

/// The leftmost suffixes of type S at `lo` or behind it.
pub open spec fn lms_from(x: Seq<int>, lo: int) -> Set<int> {
    Set::new(|p: int| lo <= p && is_lms(x, p))
}

/// There are as many leftmost suffixes of type S as are counted.
proof fn lemma_lms_from(x: Seq<int>, lo: int)
    ensures
        lms_from(x, lo).finite(),
        lms_from(x, lo).len() == lms_count(x, lo),
    decreases x.len() - lo,
{
    if lo >= x.len() {
        assert(lms_from(x, lo) =~= Set::empty());
    } else {
        lemma_lms_from(x, lo + 1);
        if is_lms(x, lo) {
            assert(lms_from(x, lo) =~= lms_from(x, lo + 1).insert(lo));
        } else {
            assert(lms_from(x, lo) =~= lms_from(x, lo + 1));
        }
    }
}

/// Whether the first `m` entries of `w` list the leftmost suffixes of type S, each once.
pub open spec fn lms_listed(t: Seq<i32>, w: Seq<i32>, m: int) -> bool {
    &&& 0 <= m <= w.len()
    &&& forall|b: int| 0 <= b < m ==> is_lms(text32(t), #[trigger] w[b] as int)
    &&& forall|b: int, c: int| 0 <= b < c < m ==> #[trigger] w[b] != #[trigger] w[c]
    &&& forall|p: int| #[trigger] is_lms(text32(t), p) ==> among(w, 0, m, p as i32)
}

/// A list of the leftmost suffixes of type S has as many entries as there are.
proof fn lemma_listed_count(t: Seq<i32>, w: Seq<i32>, m: int)
    requires
        t.len() <= i32::MAX,
        lms_listed(t, w, m),
    ensures
        m == lms_count(text32(t), 0),
{
    let x = text32(t);
    let slots = vstd::set_lib::set_int_range(0, m);
    let g = |b: int| w[b] as int;
    vstd::set_lib::lemma_int_range(0, m);
    lemma_lms_from(x, 0);
    assert(vstd::relations::injective_on(g, slots)) by {
        assert forall|b: int, c: int| slots.contains(b) && slots.contains(c) && #[trigger] g(b) == #[trigger] g(c) implies b
            == c by {
            if b < c {
                assert(w[b] != w[c]);
            } else if c < b {
                assert(w[c] != w[b]);
            }
        }
    }
    assert(slots.map(g) =~= lms_from(x, 0)) by {
        assert forall|p: int| lms_from(x, 0).contains(p) implies slots.map(g).contains(p) by {
            let b = lemma_found(w, 0, m, p as i32);
            assert(slots.contains(b) && g(b) == p);
        }
        assert forall|p: int| slots.map(g).contains(p) implies lms_from(x, 0).contains(p) by {
            let b = choose|b: int| slots.contains(b) && g(b) == p;
            assert(is_lms(x, w[b] as int));
        }
    }
    vstd::set_lib::lemma_map_size(slots, lms_from(x, 0), g);
}

/// The state of the packing in front of slot `i`.
spec fn pack_at(t: Seq<i32>, a: Seq<i32>, z: Seq<i32>, st: (Seq<i32>, usize), i: int) -> bool {
    let n = t.len() as int;
    let x = text32(t);
    let (w, l) = st;
    &&& w.len() == z.len()
    &&& l <= i
    &&& forall|j: int| i <= j < n ==> #[trigger] w[j] == z[j]
    &&& forall|b: int| 0 <= b < l ==> is_lms(x, #[trigger] w[b] as int) && slot_of(a, n, w[b] as int) < i
    &&& forall|b: int, c: int| 0 <= b < c < l ==> slot_of(a, n, #[trigger] w[b] as int) < slot_of(a, n, #[trigger] w[c] as int)
    &&& forall|j: int| 0 <= j < i && is_lms(x, #[trigger] a[j] as int) ==> among(w, 0, l as int, a[j])
}

/// The packing runs from slot to slot.
proof fn lemma_pack(t: Seq<i32>, f: int, slot: spec_fn(int) -> int, a: Seq<i32>, z: Seq<i32>, i: int)
    requires
        is_induced(text32(t), f, slot, a),
        marked_lms(t, a, z),
        0 <= i <= t.len() <= i32::MAX,
    ensures
        ({
            let st = partial_sorting_gather_lms_suffixes_32s_1k_slot_run((z, 0), 0, i);
            st is Some && pack_at(t, a, z, st->0, i)
        }),
    decreases i,
{
    if i > 0 {
        let x = text32(t);
        let n = t.len() as int;
        lemma_pack(t, f, slot, a, z, i - 1);
        let st = partial_sorting_gather_lms_suffixes_32s_1k_slot_run((z, 0), 0, i - 1)->0;
        let nx = partial_sorting_gather_lms_suffixes_32s_1k_slot_step()(st, i - 1)->0;
        let (w, l) = st;
        let v = a[i - 1] as int;
        assert(0 <= a[i - 1] < n);
        assert(slot_of(a, n, v) == i - 1) by {
            assert(a[i - 1] == v);
            lemma_induced_distinct(text32(t), f, slot, a, slot_of(a, n, v), i - 1);
        }
        assert(w[i - 1] == z[i - 1]);
        assert(nx.0 == w.update(l as int, unmarked(z[i - 1])));
        assert(nx.1 == l + bit(is_lms(x, v)));
        assert(is_lms(x, v) ==> nx.0[l as int] == v);
        assert forall|j: int| 0 <= j < i && is_lms(x, #[trigger] a[j] as int) implies among(nx.0, 0, nx.1 as int, a[j]) by {
            if j == i - 1 {
                lemma_among(nx.0, 0, nx.1 as int, l as int);
            } else {
                let b = lemma_found(w, 0, l as int, a[j]);
                assert(nx.0[b] == w[b]);
                lemma_among(nx.0, 0, nx.1 as int, b);
            }
        }
        assert forall|b: int, c: int| 0 <= b < c < nx.1 implies slot_of(a, n, #[trigger] nx.0[b] as int) < slot_of(
            a,
            n,
            #[trigger] nx.0[c] as int,
        ) by {
            assert(nx.0[b] == w[b]);
            if c < l {
                assert(nx.0[c] == w[c]);
            }
        }
        assert forall|b: int| 0 <= b < nx.1 implies is_lms(x, #[trigger] nx.0[b] as int) && slot_of(a, n, nx.0[b] as int) < i by {
            if b < l {
                assert(nx.0[b] == w[b]);
            }
        }
    }
}

/// Whether the first `m` entries of `w` list the leftmost suffixes of type S by their
/// substrings.
pub open spec fn substrings_sorted(t: Seq<i32>, w: Seq<i32>, m: int) -> bool {
    &&& lms_listed(t, w, m)
    &&& forall|b: int, c: int| 0 <= b < c < m ==> !substring_less(
        text32(t),
        #[trigger] w[c] as int,
        #[trigger] w[b] as int,
    )
}

/// Packing lists the leftmost suffixes of type S by their substrings.
pub proof fn lemma_packed(t: Seq<i32>, f: int, slot: spec_fn(int) -> int, a: Seq<i32>, z: Seq<i32>)
    requires
        1 <= t.len() <= i32::MAX,
        first_lms(text32(t), f),
        is_induced(text32(t), f, slot, a),
        marked_lms(t, a, z),
    ensures
        packed_1k(z, t.len() as int).len() == z.len(),
        substrings_sorted(t, packed_1k(z, t.len() as int), lms_count(text32(t), 0)),
{
    let n = t.len() as int;
    let x = text32(t);
    lemma_pack(t, f, slot, a, z, n);
    let (w, l) = partial_sorting_gather_lms_suffixes_32s_1k_slot_run((z, 0), 0, n)->0;
    assert(w == packed_1k(z, n));
    assert forall|p: int| #[trigger] is_lms(x, p) implies among(w, 0, l as int, p as i32) by {
        let r = lemma_induced_slot(x, f, slot, a, p);
        assert(is_lms(x, a[r] as int));
    }
    assert forall|b: int, c: int| 0 <= b < c < l implies #[trigger] w[b] != #[trigger] w[c] && !substring_less(
        x,
        w[c] as int,
        w[b] as int,
    ) by {
        let u = w[b] as int;
        let v = w[c] as int;
        let i = slot_of(a, n, u);
        let j = slot_of(a, n, v);
        assert(is_lms(x, w[b] as int) && is_lms(x, w[c] as int));
        let r = lemma_induced_slot(x, f, slot, a, u);
        assert(0 <= r < n && a[r] == u);
        let q = lemma_induced_slot(x, f, slot, a, v);
        assert(0 <= q < n && a[q] == v);
        assert(a[i] == u && a[j] == v);
        if substring_less(x, v, u) {
            lemma_substrings_induce(x, f, slot, v, u);
            lemma_induced_rank(x, f, slot, a, j, i);
        }
    }
    lemma_listed_count(t, w, l as int);
}

} // verus!
