//! Why the final scans sort: from the sorted leftmost suffixes of type S, the scan to the
//! right induces the suffixes of type L, and the scan to the left those of type S.

use vstd::prelude::*;
use crate::final_scan::{
    before32, final_sorting_scan_left_to_right_32s_step, final_sorting_scan_right_to_left_32s_run,
    final_sorting_scan_right_to_left_32s_step,
};
use crate::fold::{fold_down, fold_up};
use crate::gather::text32;
use crate::induce::{final_left_32s, seeded_32s_1k};
use crate::kinds::{is_l, is_lms, law_last_type, law_type_step};
use crate::marks::{flipped, marked, unmarked};
use crate::order::{
    is_suffix_array, law_suffix_array_complete, lemma_less_irreflexive, lemma_less_total, lemma_less_transitive,
    lemma_rank_order, lemma_suffix_array_distinct, suffix_less,
};
use crate::types::PlaceState;

verus! {

/// Of suffixes that start with the same symbol, those of type L come before those of type S.
pub proof fn law_l_before_s(t: Seq<int>, u: int, v: int)
    requires
        0 <= u < t.len(),
        0 <= v < t.len(),
        t[u] == t[v],
        is_l(t, u),
        !is_l(t, v),
    ensures
        suffix_less(t, u, v),
    decreases t.len() - u,
{
    if v + 1 >= t.len() {
        law_last_type(t);
    } else {
        law_type_step(t, v);
        if u + 1 < t.len() {
            law_type_step(t, u);
            if t[u + 1] == t[v + 1] {
                law_l_before_s(t, u + 1, v + 1);
            }
        }
        assert(suffix_less(t, u + 1, v + 1));
    }
}

/// Where `v` stands among the first `n` entries of `s`.
pub open spec fn slot_of(s: Seq<i32>, n: int, v: int) -> int {
    choose|j: int| 0 <= j < n && #[trigger] s[j] == v
}

/// A suffix stands at its rank.
proof fn lemma_rank(t: Seq<int>, sa: Seq<i32>, v: int)
    requires
        is_suffix_array(t, sa),
        0 <= v < t.len(),
    ensures
        0 <= slot_of(sa, sa.len() as int, v) < sa.len(),
        sa[slot_of(sa, sa.len() as int, v)] == v,
{
    law_suffix_array_complete(t, sa, v);
}

/// The rank of an entry is its slot.
pub proof fn lemma_rank_of_entry(t: Seq<int>, sa: Seq<i32>, j: int)
    requires
        is_suffix_array(t, sa),
        0 <= j < sa.len(),
    ensures
        slot_of(sa, sa.len() as int, sa[j] as int) == j,
{
    lemma_rank(t, sa, sa[j] as int);
    lemma_suffix_array_distinct(t, sa, slot_of(sa, sa.len() as int, sa[j] as int), j);
}

/// Whether `b` holds the first slot of the bucket of each symbol below `k`.
pub open spec fn bucket_starts(t: Seq<i32>, sa: Seq<i32>, k: int, b: Seq<i32>) -> bool {
    &&& k <= b.len()
    &&& forall|c: int| 0 <= c < k ==> 0 <= #[trigger] b[c] <= sa.len()
    &&& forall|c: int, j: int| #![trigger b[c], sa[j]]
        0 <= c < k && 0 <= j < sa.len() ==> (t[sa[j] as int] < c) == (j < b[c])
}

/// Whether `b` holds the end of the bucket of each symbol below `k`.
pub open spec fn bucket_ends(t: Seq<i32>, sa: Seq<i32>, k: int, b: Seq<i32>) -> bool {
    &&& k <= b.len()
    &&& forall|c: int| 0 <= c < k ==> 0 <= #[trigger] b[c] <= sa.len()
    &&& forall|c: int, j: int| #![trigger b[c], sa[j]]
        0 <= c < k && 0 <= j < sa.len() ==> (t[sa[j] as int] <= c) == (j < b[c])
}

/// Whether every symbol of `t` is below `k`.
pub open spec fn symbols_below(t: Seq<i32>, k: int) -> bool {
    forall|i: int| 0 <= i < t.len() ==> 0 <= #[trigger] t[i] < k
}

/// Whether the first slots of `s` hold the sorted leftmost suffixes of type S, each in its
/// bucket behind the slots of the suffixes of type L, and zeros elsewhere.
pub open spec fn lms_in_place(t: Seq<i32>, sa: Seq<i32>, s: Seq<i32>) -> bool {
    let n = t.len() as int;
    let x = text32(t);
    &&& s.len() >= n
    &&& forall|j: int| 0 <= j < n && #[trigger] s[j] != 0 ==> is_lms(x, s[j] as int) && !is_l(x, sa[j] as int)
        && t[sa[j] as int] == t[s[j] as int]
    &&& forall|j: int, l: int| 0 <= j < l < n && #[trigger] s[j] != 0 && #[trigger] s[l] != 0
        ==> suffix_less(x, s[j] as int, s[l] as int)
    &&& forall|p: int| #[trigger] is_lms(x, p) ==> exists|j: int| 0 <= j < n && #[trigger] s[j] == p
}

/// Everything that the scans start from.
pub open spec fn prepared(t: Seq<i32>, sa: Seq<i32>, s: Seq<i32>, k: int, starts: Seq<i32>, ends: Seq<i32>) -> bool {
    &&& 2 <= t.len() <= i32::MAX
    &&& is_suffix_array(text32(t), sa)
    &&& symbols_below(t, k)
    &&& bucket_starts(t, sa, k, starts)
    &&& bucket_ends(t, sa, k, ends)
    &&& lms_in_place(t, sa, s)
}

/// Where the scan to the right meets the suffix at `v`: a suffix of type L at its rank, a
/// leftmost one of type S where it was put.
pub open spec fn meeting_slot(t: Seq<i32>, sa: Seq<i32>, s: Seq<i32>, v: int) -> int {
    if is_l(text32(t), v) {
        slot_of(sa, t.len() as int, v)
    } else {
        slot_of(s, t.len() as int, v)
    }
}

/// Whether the scan to the right meets the suffix at `v`.
pub open spec fn met(t: Seq<i32>, v: int) -> bool {
    0 <= v < t.len() && (is_l(text32(t), v) || is_lms(text32(t), v))
}

/// Met suffixes have slots of their own.
proof fn lemma_meeting_slot(t: Seq<i32>, sa: Seq<i32>, s: Seq<i32>, k: int, starts: Seq<i32>, ends: Seq<i32>, v: int)
    requires
        prepared(t, sa, s, k, starts, ends),
        met(t, v),
    ensures
        0 <= meeting_slot(t, sa, s, v) < t.len(),
        is_l(text32(t), v) ==> sa[meeting_slot(t, sa, s, v)] == v,
        !is_l(text32(t), v) ==> s[meeting_slot(t, sa, s, v)] == v && v > 0,
{
    if is_l(text32(t), v) {
        lemma_rank(text32(t), sa, v);
    } else {
        assert(is_lms(text32(t), v));
    }
}

/// The scan to the right meets suffixes in their order.
proof fn lemma_met_in_order(t: Seq<i32>, sa: Seq<i32>, s: Seq<i32>, k: int, starts: Seq<i32>, ends: Seq<i32>, u: int, v: int)
    requires
        prepared(t, sa, s, k, starts, ends),
        met(t, u),
        met(t, v),
        suffix_less(text32(t), u, v),
    ensures
        meeting_slot(t, sa, s, u) < meeting_slot(t, sa, s, v),
{
    let x = text32(t);
    let n = t.len() as int;
    let i = meeting_slot(t, sa, s, u);
    let j = meeting_slot(t, sa, s, v);
    lemma_meeting_slot(t, sa, s, k, starts, ends, u);
    lemma_meeting_slot(t, sa, s, k, starts, ends, v);
    if is_l(x, u) && is_l(x, v) {
        lemma_rank_order(x, sa, i, j);
    } else if is_l(x, u) {
        assert(0 <= sa[j] < n);
        if t[u] == t[v] {
            law_l_before_s(x, u, sa[j] as int);
        }
        assert(suffix_less(x, u, sa[j] as int));
        lemma_rank_order(x, sa, i, j);
    } else if is_l(x, v) {
        assert(0 <= sa[i] < n);
        if t[u] == t[v] {
            law_l_before_s(x, v, u);
            lemma_less_transitive(x, u, v, u);
            lemma_less_irreflexive(x, u);
        }
        assert(suffix_less(x, sa[i] as int, v));
        lemma_rank_order(x, sa, i, j);
    } else {
        if i == j {
            lemma_less_irreflexive(x, u);
        } else if j < i {
            assert(suffix_less(x, s[j] as int, s[i] as int));
            lemma_less_transitive(x, u, v, u);
            lemma_less_irreflexive(x, u);
        }
    }
}

/// The suffix behind one of type L is met by the scan to the right.
proof fn lemma_next_is_met(t: Seq<i32>, q: int)
    requires
        0 <= q,
        q + 1 < t.len(),
        is_l(text32(t), q),
    ensures
        met(t, q + 1),
        suffix_less(text32(t), q + 1, q),
{
}

/// Whether the scan to the right has placed the suffix at `q`, of type L, before slot `i`.
pub open spec fn placed_l(t: Seq<i32>, sa: Seq<i32>, s: Seq<i32>, q: int, i: int) -> bool {
    q == t.len() - 1 || meeting_slot(t, sa, s, q + 1) < i
}

/// The entry of a suffix of type L: marked where the suffix in front of it is of type S.
pub open spec fn entry_l(t: Seq<i32>, q: int) -> i32 {
    marked(q as i32, before32(t, q) < t[q])
}

/// What slot `j` holds when the scan to the right is about to visit slot `i`.
pub open spec fn left_entry(t: Seq<i32>, sa: Seq<i32>, s: Seq<i32>, i: int, j: int) -> i32 {
    let q = sa[j] as int;
    let p = if !is_l(text32(t), q) {
        s[j]
    } else if placed_l(t, sa, s, q, i) {
        entry_l(t, q)
    } else {
        0
    };
    if j < i {
        flipped(p)
    } else {
        p
    }
}

/// The state of the scan to the right when it is about to visit slot `i`.
pub open spec fn left_state(
    t: Seq<i32>,
    sa: Seq<i32>,
    s: Seq<i32>,
    k: int,
    starts: Seq<i32>,
    st: PlaceState,
    i: int,
) -> bool {
    let n = t.len() as int;
    let x = text32(t);
    &&& st.0.len() == s.len()
    &&& st.1.len() == starts.len()
    &&& forall|j: int| 0 <= j < n ==> #[trigger] st.0[j] == left_entry(t, sa, s, i, j)
    &&& forall|j: int| n <= j < s.len() ==> #[trigger] st.0[j] == s[j]
    &&& forall|j: int| 0 <= j < n && is_l(x, #[trigger] sa[j] as int) ==> placed_l(t, sa, s, sa[j] as int, i) == (j
        < st.1[t[sa[j] as int] as int])
    &&& forall|c: int| 0 <= c < k ==> starts[c] <= #[trigger] st.1[c] <= n
    &&& forall|c: int, j: int| #![trigger st.1[c], sa[j]]
        0 <= c < k && starts[c] <= j < st.1[c] ==> t[sa[j] as int] == c && is_l(x, sa[j] as int)
}

/// The next suffix of type L goes to its rank.
proof fn lemma_next_left(
    t: Seq<i32>,
    sa: Seq<i32>,
    s: Seq<i32>,
    k: int,
    starts: Seq<i32>,
    ends: Seq<i32>,
    st: PlaceState,
    i: int,
    q: int,
)
    requires
        prepared(t, sa, s, k, starts, ends),
        left_state(t, sa, s, k, starts, st, i),
        0 <= i < t.len(),
        0 <= q,
        q + 1 < t.len(),
        is_l(text32(t), q),
        meeting_slot(t, sa, s, q + 1) == i,
    ensures
        i < slot_of(sa, t.len() as int, q) < t.len(),
        sa[slot_of(sa, t.len() as int, q)] == q,
        st.1[t[q] as int] == slot_of(sa, t.len() as int, q),
{
    let x = text32(t);
    let n = t.len() as int;
    let c = t[q] as int;
    let r = slot_of(sa, n, q);
    lemma_rank(x, sa, q);
    lemma_next_is_met(t, q);
    lemma_met_in_order(t, sa, s, k, starts, ends, q + 1, q);
    assert(r == meeting_slot(t, sa, s, q));
    assert(!placed_l(t, sa, s, q, i));
    assert(sa[r] == q);
    let y = st.1[c] as int;
    assert(y <= r);
    assert(starts[c] <= y);
    if y < r {
        let p = sa[y] as int;
        assert(t[p] == c) by {
            assert(!(t[sa[y] as int] < c));
            assert(suffix_less(x, sa[y] as int, sa[r] as int));
        }
        assert(suffix_less(x, p, q));
        if !is_l(x, p) {
            law_l_before_s(x, q, p);
            lemma_less_transitive(x, p, q, p);
            lemma_less_irreflexive(x, p);
        }
        assert(is_l(x, p));
        assert(!placed_l(t, sa, s, p, i));
        lemma_next_is_met(t, p);
        assert(suffix_less(x, p + 1, q + 1));
        lemma_met_in_order(t, sa, s, k, starts, ends, p + 1, q + 1);
    }
}

/// Each slot meets one suffix.
proof fn lemma_met_here(t: Seq<i32>, sa: Seq<i32>, s: Seq<i32>, k: int, starts: Seq<i32>, ends: Seq<i32>, i: int, v: int)
    requires
        prepared(t, sa, s, k, starts, ends),
        0 <= i < t.len(),
        met(t, v),
        meeting_slot(t, sa, s, v) == i,
    ensures
        v == (if is_l(text32(t), sa[i] as int) { sa[i] } else { s[i] }),
{
    lemma_meeting_slot(t, sa, s, k, starts, ends, v);
}

/// A visit of the scan to the right keeps its state.
#[verifier::spinoff_prover]
pub proof fn lemma_left_step(
    t: Seq<i32>,
    sa: Seq<i32>,
    s: Seq<i32>,
    k: int,
    starts: Seq<i32>,
    ends: Seq<i32>,
    st: PlaceState,
    i: int,
)
    requires
        prepared(t, sa, s, k, starts, ends),
        left_state(t, sa, s, k, starts, st, i),
        0 <= i < t.len(),
    ensures
        final_sorting_scan_left_to_right_32s_step(t)(st, i) is Some,
        left_state(t, sa, s, k, starts, final_sorting_scan_left_to_right_32s_step(t)(st, i)->0, i + 1),
        0 < st.0[i] ==> i < st.1[t[st.0[i] - 1] as int] < t.len(),
{
    let x = text32(t);
    let n = t.len() as int;
    let step = final_sorting_scan_left_to_right_32s_step(t);
    let v = sa[i] as int;
    assert(0 <= v < n);
    let p = st.0[i];
    assert(p == left_entry(t, sa, s, i, i));
    // The suffix that is met in this slot, or zero.
    let w = if is_l(x, v) { v } else { s[i] as int };
    if is_l(x, v) {
        lemma_rank_of_entry(x, sa, i);
        assert(meeting_slot(t, sa, s, v) == i);
        if v + 1 < n {
            lemma_next_is_met(t, v);
            lemma_met_in_order(t, sa, s, k, starts, ends, v + 1, v);
        }
        assert(placed_l(t, sa, s, v, i));
        assert(p == entry_l(t, v));
        if v > 0 {
            law_type_step(x, v - 1);
        }
    }
    let induces = w > 0 && is_l(x, w - 1);
    assert(induces == (p > 0));
    if induces {
        let q = w - 1;
        assert(p == w);
        assert(meeting_slot(t, sa, s, w) == i) by {
            if !is_l(x, v) {
                assert(is_lms(x, w));
                lemma_meeting_slot(t, sa, s, k, starts, ends, w);
                let j = meeting_slot(t, sa, s, w);
                if j < i {
                    assert(suffix_less(x, s[j] as int, s[i] as int));
                    lemma_less_irreflexive(x, w);
                } else if i < j {
                    assert(suffix_less(x, s[i] as int, s[j] as int));
                    lemma_less_irreflexive(x, w);
                }
            }
        }
        lemma_next_left(t, sa, s, k, starts, ends, st, i, q);
        let r = slot_of(sa, n, q);
        let c = t[q] as int;
        assert(0 <= t[q] < k);
        let nx = step(st, i)->0;
        assert(nx.0 == st.0.update(i, flipped(p)).update(r, entry_l(t, q)));
        assert(nx.1 == st.1.update(c, (r + 1) as i32));
        assert forall|j: int| 0 <= j < n && is_l(x, #[trigger] sa[j] as int) implies placed_l(t, sa, s, sa[j] as int, i + 1)
            == (j < nx.1[t[sa[j] as int] as int]) && (j != r ==> placed_l(t, sa, s, sa[j] as int, i + 1) == placed_l(
            t,
            sa,
            s,
            sa[j] as int,
            i,
        )) by {
            let u = sa[j] as int;
            assert(0 <= u < n);
            if u + 1 < n {
                lemma_next_is_met(t, u);
                if meeting_slot(t, sa, s, u + 1) == i {
                    lemma_met_here(t, sa, s, k, starts, ends, i, u + 1);
                    assert(u == q);
                    lemma_suffix_array_distinct(x, sa, j, r);
                }
            }
            if j == r {
                assert(placed_l(t, sa, s, q, i + 1));
            }
        }
        assert(left_state(t, sa, s, k, starts, nx, i + 1));
    } else {
        let nx = step(st, i)->0;
        assert(nx.0 == st.0.update(i, flipped(p)));
        assert(nx.1 == st.1);
        assert forall|j: int| 0 <= j < n && is_l(x, #[trigger] sa[j] as int) implies placed_l(t, sa, s, sa[j] as int, i + 1)
            == placed_l(t, sa, s, sa[j] as int, i) by {
            let u = sa[j] as int;
            assert(0 <= u < n);
            if u + 1 < n {
                lemma_next_is_met(t, u);
                if meeting_slot(t, sa, s, u + 1) == i {
                    lemma_met_here(t, sa, s, k, starts, ends, i, u + 1);
                }
            }
        }
        assert(left_state(t, sa, s, k, starts, nx, i + 1));
    }
}

/// The last suffix is the first of its bucket.
proof fn lemma_last_first(t: Seq<i32>, sa: Seq<i32>, k: int, starts: Seq<i32>)
    requires
        1 <= t.len(),
        is_suffix_array(text32(t), sa),
        symbols_below(t, k),
        bucket_starts(t, sa, k, starts),
    ensures
        starts[t[t.len() - 1] as int] < t.len(),
        sa[starts[t[t.len() - 1] as int] as int] == t.len() - 1,
{
    let x = text32(t);
    let n = t.len() as int;
    let c = t[n - 1] as int;
    let r = slot_of(sa, n, n - 1);
    lemma_rank(x, sa, n - 1);
    let y = starts[c] as int;
    assert(!(t[sa[r] as int] < c));
    assert(y <= r);
    if y < r {
        let p = sa[y] as int;
        assert(0 <= p < n);
        assert(!(t[p] < c));
        assert(suffix_less(x, sa[y] as int, sa[r] as int));
        assert(t[p] == c);
        assert(suffix_less(x, p + 1, n));
    }
}

/// Placing the last suffix starts the scan to the right.
pub proof fn lemma_left_start(t: Seq<i32>, sa: Seq<i32>, s: Seq<i32>, k: int, starts: Seq<i32>, ends: Seq<i32>)
    requires
        prepared(t, sa, s, k, starts, ends),
    ensures
        seeded_32s_1k(t, t.len() as int, (s, starts)) is Some,
        left_state(t, sa, s, k, starts, seeded_32s_1k(t, t.len() as int, (s, starts))->0, 0),
{
    let x = text32(t);
    let n = t.len() as int;
    let c = t[n - 1] as int;
    lemma_last_first(t, sa, k, starts);
    law_last_type(x);
    assert(0 <= t[n - 1] < k);
    let y = starts[c] as int;
    let st = seeded_32s_1k(t, n, (s, starts))->0;
    assert(st.0 == s.update(y, entry_l(t, n - 1)));
    assert forall|j: int| 0 <= j < n && is_l(x, #[trigger] sa[j] as int) implies placed_l(t, sa, s, sa[j] as int, 0) == (j
        == y) && (j != y ==> s[j] == 0) by {
        let u = sa[j] as int;
        assert(0 <= u < n);
        if u == n - 1 {
            lemma_suffix_array_distinct(x, sa, j, y);
        } else {
            lemma_next_is_met(t, u);
            lemma_meeting_slot(t, sa, s, k, starts, ends, u + 1);
        }
    }
    assert forall|j: int| 0 <= j < n && is_l(x, #[trigger] sa[j] as int) implies placed_l(t, sa, s, sa[j] as int, 0) == (j
        < st.1[t[sa[j] as int] as int]) by {
        let d = t[sa[j] as int] as int;
        assert(0 <= sa[j] < n);
        assert(0 <= d < k);
        assert(!(t[sa[j] as int] < d));
        assert(starts[d] <= j);
    }
}

/// The scan to the right runs from slot to slot.
pub proof fn lemma_left_run(t: Seq<i32>, sa: Seq<i32>, s: Seq<i32>, k: int, starts: Seq<i32>, ends: Seq<i32>, i: int)
    requires
        prepared(t, sa, s, k, starts, ends),
        0 <= i <= t.len(),
    ensures
        ({
            let first = seeded_32s_1k(t, t.len() as int, (s, starts))->0;
            let st = fold_up(final_sorting_scan_left_to_right_32s_step(t), first, 0, i);
            st is Some && left_state(t, sa, s, k, starts, st->0, i)
        }),
    decreases i,
{
    lemma_left_start(t, sa, s, k, starts, ends);
    if i > 0 {
        lemma_left_run(t, sa, s, k, starts, ends, i - 1);
        let first = seeded_32s_1k(t, t.len() as int, (s, starts))->0;
        let st = fold_up(final_sorting_scan_left_to_right_32s_step(t), first, 0, i - 1)->0;
        lemma_left_step(t, sa, s, k, starts, ends, st, i - 1);
    }
}

/// After the scan to the right, each suffix of type L stands at its rank, plain where the
/// suffix in front of it is of type S.
pub open spec fn left_done(t: Seq<i32>, sa: Seq<i32>, s: Seq<i32>) -> bool {
    &&& s.len() >= t.len()
    &&& forall|j: int| 0 <= j < t.len() && is_l(text32(t), #[trigger] sa[j] as int) ==> s[j] == flipped(
        entry_l(t, sa[j] as int),
    )
}

/// The scan to the right places every suffix of type L.
pub proof fn lemma_left_scan(t: Seq<i32>, sa: Seq<i32>, s: Seq<i32>, k: int, starts: Seq<i32>, ends: Seq<i32>)
    requires
        prepared(t, sa, s, k, starts, ends),
    ensures
        final_left_32s(t, t.len() as int, (s, starts)) is Some,
        ({
            let r = final_left_32s(t, t.len() as int, (s, starts))->0;
            &&& r.0.len() == s.len()
            &&& r.1.len() == starts.len()
            &&& left_done(t, sa, r.0)
            &&& forall|j: int| 0 <= j < t.len() && is_l(text32(t), #[trigger] sa[j] as int) ==> j < r.1[t[sa[j] as int] as int]
            &&& forall|c: int| 0 <= c < k ==> starts[c] <= #[trigger] r.1[c] <= t.len()
            &&& forall|j: int| t.len() <= j < s.len() ==> #[trigger] r.0[j] == s[j]
        }),
{
    let n = t.len() as int;
    lemma_left_start(t, sa, s, k, starts, ends);
    lemma_left_run(t, sa, s, k, starts, ends, n);
    let r = final_left_32s(t, n, (s, starts))->0;
    assert forall|j: int| 0 <= j < n && is_l(text32(t), #[trigger] sa[j] as int) implies r.0[j] == flipped(
        entry_l(t, sa[j] as int),
    ) && j < r.1[t[sa[j] as int] as int] by {
        let u = sa[j] as int;
        assert(0 <= u < n);
        if u + 1 < n {
            lemma_next_is_met(t, u);
            lemma_meeting_slot(t, sa, s, k, starts, ends, u + 1);
        }
        assert(r.0[j] == left_entry(t, sa, s, n, j));
        assert(placed_l(t, sa, s, u, n));
    }
}

/// Whether the scan to the left has placed the suffix at `q`, of type S, behind slot `i`.
pub open spec fn placed_s(t: Seq<i32>, sa: Seq<i32>, q: int, i: int) -> bool {
    slot_of(sa, t.len() as int, q + 1) >= i
}

/// The entry of a suffix of type S: marked where the suffix in front of it is of type L.
pub open spec fn entry_s(t: Seq<i32>, q: int) -> i32 {
    marked(q as i32, before32(t, q) > t[q])
}

/// The state of the scan to the left when it has visited slot `i`.
pub open spec fn right_state(
    t: Seq<i32>,
    sa: Seq<i32>,
    s: Seq<i32>,
    k: int,
    ends: Seq<i32>,
    st: PlaceState,
    i: int,
) -> bool {
    let n = t.len() as int;
    let x = text32(t);
    &&& st.0.len() == s.len()
    &&& st.1.len() == ends.len()
    &&& forall|j: int| i <= j < n ==> #[trigger] st.0[j] == sa[j]
    &&& forall|j: int| 0 <= j < i && is_l(x, sa[j] as int) ==> #[trigger] st.0[j] == flipped(entry_l(t, sa[j] as int))
    &&& forall|j: int| 0 <= j < i && !is_l(x, sa[j] as int) && placed_s(t, sa, sa[j] as int, i) ==> #[trigger] st.0[j]
        == entry_s(t, sa[j] as int)
    &&& forall|j: int| n <= j < s.len() ==> #[trigger] st.0[j] == s[j]
    &&& forall|j: int| 0 <= j < n && !is_l(x, #[trigger] sa[j] as int) ==> placed_s(t, sa, sa[j] as int, i) == (j
        >= st.1[t[sa[j] as int] as int])
    &&& forall|c: int| 0 <= c < k ==> 0 <= #[trigger] st.1[c] <= ends[c]
    &&& forall|c: int, j: int| #![trigger st.1[c], sa[j]]
        0 <= c < k && st.1[c] <= j < ends[c] ==> t[sa[j] as int] == c && !is_l(x, sa[j] as int)
}

/// The suffix behind one of type S comes after it.
pub proof fn lemma_next_after(t: Seq<i32>, sa: Seq<i32>, q: int)
    requires
        is_suffix_array(text32(t), sa),
        0 <= q < t.len(),
        !is_l(text32(t), q),
    ensures
        q + 1 < t.len(),
        slot_of(sa, t.len() as int, q) < slot_of(sa, t.len() as int, q + 1) < t.len(),
        sa[slot_of(sa, t.len() as int, q)] == q,
        sa[slot_of(sa, t.len() as int, q + 1)] == q + 1,
{
    let x = text32(t);
    if q + 1 == t.len() {
        law_last_type(x);
    }
    lemma_less_total(x, q, q + 1);
    lemma_rank(x, sa, q);
    lemma_rank(x, sa, q + 1);
    lemma_rank_order(x, sa, slot_of(sa, t.len() as int, q), slot_of(sa, t.len() as int, q + 1));
}

/// The next suffix of type S goes to its rank.
proof fn lemma_next_right(t: Seq<i32>, sa: Seq<i32>, s: Seq<i32>, k: int, ends: Seq<i32>, st: PlaceState, i: int, q: int)
    requires
        2 <= t.len() <= i32::MAX,
        is_suffix_array(text32(t), sa),
        symbols_below(t, k),
        bucket_ends(t, sa, k, ends),
        right_state(t, sa, s, k, ends, st, i + 1),
        0 <= i < t.len(),
        0 <= q < t.len(),
        !is_l(text32(t), q),
        sa[i] == q + 1,
    ensures
        0 <= slot_of(sa, t.len() as int, q) < i,
        sa[slot_of(sa, t.len() as int, q)] == q,
        st.1[t[q] as int] - 1 == slot_of(sa, t.len() as int, q),
{
    let x = text32(t);
    let n = t.len() as int;
    let c = t[q] as int;
    let r = slot_of(sa, n, q);
    lemma_next_after(t, sa, q);
    lemma_rank_of_entry(x, sa, i);
    assert(!placed_s(t, sa, q, i + 1));
    assert(sa[r] == q);
    lemma_rank(x, sa, q);
    let y = st.1[c] - 1;
    assert(r <= y);
    assert(y < ends[c]);
    if r < y {
        let p = sa[y] as int;
        assert(0 <= p < n);
        assert(t[p] <= c);
        assert(suffix_less(x, sa[r] as int, sa[y] as int));
        assert(t[p] == c);
        if is_l(x, p) {
            law_l_before_s(x, p, q);
            lemma_less_transitive(x, q, p, q);
            lemma_less_irreflexive(x, q);
        }
        lemma_next_after(t, sa, p);
        assert(suffix_less(x, q + 1, p + 1));
        lemma_rank_order(x, sa, i, slot_of(sa, n, p + 1));
        assert(placed_s(t, sa, p, i + 1));
    }
}

/// A visit of the scan to the left keeps its state.
#[verifier::spinoff_prover]
pub proof fn lemma_right_step(t: Seq<i32>, sa: Seq<i32>, s: Seq<i32>, k: int, ends: Seq<i32>, st: PlaceState, i: int)
    requires
        2 <= t.len() <= i32::MAX,
        is_suffix_array(text32(t), sa),
        symbols_below(t, k),
        bucket_ends(t, sa, k, ends),
        s.len() >= t.len(),
        right_state(t, sa, s, k, ends, st, i + 1),
        0 <= i < t.len(),
    ensures
        final_sorting_scan_right_to_left_32s_step(t)(st, i) is Some,
        right_state(t, sa, s, k, ends, final_sorting_scan_right_to_left_32s_step(t)(st, i)->0, i),
        0 < st.0[i] ==> st.0[i] == sa[i] && 0 < st.1[t[st.0[i] - 1] as int] <= i,
        unmarked(st.0[i]) == sa[i],
{
    let x = text32(t);
    let n = t.len() as int;
    let step = final_sorting_scan_right_to_left_32s_step(t);
    let v = sa[i] as int;
    assert(0 <= v < n);
    lemma_rank_of_entry(x, sa, i);
    let p = st.0[i];
    if !is_l(x, v) {
        lemma_next_after(t, sa, v);
        assert(placed_s(t, sa, v, i + 1));
        assert(p == entry_s(t, v));
    } else {
        assert(p == flipped(entry_l(t, v)));
    }
    if v > 0 {
        law_type_step(x, v - 1);
    }
    let induces = v > 0 && !is_l(x, v - 1);
    assert(induces == (p > 0));
    assert(unmarked(p) == v);
    if induces {
        let q = v - 1;
        lemma_next_right(t, sa, s, k, ends, st, i, q);
        let r = slot_of(sa, n, q);
        let c = t[q] as int;
        assert(0 <= t[q] < k);
        let nx = step(st, i)->0;
        assert(nx.0 == st.0.update(i, v as i32).update(r, entry_s(t, q)));
        assert(nx.1 == st.1.update(c, r as i32));
        assert forall|j: int| 0 <= j < n && !is_l(x, #[trigger] sa[j] as int) implies placed_s(t, sa, sa[j] as int, i) == (j
            >= nx.1[t[sa[j] as int] as int]) && (j != r ==> placed_s(t, sa, sa[j] as int, i) == placed_s(
            t,
            sa,
            sa[j] as int,
            i + 1,
        )) by {
            let u = sa[j] as int;
            assert(0 <= u < n);
            lemma_next_after(t, sa, u);
            if slot_of(sa, n, u + 1) == i {
                assert(u == q);
                lemma_suffix_array_distinct(x, sa, j, r);
            }
            if j == r {
                assert(placed_s(t, sa, q, i));
            }
        }
        assert(right_state(t, sa, s, k, ends, nx, i));
    } else {
        let nx = step(st, i)->0;
        assert(nx.0 == st.0.update(i, v as i32));
        assert(nx.1 == st.1);
        assert forall|j: int| 0 <= j < n && !is_l(x, #[trigger] sa[j] as int) implies placed_s(t, sa, sa[j] as int, i)
            == placed_s(t, sa, sa[j] as int, i + 1) by {
            let u = sa[j] as int;
            assert(0 <= u < n);
            lemma_next_after(t, sa, u);
        }
        assert(right_state(t, sa, s, k, ends, nx, i));
    }
}

/// The scan to the left runs from slot to slot.
pub proof fn lemma_right_run(t: Seq<i32>, sa: Seq<i32>, s: Seq<i32>, k: int, ends: Seq<i32>, i: int)
    requires
        2 <= t.len() <= i32::MAX,
        is_suffix_array(text32(t), sa),
        symbols_below(t, k),
        bucket_ends(t, sa, k, ends),
        left_done(t, sa, s),
        0 <= i <= t.len(),
    ensures
        ({
            let st = fold_down(final_sorting_scan_right_to_left_32s_step(t), (s, ends), i, t.len() as int);
            st is Some && right_state(t, sa, s, k, ends, st->0, i)
        }),
    decreases t.len() - i,
{
    let n = t.len() as int;
    let x = text32(t);
    if i < n {
        lemma_right_run(t, sa, s, k, ends, i + 1);
        let st = fold_down(final_sorting_scan_right_to_left_32s_step(t), (s, ends), i + 1, n)->0;
        lemma_right_step(t, sa, s, k, ends, st, i);
    } else {
        assert forall|j: int| 0 <= j < n && !is_l(x, #[trigger] sa[j] as int) implies !placed_s(t, sa, sa[j] as int, n)
            && j < ends[t[sa[j] as int] as int] by {
            assert(0 <= sa[j] < n);
            lemma_next_after(t, sa, sa[j] as int);
            let d = t[sa[j] as int] as int;
            assert(0 <= d < k);
            assert(t[sa[j] as int] <= d);
        }
    }
}

/// The final scans sort: where the leftmost suffixes of type S stand sorted in their
/// buckets, the scan to the right and then the scan to the left leave the suffix array.
pub proof fn law_final_scans_sort(t: Seq<i32>, sa: Seq<i32>, s: Seq<i32>, k: int, starts: Seq<i32>, ends: Seq<i32>)
    requires
        prepared(t, sa, s, k, starts, ends),
    ensures
        final_left_32s(t, t.len() as int, (s, starts)) is Some,
        ({
            let left = final_left_32s(t, t.len() as int, (s, starts))->0;
            let right = final_sorting_scan_right_to_left_32s_run(t, (left.0, ends), 0, t.len() as int);
            &&& right is Some
            &&& right.unwrap().0.subrange(0, t.len() as int) == sa
            &&& right.unwrap().0.len() == s.len()
            &&& forall|j: int| t.len() <= j < s.len() ==> #[trigger] right.unwrap().0[j] == s[j]
        }),
{
    let n = t.len() as int;
    lemma_left_scan(t, sa, s, k, starts, ends);
    let left = final_left_32s(t, n, (s, starts))->0;
    lemma_right_run(t, sa, left.0, k, ends, 0);
    let right = final_sorting_scan_right_to_left_32s_run(t, (left.0, ends), 0, n)->0;
    assert(right.0.subrange(0, n) =~= sa);
}

} // verus!
