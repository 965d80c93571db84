//! What naming leaves: equal substrings share a name, and names have the order of substrings.

use vstd::prelude::*;
use crate::fold::fold_up;
use crate::gather::text32;
use crate::induction::slot_of;
use crate::kinds::{is_l, is_lms, law_type_step};
use crate::lengths::{law_lms_few, lemma_half_taken, lemma_halves, lemma_lengths_noted, lemma_next_lms, lms_length, next_lms, noted, spare};
use crate::marks::{bit, marked, unmarked};
use crate::partial_induction::{lms_count, lms_listed, substrings_sorted};
use crate::placement::lemma_found;
use crate::reduction::lemma_equal_substrings;
use crate::renumber::{
    agreement, distinct_names, lms_lengths, mark_distinct_block_run, mark_distinct_block_step, mark_distinct_run,
    mark_distinct_step, name_distinct_run, name_distinct_step, renumber_and_mark_distinct_1k_run,
};
use crate::substrings::substring_less;

verus! {

/// What an agreement says.
proof fn lemma_agreement(t: Seq<i32>, p: int, q: int, l: int, max: int)
    requires
        0 <= p,
        0 <= q,
        0 <= l <= max,
        p + max <= t.len(),
        q + max <= t.len(),
    ensures
        agreement(t, p, q, l, max) is Some,
        ({
            let a = agreement(t, p, q, l, max)->0;
            &&& l <= a <= max
            &&& forall|i: int| p + l <= i < p + a ==> #[trigger] t[i] == t[i - p + q]
            &&& a < max ==> t[p + a] != t[q + a]
        }),
    decreases max - l,
{
    if l < max && t[p + l] == t[q + l] {
        lemma_agreement(t, p, q, l + 1, max);
        let a = agreement(t, p, q, l, max)->0;
        assert forall|i: int| p + l <= i < p + a implies #[trigger] t[i] == t[i - p + q] by {
            if i == p + l {
                assert(i - p + q == q + l);
            }
        }
    }
}

/// Equal symbols up to where both substrings end are equal substrings.
proof fn lemma_symbols_decide(x: Seq<int>, u: int, v: int, e: int, d: int)
    requires
        0 <= u,
        0 <= v,
        0 <= e < d,
        u + d < x.len(),
        v + d < x.len(),
        is_lms(x, u + d),
        is_lms(x, v + d),
        forall|q: int| u < q < u + d ==> !#[trigger] is_lms(x, q),
        forall|q: int| v < q < v + d ==> !#[trigger] is_lms(x, q),
        forall|q: int| u <= q <= u + d ==> #[trigger] x[q] == x[q - u + v],
    ensures
        is_l(x, u + e) == is_l(x, v + e),
        !substring_less(x, u + e, v + e),
        !substring_less(x, v + e, u + e),
    decreases d - e,
{
    law_type_step(x, u + e);
    law_type_step(x, v + e);
    assert(x[u + e] == x[u + e - u + v]);
    assert(x[u + e + 1] == x[u + e + 1 - u + v]);
    if e + 1 < d {
        lemma_symbols_decide(x, u, v, e + 1, d);
        assert(!is_lms(x, u + (e + 1)) && !is_lms(x, v + (e + 1)));
    }
}

/// Substrings are equal just where their lengths and their symbols are.
proof fn lemma_same_substring(t: Seq<i32>, u: int, v: int)
    requires
        is_lms(text32(t), u),
        is_lms(text32(t), v),
        u != v,
    ensures
        ({
            let x = text32(t);
            let a = agreement(t, u, v, 0, lms_length(x, v));
            &&& lms_length(x, u) == lms_length(x, v) ==> a is Some
            &&& (lms_length(x, u) != lms_length(x, v) || a->0 < lms_length(x, v)) == (substring_less(x, u, v)
                || substring_less(x, v, u))
        }),
{
    let x = text32(t);
    let n = x.len() as int;
    lemma_next_lms(x, u);
    lemma_next_lms(x, v);
    let len = lms_length(x, v);
    if lms_length(x, u) == len {
        assert(u + len <= n && v + len <= n);
        lemma_agreement(t, u, v, 0, len);
        let a = agreement(t, u, v, 0, len)->0;
        if a == len {
            let d = len - 1;
            assert(d > 0) by {
                if next_lms(x, u) >= n && next_lms(x, v) >= n {
                    if u < v {
                        assert(!is_lms(x, v));
                    } else {
                        assert(!is_lms(x, u));
                    }
                }
            }
            assert forall|q: int| u <= q <= u + d implies #[trigger] x[q] == x[q - u + v] by {
                assert(t[q] == t[q - u + v]);
            }
            lemma_symbols_decide(x, u, v, 0, d);
        }
    }
    if !substring_less(x, u, v) && !substring_less(x, v, u) {
        let d = lemma_equal_substrings(x, u, v);
        assert(next_lms(x, u) == u + d) by {
            if next_lms(x, u) > u + d {
                assert(!is_lms(x, u + d));
            }
        }
        assert(next_lms(x, v) == v + d) by {
            if next_lms(x, v) > v + d {
                assert(!is_lms(x, v + d));
            }
        }
        let a = agreement(t, u, v, 0, len)->0;
        if a < len {
            assert(x[u + a] == x[u + a - u + v]);
        }
    }
}

/// Whether the substring of the sorted suffix `b` is the first of its kind. Behind the last one
/// everything is fresh.
#[verifier::opaque]
pub open spec fn fresh(x: Seq<int>, w: Seq<i32>, m: int, b: int) -> bool {
    b <= 0 || b >= m || substring_less(x, w[b - 1] as int, w[b] as int)
}

/// The name of the sorted suffix `b`: how many different substrings there are up to it.
pub open spec fn name_at(x: Seq<int>, w: Seq<i32>, m: int, b: int) -> int
    decreases b,
{
    if b <= 0 {
        1
    } else {
        name_at(x, w, m, b - 1) + bit(fresh(x, w, m, b))
    }
}

/// Whether the name of the sorted suffix `b` stands alone. The first one counts only where `lead`
/// says so.
pub open spec fn alone_at(x: Seq<int>, w: Seq<i32>, m: int, b: int, lead: bool) -> bool {
    fresh(x, w, m, b) && fresh(x, w, m, b + 1) && (lead || b > 0)
}

/// Names are counted from one.
pub proof fn lemma_name_bound(x: Seq<int>, w: Seq<i32>, m: int, b: int)
    requires
        0 <= b,
    ensures
        1 <= name_at(x, w, m, b) <= b + 1,
    decreases b,
{
    if b > 0 {
        lemma_name_bound(x, w, m, b - 1);
    }
}

/// Everything that naming starts from.
pub open spec fn nameable(t: Seq<i32>, w: Seq<i32>, m: int) -> bool {
    &&& 1 <= t.len() <= i32::MAX
    &&& t.len() <= w.len()
    &&& 1 <= m
    &&& m == lms_count(text32(t), 0)
    &&& substrings_sorted(t, w, m)
}

/// The entry of the sorted suffix `b` where its name has been noted.
pub open spec fn name_entry(x: Seq<int>, w: Seq<i32>, m: int, b: int, lead: bool) -> i32 {
    marked(name_at(x, w, m, b) as i32, alone_at(x, w, m, b, lead))
}

/// The state of the naming in front of the sorted suffix `i`.
spec fn naming_at(t: Seq<i32>, w: Seq<i32>, m: int, s0: Seq<i32>, st: (Seq<i32>, i32, i32, i32, bool), i: int) -> bool {
    let x = text32(t);
    let n = t.len() as int;
    let (s, name, p, len, differs) = st;
    &&& s.len() == s0.len()
    &&& name == name_at(x, w, m, i - 1)
    &&& p == w[i - 1]
    &&& len == lms_length(x, w[i - 1] as int)
    &&& differs == fresh(x, w, m, i - 1)
    &&& forall|b: int| #![trigger w[b]] 0 <= b < i - 1 ==> s[m + w[b] as int / 2] == name_entry(x, w, m, b, true)
    &&& forall|b: int| #![trigger w[b]] i - 1 <= b < m ==> s[m + w[b] as int / 2] == s0[m + w[b] as int / 2]
    &&& forall|h: int| 0 <= h < n / 2 && #[trigger] spare(x, h) ==> s[m + h] == s0[m + h]
    &&& forall|j: int| 0 <= j < m ==> #[trigger] s[j] == s0[j]
    &&& forall|j: int| m + n / 2 <= j < s0.len() ==> #[trigger] s[j] == s0[j]
}

/// Different entries of a list have different slots.
pub proof fn lemma_slots_apart(t: Seq<i32>, w: Seq<i32>, m: int, b: int, c: int)
    requires
        lms_listed(t, w, m),
        0 <= b < m,
        0 <= c < m,
        b != c,
    ensures
        0 <= w[b] as int / 2,
        0 <= w[c] as int / 2,
        w[b] as int / 2 != w[c] as int / 2,
{
    let x = text32(t);
    assert(is_lms(x, w[b] as int) && is_lms(x, w[c] as int));
    if b < c {
        assert(w[b] != w[c]);
    } else {
        assert(w[c] != w[b]);
    }
    if w[b] < w[c] {
        lemma_halves(x, w[b] as int, w[c] as int);
    } else {
        lemma_halves(x, w[c] as int, w[b] as int);
    }
}

/// What naming one more suffix does.
proof fn lemma_naming_does(t: Seq<i32>, w: Seq<i32>, m: int, s0: Seq<i32>, st: (Seq<i32>, i32, i32, i32, bool), i: int)
    requires
        nameable(t, w, m),
        s0.len() == w.len(),
        forall|j: int| 0 <= j < m ==> #[trigger] s0[j] == w[j],
        noted(text32(t), m, s0, |p: int| lms_length(text32(t), p)),
        1 <= i < m,
        naming_at(t, w, m, s0, st, i),
    ensures
        ({
            let x = text32(t);
            let d = fresh(x, w, m, i);
            name_distinct_step(t, m)(st, i) == Some((
                st.0.update(m + w[i - 1] as int / 2, name_entry(x, w, m, i - 1, true)),
                name_at(x, w, m, i) as i32,
                w[i],
                lms_length(x, w[i] as int) as i32,
                d,
            ))
        }),
        0 <= w[i - 1] as int / 2 < t.len() as int / 2,
        1 <= name_at(text32(t), w, m, i) <= i32::MAX,
        1 <= lms_length(text32(t), w[i] as int) <= i32::MAX,
{
    reveal(fresh);
    let x = text32(t);
    let n = t.len() as int;
    let (s, name, p, len, differs) = st;
    let q = w[i] as int;
    law_lms_few(x);
    assert(s[i] == s0[i] && s0[i] == w[i]);
    assert(is_lms(x, w[i] as int) && is_lms(x, w[i - 1] as int));
    assert(w[i - 1] != w[i]);
    lemma_same_substring(t, p as int, q);
    lemma_next_lms(x, q);
    lemma_next_lms(x, p as int);
    assert(!substring_less(x, w[i] as int, w[i - 1] as int));
    lemma_name_bound(x, w, m, i);
    let v = |p: int| lms_length(x, p);
    assert(s0[m + q / 2] == v(q));
    assert(s[m + w[i] as int / 2] == s0[m + w[i] as int / 2]);
    assert(q / 2 < n / 2 && (p as int) / 2 < n / 2);
}

/// Naming one more suffix keeps the state.
#[verifier::spinoff_prover]
proof fn lemma_naming_step(t: Seq<i32>, w: Seq<i32>, m: int, s0: Seq<i32>, st: (Seq<i32>, i32, i32, i32, bool), i: int)
    requires
        nameable(t, w, m),
        s0.len() == w.len(),
        forall|j: int| 0 <= j < m ==> #[trigger] s0[j] == w[j],
        noted(text32(t), m, s0, |p: int| lms_length(text32(t), p)),
        1 <= i < m,
        naming_at(t, w, m, s0, st, i),
    ensures
        name_distinct_step(t, m)(st, i) is Some,
        naming_at(t, w, m, s0, name_distinct_step(t, m)(st, i)->0, i + 1),
{
    let x = text32(t);
    let n = t.len() as int;
    let s = st.0;
    let p = w[i - 1] as int;
    lemma_naming_does(t, w, m, s0, st, i);
    let nx = name_distinct_step(t, m)(st, i)->0;
    assert(is_lms(x, w[i - 1] as int));
    assert forall|b: int| #![trigger w[b]] 0 <= b < i implies nx.0[m + w[b] as int / 2] == name_entry(x, w, m, b, true) by {
        if b < i - 1 {
            lemma_slots_apart(t, w, m, b, i - 1);
            assert(s[m + w[b] as int / 2] == name_entry(x, w, m, b, true));
        }
    }
    assert forall|b: int| #![trigger w[b]] i <= b < m implies nx.0[m + w[b] as int / 2] == s0[m + w[b] as int / 2] by {
        lemma_slots_apart(t, w, m, b, i - 1);
        assert(s[m + w[b] as int / 2] == s0[m + w[b] as int / 2]);
    }
    assert forall|h: int| 0 <= h < n / 2 && #[trigger] spare(x, h) implies nx.0[m + h] == s0[m + h] by {
        lemma_half_taken(x, p);
        assert(s[m + h] == s0[m + h]);
    }
}

/// The naming runs from suffix to suffix.
proof fn lemma_naming_run(t: Seq<i32>, w: Seq<i32>, m: int, s0: Seq<i32>, i: int)
    requires
        nameable(t, w, m),
        s0.len() == w.len(),
        forall|j: int| 0 <= j < m ==> #[trigger] s0[j] == w[j],
        noted(text32(t), m, s0, |p: int| lms_length(text32(t), p)),
        1 <= i <= m,
    ensures
        ({
            let st = name_distinct_run(t, m, (s0, 1, w[0], s0[m + w[0] as int / 2], true), 1, i);
            st is Some && naming_at(t, w, m, s0, st->0, i)
        }),
    decreases i,
{
    let x = text32(t);
    if i > 1 {
        lemma_naming_run(t, w, m, s0, i - 1);
        let st = name_distinct_run(t, m, (s0, 1, w[0], s0[m + w[0] as int / 2], true), 1, i - 1)->0;
        lemma_naming_step(t, w, m, s0, st, i - 1);
    } else {
        reveal(fresh);
        let v = |p: int| lms_length(x, p);
        assert(is_lms(x, w[0] as int));
        assert(s0[m + w[0] as int / 2] == v(w[0] as int));
    }
}

/// What is noted of the suffix at `p`: its name, marked where it stands alone.
pub open spec fn name_note(x: Seq<int>, w: Seq<i32>, m: int, lead: bool) -> spec_fn(int) -> int {
    |p: int| name_entry(x, w, m, slot_of(w, m, p), lead) as int
}

/// A listed suffix stands in its slot.
pub proof fn lemma_listed_slot(t: Seq<i32>, w: Seq<i32>, m: int, p: int)
    requires
        t.len() <= i32::MAX,
        lms_listed(t, w, m),
        is_lms(text32(t), p),
    ensures
        0 <= slot_of(w, m, p) < m,
        w[slot_of(w, m, p)] == p,
{
    let b = lemma_found(w, 0, m, p as i32);
    assert(0 <= b < m && w[b] == p);
}

/// The slot of a listed entry is its own.
pub proof fn lemma_listed_entry(t: Seq<i32>, w: Seq<i32>, m: int, b: int)
    requires
        t.len() <= i32::MAX,
        lms_listed(t, w, m),
        0 <= b < m,
    ensures
        slot_of(w, m, w[b] as int) == b,
{
    assert(is_lms(text32(t), w[b] as int));
    lemma_listed_slot(t, w, m, w[b] as int);
    let c = slot_of(w, m, w[b] as int);
    if b < c {
        assert(w[b] != w[c]);
    } else if c < b {
        assert(w[c] != w[b]);
    }
}

/// Naming notes the name of each suffix and counts the names.
pub proof fn lemma_names_noted(t: Seq<i32>, w: Seq<i32>, m: int, s0: Seq<i32>)
    requires
        nameable(t, w, m),
        s0.len() == w.len(),
        forall|j: int| 0 <= j < m ==> #[trigger] s0[j] == w[j],
        noted(text32(t), m, s0, |p: int| lms_length(text32(t), p)),
    ensures
        ({
            let x = text32(t);
            let r = distinct_names(t, s0, m);
            &&& r is Some
            &&& r.unwrap().1 == name_at(x, w, m, m - 1) + 1
            &&& r.unwrap().0.len() == s0.len()
            &&& noted(x, m, r.unwrap().0, name_note(x, w, m, true))
            &&& forall|j: int| 0 <= j < m ==> #[trigger] r.unwrap().0[j] == w[j]
            &&& forall|j: int| m + t.len() as int / 2 <= j < s0.len() ==> #[trigger] r.unwrap().0[j] == s0[j]
        }),
{
    let x = text32(t);
    let n = t.len() as int;
    law_lms_few(x);
    lemma_naming_run(t, w, m, s0, m);
    assert(s0[0] == w[0]);
    assert(is_lms(x, w[0] as int) && is_lms(x, w[m - 1] as int));
    let st = name_distinct_run(t, m, (s0, 1, w[0], s0[m + w[0] as int / 2], true), 1, m)->0;
    lemma_name_bound(x, w, m, m - 1);
    assert(fresh(x, w, m, m)) by {
        reveal(fresh);
    }
    let r = st.0.update(m + st.2 as int / 2, marked(st.1, st.4));
    assert(distinct_names(t, s0, m) == Some((r, (st.1 + 1) as i32)));
    assert forall|p: int| #[trigger] is_lms(x, p) implies r[m + p / 2] == name_note(x, w, m, true)(p) by {
        lemma_listed_slot(t, w, m, p);
        let b = slot_of(w, m, p);
        assert(w[b] == p);
        if b < m - 1 {
            lemma_slots_apart(t, w, m, b, m - 1);
            assert(st.0[m + w[b] as int / 2] == name_entry(x, w, m, b, true));
        }
    }
    assert forall|h: int| 0 <= h < n / 2 && #[trigger] spare(x, h) implies r[m + h] == 0 by {
        lemma_half_taken(x, w[m - 1] as int);
        assert(st.0[m + h] == s0[m + h]);
    }
}

/// The last entry in front of slot `m + h` that is not zero, or zero.
spec fn prior(s: Seq<i32>, m: int, h: int) -> i32
    decreases h,
{
    if h <= 0 {
        0
    } else if s[m + h - 1] != 0 {
        s[m + h - 1]
    } else {
        prior(s, m, h - 1)
    }
}

/// What is left of the entry of slot `m + h`.
spec fn left_of(s: Seq<i32>, m: int, h: int) -> i32 {
    if prior(s, m, h) < 0 {
        s[m + h]
    } else {
        unmarked(s[m + h])
    }
}

/// The pass over the names runs from slot to slot.
proof fn lemma_mark_run(s: Seq<i32>, m: int, h: int)
    requires
        0 <= m,
        0 <= h,
        m + h <= s.len(),
    ensures
        ({
            let y = mark_distinct_run((s, 0), m, m + h);
            &&& y is Some
            &&& y.unwrap().1 == prior(s, m, h)
            &&& y.unwrap().0.len() == s.len()
            &&& forall|e: int| #![trigger left_of(s, m, e)] 0 <= e < h ==> y.unwrap().0[m + e] == left_of(s, m, e)
            &&& forall|j: int| 0 <= j < m || m + h <= j < s.len() ==> #[trigger] y.unwrap().0[j] == s[j]
        }),
    decreases h,
{
    if h > 0 {
        lemma_mark_run(s, m, h - 1);
        let y = mark_distinct_run((s, 0), m, m + h - 1)->0;
        let z = mark_distinct_run((s, 0), m, m + h)->0;
        assert(y.0[m + h - 1] == s[m + h - 1]);
        assert(z == mark_distinct_step()(y, m + h - 1)->0);
        assert(z.0 == y.0.update(m + h - 1, left_of(s, m, h - 1)));
        assert forall|e: int| #![trigger left_of(s, m, e)] 0 <= e < h implies z.0[m + e] == left_of(s, m, e) by {
            if e < h - 1 {
                assert(z.0[m + e] == y.0[m + e]);
            }
        }
    }
}

/// Between neighbours nothing is noted.
proof fn lemma_prior(x: Seq<int>, m: int, s: Seq<i32>, v: spec_fn(int) -> int, q: int, p: int, h: int)
    requires
        noted(x, m, s, v),
        -1 <= q < p < x.len(),
        forall|e: int| q < e < p ==> !#[trigger] is_lms(x, e),
        q == -1 || (is_lms(x, q) && v(q) != 0),
        (if q == -1 { 0 } else { q / 2 + 1 }) <= h <= p / 2,
    ensures
        prior(s, m, h) == (if q == -1 { 0 } else { v(q) }),
    decreases h,
{
    if q >= 0 && h == q / 2 + 1 {
        assert(s[m + q / 2] == v(q));
        assert(m + h - 1 == m + q / 2);
    } else if h > 0 {
        assert(spare(x, h - 1)) by {
            reveal(spare);
        }
        assert(s[m + (h - 1)] == 0);
        lemma_prior(x, m, s, v, q, p, h - 1);
    }
}

/// Whether the name of the suffix at `p` stands alone.
pub open spec fn alone(x: Seq<int>, w: Seq<i32>, m: int, p: int, lead: bool) -> bool {
    alone_at(x, w, m, slot_of(w, m, p), lead)
}

/// Whether the suffix at `p` need not be sorted again: its name stands alone, and so does the
/// name in front of it.
pub open spec fn settled(x: Seq<int>, w: Seq<i32>, m: int, p: int, lead: bool) -> bool {
    alone(x, w, m, p, lead) && exists|q: int| is_lms(x, q) && #[trigger] next_lms(x, q) == p && alone(x, w, m, q, lead)
}

/// What is noted of the suffix at `p` in the end: its name, marked where it need not be sorted
/// again.
pub open spec fn mark_note(x: Seq<int>, w: Seq<i32>, m: int, lead: bool) -> spec_fn(int) -> int {
    |p: int| marked(name_at(x, w, m, slot_of(w, m, p)) as i32, settled(x, w, m, p, lead)) as int
}

/// The leftmost suffix of type S in front of `p`, or minus one.
proof fn lemma_prev_lms(x: Seq<int>, p: int, e: int) -> (q: int)
    requires
        is_lms(x, p),
        -1 <= e < p,
        forall|i: int| e < i < p ==> !#[trigger] is_lms(x, i),
    ensures
        -1 <= q < p,
        forall|i: int| q < i < p ==> !#[trigger] is_lms(x, i),
        q == -1 || (is_lms(x, q) && next_lms(x, q) == p),
    decreases e + 1,
{
    if e < 0 {
        -1
    } else if is_lms(x, e) {
        lemma_next_lms(x, e);
        if next_lms(x, e) > p {
            assert(!is_lms(x, p));
        }
        e
    } else {
        lemma_prev_lms(x, p, e - 1)
    }
}

/// A suffix need not be sorted again just where the one in front of it has a name that stands
/// alone too.
proof fn lemma_settled(x: Seq<int>, w: Seq<i32>, m: int, q: int, p: int, lead: bool)
    requires
        is_lms(x, p),
        -1 <= q < p,
        forall|i: int| q < i < p ==> !#[trigger] is_lms(x, i),
        q == -1 || (is_lms(x, q) && next_lms(x, q) == p),
    ensures
        settled(x, w, m, p, lead) == (alone(x, w, m, p, lead) && q >= 0 && alone(x, w, m, q, lead)),
{
    if settled(x, w, m, p, lead) {
        let e = choose|e: int| is_lms(x, e) && #[trigger] next_lms(x, e) == p && alone(x, w, m, e, lead);
        lemma_next_lms(x, e);
        if q < e {
            assert(!is_lms(x, e));
        }
        if e < q {
            assert(!is_lms(x, q));
        }
    }
}

/// What is left of the entry of a suffix.
proof fn lemma_mark_of(t: Seq<i32>, w: Seq<i32>, m: int, s: Seq<i32>, p: int, lead: bool)
    requires
        nameable(t, w, m),
        noted(text32(t), m, s, name_note(text32(t), w, m, lead)),
        is_lms(text32(t), p),
    ensures
        left_of(s, m, p / 2) == mark_note(text32(t), w, m, lead)(p),
{
    let x = text32(t);
    let v = name_note(x, w, m, lead);
    law_lms_few(x);
    lemma_half_taken(x, p);
    lemma_listed_slot(t, w, m, p);
    lemma_name_bound(x, w, m, slot_of(w, m, p));
    assert(s[m + p / 2] == v(p));
    let q = lemma_prev_lms(x, p, p - 1);
    if q >= 0 {
        lemma_listed_slot(t, w, m, q);
        lemma_name_bound(x, w, m, slot_of(w, m, q));
        lemma_halves(x, q, p);
    }
    lemma_prior(x, m, s, v, q, p, p / 2);
    lemma_settled(x, w, m, q, p, lead);
}

/// The pass over the names leaves the marks of the suffixes that need not be sorted again.
pub proof fn lemma_marks_noted(t: Seq<i32>, w: Seq<i32>, m: int, s: Seq<i32>, lead: bool)
    requires
        nameable(t, w, m),
        noted(text32(t), m, s, name_note(text32(t), w, m, lead)),
    ensures
        ({
            let x = text32(t);
            let h = t.len() as int / 2;
            let y = mark_distinct_run((s, 0), m, m + h);
            &&& y is Some
            &&& y.unwrap().0.len() == s.len()
            &&& noted(x, m, y.unwrap().0, mark_note(x, w, m, lead))
            &&& forall|j: int| 0 <= j < m || m + h <= j < s.len() ==> #[trigger] y.unwrap().0[j] == s[j]
        }),
{
    let x = text32(t);
    let n = t.len() as int;
    lemma_mark_run(s, m, n / 2);
    let y = mark_distinct_run((s, 0), m, m + n / 2).unwrap().0;
    assert forall|p: int| #[trigger] is_lms(x, p) implies y[m + p / 2] == mark_note(x, w, m, lead)(p) by {
        lemma_half_taken(x, p);
        lemma_mark_of(t, w, m, s, p, lead);
        assert(y[m + p / 2] == left_of(s, m, p / 2));
    }
    assert forall|h: int| 0 <= h < n / 2 && #[trigger] spare(x, h) implies y[m + h] == 0 by {
        assert(s[m + h] == 0);
        assert(y[m + h] == left_of(s, m, h));
    }
}

/// Naming gives equal substrings the same name, by their order, and marks the suffixes that need
/// not be sorted again where some name is shared.
pub proof fn law_names(t: Seq<i32>, w: Seq<i32>, m: int)
    requires
        nameable(t, w, m),
    ensures
        ({
            let x = text32(t);
            let r = renumber_and_mark_distinct_1k_run(t, w, t.len() as int, m, 1);
            &&& r is Some
            &&& r.unwrap().1 == name_at(x, w, m, m - 1)
            &&& r.unwrap().0.len() == w.len()
            &&& r.unwrap().1 < m ==> noted(x, m, r.unwrap().0, mark_note(x, w, m, true))
            &&& forall|j: int| 0 <= j < m ==> #[trigger] r.unwrap().0[j] == w[j]
            &&& forall|j: int| t.len() <= j < w.len() ==> #[trigger] r.unwrap().0[j] == w[j]
        }),
{
    let x = text32(t);
    let n = t.len() as int;
    law_lms_few(x);
    lemma_lengths_noted(t, w);
    let s0 = lms_lengths(t, w, n, m)->0;
    lemma_names_noted(t, w, m, s0);
    let s1 = distinct_names(t, s0, m)->0;
    lemma_marks_noted(t, w, m, s1.0, true);
    reveal_with_fuel(fold_up, 2);
    assert(mark_distinct_block_run(m, n / 2, 1, s1.0, 0, 1) == mark_distinct_block_step(m, n / 2, 1)(s1.0, 0));
}

} // verus!
