//! Why naming works: the leftmost suffixes of type S have the order of the suffixes of the
//! reduced text, which names their substrings.

use vstd::prelude::*;
use crate::gather::text32;
use crate::kinds::{is_l, is_lms, lists_lms};
use crate::order::{
    is_suffix_array, law_suffix_array_complete, lemma_less_irreflexive, lemma_less_transitive,
    suffix_less,
};
use crate::placement::{among, lemma_among, lms_sorted};
use crate::substrings::{law_substrings_decide, substring_less};
use crate::ties::stop_symbol;

verus! {

/// Whether `r` names the substrings at the positions that `p` lists: names that differ have the
/// order of the substrings, and where different substrings share a name, the symbols at their
/// ends have their order.
pub open spec fn names_substrings(x: Seq<int>, p: Seq<i32>, r: Seq<int>) -> bool {
    &&& p.len() == r.len()
    &&& forall|a: int, b: int| #![trigger p[a], p[b]]
        0 <= a < r.len() && 0 <= b < r.len() && r[a] < r[b] ==> substring_less(x, p[a] as int, p[b] as int)
    &&& forall|a: int, b: int| #![trigger p[a], p[b]]
        0 <= a < r.len() && 0 <= b < r.len() && r[a] == r[b] ==> x[p[a] as int] == x[p[b] as int] && (substring_less(
            x,
            p[a] as int,
            p[b] as int,
        ) ==> stop_symbol(x, p[a] + 1) < stop_symbol(x, p[b] + 1))
}

/// What ends a substring is the next leftmost suffix of type S.
proof fn lemma_stop_listed(x: Seq<int>, p: Seq<i32>, a: int)
    requires
        x.len() <= i32::MAX,
        lists_lms(x, p, 0, x.len() as int, 0, p.len() as int),
        0 <= a < p.len(),
    ensures
        stop_symbol(x, p[a] + 1) == (if a + 1 < p.len() {
            x[p[a + 1] as int]
        } else {
            -1
        }),
{
    let e = if a + 1 < p.len() {
        p[a + 1] as int
    } else {
        x.len() as int
    };
    assert(0 <= p[a] < x.len());
    if a + 1 < p.len() {
        assert(p[a] < p[a + 1]);
        assert(is_lms(x, p[a + 1] as int));
    }
    assert forall|q: int| p[a] < q < e implies !#[trigger] is_lms(x, q) by {
        if is_lms(x, q) {
            let b = choose|b: int| 0 <= b < p.len() && #[trigger] p[b] == q;
            if b < a {
                assert(p[b] < p[a]);
            } else if a + 1 < b {
                assert(p[a + 1] < p[b]);
            }
        }
    }
    lemma_stop_at(x, p[a] + 1, e);
}

/// A chain ends at the first leftmost suffix of type S.
proof fn lemma_stop_at(x: Seq<int>, u: int, e: int)
    requires
        0 <= u <= e <= x.len(),
        e < x.len() ==> is_lms(x, e),
        forall|q: int| u <= q < e ==> !#[trigger] is_lms(x, q),
    ensures
        stop_symbol(x, u) == (if e < x.len() {
            x[e]
        } else {
            -1
        }),
    decreases e - u,
{
    if u < e {
        lemma_stop_at(x, u + 1, e);
        assert(!is_lms(x, u));
    }
}

/// Where a name is shared by different substrings, the next names decide.
proof fn lemma_shared_name(x: Seq<int>, p: Seq<i32>, r: Seq<int>, a: int, b: int)
    requires
        x.len() <= i32::MAX,
        forall|i: int| 0 <= i < x.len() ==> 0 <= #[trigger] x[i],
        lists_lms(x, p, 0, x.len() as int, 0, p.len() as int),
        names_substrings(x, p, r),
        0 <= a < r.len(),
        0 <= b < r.len(),
        r[a] == r[b],
        substring_less(x, p[a] as int, p[b] as int),
    ensures
        suffix_less(r, a, b),
        !suffix_less(r, b, a),
{
    assert(stop_symbol(x, p[a] + 1) < stop_symbol(x, p[b] + 1));
    lemma_stop_listed(x, p, a);
    lemma_stop_listed(x, p, b);
    if a + 1 < p.len() {
        assert(is_lms(x, p[a + 1] as int));
        assert(0 <= x[p[a + 1] as int]);
    }
    assert(b + 1 < p.len());
    if a + 1 < p.len() {
        let u = p[a + 1] as int;
        let v = p[b + 1] as int;
        assert(is_lms(x, p[b + 1] as int));
        assert(substring_less(x, u, v));
        if r[b + 1] < r[a + 1] {
            assert(substring_less(x, p[b + 1] as int, p[a + 1] as int));
        }
        assert(r[a + 1] < r[b + 1]) by {
            if r[a + 1] == r[b + 1] {
                assert(x[p[a + 1] as int] == x[p[b + 1] as int]);
            }
        }
        assert(suffix_less(r, a + 1, b + 1));
        assert(!suffix_less(r, b + 1, a + 1));
    } else {
        assert(suffix_less(r, a + 1, b + 1));
        assert(!suffix_less(r, b + 1, a + 1));
    }
}

/// Equal substrings reach their ends together, and what stands behind them decides.
pub proof fn lemma_equal_substrings(x: Seq<int>, u: int, v: int) -> (d: int)
    requires
        0 <= u < x.len(),
        0 <= v < x.len(),
        u != v,
        !substring_less(x, u, v),
        !substring_less(x, v, u),
    ensures
        0 < d,
        is_lms(x, u + d),
        is_lms(x, v + d),
        forall|q: int| u < q < u + d ==> !#[trigger] is_lms(x, q),
        forall|q: int| v < q < v + d ==> !#[trigger] is_lms(x, q),
        forall|q: int| u <= q <= u + d ==> #[trigger] x[q] == x[q - u + v],
        suffix_less(x, u, v) == suffix_less(x, u + d, v + d),
    decreases x.len() - u,
{
    assert(x[u] == x[v]);
    assert(is_l(x, u) == is_l(x, v));
    if is_lms(x, u + 1) && is_lms(x, v + 1) {
        1
    } else {
        assert(!substring_less(x, u + 1, v + 1) && !substring_less(x, v + 1, u + 1));
        let d = lemma_equal_substrings(x, u + 1, v + 1);
        assert(is_l(x, u + 1) == is_l(x, v + 1));
        assert(is_lms(x, u + 1) == is_lms(x, v + 1));
        d + 1
    }
}

/// The next entry of a list of the leftmost suffixes of type S.
proof fn lemma_next_listed(x: Seq<int>, p: Seq<i32>, a: int, d: int)
    requires
        x.len() <= i32::MAX,
        lists_lms(x, p, 0, x.len() as int, 0, p.len() as int),
        0 <= a < p.len(),
        0 < d,
        is_lms(x, p[a] + d),
        forall|q: int| p[a] < q < p[a] + d ==> !#[trigger] is_lms(x, q),
    ensures
        a + 1 < p.len(),
        p[a + 1] == p[a] + d,
{
    let b = choose|b: int| 0 <= b < p.len() && #[trigger] p[b] == p[a] + d;
    if b <= a {
        if b < a {
            assert(p[b] < p[a]);
        }
    } else if b > a + 1 {
        assert(p[a] < p[a + 1] && p[a + 1] < p[b]);
        assert(is_lms(x, p[a + 1] as int));
    }
}

/// The reduced text has the order of the leftmost suffixes of type S: one of its suffixes comes
/// before another just where the suffixes of the text that they stand for do.
pub proof fn law_reduced_order(x: Seq<int>, p: Seq<i32>, r: Seq<int>, a: int, b: int)
    requires
        x.len() <= i32::MAX,
        lists_lms(x, p, 0, x.len() as int, 0, p.len() as int),
        forall|i: int| 0 <= i < x.len() ==> 0 <= #[trigger] x[i],
        names_substrings(x, p, r),
        0 <= a < r.len(),
        0 <= b < r.len(),
    ensures
        suffix_less(r, a, b) == suffix_less(x, p[a] as int, p[b] as int),
    decreases r.len() - a,
{
    let u = p[a] as int;
    let v = p[b] as int;
    assert(0 <= p[a] < x.len() && 0 <= p[b] < x.len());
    if a == b {
        lemma_less_irreflexive(r, a);
        lemma_less_irreflexive(x, u);
    } else if r[a] < r[b] {
        assert(substring_less(x, p[a] as int, p[b] as int));
        law_substrings_decide(x, u, v);
    } else if r[b] < r[a] {
        assert(substring_less(x, p[b] as int, p[a] as int));
        law_substrings_decide(x, v, u);
        if suffix_less(x, u, v) {
            lemma_less_transitive(x, u, v, u);
            lemma_less_irreflexive(x, u);
        }
    } else {
        assert(u != v) by {
            if a < b {
                assert(p[a] < p[b]);
            } else {
                assert(p[b] < p[a]);
            }
        }
        if substring_less(x, u, v) {
            lemma_shared_name(x, p, r, a, b);
            law_substrings_decide(x, u, v);
        } else if substring_less(x, v, u) {
            lemma_shared_name(x, p, r, b, a);
            law_substrings_decide(x, v, u);
            if suffix_less(x, u, v) {
                lemma_less_transitive(x, u, v, u);
                lemma_less_irreflexive(x, u);
            }
        } else {
            let d = lemma_equal_substrings(x, u, v);
            lemma_next_listed(x, p, a, d);
            lemma_next_listed(x, p, b, d);
            law_reduced_order(x, p, r, a + 1, b + 1);
        }
    }
}

/// Sorting the reduced text sorts the leftmost suffixes of type S.
pub proof fn law_reduced_text_sorts(t: Seq<i32>, p: Seq<i32>, r: Seq<int>, s: Seq<i32>, w: Seq<i32>)
    requires
        t.len() <= i32::MAX,
        lists_lms(text32(t), p, 0, t.len() as int, 0, p.len() as int),
        forall|i: int| 0 <= i < t.len() ==> 0 <= #[trigger] t[i],
        names_substrings(text32(t), p, r),
        is_suffix_array(r, s),
        s.len() <= w.len(),
        forall|i: int| 0 <= i < s.len() ==> #[trigger] w[i] == p[s[i] as int],
    ensures
        lms_sorted(t, w, s.len() as int),
{
    let x = text32(t);
    let m = s.len() as int;
    assert forall|i: int| 0 <= i < x.len() implies 0 <= #[trigger] x[i] by {
        assert(0 <= t[i]);
    }
    assert forall|i: int| 0 <= i < m implies is_lms(x, #[trigger] w[i] as int) by {
        assert(0 <= s[i] < r.len());
        assert(is_lms(x, p[s[i] as int] as int));
    }
    assert forall|i: int, j: int| 0 <= i < j < m implies suffix_less(x, #[trigger] w[i] as int, #[trigger] w[j] as int) by {
        assert(suffix_less(r, s[i] as int, s[j] as int));
        assert(0 <= s[i] < r.len() && 0 <= s[j] < r.len());
        law_reduced_order(x, p, r, s[i] as int, s[j] as int);
    }
    assert forall|q: int| #[trigger] is_lms(x, q) implies among(w, 0, m, q as i32) by {
        let a = choose|a: int| 0 <= a < p.len() && #[trigger] p[a] == q;
        law_suffix_array_complete(r, s, a);
        let i = choose|i: int| 0 <= i < s.len() && #[trigger] s[i] == a;
        assert(w[i] == q);
        lemma_among(w, 0, m, i);
    }
}

} // verus!
