//! Why placing works: the sorted leftmost suffixes of type S go to the ends of their buckets,
//! where the final scans need them.

use vstd::prelude::*;
use crate::bounds::{law_bucket_bounds_1k, law_final_order_1k};
use crate::gather::{cleared, text32};
use crate::induction::{bucket_ends, law_l_before_s, lms_in_place, symbols_below};
use crate::kinds::{is_l, is_lms};
use crate::order::{
    is_suffix_array, law_suffix_array_complete, lemma_less_irreflexive, lemma_less_transitive, lemma_rank_order,
    suffix_less,
};
use crate::orders::{bucket_ends_1k, final_order_32s_1k};
use crate::place::{place_1k_run, place_1k_step, place_lms_suffixes_interval_32s_1k_run};

verus! {

/// Whether `v` is among the entries of `s` from `lo` up to `hi`.
#[verifier::opaque]
pub open spec fn among(s: Seq<i32>, lo: int, hi: int, v: i32) -> bool {
    exists|j: int| lo <= j < hi && #[trigger] s[j] == v
}

/// Where an entry stands.
pub proof fn lemma_found(s: Seq<i32>, lo: int, hi: int, v: i32) -> (j: int)
    requires
        among(s, lo, hi, v),
    ensures
        lo <= j < hi,
        s[j] == v,
{
    reveal(among);
    choose|j: int| lo <= j < hi && #[trigger] s[j] == v
}

/// What stands in a slot is among the slots.
pub proof fn lemma_among(s: Seq<i32>, lo: int, hi: int, j: int)
    requires
        lo <= j < hi,
    ensures
        among(s, lo, hi, s[j]),
{
    reveal(among);
}

/// Whether the first `m` entries of `s` are the leftmost suffixes of type S in their order.
pub open spec fn lms_sorted(t: Seq<i32>, s: Seq<i32>, m: int) -> bool {
    let x = text32(t);
    &&& 0 <= m <= s.len()
    &&& forall|a: int| 0 <= a < m ==> is_lms(x, #[trigger] s[a] as int)
    &&& forall|a: int, b: int| 0 <= a < b < m ==> suffix_less(x, #[trigger] s[a] as int, #[trigger] s[b] as int)
    &&& forall|p: int| #[trigger] is_lms(x, p) ==> among(s, 0, m, p as i32)
}

/// The rank of the suffix at `v`.
pub proof fn lemma_ranked(t: Seq<i32>, sa: Seq<i32>, v: int) -> (r: int)
    requires
        is_suffix_array(text32(t), sa),
        0 <= v < t.len(),
    ensures
        0 <= r < sa.len(),
        sa[r] == v,
{
    law_suffix_array_complete(text32(t), sa, v);
    choose|r: int| 0 <= r < sa.len() && #[trigger] sa[r] == v
}

/// A sorted suffix stands no further back than at its rank.
proof fn lemma_rank_at_least(t: Seq<i32>, sa: Seq<i32>, s: Seq<i32>, m: int, a: int, r: int)
    requires
        is_suffix_array(text32(t), sa),
        lms_sorted(t, s, m),
        0 <= a < m,
        0 <= r < sa.len(),
        sa[r] == s[a],
    ensures
        a <= r,
    decreases a,
{
    if a > 0 {
        let x = text32(t);
        assert(is_lms(x, s[a - 1] as int));
        let q = lemma_ranked(t, sa, s[a - 1] as int);
        lemma_rank_at_least(t, sa, s, m, a - 1, q);
        assert(suffix_less(x, s[a - 1] as int, s[a] as int));
        lemma_rank_order(x, sa, q, r);
    }
}

/// Behind the rank of a suffix of type S, its bucket holds suffixes of type S.
pub proof fn lemma_behind(t: Seq<i32>, sa: Seq<i32>, k: int, ends: Seq<i32>, r: int, y: int)
    requires
        is_suffix_array(text32(t), sa),
        symbols_below(t, k),
        bucket_ends(t, sa, k, ends),
        0 <= r < sa.len(),
        !is_l(text32(t), sa[r] as int),
        r <= y < ends[t[sa[r] as int] as int],
    ensures
        y < sa.len(),
        t[sa[y] as int] == t[sa[r] as int],
        !is_l(text32(t), sa[y] as int),
{
    let x = text32(t);
    let p = sa[r] as int;
    assert(0 <= p < t.len());
    let c = t[p] as int;
    assert(0 <= t[p] < k);
    assert(y < ends[c] <= sa.len());
    let u = sa[y] as int;
    assert(0 <= u < t.len());
    assert(t[sa[y] as int] <= c);
    if r < y {
        assert(suffix_less(x, sa[r] as int, sa[y] as int));
        if is_l(x, u) {
            law_l_before_s(x, u, p);
            lemma_less_transitive(x, p, u, p);
            lemma_less_irreflexive(x, p);
        }
    }
}

/// The state of the placement when the entries from `a` on have been placed.
pub open spec fn place_state(
    t: Seq<i32>,
    sa: Seq<i32>,
    s: Seq<i32>,
    m: int,
    k: int,
    ends: Seq<i32>,
    st: (Seq<i32>, i32, usize),
    a: int,
) -> bool {
    let n = t.len() as int;
    let x = text32(t);
    let (cur, c, l) = st;
    &&& cur.len() == s.len()
    &&& 0 <= c < k
    &&& l <= ends[c as int]
    &&& forall|d: int| 0 <= d < c ==> #[trigger] ends[d] <= l
    &&& forall|b: int| 0 <= b < a ==> t[#[trigger] s[b] as int] <= c
    &&& forall|b: int, r: int| #![trigger s[b], sa[r]]
        0 <= b < a && 0 <= r < n && sa[r] == s[b] && t[s[b] as int] == c ==> r < l
    &&& forall|j: int| 0 <= j < a ==> #[trigger] cur[j] == s[j]
    &&& forall|j: int| n <= j < s.len() ==> #[trigger] cur[j] == s[j]
    &&& forall|j: int| l <= j < n && #[trigger] cur[j] != 0 ==> !is_l(x, sa[j] as int) && t[sa[j] as int] == t[cur[j] as int]
        && among(s, a, m, cur[j])
    &&& forall|i: int, j: int| l <= i < j < n && #[trigger] cur[i] != 0 && #[trigger] cur[j] != 0 ==> suffix_less(
        x,
        cur[i] as int,
        cur[j] as int,
    )
    &&& forall|b: int| a <= b < m ==> among(cur, l as int, n, #[trigger] s[b])
}

/// Everything that the placement starts from.
pub open spec fn placeable(t: Seq<i32>, sa: Seq<i32>, s: Seq<i32>, m: int, k: int, ends: Seq<i32>) -> bool {
    &&& 1 <= t.len() <= i32::MAX
    &&& t.len() <= s.len()
    &&& 1 <= k <= i32::MAX
    &&& is_suffix_array(text32(t), sa)
    &&& symbols_below(t, k)
    &&& bucket_ends(t, sa, k, ends)
    &&& lms_sorted(t, s, m)
    &&& m <= t.len()
}

/// Placing one more entry keeps the state.
#[verifier::spinoff_prover]
proof fn lemma_place_step(
    t: Seq<i32>,
    sa: Seq<i32>,
    s: Seq<i32>,
    m: int,
    k: int,
    ends: Seq<i32>,
    st: (Seq<i32>, i32, usize),
    a: int,
)
    requires
        placeable(t, sa, s, m, k, ends),
        0 <= a < m,
        place_state(t, sa, s, m, k, ends, st, a + 1),
    ensures
        place_1k_step(t, ends)(st, a) is Some,
        place_state(t, sa, s, m, k, ends, place_1k_step(t, ends)(st, a)->0, a),
{
    let n = t.len() as int;
    let x = text32(t);
    let (cur, c, l) = st;
    let p = s[a] as int;
    assert(cur[a] == p);
    assert(is_lms(x, s[a] as int));
    let q = t[p] as int;
    assert(0 <= t[p] < k);
    let r = lemma_ranked(t, sa, p);
    lemma_rank_at_least(t, sa, s, m, a, r);
    let end = if q == c {
        l as int
    } else {
        ends[q] as int
    };
    assert(t[sa[r] as int] <= q);
    assert(0 <= ends[q] <= sa.len());
    assert(r < ends[q]);
    assert(r < end <= ends[q]) by {
        assert(sa[r] == s[a]);
    }
    let y = end - 1;
    lemma_behind(t, sa, k, ends, r, y);
    assert(end <= l);
    let s1 = if q == c {
        cur
    } else {
        cleared(cur, end, l as int)
    };
    let nx = place_1k_step(t, ends)(st, a)->0;
    assert(nx.0 == s1.update(y, p as i32));
    assert(nx.1 == q && nx.2 == y);
    assert forall|d: int| 0 <= d < q implies #[trigger] ends[d] <= y by {
        assert(!(t[sa[y] as int] <= d));
    }
    assert forall|b: int| 0 <= b < a implies t[#[trigger] s[b] as int] <= q by {
        assert(suffix_less(x, s[b] as int, s[a] as int));
        assert(is_lms(x, s[b] as int));
    }
    assert forall|b: int, g: int| #![trigger s[b], sa[g]]
        0 <= b < a && 0 <= g < n && sa[g] == s[b] && t[s[b] as int] == q implies g < y by {
        assert(suffix_less(x, s[b] as int, s[a] as int));
        lemma_rank_order(x, sa, g, r);
    }
    assert forall|j: int| y <= j < n && #[trigger] nx.0[j] != 0 implies !is_l(x, sa[j] as int) && t[sa[j] as int]
        == t[nx.0[j] as int] && among(s, a, m, nx.0[j]) by {
        if j == y {
            lemma_among(s, a, m, a);
        } else {
            assert(j >= l);
            assert(nx.0[j] == cur[j]);
            let b = lemma_found(s, a + 1, m, cur[j]);
            lemma_among(s, a, m, b);
        }
    }
    assert forall|i: int, j: int| y <= i < j < n && #[trigger] nx.0[i] != 0 && #[trigger] nx.0[j] != 0 implies suffix_less(
        x,
        nx.0[i] as int,
        nx.0[j] as int,
    ) by {
        assert(j >= l);
        assert(nx.0[j] == cur[j]);
        if i == y {
            let b = lemma_found(s, a + 1, m, cur[j]);
            assert(suffix_less(x, s[a] as int, s[b] as int));
        } else {
            assert(i >= l);
            assert(nx.0[i] == cur[i]);
        }
    }
    assert forall|b: int| a <= b < m implies among(nx.0, y, n, #[trigger] s[b]) by {
        if b == a {
            lemma_among(nx.0, y, n, y);
        } else {
            let j = lemma_found(cur, l as int, n, s[b]);
            lemma_among(nx.0, y, n, j);
        }
    }
}

/// The placement runs from entry to entry.
proof fn lemma_place_run(t: Seq<i32>, sa: Seq<i32>, s: Seq<i32>, m: int, k: int, ends: Seq<i32>, a: int)
    requires
        placeable(t, sa, s, m, k, ends),
        0 <= a <= m,
    ensures
        ends[k - 1] == t.len(),
        ({
            let st = place_1k_run(t, ends, (s, (k - 1) as i32, ends[k - 1] as usize), a, m);
            st is Some && place_state(t, sa, s, m, k, ends, st->0, a)
        }),
    decreases m - a,
{
    let n = t.len() as int;
    assert(ends[k - 1] == n) by {
        assert(0 <= ends[k - 1] <= sa.len());
        assert(0 <= sa[n - 1] < n);
        assert(0 <= t[sa[n - 1] as int] < k);
        assert(t[sa[n - 1] as int] <= k - 1);
    }
    if a < m {
        lemma_place_run(t, sa, s, m, k, ends, a + 1);
        let st = place_1k_run(t, ends, (s, (k - 1) as i32, ends[k - 1] as usize), a + 1, m)->0;
        lemma_place_step(t, sa, s, m, k, ends, st, a);
    } else {
        assert forall|b: int| 0 <= b < m implies t[#[trigger] s[b] as int] <= k - 1 by {
            assert(is_lms(text32(t), s[b] as int));
            assert(0 <= t[s[b] as int] < k);
        }
    }
}

/// Placing the sorted leftmost suffixes of type S puts them where the final scans need them.
pub proof fn law_placed_lms(t: Seq<i32>, sa: Seq<i32>, s: Seq<i32>, m: int, k: int, ends: Seq<i32>)
    requires
        placeable(t, sa, s, m, k, ends),
    ensures
        place_lms_suffixes_interval_32s_1k_run(t, s, k, m, ends) is Some,
        lms_in_place(t, sa, place_lms_suffixes_interval_32s_1k_run(t, s, k, m, ends)->0),
        place_lms_suffixes_interval_32s_1k_run(t, s, k, m, ends).unwrap().len() == s.len(),
{
    let n = t.len() as int;
    let x = text32(t);
    lemma_place_run(t, sa, s, m, k, ends, 0);
    let st = place_1k_run(t, ends, (s, (k - 1) as i32, ends[k - 1] as usize), 0, m)->0;
    let r = place_lms_suffixes_interval_32s_1k_run(t, s, k, m, ends)->0;
    assert(st.2 <= n) by {
        assert(ends[st.1 as int] <= sa.len());
    }
    assert forall|j: int| 0 <= j < n && #[trigger] r[j] != 0 implies is_lms(x, r[j] as int) && !is_l(x, sa[j] as int)
        && t[sa[j] as int] == t[r[j] as int] by {
        assert(j >= st.2);
        assert(r[j] == st.0[j]);
        let b = lemma_found(s, 0, m, st.0[j]);
        assert(is_lms(x, s[b] as int));
    }
    assert forall|j: int, l: int| 0 <= j < l < n && #[trigger] r[j] != 0 && #[trigger] r[l] != 0 implies suffix_less(
        x,
        r[j] as int,
        r[l] as int,
    ) by {
        assert(r[j] == st.0[j] && r[l] == st.0[l]);
    }
    assert forall|p: int| #[trigger] is_lms(x, p) implies exists|j: int| 0 <= j < n && #[trigger] r[j] == p by {
        let a = lemma_found(s, 0, m, p as i32);
        let j = lemma_found(st.0, st.2 as int, n, s[a]);
        assert(r[j] == p);
    }
}

/// Sorted leftmost suffixes of type S are all that is needed, with one bucket for each symbol:
/// placing them and inducing the final order leaves the suffix array.
pub proof fn law_sorted_lms_suffice(t: Seq<i32>, sa: Seq<i32>, s: Seq<i32>, m: int, k: int, b: Seq<i32>)
    requires
        2 <= t.len() <= i32::MAX,
        t.len() <= s.len(),
        is_suffix_array(text32(t), sa),
        symbols_below(t, k),
        1 <= k <= b.len(),
        k <= i32::MAX,
        lms_sorted(t, s, m),
        m <= t.len(),
    ensures
        bucket_ends_1k(t, t.len() as int, k, b) is Some,
        ({
            let ends = bucket_ends_1k(t, t.len() as int, k, b)->0;
            let placed = place_lms_suffixes_interval_32s_1k_run(t, s, k, m, ends);
            &&& placed is Some
            &&& final_order_32s_1k(t, t.len() as int, k, (placed->0, ends)) is Some
            &&& final_order_32s_1k(t, t.len() as int, k, (placed->0, ends)).unwrap().0.subrange(0, t.len() as int) == sa
        }),
{
    law_bucket_bounds_1k(t, sa, k, b);
    let ends = bucket_ends_1k(t, t.len() as int, k, b)->0;
    law_placed_lms(t, sa, s, m, k, ends);
    law_final_order_1k(t, sa, place_lms_suffixes_interval_32s_1k_run(t, s, k, m, ends)->0, k, ends);
}

} // verus!
