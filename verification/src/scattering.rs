//! Why the partial order sorts substrings, with one bucket for each symbol: sorting the
//! leftmost suffixes of type S by their first symbol puts them where the partial scans need
//! them.

use vstd::prelude::*;
use crate::bounds::law_bucket_bounds_1k;
use crate::gather::text32;
use crate::induction::{bucket_ends, bucket_starts, lms_in_place, slot_of, symbols_below};
use crate::kinds::{is_l, is_lms, law_last_type, law_type_step};
use crate::laws::law_suffix_array_exists;
use crate::marks::bit;
use crate::order::{is_suffix_array, suffix_less};
use crate::orders::{bucket_ends_1k, bucket_starts_1k, partial_order_32s_1k};
use crate::partial_induction::{
    arranged, first_lms, later_lms, lemma_packed, lemma_scans_induce, lms_count, scattered, standing, substrings_sorted,
};
use crate::placement::{among, lemma_among, lemma_behind, lemma_found, lemma_ranked};
use crate::radix::{radix_1k_run, radix_1k_step, radix_sort_lms_suffixes_32s_1k_run};
use crate::substrings::{
    lemma_induced_by_type, lemma_induced_exists, lemma_sorted_by_type, lemma_types_agree, slots_differ,
};

verus! {

/// Where more suffixes of type S start with `c` than fit behind slot `y`, that slot is theirs.
pub proof fn lemma_room(
    t: Seq<i32>,
    sa: Seq<i32>,
    k: int,
    ends: Seq<i32>,
    c: int,
    y: int,
    e: spec_fn(int) -> int,
)
    requires
        is_suffix_array(text32(t), sa),
        symbols_below(t, k),
        bucket_ends(t, sa, k, ends),
        0 <= c < k,
        -1 <= y < ends[c],
        forall|j: int| y <= j < ends[c] ==> 0 <= #[trigger] e(j) < t.len() && !is_l(text32(t), e(j)) && t[e(j)] == c,
        forall|j: int, l: int| y <= j < l < ends[c] ==> #[trigger] e(j) != #[trigger] e(l),
    ensures
        0 <= y < sa.len(),
        !is_l(text32(t), sa[y] as int),
        t[sa[y] as int] == c,
{
    let n = t.len() as int;
    let x = text32(t);
    let end = ends[c] as int;
    if !(y >= 0 && !is_l(x, sa[y] as int) && t[sa[y] as int] == c) {
        let g = |j: int| slot_of(sa, n, e(j));
        let from = vstd::set_lib::set_int_range(y, end);
        let to = vstd::set_lib::set_int_range(y + 1, end);
        vstd::set_lib::lemma_int_range(y, end);
        vstd::set_lib::lemma_int_range(y + 1, end);
        assert forall|j: int| y <= j < end implies y < #[trigger] g(j) < end && sa[g(j)] == e(j) by {
            let r = lemma_ranked(t, sa, e(j));
            assert(0 <= r < n && sa[r] == e(j));
            let w = g(j);
            assert(0 <= w < n && sa[w] == e(j));
            assert(t[sa[w] as int] <= c);
            if w <= y {
                lemma_behind(t, sa, k, ends, w, y);
            }
        }
        assert(vstd::relations::injective_on(g, from)) by {
            assert forall|j: int, l: int| from.contains(j) && from.contains(l) && #[trigger] g(j) == #[trigger] g(l) implies j
                == l by {
                assert(e(j) == e(l));
            }
        }
        vstd::set_lib::lemma_map_size(from, from.map(g), g);
        assert(from.map(g).subset_of(to));
        vstd::set_lib::lemma_len_subset(from.map(g), to);
    }
}

/// The state of the sorting by first symbols when the suffixes behind `i` have been sorted.
pub open spec fn radix_at(
    t: Seq<i32>,
    sa: Seq<i32>,
    z: Seq<i32>,
    k: int,
    ends: Seq<i32>,
    st: (Seq<i32>, Seq<i32>, i32, bool, i32),
    i: int,
) -> bool {
    let n = t.len() as int;
    let x = text32(t);
    let (cur, b, m, g, last) = st;
    &&& cur.len() == z.len()
    &&& b.len() == ends.len()
    &&& g == is_l(x, i)
    &&& m == lms_count(x, i + 1)
    &&& 0 <= m <= n - i
    &&& forall|c: int| 0 <= c < k ==> 0 <= #[trigger] b[c] <= ends[c]
    &&& forall|c: int, j: int| #![trigger b[c], cur[j]]
        0 <= c < k && b[c] <= j < ends[c] ==> is_lms(x, cur[j] as int) && cur[j] > i && t[cur[j] as int] == c
    &&& forall|c: int, j: int| #![trigger b[c], sa[j]]
        0 <= c < k && b[c] <= j < ends[c] ==> !is_l(x, sa[j] as int) && t[sa[j] as int] == c
    &&& forall|c: int, j: int, l: int| #![trigger b[c], cur[j], cur[l]]
        0 <= c < k && b[c] <= j < l < ends[c] ==> cur[j] < cur[l]
    &&& forall|j: int| 0 <= j < n && #[trigger] cur[j] != 0 ==> is_lms(x, cur[j] as int) && b[t[cur[j] as int] as int] <= j
        < ends[t[cur[j] as int] as int]
    &&& forall|p: int| p > i && #[trigger] is_lms(x, p) ==> among(cur, 0, n, p as i32)
    &&& m > 0 ==> 0 <= last < k && b[last as int] < ends[last as int] && forall|p: int| p > i && #[trigger] is_lms(x, p)
        ==> cur[b[last as int] as int] <= p
}

/// Everything that the sorting by first symbols starts from.
pub open spec fn sortable(t: Seq<i32>, sa: Seq<i32>, z: Seq<i32>, k: int, ends: Seq<i32>) -> bool {
    &&& 2 <= t.len() <= i32::MAX
    &&& z.len() >= t.len()
    &&& forall|j: int| 0 <= j < t.len() ==> #[trigger] z[j] == 0
    &&& is_suffix_array(text32(t), sa)
    &&& symbols_below(t, k)
    &&& bucket_ends(t, sa, k, ends)
}

/// Sorting one more suffix keeps the state.
#[verifier::spinoff_prover]
proof fn lemma_radix_visit(
    t: Seq<i32>,
    sa: Seq<i32>,
    z: Seq<i32>,
    k: int,
    ends: Seq<i32>,
    st: (Seq<i32>, Seq<i32>, i32, bool, i32),
    i: int,
)
    requires
        sortable(t, sa, z, k, ends),
        0 <= i < t.len() - 1,
        radix_at(t, sa, z, k, ends, st, i + 1),
    ensures
        radix_1k_step(t)(st, i) is Some,
        radix_at(t, sa, z, k, ends, radix_1k_step(t)(st, i)->0, i),
{
    let n = t.len() as int;
    let x = text32(t);
    let (cur, b, m, g, last) = st;
    law_type_step(x, i);
    let p = i + 1;
    let c = t[p] as int;
    assert(0 <= t[p] < k);
    assert((t[i] > c - bit(g)) == is_l(x, i));
    let nx = radix_1k_step(t)(st, i)->0;
    if is_lms(x, p) {
        let y = b[c] - 1;
        let e = |j: int|
            if j == y {
                p
            } else {
                cur[j] as int
            };
        assert forall|j: int| y <= j < ends[c] implies 0 <= #[trigger] e(j) < n && !is_l(x, e(j)) && t[e(j)] == c by {
            if j > y {
                assert(b[c] <= j);
                assert(is_lms(x, cur[j] as int));
            }
        }
        assert forall|j: int, l: int| y <= j < l < ends[c] implies #[trigger] e(j) != #[trigger] e(l) by {
            assert(b[c] <= l);
            assert(cur[l] > p);
            if j > y {
                assert(cur[j] < cur[l]);
            }
        }
        assert(0 <= b[c] <= ends[c]);
        lemma_some_end(t, sa, k, ends, p);
        lemma_room(t, sa, k, ends, c, y, e);
        assert(nx.0 == cur.update(y, p as i32));
        assert(nx.1 == b.update(c, y as i32));
        assert forall|d: int, j: int| #![trigger nx.1[d], nx.0[j]]
            0 <= d < k && nx.1[d] <= j < ends[d] implies is_lms(x, nx.0[j] as int) && nx.0[j] > i && t[nx.0[j] as int] == d
            by {
            if j != y {
                assert(b[d] <= j);
                assert(nx.0[j] == cur[j]);
            } else if d != c {
                assert(b[d] <= j);
                assert(t[sa[j] as int] == d);
            }
        }
        assert forall|d: int, j: int| #![trigger nx.1[d], sa[j]] 0 <= d < k && nx.1[d] <= j < ends[d] implies !is_l(
            x,
            sa[j] as int,
        ) && t[sa[j] as int] == d by {
            if d != c || j != y {
                assert(b[d] <= j);
            }
        }
        assert forall|d: int, j: int, l: int| #![trigger nx.1[d], nx.0[j], nx.0[l]]
            0 <= d < k && nx.1[d] <= j < l < ends[d] implies nx.0[j] < nx.0[l] by {
            if d != c {
                assert(b[d] <= j && b[d] <= l);
                if j == y || l == y {
                    assert(t[sa[y] as int] == d);
                }
                assert(cur[j] < cur[l]);
            } else {
                assert(b[d] <= l);
                assert(cur[l] > p);
                if j != y {
                    assert(cur[j] < cur[l]);
                }
            }
        }
        assert forall|j: int| 0 <= j < n && #[trigger] nx.0[j] != 0 implies is_lms(x, nx.0[j] as int)
            && nx.1[t[nx.0[j] as int] as int] <= j < ends[t[nx.0[j] as int] as int] by {
            if j != y {
                assert(nx.0[j] == cur[j]);
            }
        }
        assert(cur[y] == 0) by {
            if cur[y] != 0 {
                let d = t[cur[y] as int] as int;
                assert(0 <= t[cur[y] as int] < k);
                assert(b[d] <= y < ends[d]);
                assert(t[sa[y] as int] == d);
            }
        }
        assert forall|q: int| q > i && #[trigger] is_lms(x, q) implies among(nx.0, 0, n, q as i32) by {
            if q == p {
                lemma_among(nx.0, 0, n, y);
            } else {
                let j = lemma_found(cur, 0, n, q as i32);
                assert(nx.0[j] == cur[j]);
                lemma_among(nx.0, 0, n, j);
            }
        }
    } else {
        assert(nx == (cur, b, m, is_l(x, i), last));
    }
}

/// The bucket of a suffix is not empty.
proof fn lemma_some_end(t: Seq<i32>, sa: Seq<i32>, k: int, ends: Seq<i32>, p: int)
    requires
        is_suffix_array(text32(t), sa),
        symbols_below(t, k),
        bucket_ends(t, sa, k, ends),
        0 <= p < t.len(),
    ensures
        0 < ends[t[p] as int],
{
    let r = lemma_ranked(t, sa, p);
    assert(0 <= t[p] < k);
    assert(t[sa[r] as int] <= t[p]);
}

/// The sorting by first symbols runs from suffix to suffix.
proof fn lemma_radix_visits(t: Seq<i32>, sa: Seq<i32>, z: Seq<i32>, k: int, ends: Seq<i32>, i: int)
    requires
        sortable(t, sa, z, k, ends),
        0 <= i < t.len(),
    ensures
        ({
            let st = radix_1k_run(t, (z, ends, 0, true, 0), i, t.len() - 1);
            st is Some && radix_at(t, sa, z, k, ends, st->0, i)
        }),
    decreases t.len() - i,
{
    if i < t.len() - 1 {
        lemma_radix_visits(t, sa, z, k, ends, i + 1);
        let st = radix_1k_run(t, (z, ends, 0, true, 0), i + 1, t.len() - 1)->0;
        lemma_radix_visit(t, sa, z, k, ends, st, i);
    } else {
        law_last_type(text32(t));
    }
}

/// No suffix is sorted twice.
proof fn lemma_radix_distinct(
    t: Seq<i32>,
    sa: Seq<i32>,
    z: Seq<i32>,
    k: int,
    ends: Seq<i32>,
    st: (Seq<i32>, Seq<i32>, i32, bool, i32),
    i: int,
    j: int,
    l: int,
)
    requires
        symbols_below(t, k),
        radix_at(t, sa, z, k, ends, st, i),
        0 <= j < l < t.len(),
        st.0[j] != 0,
        st.0[l] != 0,
    ensures
        st.0[j] != st.0[l],
{
    let (cur, b, m, g, last) = st;
    let c = t[cur[j] as int] as int;
    assert(is_lms(text32(t), cur[j] as int));
    assert(0 <= t[cur[j] as int] < k);
    if cur[j] == cur[l] {
        assert(b[c] <= j < ends[c] && b[c] <= l < ends[c]);
        assert(cur[j] < cur[l]);
    }
}

/// Sorting by first symbols scatters the leftmost suffixes of type S over their buckets, where
/// there are several of them: each stands in the part of its bucket that belongs to suffixes of
/// type S, and the first of them is left out.
proof fn lemma_radix_scatters(t: Seq<i32>, sa: Seq<i32>, z: Seq<i32>, k: int, ends: Seq<i32>) -> (f: int)
    requires
        sortable(t, sa, z, k, ends),
    ensures
        radix_sort_lms_suffixes_32s_1k_run(t, z, t.len() as int, ends) is Some,
        ({
            let (s, b, m) = radix_sort_lms_suffixes_32s_1k_run(t, z, t.len() as int, ends)->0;
            &&& s.len() == z.len()
            &&& b.len() == ends.len()
            &&& m == lms_count(text32(t), 0)
            &&& m > 1 ==> first_lms(text32(t), f) && scattered(t, f, s, sa)
        }),
{
    let n = t.len() as int;
    let x = text32(t);
    lemma_radix_visits(t, sa, z, k, ends, 0);
    let st = radix_1k_run(t, (z, ends, 0, true, 0), 0, n - 1)->0;
    let (cur, b, m, g, last) = st;
    assert(lms_count(x, 0) == lms_count(x, 1));
    let w = b[last as int] as int;
    let f = cur[w] as int;
    if m > 1 {
        assert(0 <= b[last as int] <= ends[last as int]);
        assert(ends[last as int] <= sa.len());
        assert(is_lms(x, cur[w] as int));
        assert(first_lms(x, f));
        let s = cur.update(w, 0);
        assert forall|j: int| 0 <= j < n && #[trigger] s[j] != 0 implies later_lms(x, f, s[j] as int) && !is_l(x, sa[j] as int)
            && t[sa[j] as int] == t[s[j] as int] by {
            assert(j != w && s[j] == cur[j]);
            assert(is_lms(x, cur[j] as int));
            assert(0 <= t[cur[j] as int] < k);
            if j < w {
                lemma_radix_distinct(t, sa, z, k, ends, st, 0, j, w);
            } else {
                lemma_radix_distinct(t, sa, z, k, ends, st, 0, w, j);
            }
        }
        assert forall|j: int, l: int| 0 <= j < l < n && #[trigger] s[j] != 0 && #[trigger] s[l] != 0 implies s[j] != s[l] by {
            lemma_radix_distinct(t, sa, z, k, ends, st, 0, j, l);
        }
        assert forall|p: int| #[trigger] later_lms(x, f, p) implies exists|j: int| 0 <= j < n && #[trigger] s[j] == p by {
            assert(is_lms(x, p));
            let j = lemma_found(cur, 0, n, p as i32);
            assert(s[j] == p);
        }
    }
    f
}

/// Counts grow with the range.
proof fn lemma_count_grows(x: Seq<int>, lo: int, hi: int)
    requires
        0 <= lo <= hi <= x.len(),
    ensures
        lms_count(x, hi) <= lms_count(x, lo),
    decreases hi - lo,
{
    if lo < hi {
        lemma_count_grows(x, lo + 1, hi);
    }
}

/// Sorting by first symbols puts a single leftmost suffix of type S in its place.
pub proof fn lemma_radix_single(t: Seq<i32>, sa: Seq<i32>, z: Seq<i32>, k: int, ends: Seq<i32>)
    requires
        sortable(t, sa, z, k, ends),
        lms_count(text32(t), 0) <= 1,
    ensures
        radix_sort_lms_suffixes_32s_1k_run(t, z, t.len() as int, ends) is Some,
        ({
            let (s, b, m) = radix_sort_lms_suffixes_32s_1k_run(t, z, t.len() as int, ends)->0;
            &&& s.len() == z.len()
            &&& b.len() == ends.len()
            &&& lms_in_place(t, sa, s)
        }),
{
    let n = t.len() as int;
    let x = text32(t);
    lemma_radix_visits(t, sa, z, k, ends, 0);
    let st = radix_1k_run(t, (z, ends, 0, true, 0), 0, n - 1)->0;
    let (cur, b, m, g, last) = st;
    assert(lms_count(x, 0) == lms_count(x, 1));
    assert forall|j: int| 0 <= j < n && #[trigger] cur[j] != 0 implies is_lms(x, cur[j] as int) && !is_l(x, sa[j] as int)
        && t[sa[j] as int] == t[cur[j] as int] by {
        assert(is_lms(x, cur[j] as int));
        assert(0 <= t[cur[j] as int] < k);
    }
    assert forall|j: int, l: int| 0 <= j < l < n && #[trigger] cur[j] != 0 && #[trigger] cur[l] != 0 implies suffix_less(
        x,
        cur[j] as int,
        cur[l] as int,
    ) by {
        lemma_radix_distinct(t, sa, z, k, ends, st, 0, j, l);
        assert(is_lms(x, cur[j] as int) && is_lms(x, cur[l] as int));
        let p = if cur[j] < cur[l] { cur[j] as int } else { cur[l] as int };
        let q = if cur[j] < cur[l] { cur[l] as int } else { cur[j] as int };
        lemma_count_grows(x, 0, p);
        lemma_count_grows(x, p + 1, q);
        lemma_lms_count_bound(x, q + 1);
    }
    assert forall|p: int| #[trigger] is_lms(x, p) implies exists|j: int| 0 <= j < n && #[trigger] cur[j] == p by {
        let j = lemma_found(cur, 0, n, p as i32);
        assert(cur[j] == p);
    }
}

/// What holds of the buckets in the suffix array holds of them in every list by symbol and type.
pub proof fn lemma_arranged(t: Seq<i32>, f: int, s: Seq<i32>, sa: Seq<i32>, k: int, starts: Seq<i32>, ends: Seq<i32>) -> (a: Seq<i32>)
    requires
        2 <= t.len() <= i32::MAX,
        symbols_below(t, k),
        is_suffix_array(text32(t), sa),
        bucket_starts(t, sa, k, starts),
        bucket_ends(t, sa, k, ends),
        first_lms(text32(t), f),
        scattered(t, f, s, sa),
    ensures
        arranged(t, f, s, a, k, starts, ends),
{
    let n = t.len() as int;
    let x = text32(t);
    let slot = standing(s, n, f);
    assert(slots_differ(x, slot)) by {
        assert forall|u: int, v: int| #![trigger slot(u), slot(v)] is_lms(x, u) && is_lms(x, v) && u != v implies slot(u)
            != slot(v) by {
            if u != f {
                assert(later_lms(x, f, u));
            }
            if v != f {
                assert(later_lms(x, f, v));
            }
        }
    }
    let a = lemma_induced_exists(x, f, slot);
    lemma_induced_by_type(x, f, slot, a);
    lemma_sorted_by_type(x, sa);
    assert forall|j: int| 0 <= j < n implies #[trigger] x[a[j] as int] == x[sa[j] as int] && is_l(x, a[j] as int) == is_l(
        x,
        sa[j] as int,
    ) by {
        lemma_types_agree(x, a, sa, j);
    }
    assert forall|j: int| 0 <= j < n implies t[#[trigger] a[j] as int] == t[sa[j] as int] by {
        assert(x[a[j] as int] == x[sa[j] as int]);
        assert(0 <= a[j] < n && 0 <= sa[j] < n);
    }
    assert(bucket_starts(t, a, k, starts)) by {
        assert forall|c: int, j: int| #![trigger starts[c], a[j]] 0 <= c < k && 0 <= j < a.len() implies (t[a[j] as int] < c)
            == (j < starts[c]) by {
            assert((t[sa[j] as int] < c) == (j < starts[c]));
        }
    }
    assert(bucket_ends(t, a, k, ends)) by {
        assert forall|c: int, j: int| #![trigger ends[c], a[j]] 0 <= c < k && 0 <= j < a.len() implies (t[a[j] as int] <= c)
            == (j < ends[c]) by {
            assert((t[sa[j] as int] <= c) == (j < ends[c]));
        }
    }
    assert(scattered(t, f, s, a)) by {
        assert forall|j: int| 0 <= j < n && #[trigger] s[j] != 0 implies later_lms(x, f, s[j] as int) && !is_l(x, a[j] as int)
            && t[a[j] as int] == t[s[j] as int] by {
            assert(x[a[j] as int] == x[sa[j] as int]);
        }
    }
    a
}

/// The partial order sorts substrings, with one bucket for each symbol: where a text has several
/// leftmost suffixes of type S, sorting them by first symbols and inducing the partial order
/// lists them by their substrings.
pub proof fn law_partial_order_sorts(t: Seq<i32>, z: Seq<i32>, k: int, b: Seq<i32>)
    requires
        2 <= t.len() <= i32::MAX,
        t.len() <= z.len(),
        forall|j: int| 0 <= j < t.len() ==> #[trigger] z[j] == 0,
        symbols_below(t, k),
        0 <= k <= b.len(),
    ensures
        bucket_ends_1k(t, t.len() as int, k, b) is Some,
        ({
            let n = t.len() as int;
            let ends = bucket_ends_1k(t, n, k, b)->0;
            let sorted = radix_sort_lms_suffixes_32s_1k_run(t, z, n, ends);
            &&& sorted is Some
            &&& sorted.unwrap().2 == lms_count(text32(t), 0)
            &&& sorted.unwrap().2 > 1 ==> {
                let order = partial_order_32s_1k(t, n, k, (sorted.unwrap().0, sorted.unwrap().1));
                &&& order is Some
                &&& order.unwrap().0.len() == z.len()
                &&& order.unwrap().1.len() == b.len()
                &&& substrings_sorted(t, order.unwrap().0, sorted.unwrap().2 as int)
            }
        }),
{
    let n = t.len() as int;
    law_suffix_array_exists(text32(t));
    let sa = choose|sa: Seq<i32>| is_suffix_array(text32(t), sa);
    law_bucket_bounds_1k(t, sa, k, b);
    let ends = bucket_ends_1k(t, n, k, b)->0;
    let f = lemma_radix_scatters(t, sa, z, k, ends);
    let (s, b1, m) = radix_sort_lms_suffixes_32s_1k_run(t, z, n, ends)->0;
    if m > 1 {
        law_bucket_bounds_1k(t, sa, k, b1);
        let starts = bucket_starts_1k(t, n, k, b1)->0;
        let ends1 = bucket_ends_1k(t, n, k, b1)->0;
        let a = lemma_arranged(t, f, s, sa, k, starts, ends1);
        lemma_scans_induce(t, f, s, a, k, starts, ends1);
        let left = crate::induce::partial_left_32s_1k(t, n, (s, starts))->0;
        law_bucket_bounds_1k(t, sa, k, left.1);
        let ends2 = bucket_ends_1k(t, n, k, left.1)->0;
        let a2 = lemma_arranged(t, f, s, sa, k, starts, ends2);
        lemma_scans_induce(t, f, s, a2, k, starts, ends2);
        let right = crate::partial_32s::partial_sorting_scan_right_to_left_32s_1k_run(t, (left.0, ends2), 0, n)->0;
        lemma_packed(t, f, standing(s, n, f), a2, right.0);
    }
}

/// There are no more leftmost suffixes of type S than suffixes.
proof fn lemma_lms_count_bound(x: Seq<int>, lo: int)
    requires
        0 <= lo <= x.len(),
    ensures
        0 <= lms_count(x, lo) <= x.len() - lo,
    decreases x.len() - lo,
{
    if lo < x.len() {
        lemma_lms_count_bound(x, lo + 1);
    }
}

} // verus!
