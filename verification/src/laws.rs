//! What holds of suffix arrays and transforms as a whole.

use vstd::prelude::*;
use crate::bytes::{
    bwt_byte, bwt_from, frequency_sum, is_bwt, is_bwt_aux, law_frequencies_add_up, occurrences,
    sample_count, samples_from, separated_text,
};
use crate::gather::text8;
use crate::order::{
    is_suffix_array, law_suffix_array_complete, law_suffix_array_unique, lemma_less_irreflexive, lemma_less_total, lemma_less_transitive,
    lemma_suffix_array_distinct, sorted_prefix, suffix_less,
};
use crate::types::ALPHABET_SIZE;

verus! {

/// Every text that signed indices can number has a suffix array.
pub proof fn law_suffix_array_exists(t: Seq<int>)
    requires
        t.len() <= i32::MAX,
    ensures
        exists|sa: Seq<i32>| is_suffix_array(t, sa),
{
    let sa = lemma_sorted_suffixes(t, t.len() as int);
    assert(is_suffix_array(t, sa));
}

/// The first `k` suffixes can be sorted.
proof fn lemma_sorted_suffixes(t: Seq<int>, k: int) -> (sa: Seq<i32>)
    requires
        0 <= k <= t.len() <= i32::MAX,
    ensures
        sa.len() == k,
        sorted_prefix(t, sa, k),
    decreases k,
{
    if k == 0 {
        Seq::empty()
    } else {
        let s = lemma_sorted_suffixes(t, k - 1);
        let j = lemma_insertion_point(t, s, k - 1, k - 1);
        let sa = s.insert(j, (k - 1) as i32);
        assert forall|x: int| 0 <= x < k implies 0 <= #[trigger] sa[x] < k by {
            if x < j {
                assert(sa[x] == s[x]);
            } else if x > j {
                assert(sa[x] == s[x - 1]);
            }
        }
        assert forall|x: int, y: int| 0 <= x < y < k implies suffix_less(
            t,
            #[trigger] sa[x] as int,
            #[trigger] sa[y] as int,
        ) by {
            let sx = if x < j { s[x] } else { s[x - 1] };
            let sy = if y < j { s[y] } else { s[y - 1] };
            assert(x != j ==> sa[x] == sx);
            assert(y != j ==> sa[y] == sy);
        }
        sa
    }
}

/// Where the suffix at `p` goes among the first `hi` sorted suffixes.
proof fn lemma_insertion_point(t: Seq<int>, s: Seq<i32>, p: int, hi: int) -> (j: int)
    requires
        0 <= hi <= p == s.len(),
        p < t.len(),
        sorted_prefix(t, s, p),
        forall|x: int| hi <= x < p ==> suffix_less(t, p, #[trigger] s[x] as int),
    ensures
        0 <= j <= p,
        forall|x: int| 0 <= x < j ==> suffix_less(t, #[trigger] s[x] as int, p),
        forall|x: int| j <= x < p ==> suffix_less(t, p, #[trigger] s[x] as int),
    decreases hi,
{
    if hi == 0 {
        0
    } else {
        lemma_less_total(t, p, s[hi - 1] as int);
        if suffix_less(t, p, s[hi - 1] as int) {
            lemma_insertion_point(t, s, p, hi - 1)
        } else {
            assert forall|x: int| 0 <= x < hi implies suffix_less(t, #[trigger] s[x] as int, p) by {
                if x < hi - 1 {
                    assert(suffix_less(t, s[x] as int, s[hi - 1] as int));
                    lemma_less_transitive(t, s[x] as int, s[hi - 1] as int, p);
                }
            }
            hi
        }
    }
}

/// Whether the suffix at `i` of its text comes before the suffix at `j` of its own, in
/// separated texts: the texts are compared up to their ends, and of equal suffixes that of
/// the earlier text comes first.
pub open spec fn piece_less(t: Seq<u8>, i: int, j: int) -> bool
    decreases t.len() - i,
{
    if i >= t.len() || j >= t.len() {
        i >= t.len() && j < t.len()
    } else if t[i] == 0 && t[j] == 0 {
        i < j
    } else if t[i] != t[j] {
        t[i] < t[j]
    } else {
        piece_less(t, i + 1, j + 1)
    }
}

/// Separated texts are compared one by one: no comparison runs past the end of a text.
pub proof fn law_separated_order(t: Seq<u8>, i: int, j: int)
    requires
        0 <= i <= t.len(),
        0 <= j <= t.len(),
        i != j,
    ensures
        suffix_less(separated_text(t), i, j) == piece_less(t, i, j),
    decreases t.len() - i,
{
    if i < t.len() && j < t.len() && t[i] == t[j] && t[i] != 0 {
        law_separated_order(t, i + 1, j + 1);
    }
}

/// Every text that signed indices can number has a transform.
pub proof fn law_transform_exists(x: Seq<u8>)
    requires
        x.len() <= i32::MAX,
    ensures
        exists|u: Seq<u8>, index: int| is_bwt(x, u, index),
{
    if x.len() == 0 {
        assert(is_bwt(x, x, 0));
    } else {
        law_suffix_array_exists(text8(x));
        let sa = choose|sa: Seq<i32>| is_suffix_array(text8(x), sa);
        law_suffix_array_complete(text8(x), sa, 0);
        let zero = choose|k: int| 0 <= k < sa.len() && #[trigger] sa[k] == 0;
        let u = Seq::new(x.len(), |j: int| bwt_byte(x, sa, zero, j));
        assert(bwt_from(x, sa, u, zero + 1));
        assert(is_bwt(x, u, zero + 1));
    }
}

/// A text has one transform and one primary index.
pub proof fn law_transform_unique(x: Seq<u8>, u: Seq<u8>, v: Seq<u8>, i: int, j: int, k: int)
    requires
        is_bwt(x, u, i),
        is_bwt(x, v, j),
        0 <= k < x.len(),
    ensures
        i == j,
        u[k] == v[k],
{
    let a = choose|sa: Seq<i32>| bwt_from(x, sa, u, i);
    let b = choose|sa: Seq<i32>| bwt_from(x, sa, v, j);
    law_suffix_array_unique(text8(x), a, b);
    lemma_suffix_array_distinct(text8(x), a, i - 1, j - 1);
    assert(u[k] == bwt_byte(x, a, i - 1, k));
    assert(v[k] == bwt_byte(x, a, i - 1, k));
}

/// A text has one sequence of samples at a rate.
pub proof fn law_samples_unique(x: Seq<u8>, u: Seq<u8>, v: Seq<u8>, r: int, a: Seq<i32>, b: Seq<i32>, k: int)
    requires
        2 <= r,
        is_bwt_aux(x, u, r, a),
        is_bwt_aux(x, v, r, b),
        0 <= k < sample_count(x.len() as int, r),
    ensures
        a[k] == b[k],
{
    let n = x.len() as int;
    if n == 0 {
        assert(k == 0);
    } else {
        let s = choose|sa: Seq<i32>| bwt_from(x, sa, u, a[0] as int) && samples_from(sa, n, r, a);
        let z = choose|sa: Seq<i32>| bwt_from(x, sa, v, b[0] as int) && samples_from(sa, n, r, b);
        law_suffix_array_unique(text8(x), s, z);
        assert(k * r < n) by (nonlinear_arith)
            requires
                0 <= k <= (n - 1) / r,
                r >= 2,
                n >= 1,
        ;
        lemma_suffix_array_distinct(text8(x), s, a[k] - 1, b[k] - 1);
    }
}

/// The positions of byte `c` among the first `n`.
spec fn places(t: Seq<u8>, c: int, n: int) -> Set<int> {
    Set::new(|i: int| 0 <= i < n && t[i] == c)
}

/// Counting a byte is counting its positions.
proof fn lemma_places(t: Seq<u8>, c: int, n: int)
    requires
        0 <= n <= t.len(),
    ensures
        places(t, c, n).finite(),
        places(t, c, n).len() == occurrences(t, c, n),
    decreases n,
{
    if n == 0 {
        assert(places(t, c, 0) =~= Set::empty());
    } else {
        lemma_places(t, c, n - 1);
        if t[n - 1] == c {
            assert(places(t, c, n) =~= places(t, c, n - 1).insert(n - 1));
        } else {
            assert(places(t, c, n) =~= places(t, c, n - 1));
        }
    }
}

/// Where the byte in row `j` of the transform stands in the text.
spec fn source(n: int, sa: Seq<i32>, zero: int, j: int) -> int {
    if j == 0 {
        n - 1
    } else if j <= zero {
        sa[j - 1] - 1
    } else {
        sa[j] - 1
    }
}

/// No two rows of the transform hold the same byte of the text.
proof fn lemma_source(x: Seq<u8>, sa: Seq<i32>, u: Seq<u8>, index: int, i: int, j: int)
    requires
        bwt_from(x, sa, u, index),
        0 <= i < x.len(),
        0 <= j < x.len(),
    ensures
        0 <= source(x.len() as int, sa, index - 1, i) < x.len(),
        u[i] == x[source(x.len() as int, sa, index - 1, i)],
        source(x.len() as int, sa, index - 1, i) == source(x.len() as int, sa, index - 1, j) ==> i == j,
{
    let zero = index - 1;
    let p = if i <= zero { i - 1 } else { i };
    let q = if j <= zero { j - 1 } else { j };
    assert(u[i] == bwt_byte(x, sa, zero, i));
    if i > 0 {
        assert(0 <= sa[p] < x.len());
        if sa[p] == 0 {
            lemma_suffix_array_distinct(text8(x), sa, p, zero);
        }
        if j > 0 && sa[p] == sa[q] {
            lemma_suffix_array_distinct(text8(x), sa, p, q);
        }
    }
    if j > 0 {
        assert(0 <= sa[q] < x.len());
    }
}

/// No byte occurs more often in the transform than in the text.
proof fn lemma_no_more(x: Seq<u8>, sa: Seq<i32>, u: Seq<u8>, index: int, c: int)
    requires
        bwt_from(x, sa, u, index),
    ensures
        occurrences(u, c, x.len() as int) <= occurrences(x, c, x.len() as int),
{
    let n = x.len() as int;
    lemma_places(u, c, n);
    lemma_places(x, c, n);
    let f = |j: int| source(n, sa, index - 1, j);
    let from = places(u, c, n);
    let image = from.map(f);
    assert(vstd::relations::injective_on(f, from)) by {
        assert forall|i: int, j: int| from.contains(i) && from.contains(j) && #[trigger] f(i) == #[trigger] f(j) implies i == j by {
            lemma_source(x, sa, u, index, i, j);
        }
    }
    vstd::set_lib::lemma_map_size(from, image, f);
    assert(image.subset_of(places(x, c, n))) by {
        assert forall|p: int| image.contains(p) implies places(x, c, n).contains(p) by {
            let j = choose|j: int| from.contains(j) && f(j) == p;
            lemma_source(x, sa, u, index, j, j);
        }
    }
    vstd::set_lib::lemma_len_subset(image, places(x, c, n));
}

/// Sums of frequencies that are no greater and agree in the end agree in every term.
proof fn lemma_sums_agree(x: Seq<u8>, u: Seq<u8>, n: int, k: int, c: int)
    requires
        0 <= c < k,
        forall|b: int| 0 <= b < k ==> #[trigger] occurrences(u, b, n) <= occurrences(x, b, n),
        frequency_sum(u, k, n) >= frequency_sum(x, k, n),
    ensures
        occurrences(u, c, n) == occurrences(x, c, n),
    decreases k,
{
    lemma_sums_ordered(x, u, n, k - 1);
    assert(occurrences(u, k - 1, n) <= occurrences(x, k - 1, n));
    if c < k - 1 {
        lemma_sums_agree(x, u, n, k - 1, c);
    }
}

/// Terms that are no greater have sums that are no greater.
proof fn lemma_sums_ordered(x: Seq<u8>, u: Seq<u8>, n: int, k: int)
    requires
        0 <= k,
        forall|b: int| 0 <= b < k ==> #[trigger] occurrences(u, b, n) <= occurrences(x, b, n),
    ensures
        frequency_sum(u, k, n) <= frequency_sum(x, k, n),
    decreases k,
{
    if k > 0 {
        lemma_sums_ordered(x, u, n, k - 1);
        assert(occurrences(u, k - 1, n) <= occurrences(x, k - 1, n));
    }
}

/// The transform holds the bytes of the text: each occurs as often.
pub proof fn law_transform_permutes(x: Seq<u8>, u: Seq<u8>, index: int, c: int)
    requires
        is_bwt(x, u, index),
        0 <= c < ALPHABET_SIZE,
    ensures
        occurrences(u, c, x.len() as int) == occurrences(x, c, x.len() as int),
{
    let n = x.len() as int;
    if n > 0 {
        let sa = choose|sa: Seq<i32>| bwt_from(x, sa, u, index);
        assert forall|b: int| 0 <= b < ALPHABET_SIZE implies #[trigger] occurrences(u, b, n) <= occurrences(x, b, n) by {
            lemma_no_more(x, sa, u, index, b);
        }
        law_frequencies_add_up(x, n);
        law_frequencies_add_up(u, n);
        lemma_sums_agree(x, u, n, ALPHABET_SIZE as int, c);
    }
}

/// The suffixes of `t` that come before the one at `p`.
pub open spec fn smaller_suffixes(t: Seq<int>, p: int) -> Set<int> {
    Set::new(|q: int| 0 <= q < t.len() && suffix_less(t, q, p))
}

/// The slot of a suffix in the suffix array is its rank: as many suffixes come before it.
pub proof fn law_slot_is_rank(t: Seq<int>, sa: Seq<i32>, k: int)
    requires
        is_suffix_array(t, sa),
        0 <= k < sa.len(),
    ensures
        smaller_suffixes(t, sa[k] as int).finite(),
        smaller_suffixes(t, sa[k] as int).len() == k,
{
    let before = vstd::set_lib::set_int_range(0, k);
    let f = |j: int| sa[j] as int;
    vstd::set_lib::lemma_int_range(0, k);
    assert(vstd::relations::injective_on(f, before)) by {
        assert forall|i: int, j: int| before.contains(i) && before.contains(j) && #[trigger] f(i) == #[trigger] f(j) implies i == j by {
            lemma_suffix_array_distinct(t, sa, i, j);
        }
    }
    vstd::set_lib::lemma_map_size(before, before.map(f), f);
    assert forall|q: int| smaller_suffixes(t, sa[k] as int).contains(q) implies before.map(f).contains(q) by {
        law_suffix_array_complete(t, sa, q);
        let j = choose|j: int| 0 <= j < sa.len() && #[trigger] sa[j] == q;
        lemma_less_irreflexive(t, q);
        if j > k {
            lemma_less_total(t, sa[k] as int, q);
        }
        assert(before.contains(j) && f(j) == q);
    }
    assert forall|q: int| before.map(f).contains(q) implies smaller_suffixes(t, sa[k] as int).contains(q) by {
        let j = choose|j: int| before.contains(j) && f(j) == q;
        assert(suffix_less(t, sa[j] as int, sa[k] as int));
    }
    assert(smaller_suffixes(t, sa[k] as int) =~= before.map(f));
}

/// Each sample is one more than the rank of its suffix.
pub proof fn law_samples_are_ranks(x: Seq<u8>, u: Seq<u8>, r: int, samples: Seq<i32>, j: int)
    requires
        1 <= x.len(),
        1 <= r,
        is_bwt_aux(x, u, r, samples),
        0 <= j < sample_count(x.len() as int, r),
    ensures
        smaller_suffixes(text8(x), j * r).finite(),
        samples[j] == smaller_suffixes(text8(x), j * r).len() + 1,
{
    let n = x.len() as int;
    let sa = choose|sa: Seq<i32>| bwt_from(x, sa, u, samples[0] as int) && samples_from(sa, n, r, samples);
    assert(j * r < n) by (nonlinear_arith)
        requires
            0 <= j <= (n - 1) / r,
            r >= 1,
            n >= 1,
    ;
    law_slot_is_rank(text8(x), sa, samples[j] - 1);
}

/// The sampled transform is the transform, and its first sample is the primary index.
pub proof fn law_sampled_transform_is_transform(x: Seq<u8>, u: Seq<u8>, r: int, samples: Seq<i32>, v: Seq<u8>, index: int)
    requires
        is_bwt_aux(x, u, r, samples),
        is_bwt(x, v, index),
        x.len() <= u.len(),
        x.len() <= v.len(),
    ensures
        is_bwt(x, u, samples[0] as int),
        samples[0] == index,
        u.subrange(0, x.len() as int) == v.subrange(0, x.len() as int),
{
    let n = x.len() as int;
    if n > 0 {
        let sa = choose|sa: Seq<i32>| bwt_from(x, sa, u, samples[0] as int) && samples_from(sa, n, r, samples);
        assert(is_bwt(x, u, samples[0] as int));
        law_transform_unique(x, u, v, samples[0] as int, index, 0);
        assert forall|k: int| 0 <= k < n implies u[k] == v[k] by {
            law_transform_unique(x, u, v, samples[0] as int, index, k);
        }
    }
    assert(u.subrange(0, n) =~= v.subrange(0, n));
}

} // verus!
