//! The order of suffixes, suffix arrays, and sorting suffixes by insertion.

use vstd::prelude::*;
use crate::gather::text32;
use crate::types::SaSint;

verus! {

/// Whether the suffix of `t` at `i` comes before the suffix at `j`: the first symbol in
/// which they differ decides, and a proper prefix comes first.
pub open spec fn suffix_less(t: Seq<int>, i: int, j: int) -> bool
    decreases t.len() - i,
{
    if j >= t.len() {
        false
    } else if i >= t.len() {
        true
    } else if t[i] != t[j] {
        t[i] < t[j]
    } else {
        suffix_less(t, i + 1, j + 1)
    }
}

/// Whether `sa` lists the suffixes of `t` in their order.
pub open spec fn is_suffix_array(t: Seq<int>, sa: Seq<i32>) -> bool {
    &&& sa.len() == t.len()
    &&& forall|k: int| 0 <= k < sa.len() ==> 0 <= #[trigger] sa[k] < t.len()
    &&& forall|k: int, l: int| 0 <= k < l < sa.len() ==> suffix_less(t, #[trigger] sa[k] as int, #[trigger] sa[l] as int)
}

/// No suffix comes before itself.
pub proof fn lemma_less_irreflexive(t: Seq<int>, i: int)
    ensures
        !suffix_less(t, i, i),
    decreases t.len() - i,
{
    if i < t.len() {
        lemma_less_irreflexive(t, i + 1);
    }
}

/// The order of suffixes is transitive.
pub proof fn lemma_less_transitive(t: Seq<int>, i: int, j: int, k: int)
    requires
        suffix_less(t, i, j),
        suffix_less(t, j, k),
    ensures
        suffix_less(t, i, k),
    decreases t.len() - i,
{
    if i < t.len() && t[i] == t[j] && t[j] == t[k] {
        lemma_less_transitive(t, i + 1, j + 1, k + 1);
    }
}

/// Of two different suffixes, one comes before the other.
pub proof fn lemma_less_total(t: Seq<int>, i: int, j: int)
    requires
        0 <= i <= t.len(),
        0 <= j <= t.len(),
        i != j,
    ensures
        suffix_less(t, i, j) != suffix_less(t, j, i),
    decreases t.len() - i,
{
    if i < t.len() && j < t.len() && t[i] == t[j] {
        lemma_less_total(t, i + 1, j + 1);
    }
}

/// A sequence of `n` different numbers below `n` holds every one of them.
pub proof fn lemma_pigeonhole(s: Seq<i32>, v: int)
    requires
        forall|k: int| 0 <= k < s.len() ==> 0 <= #[trigger] s[k] < s.len(),
        forall|k: int, l: int| 0 <= k < l < s.len() ==> #[trigger] s[k] != #[trigger] s[l],
        0 <= v < s.len(),
    ensures
        exists|k: int| 0 <= k < s.len() && #[trigger] s[k] == v,
{
    let ints = s.map_values(|x: i32| x as int);
    assert(ints.no_duplicates()) by {
        assert forall|k: int, l: int| 0 <= k < ints.len() && 0 <= l < ints.len() && k != l implies ints[k] != ints[l] by {
            if k < l {
                assert(s[k] != s[l]);
            } else {
                assert(s[l] != s[k]);
            }
        }
    }
    ints.unique_seq_to_set();
    let range = vstd::set_lib::set_int_range(0, s.len() as int);
    vstd::set_lib::lemma_int_range(0, s.len() as int);
    assert(ints.to_set().subset_of(range)) by {
        assert forall|x: int| ints.to_set().contains(x) implies range.contains(x) by {
            let k = choose|k: int| 0 <= k < ints.len() && ints[k] == x;
            assert(s[k] == x);
        }
    }
    vstd::set_lib::lemma_subset_equality(ints.to_set(), range);
    assert(range.contains(v));
    assert(ints.to_set().contains(v));
    let k = choose|k: int| 0 <= k < ints.len() && ints[k] == v;
    assert(s[k] == v);
}

/// A suffix array lists no suffix twice.
pub proof fn lemma_suffix_array_distinct(t: Seq<int>, sa: Seq<i32>, k: int, l: int)
    requires
        is_suffix_array(t, sa),
        0 <= k < sa.len(),
        0 <= l < sa.len(),
        sa[k] == sa[l],
    ensures
        k == l,
{
    lemma_less_irreflexive(t, sa[k] as int);
    if k < l {
        assert(suffix_less(t, sa[k] as int, sa[l] as int));
    } else if l < k {
        assert(suffix_less(t, sa[l] as int, sa[k] as int));
    }
}

/// A suffix array lists every suffix.
pub proof fn law_suffix_array_complete(t: Seq<int>, sa: Seq<i32>, v: int)
    requires
        is_suffix_array(t, sa),
        0 <= v < t.len(),
    ensures
        exists|k: int| 0 <= k < sa.len() && #[trigger] sa[k] == v,
{
    assert forall|k: int, l: int| 0 <= k < l < sa.len() implies #[trigger] sa[k] != #[trigger] sa[l] by {
        if sa[k] == sa[l] {
            lemma_suffix_array_distinct(t, sa, k, l);
        }
    }
    lemma_pigeonhole(sa, v);
}

/// Along a suffix array, ranks and suffixes have the same order.
pub proof fn lemma_rank_order(t: Seq<int>, sa: Seq<i32>, k: int, l: int)
    requires
        is_suffix_array(t, sa),
        0 <= k < sa.len(),
        0 <= l < sa.len(),
        suffix_less(t, sa[k] as int, sa[l] as int),
    ensures
        k < l,
{
    if k == l {
        lemma_less_irreflexive(t, sa[k] as int);
    } else if l < k {
        assert(suffix_less(t, sa[l] as int, sa[k] as int));
        lemma_less_transitive(t, sa[k] as int, sa[l] as int, sa[k] as int);
        lemma_less_irreflexive(t, sa[k] as int);
    }
}

/// A text has one suffix array.
pub proof fn law_suffix_array_unique(t: Seq<int>, a: Seq<i32>, b: Seq<i32>)
    requires
        is_suffix_array(t, a),
        is_suffix_array(t, b),
    ensures
        a == b,
{
    assert forall|k: int| 0 <= k < a.len() implies a[k] == b[k] by {
        lemma_suffix_array_agrees(t, a, b, k);
    }
    assert(a =~= b);
}

/// Two suffix arrays of a text agree in every slot.
proof fn lemma_suffix_array_agrees(t: Seq<int>, a: Seq<i32>, b: Seq<i32>, k: int)
    requires
        is_suffix_array(t, a),
        is_suffix_array(t, b),
        0 <= k < a.len(),
    ensures
        a[k] == b[k],
    decreases k,
{
    if a[k] != b[k] {
        assert forall|x: int| 0 <= x < k implies a[x] == b[x] by {
            lemma_suffix_array_agrees(t, a, b, x);
        }
        law_suffix_array_complete(t, b, a[k] as int);
        law_suffix_array_complete(t, a, b[k] as int);
        let p = choose|p: int| 0 <= p < b.len() && #[trigger] b[p] == a[k];
        let q = choose|q: int| 0 <= q < a.len() && #[trigger] a[q] == b[k];
        if p < k {
            assert(a[p] == b[p]);
            lemma_suffix_array_distinct(t, a, p, k);
        }
        if q < k {
            assert(a[q] == b[q]);
            lemma_suffix_array_distinct(t, b, q, k);
        }
        assert(k < p && k < q);
        assert(suffix_less(t, b[k] as int, b[p] as int));
        assert(suffix_less(t, a[k] as int, a[q] as int));
        lemma_less_transitive(t, a[k] as int, b[k] as int, a[k] as int);
        lemma_less_irreflexive(t, a[k] as int);
    }
}

/// Compares two suffixes symbol by symbol.
fn suffix_before(t: &[SaSint], i: usize, j: usize) -> (r: bool)
    requires
        i <= t.len(),
        j <= t.len(),
    ensures
        r == suffix_less(text32(t@), i as int, j as int),
{
    let n: usize = t.len();
    let mut a: usize = i;
    let mut b: usize = j;
    while a < n && b < n && t[a] == t[b]
        invariant
            a <= n == t.len(),
            b <= n,
            suffix_less(text32(t@), i as int, j as int) == suffix_less(text32(t@), a as int, b as int),
        decreases n - a,
    {
        a += 1;
        b += 1;
    }
    if b >= n {
        false
    } else if a >= n {
        true
    } else {
        t[a] < t[b]
    }
}

/// Whether the first `k` entries are the first `k` suffixes in order.
pub open spec fn sorted_prefix(t: Seq<int>, sa: Seq<i32>, k: int) -> bool {
    &&& forall|x: int| 0 <= x < k ==> 0 <= #[trigger] sa[x] < k
    &&& forall|x: int, y: int| 0 <= x < y < k ==> suffix_less(t, #[trigger] sa[x] as int, #[trigger] sa[y] as int)
}

/// Sorts the suffixes of `t` into the first slots of `sa` by insertion.
pub fn sort_by_insertion(t: &[SaSint], sa: &mut [SaSint])
    requires
        t.len() <= i32::MAX,
        t.len() <= old(sa).len(),
    ensures
        final(sa).len() == old(sa).len(),
        is_suffix_array(text32(t@), final(sa)@.subrange(0, t.len() as int)),
        forall|x: int| t.len() <= x < old(sa).len() ==> final(sa)@[x] == old(sa)@[x],
{
    let n: usize = t.len();
    let mut k: usize = 0;
    while k < n
        invariant
            k <= n == t.len(),
            n <= i32::MAX,
            n <= sa.len(),
            sa.len() == old(sa).len(),
            sorted_prefix(text32(t@), sa@, k as int),
            forall|x: int| n <= x < sa.len() ==> sa@[x] == old(sa)@[x],
        decreases n - k,
    {
        insert_suffix(t, sa, k);
        k += 1;
    }
    assert(is_suffix_array(text32(t@), sa@.subrange(0, n as int)));
}

/// Inserts suffix `k` into the sorted suffixes below it.
fn insert_suffix(t: &[SaSint], sa: &mut [SaSint], k: usize)
    requires
        k < t.len() <= i32::MAX,
        t.len() <= old(sa).len(),
        sorted_prefix(text32(t@), old(sa)@, k as int),
    ensures
        final(sa).len() == old(sa).len(),
        sorted_prefix(text32(t@), final(sa)@, k + 1),
        forall|x: int| k < x < old(sa).len() ==> final(sa)@[x] == old(sa)@[x],
{
    let ghost txt = text32(t@);
    let mut j: usize = k;
    sa[k] = k as SaSint;
    while j > 0 && suffix_before(t, k, sa[j - 1] as usize)
        invariant
            j <= k < t.len() <= i32::MAX,
            t.len() <= sa.len(),
            txt == text32(t@),
            sa.len() == old(sa).len(),
            sa@[j as int] == k,
            forall|x: int| k < x < sa.len() ==> sa@[x] == old(sa)@[x],
            forall|x: int| 0 <= x <= k && x != j ==> 0 <= #[trigger] sa@[x] < k,
            forall|x: int, y: int| 0 <= x < y <= k && x != j && y != j ==> suffix_less(
                txt, #[trigger] sa@[x] as int, #[trigger] sa@[y] as int),
            forall|x: int| j < x <= k ==> suffix_less(txt, k as int, #[trigger] sa@[x] as int),
        decreases j,
    {
        sa[j] = sa[j - 1];
        j -= 1;
        sa[j] = k as SaSint;
    }
    assert forall|x: int| 0 <= x < j implies suffix_less(txt, #[trigger] sa@[x] as int, k as int) by {
        lemma_less_total(txt, k as int, sa@[j - 1] as int);
        if x < j - 1 {
            assert(suffix_less(txt, sa@[x] as int, sa@[j - 1] as int));
            lemma_less_transitive(txt, sa@[x] as int, sa@[j - 1] as int, k as int);
        }
    }
}

} // verus!
