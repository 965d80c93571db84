//! Why the partial scans sort substrings: the order that they induce on the leftmost suffixes
//! of type S is that of the substrings up to the next such suffix.

use vstd::prelude::*;
use crate::induction::law_l_before_s;
use crate::kinds::{is_l, is_lms};
use crate::marks::bit;
use crate::order::{is_suffix_array, lemma_less_irreflexive, lemma_less_transitive, lemma_pigeonhole, suffix_less};

verus! {

/// Whether the substring at `i` comes before the substring at `j`: by symbol, then by type, up
/// to the next leftmost suffix of type S, of which only the symbol counts. The end of the text
/// comes before everything.
pub open spec fn substring_less(x: Seq<int>, i: int, j: int) -> bool
    decreases x.len() - i,
{
    if j >= x.len() || i >= x.len() {
        i >= x.len() && j < x.len()
    } else if x[i] != x[j] {
        x[i] < x[j]
    } else if is_l(x, i) != is_l(x, j) {
        is_l(x, i)
    } else if is_lms(x, i + 1) && is_lms(x, j + 1) {
        x[i + 1] < x[j + 1]
    } else {
        substring_less(x, i + 1, j + 1)
    }
}

/// Suffixes are in the order of their substrings where these differ.
pub proof fn law_substrings_decide(x: Seq<int>, i: int, j: int)
    requires
        0 <= i,
        0 <= j,
        substring_less(x, i, j),
    ensures
        suffix_less(x, i, j),
    decreases x.len() - i,
{
    if i < x.len() && x[i] == x[j] {
        if is_l(x, i) != is_l(x, j) {
            law_l_before_s(x, i, j);
        } else if is_lms(x, i + 1) && is_lms(x, j + 1) {
            assert(suffix_less(x, i + 1, j + 1));
        } else {
            law_substrings_decide(x, i + 1, j + 1);
        }
    }
}

/// The rank of a suffix within its bucket: suffixes of type L before those of type S, and those
/// that the partial scans place at the ends.
pub open spec fn class_of(x: Seq<int>, f: int, i: int) -> int {
    if is_l(x, i) {
        if i > f {
            0
        } else {
            1
        }
    } else {
        if i >= f {
            3
        } else {
            2
        }
    }
}

/// The order of suffixes by their first symbol and their class.
pub open spec fn key_of(x: Seq<int>, f: int, i: int) -> int {
    4 * x[i] + class_of(x, f, i)
}

/// The order in which the scan to the right meets suffixes, where `slot` says where the leftmost
/// suffixes of type S stand.
pub open spec fn met_less(x: Seq<int>, f: int, slot: spec_fn(int) -> int, u: int, v: int) -> bool
    decreases x.len() - u,
{
    if v >= x.len() || u >= x.len() {
        u >= x.len() && v < x.len()
    } else if key_of(x, f, u) != key_of(x, f, v) {
        key_of(x, f, u) < key_of(x, f, v)
    } else if class_of(x, f, u) == 0 {
        met_less(x, f, slot, u + 1, v + 1)
    } else if class_of(x, f, u) == 3 && is_lms(x, u) && is_lms(x, v) {
        slot(u) < slot(v)
    } else if class_of(x, f, u) == 3 && is_lms(x, u) != is_lms(x, v) {
        is_lms(x, v)
    } else {
        u < v
    }
}

/// The order that the scan to the left induces.
pub open spec fn induced_less(x: Seq<int>, f: int, slot: spec_fn(int) -> int, u: int, v: int) -> bool
    decreases x.len() - u,
{
    if v >= x.len() || u >= x.len() {
        u >= x.len() && v < x.len()
    } else if key_of(x, f, u) == key_of(x, f, v) && class_of(x, f, u) == 3 {
        induced_less(x, f, slot, u + 1, v + 1)
    } else {
        met_less(x, f, slot, u, v)
    }
}

/// Whether different leftmost suffixes of type S stand in different slots.
pub open spec fn slots_differ(x: Seq<int>, slot: spec_fn(int) -> int) -> bool {
    forall|u: int, v: int| #![trigger slot(u), slot(v)] is_lms(x, u) && is_lms(x, v) && u != v ==> slot(u) != slot(v)
}

/// Equal keys are equal symbols and classes.
pub proof fn lemma_keys(x: Seq<int>, f: int, u: int, v: int)
    ensures
        key_of(x, f, u) == key_of(x, f, v) <==> x[u] == x[v] && class_of(x, f, u) == class_of(x, f, v),
        x[u] < x[v] ==> key_of(x, f, u) < key_of(x, f, v),
        0 <= class_of(x, f, u) <= 3,
{
}

/// The suffix behind one of class zero is of class zero, or a leftmost one of type S.
pub proof fn lemma_next_class(x: Seq<int>, f: int, u: int)
    requires
        0 <= f,
        0 <= u < x.len(),
        class_of(x, f, u) == 0,
        u + 1 < x.len(),
    ensures
        class_of(x, f, u + 1) == 0 || (class_of(x, f, u + 1) == 3 && is_lms(x, u + 1)),
{
}

/// The orders are strict.
pub proof fn lemma_met_irreflexive(x: Seq<int>, f: int, slot: spec_fn(int) -> int, u: int)
    ensures
        !met_less(x, f, slot, u, u),
    decreases x.len() - u,
{
    if u < x.len() && class_of(x, f, u) == 0 {
        lemma_met_irreflexive(x, f, slot, u + 1);
    }
}

/// The orders are strict.
pub proof fn lemma_induced_irreflexive(x: Seq<int>, f: int, slot: spec_fn(int) -> int, u: int)
    ensures
        !induced_less(x, f, slot, u, u),
    decreases x.len() - u,
{
    if u < x.len() && class_of(x, f, u) == 3 {
        lemma_induced_irreflexive(x, f, slot, u + 1);
    } else {
        lemma_met_irreflexive(x, f, slot, u);
    }
}

/// The orders are transitive.
pub proof fn lemma_met_transitive(x: Seq<int>, f: int, slot: spec_fn(int) -> int, u: int, v: int, w: int)
    requires
        met_less(x, f, slot, u, v),
        met_less(x, f, slot, v, w),
    ensures
        met_less(x, f, slot, u, w),
    decreases x.len() - u,
{
    if u < x.len() && v < x.len() && w < x.len() {
        lemma_keys(x, f, u, v);
        lemma_keys(x, f, v, w);
        if key_of(x, f, u) == key_of(x, f, v) && key_of(x, f, v) == key_of(x, f, w) && class_of(x, f, u) == 0 {
            lemma_met_transitive(x, f, slot, u + 1, v + 1, w + 1);
        }
    }
}

/// The orders are transitive.
pub proof fn lemma_induced_transitive(x: Seq<int>, f: int, slot: spec_fn(int) -> int, u: int, v: int, w: int)
    requires
        induced_less(x, f, slot, u, v),
        induced_less(x, f, slot, v, w),
    ensures
        induced_less(x, f, slot, u, w),
    decreases x.len() - u,
{
    if u < x.len() && v < x.len() && w < x.len() {
        lemma_keys(x, f, u, v);
        lemma_keys(x, f, v, w);
        if key_of(x, f, u) == key_of(x, f, v) && key_of(x, f, v) == key_of(x, f, w) {
            if class_of(x, f, u) == 3 {
                lemma_induced_transitive(x, f, slot, u + 1, v + 1, w + 1);
            } else {
                lemma_met_transitive(x, f, slot, u, v, w);
            }
        }
    }
}

/// The orders are total.
pub proof fn lemma_met_total(x: Seq<int>, f: int, slot: spec_fn(int) -> int, u: int, v: int)
    requires
        slots_differ(x, slot),
        0 <= u <= x.len(),
        0 <= v <= x.len(),
        u != v,
    ensures
        met_less(x, f, slot, u, v) || met_less(x, f, slot, v, u),
    decreases x.len() - u,
{
    if u < x.len() && v < x.len() && key_of(x, f, u) == key_of(x, f, v) {
        lemma_keys(x, f, u, v);
        if class_of(x, f, u) == 0 {
            lemma_met_total(x, f, slot, u + 1, v + 1);
        } else if class_of(x, f, u) == 3 && is_lms(x, u) && is_lms(x, v) {
            assert(slot(u) != slot(v));
        }
    }
}

/// The orders are total.
pub proof fn lemma_induced_total(x: Seq<int>, f: int, slot: spec_fn(int) -> int, u: int, v: int)
    requires
        slots_differ(x, slot),
        0 <= u <= x.len(),
        0 <= v <= x.len(),
        u != v,
    ensures
        induced_less(x, f, slot, u, v) || induced_less(x, f, slot, v, u),
    decreases x.len() - u,
{
    if u < x.len() && v < x.len() {
        lemma_keys(x, f, u, v);
        if key_of(x, f, u) == key_of(x, f, v) && class_of(x, f, u) == 3 {
            lemma_induced_total(x, f, slot, u + 1, v + 1);
        } else {
            lemma_met_total(x, f, slot, u, v);
        }
    }
}

/// The induced order of live suffixes is that of their substrings where these differ.
pub proof fn lemma_substrings_induce(x: Seq<int>, f: int, slot: spec_fn(int) -> int, u: int, v: int)
    requires
        0 <= f <= u,
        f <= v,
        is_lms(x, f),
        substring_less(x, u, v),
    ensures
        induced_less(x, f, slot, u, v),
        !(u < x.len() && class_of(x, f, u) == 3 && class_of(x, f, v) == 3) ==> met_less(x, f, slot, u, v),
    decreases x.len() - u,
{
    if u < x.len() && v < x.len() {
        lemma_keys(x, f, u, v);
        lemma_keys(x, f, v, u);
        if x[u] == x[v] && is_l(x, u) == is_l(x, v) {
            assert(class_of(x, f, u) == class_of(x, f, v));
            if is_l(x, u) {
                if is_lms(x, u + 1) && is_lms(x, v + 1) {
                    lemma_keys(x, f, u + 1, v + 1);
                    assert(met_less(x, f, slot, u + 1, v + 1));
                } else {
                    lemma_substrings_induce(x, f, slot, u + 1, v + 1);
                    if u + 1 < x.len() && v + 1 < x.len() {
                        lemma_next_class(x, f, u);
                        lemma_next_class(x, f, v);
                    }
                    assert(met_less(x, f, slot, u + 1, v + 1));
                }
            } else {
                lemma_substrings_induce(x, f, slot, u + 1, v + 1);
            }
        }
    }
}

/// Whether `a` lists all suffixes in the induced order.
pub open spec fn is_induced(x: Seq<int>, f: int, slot: spec_fn(int) -> int, a: Seq<i32>) -> bool {
    &&& a.len() == x.len()
    &&& forall|k: int| 0 <= k < a.len() ==> 0 <= #[trigger] a[k] < x.len()
    &&& forall|k: int, l: int| 0 <= k < l < a.len() ==> induced_less(x, f, slot, #[trigger] a[k] as int, #[trigger] a[l] as int)
}

/// Whether the first `k` entries of `a` are the first `k` suffixes in the induced order.
spec fn induced_prefix(x: Seq<int>, f: int, slot: spec_fn(int) -> int, a: Seq<i32>, k: int) -> bool {
    &&& forall|i: int| 0 <= i < k ==> 0 <= #[trigger] a[i] < k
    &&& forall|i: int, j: int| 0 <= i < j < k ==> induced_less(x, f, slot, #[trigger] a[i] as int, #[trigger] a[j] as int)
}

/// Where the suffix at `p` goes among the first `hi` suffixes.
proof fn lemma_induced_point(x: Seq<int>, f: int, slot: spec_fn(int) -> int, a: Seq<i32>, p: int, hi: int) -> (j: int)
    requires
        slots_differ(x, slot),
        0 <= hi <= p == a.len(),
        p < x.len(),
        induced_prefix(x, f, slot, a, p),
        forall|i: int| hi <= i < p ==> induced_less(x, f, slot, p, #[trigger] a[i] as int),
    ensures
        0 <= j <= p,
        forall|i: int| 0 <= i < j ==> induced_less(x, f, slot, #[trigger] a[i] as int, p),
        forall|i: int| j <= i < p ==> induced_less(x, f, slot, p, #[trigger] a[i] as int),
    decreases hi,
{
    if hi == 0 {
        0
    } else {
        lemma_induced_total(x, f, slot, p, a[hi - 1] as int);
        if induced_less(x, f, slot, p, a[hi - 1] as int) {
            lemma_induced_point(x, f, slot, a, p, hi - 1)
        } else {
            assert forall|i: int| 0 <= i < hi implies induced_less(x, f, slot, #[trigger] a[i] as int, p) by {
                if i < hi - 1 {
                    assert(induced_less(x, f, slot, a[i] as int, a[hi - 1] as int));
                    lemma_induced_transitive(x, f, slot, a[i] as int, a[hi - 1] as int, p);
                }
            }
            hi
        }
    }
}

/// The first `k` suffixes can be listed in the induced order.
proof fn lemma_induced_list(x: Seq<int>, f: int, slot: spec_fn(int) -> int, k: int) -> (a: Seq<i32>)
    requires
        slots_differ(x, slot),
        0 <= k <= x.len() <= i32::MAX,
    ensures
        a.len() == k,
        induced_prefix(x, f, slot, a, k),
    decreases k,
{
    if k == 0 {
        Seq::empty()
    } else {
        let s = lemma_induced_list(x, f, slot, k - 1);
        let j = lemma_induced_point(x, f, slot, s, k - 1, k - 1);
        let a = s.insert(j, (k - 1) as i32);
        assert forall|i: int| 0 <= i < k implies 0 <= #[trigger] a[i] < k by {
            if i < j {
                assert(a[i] == s[i]);
            } else if i > j {
                assert(a[i] == s[i - 1]);
            }
        }
        assert forall|i: int, l: int| 0 <= i < l < k implies induced_less(
            x,
            f,
            slot,
            #[trigger] a[i] as int,
            #[trigger] a[l] as int,
        ) by {
            let si = if i < j { s[i] } else { s[i - 1] };
            let sl = if l < j { s[l] } else { s[l - 1] };
            assert(i != j ==> a[i] == si);
            assert(l != j ==> a[l] == sl);
        }
        a
    }
}

/// Suffixes can be listed in the induced order.
pub proof fn lemma_induced_exists(x: Seq<int>, f: int, slot: spec_fn(int) -> int) -> (a: Seq<i32>)
    requires
        slots_differ(x, slot),
        x.len() <= i32::MAX,
    ensures
        is_induced(x, f, slot, a),
{
    lemma_induced_list(x, f, slot, x.len() as int)
}

/// The induced order lists no suffix twice.
pub proof fn lemma_induced_distinct(x: Seq<int>, f: int, slot: spec_fn(int) -> int, a: Seq<i32>, i: int, j: int)
    requires
        is_induced(x, f, slot, a),
        0 <= i < a.len(),
        0 <= j < a.len(),
        a[i] == a[j],
    ensures
        i == j,
{
    lemma_induced_irreflexive(x, f, slot, a[i] as int);
    if i < j {
        assert(induced_less(x, f, slot, a[i] as int, a[j] as int));
    } else if j < i {
        assert(induced_less(x, f, slot, a[j] as int, a[i] as int));
    }
}

/// The slot of the suffix at `v` in the induced order.
pub proof fn lemma_induced_slot(x: Seq<int>, f: int, slot: spec_fn(int) -> int, a: Seq<i32>, v: int) -> (r: int)
    requires
        is_induced(x, f, slot, a),
        0 <= v < x.len(),
    ensures
        0 <= r < a.len(),
        a[r] == v,
{
    assert forall|k: int, l: int| 0 <= k < l < a.len() implies #[trigger] a[k] != #[trigger] a[l] by {
        if a[k] == a[l] {
            lemma_induced_distinct(x, f, slot, a, k, l);
        }
    }
    lemma_pigeonhole(a, v);
    choose|r: int| 0 <= r < a.len() && #[trigger] a[r] == v
}

/// Slots and suffixes have the same order.
pub proof fn lemma_induced_rank(x: Seq<int>, f: int, slot: spec_fn(int) -> int, a: Seq<i32>, i: int, j: int)
    requires
        is_induced(x, f, slot, a),
        0 <= i < a.len(),
        0 <= j < a.len(),
        induced_less(x, f, slot, a[i] as int, a[j] as int),
    ensures
        i < j,
{
    if j <= i {
        if i == j {
            lemma_induced_irreflexive(x, f, slot, a[i] as int);
        } else {
            assert(induced_less(x, f, slot, a[j] as int, a[i] as int));
            lemma_induced_transitive(x, f, slot, a[i] as int, a[j] as int, a[i] as int);
            lemma_induced_irreflexive(x, f, slot, a[i] as int);
        }
    }
}

/// The symbol and the type of a suffix as one number.
pub open spec fn typed(x: Seq<int>, i: int) -> int {
    2 * x[i] + bit(!is_l(x, i))
}

/// Whether `a` lists all suffixes by symbol and type.
pub open spec fn by_type(x: Seq<int>, a: Seq<i32>) -> bool {
    &&& a.len() == x.len()
    &&& forall|k: int| 0 <= k < a.len() ==> 0 <= #[trigger] a[k] < x.len()
    &&& forall|k: int, l: int| 0 <= k < l < a.len() ==> #[trigger] a[k] != #[trigger] a[l]
    &&& forall|k: int, l: int| 0 <= k < l < a.len() ==> typed(x, #[trigger] a[k] as int) <= typed(x, #[trigger] a[l] as int)
}

/// A suffix array lists suffixes by symbol and type.
pub proof fn lemma_sorted_by_type(x: Seq<int>, sa: Seq<i32>)
    requires
        is_suffix_array(x, sa),
    ensures
        by_type(x, sa),
{
    assert forall|k: int, l: int| 0 <= k < l < sa.len() implies #[trigger] sa[k] != #[trigger] sa[l] && typed(x, sa[k] as int)
        <= typed(x, sa[l] as int) by {
        let u = sa[k] as int;
        let v = sa[l] as int;
        assert(suffix_less(x, sa[k] as int, sa[l] as int));
        lemma_less_irreflexive(x, u);
        assert(0 <= u < x.len() && 0 <= v < x.len());
        if x[u] == x[v] && !is_l(x, u) && is_l(x, v) {
            law_l_before_s(x, v, u);
            lemma_less_transitive(x, u, v, u);
        }
    }
}

/// The induced order lists suffixes by symbol and type.
pub proof fn lemma_induced_by_type(x: Seq<int>, f: int, slot: spec_fn(int) -> int, a: Seq<i32>)
    requires
        is_induced(x, f, slot, a),
    ensures
        by_type(x, a),
{
    assert forall|k: int, l: int| 0 <= k < l < a.len() implies #[trigger] a[k] != #[trigger] a[l] && typed(x, a[k] as int)
        <= typed(x, a[l] as int) by {
        if a[k] == a[l] {
            lemma_induced_distinct(x, f, slot, a, k, l);
        }
        assert(induced_less(x, f, slot, a[k] as int, a[l] as int));
        lemma_keys(x, f, a[k] as int, a[l] as int);
    }
}

/// Lists by symbol and type agree in symbols and types.
pub proof fn lemma_types_agree(x: Seq<int>, a: Seq<i32>, b: Seq<i32>, j: int)
    requires
        by_type(x, a),
        by_type(x, b),
        0 <= j < x.len(),
    ensures
        typed(x, a[j] as int) == typed(x, b[j] as int),
        x[a[j] as int] == x[b[j] as int],
        is_l(x, a[j] as int) == is_l(x, b[j] as int),
{
    if typed(x, a[j] as int) < typed(x, b[j] as int) {
        lemma_no_smaller(x, a, b, j);
    }
    if typed(x, b[j] as int) < typed(x, a[j] as int) {
        lemma_no_smaller(x, b, a, j);
    }
}

/// No list by symbol and type runs ahead of another.
proof fn lemma_no_smaller(x: Seq<int>, a: Seq<i32>, b: Seq<i32>, j: int)
    requires
        by_type(x, a),
        by_type(x, b),
        0 <= j < x.len(),
    ensures
        typed(x, a[j] as int) >= typed(x, b[j] as int),
{
    if typed(x, a[j] as int) < typed(x, b[j] as int) {
        let heads = Set::new(|i: int| 0 <= i < j + 1);
        let f = |i: int| a[i] as int;
        let g = |i: int| b[i] as int;
        assert(heads =~= vstd::set_lib::set_int_range(0, j + 1));
        vstd::set_lib::lemma_int_range(0, j + 1);
        let fore = vstd::set_lib::set_int_range(0, j);
        vstd::set_lib::lemma_int_range(0, j);
        assert(vstd::relations::injective_on(f, heads)) by {
            assert forall|i: int, l: int| heads.contains(i) && heads.contains(l) && #[trigger] f(i) == #[trigger] f(l) implies i
                == l by {
                if i < l {
                    assert(a[i] != a[l]);
                } else if l < i {
                    assert(a[l] != a[i]);
                }
            }
        }
        vstd::set_lib::lemma_map_size(heads, heads.map(f), f);
        vstd::set_lib::lemma_map_size_bound(fore, fore.map(g), g);
        assert(heads.map(f).subset_of(fore.map(g))) by {
            assert forall|p: int| heads.map(f).contains(p) implies fore.map(g).contains(p) by {
                let i = choose|i: int| heads.contains(i) && f(i) == p;
                assert(0 <= a[i] < x.len());
                if i < j {
                    assert(typed(x, a[i] as int) <= typed(x, a[j] as int));
                }
                lemma_pigeonhole(b, p);
                let l = choose|l: int| 0 <= l < b.len() && #[trigger] b[l] == p;
                if l >= j {
                    if l > j {
                        assert(typed(x, b[j] as int) <= typed(x, b[l] as int));
                    }
                }
                assert(fore.contains(l) && g(l) == p);
            }
        }
        vstd::set_lib::lemma_len_subset(heads.map(f), fore.map(g));
    }
}

} // verus!
