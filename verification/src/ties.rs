//! What the partial scans of lanes take for equal: chains of symbols up to the next leftmost
//! suffix of type S that agree, or that the symbols at their ends tell apart.

use vstd::prelude::*;
use crate::kinds::{is_l, is_lms, law_type_step};
use crate::substrings::{class_of, key_of, lemma_keys, lemma_next_class, met_less};

verus! {

/// The symbol at the end of the chain that starts at `u`: that of the first leftmost suffix of
/// type S from there on. The end of the text comes before all symbols.
pub open spec fn stop_symbol(x: Seq<int>, u: int) -> int
    decreases x.len() - u,
{
    if u >= x.len() {
        -1
    } else if is_lms(x, u) {
        x[u]
    } else {
        stop_symbol(x, u + 1)
    }
}

/// Whether the chains at `u` and `v` are the same, with the symbols at their ends.
pub open spec fn same_chain(x: Seq<int>, u: int, v: int) -> bool
    decreases x.len() - u,
{
    if u >= x.len() || v >= x.len() {
        u >= x.len() && v >= x.len()
    } else if x[u] != x[v] {
        false
    } else if is_lms(x, u) || is_lms(x, v) {
        is_lms(x, u) && is_lms(x, v)
    } else {
        is_l(x, u) == is_l(x, v) && same_chain(x, u + 1, v + 1)
    }
}

/// Whether the chains at `u` and `v` are the same, or that at `u` ends with a smaller symbol.
pub open spec fn tied(x: Seq<int>, u: int, v: int) -> bool {
    same_chain(x, u, v) || stop_symbol(x, u) < stop_symbol(x, v)
}

/// Same chains end with the same symbol.
pub proof fn lemma_same_stop(x: Seq<int>, u: int, v: int)
    requires
        same_chain(x, u, v),
    ensures
        stop_symbol(x, u) == stop_symbol(x, v),
    decreases x.len() - u,
{
    if u < x.len() && v < x.len() && !is_lms(x, u) {
        lemma_same_stop(x, u + 1, v + 1);
    }
}

/// Being the same is transitive.
pub proof fn lemma_same_transitive(x: Seq<int>, u: int, v: int, w: int)
    requires
        same_chain(x, u, v),
        same_chain(x, v, w),
    ensures
        same_chain(x, u, w),
    decreases x.len() - u,
{
    if u < x.len() && v < x.len() && w < x.len() && !is_lms(x, u) {
        lemma_same_transitive(x, u + 1, v + 1, w + 1);
    }
}

/// Being the same is symmetric.
pub proof fn lemma_same_symmetric(x: Seq<int>, u: int, v: int)
    requires
        same_chain(x, u, v),
    ensures
        same_chain(x, v, u),
    decreases x.len() - u,
{
    if u < x.len() && v < x.len() && !is_lms(x, u) {
        lemma_same_symmetric(x, u + 1, v + 1);
    }
}

/// Ties are transitive.
pub proof fn lemma_tied_transitive(x: Seq<int>, u: int, v: int, w: int)
    requires
        tied(x, u, v),
        tied(x, v, w),
    ensures
        tied(x, u, w),
{
    if same_chain(x, u, v) {
        lemma_same_stop(x, u, v);
        if same_chain(x, v, w) {
            lemma_same_transitive(x, u, v, w);
        }
    } else if same_chain(x, v, w) {
        lemma_same_stop(x, v, w);
    }
}

/// Chains of the same symbols and types in front of others are tied as these are.
pub proof fn lemma_tied_in_front(x: Seq<int>, u: int, v: int)
    requires
        0 <= u < x.len(),
        0 <= v < x.len(),
        x[u] == x[v],
        is_l(x, u) == is_l(x, v),
        !is_lms(x, u),
        !is_lms(x, v),
    ensures
        tied(x, u, v) == tied(x, u + 1, v + 1),
        same_chain(x, u, v) == same_chain(x, u + 1, v + 1),
{
}

/// A chain of type L ends with a smaller symbol.
pub proof fn lemma_stop_below(x: Seq<int>, u: int)
    requires
        0 <= u < x.len(),
        is_l(x, u),
        forall|i: int| 0 <= i < x.len() ==> 0 <= #[trigger] x[i],
    ensures
        stop_symbol(x, u) < x[u],
    decreases x.len() - u,
{
    assert(0 <= x[u]);
    assert(stop_symbol(x, u) == stop_symbol(x, u + 1));
    if u + 1 < x.len() {
        law_type_step(x, u);
        if is_l(x, u + 1) {
            lemma_stop_below(x, u + 1);
        } else {
            assert(is_lms(x, u + 1));
            assert(stop_symbol(x, u + 1) == x[u + 1]);
        }
    } else {
        assert(stop_symbol(x, u + 1) == -1);
    }
}

/// What the scan to the right meets between two of the same chain is of that chain.
pub proof fn lemma_met_between(x: Seq<int>, f: int, slot: spec_fn(int) -> int, u: int, z: int, v: int)
    requires
        0 <= f < u,
        f < v,
        f < z,
        is_l(x, u) || is_lms(x, u),
        is_l(x, v) || is_lms(x, v),
        met_less(x, f, slot, u, z),
        met_less(x, f, slot, z, v),
        same_chain(x, u, v),
        u < x.len(),
    ensures
        same_chain(x, u, z),
        is_l(x, z) == is_l(x, u),
        x[z] == x[u],
    decreases x.len() - u,
{
    lemma_keys(x, f, u, z);
    lemma_keys(x, f, z, v);
    lemma_keys(x, f, u, v);
    lemma_keys(x, f, z, u);
    lemma_keys(x, f, v, z);
    assert(class_of(x, f, u) == class_of(x, f, v));
    assert(key_of(x, f, u) == key_of(x, f, z));
    if is_l(x, u) {
        assert(met_less(x, f, slot, u + 1, z + 1));
        assert(met_less(x, f, slot, z + 1, v + 1));
        if u + 1 < x.len() {
            lemma_next_class(x, f, u);
            assert(v + 1 < x.len() && z + 1 < x.len());
            lemma_next_class(x, f, v);
            lemma_met_between(x, f, slot, u + 1, z + 1, v + 1);
        } else {
            assert(same_chain(x, u + 1, v + 1));
            assert(v + 1 >= x.len());
        }
    }
}

} // verus!
