//! The order of names: it is the order of the substrings, also when the suffixes that need not be
//! sorted again are left out.

use vstd::prelude::*;
use crate::gather::text32;
use crate::kinds::{is_l, is_lms};
use crate::marks::bit;
use crate::naming::{alone_at, fresh, lemma_listed_entry, name_at, settled};
use crate::partial_induction::substrings_sorted;
use crate::substrings::substring_less;

verus! {

/// What comes before something comes before or after everything else.
pub proof fn lemma_substring_between(x: Seq<int>, i: int, j: int, k: int)
    requires
        0 <= i,
        0 <= j,
        0 <= k,
        substring_less(x, i, j),
    ensures
        substring_less(x, i, k) || substring_less(x, k, j),
    decreases x.len() - i,
{
    if i < x.len() && j < x.len() && k < x.len() {
        if x[i] == x[j] && x[j] == x[k] && is_l(x, i) == is_l(x, j) && is_l(x, j) == is_l(x, k) {
            let a = is_lms(x, i + 1);
            let b = is_lms(x, j + 1);
            let c = is_lms(x, k + 1);
            if !(a && b) && !(a && c) && !(b && c) {
                lemma_substring_between(x, i + 1, j + 1, k + 1);
            } else if a && b && c {
            } else if a && b {
                assert(is_l(x, i));
                assert(k + 1 < x.len() ==> is_l(x, k + 1));
                assert(substring_less(x, i, k) == substring_less(x, i + 1, k + 1));
                assert(substring_less(x, k, j) == substring_less(x, k + 1, j + 1));
            } else if a && c {
                assert(j + 1 < x.len() ==> is_l(x, j + 1));
                assert(substring_less(x, i, j) == substring_less(x, i + 1, j + 1));
                assert(substring_less(x, k, j) == substring_less(x, k + 1, j + 1));
            } else {
                assert(i + 1 < x.len() ==> is_l(x, i + 1));
                assert(substring_less(x, i, j) == substring_less(x, i + 1, j + 1));
                assert(substring_less(x, i, k) == substring_less(x, i + 1, k + 1));
            }
        }
    }
}

/// No substring comes before itself.
pub proof fn lemma_substring_irreflexive(x: Seq<int>, i: int)
    ensures
        !substring_less(x, i, i),
    decreases x.len() - i,
{
    if i < x.len() {
        lemma_substring_irreflexive(x, i + 1);
    }
}

/// Names do not fall.
pub proof fn lemma_names_grow(x: Seq<int>, w: Seq<i32>, m: int, b: int, c: int)
    requires
        0 <= b <= c,
    ensures
        name_at(x, w, m, b) <= name_at(x, w, m, c),
    decreases c - b,
{
    if b < c {
        lemma_names_grow(x, w, m, b, c - 1);
    }
}

/// Where the name grows, a substring is fresh.
pub proof fn lemma_fresh_between(x: Seq<int>, w: Seq<i32>, m: int, b: int, c: int) -> (e: int)
    requires
        0 <= b < c,
        name_at(x, w, m, b) < name_at(x, w, m, c),
    ensures
        b < e <= c,
        fresh(x, w, m, e),
        forall|i: int| b < i < e ==> !#[trigger] fresh(x, w, m, i),
    decreases c - b,
{
    if name_at(x, w, m, b) < name_at(x, w, m, c - 1) {
        lemma_fresh_between(x, w, m, b, c - 1)
    } else {
        lemma_names_grow(x, w, m, b, c - 1);
        assert(fresh(x, w, m, c));
        assert forall|i: int| b < i < c implies !#[trigger] fresh(x, w, m, i) by {
            lemma_names_grow(x, w, m, b, i - 1);
            lemma_names_grow(x, w, m, i, c - 1);
        }
        c
    }
}

/// Names have the order of substrings.
pub proof fn lemma_names_order(t: Seq<i32>, w: Seq<i32>, m: int, b: int, c: int)
    requires
        substrings_sorted(t, w, m),
        0 <= b < m,
        0 <= c < m,
    ensures
        substring_less(text32(t), w[b] as int, w[c] as int) == (name_at(text32(t), w, m, b) < name_at(text32(t), w, m, c)),
{
    let x = text32(t);
    assert(is_lms(x, w[b] as int) && is_lms(x, w[c] as int));
    if b == c {
        lemma_substring_irreflexive(x, w[b] as int);
    } else if c < b {
        assert(!substring_less(x, w[b] as int, w[c] as int));
        lemma_names_grow(x, w, m, c, b);
    } else if name_at(x, w, m, b) < name_at(x, w, m, c) {
        let e = lemma_fresh_between(x, w, m, b, c);
        reveal(fresh);
        assert(is_lms(x, w[e] as int) && is_lms(x, w[e - 1] as int));
        lemma_substring_between(x, w[e - 1] as int, w[e] as int, w[b] as int);
        if b < e - 1 {
            assert(!substring_less(x, w[e - 1] as int, w[b] as int));
        } else {
            lemma_substring_irreflexive(x, w[b] as int);
        }
        lemma_substring_between(x, w[b] as int, w[e] as int, w[c] as int);
        if e < c {
            assert(!substring_less(x, w[c] as int, w[e] as int));
        } else {
            lemma_substring_irreflexive(x, w[c] as int);
        }
    } else {
        lemma_names_grow(x, w, m, b, c);
        lemma_same_name(t, w, m, b, c);
    }
}

/// What has the same name does not come first.
proof fn lemma_same_name(t: Seq<i32>, w: Seq<i32>, m: int, b: int, c: int)
    requires
        substrings_sorted(t, w, m),
        0 <= b <= c < m,
        name_at(text32(t), w, m, b) == name_at(text32(t), w, m, c),
    ensures
        !substring_less(text32(t), w[b] as int, w[c] as int),
    decreases c - b,
{
    let x = text32(t);
    if b == c {
        lemma_substring_irreflexive(x, w[b] as int);
    } else {
        lemma_names_grow(x, w, m, b, c - 1);
        lemma_same_name(t, w, m, b, c - 1);
        assert(!fresh(x, w, m, c));
        reveal(fresh);
        assert(is_lms(x, w[b] as int) && is_lms(x, w[c] as int) && is_lms(x, w[c - 1] as int));
        if substring_less(x, w[b] as int, w[c] as int) {
            lemma_substring_between(x, w[b] as int, w[c] as int, w[c - 1] as int);
        }
    }
}

/// Whether the sorted suffix `b` need not be sorted again.
#[verifier::opaque]
pub open spec fn settled_at(x: Seq<int>, w: Seq<i32>, m: int, b: int, lead: bool) -> bool {
    settled(x, w, m, w[b] as int, lead)
}

/// How many of the first `b` sorted suffixes need not be sorted again.
pub open spec fn drops(x: Seq<int>, w: Seq<i32>, m: int, b: int, lead: bool) -> int
    decreases b,
{
    if b <= 0 {
        0
    } else {
        drops(x, w, m, b - 1, lead) + bit(settled_at(x, w, m, b - 1, lead))
    }
}

/// What need not be sorted again has a name of its own.
pub proof fn lemma_settled_alone(t: Seq<i32>, w: Seq<i32>, m: int, b: int, lead: bool)
    requires
        t.len() <= i32::MAX,
        substrings_sorted(t, w, m),
        0 <= b < m,
        settled_at(text32(t), w, m, b, lead),
    ensures
        alone_at(text32(t), w, m, b, lead),
{
    reveal(settled_at);
    lemma_listed_entry(t, w, m, b);
}

/// The name of the sorted suffix `b` where the suffixes that need not be sorted again are left
/// out.
pub open spec fn short_name(x: Seq<int>, w: Seq<i32>, m: int, b: int, lead: bool) -> int {
    name_at(x, w, m, b) - drops(x, w, m, b, lead)
}

/// Short names do not fall, and start from one.
pub proof fn lemma_short_names_grow(t: Seq<i32>, w: Seq<i32>, m: int, b: int, c: int, lead: bool)
    requires
        t.len() <= i32::MAX,
        substrings_sorted(t, w, m),
        0 <= b <= c < m,
    ensures
        1 <= short_name(text32(t), w, m, b, lead) <= short_name(text32(t), w, m, c, lead),
        0 <= drops(text32(t), w, m, c, lead) <= c,
    decreases c,
{
    let x = text32(t);
    if b < c {
        lemma_short_names_grow(t, w, m, b, c - 1, lead);
        if settled_at(x, w, m, c - 1, lead) {
            lemma_settled_alone(t, w, m, c - 1, lead);
        }
    } else if c > 0 {
        lemma_short_names_grow(t, w, m, c - 1, c - 1, lead);
        if settled_at(x, w, m, c - 1, lead) {
            lemma_settled_alone(t, w, m, c - 1, lead);
        }
    }
}

/// Short names of suffixes that are sorted again have the order of names.
pub proof fn lemma_short_names_order(t: Seq<i32>, w: Seq<i32>, m: int, b: int, c: int, lead: bool)
    requires
        t.len() <= i32::MAX,
        substrings_sorted(t, w, m),
        0 <= b < m,
        0 <= c < m,
        !settled_at(text32(t), w, m, b, lead),
        !settled_at(text32(t), w, m, c, lead),
    ensures
        (name_at(text32(t), w, m, b) < name_at(text32(t), w, m, c)) == (short_name(text32(t), w, m, b, lead) < short_name(
            text32(t),
            w,
            m,
            c,
            lead,
        )),
{
    let x = text32(t);
    if b < c {
        lemma_names_grow(x, w, m, b, c);
        lemma_short_names_grow(t, w, m, b, c, lead);
        if name_at(x, w, m, b) < name_at(x, w, m, c) {
            let e = lemma_fresh_between(x, w, m, b, c);
            lemma_short_names_grow(t, w, m, b, e - 1, lead);
            lemma_short_names_grow(t, w, m, e, c, lead);
            if settled_at(x, w, m, e - 1, lead) {
                lemma_settled_alone(t, w, m, e - 1, lead);
                assert(fresh(x, w, m, e - 1));
            }
        } else {
            lemma_same_short_name(t, w, m, b, c, lead);
        }
    } else if c < b {
        lemma_names_grow(x, w, m, c, b);
        lemma_short_names_grow(t, w, m, c, b, lead);
    }
}

/// The same name is the same short name.
proof fn lemma_same_short_name(t: Seq<i32>, w: Seq<i32>, m: int, b: int, c: int, lead: bool)
    requires
        t.len() <= i32::MAX,
        substrings_sorted(t, w, m),
        0 <= b <= c < m,
        name_at(text32(t), w, m, b) == name_at(text32(t), w, m, c),
    ensures
        short_name(text32(t), w, m, b, lead) == short_name(text32(t), w, m, c, lead),
    decreases c - b,
{
    let x = text32(t);
    if b < c {
        lemma_names_grow(x, w, m, b, c - 1);
        lemma_same_short_name(t, w, m, b, c - 1, lead);
        if settled_at(x, w, m, c - 1, lead) {
            lemma_settled_alone(t, w, m, c - 1, lead);
        }
    }
}

/// A shared name does not stand alone.
pub proof fn lemma_shared_name(x: Seq<int>, w: Seq<i32>, m: int, b: int, c: int, lead: bool)
    requires
        0 <= b < c < m,
        name_at(x, w, m, b) == name_at(x, w, m, c),
    ensures
        !alone_at(x, w, m, b, lead),
        !alone_at(x, w, m, c, lead),
{
    lemma_names_grow(x, w, m, b + 1, c);
    lemma_names_grow(x, w, m, b, c - 1);
}

} // verus!
