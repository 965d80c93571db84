//! Induced sorting with one bucket for each symbol, from the text to its suffix array.

use vstd::prelude::*;
use crate::bounds::{law_bucket_bounds_1k, law_final_order_1k};
use crate::compact::compact_lms_run;
use crate::compaction::{compactable, law_compacted, lemma_left_counts};
use crate::gather::{cleared, text32, zeros};
use crate::induction::symbols_below;
use crate::kinds::is_lms;
use crate::laws::law_suffix_array_exists;
use crate::lengths::law_lms_few;
use crate::main_32s::{
    computes, induced, layout, lms_ordered, named, named_1k, names_sorted_1k, ordered, ordered_1k,
    reduced_refused, reduced_sorted, SortState,
};
use crate::name_order::{drops, lemma_names_order, lemma_short_names_grow};
use crate::naming::{law_names, lemma_name_bound, name_at, nameable};
use crate::order::{is_suffix_array, suffix_less};
use crate::orders::{bucket_ends_1k, partial_order_32s_1k};
use crate::partial_induction::lms_count;
use crate::placement::{among, law_sorted_lms_suffice, lms_sorted};
use crate::radix::radix_sort_lms_suffixes_32s_1k_run;
use crate::rebuild::law_restored;
use crate::renumber::renumber_and_mark_distinct_1k_run;
use crate::scattering::{law_partial_order_sorts, lemma_radix_single};
use crate::substrings::law_substrings_decide;
use crate::types::PlaceState;

verus! {

/// Where every suffix has a name of its own, names count slots.
proof fn lemma_names_full(x: Seq<int>, w: Seq<i32>, m: int, b: int, c: int)
    requires
        0 <= b <= c,
        name_at(x, w, m, c) == c + 1,
    ensures
        name_at(x, w, m, b) == b + 1,
    decreases c,
{
    if b < c {
        lemma_name_bound(x, w, m, c - 1);
        lemma_names_full(x, w, m, b, c - 1);
    }
}

/// Suffixes that all have names of their own are sorted.
pub proof fn lemma_all_alone(t: Seq<i32>, w: Seq<i32>, m: int, s: Seq<i32>)
    requires
        nameable(t, w, m),
        name_at(text32(t), w, m, m - 1) >= m,
        m <= s.len(),
        forall|j: int| 0 <= j < m ==> #[trigger] s[j] == w[j],
    ensures
        lms_sorted(t, s, m),
{
    let x = text32(t);
    lemma_name_bound(x, w, m, m - 1);
    assert forall|b: int| 0 <= b < m implies is_lms(x, #[trigger] s[b] as int) by {
        assert(s[b] == w[b]);
    }
    assert forall|b: int, c: int| 0 <= b < c < m implies suffix_less(x, #[trigger] s[b] as int, #[trigger] s[c] as int) by {
        assert(s[b] == w[b] && s[c] == w[c]);
        lemma_names_full(x, w, m, b, m - 1);
        lemma_names_full(x, w, m, c, m - 1);
        lemma_names_order(t, w, m, b, c);
        assert(is_lms(x, w[b] as int) && is_lms(x, w[c] as int));
        law_substrings_decide(x, w[b] as int, w[c] as int);
    }
    assert forall|p: int| #[trigger] is_lms(x, p) implies among(s, 0, m, p as i32) by {
        let b = crate::placement::lemma_found(w, 0, m, p as i32);
        assert(s[b] == w[b]);
        crate::placement::lemma_among(s, 0, m, b);
    }
}

/// The reduced text fits in the space that is left.
pub proof fn lemma_reduced_fits(t: Seq<i32>, w: Seq<i32>, m: int, fs: int, lead: bool)
    requires
        nameable(t, w, m),
        0 <= fs,
        t.len() + fs <= i32::MAX,
    ensures
        !reduced_refused(t.len() as int, m, drops(text32(t), w, m, m, lead), name_at(text32(t), w, m, m - 1), fs),
{
    let x = text32(t);
    law_lms_few(x);
    lemma_left_counts(t, w, m, 0, lead);
    lemma_short_names_grow(t, w, m, m - 1, m - 1, lead);
}

/// Sorting by names sorts the leftmost suffixes of type S.
proof fn lemma_names_sort_1k(
    t: Seq<i32>,
    w: Seq<i32>,
    m: int,
    s: Seq<i32>,
    names: int,
    fs: int,
    ok: bool,
    y: PlaceState,
)
    requires
        nameable(t, w, m),
        forall|i: int| 0 <= i < t.len() ==> 0 <= #[trigger] t[i],
        renumber_and_mark_distinct_1k_run(t, w, t.len() as int, m, 1) == Some((s, names)),
        0 <= fs,
        t.len() + fs <= s.len() <= isize::MAX,
        t.len() + fs <= i32::MAX,
        names_sorted_1k(t.len() as int, m, names, fs, (t, s), ok, y),
    ensures
        ok,
        y.0 == t,
        y.1.len() == s.len(),
        lms_sorted(t, y.1, m),
{
    let n = t.len() as int;
    law_names(t, w, m);
    law_lms_few(text32(t));
    if names >= m {
        lemma_all_alone(t, w, m, s);
    } else {
        assert(compactable(t, w, m, s, true));
        law_compacted(t, w, m, s, fs, true);
        lemma_reduced_fits(t, w, m, fs, true);
        let c = compact_lms_run(t, s, n, m, fs)->0;
        let r = choose|r: Seq<i32>| #[trigger] reduced_sorted(c.1, r, n, m, c.2 as int, fs) && computes(
            crate::compact::reconstruct_compacted_1k_run(c.0, r, n, m, fs, c.2 as int, 1, 1),
            ok,
            y,
        );
        law_restored(t, w, m, s, fs, r, true);
    }
}

/// Induced sorting sorts, with one bucket for each symbol: naming the LMS substrings, sorting
/// the LMS suffixes by their names, with the help of a sorted reduced text, and inducing the
/// order of all suffixes never fails, leaves the suffix array, and leaves the text as it was.
pub proof fn law_one_bucket_sorts(t: Seq<i32>, sa: Seq<i32>, k: int, fs: int, ok: bool, u: Seq<i32>, r: Seq<i32>)
    requires
        2 <= t.len(),
        0 <= fs,
        t.len() + fs <= sa.len() <= isize::MAX,
        t.len() + fs <= i32::MAX,
        symbols_below(t, k),
        1 <= k <= i32::MAX,
        layout(t.len() as int, k, fs) == 1,
        induced(t, sa, t.len() as int, k, fs, ok, u, r),
    ensures
        ok,
        u == t,
        is_suffix_array(text32(t), r.subrange(0, t.len() as int)),
{
    let n = t.len() as int;
    let x = text32(t);
    let b = zeros((1 * k) as nat);
    let z = cleared(sa, 0, n);
    law_suffix_array_exists(x);
    let order = choose|a: Seq<i32>| is_suffix_array(x, a);
    law_lms_few(x);
    law_bucket_bounds_1k(t, order, k, b);
    law_partial_order_sorts(t, z, k, b);
    let ends = bucket_ends_1k(t, n, k, b)->0;
    let s0 = radix_sort_lms_suffixes_32s_1k_run(t, z, n, ends)->0;
    let m = lms_count(x, 0);
    assert(s0.2 == m);
    assert(named(t, sa, n, k, fs) == named_1k(t, sa, n, k, b)) by {
        reveal(named);
    }
    assert forall|i: int| 0 <= i < n implies 0 <= #[trigger] t[i] by {}
    if m <= 1 {
        lemma_radix_single(t, order, z, k, ends);
        assert(named(t, sa, n, k, fs) == Some((s0.0, s0.1, m, m)));
        let (done, y) = choose|done: bool, y: SortState|
            #[trigger] lms_ordered(n, k, fs, m, m, (t, s0.0, s0.1), done, y) && (if done {
                u == y.0 && computes(ordered(y.0, n, k, fs, m, (y.1, y.2)), ok, r)
            } else {
                !ok
            });
        assert(done && y == (t, s0.0, s0.1));
        assert(ordered(t, n, k, fs, m, (s0.0, s0.1)) == ordered_1k(t, n, k, m, (s0.0, s0.1))) by {
            reveal(ordered);
        }
        law_final_order_1k(t, order, s0.0, k, s0.1);
    } else {
        let o = partial_order_32s_1k(t, n, k, (s0.0, s0.1))->0;
        let w = o.0;
        assert(nameable(t, w, m));
        law_names(t, w, m);
        let (s, names) = renumber_and_mark_distinct_1k_run(t, w, n, m, 1)->0;
        assert(named(t, sa, n, k, fs) == Some((s, o.1, m, names)));
        let (done, y) = choose|done: bool, y: SortState|
            #[trigger] lms_ordered(n, k, fs, m, names, (t, s, o.1), done, y) && (if done {
                u == y.0 && computes(ordered(y.0, n, k, fs, m, (y.1, y.2)), ok, r)
            } else {
                !ok
            });
        lemma_names_sort_1k(t, w, m, s, names, fs, done, (y.0, y.1));
        assert(ordered(t, n, k, fs, m, (y.1, o.1)) == ordered_1k(t, n, k, m, (y.1, o.1))) by {
            reveal(ordered);
        }
        law_sorted_lms_suffice(t, order, y.1, m, k, o.1);
    }
}

} // verus!
