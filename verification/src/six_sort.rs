//! Induced sorting with six buckets for each symbol: from the gathered leftmost suffixes of type S
//! to the order of all suffixes.

use vstd::prelude::*;
use crate::bounds::counted;
use crate::buckets::{
    initialize_buckets_for_lms_suffixes_radix_sort_32s_6k_run, initialize_buckets_for_partial_sorting_32s_6k_run,
};
use crate::gather::{
    cleared, count_and_gather_lms_suffixes_32s_2k_mode, count_and_gather_lms_suffixes_32s_4k_mode,
    count_and_gather_lms_suffixes_32s_4k_run, count_lms_suffixes_32s_2k_mode, text32, zeros,
};
use crate::induction::symbols_below;
use crate::kinds::is_lms;
use crate::lane_left::{mark_count, opens};
use crate::lane_names::{lane_name, lemma_lane_renumbered, lemma_low_marks, marks_names};
use crate::lane_restoring::lemma_lane_recounted;
use crate::lanes::{at, start, width};
use crate::laws::law_suffix_array_exists;
use crate::lengths::law_lms_few;
use crate::main_32s::{
    computes, induced, layout, lms_ordered, named, named_6k, names_sorted, ordered, ordered_4k, ordered_6k, radix_sorted_6k,
    reduced_sorted, SortState,
};
use crate::mark_names::{law_marked_names, lemma_low_exact, unmarked_all};
use crate::marks::marked;
use crate::order::is_suffix_array;
use crate::ordering::{law_sorted_lms_suffice_4k, law_sorted_lms_suffice_6k};
use crate::orders::partial_order_32s_6k;
use crate::partial_induction::lms_count;
use crate::placement::lms_sorted;
use crate::renumber::{renumber_and_gather_run, renumber_and_mark_distinct_4k_run};
use crate::segments::lemma_laid_field;
use crate::six_lanes::lemma_partial_buckets_6k;
use crate::six_radix::{lemma_marks_open, lemma_six_gathered, lemma_six_radix, pointed};
use crate::six_scans::{lemma_six_scans, six_ready};
use crate::two_buckets::{lemma_lms_counted, lemma_names_sort, lemma_single_sorted, name_listed};
use crate::types::PlaceState;

verus! {

/// What naming leaves of the substrings that `w` lists: where marks tell the substrings apart
/// exactly, their names in the order of their suffixes, elsewhere names that substrings may share.
pub open spec fn six_named(t: Seq<i32>, k: int, m: int, fs: int, w: Seq<i32>, marks: Seq<i32>, s: Seq<i32>, names: int) -> bool {
    let n = t.len() as int;
    let x = text32(t);
    if n / 8192 < k {
        name_listed(t, w, m, s, names, false)
    } else {
        &&& marks_names(t, w, m, marks)
        &&& names == mark_count(marks, m)
        &&& names < m ==> forall|p: int| #[trigger] is_lms(x, p) ==> s[n + fs - lms_count(x, p)] == lane_name(w, m, marks, p)
        &&& names >= m ==> lms_sorted(t, s, m)
    }
}

/// Naming the substrings.
#[verifier::spinoff_prover]
proof fn lemma_six_named(t: Seq<i32>, sa: Seq<i32>, k: int, fs: int, b: Seq<i32>) -> (r: (Seq<i32>, Seq<i32>))
    requires
        2 <= t.len() <= i32::MAX,
        0 <= fs,
        t.len() + fs <= sa.len() <= isize::MAX,
        symbols_below(t, k),
        1 <= k,
        6 * k == b.len(),
        lms_count(text32(t), 0) > 1,
    ensures
        ({
            let v = named_6k(t, sa, t.len() as int, k, fs, b);
            &&& v is Some
            &&& v.unwrap().0.len() == sa.len()
            &&& v.unwrap().1.len() == b.len()
            &&& v.unwrap().2 == lms_count(text32(t), 0)
            &&& six_named(t, k, v.unwrap().2, fs, r.0, r.1, v.unwrap().0, v.unwrap().3)
        }),
{
    let n = t.len() as int;
    let x = text32(t);
    let m = lms_count(x, 0);
    let mode = count_and_gather_lms_suffixes_32s_4k_mode();
    let exact = n / 8192 < k;
    law_lms_few(x);
    lemma_six_gathered(t, sa, k, b.len());
    let c = count_and_gather_lms_suffixes_32s_4k_run(x, sa, n, b.len(), 0, n)->0;
    let s: PlaceState = (c.0, c.1);
    let (cur, e) = lemma_six_radix(t, k, m, s);
    let f = s.0[n - m] as int;
    assert(is_lms(x, f));
    let a = initialize_buckets_for_lms_suffixes_radix_sort_32s_6k_run(x, k, s.1, f)->0;
    let z = radix_sorted_6k(t, n, k, m, (cleared(s.0, 0, n - m), a.0))->0;
    let (g, low) = lemma_laid_field(t, k, f, cur, exact);
    lemma_partial_buckets_6k(t, f, k, mode, z.1, a.1 as int);
    let p = initialize_buckets_for_partial_sorting_32s_6k_run(t, k, z.1, f, a.1 as int).unwrap().0;
    assert(six_ready(t, g, low, z.0, p)) by {
        assert forall|y: int| 0 <= y < width(g) && is_lms(g.x, #[trigger] at(g, y)) implies z.0[y] == marked(
            at(g, y) as i32,
            g.exact && opens(g, y),
        ) by {
            lemma_marks_open(t, g, e, y);
            assert(cur[y] == at(g, y));
            assert(z.0[y] == marked(cur[y], exact && pointed(e, k - 1, y)));
        }
        assert forall|d: int| 0 <= d < k implies p[#[trigger] (4 * d)] == start(g, d, false) by {}
        assert forall|d: int| 0 <= d < k implies p[#[trigger] (4 * d + 1)] == start(g, d, true) by {}
        assert forall|d: int| 0 <= d < k implies p[#[trigger] (4 * k + 2 * d)] == start(g, d + 1, false) by {}
        assert forall|d: int| 0 <= d < k implies p[#[trigger] (4 * k + 2 * d + 1)] == crate::lane_right::low_start(g, low, d + 1) by {}
    }
    lemma_six_scans(t, g, low, z.0, p);
    let o = partial_order_32s_6k(t, n, k, f, width(g), (z.0, p))->0;
    if exact {
        assert forall|i: int| 0 <= i < t.len() implies 0 <= #[trigger] t[i] by {
            assert(0 <= t[i] < k);
        }
        lemma_low_exact(t, g, low, o.0);
        law_marked_names(t, m, o.0);
        let v = renumber_and_mark_distinct_4k_run(o.0, n, m, 1, 1)->0;
        assert(named_6k(t, sa, n, k, fs, b) == Some((v.0, o.1, m, v.1)));
        (unmarked_all(o.0), o.0)
    } else {
        lemma_low_marks(t, g, low, o.0);
        lemma_lane_renumbered(t, low, m, o.0, fs);
        let v = renumber_and_gather_run(o.0, n, m, fs)->0;
        assert(named_6k(t, sa, n, k, fs, b) == Some((v.0, o.1, m, v.1 as int)));
        (low, o.0)
    }
}

/// Sorting by names sorts the leftmost suffixes of type S and counts all suffixes.
#[verifier::spinoff_prover]
proof fn lemma_six_names_sort(
    t: Seq<i32>,
    k: int,
    m: int,
    fs: int,
    w: Seq<i32>,
    marks: Seq<i32>,
    s: Seq<i32>,
    names: int,
    b: Seq<i32>,
    ok: bool,
    y: SortState,
)
    requires
        2 <= t.len(),
        symbols_below(t, k),
        1 <= k,
        2 * k <= b.len(),
        0 <= fs,
        t.len() + fs <= s.len() <= isize::MAX,
        t.len() + fs <= i32::MAX,
        1 <= m == lms_count(text32(t), 0),
        six_named(t, k, m, fs, w, marks, s, names),
        names_sorted(t.len() as int, k, m, names, fs, t.len() as int / 8192 < k, (t, s, b), ok, y),
    ensures
        ok,
        y.0 == t,
        y.1.len() == s.len(),
        y.2.len() == b.len(),
        lms_sorted(t, y.1, m),
        counted(t, count_and_gather_lms_suffixes_32s_2k_mode(), k, y.2) || counted(t, count_lms_suffixes_32s_2k_mode(), k, y.2),
{
    let n = t.len() as int;
    law_lms_few(text32(t));
    if n / 8192 < k {
        lemma_names_sort(t, w, k, m, s, names, fs, b, ok, y, false);
    } else if names >= m {
        lemma_lms_counted(t, k, b.len());
    } else {
        crate::lane_left::lemma_mark_count(marks, 0, m);
        let r = choose|r: Seq<i32>| #[trigger] reduced_sorted(s, r, n, m, 0, fs) && computes(
            crate::compact::reconstruct_compacted_2k_run(t, r, n, k, m, fs, 0, b, 0, 1, 1, 1),
            ok,
            y,
        );
        lemma_lane_recounted(t, k, w, m, marks, fs, s, r, b);
    }
}

/// What induced sorting with six buckets for each symbol starts from.
pub open spec fn six_buckets(t: Seq<i32>, sa: Seq<i32>, k: int, fs: int) -> bool {
    &&& 2 <= t.len()
    &&& 0 <= fs
    &&& t.len() + fs <= sa.len() <= isize::MAX
    &&& t.len() + fs <= i32::MAX
    &&& symbols_below(t, k)
    &&& 1 <= k <= i32::MAX
    &&& layout(t.len() as int, k, fs) == 6
}

/// One leftmost suffix of type S at most.
#[verifier::spinoff_prover]
proof fn lemma_six_single(t: Seq<i32>, sa: Seq<i32>, k: int, fs: int, ok: bool, u: Seq<i32>, r: Seq<i32>)
    requires
        six_buckets(t, sa, k, fs),
        lms_count(text32(t), 0) <= 1,
        induced(t, sa, t.len() as int, k, fs, ok, u, r),
    ensures
        ok,
        u == t,
        is_suffix_array(text32(t), r.subrange(0, t.len() as int)),
{
    let n = t.len() as int;
    let x = text32(t);
    let b = zeros((6 * k) as nat);
    law_suffix_array_exists(x);
    let order = choose|a: Seq<i32>| is_suffix_array(x, a);
    law_lms_few(x);
    let m = lms_count(x, 0);
    lemma_six_gathered(t, sa, k, b.len());
    let g = count_and_gather_lms_suffixes_32s_4k_run(x, sa, n, b.len(), 0, n)->0;
    let s = g.0.update(0, g.0[n - 1]);
    assert(named(t, sa, n, k, fs) == Some((s, g.1, m, m))) by {
        reveal(named);
    }
    lemma_single_sorted(t, g.0, s, m);
    let (done, y) = choose|done: bool, y: SortState|
        #[trigger] lms_ordered(n, k, fs, m, m, (t, s, g.1), done, y) && (if done {
            u == y.0 && computes(ordered(y.0, n, k, fs, m, (y.1, y.2)), ok, r)
        } else {
            !ok
        });
    assert(done && y == (t, s, g.1));
    assert(ordered(t, n, k, fs, m, (s, g.1)) == ordered_6k(t, n, k, m, (s, g.1))) by {
        reveal(ordered);
    }
    law_sorted_lms_suffice_6k(t, order, s, m, k, count_and_gather_lms_suffixes_32s_4k_mode(), g.1);
}

/// Several leftmost suffixes of type S.
#[verifier::spinoff_prover]
proof fn lemma_six_several(t: Seq<i32>, sa: Seq<i32>, k: int, fs: int, ok: bool, u: Seq<i32>, r: Seq<i32>)
    requires
        six_buckets(t, sa, k, fs),
        lms_count(text32(t), 0) > 1,
        induced(t, sa, t.len() as int, k, fs, ok, u, r),
    ensures
        ok,
        u == t,
        is_suffix_array(text32(t), r.subrange(0, t.len() as int)),
{
    let n = t.len() as int;
    let x = text32(t);
    let b = zeros((6 * k) as nat);
    law_suffix_array_exists(x);
    let order = choose|a: Seq<i32>| is_suffix_array(x, a);
    law_lms_few(x);
    let m = lms_count(x, 0);
    let (w, marks) = lemma_six_named(t, sa, k, fs, b);
    let v = named_6k(t, sa, n, k, fs, b)->0;
    assert(named(t, sa, n, k, fs) == Some(v)) by {
        reveal(named);
    }
    let (done, y) = choose|done: bool, y: SortState|
        #[trigger] lms_ordered(n, k, fs, m, v.3, (t, v.0, v.1), done, y) && (if done {
            u == y.0 && computes(ordered(y.0, n, k, fs, m, (y.1, y.2)), ok, r)
        } else {
            !ok
        });
    lemma_six_names_sort(t, k, m, fs, w, marks, v.0, v.3, v.1, done, y);
    assert(ordered(t, n, k, fs, m, (y.1, y.2)) == ordered_4k(t, n, k, m, (y.1, y.2))) by {
        reveal(ordered);
    }
    if counted(t, count_and_gather_lms_suffixes_32s_2k_mode(), k, y.2) {
        law_sorted_lms_suffice_4k(t, order, y.1, m, k, count_and_gather_lms_suffixes_32s_2k_mode(), y.2);
    } else {
        law_sorted_lms_suffice_4k(t, order, y.1, m, k, count_lms_suffixes_32s_2k_mode(), y.2);
    }
}

/// Induced sorting sorts, with six buckets for each symbol: naming the LMS substrings, sorting
/// the LMS suffixes by their names, with the help of a sorted reduced text, and inducing the
/// order of all suffixes never fails, leaves the suffix array, and leaves the text as it was.
pub proof fn law_six_buckets_sort(t: Seq<i32>, sa: Seq<i32>, k: int, fs: int, ok: bool, u: Seq<i32>, r: Seq<i32>)
    requires
        six_buckets(t, sa, k, fs),
        induced(t, sa, t.len() as int, k, fs, ok, u, r),
    ensures
        ok,
        u == t,
        is_suffix_array(text32(t), r.subrange(0, t.len() as int)),
{
    if lms_count(text32(t), 0) <= 1 {
        lemma_six_single(t, sa, k, fs, ok, u, r);
    } else {
        lemma_six_several(t, sa, k, fs, ok, u, r);
    }
}

} // verus!
