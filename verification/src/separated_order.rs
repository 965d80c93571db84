//! Why the final scans over separated texts sort them: one bucket for the separators does what a
//! bucket for each of them would do.

use vstd::prelude::*;
use crate::bounds::{count_below, lemma_sums_are_ends, lemma_sums_are_starts};
use crate::bytes::well_separated;
use crate::final_scan::{
    before32, before8, final_gsa_scan_right_to_left_8u_run, final_gsa_scan_right_to_left_8u_step,
    final_sorting_scan_left_to_right_32s_step, final_sorting_scan_left_to_right_8u_step,
    final_sorting_scan_right_to_left_32s_step,
};
use crate::fold::{fold_down, fold_up};
use crate::gather::{text32, text8};
use crate::induce::{final_left_32s, final_left_8u, seeded_32s_1k, seeded_8u_1k};
use crate::induction::{
    bucket_ends, bucket_starts, entry_l, left_entry, left_state, lemma_left_run, lemma_left_scan, lemma_left_start,
    lemma_left_step, lemma_right_run, lemma_right_step, lms_in_place, prepared, right_state,
};
use crate::induction_8u::wide;
use crate::kinds::{is_l, is_lms};
use crate::marks::{flipped, unmarked};
use crate::order::{is_suffix_array, lemma_suffix_array_distinct};
use crate::orders::final_order_8u;
use crate::radix::flipped_prefix;
use crate::separators::{
    closed_before, lemma_closed_before, lemma_ranked, lemma_ranked_lms, lemma_ranked_types, lemma_separator_alone, ranked,
    ranked_symbol, ranked_symbols, separators,
};
use crate::types::PlaceState;

verus! {

/// Whether the buckets hold the first slots and the ends of the buckets of all bytes.
pub open spec fn byte_bounds(t: Seq<u8>, b: Seq<i32>) -> bool {
    &&& 2048 <= b.len()
    &&& forall|c: int| 0 <= c < 256 ==> b[#[trigger] (1536 + c)] == count_below(wide(t), c, t.len() as int)
    &&& forall|c: int| 0 <= c < 256 ==> b[#[trigger] (1792 + c)] == count_below(wide(t), c + 1, t.len() as int)
}

/// The first slots of the buckets of the small symbols.
pub open spec fn ranked_starts(t: Seq<u8>) -> Seq<i32> {
    Seq::new(ranked_symbols(t) as nat, |c: int| count_below(ranked(t), c, t.len() as int) as i32)
}

/// The ends of the buckets of the small symbols.
pub open spec fn ranked_ends(t: Seq<u8>) -> Seq<i32> {
    Seq::new(ranked_symbols(t) as nat, |c: int| count_below(ranked(t), c + 1, t.len() as int) as i32)
}

/// Counts of smaller symbols.
proof fn lemma_count_ranked(t: Seq<u8>, c: int, h: int)
    requires
        2 <= t.len() <= i32::MAX,
        well_separated(t),
        0 <= h <= t.len(),
    ensures
        0 <= count_below(ranked(t), c, h) <= h,
        1 <= c <= 256 ==> count_below(ranked(t), ranked_symbol(t, c), h) == count_below(wide(t), c, h),
        0 <= c <= separators(t) ==> count_below(ranked(t), c, h) == (if closed_before(t, h) < c {
            closed_before(t, h)
        } else {
            c
        }),
    decreases h,
{
    lemma_ranked(t);
    lemma_closed_before(t, h);
    if h > 0 {
        lemma_count_ranked(t, c, h - 1);
        lemma_closed_before(t, h - 1);
        assert(t[h - 1] == 0 || t[h - 1] != 0);
        assert(wide(t)[h - 1] == t[h - 1]);
    }
}

/// What the bounds of the buckets of bytes say of the small symbols.
pub proof fn lemma_ranked_bounds(t: Seq<u8>, order: Seq<i32>, b: Seq<i32>)
    requires
        2 <= t.len() <= i32::MAX,
        well_separated(t),
        byte_bounds(t, b),
        is_suffix_array(text32(ranked(t)), order),
    ensures
        bucket_starts(ranked(t), order, ranked_symbols(t), ranked_starts(t)),
        bucket_ends(ranked(t), order, ranked_symbols(t), ranked_ends(t)),
        b[1792] == separators(t),
        forall|c: int| 1 <= c < 256 ==> b[#[trigger] (1536 + c)] == ranked_starts(t)[ranked_symbol(t, c)],
        forall|c: int| 1 <= c < 256 ==> b[#[trigger] (1792 + c)] == ranked_ends(t)[ranked_symbol(t, c)],
        forall|c: int| 0 <= c < separators(t) ==> #[trigger] ranked_starts(t)[c] == c,
        forall|c: int| 0 <= c < separators(t) ==> #[trigger] ranked_ends(t)[c] == c + 1,
        forall|j: int| 0 <= j < separators(t) ==> ranked(t)[#[trigger] order[j] as int] == j && t[order[j] as int] == 0,
        forall|j: int| separators(t) <= j < t.len() ==> t[#[trigger] order[j] as int] != 0,
        order[separators(t) - 1] == t.len() - 1,
{
    let n = t.len() as int;
    let w = ranked(t);
    let k = ranked_symbols(t);
    let z = separators(t);
    let starts = ranked_starts(t);
    let ends = ranked_ends(t);
    lemma_ranked(t);
    lemma_closed_before(t, n);
    assert forall|c: int| 0 <= c < k implies #[trigger] starts[c] == count_below(w, c, n) by {
        lemma_count_ranked(t, c, n);
    }
    assert forall|c: int| 0 <= c < k implies #[trigger] ends[c] == count_below(w, c + 1, n) by {
        lemma_count_ranked(t, c + 1, n);
    }
    lemma_sums_are_starts(w, order, k, starts);
    lemma_sums_are_ends(w, order, k, ends);
    let zero: int = 0;
    assert(b[1792 + zero] == count_below(wide(t), zero + 1, n));
    lemma_count_ranked(t, 1, n);
    lemma_count_ranked(t, z, n);
    assert(ranked_symbol(t, 1) == z);
    assert forall|c: int| 1 <= c < 256 implies b[#[trigger] (1536 + c)] == starts[ranked_symbol(t, c)] by {
        lemma_count_ranked(t, c, n);
        assert(starts[ranked_symbol(t, c)] == count_below(w, ranked_symbol(t, c), n));
    }
    assert forall|c: int| 1 <= c < 256 implies b[#[trigger] (1792 + c)] == ends[ranked_symbol(t, c)] by {
        lemma_count_ranked(t, c + 1, n);
        assert(ends[ranked_symbol(t, c)] == count_below(w, ranked_symbol(t, c) + 1, n));
        assert(ranked_symbol(t, c) + 1 == ranked_symbol(t, c + 1));
    }
    assert forall|c: int| 0 <= c < z implies #[trigger] starts[c] == c by {
        lemma_count_ranked(t, c, n);
    }
    assert forall|c: int| 0 <= c < z implies #[trigger] ends[c] == c + 1 by {
        lemma_count_ranked(t, c + 1, n);
    }
    assert forall|j: int| 0 <= j < z implies w[#[trigger] order[j] as int] == j && t[order[j] as int] == 0 by {
        assert(starts[j] == j);
        assert(ends[j] == j + 1);
        assert((w[order[j] as int] < j) == (j < starts[j]));
        assert((w[order[j] as int] <= j) == (j < ends[j]));
        let p = order[j] as int;
        assert(t[p] == 0 || t[p] != 0);
    }
    assert forall|j: int| z <= j < n implies t[#[trigger] order[j] as int] != 0 by {
        assert(ends[z - 1] == z);
        assert((w[order[j] as int] <= z - 1) == (j < ends[z - 1]));
        let p = order[j] as int;
        assert(0 <= p < n);
        assert(t[p] == 0 || t[p] != 0);
    }
    assert(0 <= order[z - 1] < n);
    lemma_separator_alone(t, order[z - 1] as int, n - 1);
}

/// Everything that the scans over separated texts start from.
pub open spec fn separated_prepared(t: Seq<u8>, order: Seq<i32>, s: Seq<i32>, b: Seq<i32>) -> bool {
    &&& 2 <= t.len() <= i32::MAX
    &&& well_separated(t)
    &&& byte_bounds(t, b)
    &&& is_suffix_array(text32(ranked(t)), order)
    &&& lms_in_place(ranked(t), order, s)
}

/// Whether the buckets of bytes stand as those of the small symbols.
spec fn same_buckets(t: Seq<u8>, b: Seq<i32>, v: Seq<i32>) -> bool {
    &&& b.len() == 256
    &&& v.len() == ranked_symbols(t)
    &&& forall|c: int| 1 <= c < 256 ==> #[trigger] b[c] == v[ranked_symbol(t, c)]
}

/// A byte that is no separator stands to the one in front as its symbol does.
proof fn lemma_ranked_front(t: Seq<u8>, q: int)
    requires
        2 <= t.len() <= i32::MAX,
        well_separated(t),
        0 <= q < t.len(),
        t[q] != 0,
    ensures
        ranked(t)[q] == ranked_symbol(t, t[q] as int),
        (before32(ranked(t), q) < ranked(t)[q]) == (before8(t, q) < t[q]),
        (before32(ranked(t), q) > ranked(t)[q]) == (before8(t, q) > t[q]),
{
    lemma_ranked(t);
    let o = if q > 0 {
        q - 1
    } else {
        q
    };
    assert(t[o] == 0 || t[o] != 0);
}

/// A step of the scan to the right follows the one with a bucket for each separator.
#[verifier::spinoff_prover]
proof fn lemma_closing_left_step(t: Seq<u8>, order: Seq<i32>, s: Seq<i32>, b0: Seq<i32>, st: PlaceState, sv: PlaceState, i: int)
    requires
        separated_prepared(t, order, s, b0),
        prepared(ranked(t), order, s, ranked_symbols(t), ranked_starts(t), ranked_ends(t)),
        left_state(ranked(t), order, s, ranked_symbols(t), ranked_starts(t), sv, i),
        0 <= i < t.len(),
        st.0 == sv.0,
        same_buckets(t, st.1, sv.1),
    ensures
        ({
            let x = final_sorting_scan_left_to_right_8u_step(t)(st, i);
            let y = final_sorting_scan_left_to_right_32s_step(ranked(t))(sv, i);
            &&& x is Some
            &&& y is Some
            &&& x.unwrap().0 == y.unwrap().0
            &&& same_buckets(t, x.unwrap().1, y.unwrap().1)
        }),
{
    let w = ranked(t);
    let n = t.len() as int;
    let k = ranked_symbols(t);
    let starts = ranked_starts(t);
    lemma_ranked(t);
    lemma_ranked_bounds(t, order, b0);
    lemma_left_step(w, order, s, k, starts, ranked_ends(t), sv, i);
    let p = sv.0[i];
    if p > 0 {
        let q = p - 1;
        let y = final_sorting_scan_left_to_right_32s_step(w)(sv, i)->0;
        assert(p == left_entry(w, order, s, i, i));
        assert(0 <= order[i] < n);
        assert(p < n);
        let x = sv.1[w[q] as int];
        if t[q] == 0 {
            let c = w[q] as int;
            assert(y.1[c] == x + 1);
            assert(starts[c] <= sv.1[c]);
            assert(w[order[x as int] as int] == c && is_l(text32(w), order[x as int] as int));
            assert(0 <= order[x as int] < n);
            lemma_separator_alone(t, q, order[x as int] as int);
            lemma_ranked_types(t, q);
        }
        lemma_ranked_front(t, q);
        assert(st.1[t[q] as int] == sv.1[ranked_symbol(t, t[q] as int)]);
        let z = final_sorting_scan_left_to_right_8u_step(t)(st, i)->0;
        assert(z.0 == y.0);
        assert forall|c: int| 1 <= c < 256 implies #[trigger] z.1[c] == y.1[ranked_symbol(t, c)] by {
            assert(st.1[c] == sv.1[ranked_symbol(t, c)]);
        }
    }
}

/// The scan to the right follows the one with a bucket for each separator.
proof fn lemma_closing_left(t: Seq<u8>, order: Seq<i32>, s: Seq<i32>, b: Seq<i32>, i: int)
    requires
        separated_prepared(t, order, s, b),
        0 <= i <= t.len(),
    ensures
        ({
            let n = t.len() as int;
            let o = (s, b.update(1536, (separators(t) - 1) as i32).subrange(1536, 1792));
            let first = seeded_8u_1k(t, n, o);
            let second = seeded_32s_1k(ranked(t), n, (s, ranked_starts(t)));
            let x = fold_up(final_sorting_scan_left_to_right_8u_step(t), first->0, 0, i);
            let y = fold_up(final_sorting_scan_left_to_right_32s_step(ranked(t)), second->0, 0, i);
            &&& first is Some
            &&& second is Some
            &&& x is Some
            &&& y is Some
            &&& x.unwrap().0 == y.unwrap().0
            &&& same_buckets(t, x.unwrap().1, y.unwrap().1)
        }),
    decreases i,
{
    let n = t.len() as int;
    let w = ranked(t);
    let k = ranked_symbols(t);
    let z = separators(t);
    let starts = ranked_starts(t);
    let ends = ranked_ends(t);
    let o = (s, b.update(1536, (z - 1) as i32).subrange(1536, 1792));
    lemma_ranked(t);
    lemma_ranked_bounds(t, order, b);
    assert(prepared(w, order, s, k, starts, ends));
    lemma_left_start(w, order, s, k, starts, ends);
    lemma_ranked_types(t, n - 1);
    assert(starts[z - 1] == z - 1);
    let first = seeded_8u_1k(t, n, o);
    let second = seeded_32s_1k(w, n, (s, starts))->0;
    assert(first.unwrap().0 == second.0);
    assert(same_buckets(t, first.unwrap().1, second.1)) by {
        assert forall|c: int| 1 <= c < 256 implies #[trigger] first.unwrap().1[c] == second.1[ranked_symbol(t, c)] by {
            assert(o.1[c] == b[1536 + c]);
        }
    }
    if i > 0 {
        lemma_closing_left(t, order, s, b, i - 1);
        lemma_left_run(w, order, s, k, starts, ends, i - 1);
        let st = fold_up(final_sorting_scan_left_to_right_8u_step(t), first->0, 0, i - 1)->0;
        let sv = fold_up(final_sorting_scan_left_to_right_32s_step(w), second, 0, i - 1)->0;
        lemma_closing_left_step(t, order, s, b, st, sv, i - 1);
    }
}

/// How the arrays of the scan to the left stand to each other.
spec fn closing_follows(t: Seq<u8>, y: Seq<i32>, sa: Seq<i32>, va: Seq<i32>) -> bool {
    &&& sa.len() == va.len()
    &&& sa.len() == y.len()
    &&& forall|j: int| separators(t) <= j < sa.len() ==> #[trigger] sa[j] == va[j]
    &&& forall|j: int| 0 <= j < separators(t) ==> #[trigger] sa[j] == y[j]
}

/// The scan to the left follows the one with a bucket for each separator.
#[verifier::spinoff_prover]
proof fn lemma_closing_right(t: Seq<u8>, order: Seq<i32>, s: Seq<i32>, b: Seq<i32>, l: Seq<i32>, i: int)
    requires
        separated_prepared(t, order, s, b),
        crate::induction::left_done(ranked(t), order, l),
        separators(t) <= i <= t.len(),
    ensures
        ({
            let n = t.len() as int;
            let y = flipped_prefix(l, separators(t));
            let x = fold_down(final_gsa_scan_right_to_left_8u_step(t), (y, b.subrange(1792, 2048)), i, n);
            let v = fold_down(final_sorting_scan_right_to_left_32s_step(ranked(t)), (l, ranked_ends(t)), i, n);
            &&& x is Some
            &&& v is Some
            &&& closing_follows(t, y, x.unwrap().0, v.unwrap().0)
            &&& same_buckets(t, x.unwrap().1, v.unwrap().1)
        }),
    decreases t.len() - i,
{
    let n = t.len() as int;
    let w = ranked(t);
    let k = ranked_symbols(t);
    let z = separators(t);
    let ends = ranked_ends(t);
    let y = flipped_prefix(l, z);
    let e = b.subrange(1792, 2048);
    lemma_ranked(t);
    lemma_ranked_bounds(t, order, b);
    if i < n {
        lemma_closing_right(t, order, s, b, l, i + 1);
        lemma_right_run(w, order, l, k, ends, i + 1);
        let st = fold_down(final_gsa_scan_right_to_left_8u_step(t), (y, e), i + 1, n)->0;
        let sv = fold_down(final_sorting_scan_right_to_left_32s_step(w), (l, ends), i + 1, n)->0;
        lemma_closing_right_step(t, order, b, l, y, st, sv, i);
    } else {
        assert forall|c: int| 1 <= c < 256 implies #[trigger] e[c] == ends[ranked_symbol(t, c)] by {
            assert(e[c] == b[1792 + c]);
        }
    }
}

/// A step of the scan to the left follows the one with a bucket for each separator.
#[verifier::spinoff_prover]
proof fn lemma_closing_right_step(t: Seq<u8>, order: Seq<i32>, b: Seq<i32>, l: Seq<i32>, y: Seq<i32>, st: PlaceState, sv: PlaceState, i: int)
    requires
        2 <= t.len() <= i32::MAX,
        well_separated(t),
        byte_bounds(t, b),
        is_suffix_array(text32(ranked(t)), order),
        l.len() >= t.len(),
        right_state(ranked(t), order, l, ranked_symbols(t), ranked_ends(t), sv, i + 1),
        separators(t) <= i < t.len(),
        closing_follows(t, y, st.0, sv.0),
        same_buckets(t, st.1, sv.1),
    ensures
        ({
            let x = final_gsa_scan_right_to_left_8u_step(t)(st, i);
            let v = final_sorting_scan_right_to_left_32s_step(ranked(t))(sv, i);
            &&& x is Some
            &&& v is Some
            &&& closing_follows(t, y, x.unwrap().0, v.unwrap().0)
            &&& same_buckets(t, x.unwrap().1, v.unwrap().1)
        }),
{
    let n = t.len() as int;
    let w = ranked(t);
    let k = ranked_symbols(t);
    let z = separators(t);
    let ends = ranked_ends(t);
    lemma_ranked(t);
    lemma_ranked_bounds(t, order, b);
    lemma_right_step(w, order, l, k, ends, sv, i);
    let p = sv.0[i];
    assert(st.0[i] == p);
    if p > 0 {
        let q = p - 1;
        assert(0 <= order[i] < n);
        let v = final_sorting_scan_right_to_left_32s_step(w)(sv, i)->0;
        let c = w[q] as int;
        let x = sv.1[c] - 1;
        assert(v.1[c] == x);
        assert(sv.1[c] <= ends[c]);
        assert(w[order[x] as int] == c);
        if t[q] == 0 {
            assert(ends[c] == c + 1);
            assert(x < z);
            let u = final_gsa_scan_right_to_left_8u_step(t)(st, i)->0;
            assert(u == (st.0.update(i, unmarked(p)), st.1));
            assert forall|d: int| 1 <= d < 256 implies #[trigger] u.1[d] == v.1[ranked_symbol(t, d)] by {
                assert(st.1[d] == sv.1[ranked_symbol(t, d)]);
            }
        } else {
            lemma_ranked_front(t, q);
            if x < z {
                assert(w[order[x] as int] == x);
            }
            assert(st.1[t[q] as int] == sv.1[ranked_symbol(t, t[q] as int)]);
            let u = final_gsa_scan_right_to_left_8u_step(t)(st, i)->0;
            assert(u.0 == st.0.update(i, unmarked(p)).update(x, v.0[x]));
            assert forall|d: int| 1 <= d < 256 implies #[trigger] u.1[d] == v.1[ranked_symbol(t, d)] by {
                assert(st.1[d] == sv.1[ranked_symbol(t, d)]);
            }
        }
    }
}

/// The final scans sort separated texts.
#[verifier::spinoff_prover]
pub proof fn law_final_order_separated(t: Seq<u8>, order: Seq<i32>, s: Seq<i32>, b: Seq<i32>)
    requires
        separated_prepared(t, order, s, b),
    ensures
        final_order_8u(t, t.len() as i32, true, 1, (s, b)) is Some,
        final_order_8u(t, t.len() as i32, true, 1, (s, b)).unwrap().0.subrange(0, t.len() as int) == order,
{
    let n = t.len() as int;
    let w = ranked(t);
    let k = ranked_symbols(t);
    let z = separators(t);
    let starts = ranked_starts(t);
    let ends = ranked_ends(t);
    lemma_ranked(t);
    lemma_ranked_lms(t);
    lemma_ranked_bounds(t, order, b);
    assert(prepared(w, order, s, k, starts, ends));
    lemma_closing_left(t, order, s, b, n);
    lemma_left_scan(w, order, s, k, starts, ends);
    lemma_left_run(w, order, s, k, starts, ends, n);
    let bu = b.update(1536, (b[1792] - 1) as i32);
    let left = final_left_8u(t, n, (s, bu.subrange(1536, 1792)))->0;
    let l = left.0;
    assert(final_left_32s(w, n, (s, starts)).unwrap().0 == l);
    assert(bu.subrange(1792, 2048) =~= b.subrange(1792, 2048));
    lemma_closing_right(t, order, s, b, l, z);
    lemma_right_run(w, order, l, k, ends, z);
    let y = flipped_prefix(l, z);
    let e = b.subrange(1792, 2048);
    let x = fold_down(final_gsa_scan_right_to_left_8u_step(t), (y, e), z, n)->0;
    assert(final_gsa_scan_right_to_left_8u_run(t, (y, e), z, n - z) == Some(x));
    let r = final_order_8u(t, n as i32, true, 1, (s, b));
    assert(r is Some && r.unwrap().0 == x.0);
    assert forall|j: int| 0 <= j < n implies #[trigger] x.0[j] == order[j] by {
        let p = order[j] as int;
        assert(0 <= p < n);
        if j < z {
            assert(x.0[j] == y[j]);
            assert(y[j] == flipped(l[j]));
            assert(t[p] == 0);
            lemma_ranked_types(t, p);
            if j < z - 1 {
                if p == n - 1 {
                    lemma_suffix_array_distinct(text32(w), order, j, z - 1);
                }
                assert(is_lms(text8(t), p));
                assert(is_lms(text32(w), p));
                let h = choose|h: int| 0 <= h < n && #[trigger] s[h] == p;
                assert(w[order[h] as int] == w[p]);
                assert(0 <= order[h] < n);
                lemma_separator_alone(t, p, order[h] as int);
                if h != j {
                    if h < j {
                        lemma_suffix_array_distinct(text32(w), order, h, j);
                    } else {
                        lemma_suffix_array_distinct(text32(w), order, j, h);
                    }
                }
                assert(l[j] == left_entry(w, order, s, n, j));
                assert(l[j] == flipped(s[j]));
            } else {
                assert(is_l(text32(w), p));
                assert(l[j] == flipped(entry_l(w, p)));
                assert(before32(w, n - 1) == w[n - 2]);
                assert(t[n - 2] != 0);
                assert(entry_l(w, p) == p);
            }
        }
    }
    assert(r.unwrap().0.subrange(0, n) =~= order);
}

} // verus!
