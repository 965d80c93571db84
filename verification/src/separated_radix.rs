//! Sorting the leftmost suffixes of type S of separated texts by first symbols: the separators, one
//! bucket, keep their order, as if each had a bucket of its own.

use vstd::prelude::*;
use crate::buckets::initialize_buckets_for_lms_suffixes_radix_sort_8u_run;
use crate::byte_lanes::{all_left, later_count, lemma_radix_buckets};
use crate::byte_sort::byte_gathered;
use crate::bytes::well_separated;
use crate::fold::{fold_down, lemma_fold_down_prefix};
use crate::gather::{count_and_gather_lms_suffixes_8u_mode, text32, text8};
use crate::induction::symbols_below;
use crate::kinds::is_lms;
use crate::lanes::in_left;
use crate::lengths::{gathers, law_lms_few, lists_all};
use crate::listing::{all_later, even, lemma_below_bound, lemma_radix_segments, radix_ready, segmented};
use crate::orders::radix_sorted_8u;
use crate::partial_induction::first_lms;
use crate::placement::{among, lemma_found};
use crate::radix::{
    radix_sort_lms_suffixes_32s_2k_step, radix_sort_lms_suffixes_8u_run,
    radix_sort_lms_suffixes_8u_step,
};
use crate::recount::below_of;
use crate::segments::{left_tops, lemma_left_radix};
use crate::separators::{
    closed_before, first_closed, lemma_closed_before, lemma_closed_grow, lemma_first_closed, lemma_left_closed,
    lemma_ranked, lemma_ranked_below, lemma_ranked_count, lemma_ranked_lms, lemma_ranked_types, ranked, ranked_symbol,
    ranked_symbols, separators,
};
use crate::types::PlaceState;

verus! {

/// Where the leftmost suffix of type S in slot `i` of the list starts; behind the list stands the
/// last suffix.
pub open spec fn listed_at(n: int, s: Seq<i32>, i: int) -> int {
    if i < n {
        s[i] as int
    } else {
        n - 1
    }
}

/// No separator stands between two neighbours of the list.
proof fn lemma_listed_gap(t: Seq<u8>, s: Seq<i32>, m: int, i: int)
    requires
        2 <= t.len() <= i32::MAX,
        well_separated(t),
        1 <= m <= t.len(),
        lists_all(text8(t), s, m),
        t.len() - m <= i < t.len(),
    ensures
        0 < s[i] < t.len() - 1,
        is_lms(text8(t), s[i] as int),
        closed_before(t, listed_at(t.len() as int, s, i + 1)) == closed_before(t, s[i] as int) + first_closed(t, s[i] as int),
{
    let n = t.len() as int;
    let p = s[i] as int;
    let q = listed_at(n, s, i + 1);
    let sel = gathers(text8(t), false);
    lemma_ranked_lms(t);
    assert(sel(s[i] as int));
    if i + 1 < n {
        assert(sel(s[i + 1] as int));
        assert(s[i] < s[i + 1]);
    }
    lemma_closed_before(t, p);
    assert forall|j: int| p + 1 <= j < q implies #[trigger] t[j] != 0 by {
        if t[j] == 0 {
            assert(is_lms(text8(t), j));
            assert(sel(j));
            let l = lemma_found(s, n - m, n, j as i32);
            if l <= i {
                if l < i {
                    assert(s[l] < s[i]);
                }
            } else if l > i + 1 {
                assert(s[i + 1] < s[l]);
            }
        }
    }
    lemma_closed_grow(t, p + 1, q);
}

/// How the buckets of bytes stand to the buckets of the small symbols, in front of the suffix at
/// `p`.
spec fn radix_tables(t: Seq<u8>, f: int, b: Seq<i32>, v: Seq<i32>, p: int) -> bool {
    &&& b.len() >= 512
    &&& v.len() == 2 * ranked_symbols(t)
    &&& b[0] == closed_before(t, p) - first_closed(t, f)
    &&& forall|c: int| 1 <= c < 256 ==> #[trigger] b[2 * c] == v[2 * ranked_symbol(t, c)]
    &&& forall|c: int| first_closed(t, f) <= c < closed_before(t, p) ==> #[trigger] v[2 * c] == c + 1 - first_closed(t, f)
}

/// Sorting with one bucket for the separators is sorting with one for each.
#[verifier::spinoff_prover]
proof fn lemma_radix_follows(t: Seq<u8>, f: int, m: int, s: Seq<i32>, b: Seq<i32>, v: Seq<i32>, i: int)
    requires
        2 <= t.len() <= i32::MAX,
        well_separated(t),
        1 <= m <= t.len(),
        t.len() <= s.len(),
        lists_all(text8(t), s, m),
        first_lms(text8(t), f),
        f == s[t.len() - m],
        radix_tables(t, f, b, v, t.len() - 1),
        radix_ready(ranked(t), all_later(text32(ranked(t)), f), s, v, ranked_symbols(t), t.len() - m + 1, left_tops(text32(ranked(t)), f)),
        t.len() - m + 1 <= i <= t.len(),
    ensures
        ({
            let n = t.len() as int;
            let x = fold_down(radix_sort_lms_suffixes_8u_step(t), (s, b), i, n);
            let y = fold_down(radix_sort_lms_suffixes_32s_2k_step(ranked(t)), (s, v), i, n);
            &&& x is Some
            &&& y is Some
            &&& x.unwrap().0 == y.unwrap().0
            &&& x.unwrap().1.len() == b.len()
            &&& x.unwrap().0.len() == s.len()
            &&& radix_tables(t, f, x.unwrap().1, y.unwrap().1, listed_at(n, s, i))
            &&& forall|c: int| 0 <= c < ranked_symbols(t) ==> #[trigger] even(y.unwrap().1, c) <= left_tops(text32(ranked(t)), f)(c)
            &&& forall|j: int| n - m + 1 <= j < n ==> #[trigger] x.unwrap().0[j] == s[j]
            &&& forall|j: int| 0 <= j < b.len() && (j % 2 == 1 || j >= 512) ==> #[trigger] x.unwrap().1[j] == b[j]
        }),
    decreases t.len() - i,
{
    let n = t.len() as int;
    let w = ranked(t);
    let y = text32(w);
    let top = left_tops(y, f);
    let z0 = first_closed(t, f);
    let from = n - m + 1;
    lemma_ranked(t);
    if i < n {
        lemma_radix_follows(t, f, m, s, b, v, i + 1);
        lemma_radix_segments(w, all_later(y, f), s, v, ranked_symbols(t), from, top);
        lemma_fold_down_prefix(radix_sort_lms_suffixes_32s_2k_step(w), (s, v), from, i, n);
        let st = fold_down(radix_sort_lms_suffixes_8u_step(t), (s, b), i + 1, n)->0;
        let sv = fold_down(radix_sort_lms_suffixes_32s_2k_step(w), (s, v), i + 1, n)->0;
        let p = s[i] as int;
        assert(st.0[i] == p);
        lemma_listed_gap(t, s, m, i);
        assert(s[n - m] < s[i]);
        lemma_first_closed(t, f);
        lemma_closed_grow(t, f + 1, p);
        assert(t[p] == 0 || t[p] != 0);
        let c = w[p] as int;
        assert(0 <= c < ranked_symbols(t));
        assert(even(sv.1, c) <= top(c) && top(c) <= from);
        assert(even(sv.1, c) == sv.1[2 * c]);
        let sv2 = radix_sort_lms_suffixes_32s_2k_step(w)(sv, i)->0;
        assert(sv2 == (sv.0.update(sv.1[2 * c] - 1, p as i32), sv.1.update(2 * c, (sv.1[2 * c] - 1) as i32)));
        if t[p] == 0 {
            assert(c == closed_before(t, p));
            assert(sv.1[2 * c] == c + 1 - z0);
            assert(st.1[0] == c + 1 - z0);
        } else {
            assert(c == ranked_symbol(t, t[p] as int));
            assert(st.1[2 * t[p]] == sv.1[2 * c]);
        }
        let st2 = radix_sort_lms_suffixes_8u_step(t)(st, i)->0;
        assert(st2.0 == sv2.0);
        assert(listed_at(n, s, i) == p);
        lemma_closed_grow(t, p, n);
        assert forall|d: int| z0 <= d < closed_before(t, p) implies #[trigger] sv2.1[2 * d] == d + 1 - z0 by {
            assert(sv.1[2 * d] == d + 1 - z0);
            assert(d != c);
        }
        assert(radix_tables(t, f, st2.1, sv2.1, p));
        assert forall|d: int| 0 <= d < ranked_symbols(t) implies #[trigger] even(sv2.1, d) <= top(d) by {
            assert(even(sv.1, d) <= top(d));
        }
    } else {
        assert forall|c: int| 0 <= c < ranked_symbols(t) implies #[trigger] even(v, c) <= top(c) by {}
    }
}

/// The buckets of the small symbols.
spec fn ranked_tops(t: Seq<u8>, f: int) -> Seq<i32> {
    Seq::new(
        (2 * ranked_symbols(t)) as nat,
        |j: int| left_tops(text32(ranked(t)), f)(j / 2) as i32,
    )
}

/// The leftmost suffixes of type S of separated texts sorted by first symbols.
#[verifier::spinoff_prover]
pub proof fn lemma_separated_radix(t: Seq<u8>, m: int, s: PlaceState)
    requires
        byte_gathered(t, m, s),
        well_separated(t),
        1 <= m,
    ensures
        ({
            let n = t.len() as int;
            let x = text8(t);
            let y = text32(ranked(t));
            let f = s.0[n - m] as int;
            let a = initialize_buckets_for_lms_suffixes_radix_sort_8u_run(x, s.1, f);
            let z = radix_sorted_8u(t, n, m, true, (s.0, a.unwrap().0));
            let below = below_of(x, all_left(x, f));
            &&& first_lms(x, f)
            &&& a is Some
            &&& a.unwrap().1 == below(256)
            &&& z is Some
            &&& z.unwrap().0.len() == s.0.len()
            &&& z.unwrap().1.len() == s.1.len()
            &&& segmented(ranked(t), all_later(y, f), ranked_symbols(t), left_tops(y, f), z.unwrap().0)
            &&& forall|c: int| 0 <= c < 256 ==> z.unwrap().1[#[trigger] (1024 + 2 * c + 1)] == below(c)
            &&& forall|slot: int| 0 <= slot < 1024 ==> #[trigger] z.unwrap().1[slot] == later_count(
                x,
                f,
                count_and_gather_lms_suffixes_8u_mode(),
                slot,
            )
            &&& forall|j: int| 1536 <= j < s.1.len() ==> #[trigger] z.unwrap().1[j] == s.1[j]
        }),
{
    let n = t.len() as int;
    let x = text8(t);
    let w = ranked(t);
    let y = text32(w);
    let k = ranked_symbols(t);
    let mode = count_and_gather_lms_suffixes_8u_mode();
    lemma_ranked(t);
    lemma_ranked_lms(t);
    lemma_ranked_count(t, 0);
    law_lms_few(x);
    crate::two_buckets::lemma_first_gathered(x, s.0, m);
    let f = s.0[n - m] as int;
    lemma_first_closed(t, f);
    let later = all_later(y, f);
    let below = below_of(x, all_left(x, f));
    let top = left_tops(y, f);
    let z0 = first_closed(t, f);
    lemma_radix_buckets(t, f, mode, s.1);
    let a = initialize_buckets_for_lms_suffixes_radix_sort_8u_run(x, s.1, f)->0;
    let b = a.0.update(1024, (a.0[1024] - 1) as i32);
    let tail = b.subrange(1024, b.len() as int);
    let v = ranked_tops(t, f);
    assert(first_lms(y, f)) by {
        assert(is_lms(y, f));
        assert forall|p: int| #[trigger] is_lms(y, p) implies f <= p by {
            assert(is_lms(x, p));
        }
    }
    assert forall|c: int| 0 <= c < k implies #[trigger] even(v, c) == top(c) by {
        lemma_below_bound(y, all_left(y, f), c + 1);
    }
    let sel = gathers(x, false);
    assert forall|j: int| n - m < j < n implies 0 <= #[trigger] s.0[j] < n && later(s.0[j] as int) by {
        assert(sel(s.0[j] as int));
        assert(s.0[n - m] < s.0[j]);
        assert(is_lms(y, s.0[j] as int) == is_lms(x, s.0[j] as int));
    }
    assert forall|p: int| 0 <= p < n && #[trigger] later(p) implies among(s.0, n - m + 1, n, p as i32) by {
        assert(is_lms(y, p) == is_lms(x, p));
        assert(sel(p));
        let j = lemma_found(s.0, n - m, n, p as i32);
        assert(j != n - m);
        crate::placement::lemma_among(s.0, n - m + 1, n, j);
    }
    lemma_left_radix(w, k, f, m, s.0, v);
    let zero: int = 0;
    assert(a.0[1024 + 2 * zero] == below(zero + 1));
    lemma_below_bound(x, all_left(x, f), 1);
    assert(symbols_below(w, k));
    assert forall|p: int| 0 <= p < n implies #[trigger] all_left(x, f)(p) == all_left(y, f)(p) by {
        if f < p {
            lemma_ranked_types(t, p - 1);
        }
        assert(all_left(x, f)(p) == in_left(x, f, p));
        assert(all_left(y, f)(p) == in_left(y, f, p));
    }
    assert forall|c: int| 1 <= c <= 256 implies #[trigger] below(c) == below_of(y, all_left(y, f))(ranked_symbol(t, c)) by {
        lemma_ranked_below(t, all_left(x, f), all_left(y, f), c);
    }
    assert(radix_tables(t, f, tail, v, n - 1)) by {
        lemma_left_closed(t, f, separators(t));
        assert(below(1) == below_of(y, all_left(y, f))(ranked_symbol(t, 1)));
        lemma_closed_before(t, n - 1);
        assert(tail[0] == b[1024]);
        assert forall|c: int| 1 <= c < 256 implies #[trigger] tail[2 * c] == v[2 * ranked_symbol(t, c)] by {
            assert(a.0[1024 + 2 * c] == below(c + 1));
            assert(tail[2 * c] == b[1024 + 2 * c]);
            assert(even(v, ranked_symbol(t, c)) == top(ranked_symbol(t, c)));
            assert(ranked_symbol(t, c) + 1 == ranked_symbol(t, c + 1));
            assert(below(c + 1) == below_of(y, all_left(y, f))(ranked_symbol(t, c + 1)));
        }
        assert forall|c: int| z0 <= c < closed_before(t, n - 1) implies #[trigger] v[2 * c] == c + 1 - z0 by {
            lemma_left_closed(t, f, c + 1);
            assert(even(v, c) == top(c));
        }
    }
    lemma_radix_follows(t, f, m, s.0, tail, v, n - m + 1);
    lemma_radix_segments(w, later, s.0, v, k, n - m + 1, top);
    let st = radix_sort_lms_suffixes_8u_run(t, (s.0, tail), n - m + 1, m - 1)->0;
    let z = (st.0, b.subrange(0, 1024) + st.1);
    assert(radix_sorted_8u(t, n, m, true, (s.0, a.0)) == Some(z));
    assert forall|c: int| 0 <= c < 256 implies z.1[#[trigger] (1024 + 2 * c + 1)] == below(c) by {
        assert((2 * c + 1) % 2 == 1);
        assert(st.1[2 * c + 1] == tail[2 * c + 1]);
        assert(a.0[1024 + 2 * c + 1] == below(c));
    }
    assert forall|slot: int| 0 <= slot < 1024 implies #[trigger] z.1[slot] == later_count(x, f, mode, slot) by {
        assert(a.0[slot] == later_count(x, f, mode, slot));
    }
    assert forall|j: int| 1536 <= j < s.1.len() implies #[trigger] z.1[j] == s.1[j] by {
        assert(st.1[j - 1024] == tail[j - 1024]);
        assert(a.0[j] == s.1[j]);
    }
}

} // verus!
