//! Why the final scans over byte texts sort them, or transform them.

use vstd::prelude::*;
use crate::final_scan::{
    before32, before8, final_bwt_scan_left_to_right_8u_step, final_bwt_scan_right_to_left_8u_step,
    final_sorting_scan_left_to_right_32s_step, final_sorting_scan_left_to_right_8u_step,
    final_sorting_scan_right_to_left_32s_step, final_sorting_scan_right_to_left_8u_step,
};
use crate::fold::{fold_down, fold_up};
use crate::gather::{text32, text8};
use crate::induce::{final_left_32s, final_left_8u, seeded_32s_1k, seeded_8u_1k};
use crate::induction::{
    bucket_ends, entry_l, entry_s, left_done, lemma_left_run, lemma_left_scan, lemma_left_start,
    lemma_left_step, lemma_next_after, lemma_rank_of_entry, lemma_right_run, lemma_right_step, placed_s,
    prepared, right_state, symbols_below,
};
use crate::kinds::is_l;
use crate::marks::{flipped, marked, unmarked};
use crate::order::{is_suffix_array, law_suffix_array_complete, lemma_suffix_array_distinct};
use crate::orders::{between_scans, bwt_left_8u, clearable, final_bwt_8u, final_order_8u};
use crate::types::{InduceState, PlaceState, ALPHABET_SIZE};

verus! {

/// A byte text as an integer text.
pub open spec fn wide(t: Seq<u8>) -> Seq<i32> {
    t.map_values(|c: u8| c as i32)
}

/// Both are the same text.
pub proof fn lemma_wide(t: Seq<u8>)
    ensures
        wide(t).len() == t.len(),
        text32(wide(t)) == text8(t),
        symbols_below(wide(t), ALPHABET_SIZE as int),
{
    assert(text32(wide(t)) =~= text8(t));
}

/// The scans over a byte text do what they do over it as an integer text.
proof fn lemma_left_same(t: Seq<u8>, s: PlaceState, lo: int, hi: int)
    ensures
        fold_up(final_sorting_scan_left_to_right_8u_step(t), s, lo, hi) == fold_up(
            final_sorting_scan_left_to_right_32s_step(wide(t)), s, lo, hi),
    decreases hi - lo,
{
    if lo < hi {
        lemma_left_same(t, s, lo, hi - 1);
        let y = fold_up(final_sorting_scan_left_to_right_8u_step(t), s, lo, hi - 1);
        if y is Some {
            let st = y->0;
            let p = st.0[hi - 1];
            if 0 < p <= t.len() {
                assert(wide(t)[p - 1] == t[p - 1]);
                assert(before32(wide(t), p - 1) == before8(t, p - 1));
            }
            assert(final_sorting_scan_left_to_right_8u_step(t)(st, hi - 1) == final_sorting_scan_left_to_right_32s_step(
                wide(t),
            )(st, hi - 1));
        }
    }
}

/// The scans over a byte text do what they do over it as an integer text.
proof fn lemma_right_same(t: Seq<u8>, s: PlaceState, lo: int, hi: int)
    ensures
        fold_down(final_sorting_scan_right_to_left_8u_step(t), s, lo, hi) == fold_down(
            final_sorting_scan_right_to_left_32s_step(wide(t)), s, lo, hi),
    decreases hi - lo,
{
    if lo < hi {
        lemma_right_same(t, s, lo + 1, hi);
        let y = fold_down(final_sorting_scan_right_to_left_8u_step(t), s, lo + 1, hi);
        if y is Some {
            let st = y->0;
            let p = st.0[lo];
            if 0 < p <= t.len() {
                assert(wide(t)[p - 1] == t[p - 1]);
                assert(before32(wide(t), p - 1) == before8(t, p - 1));
            }
            assert(final_sorting_scan_right_to_left_8u_step(t)(st, lo) == final_sorting_scan_right_to_left_32s_step(wide(t))(
                st, lo));
        }
    }
}

/// The first entry is the same.
pub proof fn lemma_seed_same(t: Seq<u8>, s: PlaceState)
    requires
        2 <= t.len(),
    ensures
        seeded_8u_1k(t, t.len() as int, s) == seeded_32s_1k(wide(t), t.len() as int, s),
{
    let n = t.len() as int;
    assert(wide(t)[n - 1] == t[n - 1] && wide(t)[n - 2] == t[n - 2]);
}

/// Everything that the scans over a byte text start from: the sorted leftmost suffixes of type
/// S, and the first slots and the ends of the buckets of all bytes.
pub open spec fn prepared_8u(t: Seq<u8>, sa: Seq<i32>, s: Seq<i32>, b: Seq<i32>) -> bool {
    &&& b.len() >= 2048
    &&& prepared(wide(t), sa, s, ALPHABET_SIZE as int, b.subrange(1536, 1792), b.subrange(1792, 2048))
}

/// Clearing what is left of the buckets between the scans keeps the suffixes of type L.
pub proof fn lemma_between_scans(
    t: Seq<u8>,
    sa: Seq<i32>,
    s: Seq<i32>,
    b: Seq<i32>,
    threads: i32,
    left: PlaceState,
)
    requires
        prepared_8u(t, sa, s, b),
        left.0.len() >= t.len(),
        left.1.len() == 256,
        forall|j: int| 0 <= j < t.len() && is_l(text8(t), #[trigger] sa[j] as int) ==> j < left.1[t[sa[j] as int] as int],
        forall|c: int| 0 <= c < 256 ==> b.subrange(1536, 1792)[c] <= #[trigger] left.1[c] <= t.len(),
    ensures
        between_scans(left.0, t.len() as i32, threads, left.1, b.subrange(1792, 2048)) is Some,
        ({
            let y = between_scans(left.0, t.len() as i32, threads, left.1, b.subrange(1792, 2048))->0;
            &&& y.len() == left.0.len()
            &&& forall|j: int| 0 <= j < t.len() && is_l(text8(t), #[trigger] sa[j] as int) ==> y[j] == left.0[j]
            &&& forall|j: int| t.len() <= j < y.len() ==> #[trigger] y[j] == left.0[j]
        }),
{
    let ends = b.subrange(1792, 2048);
    let starts = b.subrange(1536, 1792);
    let w = wide(t);
    let n = t.len() as int;
    lemma_wide(t);
    assert forall|c: int| 0 <= c < 256 implies 0 <= #[trigger] left.1[c] && #[trigger] ends[c] <= n by {
        assert(0 <= starts[c] <= sa.len());
        assert(0 <= ends[c] <= sa.len());
    }
    assert(clearable(left.0, left.1, ends));
    let y = between_scans(left.0, n as i32, threads, left.1, ends)->0;
    assert forall|j: int| 0 <= j < n && is_l(text8(t), #[trigger] sa[j] as int) implies y[j] == left.0[j] by {
        assert(0 <= sa[j] < n);
        assert forall|c: int| 0 <= c < 256 && #[trigger] left.1[c] <= j < #[trigger] ends[c] implies false by {
            assert(starts[c] <= left.1[c]);
            assert(w[sa[j] as int] <= c);
            assert(!(w[sa[j] as int] < c));
            assert(w[sa[j] as int] == t[sa[j] as int]);
        }
    }
    assert forall|j: int| n <= j < y.len() implies #[trigger] y[j] == left.0[j] by {
        assert forall|c: int| 0 <= c < 256 && #[trigger] left.1[c] <= j < #[trigger] ends[c] implies false by {
            assert(ends[c] <= n);
        }
    }
}

/// The final scans sort byte texts, however many workers there are.
pub proof fn law_final_order_8u(t: Seq<u8>, sa: Seq<i32>, s: Seq<i32>, b: Seq<i32>, threads: i32)
    requires
        prepared_8u(t, sa, s, b),
    ensures
        final_order_8u(t, t.len() as i32, false, threads, (s, b)) is Some,
        ({
            let x = final_order_8u(t, t.len() as i32, false, threads, (s, b))->0;
            &&& x.0.len() == s.len()
            &&& x.0.subrange(0, t.len() as int) == sa
        }),
{
    let n = t.len() as int;
    let w = wide(t);
    let starts = b.subrange(1536, 1792);
    let ends = b.subrange(1792, 2048);
    lemma_wide(t);
    lemma_seed_same(t, (s, starts));
    lemma_left_scan(w, sa, s, 256, starts, ends);
    let first = seeded_32s_1k(w, n, (s, starts))->0;
    lemma_left_start(w, sa, s, 256, starts, ends);
    lemma_left_same(t, first, 0, n);
    let left = final_left_8u(t, n, (s, starts))->0;
    assert(left == final_left_32s(w, n, (s, starts))->0);
    assert forall|j: int| 0 <= j < n && is_l(text8(t), #[trigger] sa[j] as int) implies j < left.1[t[sa[j] as int] as int] by {
        assert(0 <= sa[j] < n);
        assert(w[sa[j] as int] == t[sa[j] as int]);
    }
    lemma_between_scans(t, sa, s, b, threads, left);
    let y = between_scans(left.0, n as i32, threads, left.1, ends)->0;
    assert(left_done(w, sa, y));
    lemma_right_run(w, sa, y, 256, ends, 0);
    lemma_right_same(t, (y, ends), 0, n);
    let x = final_order_8u(t, n as i32, false, threads, (s, b))->0;
    assert(x.0.subrange(0, n) =~= sa);
}

/// What the scan to the right leaves of the entry `p` where it writes the transformed text:
/// the byte in front, marked, where the entry induced, and the plain suffix elsewhere.
pub open spec fn turned(t: Seq<u8>, p: i32) -> i32 {
    if p <= 0 {
        unmarked(p)
    } else {
        marked(t[p - 1] as i32, true)
    }
}

/// How the state `x` of the scan to the right for the transformed text follows the state `st`
/// of the one that sorts, when slot `i` is about to be visited.
pub open spec fn left_follows(t: Seq<u8>, st: PlaceState, x: PlaceState, i: int) -> bool {
    &&& x.1 == st.1
    &&& x.0.len() == st.0.len()
    &&& forall|j: int| i <= j < st.0.len() ==> #[trigger] x.0[j] == st.0[j]
    &&& forall|j: int| 0 <= j < i ==> #[trigger] x.0[j] == turned(t, flipped(st.0[j]))
}

/// The scan to the right for the transformed text follows the one that sorts.
pub proof fn lemma_left_follows(t: Seq<u8>, sa: Seq<i32>, s: Seq<i32>, b: Seq<i32>, i: int)
    requires
        prepared_8u(t, sa, s, b),
        0 <= i <= t.len(),
    ensures
        ({
            let first = seeded_32s_1k(wide(t), t.len() as int, (s, b.subrange(1536, 1792)))->0;
            let st = fold_up(final_sorting_scan_left_to_right_32s_step(wide(t)), first, 0, i);
            let x = fold_up(final_bwt_scan_left_to_right_8u_step(t), first, 0, i);
            st is Some && x is Some && left_follows(t, st->0, x->0, i)
        }),
    decreases i,
{
    let w = wide(t);
    let n = t.len() as int;
    let starts = b.subrange(1536, 1792);
    let ends = b.subrange(1792, 2048);
    let first = seeded_32s_1k(w, n, (s, starts))->0;
    lemma_wide(t);
    lemma_left_run(w, sa, s, 256, starts, ends, i);
    if i > 0 {
        let l = i - 1;
        lemma_left_follows(t, sa, s, b, l);
        lemma_left_run(w, sa, s, 256, starts, ends, l);
        let st = fold_up(final_sorting_scan_left_to_right_32s_step(w), first, 0, l)->0;
        let x = fold_up(final_bwt_scan_left_to_right_8u_step(t), first, 0, l)->0;
        lemma_left_step(w, sa, s, 256, starts, ends, st, l);
        let p = st.0[l];
        assert(x.0[l] == p);
        assert(flipped(flipped(p)) == p);
        if p > 0 {
            assert(final_sorting_scan_left_to_right_32s_step(w)(st, l) is Some);
            assert(p <= n);
            assert(w[p - 1] == t[p - 1]);
            assert(before32(w, p - 1) == before8(t, p - 1));
        }
        let st2 = final_sorting_scan_left_to_right_32s_step(w)(st, l)->0;
        assert(final_bwt_scan_left_to_right_8u_step(t)(x, l) is Some);
        let x2 = final_bwt_scan_left_to_right_8u_step(t)(x, l)->0;
        assert(left_follows(t, st2, x2, i));
    }
}

/// What the slot of the suffix at `v` holds in the end: the byte in front of it, or zero for
/// the whole text.
pub open spec fn front_byte(t: Seq<u8>, v: int) -> i32 {
    if v > 0 {
        t[v - 1] as i32
    } else {
        0
    }
}

/// The entry of a suffix of type S on the way to the transformed text.
pub open spec fn entry_s_bwt(t: Seq<u8>, q: int) -> i32 {
    if before8(t, q) <= t[q] {
        q as i32
    } else {
        marked(before8(t, q) as i32, true)
    }
}

/// How the state `x` of the scan to the left for the transformed text follows the state `st` of
/// the one that sorts, when slot `i` has been visited.
pub open spec fn right_follows(t: Seq<u8>, sa: Seq<i32>, st: PlaceState, x: InduceState, i: int) -> bool {
    let n = t.len() as int;
    let y = text8(t);
    &&& x.1 == st.1
    &&& x.0.len() == st.0.len()
    &&& forall|j: int| i <= j < n ==> #[trigger] x.0[j] == front_byte(t, sa[j] as int)
    &&& forall|j: int| 0 <= j < i && is_l(y, sa[j] as int) ==> #[trigger] x.0[j] == turned(t, entry_l(wide(t), sa[j] as int))
    &&& forall|j: int| 0 <= j < i && !is_l(y, sa[j] as int) && placed_s(wide(t), sa, sa[j] as int, i) ==> #[trigger] x.0[j]
        == entry_s_bwt(t, sa[j] as int)
    &&& forall|j: int| i <= j < n && #[trigger] sa[j] == 0 ==> x.2 == j
}

/// A visit of the scan to the left for the transformed text follows the one that sorts.
#[verifier::spinoff_prover]
proof fn lemma_right_follows_step(
    t: Seq<u8>,
    sa: Seq<i32>,
    s: Seq<i32>,
    ends: Seq<i32>,
    st: PlaceState,
    x: InduceState,
    i: int,
)
    requires
        2 <= t.len() <= i32::MAX,
        is_suffix_array(text8(t), sa),
        bucket_ends(wide(t), sa, 256, ends),
        s.len() >= t.len(),
        right_state(wide(t), sa, s, 256, ends, st, i + 1),
        right_follows(t, sa, st, x, i + 1),
        0 <= i < t.len(),
    ensures
        final_bwt_scan_right_to_left_8u_step(t)(x, i) is Some,
        right_follows(
            t,
            sa,
            final_sorting_scan_right_to_left_32s_step(wide(t))(st, i)->0,
            final_bwt_scan_right_to_left_8u_step(t)(x, i)->0,
            i,
        ),
{
    let w = wide(t);
    let n = t.len() as int;
    let y = text8(t);
    lemma_wide(t);
    lemma_right_step(w, sa, s, 256, ends, st, i);
    lemma_rank_of_entry(y, sa, i);
    let v = sa[i] as int;
    assert(0 <= v < n);
    let p = st.0[i];
    let pb = x.0[i];
    if !is_l(y, v) {
        lemma_next_after(w, sa, v);
        assert(placed_s(w, sa, v, i + 1));
    }
    assert(w[v] == t[v]);
    assert(before32(w, v) == before8(t, v));
    let st2 = final_sorting_scan_right_to_left_32s_step(w)(st, i)->0;
    if p > 0 {
        assert(p == v);
        assert(pb == p);
        assert(w[v - 1] == t[v - 1]);
        assert(before32(w, v - 1) == before8(t, v - 1));
        assert(final_bwt_scan_right_to_left_8u_step(t)(x, i) is Some);
        let x2 = final_bwt_scan_right_to_left_8u_step(t)(x, i)->0;
        let r = st.1[t[v - 1] as int] - 1;
        assert(st2.0 == st.0.update(i, v as i32).update(r, entry_s(w, v - 1)));
        assert(x2.0 == x.0.update(i, t[v - 1] as i32).update(r, entry_s_bwt(t, v - 1)));
        assert(right_state(w, sa, s, 256, ends, st2, i));
        assert forall|j: int| 0 <= j < i && !is_l(y, sa[j] as int) && placed_s(w, sa, sa[j] as int, i) implies #[trigger] x2.0[j]
            == entry_s_bwt(t, sa[j] as int) by {
            let u = sa[j] as int;
            assert(0 <= u < n);
            lemma_next_after(w, sa, u);
            assert(w[u] == t[u]);
            if !placed_s(w, sa, u, i + 1) {
                assert(u + 1 == v);
                assert(placed_s(w, sa, u, i));
                assert(j >= st2.1[w[u] as int]);
                assert(!(j >= st.1[w[u] as int]));
                assert(j == r);
            } else {
                assert(j >= st.1[w[u] as int]);
                if j == r {
                    assert(st2.1[w[v - 1] as int] == r);
                    assert(r < ends[w[v - 1] as int]);
                    assert(w[sa[r] as int] == w[v - 1]);
                }
            }
        }
        assert forall|j: int| 0 <= j < i && is_l(y, sa[j] as int) implies #[trigger] x2.0[j] == turned(
            t,
            entry_l(w, sa[j] as int),
        ) by {
            assert(st2.1[w[v - 1] as int] == r);
            assert(r < ends[w[v - 1] as int]);
            if j == r {
                assert(!is_l(text32(w), sa[r] as int));
            }
        }
        assert(right_follows(t, sa, st2, x2, i));
    } else {
        assert(pb <= 0);
        assert(unmarked(pb) == front_byte(t, v));
        let x2 = final_bwt_scan_right_to_left_8u_step(t)(x, i)->0;
        assert(x2.0 == x.0.update(i, front_byte(t, v)));
        assert((v == 0) == (pb == 0));
        assert forall|j: int| 0 <= j < i && !is_l(y, sa[j] as int) && placed_s(w, sa, sa[j] as int, i) implies #[trigger] x2.0[j]
            == entry_s_bwt(t, sa[j] as int) by {
            let u = sa[j] as int;
            assert(0 <= u < n);
            lemma_next_after(w, sa, u);
            if !placed_s(w, sa, u, i + 1) {
                assert(u + 1 == v);
                assert(right_state(w, sa, s, 256, ends, st2, i));
                assert(j >= st2.1[w[u] as int]);
                assert(!(j >= st.1[w[u] as int]));
            }
        }
        assert forall|j: int| i <= j < n && #[trigger] sa[j] == 0 implies x2.2 == j by {
            if j > i {
                if v == 0 {
                    lemma_suffix_array_distinct(y, sa, i, j);
                }
            }
        }
        assert(right_follows(t, sa, st2, x2, i));
    }
}

/// The scan to the left for the transformed text follows the one that sorts.
pub proof fn lemma_right_follows(
    t: Seq<u8>,
    sa: Seq<i32>,
    s: Seq<i32>,
    z: Seq<i32>,
    ends: Seq<i32>,
    i: int,
)
    requires
        2 <= t.len() <= i32::MAX,
        is_suffix_array(text8(t), sa),
        bucket_ends(wide(t), sa, 256, ends),
        left_done(wide(t), sa, s),
        z.len() == s.len(),
        forall|j: int| 0 <= j < t.len() && is_l(text8(t), #[trigger] sa[j] as int) ==> z[j] == turned(
            t,
            entry_l(wide(t), sa[j] as int),
        ),
        0 <= i <= t.len(),
    ensures
        ({
            let st = fold_down(final_sorting_scan_right_to_left_32s_step(wide(t)), (s, ends), i, t.len() as int);
            let x = fold_down(final_bwt_scan_right_to_left_8u_step(t), (z, ends, -1i32), i, t.len() as int);
            st is Some && x is Some && right_follows(t, sa, st->0, x->0, i)
        }),
    decreases t.len() - i,
{
    let w = wide(t);
    let n = t.len() as int;
    lemma_wide(t);
    lemma_right_run(w, sa, s, 256, ends, i);
    if i < n {
        lemma_right_follows(t, sa, s, z, ends, i + 1);
        lemma_right_run(w, sa, s, 256, ends, i + 1);
        let st = fold_down(final_sorting_scan_right_to_left_32s_step(w), (s, ends), i + 1, n)->0;
        let x = fold_down(final_bwt_scan_right_to_left_8u_step(t), (z, ends, -1i32), i + 1, n)->0;
        lemma_right_follows_step(t, sa, s, ends, st, x, i);
    } else {
        assert forall|j: int| 0 <= j < n && !is_l(text8(t), sa[j] as int) implies !placed_s(w, sa, #[trigger] sa[j] as int, n) by {
            assert(0 <= sa[j] < n);
            lemma_next_after(w, sa, sa[j] as int);
        }
    }
}

/// The final scans transform byte texts, however many workers there are: each slot is left with
/// the byte in front of its suffix, and the slot of the whole text is returned.
pub proof fn law_final_bwt_8u(t: Seq<u8>, sa: Seq<i32>, s: Seq<i32>, b: Seq<i32>, threads: i32)
    requires
        prepared_8u(t, sa, s, b),
    ensures
        final_bwt_8u(t, t.len() as i32, threads, (s, b)) is Some,
        ({
            let x = final_bwt_8u(t, t.len() as i32, threads, (s, b))->0;
            &&& x.0.len() == s.len()
            &&& forall|j: int| 0 <= j < t.len() ==> #[trigger] x.0[j] == front_byte(t, sa[j] as int)
            &&& 0 <= x.2 < t.len()
            &&& sa[x.2 as int] == 0
        }),
{
    let n = t.len() as int;
    let w = wide(t);
    let starts = b.subrange(1536, 1792);
    let ends = b.subrange(1792, 2048);
    lemma_wide(t);
    lemma_seed_same(t, (s, starts));
    lemma_left_start(w, sa, s, 256, starts, ends);
    lemma_left_scan(w, sa, s, 256, starts, ends);
    lemma_left_follows(t, sa, s, b, n);
    let left = final_left_32s(w, n, (s, starts))->0;
    let turn = bwt_left_8u(t, n, (s, starts))->0;
    assert(left_follows(t, left, turn, n));
    assert forall|j: int| 0 <= j < n && is_l(text8(t), #[trigger] sa[j] as int) implies j < turn.1[t[sa[j] as int] as int] by {
        assert(0 <= sa[j] < n);
        assert(w[sa[j] as int] == t[sa[j] as int]);
    }
    assert forall|j: int| 0 <= j < n && is_l(text8(t), #[trigger] sa[j] as int) implies turn.0[j] == turned(
        t,
        entry_l(w, sa[j] as int),
    ) by {
        let e = entry_l(w, sa[j] as int);
        assert(left.0[j] == flipped(e));
        assert(flipped(flipped(e)) == e);
    }
    lemma_between_scans(t, sa, s, b, threads, turn);
    let z = between_scans(turn.0, n as i32, threads, turn.1, ends)->0;
    lemma_right_follows(t, sa, left.0, z, ends, 0);
    lemma_right_run(w, sa, left.0, 256, ends, 0);
    law_suffix_array_complete(text8(t), sa, 0);
    let zero = choose|j: int| 0 <= j < sa.len() && #[trigger] sa[j] == 0;
    let x = final_bwt_8u(t, n as i32, threads, (s, b))->0;
    assert(x.2 == zero);
}

} // verus!
