//! Why the final scans over byte texts note the samples of the transformed text.

use vstd::prelude::*;
use crate::bytes::{sample_count, samples_from, valid_rate};
use crate::final_scan::{
    before32, before8, final_bwt_aux_scan_left_to_right_8u_slot_step, final_bwt_aux_scan_right_to_left_8u_slot_step,
    final_bwt_scan_left_to_right_8u_step, final_bwt_scan_right_to_left_8u_step,
    final_sorting_scan_left_to_right_32s_step, final_sorting_scan_right_to_left_32s_step, sampled,
};
use crate::fold::{fold_down, fold_up};
use crate::gather::{text32, text8};
use crate::induce::{final_left_32s, seeded_32s_1k};
use crate::induction::{
    bucket_ends, entry_l, entry_s, left_done, left_entry, left_state, lemma_left_run, lemma_left_scan,
    lemma_left_start, lemma_left_step, lemma_next_after, lemma_right_run, lemma_right_step, placed_s, right_state,
};
use crate::induction_8u::{
    front_byte, left_follows, lemma_between_scans, lemma_left_follows, lemma_right_follows, lemma_seed_same, lemma_wide,
    prepared_8u, right_follows, turned, wide,
};
use crate::kinds::is_l;
use crate::marks::flipped;
use crate::order::{is_suffix_array, law_suffix_array_complete, lemma_suffix_array_distinct};
use crate::orders::{between_scans, bwt_aux_left_8u, bwt_left_8u, final_bwt_aux_8u};
use crate::types::{InduceState, PlaceState};

verus! {

/// Below a power of two, the mask of the lower bits gives the remainder.
proof fn lemma_mask_is_remainder(q: i32, r: i32, rm: i32)
    requires
        0 <= q,
        1 <= r,
        rm == r - 1,
        r & rm == 0,
    ensures
        q & rm == q as int % r as int,
    decreases r,
{
    if r == 1 {
        assert(q & 0 == 0) by (bit_vector);
    } else {
        let a: i32 = (q as int / 2) as i32;
        let h: i32 = (r as int / 2) as i32;
        let hm: i32 = (h - 1) as i32;
        assert(r == 2 * h && h & hm == 0 && q & rm == 2 * (a & hm) + (q - 2 * a)) by (bit_vector)
            requires
                0 <= q,
                2 <= r,
                rm == r - 1,
                r & rm == 0,
                2 * a <= q <= 2 * a + 1,
                2 * h <= r <= 2 * h + 1,
                hm == h - 1,
        ;
        lemma_mask_is_remainder(a, h, hm);
        let d = q - 2 * a;
        let f = a as int / h as int;
        let e = a as int % h as int;
        vstd::arithmetic::div_mod::lemma_fundamental_div_mod(a as int, h as int);
        assert(q == f * r + (2 * e + d)) by (nonlinear_arith)
            requires
                q == 2 * a + d,
                r == 2 * h,
                a == h * f + e,
        ;
        vstd::arithmetic::div_mod::lemma_fundamental_div_mod_converse(q as int, r as int, f, 2 * e + d);
    }
}

/// Whether `o` notes `slot` for the suffix at `q`, where the mask selects it.
pub open spec fn noted(o: Seq<i32>, rm: i32, q: i32, slot: int) -> bool {
    q & rm == 0 ==> o[q as int / (rm + 1)] == slot + 1
}

/// What noting samples keeps: the length, and everything behind the samples.
pub open spec fn samples_kept(n: int, rm: i32, before: Seq<i32>, after: Seq<i32>) -> bool {
    &&& after.len() == before.len()
    &&& forall|x: int| sample_count(n, rm + 1) <= x < before.len() ==> #[trigger] after[x] == before[x]
}

/// Noting the slot of a suffix keeps what is noted for the others.
proof fn lemma_noted(o: Seq<i32>, n: int, rm: i32, q: i32, slot: int)
    requires
        1 <= rm < i32::MAX,
        valid_rate((rm + 1) as i32),
        0 <= q < n <= i32::MAX,
        0 <= slot < n,
        sample_count(n, rm + 1) <= o.len(),
    ensures
        sampled(o, rm, q, (slot + 1) as i32) is Some,
        samples_kept(n, rm, o, sampled(o, rm, q, (slot + 1) as i32)->0),
        noted(sampled(o, rm, q, (slot + 1) as i32)->0, rm, q, slot),
        forall|u: i32, j: int| 0 <= u < n && u != q && #[trigger] noted(o, rm, u, j) ==> noted(
            sampled(o, rm, q, (slot + 1) as i32)->0, rm, u, j),
{
    let r = (rm + 1) as i32;
    lemma_mask_is_remainder(q, r, rm);
    vstd::arithmetic::div_mod::lemma_fundamental_div_mod(q as int, r as int);
    vstd::arithmetic::div_mod::lemma_div_is_ordered(q as int, n - 1, r as int);
    vstd::arithmetic::div_mod::lemma_div_pos_is_pos(q as int, r as int);
    let o2 = sampled(o, rm, q, (slot + 1) as i32)->0;
    assert forall|u: i32, j: int| 0 <= u < n && u != q && #[trigger] noted(o, rm, u, j) implies noted(o2, rm, u, j) by {
        if u & rm == 0 && q & rm == 0 {
            lemma_mask_is_remainder(u, r, rm);
            vstd::arithmetic::div_mod::lemma_fundamental_div_mod(u as int, r as int);
            vstd::arithmetic::div_mod::lemma_div_is_ordered(u as int, n - 1, r as int);
            vstd::arithmetic::div_mod::lemma_div_pos_is_pos(u as int, r as int);
        }
    }
}

/// Whether `o` notes the slots of the suffixes of type L in front of the bounds `b`.
pub open spec fn left_noted(t: Seq<u8>, sa: Seq<i32>, rm: i32, b: Seq<i32>, o: Seq<i32>) -> bool {
    forall|j: int| 0 <= j < t.len() && is_l(text8(t), #[trigger] sa[j] as int) && j < b[t[sa[j] as int] as int] ==> noted(
        o, rm, sa[j], j)
}

/// A suffix of type L is noted where it is placed.
proof fn lemma_left_noted_step(
    t: Seq<u8>,
    sa: Seq<i32>,
    s: Seq<i32>,
    starts: Seq<i32>,
    rm: i32,
    i: int,
    st: PlaceState,
    q: int,
    b: Seq<i32>,
    o: Seq<i32>,
)
    requires
        2 <= t.len() <= i32::MAX,
        is_suffix_array(text8(t), sa),
        1 <= rm < i32::MAX,
        valid_rate((rm + 1) as i32),
        sample_count(t.len() as int, rm + 1) <= o.len(),
        left_state(wide(t), sa, s, 256, starts, st, i),
        starts.len() == 256,
        b.len() == 256,
        left_noted(t, sa, rm, b, o),
        0 <= q < t.len(),
        i <= b[t[q] as int] < t.len(),
        0 <= i,
        starts[t[q] as int] <= b[t[q] as int],
        st.1 == b.update(t[q] as int, (b[t[q] as int] + 1) as i32),
        st.0[b[t[q] as int] as int] == entry_l(wide(t), q),
    ensures
        sampled(o, rm, q as i32, (b[t[q] as int] + 1) as i32) is Some,
        samples_kept(t.len() as int, rm, o, sampled(o, rm, q as i32, (b[t[q] as int] + 1) as i32)->0),
        left_noted(t, sa, rm, st.1, sampled(o, rm, q as i32, (b[t[q] as int] + 1) as i32)->0),
{
    let w = wide(t);
    let n = t.len() as int;
    let c = t[q] as int;
    let x = b[c] as int;
    lemma_wide(t);
    assert(0 <= sa[x] < n);
    assert(st.1[c] == x + 1);
    assert(w[sa[x] as int] == c && is_l(text32(w), sa[x] as int));
    assert(st.0[x] == left_entry(w, sa, s, i, x));
    assert(sa[x] == q);
    lemma_noted(o, n, rm, q as i32, x);
    let o2 = sampled(o, rm, q as i32, (x + 1) as i32)->0;
    assert forall|j: int| 0 <= j < n && is_l(text8(t), #[trigger] sa[j] as int) && j < st.1[t[sa[j] as int] as int] implies noted(
        o2, rm, sa[j], j) by {
        assert(0 <= sa[j] < n);
        if j != x {
            if sa[j] == q {
                lemma_suffix_array_distinct(text8(t), sa, j, x);
            }
            assert(j < b[t[sa[j] as int] as int]);
            assert(noted(o, rm, sa[j], j));
        }
    }
}

/// The samples after the last suffix has been placed.
pub open spec fn first_samples(t: Seq<u8>, rm: i32, first: PlaceState, o: Seq<i32>) -> Option<Seq<i32>> {
    sampled(o, rm, (t.len() - 1) as i32, first.1[t[t.len() - 1] as int])
}

/// The scan to the right with samples does what the one without does, and notes the slots.
#[verifier::spinoff_prover]
proof fn lemma_left_samples(t: Seq<u8>, sa: Seq<i32>, s: Seq<i32>, b: Seq<i32>, rm: i32, o: Seq<i32>, i: int)
    requires
        prepared_8u(t, sa, s, b),
        1 <= rm < i32::MAX,
        valid_rate((rm + 1) as i32),
        sample_count(t.len() as int, rm + 1) <= o.len(),
        0 <= i <= t.len(),
    ensures
        ({
            let first = seeded_32s_1k(wide(t), t.len() as int, (s, b.subrange(1536, 1792)))->0;
            let x = fold_up(final_bwt_scan_left_to_right_8u_step(t), first, 0, i);
            let y = fold_up(final_bwt_aux_scan_left_to_right_8u_slot_step(t, rm),
                (first.0, first.1, first_samples(t, rm, first, o)->0), 0, i);
            &&& first_samples(t, rm, first, o) is Some
            &&& x is Some
            &&& y is Some
            &&& y.unwrap().0 == x.unwrap().0
            &&& y.unwrap().1 == x.unwrap().1
            &&& left_noted(t, sa, rm, y.unwrap().1, y.unwrap().2)
            &&& samples_kept(t.len() as int, rm, o, y.unwrap().2)
        }),
    decreases i,
{
    let w = wide(t);
    let n = t.len() as int;
    let starts = b.subrange(1536, 1792);
    let ends = b.subrange(1792, 2048);
    let first = seeded_32s_1k(w, n, (s, starts))->0;
    lemma_wide(t);
    lemma_left_start(w, sa, s, 256, starts, ends);
    lemma_left_follows(t, sa, s, b, i);
    if i == 0 {
        assert(w[n - 1] == t[n - 1] && w[n - 2] == t[n - 2]);
        let c = t[n - 1] as int;
        assert(first.1 == starts.update(c, (starts[c] + 1) as i32));
        assert forall|j: int| 0 <= j < n && is_l(text8(t), #[trigger] sa[j] as int) implies !(j < starts[t[sa[j] as int] as int]) by {
            let u = sa[j] as int;
            assert(0 <= u < n);
            assert(w[u] == t[u]);
            assert(!(w[u] < t[u] as int));
        }
        assert(first.1[c] <= n);
        lemma_left_noted_step(t, sa, s, starts, rm, 0, first, n - 1, starts, o);
    } else {
        let l = i - 1;
        lemma_left_samples(t, sa, s, b, rm, o, l);
        lemma_left_follows(t, sa, s, b, l);
        lemma_left_run(w, sa, s, 256, starts, ends, l);
        let st = fold_up(final_sorting_scan_left_to_right_32s_step(w), first, 0, l)->0;
        let x = fold_up(final_bwt_scan_left_to_right_8u_step(t), first, 0, l)->0;
        let y = fold_up(final_bwt_aux_scan_left_to_right_8u_slot_step(t, rm),
            (first.0, first.1, first_samples(t, rm, first, o)->0), 0, l)->0;
        lemma_left_step(w, sa, s, 256, starts, ends, st, l);
        let p = st.0[l];
        assert(x.0[l] == p);
        let st2 = final_sorting_scan_left_to_right_32s_step(w)(st, l)->0;
        if p > 0 {
            let q = p - 1;
            assert(w[q] == t[q]);
            assert(before32(w, q) == before8(t, q));
            let c = t[q] as int;
            assert(st2.0[st.1[c] as int] == entry_l(w, q));
            lemma_left_noted_step(t, sa, s, starts, rm, i, st2, q, st.1, y.2);
        }
    }
}

/// Whether `o` notes the slots of the suffixes of type L, and those of type S behind the bounds
/// `b`.
pub open spec fn right_noted(t: Seq<u8>, sa: Seq<i32>, rm: i32, b: Seq<i32>, o: Seq<i32>) -> bool {
    forall|j: int| 0 <= j < t.len() && (is_l(text8(t), #[trigger] sa[j] as int) || j >= b[t[sa[j] as int] as int]) ==> noted(
        o, rm, sa[j], j)
}

/// A suffix of type S is noted where it is placed.
proof fn lemma_right_noted_step(
    t: Seq<u8>,
    sa: Seq<i32>,
    s: Seq<i32>,
    ends: Seq<i32>,
    rm: i32,
    i: int,
    st: PlaceState,
    q: int,
    b: Seq<i32>,
    o: Seq<i32>,
)
    requires
        2 <= t.len() <= i32::MAX,
        is_suffix_array(text8(t), sa),
        1 <= rm < i32::MAX,
        valid_rate((rm + 1) as i32),
        sample_count(t.len() as int, rm + 1) <= o.len(),
        right_state(wide(t), sa, s, 256, ends, st, i),
        ends.len() == 256,
        b.len() == 256,
        right_noted(t, sa, rm, b, o),
        0 <= q < t.len(),
        0 < b[t[q] as int] <= i <= t.len(),
        b[t[q] as int] <= ends[t[q] as int],
        st.1 == b.update(t[q] as int, (b[t[q] as int] - 1) as i32),
        st.0[b[t[q] as int] - 1] == entry_s(wide(t), q),
    ensures
        sampled(o, rm, q as i32, b[t[q] as int]) is Some,
        samples_kept(t.len() as int, rm, o, sampled(o, rm, q as i32, b[t[q] as int])->0),
        right_noted(t, sa, rm, st.1, sampled(o, rm, q as i32, b[t[q] as int])->0),
{
    let w = wide(t);
    let n = t.len() as int;
    let c = t[q] as int;
    let x = b[c] - 1;
    lemma_wide(t);
    assert(0 <= sa[x] < n);
    assert(st.1[c] == x);
    assert(w[sa[x] as int] == c && !is_l(text32(w), sa[x] as int));
    assert(placed_s(w, sa, sa[x] as int, i));
    assert(sa[x] == q);
    lemma_noted(o, n, rm, q as i32, x);
    let o2 = sampled(o, rm, q as i32, (x + 1) as i32)->0;
    assert forall|j: int| 0 <= j < n && (is_l(text8(t), #[trigger] sa[j] as int) || j >= st.1[t[sa[j] as int] as int]) implies noted(
        o2, rm, sa[j], j) by {
        assert(0 <= sa[j] < n);
        if j != x {
            if sa[j] == q {
                lemma_suffix_array_distinct(text8(t), sa, j, x);
            }
            assert(noted(o, rm, sa[j], j));
        }
    }
}

/// The scan to the left with samples does what the one without does, and notes the slots.
#[verifier::spinoff_prover]
proof fn lemma_right_samples(
    t: Seq<u8>,
    sa: Seq<i32>,
    s: Seq<i32>,
    z: Seq<i32>,
    ends: Seq<i32>,
    rm: i32,
    o: Seq<i32>,
    i: int,
)
    requires
        2 <= t.len() <= i32::MAX,
        is_suffix_array(text8(t), sa),
        bucket_ends(wide(t), sa, 256, ends),
        ends.len() == 256,
        left_done(wide(t), sa, s),
        z.len() == s.len(),
        forall|j: int| 0 <= j < t.len() && is_l(text8(t), #[trigger] sa[j] as int) ==> z[j] == turned(
            t,
            entry_l(wide(t), sa[j] as int),
        ),
        1 <= rm < i32::MAX,
        valid_rate((rm + 1) as i32),
        sample_count(t.len() as int, rm + 1) <= o.len(),
        forall|j: int| 0 <= j < t.len() && is_l(text8(t), #[trigger] sa[j] as int) ==> noted(o, rm, sa[j], j),
        0 <= i <= t.len(),
    ensures
        ({
            let x = fold_down(final_bwt_scan_right_to_left_8u_step(t), (z, ends, -1i32), i, t.len() as int);
            let y = fold_down(final_bwt_aux_scan_right_to_left_8u_slot_step(t, rm), (z, ends, o), i, t.len() as int);
            &&& x is Some
            &&& y is Some
            &&& y.unwrap().0 == x.unwrap().0
            &&& y.unwrap().1 == x.unwrap().1
            &&& right_noted(t, sa, rm, y.unwrap().1, y.unwrap().2)
            &&& samples_kept(t.len() as int, rm, o, y.unwrap().2)
        }),
    decreases t.len() - i,
{
    let w = wide(t);
    let n = t.len() as int;
    lemma_wide(t);
    lemma_right_follows(t, sa, s, z, ends, i);
    if i < n {
        lemma_right_samples(t, sa, s, z, ends, rm, o, i + 1);
        lemma_right_follows(t, sa, s, z, ends, i + 1);
        lemma_right_run(w, sa, s, 256, ends, i + 1);
        let st = fold_down(final_sorting_scan_right_to_left_32s_step(w), (s, ends), i + 1, n)->0;
        let x = fold_down(final_bwt_scan_right_to_left_8u_step(t), (z, ends, -1i32), i + 1, n)->0;
        let y = fold_down(final_bwt_aux_scan_right_to_left_8u_slot_step(t, rm), (z, ends, o), i + 1, n)->0;
        lemma_right_step(w, sa, s, 256, ends, st, i);
        let st2 = final_sorting_scan_right_to_left_32s_step(w)(st, i)->0;
        let p = x.0[i];
        if p > 0 {
            let q = p - 1;
            lemma_turned_entry(t, sa, s, ends, st, x, i);
            assert(w[q] == t[q]);
            assert(before32(w, q) == before8(t, q));
            let c = t[q] as int;
            assert(st2.0[st.1[c] - 1] == entry_s(w, q));
            lemma_right_noted_step(t, sa, s, ends, rm, i, st2, q, st.1, y.2);
        }
    } else {
        assert forall|j: int| 0 <= j < n && (is_l(text8(t), #[trigger] sa[j] as int) || j >= ends[t[sa[j] as int] as int]) implies noted(
            o, rm, sa[j], j) by {
            assert(0 <= sa[j] < n);
            let c = t[sa[j] as int] as int;
            assert(w[sa[j] as int] == c);
            assert(j < ends[c]);
        }
    }
}

/// An entry that induces is the same whether the scan to the left sorts or transforms.
proof fn lemma_turned_entry(t: Seq<u8>, sa: Seq<i32>, s: Seq<i32>, ends: Seq<i32>, st: PlaceState, x: InduceState, i: int)
    requires
        2 <= t.len() <= i32::MAX,
        is_suffix_array(text8(t), sa),
        bucket_ends(wide(t), sa, 256, ends),
        right_state(wide(t), sa, s, 256, ends, st, i + 1),
        right_follows(t, sa, st, x, i + 1),
        0 <= i < t.len(),
        x.0[i] > 0,
    ensures
        st.0[i] == x.0[i],
{
    let w = wide(t);
    let y = text8(t);
    let v = sa[i] as int;
    lemma_wide(t);
    assert(0 <= v < t.len());
    assert(w[v] == t[v]);
    assert(before32(w, v) == before8(t, v));
    if is_l(y, v) {
        let e = entry_l(w, v);
        assert(st.0[i] == flipped(e));
        assert(x.0[i] == turned(t, e));
    } else {
        lemma_next_after(w, sa, v);
        assert(placed_s(w, sa, v, i + 1));
    }
}

/// Slots noted for all suffixes are the samples.
proof fn lemma_noted_samples(t: Seq<u8>, sa: Seq<i32>, r: i32, o: Seq<i32>)
    requires
        1 <= t.len() <= i32::MAX,
        is_suffix_array(text8(t), sa),
        valid_rate(r),
        sample_count(t.len() as int, r as int) <= o.len(),
        forall|j: int| 0 <= j < t.len() ==> noted(o, (r - 1) as i32, #[trigger] sa[j], j),
    ensures
        samples_from(sa, t.len() as int, r as int, o),
{
    let n = t.len() as int;
    let rm = (r - 1) as i32;
    assert forall|k: int| 0 <= k && #[trigger] (k * r) < n implies 0 <= k < o.len() && 1 <= o[k] <= n
        && sa[o[k] - 1] == k * r by {
        assert(0 <= k * r) by (nonlinear_arith)
            requires
                0 <= k,
                r >= 2,
        ;
        law_suffix_array_complete(text8(t), sa, k * r);
        let j = choose|j: int| 0 <= j < sa.len() && #[trigger] sa[j] == k * r;
        lemma_mask_is_remainder(sa[j], r, rm);
        vstd::arithmetic::div_mod::lemma_mod_multiples_basic(k, r as int);
        vstd::arithmetic::div_mod::lemma_div_multiples_vanish(k, r as int);
        assert(r * k == k * r) by (nonlinear_arith);
        vstd::arithmetic::div_mod::lemma_div_is_ordered(k * r, n - 1, r as int);
        assert(noted(o, rm, sa[j], j));
    }
}

/// The final scans transform byte texts and note their samples, however many workers there are:
/// each slot is left with the byte in front of its suffix, and one more than the rank of every
/// `r`-th suffix is noted.
pub proof fn law_final_bwt_aux_8u(t: Seq<u8>, sa: Seq<i32>, s: Seq<i32>, b: Seq<i32>, r: i32, o: Seq<i32>, threads: i32)
    requires
        prepared_8u(t, sa, s, b),
        valid_rate(r),
        sample_count(t.len() as int, r as int) <= o.len(),
    ensures
        final_bwt_aux_8u(t, t.len() as i32, (r - 1) as i32, threads, (s, b, o)) is Some,
        ({
            let x = final_bwt_aux_8u(t, t.len() as i32, (r - 1) as i32, threads, (s, b, o))->0;
            &&& x.0.len() == s.len()
            &&& forall|j: int| 0 <= j < t.len() ==> #[trigger] x.0[j] == front_byte(t, sa[j] as int)
            &&& samples_from(sa, t.len() as int, r as int, x.2)
            &&& samples_kept(t.len() as int, (r - 1) as i32, o, x.2)
        }),
{
    let n = t.len() as int;
    let w = wide(t);
    let rm = (r - 1) as i32;
    let starts = b.subrange(1536, 1792);
    let ends = b.subrange(1792, 2048);
    lemma_wide(t);
    lemma_seed_same(t, (s, starts));
    lemma_left_start(w, sa, s, 256, starts, ends);
    lemma_left_scan(w, sa, s, 256, starts, ends);
    lemma_left_follows(t, sa, s, b, n);
    lemma_left_samples(t, sa, s, b, rm, o, n);
    let left = final_left_32s(w, n, (s, starts))->0;
    let turn = bwt_left_8u(t, n, (s, starts))->0;
    let noting = bwt_aux_left_8u(t, n, rm, (s, starts, o))->0;
    assert(left_follows(t, left, turn, n));
    assert(noting.0 == turn.0 && noting.1 == turn.1);
    assert forall|j: int| 0 <= j < n && is_l(text8(t), #[trigger] sa[j] as int) implies j < turn.1[t[sa[j] as int] as int] by {
        assert(0 <= sa[j] < n);
        assert(w[sa[j] as int] == t[sa[j] as int]);
    }
    assert forall|j: int| 0 <= j < n && is_l(text8(t), #[trigger] sa[j] as int) implies turn.0[j] == turned(
        t,
        entry_l(w, sa[j] as int),
    ) by {
        let e = entry_l(w, sa[j] as int);
        assert(left.0[j] == flipped(e));
        assert(flipped(flipped(e)) == e);
    }
    lemma_between_scans(t, sa, s, b, threads, turn);
    let z = between_scans(turn.0, n as i32, threads, turn.1, ends)->0;
    lemma_right_follows(t, sa, left.0, z, ends, 0);
    lemma_right_samples(t, sa, left.0, z, ends, rm, noting.2, 0);
    lemma_right_run(w, sa, left.0, 256, ends, 0);
    let st = fold_down(final_sorting_scan_right_to_left_32s_step(w), (left.0, ends), 0, n)->0;
    let x = final_bwt_aux_8u(t, n as i32, rm, threads, (s, b, o))->0;
    assert forall|j: int| 0 <= j < n implies noted(x.2, rm, #[trigger] sa[j], j) by {
        assert(0 <= sa[j] < n);
        if !is_l(text8(t), sa[j] as int) {
            lemma_next_after(w, sa, sa[j] as int);
            assert(placed_s(w, sa, sa[j] as int, 0));
            assert(w[sa[j] as int] == t[sa[j] as int]);
        }
    }
    lemma_noted_samples(t, sa, r, x.2);
}

} // verus!
