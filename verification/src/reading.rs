//! Scanning a block of a byte text by reading it whole before writing leaves what the direct scan
//! leaves.

use vstd::prelude::*;
use crate::block_8u::{
    block_bwt_aux_left, block_bwt_aux_right, block_bwt_left, block_bwt_right, block_final_gsa, block_final_left, block_final_right, place_final_gsa_run,
    place_final_gsa_step, place_final_left_run, place_final_left_step, place_final_right_run, place_final_right_step,
    place_aux_left_run, place_aux_left_step, place_aux_right_run, place_aux_right_step, prepare_bwt_aux_right_step,
    prepare_bwt_left_step, prepare_bwt_right_step, prepare_final_left_step, prepare_final_right_step,
};
use crate::desks::{exchanged, Desk};
use crate::final_scan::{
    final_bwt_aux_scan_left_to_right_8u_run, final_bwt_aux_scan_left_to_right_8u_slot_step,
    final_bwt_aux_scan_right_to_left_8u_run, final_bwt_aux_scan_right_to_left_8u_slot_step,
    final_bwt_scan_left_to_right_8u_run, final_bwt_scan_left_to_right_8u_step, final_bwt_scan_right_to_left_8u_run,
    final_bwt_scan_right_to_left_8u_step, final_gsa_scan_right_to_left_8u_run, final_gsa_scan_right_to_left_8u_step,
    final_sorting_scan_left_to_right_8u_run, final_sorting_scan_left_to_right_8u_step,
    final_sorting_scan_right_to_left_8u_run, final_sorting_scan_right_to_left_8u_step,
};
use crate::fold::{fold_down, fold_up, lemma_fold_down_prefix, lemma_fold_up_prefix};
use crate::gather::cleared;
use crate::marks::{marked, unmarked};
use crate::types::{InduceState, PlaceState, ThreadCache};

verus! {

/// Writing from a cache reads only the entries that it writes.
proof fn lemma_place_final_left_alike(c: Seq<ThreadCache>, e: Seq<ThreadCache>, s: PlaceState, n: int)
    requires
        0 <= n <= c.len(),
        c.len() == e.len(),
        forall|x: int| 0 <= x < n ==> #[trigger] c[x] == e[x],
    ensures
        place_final_left_run(c, s, 0, n) == place_final_left_run(e, s, 0, n),
    decreases n,
{
    if n > 0 {
        lemma_place_final_left_alike(c, e, s, n - 1);
        assert(c[n - 1] == e[n - 1]);
    }
}

/// Writing from a cache reads only the entries that it writes.
proof fn lemma_place_final_right_alike(c: Seq<ThreadCache>, e: Seq<ThreadCache>, s: PlaceState, n: int)
    requires
        0 <= n <= c.len(),
        c.len() == e.len(),
        forall|x: int| 0 <= x < n ==> #[trigger] c[x] == e[x],
    ensures
        place_final_right_run(c, s, 0, n) == place_final_right_run(e, s, 0, n),
    decreases n,
{
    if n > 0 {
        lemma_place_final_right_alike(c, e, s, n - 1);
        assert(c[n - 1] == e[n - 1]);
    }
}

/// Writing from a cache reads only the entries that it writes.
proof fn lemma_place_final_gsa_alike(c: Seq<ThreadCache>, e: Seq<ThreadCache>, s: PlaceState, n: int)
    requires
        0 <= n <= c.len(),
        c.len() == e.len(),
        forall|x: int| 0 <= x < n ==> #[trigger] c[x] == e[x],
    ensures
        place_final_gsa_run(c, s, 0, n) == place_final_gsa_run(e, s, 0, n),
    decreases n,
{
    if n > 0 {
        lemma_place_final_gsa_alike(c, e, s, n - 1);
        assert(c[n - 1] == e[n - 1]);
    }
}

/// The counters of a scan that transforms upward only move one way.
proof fn lemma_bwt_left_monotone(t: Seq<u8>, s: PlaceState, lo: int, hi: int, mid: int, v: int)
    requires
        lo <= mid <= hi,
        fold_up(final_bwt_scan_left_to_right_8u_step(t), s, lo, hi) is Some,
        0 <= v < s.1.len(),
    ensures
        fold_up(final_bwt_scan_left_to_right_8u_step(t), s, lo, mid) is Some,
        fold_up(final_bwt_scan_left_to_right_8u_step(t), s, lo, mid).unwrap().1.len() == s.1.len(),
        fold_up(final_bwt_scan_left_to_right_8u_step(t), s, lo, hi).unwrap().1.len() == s.1.len(),
        fold_up(final_bwt_scan_left_to_right_8u_step(t), s, lo, hi).unwrap().0.len() == s.0.len(),
        fold_up(final_bwt_scan_left_to_right_8u_step(t), s, lo, hi).unwrap().1[v] >= fold_up(final_bwt_scan_left_to_right_8u_step(t), s, lo, mid).unwrap().1[v],
        fold_up(final_bwt_scan_left_to_right_8u_step(t), s, lo, mid).unwrap().1[v] >= s.1[v],
    decreases hi - lo,
{
    if lo < hi {
        lemma_fold_up_prefix(final_bwt_scan_left_to_right_8u_step(t), s, lo, hi - 1, hi);
        lemma_bwt_left_monotone(t, s, lo, hi - 1, if mid < hi { mid } else { hi - 1 }, v);
    }
}

/// Reading a block into a cache and writing from it goes along with the direct scan.
#[verifier::spinoff_prover]
#[verifier::rlimit(40)]
proof fn lemma_bwt_left_along(t: Seq<u8>, k: int, sa: Seq<i32>, b: Seq<i32>, o: Seq<i32>, c: Seq<ThreadCache>, own: Seq<i32>, under: Seq<i32>, start: int, edge: int, i: int)
    requires
        0 <= start <= i <= edge,
        0 <= k <= b.len(),
        k <= o.len(),
        own.len() == o.len(),
        c.len() <= usize::MAX,
        forall|q: int| 0 <= q < t.len() ==> #[trigger] t[q] < k,
        forall|v: int| 0 <= v < k ==> #[trigger] o[v] == 0,
        forall|v: int| 0 <= v < k ==> #[trigger] own[v] == b[v],
        under.len() == sa.len(),
        forall|q: int| 0 <= q < sa.len() && !(start <= q < edge) ==> #[trigger] under[q] == sa[q],
        fold_up(final_bwt_scan_left_to_right_8u_step(t), (sa, b), start, edge) is Some,
        fold_up(prepare_bwt_left_step(t), (sa, o, c, 0usize), start, i) is Some,
        forall|v: int| 0 <= v < k && #[trigger] b[v]
            != fold_up(final_bwt_scan_left_to_right_8u_step(t), (sa, b), start, edge).unwrap().1[v] ==> b[v] >= edge,
    ensures
        ({
            let s = fold_up(final_bwt_scan_left_to_right_8u_step(t), (sa, b), start, i).unwrap();
            let x = fold_up(prepare_bwt_left_step(t), (sa, o, c, 0usize), start, i).unwrap();
            let y = place_final_left_run(x.2, (under, own), 0, x.3 as int);
            &&& fold_up(final_bwt_scan_left_to_right_8u_step(t), (sa, b), start, i) is Some
            &&& s.0.len() == sa.len()
            &&& s.1.len() == b.len()
            &&& x.0.len() == sa.len()
            &&& x.1.len() == o.len()
            &&& x.2.len() == c.len()
            &&& 0 <= x.3 <= c.len()
            &&& y is Some
            &&& y.unwrap().0.len() == sa.len()
            &&& y.unwrap().1.len() == own.len()
            &&& forall|v: int| 0 <= v < k ==> #[trigger] s.1[v] == b[v] + x.1[v]
            &&& forall|v: int| 0 <= v < k ==> #[trigger] y.unwrap().1[v] == s.1[v]
            &&& forall|v: int| k <= v < b.len() ==> #[trigger] s.1[v] == b[v]
            &&& forall|v: int| k <= v < o.len() ==> #[trigger] x.1[v] == o[v]
            &&& forall|q: int| 0 <= q < sa.len() && !(start <= q < edge) ==> #[trigger] y.unwrap().0[q] == s.0[q]
            &&& forall|q: int| start <= q < edge && q < sa.len() ==> #[trigger] y.unwrap().0[q] == under[q]
            &&& forall|q: int| start <= q < i && q < sa.len() ==> #[trigger] s.0[q] == x.0[q]
            &&& forall|q: int| i <= q < edge && q < sa.len() ==> #[trigger] s.0[q] == sa[q]
            &&& forall|q: int| 0 <= q < sa.len() && !(start <= q < i) ==> #[trigger] x.0[q] == sa[q]
        }),
    decreases i - start,
{
    let direct = final_bwt_scan_left_to_right_8u_step(t);
    let read = prepare_bwt_left_step(t);
    lemma_fold_up_prefix(direct, (sa, b), start, i, edge);
    if i != start {
        let j = i - 1;
        lemma_fold_up_prefix(direct, (sa, b), start, i - 1, edge);
        lemma_fold_up_prefix(read, (sa, o, c, 0usize), start, i - 1, i);
        lemma_bwt_left_along(t, k, sa, b, o, c, own, under, start, edge, i - 1);
        let s = fold_up(final_bwt_scan_left_to_right_8u_step(t), (sa, b), start, i - 1).unwrap();
        let x = fold_up(prepare_bwt_left_step(t), (sa, o, c, 0usize), start, i - 1).unwrap();
        let s2 = fold_up(final_bwt_scan_left_to_right_8u_step(t), (sa, b), start, i).unwrap();
        let x2 = fold_up(prepare_bwt_left_step(t), (sa, o, c, 0usize), start, i).unwrap();
        assert(direct(s, j) == Some(s2));
        assert(read(x, j) == Some(x2));
        assert(s.0[j] == sa[j] && x.0[j] == sa[j]);
        let p = s.0[j];
        let y = place_final_left_run(x.2, (under, own), 0, x.3 as int).unwrap();
        if p > 0 {
            let v = t[p - 1] as int;
            assert(x2.2[x.3 as int].symbol == v);
            lemma_place_final_left_alike(x.2, x2.2, (under, own), x.3 as int);
            assert(place_final_left_run(x2.2, (under, own), 0, x2.3 as int) == place_final_left_step(x2.2)(y, x.3 as int));
            let target = s.1[v] as int;
            lemma_bwt_left_monotone(t, (sa, b), start, edge, i, v);
            lemma_bwt_left_monotone(t, (sa, b), start, edge, i - 1, v);
            assert(b[v] != fold_up(final_bwt_scan_left_to_right_8u_step(t), (sa, b), start, edge).unwrap().1[v]);
            assert(target >= edge);
            assert(y.1[v] == s.1[v]);
        }
    }
}

/// Scanning a block that is read before anything is written leaves the array and the counters of
/// the direct scan where every counter that the direct scan moves starts behind the
/// block.
pub proof fn law_block_bwt_left(t: Seq<u8>, k: int, s: (Seq<i32>, Seq<i32>, Seq<Desk>), start: int, size: int)
    requires
        0 <= start,
        0 < size,
        0 <= k,
        forall|q: int| 0 <= q < t.len() ==> #[trigger] t[q] < k,
        s.2.len() > 0,
        s.2[0].cache.len() <= usize::MAX,
        block_bwt_left(t, k, s, start, size) is Some,
        final_bwt_scan_left_to_right_8u_run(t, (s.0, s.1), start, size) is Some,
        forall|v: int| 0 <= v < k && #[trigger] s.1[v] != final_bwt_scan_left_to_right_8u_run(t, (s.0, s.1), start, size).unwrap().1[v]
            ==> s.1[v] >= start + size,
    ensures
        ({
            let x = block_bwt_left(t, k, s, start, size).unwrap();
            let y = final_bwt_scan_left_to_right_8u_run(t, (s.0, s.1), start, size).unwrap();
            &&& x.0 == y.0
            &&& x.1.len() == s.1.len()
            &&& x.2.len() == s.2.len()
            &&& x.2[0].cache.len() == s.2[0].cache.len()
            &&& forall|v: int| 0 <= v < s.1.len() ==> #[trigger] x.1[v] == y.1[v]
        }),
{
    let edge = start + size;
    let (sa, b) = (s.0, s.1);
    let o = cleared(s.2[0].buckets, 0, k);
    let c = s.2[0].cache;
    let x = fold_up(prepare_bwt_left_step(t), (sa, o, c, 0usize), start, edge).unwrap();
    let e = exchanged(b, x.1, 0, k, false).unwrap();
    let own = Seq::new(o.len(), |v: int| if v < k { b[v] } else { 0i32 });
    lemma_bwt_left_along(t, k, sa, b, o, c, own, sa, start, edge, edge);
    lemma_bwt_left_along(t, k, sa, b, o, c, e.1, x.0, start, edge, edge);
    let y = fold_up(final_bwt_scan_left_to_right_8u_step(t), (sa, b), start, edge).unwrap();
    let z = block_bwt_left(t, k, s, start, size).unwrap();
    assert forall|q: int| 0 <= q < sa.len() implies #[trigger] z.0[q] == y.0[q] by {
        if start <= q < edge {
            assert(y.0[q] == x.0[q]);
        }
    }
    assert(z.0 =~= y.0);
    assert forall|v: int| 0 <= v < b.len() implies #[trigger] z.1[v] == y.1[v] by {
        if v < k {
            assert(y.1[v] == b[v] + x.1[v]);
        }
    }
}

/// The counters of a scan that sorts upward only move one way.
proof fn lemma_final_left_monotone(t: Seq<u8>, s: PlaceState, lo: int, hi: int, mid: int, v: int)
    requires
        lo <= mid <= hi,
        fold_up(final_sorting_scan_left_to_right_8u_step(t), s, lo, hi) is Some,
        0 <= v < s.1.len(),
    ensures
        fold_up(final_sorting_scan_left_to_right_8u_step(t), s, lo, mid) is Some,
        fold_up(final_sorting_scan_left_to_right_8u_step(t), s, lo, mid).unwrap().1.len() == s.1.len(),
        fold_up(final_sorting_scan_left_to_right_8u_step(t), s, lo, hi).unwrap().1.len() == s.1.len(),
        fold_up(final_sorting_scan_left_to_right_8u_step(t), s, lo, hi).unwrap().0.len() == s.0.len(),
        fold_up(final_sorting_scan_left_to_right_8u_step(t), s, lo, hi).unwrap().1[v] >= fold_up(final_sorting_scan_left_to_right_8u_step(t), s, lo, mid).unwrap().1[v],
        fold_up(final_sorting_scan_left_to_right_8u_step(t), s, lo, mid).unwrap().1[v] >= s.1[v],
    decreases hi - lo,
{
    if lo < hi {
        lemma_fold_up_prefix(final_sorting_scan_left_to_right_8u_step(t), s, lo, hi - 1, hi);
        lemma_final_left_monotone(t, s, lo, hi - 1, if mid < hi { mid } else { hi - 1 }, v);
    }
}

/// Reading a block into a cache and writing from it goes along with the direct scan.
#[verifier::spinoff_prover]
#[verifier::rlimit(40)]
proof fn lemma_final_left_along(t: Seq<u8>, k: int, sa: Seq<i32>, b: Seq<i32>, o: Seq<i32>, c: Seq<ThreadCache>, own: Seq<i32>, under: Seq<i32>, start: int, edge: int, i: int)
    requires
        0 <= start <= i <= edge,
        0 <= k <= b.len(),
        k <= o.len(),
        own.len() == o.len(),
        c.len() <= usize::MAX,
        forall|q: int| 0 <= q < t.len() ==> #[trigger] t[q] < k,
        forall|v: int| 0 <= v < k ==> #[trigger] o[v] == 0,
        forall|v: int| 0 <= v < k ==> #[trigger] own[v] == b[v],
        under.len() == sa.len(),
        forall|q: int| 0 <= q < sa.len() && !(start <= q < edge) ==> #[trigger] under[q] == sa[q],
        fold_up(final_sorting_scan_left_to_right_8u_step(t), (sa, b), start, edge) is Some,
        fold_up(prepare_final_left_step(t), (sa, o, c, 0usize), start, i) is Some,
        forall|v: int| 0 <= v < k && #[trigger] b[v]
            != fold_up(final_sorting_scan_left_to_right_8u_step(t), (sa, b), start, edge).unwrap().1[v] ==> b[v] >= edge,
    ensures
        ({
            let s = fold_up(final_sorting_scan_left_to_right_8u_step(t), (sa, b), start, i).unwrap();
            let x = fold_up(prepare_final_left_step(t), (sa, o, c, 0usize), start, i).unwrap();
            let y = place_final_left_run(x.2, (under, own), 0, x.3 as int);
            &&& fold_up(final_sorting_scan_left_to_right_8u_step(t), (sa, b), start, i) is Some
            &&& s.0.len() == sa.len()
            &&& s.1.len() == b.len()
            &&& x.0.len() == sa.len()
            &&& x.1.len() == o.len()
            &&& x.2.len() == c.len()
            &&& 0 <= x.3 <= c.len()
            &&& y is Some
            &&& y.unwrap().0.len() == sa.len()
            &&& y.unwrap().1.len() == own.len()
            &&& forall|v: int| 0 <= v < k ==> #[trigger] s.1[v] == b[v] + x.1[v]
            &&& forall|v: int| 0 <= v < k ==> #[trigger] y.unwrap().1[v] == s.1[v]
            &&& forall|v: int| k <= v < b.len() ==> #[trigger] s.1[v] == b[v]
            &&& forall|v: int| k <= v < o.len() ==> #[trigger] x.1[v] == o[v]
            &&& forall|q: int| 0 <= q < sa.len() && !(start <= q < edge) ==> #[trigger] y.unwrap().0[q] == s.0[q]
            &&& forall|q: int| start <= q < edge && q < sa.len() ==> #[trigger] y.unwrap().0[q] == under[q]
            &&& forall|q: int| start <= q < i && q < sa.len() ==> #[trigger] s.0[q] == x.0[q]
            &&& forall|q: int| i <= q < edge && q < sa.len() ==> #[trigger] s.0[q] == sa[q]
            &&& forall|q: int| 0 <= q < sa.len() && !(start <= q < i) ==> #[trigger] x.0[q] == sa[q]
        }),
    decreases i - start,
{
    let direct = final_sorting_scan_left_to_right_8u_step(t);
    let read = prepare_final_left_step(t);
    lemma_fold_up_prefix(direct, (sa, b), start, i, edge);
    if i != start {
        let j = i - 1;
        lemma_fold_up_prefix(direct, (sa, b), start, i - 1, edge);
        lemma_fold_up_prefix(read, (sa, o, c, 0usize), start, i - 1, i);
        lemma_final_left_along(t, k, sa, b, o, c, own, under, start, edge, i - 1);
        let s = fold_up(final_sorting_scan_left_to_right_8u_step(t), (sa, b), start, i - 1).unwrap();
        let x = fold_up(prepare_final_left_step(t), (sa, o, c, 0usize), start, i - 1).unwrap();
        let s2 = fold_up(final_sorting_scan_left_to_right_8u_step(t), (sa, b), start, i).unwrap();
        let x2 = fold_up(prepare_final_left_step(t), (sa, o, c, 0usize), start, i).unwrap();
        assert(direct(s, j) == Some(s2));
        assert(read(x, j) == Some(x2));
        assert(s.0[j] == sa[j] && x.0[j] == sa[j]);
        let p = s.0[j];
        let y = place_final_left_run(x.2, (under, own), 0, x.3 as int).unwrap();
        if p > 0 {
            let v = t[p - 1] as int;
            assert(x2.2[x.3 as int].symbol == v);
            lemma_place_final_left_alike(x.2, x2.2, (under, own), x.3 as int);
            assert(place_final_left_run(x2.2, (under, own), 0, x2.3 as int) == place_final_left_step(x2.2)(y, x.3 as int));
            let target = s.1[v] as int;
            lemma_final_left_monotone(t, (sa, b), start, edge, i, v);
            lemma_final_left_monotone(t, (sa, b), start, edge, i - 1, v);
            assert(b[v] != fold_up(final_sorting_scan_left_to_right_8u_step(t), (sa, b), start, edge).unwrap().1[v]);
            assert(target >= edge);
            assert(y.1[v] == s.1[v]);
        }
    }
}

/// Scanning a block that is read before anything is written leaves the array and the counters of
/// the direct scan where every counter that the direct scan moves starts behind the
/// block.
pub proof fn law_block_final_left(t: Seq<u8>, k: int, s: (Seq<i32>, Seq<i32>, Seq<Desk>), start: int, size: int)
    requires
        0 <= start,
        0 < size,
        0 <= k,
        forall|q: int| 0 <= q < t.len() ==> #[trigger] t[q] < k,
        s.2.len() > 0,
        s.2[0].cache.len() <= usize::MAX,
        block_final_left(t, k, s, start, size) is Some,
        final_sorting_scan_left_to_right_8u_run(t, (s.0, s.1), start, size) is Some,
        forall|v: int| 0 <= v < k && #[trigger] s.1[v] != final_sorting_scan_left_to_right_8u_run(t, (s.0, s.1), start, size).unwrap().1[v]
            ==> s.1[v] >= start + size,
    ensures
        ({
            let x = block_final_left(t, k, s, start, size).unwrap();
            let y = final_sorting_scan_left_to_right_8u_run(t, (s.0, s.1), start, size).unwrap();
            &&& x.0 == y.0
            &&& x.1.len() == s.1.len()
            &&& x.2.len() == s.2.len()
            &&& x.2[0].cache.len() == s.2[0].cache.len()
            &&& forall|v: int| 0 <= v < s.1.len() ==> #[trigger] x.1[v] == y.1[v]
        }),
{
    let edge = start + size;
    let (sa, b) = (s.0, s.1);
    let o = cleared(s.2[0].buckets, 0, k);
    let c = s.2[0].cache;
    let x = fold_up(prepare_final_left_step(t), (sa, o, c, 0usize), start, edge).unwrap();
    let e = exchanged(b, x.1, 0, k, false).unwrap();
    let own = Seq::new(o.len(), |v: int| if v < k { b[v] } else { 0i32 });
    lemma_final_left_along(t, k, sa, b, o, c, own, sa, start, edge, edge);
    lemma_final_left_along(t, k, sa, b, o, c, e.1, x.0, start, edge, edge);
    let y = fold_up(final_sorting_scan_left_to_right_8u_step(t), (sa, b), start, edge).unwrap();
    let z = block_final_left(t, k, s, start, size).unwrap();
    assert forall|q: int| 0 <= q < sa.len() implies #[trigger] z.0[q] == y.0[q] by {
        if start <= q < edge {
            assert(y.0[q] == x.0[q]);
        }
    }
    assert(z.0 =~= y.0);
    assert forall|v: int| 0 <= v < b.len() implies #[trigger] z.1[v] == y.1[v] by {
        if v < k {
            assert(y.1[v] == b[v] + x.1[v]);
        }
    }
}

/// The counters of a scan that transforms downward only move one way.
proof fn lemma_bwt_right_monotone(t: Seq<u8>, s: InduceState, lo: int, hi: int, mid: int, v: int)
    requires
        lo <= mid <= hi,
        fold_down(final_bwt_scan_right_to_left_8u_step(t), s, lo, hi) is Some,
        0 <= v < s.1.len(),
    ensures
        fold_down(final_bwt_scan_right_to_left_8u_step(t), s, mid, hi) is Some,
        fold_down(final_bwt_scan_right_to_left_8u_step(t), s, mid, hi).unwrap().1.len() == s.1.len(),
        fold_down(final_bwt_scan_right_to_left_8u_step(t), s, lo, hi).unwrap().1.len() == s.1.len(),
        fold_down(final_bwt_scan_right_to_left_8u_step(t), s, lo, hi).unwrap().0.len() == s.0.len(),
        fold_down(final_bwt_scan_right_to_left_8u_step(t), s, lo, hi).unwrap().1[v] <= fold_down(final_bwt_scan_right_to_left_8u_step(t), s, mid, hi).unwrap().1[v],
        fold_down(final_bwt_scan_right_to_left_8u_step(t), s, mid, hi).unwrap().1[v] <= s.1[v],
    decreases hi - lo,
{
    if lo < hi {
        lemma_fold_down_prefix(final_bwt_scan_right_to_left_8u_step(t), s, lo, lo + 1, hi);
        lemma_bwt_right_monotone(t, s, lo + 1, hi, if mid > lo { mid } else { lo + 1 }, v);
    }
}

/// Reading a block into a cache and writing from it goes along with the direct scan.
#[verifier::spinoff_prover]
#[verifier::rlimit(40)]
proof fn lemma_bwt_right_along(t: Seq<u8>, k: int, sa: Seq<i32>, b: Seq<i32>, d: i32, o: Seq<i32>, c: Seq<ThreadCache>, own: Seq<i32>, under: Seq<i32>, start: int, edge: int, i: int)
    requires
        0 <= start <= i <= edge,
        0 <= k <= b.len(),
        k <= o.len(),
        own.len() == o.len(),
        c.len() <= usize::MAX,
        forall|q: int| 0 <= q < t.len() ==> #[trigger] t[q] < k,
        forall|v: int| 0 <= v < k ==> #[trigger] o[v] == 0,
        forall|v: int| 0 <= v < k ==> #[trigger] own[v] == b[v],
        under.len() == sa.len(),
        forall|q: int| 0 <= q < sa.len() && !(start <= q < edge) ==> #[trigger] under[q] == sa[q],
        fold_down(final_bwt_scan_right_to_left_8u_step(t), (sa, b, d), start, edge) is Some,
        fold_down(prepare_bwt_right_step(t), (sa, o, c, 0usize), i, edge) is Some,
        forall|v: int| 0 <= v < k && #[trigger] b[v]
            != fold_down(final_bwt_scan_right_to_left_8u_step(t), (sa, b, d), start, edge).unwrap().1[v] ==> b[v] <= start,
    ensures
        ({
            let s = fold_down(final_bwt_scan_right_to_left_8u_step(t), (sa, b, d), i, edge).unwrap();
            let x = fold_down(prepare_bwt_right_step(t), (sa, o, c, 0usize), i, edge).unwrap();
            let y = place_final_right_run(x.2, (under, own), 0, x.3 as int);
            &&& fold_down(final_bwt_scan_right_to_left_8u_step(t), (sa, b, d), i, edge) is Some
            &&& s.0.len() == sa.len()
            &&& s.1.len() == b.len()
            &&& x.0.len() == sa.len()
            &&& x.1.len() == o.len()
            &&& x.2.len() == c.len()
            &&& 0 <= x.3 <= c.len()
            &&& y is Some
            &&& y.unwrap().0.len() == sa.len()
            &&& y.unwrap().1.len() == own.len()
            &&& forall|v: int| 0 <= v < k ==> #[trigger] s.1[v] == b[v] - x.1[v]
            &&& forall|v: int| 0 <= v < k ==> #[trigger] y.unwrap().1[v] == s.1[v]
            &&& forall|v: int| k <= v < b.len() ==> #[trigger] s.1[v] == b[v]
            &&& forall|v: int| k <= v < o.len() ==> #[trigger] x.1[v] == o[v]
            &&& forall|q: int| 0 <= q < sa.len() && !(start <= q < edge) ==> #[trigger] y.unwrap().0[q] == s.0[q]
            &&& forall|q: int| start <= q < edge && q < sa.len() ==> #[trigger] y.unwrap().0[q] == under[q]
            &&& forall|q: int| i <= q < edge && q < sa.len() ==> #[trigger] s.0[q] == x.0[q]
            &&& forall|q: int| start <= q < i && q < sa.len() ==> #[trigger] s.0[q] == sa[q]
            &&& forall|q: int| 0 <= q < sa.len() && !(i <= q < edge) ==> #[trigger] x.0[q] == sa[q]
        }),
    decreases edge - i,
{
    let direct = final_bwt_scan_right_to_left_8u_step(t);
    let read = prepare_bwt_right_step(t);
    lemma_fold_down_prefix(direct, (sa, b, d), start, i, edge);
    if i != edge {
        let j = i;
        lemma_fold_down_prefix(direct, (sa, b, d), start, i + 1, edge);
        lemma_fold_down_prefix(read, (sa, o, c, 0usize), i, i + 1, edge);
        lemma_bwt_right_along(t, k, sa, b, d, o, c, own, under, start, edge, i + 1);
        let s = fold_down(final_bwt_scan_right_to_left_8u_step(t), (sa, b, d), i + 1, edge).unwrap();
        let x = fold_down(prepare_bwt_right_step(t), (sa, o, c, 0usize), i + 1, edge).unwrap();
        let s2 = fold_down(final_bwt_scan_right_to_left_8u_step(t), (sa, b, d), i, edge).unwrap();
        let x2 = fold_down(prepare_bwt_right_step(t), (sa, o, c, 0usize), i, edge).unwrap();
        assert(direct(s, j) == Some(s2));
        assert(read(x, j) == Some(x2));
        assert(s.0[j] == sa[j] && x.0[j] == sa[j]);
        let p = s.0[j];
        let y = place_final_right_run(x.2, (under, own), 0, x.3 as int).unwrap();
        if p > 0 {
            let v = t[p - 1] as int;
            assert(x2.2[x.3 as int].symbol == v);
            lemma_place_final_right_alike(x.2, x2.2, (under, own), x.3 as int);
            assert(place_final_right_run(x2.2, (under, own), 0, x2.3 as int) == place_final_right_step(x2.2)(y, x.3 as int));
            let target = s.1[v] - 1;
            lemma_bwt_right_monotone(t, (sa, b, d), start, edge, i, v);
            lemma_bwt_right_monotone(t, (sa, b, d), start, edge, i + 1, v);
            assert(b[v] != fold_down(final_bwt_scan_right_to_left_8u_step(t), (sa, b, d), start, edge).unwrap().1[v]);
            assert(target < start);
            assert(y.1[v] == s.1[v]);
        }
    }
}

/// Scanning a block that is read before anything is written leaves the array and the counters of
/// the direct scan where every counter that the direct scan moves starts in front of the
/// block.
pub proof fn law_block_bwt_right(t: Seq<u8>, k: int, s: (Seq<i32>, Seq<i32>, Seq<Desk>), d: i32, start: int, size: int)
    requires
        0 <= start,
        0 < size,
        0 <= k,
        forall|q: int| 0 <= q < t.len() ==> #[trigger] t[q] < k,
        s.2.len() > 0,
        s.2[0].cache.len() <= usize::MAX,
        block_bwt_right(t, k, s, start, size) is Some,
        final_bwt_scan_right_to_left_8u_run(t, (s.0, s.1, d), start, size) is Some,
        forall|v: int| 0 <= v < k && #[trigger] s.1[v] != final_bwt_scan_right_to_left_8u_run(t, (s.0, s.1, d), start, size).unwrap().1[v]
            ==> s.1[v] <= start,
    ensures
        ({
            let x = block_bwt_right(t, k, s, start, size).unwrap();
            let y = final_bwt_scan_right_to_left_8u_run(t, (s.0, s.1, d), start, size).unwrap();
            &&& x.0 == y.0
            &&& x.1.len() == s.1.len()
            &&& x.2.len() == s.2.len()
            &&& x.2[0].cache.len() == s.2[0].cache.len()
            &&& forall|v: int| 0 <= v < s.1.len() ==> #[trigger] x.1[v] == y.1[v]
        }),
{
    let edge = start + size;
    let (sa, b) = (s.0, s.1);
    let o = cleared(s.2[0].buckets, 0, k);
    let c = s.2[0].cache;
    let x = fold_down(prepare_bwt_right_step(t), (sa, o, c, 0usize), start, edge).unwrap();
    let e = exchanged(b, x.1, 0, k, true).unwrap();
    let own = Seq::new(o.len(), |v: int| if v < k { b[v] } else { 0i32 });
    lemma_bwt_right_along(t, k, sa, b, d, o, c, own, sa, start, edge, start);
    lemma_bwt_right_along(t, k, sa, b, d, o, c, e.1, x.0, start, edge, start);
    let y = fold_down(final_bwt_scan_right_to_left_8u_step(t), (sa, b, d), start, edge).unwrap();
    let z = block_bwt_right(t, k, s, start, size).unwrap();
    assert forall|q: int| 0 <= q < sa.len() implies #[trigger] z.0[q] == y.0[q] by {
        if start <= q < edge {
            assert(y.0[q] == x.0[q]);
        }
    }
    assert(z.0 =~= y.0);
    assert forall|v: int| 0 <= v < b.len() implies #[trigger] z.1[v] == y.1[v] by {
        if v < k {
            assert(y.1[v] == b[v] - x.1[v]);
        }
    }
}

/// The counters of a scan that sorts downward only move one way.
proof fn lemma_final_right_monotone(t: Seq<u8>, s: PlaceState, lo: int, hi: int, mid: int, v: int)
    requires
        lo <= mid <= hi,
        fold_down(final_sorting_scan_right_to_left_8u_step(t), s, lo, hi) is Some,
        0 <= v < s.1.len(),
    ensures
        fold_down(final_sorting_scan_right_to_left_8u_step(t), s, mid, hi) is Some,
        fold_down(final_sorting_scan_right_to_left_8u_step(t), s, mid, hi).unwrap().1.len() == s.1.len(),
        fold_down(final_sorting_scan_right_to_left_8u_step(t), s, lo, hi).unwrap().1.len() == s.1.len(),
        fold_down(final_sorting_scan_right_to_left_8u_step(t), s, lo, hi).unwrap().0.len() == s.0.len(),
        fold_down(final_sorting_scan_right_to_left_8u_step(t), s, lo, hi).unwrap().1[v] <= fold_down(final_sorting_scan_right_to_left_8u_step(t), s, mid, hi).unwrap().1[v],
        fold_down(final_sorting_scan_right_to_left_8u_step(t), s, mid, hi).unwrap().1[v] <= s.1[v],
    decreases hi - lo,
{
    if lo < hi {
        lemma_fold_down_prefix(final_sorting_scan_right_to_left_8u_step(t), s, lo, lo + 1, hi);
        lemma_final_right_monotone(t, s, lo + 1, hi, if mid > lo { mid } else { lo + 1 }, v);
    }
}

/// Reading a block into a cache and writing from it goes along with the direct scan.
#[verifier::spinoff_prover]
#[verifier::rlimit(40)]
proof fn lemma_final_right_along(t: Seq<u8>, k: int, sa: Seq<i32>, b: Seq<i32>, o: Seq<i32>, c: Seq<ThreadCache>, own: Seq<i32>, under: Seq<i32>, start: int, edge: int, i: int)
    requires
        0 <= start <= i <= edge,
        0 <= k <= b.len(),
        k <= o.len(),
        own.len() == o.len(),
        c.len() <= usize::MAX,
        forall|q: int| 0 <= q < t.len() ==> #[trigger] t[q] < k,
        forall|v: int| 0 <= v < k ==> #[trigger] o[v] == 0,
        forall|v: int| 0 <= v < k ==> #[trigger] own[v] == b[v],
        under.len() == sa.len(),
        forall|q: int| 0 <= q < sa.len() && !(start <= q < edge) ==> #[trigger] under[q] == sa[q],
        fold_down(final_sorting_scan_right_to_left_8u_step(t), (sa, b), start, edge) is Some,
        fold_down(prepare_final_right_step(t), (sa, o, c, 0usize), i, edge) is Some,
        forall|v: int| 0 <= v < k && #[trigger] b[v]
            != fold_down(final_sorting_scan_right_to_left_8u_step(t), (sa, b), start, edge).unwrap().1[v] ==> b[v] <= start,
    ensures
        ({
            let s = fold_down(final_sorting_scan_right_to_left_8u_step(t), (sa, b), i, edge).unwrap();
            let x = fold_down(prepare_final_right_step(t), (sa, o, c, 0usize), i, edge).unwrap();
            let y = place_final_right_run(x.2, (under, own), 0, x.3 as int);
            &&& fold_down(final_sorting_scan_right_to_left_8u_step(t), (sa, b), i, edge) is Some
            &&& s.0.len() == sa.len()
            &&& s.1.len() == b.len()
            &&& x.0.len() == sa.len()
            &&& x.1.len() == o.len()
            &&& x.2.len() == c.len()
            &&& 0 <= x.3 <= c.len()
            &&& y is Some
            &&& y.unwrap().0.len() == sa.len()
            &&& y.unwrap().1.len() == own.len()
            &&& forall|v: int| 0 <= v < k ==> #[trigger] s.1[v] == b[v] - x.1[v]
            &&& forall|v: int| 0 <= v < k ==> #[trigger] y.unwrap().1[v] == s.1[v]
            &&& forall|v: int| k <= v < b.len() ==> #[trigger] s.1[v] == b[v]
            &&& forall|v: int| k <= v < o.len() ==> #[trigger] x.1[v] == o[v]
            &&& forall|q: int| 0 <= q < sa.len() && !(start <= q < edge) ==> #[trigger] y.unwrap().0[q] == s.0[q]
            &&& forall|q: int| start <= q < edge && q < sa.len() ==> #[trigger] y.unwrap().0[q] == under[q]
            &&& forall|q: int| i <= q < edge && q < sa.len() ==> #[trigger] s.0[q] == x.0[q]
            &&& forall|q: int| start <= q < i && q < sa.len() ==> #[trigger] s.0[q] == sa[q]
            &&& forall|q: int| 0 <= q < sa.len() && !(i <= q < edge) ==> #[trigger] x.0[q] == sa[q]
        }),
    decreases edge - i,
{
    let direct = final_sorting_scan_right_to_left_8u_step(t);
    let read = prepare_final_right_step(t);
    lemma_fold_down_prefix(direct, (sa, b), start, i, edge);
    if i != edge {
        let j = i;
        lemma_fold_down_prefix(direct, (sa, b), start, i + 1, edge);
        lemma_fold_down_prefix(read, (sa, o, c, 0usize), i, i + 1, edge);
        lemma_final_right_along(t, k, sa, b, o, c, own, under, start, edge, i + 1);
        let s = fold_down(final_sorting_scan_right_to_left_8u_step(t), (sa, b), i + 1, edge).unwrap();
        let x = fold_down(prepare_final_right_step(t), (sa, o, c, 0usize), i + 1, edge).unwrap();
        let s2 = fold_down(final_sorting_scan_right_to_left_8u_step(t), (sa, b), i, edge).unwrap();
        let x2 = fold_down(prepare_final_right_step(t), (sa, o, c, 0usize), i, edge).unwrap();
        assert(direct(s, j) == Some(s2));
        assert(read(x, j) == Some(x2));
        assert(s.0[j] == sa[j] && x.0[j] == sa[j]);
        let p = s.0[j];
        let y = place_final_right_run(x.2, (under, own), 0, x.3 as int).unwrap();
        if p > 0 {
            let v = t[p - 1] as int;
            assert(x2.2[x.3 as int].symbol == v);
            lemma_place_final_right_alike(x.2, x2.2, (under, own), x.3 as int);
            assert(place_final_right_run(x2.2, (under, own), 0, x2.3 as int) == place_final_right_step(x2.2)(y, x.3 as int));
            let target = s.1[v] - 1;
            lemma_final_right_monotone(t, (sa, b), start, edge, i, v);
            lemma_final_right_monotone(t, (sa, b), start, edge, i + 1, v);
            assert(b[v] != fold_down(final_sorting_scan_right_to_left_8u_step(t), (sa, b), start, edge).unwrap().1[v]);
            assert(target < start);
            assert(y.1[v] == s.1[v]);
        }
    }
}

/// Scanning a block that is read before anything is written leaves the array and the counters of
/// the direct scan where every counter that the direct scan moves starts in front of the
/// block.
pub proof fn law_block_final_right(t: Seq<u8>, k: int, s: (Seq<i32>, Seq<i32>, Seq<Desk>), start: int, size: int)
    requires
        0 <= start,
        0 < size,
        0 <= k,
        forall|q: int| 0 <= q < t.len() ==> #[trigger] t[q] < k,
        s.2.len() > 0,
        s.2[0].cache.len() <= usize::MAX,
        block_final_right(t, k, s, start, size) is Some,
        final_sorting_scan_right_to_left_8u_run(t, (s.0, s.1), start, size) is Some,
        forall|v: int| 0 <= v < k && #[trigger] s.1[v] != final_sorting_scan_right_to_left_8u_run(t, (s.0, s.1), start, size).unwrap().1[v]
            ==> s.1[v] <= start,
    ensures
        ({
            let x = block_final_right(t, k, s, start, size).unwrap();
            let y = final_sorting_scan_right_to_left_8u_run(t, (s.0, s.1), start, size).unwrap();
            &&& x.0 == y.0
            &&& x.1.len() == s.1.len()
            &&& x.2.len() == s.2.len()
            &&& x.2[0].cache.len() == s.2[0].cache.len()
            &&& forall|v: int| 0 <= v < s.1.len() ==> #[trigger] x.1[v] == y.1[v]
        }),
{
    let edge = start + size;
    let (sa, b) = (s.0, s.1);
    let o = cleared(s.2[0].buckets, 0, k);
    let c = s.2[0].cache;
    let x = fold_down(prepare_final_right_step(t), (sa, o, c, 0usize), start, edge).unwrap();
    let e = exchanged(b, x.1, 0, k, true).unwrap();
    let own = Seq::new(o.len(), |v: int| if v < k { b[v] } else { 0i32 });
    lemma_final_right_along(t, k, sa, b, o, c, own, sa, start, edge, start);
    lemma_final_right_along(t, k, sa, b, o, c, e.1, x.0, start, edge, start);
    let y = fold_down(final_sorting_scan_right_to_left_8u_step(t), (sa, b), start, edge).unwrap();
    let z = block_final_right(t, k, s, start, size).unwrap();
    assert forall|q: int| 0 <= q < sa.len() implies #[trigger] z.0[q] == y.0[q] by {
        if start <= q < edge {
            assert(y.0[q] == x.0[q]);
        }
    }
    assert(z.0 =~= y.0);
    assert forall|v: int| 0 <= v < b.len() implies #[trigger] z.1[v] == y.1[v] by {
        if v < k {
            assert(y.1[v] == b[v] - x.1[v]);
        }
    }
}

/// The counters of a scan that sorts separated texts downward only move one way.
proof fn lemma_final_gsa_monotone(t: Seq<u8>, s: PlaceState, lo: int, hi: int, mid: int, v: int)
    requires
        lo <= mid <= hi,
        fold_down(final_gsa_scan_right_to_left_8u_step(t), s, lo, hi) is Some,
        0 <= v < s.1.len(),
    ensures
        fold_down(final_gsa_scan_right_to_left_8u_step(t), s, mid, hi) is Some,
        fold_down(final_gsa_scan_right_to_left_8u_step(t), s, mid, hi).unwrap().1.len() == s.1.len(),
        fold_down(final_gsa_scan_right_to_left_8u_step(t), s, lo, hi).unwrap().1.len() == s.1.len(),
        fold_down(final_gsa_scan_right_to_left_8u_step(t), s, lo, hi).unwrap().0.len() == s.0.len(),
        fold_down(final_gsa_scan_right_to_left_8u_step(t), s, lo, hi).unwrap().1[v] <= fold_down(final_gsa_scan_right_to_left_8u_step(t), s, mid, hi).unwrap().1[v],
        fold_down(final_gsa_scan_right_to_left_8u_step(t), s, mid, hi).unwrap().1[v] <= s.1[v],
    decreases hi - lo,
{
    if lo < hi {
        lemma_fold_down_prefix(final_gsa_scan_right_to_left_8u_step(t), s, lo, lo + 1, hi);
        lemma_final_gsa_monotone(t, s, lo + 1, hi, if mid > lo { mid } else { lo + 1 }, v);
    }
}

/// Reading a block into a cache and writing from it goes along with the direct scan.
#[verifier::spinoff_prover]
#[verifier::rlimit(40)]
proof fn lemma_final_gsa_along(t: Seq<u8>, k: int, sa: Seq<i32>, b: Seq<i32>, o: Seq<i32>, c: Seq<ThreadCache>, own: Seq<i32>, under: Seq<i32>, start: int, edge: int, i: int)
    requires
        0 <= start <= i <= edge,
        0 <= k <= b.len(),
        k <= o.len(),
        own.len() == o.len(),
        c.len() <= usize::MAX,
        forall|q: int| 0 <= q < t.len() ==> #[trigger] t[q] < k,
        forall|v: int| 0 <= v < k ==> #[trigger] o[v] == 0,
        forall|v: int| 0 <= v < k ==> #[trigger] own[v] == b[v],
        under.len() == sa.len(),
        forall|q: int| 0 <= q < sa.len() && !(start <= q < edge) ==> #[trigger] under[q] == sa[q],
        fold_down(final_gsa_scan_right_to_left_8u_step(t), (sa, b), start, edge) is Some,
        fold_down(prepare_final_right_step(t), (sa, o, c, 0usize), i, edge) is Some,
        forall|v: int| 1 <= v < k && #[trigger] b[v]
            != fold_down(final_gsa_scan_right_to_left_8u_step(t), (sa, b), start, edge).unwrap().1[v] ==> b[v] <= start,
    ensures
        ({
            let s = fold_down(final_gsa_scan_right_to_left_8u_step(t), (sa, b), i, edge).unwrap();
            let x = fold_down(prepare_final_right_step(t), (sa, o, c, 0usize), i, edge).unwrap();
            let y = place_final_gsa_run(x.2, (under, own), 0, x.3 as int);
            &&& fold_down(final_gsa_scan_right_to_left_8u_step(t), (sa, b), i, edge) is Some
            &&& s.0.len() == sa.len()
            &&& s.1.len() == b.len()
            &&& x.0.len() == sa.len()
            &&& x.1.len() == o.len()
            &&& x.2.len() == c.len()
            &&& 0 <= x.3 <= c.len()
            &&& y is Some
            &&& y.unwrap().0.len() == sa.len()
            &&& y.unwrap().1.len() == own.len()
            &&& forall|v: int| 1 <= v < k ==> #[trigger] s.1[v] == b[v] - x.1[v]
            &&& forall|v: int| 1 <= v < k ==> #[trigger] y.unwrap().1[v] == s.1[v]
            &&& forall|v: int| (v == 0 || k <= v < b.len()) && v < b.len() ==> #[trigger] s.1[v] == b[v]
            &&& forall|v: int| k <= v < o.len() ==> #[trigger] x.1[v] == o[v]
            &&& forall|q: int| 0 <= q < sa.len() && !(start <= q < edge) ==> #[trigger] y.unwrap().0[q] == s.0[q]
            &&& forall|q: int| start <= q < edge && q < sa.len() ==> #[trigger] y.unwrap().0[q] == under[q]
            &&& forall|q: int| i <= q < edge && q < sa.len() ==> #[trigger] s.0[q] == x.0[q]
            &&& forall|q: int| start <= q < i && q < sa.len() ==> #[trigger] s.0[q] == sa[q]
            &&& forall|q: int| 0 <= q < sa.len() && !(i <= q < edge) ==> #[trigger] x.0[q] == sa[q]
        }),
    decreases edge - i,
{
    let direct = final_gsa_scan_right_to_left_8u_step(t);
    let read = prepare_final_right_step(t);
    lemma_fold_down_prefix(direct, (sa, b), start, i, edge);
    if i != edge {
        let j = i;
        lemma_fold_down_prefix(direct, (sa, b), start, i + 1, edge);
        lemma_fold_down_prefix(read, (sa, o, c, 0usize), i, i + 1, edge);
        lemma_final_gsa_along(t, k, sa, b, o, c, own, under, start, edge, i + 1);
        let s = fold_down(final_gsa_scan_right_to_left_8u_step(t), (sa, b), i + 1, edge).unwrap();
        let x = fold_down(prepare_final_right_step(t), (sa, o, c, 0usize), i + 1, edge).unwrap();
        let s2 = fold_down(final_gsa_scan_right_to_left_8u_step(t), (sa, b), i, edge).unwrap();
        let x2 = fold_down(prepare_final_right_step(t), (sa, o, c, 0usize), i, edge).unwrap();
        assert(direct(s, j) == Some(s2));
        assert(read(x, j) == Some(x2));
        assert(s.0[j] == sa[j] && x.0[j] == sa[j]);
        let p = s.0[j];
        let y = place_final_gsa_run(x.2, (under, own), 0, x.3 as int).unwrap();
        if p > 0 {
            let v = t[p - 1] as int;
            assert(x2.2[x.3 as int].symbol == v);
            lemma_place_final_gsa_alike(x.2, x2.2, (under, own), x.3 as int);
            assert(place_final_gsa_run(x2.2, (under, own), 0, x2.3 as int) == place_final_gsa_step(x2.2)(y, x.3 as int));
            if v != 0 {
                let target = s.1[v] - 1;
                lemma_final_gsa_monotone(t, (sa, b), start, edge, i, v);
                lemma_final_gsa_monotone(t, (sa, b), start, edge, i + 1, v);
                assert(b[v] != fold_down(final_gsa_scan_right_to_left_8u_step(t), (sa, b), start, edge).unwrap().1[v]);
                assert(target < start);
                assert(y.1[v] == s.1[v]);
            }
        }
    }
}

/// Scanning a block that is read before anything is written leaves the array and the counters of
/// the direct scan, that of the separator apart, where every counter that the direct scan moves starts in front of the
/// block.
pub proof fn law_block_final_gsa(t: Seq<u8>, k: int, s: (Seq<i32>, Seq<i32>, Seq<Desk>), start: int, size: int)
    requires
        0 <= start,
        0 < size,
        0 <= k,
        forall|q: int| 0 <= q < t.len() ==> #[trigger] t[q] < k,
        s.2.len() > 0,
        s.2[0].cache.len() <= usize::MAX,
        block_final_gsa(t, k, s, start, size) is Some,
        final_gsa_scan_right_to_left_8u_run(t, (s.0, s.1), start, size) is Some,
        forall|v: int| 1 <= v < k && #[trigger] s.1[v] != final_gsa_scan_right_to_left_8u_run(t, (s.0, s.1), start, size).unwrap().1[v]
            ==> s.1[v] <= start,
    ensures
        ({
            let x = block_final_gsa(t, k, s, start, size).unwrap();
            let y = final_gsa_scan_right_to_left_8u_run(t, (s.0, s.1), start, size).unwrap();
            &&& x.0 == y.0
            &&& x.1.len() == s.1.len()
            &&& x.2.len() == s.2.len()
            &&& x.2[0].cache.len() == s.2[0].cache.len()
            &&& forall|v: int| 0 < v < s.1.len() ==> #[trigger] x.1[v] == y.1[v]
        }),
{
    let edge = start + size;
    let (sa, b) = (s.0, s.1);
    let o = cleared(s.2[0].buckets, 0, k);
    let c = s.2[0].cache;
    let x = fold_down(prepare_final_right_step(t), (sa, o, c, 0usize), start, edge).unwrap();
    let e = exchanged(b, x.1, 0, k, true).unwrap();
    let own = Seq::new(o.len(), |v: int| if v < k { b[v] } else { 0i32 });
    lemma_final_gsa_along(t, k, sa, b, o, c, own, sa, start, edge, start);
    lemma_final_gsa_along(t, k, sa, b, o, c, e.1, x.0, start, edge, start);
    let y = fold_down(final_gsa_scan_right_to_left_8u_step(t), (sa, b), start, edge).unwrap();
    let z = block_final_gsa(t, k, s, start, size).unwrap();
    assert forall|q: int| 0 <= q < sa.len() implies #[trigger] z.0[q] == y.0[q] by {
        if start <= q < edge {
            assert(y.0[q] == x.0[q]);
        }
    }
    assert(z.0 =~= y.0);
    assert forall|v: int| 0 < v < b.len() implies #[trigger] z.1[v] == y.1[v] by {
        if v < k {
            assert(y.1[v] == b[v] - x.1[v]);
        }
    }
}

/// A sampling mask does not select by the mark.
proof fn lemma_mask_ignores_mark(q: i32, rm: i32)
    requires
        0 <= q,
        0 <= rm,
    ensures
        marked(q, true) & rm == q & rm,
        unmarked(marked(q, true)) == q,
{
    assert((q | (-0x8000_0000i32)) == (if q >= 0 { q - 0x8000_0000 } else { q as int })) by (bit_vector);
    assert((q | (-0x8000_0000i32)) & rm == q & rm) by (bit_vector)
        requires
            0 <= rm,
    ;
    assert(marked(q, true) == q | (-0x8000_0000i32));
}

/// Writing from a cache reads only the entries that it writes.
proof fn lemma_place_aux_left_alike(rm: i32, c: Seq<ThreadCache>, e: Seq<ThreadCache>, s: (Seq<i32>, Seq<i32>, Seq<i32>), n: int)
    requires
        0 <= n,
        n <= c.len(),
        c.len() == e.len(),
        forall|x: int| 0 <= x < n ==> #[trigger] c[x] == e[x],
    ensures
        place_aux_left_run(rm, c, s, 0, n) == place_aux_left_run(rm, e, s, 0, n),
    decreases n,
{
    if n > 0 {
        lemma_place_aux_left_alike(rm, c, e, s, n - 1);
        assert(c[n - 1] == e[n - 1]);
    }
}

/// Writing from a cache reads only the entries that it writes.
proof fn lemma_place_aux_right_alike(rm: i32, c: Seq<ThreadCache>, e: Seq<ThreadCache>, s: (Seq<i32>, Seq<i32>, Seq<i32>), n: int)
    requires
        0 <= n,
        2 * n <= c.len(),
        c.len() == e.len(),
        forall|x: int| 0 <= x < 2 * n ==> #[trigger] c[x] == e[x],
    ensures
        place_aux_right_run(rm, c, s, 0, n) == place_aux_right_run(rm, e, s, 0, n),
    decreases n,
{
    if n > 0 {
        lemma_place_aux_right_alike(rm, c, e, s, n - 1);
        assert(c[2 * (n - 1)] == e[2 * (n - 1)] && c[2 * (n - 1) + 1] == e[2 * (n - 1) + 1]);
    }
}

/// The counters of a scan that transforms and samples upward only move one way.
proof fn lemma_bwt_aux_left_monotone(t: Seq<u8>, rm: i32, s: (Seq<i32>, Seq<i32>, Seq<i32>), lo: int, hi: int, mid: int, v: int)
    requires
        lo <= mid <= hi,
        fold_up(final_bwt_aux_scan_left_to_right_8u_slot_step(t, rm), s, lo, hi) is Some,
        0 <= v < s.1.len(),
    ensures
        fold_up(final_bwt_aux_scan_left_to_right_8u_slot_step(t, rm), s, lo, mid) is Some,
        fold_up(final_bwt_aux_scan_left_to_right_8u_slot_step(t, rm), s, lo, mid).unwrap().1.len() == s.1.len(),
        fold_up(final_bwt_aux_scan_left_to_right_8u_slot_step(t, rm), s, lo, hi).unwrap().1.len() == s.1.len(),
        fold_up(final_bwt_aux_scan_left_to_right_8u_slot_step(t, rm), s, lo, hi).unwrap().0.len() == s.0.len(),
        fold_up(final_bwt_aux_scan_left_to_right_8u_slot_step(t, rm), s, lo, hi).unwrap().1[v] >= fold_up(final_bwt_aux_scan_left_to_right_8u_slot_step(t, rm), s, lo, mid).unwrap().1[v],
        fold_up(final_bwt_aux_scan_left_to_right_8u_slot_step(t, rm), s, lo, mid).unwrap().1[v] >= s.1[v],
    decreases hi - lo,
{
    if lo < hi {
        lemma_fold_up_prefix(final_bwt_aux_scan_left_to_right_8u_slot_step(t, rm), s, lo, hi - 1, hi);
        lemma_bwt_aux_left_monotone(t, rm, s, lo, hi - 1, if mid < hi { mid } else { hi - 1 }, v);
    }
}

/// Reading a block into a cache and writing from it goes along with the direct scan.
#[verifier::spinoff_prover]
#[verifier::rlimit(40)]
proof fn lemma_bwt_aux_left_along(t: Seq<u8>, rm: i32, k: int, sa: Seq<i32>, b: Seq<i32>, io: Seq<i32>, o: Seq<i32>, c: Seq<ThreadCache>, own: Seq<i32>, under: Seq<i32>, start: int, edge: int, i: int)
    requires
        0 <= start <= i <= edge,
        0 <= rm,
        0 <= k <= b.len(),
        k <= o.len(),
        own.len() == o.len(),
        c.len() <= usize::MAX,
        forall|q: int| 0 <= q < t.len() ==> #[trigger] t[q] < k,
        forall|v: int| 0 <= v < k ==> #[trigger] o[v] == 0,
        forall|v: int| 0 <= v < k ==> #[trigger] own[v] == b[v],
        under.len() == sa.len(),
        forall|q: int| 0 <= q < sa.len() && !(start <= q < edge) ==> #[trigger] under[q] == sa[q],
        fold_up(final_bwt_aux_scan_left_to_right_8u_slot_step(t, rm), (sa, b, io), start, edge) is Some,
        fold_up(prepare_bwt_left_step(t), (sa, o, c, 0usize), start, i) is Some,
        forall|v: int| 0 <= v < k && #[trigger] b[v]
            != fold_up(final_bwt_aux_scan_left_to_right_8u_slot_step(t, rm), (sa, b, io), start, edge).unwrap().1[v]
            ==> b[v] >= edge,
    ensures
        ({
            let s = fold_up(final_bwt_aux_scan_left_to_right_8u_slot_step(t, rm), (sa, b, io), start, i).unwrap();
            let x = fold_up(prepare_bwt_left_step(t), (sa, o, c, 0usize), start, i).unwrap();
            let y = place_aux_left_run(rm, x.2, (under, own, io), 0, x.3 as int);
            &&& fold_up(final_bwt_aux_scan_left_to_right_8u_slot_step(t, rm), (sa, b, io), start, i) is Some
            &&& s.0.len() == sa.len()
            &&& s.1.len() == b.len()
            &&& x.0.len() == sa.len()
            &&& x.1.len() == o.len()
            &&& x.2.len() == c.len()
            &&& 0 <= x.3 <= c.len()
            &&& y is Some
            &&& y.unwrap().2 == s.2
            &&& y.unwrap().0.len() == sa.len()
            &&& y.unwrap().1.len() == own.len()
            &&& forall|v: int| 0 <= v < k ==> #[trigger] s.1[v] == b[v] + x.1[v]
            &&& forall|v: int| 0 <= v < k ==> #[trigger] y.unwrap().1[v] == s.1[v]
            &&& forall|v: int| k <= v < b.len() ==> #[trigger] s.1[v] == b[v]
            &&& forall|v: int| k <= v < o.len() ==> #[trigger] x.1[v] == o[v]
            &&& forall|q: int| 0 <= q < sa.len() && !(start <= q < edge) ==> #[trigger] y.unwrap().0[q] == s.0[q]
            &&& forall|q: int| start <= q < edge && q < sa.len() ==> #[trigger] y.unwrap().0[q] == under[q]
            &&& forall|q: int| start <= q < i && q < sa.len() ==> #[trigger] s.0[q] == x.0[q]
            &&& forall|q: int| i <= q < edge && q < sa.len() ==> #[trigger] s.0[q] == sa[q]
            &&& forall|q: int| 0 <= q < sa.len() && !(start <= q < i) ==> #[trigger] x.0[q] == sa[q]
        }),
    decreases i - start,
{
    let direct = final_bwt_aux_scan_left_to_right_8u_slot_step(t, rm);
    let read = prepare_bwt_left_step(t);
    lemma_fold_up_prefix(direct, (sa, b, io), start, i, edge);
    if i != start {
        let j = i - 1;
        lemma_fold_up_prefix(direct, (sa, b, io), start, i - 1, edge);
        lemma_fold_up_prefix(read, (sa, o, c, 0usize), start, i - 1, i);
        lemma_bwt_aux_left_along(t, rm, k, sa, b, io, o, c, own, under, start, edge, i - 1);
        let s = fold_up(final_bwt_aux_scan_left_to_right_8u_slot_step(t, rm), (sa, b, io), start, i - 1).unwrap();
        let x = fold_up(prepare_bwt_left_step(t), (sa, o, c, 0usize), start, i - 1).unwrap();
        let s2 = fold_up(final_bwt_aux_scan_left_to_right_8u_slot_step(t, rm), (sa, b, io), start, i).unwrap();
        let x2 = fold_up(prepare_bwt_left_step(t), (sa, o, c, 0usize), start, i).unwrap();
        assert(direct(s, j) == Some(s2));
        assert(read(x, j) == Some(x2));
        assert(s.0[j] == sa[j] && x.0[j] == sa[j]);
        let p = s.0[j];
        let y = place_aux_left_run(rm, x.2, (under, own, io), 0, x.3 as int).unwrap();
        if p > 0 {
            let v = t[p - 1] as int;
            assert(x2.2[x.3 as int].symbol == v);
            lemma_mask_ignores_mark((p - 1) as i32, rm);
            lemma_place_aux_left_alike(rm, x.2, x2.2, (under, own, io), x.3 as int);
            assert(place_aux_left_run(rm, x2.2, (under, own, io), 0, x2.3 as int) == place_aux_left_step(rm, x2.2)(y, x.3 as int));
            let target = s.1[v] as int;
            lemma_bwt_aux_left_monotone(t, rm, (sa, b, io), start, edge, i, v);
            lemma_bwt_aux_left_monotone(t, rm, (sa, b, io), start, edge, i - 1, v);
            assert(b[v] != fold_up(final_bwt_aux_scan_left_to_right_8u_slot_step(t, rm), (sa, b, io), start, edge).unwrap().1[v]);
            assert(target >= edge);
            assert(y.1[v] == s.1[v]);
        }
    }
}

/// Scanning a block that is read before anything is written leaves the array, the counters and
/// the samples of the direct scan where every counter that the direct scan moves starts behind the
/// block.
pub proof fn law_block_bwt_aux_left(t: Seq<u8>, rm: i32, k: int, s: (Seq<i32>, Seq<i32>, Seq<i32>, Seq<Desk>), start: int, size: int)
    requires
        0 <= start,
        0 < size,
        0 <= k,
        forall|q: int| 0 <= q < t.len() ==> #[trigger] t[q] < k,
        0 <= rm,
        s.3.len() > 0,
        s.3[0].cache.len() <= isize::MAX,
        block_bwt_aux_left(t, rm, k, s, start, size) is Some,
        final_bwt_aux_scan_left_to_right_8u_run(t, rm, (s.0, s.1, s.2), start, size) is Some,
        forall|v: int| 0 <= v < k && #[trigger] s.1[v]
            != final_bwt_aux_scan_left_to_right_8u_run(t, rm, (s.0, s.1, s.2), start, size).unwrap().1[v]
            ==> s.1[v] >= start + size,
    ensures
        ({
            let x = block_bwt_aux_left(t, rm, k, s, start, size).unwrap();
            let y = final_bwt_aux_scan_left_to_right_8u_run(t, rm, (s.0, s.1, s.2), start, size).unwrap();
            &&& x.0 == y.0
            &&& x.2 == y.2
            &&& x.1.len() == s.1.len()
            &&& x.3.len() == s.3.len()
            &&& x.3[0].cache.len() == s.3[0].cache.len()
            &&& forall|v: int| 0 <= v < s.1.len() ==> #[trigger] x.1[v] == y.1[v]
        }),
{
    let edge = start + size;
    let (sa, b, io) = (s.0, s.1, s.2);
    let o = cleared(s.3[0].buckets, 0, k);
    let c = s.3[0].cache;
    let x = fold_up(prepare_bwt_left_step(t), (sa, o, c, 0usize), start, edge).unwrap();
    let e = exchanged(b, x.1, 0, k, false).unwrap();
    let own = Seq::new(o.len(), |v: int| if v < k { b[v] } else { 0i32 });
    lemma_bwt_aux_left_along(t, rm, k, sa, b, io, o, c, own, sa, start, edge, edge);
    lemma_bwt_aux_left_along(t, rm, k, sa, b, io, o, c, e.1, x.0, start, edge, edge);
    let y = fold_up(final_bwt_aux_scan_left_to_right_8u_slot_step(t, rm), (sa, b, io), start, edge).unwrap();
    let z = block_bwt_aux_left(t, rm, k, s, start, size).unwrap();
    assert forall|q: int| 0 <= q < sa.len() implies #[trigger] z.0[q] == y.0[q] by {
        if start <= q < edge {
            assert(y.0[q] == x.0[q]);
        }
    }
    assert(z.0 =~= y.0);
    assert forall|v: int| 0 <= v < b.len() implies #[trigger] z.1[v] == y.1[v] by {
        if v < k {
            assert(y.1[v] == b[v] + x.1[v]);
        }
    }
}

/// The counters of a scan that transforms and samples downward only move one way.
proof fn lemma_bwt_aux_right_monotone(t: Seq<u8>, rm: i32, s: (Seq<i32>, Seq<i32>, Seq<i32>), lo: int, hi: int, mid: int, v: int)
    requires
        lo <= mid <= hi,
        fold_down(final_bwt_aux_scan_right_to_left_8u_slot_step(t, rm), s, lo, hi) is Some,
        0 <= v < s.1.len(),
    ensures
        fold_down(final_bwt_aux_scan_right_to_left_8u_slot_step(t, rm), s, mid, hi) is Some,
        fold_down(final_bwt_aux_scan_right_to_left_8u_slot_step(t, rm), s, mid, hi).unwrap().1.len() == s.1.len(),
        fold_down(final_bwt_aux_scan_right_to_left_8u_slot_step(t, rm), s, lo, hi).unwrap().1.len() == s.1.len(),
        fold_down(final_bwt_aux_scan_right_to_left_8u_slot_step(t, rm), s, lo, hi).unwrap().0.len() == s.0.len(),
        fold_down(final_bwt_aux_scan_right_to_left_8u_slot_step(t, rm), s, lo, hi).unwrap().1[v] <= fold_down(final_bwt_aux_scan_right_to_left_8u_slot_step(t, rm), s, mid, hi).unwrap().1[v],
        fold_down(final_bwt_aux_scan_right_to_left_8u_slot_step(t, rm), s, mid, hi).unwrap().1[v] <= s.1[v],
    decreases hi - lo,
{
    if lo < hi {
        lemma_fold_down_prefix(final_bwt_aux_scan_right_to_left_8u_slot_step(t, rm), s, lo, lo + 1, hi);
        lemma_bwt_aux_right_monotone(t, rm, s, lo + 1, hi, if mid > lo { mid } else { lo + 1 }, v);
    }
}

/// Reading a block into a cache and writing from it goes along with the direct scan.
#[verifier::spinoff_prover]
#[verifier::rlimit(40)]
proof fn lemma_bwt_aux_right_along(t: Seq<u8>, rm: i32, k: int, sa: Seq<i32>, b: Seq<i32>, io: Seq<i32>, o: Seq<i32>, c: Seq<ThreadCache>, own: Seq<i32>, under: Seq<i32>, start: int, edge: int, i: int)
    requires
        0 <= start <= i <= edge,
        0 <= rm,
        0 <= k <= b.len(),
        k <= o.len(),
        own.len() == o.len(),
        c.len() <= usize::MAX,
        forall|q: int| 0 <= q < t.len() ==> #[trigger] t[q] < k,
        forall|v: int| 0 <= v < k ==> #[trigger] o[v] == 0,
        forall|v: int| 0 <= v < k ==> #[trigger] own[v] == b[v],
        under.len() == sa.len(),
        forall|q: int| 0 <= q < sa.len() && !(start <= q < edge) ==> #[trigger] under[q] == sa[q],
        fold_down(final_bwt_aux_scan_right_to_left_8u_slot_step(t, rm), (sa, b, io), start, edge) is Some,
        fold_down(prepare_bwt_aux_right_step(t), (sa, o, c, 0usize), i, edge) is Some,
        forall|v: int| 0 <= v < k && #[trigger] b[v]
            != fold_down(final_bwt_aux_scan_right_to_left_8u_slot_step(t, rm), (sa, b, io), start, edge).unwrap().1[v]
            ==> b[v] <= start,
    ensures
        ({
            let s = fold_down(final_bwt_aux_scan_right_to_left_8u_slot_step(t, rm), (sa, b, io), i, edge).unwrap();
            let x = fold_down(prepare_bwt_aux_right_step(t), (sa, o, c, 0usize), i, edge).unwrap();
            let y = place_aux_right_run(rm, x.2, (under, own, io), 0, x.3 as int / 2);
            &&& fold_down(final_bwt_aux_scan_right_to_left_8u_slot_step(t, rm), (sa, b, io), i, edge) is Some
            &&& s.0.len() == sa.len()
            &&& s.1.len() == b.len()
            &&& x.0.len() == sa.len()
            &&& x.1.len() == o.len()
            &&& x.2.len() == c.len()
            &&& 0 <= x.3 <= c.len()
            &&& y is Some
            &&& y.unwrap().2 == s.2
            &&& x.3 % 2 == 0
            &&& y.unwrap().0.len() == sa.len()
            &&& y.unwrap().1.len() == own.len()
            &&& forall|v: int| 0 <= v < k ==> #[trigger] s.1[v] == b[v] - x.1[v]
            &&& forall|v: int| 0 <= v < k ==> #[trigger] y.unwrap().1[v] == s.1[v]
            &&& forall|v: int| k <= v < b.len() ==> #[trigger] s.1[v] == b[v]
            &&& forall|v: int| k <= v < o.len() ==> #[trigger] x.1[v] == o[v]
            &&& forall|q: int| 0 <= q < sa.len() && !(start <= q < edge) ==> #[trigger] y.unwrap().0[q] == s.0[q]
            &&& forall|q: int| start <= q < edge && q < sa.len() ==> #[trigger] y.unwrap().0[q] == under[q]
            &&& forall|q: int| i <= q < edge && q < sa.len() ==> #[trigger] s.0[q] == x.0[q]
            &&& forall|q: int| start <= q < i && q < sa.len() ==> #[trigger] s.0[q] == sa[q]
            &&& forall|q: int| 0 <= q < sa.len() && !(i <= q < edge) ==> #[trigger] x.0[q] == sa[q]
        }),
    decreases edge - i,
{
    let direct = final_bwt_aux_scan_right_to_left_8u_slot_step(t, rm);
    let read = prepare_bwt_aux_right_step(t);
    lemma_fold_down_prefix(direct, (sa, b, io), start, i, edge);
    if i != edge {
        let j = i;
        lemma_fold_down_prefix(direct, (sa, b, io), start, i + 1, edge);
        lemma_fold_down_prefix(read, (sa, o, c, 0usize), i, i + 1, edge);
        lemma_bwt_aux_right_along(t, rm, k, sa, b, io, o, c, own, under, start, edge, i + 1);
        let s = fold_down(final_bwt_aux_scan_right_to_left_8u_slot_step(t, rm), (sa, b, io), i + 1, edge).unwrap();
        let x = fold_down(prepare_bwt_aux_right_step(t), (sa, o, c, 0usize), i + 1, edge).unwrap();
        let s2 = fold_down(final_bwt_aux_scan_right_to_left_8u_slot_step(t, rm), (sa, b, io), i, edge).unwrap();
        let x2 = fold_down(prepare_bwt_aux_right_step(t), (sa, o, c, 0usize), i, edge).unwrap();
        assert(direct(s, j) == Some(s2));
        assert(read(x, j) == Some(x2));
        assert(s.0[j] == sa[j] && x.0[j] == sa[j]);
        let p = s.0[j];
        let y = place_aux_right_run(rm, x.2, (under, own, io), 0, x.3 as int / 2).unwrap();
        if p > 0 {
            let v = t[p - 1] as int;
            assert(x2.2[x.3 as int].symbol == v && x2.2[x.3 + 1].index == p - 1);
            let h = x.3 as int / 2;
            assert(2 * h == x.3 && x2.3 as int / 2 == h + 1);
            lemma_place_aux_right_alike(rm, x.2, x2.2, (under, own, io), x.3 as int / 2);
            assert(place_aux_right_run(rm, x2.2, (under, own, io), 0, x2.3 as int / 2)
                == place_aux_right_step(rm, x2.2)(y, x.3 as int / 2));
            let target = s.1[v] - 1;
            lemma_bwt_aux_right_monotone(t, rm, (sa, b, io), start, edge, i, v);
            lemma_bwt_aux_right_monotone(t, rm, (sa, b, io), start, edge, i + 1, v);
            assert(b[v] != fold_down(final_bwt_aux_scan_right_to_left_8u_slot_step(t, rm), (sa, b, io), start, edge).unwrap().1[v]);
            assert(target < start);
            assert(y.1[v] == s.1[v]);
        }
    }
}

/// Scanning a block that is read before anything is written leaves the array, the counters and
/// the samples of the direct scan where every counter that the direct scan moves starts in front of the
/// block.
pub proof fn law_block_bwt_aux_right(t: Seq<u8>, rm: i32, k: int, s: (Seq<i32>, Seq<i32>, Seq<i32>, Seq<Desk>), start: int, size: int)
    requires
        0 <= start,
        0 < size,
        0 <= k,
        forall|q: int| 0 <= q < t.len() ==> #[trigger] t[q] < k,
        0 <= rm,
        s.3.len() > 0,
        s.3[0].cache.len() <= isize::MAX,
        block_bwt_aux_right(t, rm, k, s, start, size) is Some,
        final_bwt_aux_scan_right_to_left_8u_run(t, rm, (s.0, s.1, s.2), start, size) is Some,
        forall|v: int| 0 <= v < k && #[trigger] s.1[v]
            != final_bwt_aux_scan_right_to_left_8u_run(t, rm, (s.0, s.1, s.2), start, size).unwrap().1[v]
            ==> s.1[v] <= start,
    ensures
        ({
            let x = block_bwt_aux_right(t, rm, k, s, start, size).unwrap();
            let y = final_bwt_aux_scan_right_to_left_8u_run(t, rm, (s.0, s.1, s.2), start, size).unwrap();
            &&& x.0 == y.0
            &&& x.2 == y.2
            &&& x.1.len() == s.1.len()
            &&& x.3.len() == s.3.len()
            &&& x.3[0].cache.len() == s.3[0].cache.len()
            &&& forall|v: int| 0 <= v < s.1.len() ==> #[trigger] x.1[v] == y.1[v]
        }),
{
    let edge = start + size;
    let (sa, b, io) = (s.0, s.1, s.2);
    let o = cleared(s.3[0].buckets, 0, k);
    let c = s.3[0].cache;
    let x = fold_down(prepare_bwt_aux_right_step(t), (sa, o, c, 0usize), start, edge).unwrap();
    let e = exchanged(b, x.1, 0, k, true).unwrap();
    let own = Seq::new(o.len(), |v: int| if v < k { b[v] } else { 0i32 });
    lemma_bwt_aux_right_along(t, rm, k, sa, b, io, o, c, own, sa, start, edge, start);
    lemma_bwt_aux_right_along(t, rm, k, sa, b, io, o, c, e.1, x.0, start, edge, start);
    let y = fold_down(final_bwt_aux_scan_right_to_left_8u_slot_step(t, rm), (sa, b, io), start, edge).unwrap();
    let z = block_bwt_aux_right(t, rm, k, s, start, size).unwrap();
    assert forall|q: int| 0 <= q < sa.len() implies #[trigger] z.0[q] == y.0[q] by {
        if start <= q < edge {
            assert(y.0[q] == x.0[q]);
        }
    }
    assert(z.0 =~= y.0);
    assert forall|v: int| 0 <= v < b.len() implies #[trigger] z.1[v] == y.1[v] by {
        if v < k {
            assert(y.1[v] == b[v] - x.1[v]);
        }
    }
}

} // verus!
