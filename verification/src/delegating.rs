//! Scanning a block of a byte text with any number of workers leaves what the direct scan leaves.

use vstd::prelude::*;
use crate::block_8u::{
    block_left, block_shared, block_workers, hand_on_step, place_gsa_run, place_gsa_step, place_left_run, place_left_step,
    place_right_run, place_right_step, prepare_left_step, prepare_right_step, prepared_left, prepared_right, read_step,
    write_step, Naming, NamingState,
};
use crate::blocks::{block_hi, block_lo, law_blocks_join};
use crate::desks::{exchanged, renamed, Desk};
use crate::fold::{fold_down, fold_up, lemma_fold_down_prefix, lemma_fold_up_prefix, lemma_fold_up_split};
use crate::gather::cleared;
use crate::partial_8u::{
    partial_gsa_scan_right_to_left_8u_run, partial_gsa_scan_right_to_left_8u_step, partial_sorting_scan_left_to_right_8u_run,
    partial_sorting_scan_left_to_right_8u_step, partial_sorting_scan_right_to_left_8u_run,
    partial_sorting_scan_right_to_left_8u_step, INDUCTION_8U,
};
use crate::types::{InduceState, ThreadCache};

verus! {

/// Writing from a cache reads only the entries that it writes.
proof fn lemma_place_left_alike(c: Seq<ThreadCache>, e: Seq<ThreadCache>, half: int, s: InduceState, n: int)
    requires
        0 <= n <= c.len(),
        c.len() == e.len(),
        forall|x: int| 0 <= x < n ==> #[trigger] c[x] == e[x],
    ensures
        place_left_run(c, 0, half, half, s, 0, n) == place_left_run(e, 0, half, half, s, 0, n),
    decreases n,
{
    if n > 0 {
        lemma_place_left_alike(c, e, half, s, n - 1);
        assert(c[n - 1] == e[n - 1]);
    }
}

/// The counters of a naming scan upward only grow, and their number is kept.
proof fn lemma_left_monotone(t: Seq<u8>, s: InduceState, lo: int, mid: int, hi: int, v: int)
    requires
        lo <= mid <= hi,
        fold_up(partial_sorting_scan_left_to_right_8u_step(t), s, lo, hi) is Some,
        1024 <= v < s.1.len(),
    ensures
        fold_up(partial_sorting_scan_left_to_right_8u_step(t), s, lo, mid) is Some,
        fold_up(partial_sorting_scan_left_to_right_8u_step(t), s, lo, mid).unwrap().1.len() == s.1.len(),
        fold_up(partial_sorting_scan_left_to_right_8u_step(t), s, lo, hi).unwrap().1.len() == s.1.len(),
        s.1[v] <= fold_up(partial_sorting_scan_left_to_right_8u_step(t), s, lo, mid).unwrap().1[v],
        fold_up(partial_sorting_scan_left_to_right_8u_step(t), s, lo, mid).unwrap().1[v]
            <= fold_up(partial_sorting_scan_left_to_right_8u_step(t), s, lo, hi).unwrap().1[v],
    decreases hi - lo,
{
    if lo < hi {
        lemma_fold_up_prefix(partial_sorting_scan_left_to_right_8u_step(t), s, lo, hi - 1, hi);
        lemma_left_monotone(t, s, lo, if mid < hi { mid } else { hi - 1 }, hi - 1, v);
    }
}

/// One worker reads its part from `sa0` and writes over `sa` what the direct scan writes.
#[verifier::spinoff_prover]
#[verifier::rlimit(60)]
proof fn lemma_left_worker(
    t: Seq<u8>,
    half: int,
    sa0: Seq<i32>,
    s0: InduceState,
    o: Seq<i32>,
    c: Seq<ThreadCache>,
    own: Seq<i32>,
    lo: int,
    hi: int,
    edge: int,
    i: int,
)
    requires
        0 <= lo <= i <= hi <= edge,
        0 <= half <= 512,
        1024 + half <= s0.1.len(),
        o.len() == 2 * half,
        own.len() == 2 * half,
        c.len() <= usize::MAX,
        sa0.len() == s0.0.len(),
        forall|q: int| 0 <= q < t.len() ==> 2 * #[trigger] t[q] + 1 < half,
        forall|v: int| 0 <= v < 2 * half ==> #[trigger] o[v] == 0,
        forall|v: int| 0 <= v < half ==> #[trigger] own[v] == s0.1[1024 + v],
        forall|v: int| 0 <= v < half ==> #[trigger] own[half + v] == s0.1[512 + v],
        forall|v: int| 0 <= v < half ==> #[trigger] s0.1[512 + v] <= s0.2,
        forall|q: int| lo <= q < edge && q < sa0.len() ==> #[trigger] s0.0[q] == sa0[q],
        fold_up(partial_sorting_scan_left_to_right_8u_step(t), s0, lo, hi) is Some,
        fold_up(prepare_left_step(t, sa0, half), (o, c, 0usize, 1i32), lo, i) is Some,
        forall|v: int| 0 <= v < half && #[trigger] s0.1[1024 + v]
            != fold_up(partial_sorting_scan_left_to_right_8u_step(t), s0, lo, hi).unwrap().1[1024 + v] ==> s0.1[1024 + v] >= edge,
    ensures
        ({
            let s = fold_up(partial_sorting_scan_left_to_right_8u_step(t), s0, lo, i).unwrap();
            let x = fold_up(prepare_left_step(t, sa0, half), (o, c, 0usize, 1i32), lo, i).unwrap();
            let y = place_left_run(x.1, 0, half, half, (s0.0, own, s0.2), 0, i - lo);
            &&& fold_up(partial_sorting_scan_left_to_right_8u_step(t), s0, lo, i) is Some
            &&& s.0.len() == s0.0.len()
            &&& s.1.len() == s0.1.len()
            &&& x.0.len() == o.len()
            &&& x.1.len() == c.len()
            &&& x.2 == i - lo
            &&& i - lo <= c.len()
            &&& 1 <= x.3
            &&& s.2 == s0.2 + x.3 - 1
            &&& y is Some
            &&& y.unwrap().0 == s.0
            &&& y.unwrap().2 == s.2
            &&& y.unwrap().1.len() == own.len()
            &&& forall|v: int| 0 <= v < half ==> #[trigger] x.0[v] == s.1[1024 + v] - s0.1[1024 + v]
            &&& forall|v: int| 0 <= v < half ==> #[trigger] y.unwrap().1[v] == s.1[1024 + v]
            &&& forall|v: int| 0 <= v < half ==> #[trigger] y.unwrap().1[half + v] == s.1[512 + v]
            &&& forall|v: int| 0 <= v < half ==> 0 <= #[trigger] x.0[half + v] <= x.3
            &&& forall|v: int| 0 <= v < half ==> #[trigger] s.1[512 + v]
                == (if x.0[half + v] > 0 { x.0[half + v] + s0.2 - 1 } else { s0.1[512 + v] as int })
            &&& forall|v: int| 0 <= v < half ==> #[trigger] s.1[512 + v] <= s.2
            &&& forall|w: int| 0 <= w < s0.1.len() && !(512 <= w < 512 + half) && !(1024 <= w < 1024 + half)
                ==> #[trigger] s.1[w] == s0.1[w]
            &&& forall|q: int| i <= q < edge && q < sa0.len() ==> #[trigger] s.0[q] == sa0[q]
        }),
    decreases i - lo,
{
    let direct = partial_sorting_scan_left_to_right_8u_step(t);
    let read = prepare_left_step(t, sa0, half);
    let base = (o, c, 0usize, 1i32);
    lemma_fold_up_prefix(direct, s0, lo, i, hi);
    if lo < i {
        let j = i - 1;
        lemma_fold_up_prefix(direct, s0, lo, j, hi);
        lemma_fold_up_prefix(read, base, lo, j, i);
        lemma_left_worker(t, half, sa0, s0, o, c, own, lo, hi, edge, j);
        let s = fold_up(direct, s0, lo, j).unwrap();
        let x = fold_up(read, base, lo, j).unwrap();
        let s2 = fold_up(direct, s0, lo, i).unwrap();
        let x2 = fold_up(read, base, lo, i).unwrap();
        assert(direct(s, j) == Some(s2));
        assert(read(x, j) == Some(x2));
        assert(s.0[j] == sa0[j]);
        let y = place_left_run(x.1, 0, half, half, (s0.0, own, s0.2), 0, j - lo).unwrap();
        let v = x2.1[j - lo].symbol as int;
        assert(0 <= v < half);
        let target = s.1[1024 + v] as int;
        lemma_left_monotone(t, s0, lo, i, hi, 1024 + v);
        lemma_left_monotone(t, s0, lo, j, hi, 1024 + v);
        assert(s2.1[1024 + v] == target + 1);
        assert(s0.1[1024 + v] != fold_up(direct, s0, lo, hi).unwrap().1[1024 + v]);
        assert(target >= edge);
        assert(y.1[v] == s.1[1024 + v] && y.1[half + v] == s.1[512 + v] && s.1[512 + v] <= s.2);
        lemma_place_left_alike(x.1, x2.1, half, (s0.0, own, s0.2), j - lo);
        assert(place_left_run(x2.1, 0, half, half, (s0.0, own, s0.2), 0, i - lo) == place_left_step(x2.1, 0, half, half)(y, j - lo));
    }
}

/// Reading fills the desk of every worker with its part, and no other desk.
proof fn lemma_left_read(t: Seq<u8>, sa: Seq<i32>, symbols: int, k: int, start: int, size: int, d: Seq<Desk>, w: int, u: int)
    requires
        0 <= w <= k,
        0 <= u < d.len(),
        fold_up(read_step(t, sa, symbols, false, k, start, size), d, 0, w) is Some,
    ensures
        ({
            let r = fold_up(read_step(t, sa, symbols, false, k, start, size), d, 0, w).unwrap();
            let x = prepared_left(t, sa, symbols, d[u].buckets, d[u].cache, start + block_lo(size, k, u), block_hi(size, k, u) - block_lo(size, k, u));
            &&& r.len() == d.len()
            &&& u >= w ==> r[u] == d[u]
            &&& u < w ==> x is Some && r[u] == (Desk {
                position: (x.unwrap().3 - 1) as isize,
                count: x.unwrap().2 as isize,
                buckets: x.unwrap().0,
                cache: x.unwrap().1,
            })
        }),
    decreases w,
{
    if w > 0 {
        let step = read_step(t, sa, symbols, false, k, start, size);
        lemma_fold_up_prefix(step, d, 0, w - 1, w);
        lemma_left_read(t, sa, symbols, k, start, size, d, w - 1, u);
        let r = fold_up(step, d, 0, w - 1).unwrap();
        assert(step(r, w - 1) is Some);
        if u == w - 1 {
            assert(r[u] == d[u]);
        }
    }
}

/// Handing on changes the desk of one worker at a time.
proof fn lemma_left_handed(symbols: int, s: (Seq<i32>, i32, Seq<Desk>), w: int, z: int, u: int)
    requires
        0 <= w <= z,
        0 <= u < s.2.len(),
        u < w || z <= u,
        fold_up(hand_on_step(symbols, INDUCTION_8U as int, false), s, 0, z) is Some,
    ensures
        fold_up(hand_on_step(symbols, INDUCTION_8U as int, false), s, 0, w) is Some,
        fold_up(hand_on_step(symbols, INDUCTION_8U as int, false), s, 0, z).unwrap().2.len() == s.2.len(),
        fold_up(hand_on_step(symbols, INDUCTION_8U as int, false), s, 0, w).unwrap().2.len() == s.2.len(),
        fold_up(hand_on_step(symbols, INDUCTION_8U as int, false), s, 0, z).unwrap().2[u]
            == fold_up(hand_on_step(symbols, INDUCTION_8U as int, false), s, 0, w).unwrap().2[u],
    decreases z,
{
    let step = hand_on_step(symbols, INDUCTION_8U as int, false);
    lemma_fold_up_prefix(step, s, 0, w, z);
    if w < z {
        lemma_fold_up_prefix(step, s, 0, z - 1, z);
        lemma_left_handed(symbols, s, w, z - 1, u);
        assert(step(fold_up(step, s, 0, z - 1).unwrap(), z - 1) is Some);
    } else if w > 0 {
        lemma_fold_up_prefix(step, s, 0, w - 1, w);
        if u < w - 1 || z <= u {
            lemma_left_handed(symbols, s, w - 1, w - 1, u);
        } else {
            lemma_handed_sized(symbols, s, w - 1);
        }
        assert(step(fold_up(step, s, 0, w - 1).unwrap(), w - 1) is Some);
    }
}

/// Handing on keeps the number of desks.
proof fn lemma_handed_sized(symbols: int, s: (Seq<i32>, i32, Seq<Desk>), z: int)
    requires
        0 <= z,
        fold_up(hand_on_step(symbols, INDUCTION_8U as int, false), s, 0, z) is Some,
    ensures
        fold_up(hand_on_step(symbols, INDUCTION_8U as int, false), s, 0, z).unwrap().2.len() == s.2.len(),
    decreases z,
{
    let step = hand_on_step(symbols, INDUCTION_8U as int, false);
    if z > 0 {
        lemma_fold_up_prefix(step, s, 0, z - 1, z);
        lemma_handed_sized(symbols, s, z - 1);
        assert(step(fold_up(step, s, 0, z - 1).unwrap(), z - 1) is Some);
    }
}

/// Writing changes the desk of one worker at a time.
proof fn lemma_left_written(s: (Seq<i32>, Seq<Desk>), w: int, u: int)
    requires
        0 <= w <= u < s.1.len(),
        fold_up(write_step(Naming::Left), s, 0, w) is Some,
    ensures
        fold_up(write_step(Naming::Left), s, 0, w).unwrap().1.len() == s.1.len(),
        fold_up(write_step(Naming::Left), s, 0, w).unwrap().1[u] == s.1[u],
    decreases w,
{
    let step = write_step(Naming::Left);
    if w > 0 {
        lemma_fold_up_prefix(step, s, 0, w - 1, w);
        lemma_left_written(s, w - 1, u);
        assert(step(fold_up(step, s, 0, w - 1).unwrap(), w - 1) is Some);
    }
}

/// Where the part of worker `w` of `k` starts; behind the last the block ends.
spec fn part_start(start: int, size: int, k: int, w: int) -> int {
    if w < k {
        start + block_lo(size, k, w)
    } else {
        start + size
    }
}

/// Worker by worker, the counters handed on and the array written are those of the direct scan.
#[verifier::spinoff_prover]
#[verifier::rlimit(60)]
proof fn lemma_left_delegated(t: Seq<u8>, symbols: int, k: int, sa: Seq<i32>, b: Seq<i32>, d: i32, desks: Seq<Desk>, start: int, size: int, w: int)
    requires
        0 <= start,
        0 < size,
        1 <= k <= desks.len(),
        0 <= w <= k,
        0 <= symbols <= 256,
        1024 + 2 * symbols <= b.len(),
        start + size <= isize::MAX,
        forall|q: int| 0 <= q < t.len() ==> #[trigger] t[q] < symbols,
        forall|u: int| 0 <= u < k ==> (#[trigger] desks[u]).buckets.len() == 4 * symbols && desks[u].cache.len() <= isize::MAX
            && block_lo(size, k, u) < block_hi(size, k, u),
        forall|v: int| 0 <= v < 2 * symbols ==> #[trigger] b[512 + v] <= d,
        fold_up(partial_sorting_scan_left_to_right_8u_step(t), (sa, b, d), start, start + size) is Some,
        forall|v: int| 0 <= v < 2 * symbols && #[trigger] b[1024 + v]
            != fold_up(partial_sorting_scan_left_to_right_8u_step(t), (sa, b, d), start, start + size).unwrap().1[1024 + v]
            ==> b[1024 + v] >= start + size,
        block_shared(t, symbols, Naming::Left, k, (sa, b, d, desks), start, size) is Some,
    ensures
        ({
            let r = fold_up(read_step(t, sa, symbols, false, k, start, size), desks, 0, k).unwrap();
            let h = fold_up(hand_on_step(symbols, INDUCTION_8U as int, false), (b, d, r), 0, w).unwrap();
            let all = fold_up(hand_on_step(symbols, INDUCTION_8U as int, false), (b, d, r), 0, k).unwrap();
            let z = fold_up(write_step(Naming::Left), (sa, all.2), 0, w).unwrap();
            let s = fold_up(partial_sorting_scan_left_to_right_8u_step(t), (sa, b, d), start, part_start(start, size, k, w)).unwrap();
            &&& s.0.len() == sa.len()
            &&& s.1.len() == b.len()
            &&& h.0 == s.1
            &&& h.1 == s.2
            &&& z.0 == s.0
            &&& forall|v: int| 0 <= v < 2 * symbols ==> #[trigger] s.1[512 + v] <= s.2
            &&& forall|q: int| part_start(start, size, k, w) <= q < start + size && q < sa.len() ==> #[trigger] s.0[q] == sa[q]
        }),
    decreases w,
{
    let direct = partial_sorting_scan_left_to_right_8u_step(t);
    let hand = hand_on_step(symbols, INDUCTION_8U as int, false);
    let write = write_step(Naming::Left);
    let r = fold_up(read_step(t, sa, symbols, false, k, start, size), desks, 0, k).unwrap();
    let all = fold_up(hand, (b, d, r), 0, k).unwrap();
    let half = 2 * symbols;
    let edge = start + size;
    if w == 0 {
        law_blocks_join(size, k, 0);
        assert(fold_up(direct, (sa, b, d), start, start) == Some((sa, b, d)));
    } else {
        let u = w - 1;
        lemma_left_delegated(t, symbols, k, sa, b, d, desks, start, size, u);
        law_blocks_join(size, k, u);
        let lo = part_start(start, size, k, u);
        let hi = part_start(start, size, k, w);
        assert(lo == start + block_lo(size, k, u) && hi == start + block_hi(size, k, u));
        assert(desks[u].buckets.len() == 4 * symbols);
        lemma_fold_up_prefix(direct, (sa, b, d), start, lo, edge);
        lemma_fold_up_prefix(direct, (sa, b, d), start, hi, edge);
        lemma_fold_up_split(direct, (sa, b, d), start, lo, hi);
        let s = fold_up(direct, (sa, b, d), start, lo).unwrap();
        let s2 = fold_up(direct, (sa, b, d), start, hi).unwrap();
        assert(fold_up(direct, s, lo, hi) == Some(s2));
        lemma_fold_up_prefix(hand, (b, d, r), 0, u, k);
        lemma_fold_up_prefix(hand, (b, d, r), 0, w, k);
        lemma_fold_up_prefix(write, (sa, all.2), 0, u, k);
        lemma_fold_up_prefix(write, (sa, all.2), 0, w, k);
        let h = fold_up(hand, (b, d, r), 0, u).unwrap();
        let h2 = fold_up(hand, (b, d, r), 0, w).unwrap();
        let z = fold_up(write, (sa, all.2), 0, u).unwrap();
        let z2 = fold_up(write, (sa, all.2), 0, w).unwrap();
        assert(hand(h, u) == Some(h2));
        assert(write(z, u) == Some(z2));
        lemma_left_read(t, sa, symbols, k, start, size, desks, k, u);
        lemma_left_handed(symbols, (b, d, r), 0, u, u);
        assert(fold_up(hand, (b, d, r), 0, 0) == Some((b, d, r)));
        assert(h.2[u] == r[u]);
        lemma_left_handed(symbols, (b, d, r), w, k, u);
        assert(all.2[u] == h2.2[u]);
        lemma_left_written((sa, all.2), u, u);
        assert(z.1[u] == all.2[u]);
        let o = cleared(desks[u].buckets, 0, 4 * symbols);
        let c = desks[u].cache;
        let x = fold_up(prepare_left_step(t, sa, half), (o, c, 0usize, 1i32), lo, hi).unwrap();
        let own = Seq::new(4 * symbols as nat, |v: int| if v < half { s.1[1024 + v] } else { s.1[512 + v - half] });
        assert forall|v: int| 0 <= v < half && #[trigger] s.1[1024 + v] != fold_up(direct, s, lo, hi).unwrap().1[1024 + v]
            implies s.1[1024 + v] >= edge by {
            lemma_left_monotone(t, (sa, b, d), start, lo, edge, 1024 + v);
            lemma_left_monotone(t, (sa, b, d), start, hi, edge, 1024 + v);
            lemma_left_monotone(t, s, lo, hi, hi, 1024 + v);
            assert(b[1024 + v] != fold_up(direct, (sa, b, d), start, edge).unwrap().1[1024 + v]);
        }
        assert forall|q: int| 0 <= q < t.len() implies 2 * #[trigger] t[q] + 1 < half by {
            assert(t[q] < symbols);
        }
        assert forall|v: int| 0 <= v < half implies #[trigger] own[half + v] == s.1[512 + v] by {}
        lemma_left_worker(t, half, sa, s, o, c, own, lo, hi, edge, hi);
        assert(r[u].buckets == x.0 && r[u].cache == x.1 && r[u].count == hi - lo && r[u].position == x.3 - 1);
        let e = exchanged(h.0, r[u].buckets, 1024, half, false).unwrap();
        let n = renamed(e.0, e.1, 512, half, h.1).unwrap();
        assert forall|v: int| 0 <= v < half implies #[trigger] e.1[v] == s.1[1024 + v] by {}
        assert forall|v: int| 0 <= v < 4 * symbols implies #[trigger] n.1[v] == own[v] by {
            if v >= half {
                assert(n.1[v] == e.0[512 + v - half]);
            }
        }
        assert(n.1 =~= own);
        assert forall|y: int| 0 <= y < b.len() implies #[trigger] n.0[y] == s2.1[y] by {
            if 512 <= y < 512 + half {
                let v = y - 512;
                assert(s2.1[512 + v] == (if x.0[half + v] > 0 { x.0[half + v] + s.2 - 1 } else { s.1[512 + v] as int }));
                assert(e.1[half + v] == x.0[half + v]);
            } else if 1024 <= y < 1024 + half {
                let v = y - 1024;
                assert(x.0[v] == s2.1[1024 + v] - s.1[1024 + v]);
            }
        }
        assert(n.0 =~= s2.1);
    }
}

/// Scanning a block upward with any number of workers leaves the array, the counters and the name
/// of the direct scan, where every counter that the direct scan moves starts behind the block, no
/// counter holds a later name than the last, and every worker has a part.
pub proof fn law_block_left(t: Seq<u8>, symbols: int, threads: int, s: NamingState, start: int, size: int)
    requires
        0 <= start,
        0 < size,
        0 <= symbols <= 256,
        1024 + 2 * symbols <= s.1.len(),
        start + size <= isize::MAX,
        forall|q: int| 0 <= q < t.len() ==> #[trigger] t[q] < symbols,
        forall|u: int| 0 <= u < s.3.len() ==> (#[trigger] s.3[u]).buckets.len() == 4 * symbols && s.3[u].cache.len() <= isize::MAX,
        forall|u: int, k: int| 0 <= u < k <= s.3.len() ==> #[trigger] block_lo(size, k, u) < block_hi(size, k, u),
        forall|v: int| 0 <= v < 2 * symbols ==> #[trigger] s.1[512 + v] <= s.2,
        block_left(t, symbols, threads, s, start, size) is Some,
        partial_sorting_scan_left_to_right_8u_run(t, (s.0, s.1, s.2), start, size) is Some,
        forall|v: int| 0 <= v < 2 * symbols && #[trigger] s.1[1024 + v]
            != partial_sorting_scan_left_to_right_8u_run(t, (s.0, s.1, s.2), start, size).unwrap().1[1024 + v]
            ==> s.1[1024 + v] >= start + size,
    ensures
        ({
            let x = block_left(t, symbols, threads, s, start, size).unwrap();
            partial_sorting_scan_left_to_right_8u_run(t, (s.0, s.1, s.2), start, size) == Some((x.0, x.1, x.2))
        }),
{
    let k = block_workers(symbols, size, threads, s.3.len() as int);
    if k > 1 {
        assert forall|u: int| 0 <= u < k implies (#[trigger] s.3[u]).buckets.len() == 4 * symbols && s.3[u].cache.len() <= isize::MAX
            && block_lo(size, k, u) < block_hi(size, k, u) by {}
        lemma_left_delegated(t, symbols, k, s.0, s.1, s.2, s.3, start, size, k);
    }
}

/// Writing from a cache reads only the entries that it writes.
proof fn lemma_place_right_alike(c: Seq<ThreadCache>, e: Seq<ThreadCache>, s: InduceState, n: int)
    requires
        0 <= n <= c.len(),
        c.len() == e.len(),
        forall|x: int| 0 <= x < n ==> #[trigger] c[x] == e[x],
    ensures
        place_right_run(c, 0, 512, 512, s, 0, n) == place_right_run(e, 0, 512, 512, s, 0, n),
    decreases n,
{
    if n > 0 {
        lemma_place_right_alike(c, e, s, n - 1);
        assert(c[n - 1] == e[n - 1]);
    }
}

/// The counters of a naming scan downward only shrink, and their number is kept.
proof fn lemma_right_monotone(t: Seq<u8>, s: InduceState, lo: int, mid: int, hi: int, v: int)
    requires
        lo <= mid <= hi,
        fold_down(partial_sorting_scan_right_to_left_8u_step(t), s, lo, hi) is Some,
        0 <= v < 512 <= s.1.len(),
    ensures
        fold_down(partial_sorting_scan_right_to_left_8u_step(t), s, mid, hi) is Some,
        fold_down(partial_sorting_scan_right_to_left_8u_step(t), s, mid, hi).unwrap().1.len() == s.1.len(),
        fold_down(partial_sorting_scan_right_to_left_8u_step(t), s, lo, hi).unwrap().1.len() == s.1.len(),
        s.1[v] >= fold_down(partial_sorting_scan_right_to_left_8u_step(t), s, mid, hi).unwrap().1[v],
        fold_down(partial_sorting_scan_right_to_left_8u_step(t), s, mid, hi).unwrap().1[v] >= fold_down(partial_sorting_scan_right_to_left_8u_step(t), s, lo, hi).unwrap().1[v],
    decreases hi - lo,
{
    if lo < hi {
        lemma_fold_down_prefix(partial_sorting_scan_right_to_left_8u_step(t), s, lo, lo + 1, hi);
        lemma_right_monotone(t, s, lo + 1, if mid > lo { mid } else { lo + 1 }, hi, v);
    }
}

/// One worker reads its part from `sa0` and writes over the array of the scan what the direct scan
/// writes.
#[verifier::spinoff_prover]
#[verifier::rlimit(60)]
proof fn lemma_right_worker(
    t: Seq<u8>,
    sa0: Seq<i32>,
    s0: InduceState,
    o: Seq<i32>,
    c: Seq<ThreadCache>,
    own: Seq<i32>,
    start: int,
    lo: int,
    hi: int,
    i: int,
)
    requires
        0 <= start <= lo <= i <= hi,
        1024 <= s0.1.len(),
        o.len() == 1024,
        own.len() == 1024,
        c.len() <= usize::MAX,
        sa0.len() == s0.0.len() <= i32::MAX,
        forall|v: int| 0 <= v < 1024 ==> #[trigger] o[v] == 0,
        forall|v: int| 0 <= v < 1024 ==> #[trigger] own[v] == s0.1[v],
        forall|v: int| 512 <= v < 1024 ==> #[trigger] s0.1[v] <= s0.2,
        forall|q: int| start <= q < hi && q < sa0.len() ==> #[trigger] s0.0[q] == sa0[q],
        fold_down(partial_sorting_scan_right_to_left_8u_step(t), s0, lo, hi) is Some,
        fold_down(prepare_right_step(t, sa0, 512), (o, c, 0usize, 1i32), i, hi) is Some,
        forall|v: int| 0 <= v < 512 && #[trigger] s0.1[v]
            != fold_down(partial_sorting_scan_right_to_left_8u_step(t), s0, lo, hi).unwrap().1[v] ==> s0.1[v] <= start,
    ensures
        ({
            let s = fold_down(partial_sorting_scan_right_to_left_8u_step(t), s0, i, hi).unwrap();
            let x = fold_down(prepare_right_step(t, sa0, 512), (o, c, 0usize, 1i32), i, hi).unwrap();
            let y = place_right_run(x.1, 0, 512, 512, (s0.0, own, s0.2), 0, hi - i);
            &&& fold_down(partial_sorting_scan_right_to_left_8u_step(t), s0, i, hi) is Some
            &&& s.0.len() == s0.0.len()
            &&& s.1.len() == s0.1.len()
            &&& x.0.len() == o.len()
            &&& x.1.len() == c.len()
            &&& x.2 == hi - i
            &&& hi - i <= c.len()
            &&& 1 <= x.3
            &&& s.2 == s0.2 + x.3 - 1
            &&& y is Some
            &&& y.unwrap().0 == s.0
            &&& y.unwrap().2 == s.2
            &&& y.unwrap().1 == s.1.take(1024)
            &&& forall|v: int| 0 <= v < 512 ==> #[trigger] x.0[v] == s0.1[v] - s.1[v]
            &&& forall|v: int| 0 <= v < 512 ==> 0 <= #[trigger] x.0[512 + v] <= x.3
            &&& forall|v: int| 0 <= v < 512 ==> #[trigger] s.1[512 + v]
                == (if x.0[512 + v] > 0 { x.0[512 + v] + s0.2 - 1 } else { s0.1[512 + v] as int })
            &&& forall|v: int| 512 <= v < 1024 ==> #[trigger] s.1[v] <= s.2
            &&& forall|v: int| 1024 <= v < s0.1.len() ==> #[trigger] s.1[v] == s0.1[v]
            &&& forall|q: int| start <= q < i && q < sa0.len() ==> #[trigger] s.0[q] == sa0[q]
        }),
    decreases hi - i,
{
    let direct = partial_sorting_scan_right_to_left_8u_step(t);
    let read = prepare_right_step(t, sa0, 512);
    let base = (o, c, 0usize, 1i32);
    lemma_fold_down_prefix(direct, s0, lo, i, hi);
    if i < hi {
        lemma_fold_down_prefix(direct, s0, lo, i + 1, hi);
        lemma_fold_down_prefix(read, base, i, i + 1, hi);
        lemma_right_worker(t, sa0, s0, o, c, own, start, lo, hi, i + 1);
        let s = fold_down(direct, s0, i + 1, hi).unwrap();
        let x = fold_down(read, base, i + 1, hi).unwrap();
        let s2 = fold_down(direct, s0, i, hi).unwrap();
        let x2 = fold_down(read, base, i, hi).unwrap();
        assert(direct(s, i) == Some(s2));
        assert(read(x, i) == Some(x2));
        assert(s.0[i] == sa0[i]);
        let n = hi - i - 1;
        let y = place_right_run(x.1, 0, 512, 512, (s0.0, own, s0.2), 0, n).unwrap();
        let v = x2.1[n].symbol as int;
        assert(0 <= v < 512);
        lemma_place_right_alike(x.1, x2.1, (s0.0, own, s0.2), n);
        assert(place_right_run(x2.1, 0, 512, 512, (s0.0, own, s0.2), 0, hi - i) == place_right_step(x2.1, 0, 512, 512)(y, n));
        assert(y.1[v] == s.1[v] && y.1[512 + v] == s.1[512 + v] && s.1[512 + v] <= s.2);
        let target = s.1[v] - 1;
        lemma_right_monotone(t, s0, lo, i, hi, v);
        lemma_right_monotone(t, s0, lo, i + 1, hi, v);
        assert(s2.1[v] == target);
        assert(s0.1[v] != fold_down(direct, s0, lo, hi).unwrap().1[v]);
        assert(target < start);
        let y2 = place_right_run(x2.1, 0, 512, 512, (s0.0, own, s0.2), 0, hi - i).unwrap();
        assert(y2.1 =~= s2.1.take(1024));
    } else {
        assert(own =~= s0.1.take(1024));
    }
}

/// Reading a part of a byte text downward into a cache, and writing from it with the counters and
/// the names of the scan, leaves what scanning the part directly leaves, where every counter that
/// the direct scan moves starts in front of the part and no counter holds a later name than the
/// last: the worker has counted what each counter moves by, and how many names were opened.
pub proof fn law_part_right(t: Seq<u8>, s: InduceState, buckets: Seq<i32>, cache: Seq<ThreadCache>, start: int, size: int)
    requires
        0 <= start,
        0 <= size,
        1024 <= s.1.len(),
        s.0.len() <= i32::MAX,
        buckets.len() == 1024,
        cache.len() <= usize::MAX,
        prepared_right(t, s.0, 256, buckets, cache, start, size) is Some,
        partial_sorting_scan_right_to_left_8u_run(t, s, start, size) is Some,
        forall|v: int| 512 <= v < 1024 ==> #[trigger] s.1[v] <= s.2,
        forall|v: int| 0 <= v < 512 && #[trigger] s.1[v]
            != partial_sorting_scan_right_to_left_8u_run(t, s, start, size).unwrap().1[v] ==> s.1[v] <= start,
    ensures
        ({
            let x = prepared_right(t, s.0, 256, buckets, cache, start, size).unwrap();
            let y = partial_sorting_scan_right_to_left_8u_run(t, s, start, size).unwrap();
            &&& x.2 == size
            &&& y.2 == s.2 + x.3 - 1
            &&& place_right_run(x.1, 0, 512, 512, (s.0, s.1.take(1024), s.2), 0, size) == Some((y.0, y.1.take(1024), y.2))
            &&& forall|v: int| 0 <= v < 512 ==> #[trigger] x.0[v] == s.1[v] - y.1[v]
            &&& forall|v: int| 0 <= v < 512 ==> y.1[512 + v]
                == (if #[trigger] x.0[512 + v] > 0 { x.0[512 + v] + s.2 - 1 } else { s.1[512 + v] as int })
            &&& forall|v: int| 1024 <= v < s.1.len() ==> #[trigger] y.1[v] == s.1[v]
        }),
{
    let o = cleared(buckets, 0, 1024);
    lemma_right_worker(t, s.0, s, o, cache, s.1.take(1024), start, start, start + size, start);
}

/// Writing from a cache reads only the entries that it writes.
proof fn lemma_place_gsa_alike(c: Seq<ThreadCache>, e: Seq<ThreadCache>, s: InduceState, n: int)
    requires
        0 <= n <= c.len(),
        c.len() == e.len(),
        forall|x: int| 0 <= x < n ==> #[trigger] c[x] == e[x],
    ensures
        place_gsa_run(c, 0, 512, 512, s, 0, n) == place_gsa_run(e, 0, 512, 512, s, 0, n),
    decreases n,
{
    if n > 0 {
        lemma_place_gsa_alike(c, e, s, n - 1);
        assert(c[n - 1] == e[n - 1]);
    }
}

/// The counters of a naming scan downward over separated texts only shrink, and their number is kept.
proof fn lemma_gsa_monotone(t: Seq<u8>, s: InduceState, lo: int, mid: int, hi: int, v: int)
    requires
        lo <= mid <= hi,
        fold_down(partial_gsa_scan_right_to_left_8u_step(t), s, lo, hi) is Some,
        0 <= v < 512 <= s.1.len(),
    ensures
        fold_down(partial_gsa_scan_right_to_left_8u_step(t), s, mid, hi) is Some,
        fold_down(partial_gsa_scan_right_to_left_8u_step(t), s, mid, hi).unwrap().1.len() == s.1.len(),
        fold_down(partial_gsa_scan_right_to_left_8u_step(t), s, lo, hi).unwrap().1.len() == s.1.len(),
        s.1[v] >= fold_down(partial_gsa_scan_right_to_left_8u_step(t), s, mid, hi).unwrap().1[v],
        fold_down(partial_gsa_scan_right_to_left_8u_step(t), s, mid, hi).unwrap().1[v] >= fold_down(partial_gsa_scan_right_to_left_8u_step(t), s, lo, hi).unwrap().1[v],
    decreases hi - lo,
{
    if lo < hi {
        lemma_fold_down_prefix(partial_gsa_scan_right_to_left_8u_step(t), s, lo, lo + 1, hi);
        lemma_gsa_monotone(t, s, lo + 1, if mid > lo { mid } else { lo + 1 }, hi, v);
    }
}

/// One worker reads its part from `sa0` and writes over the array of the scan what the direct scan
/// writes.
#[verifier::spinoff_prover]
#[verifier::rlimit(60)]
proof fn lemma_gsa_worker(
    t: Seq<u8>,
    sa0: Seq<i32>,
    s0: InduceState,
    o: Seq<i32>,
    c: Seq<ThreadCache>,
    own: Seq<i32>,
    start: int,
    lo: int,
    hi: int,
    i: int,
)
    requires
        0 <= start <= lo <= i <= hi,
        1024 <= s0.1.len(),
        o.len() == 1024,
        own.len() == 1024,
        c.len() <= usize::MAX,
        sa0.len() == s0.0.len() <= i32::MAX,
        forall|v: int| 0 <= v < 1024 ==> #[trigger] o[v] == 0,
        forall|v: int| 0 <= v < 1024 ==> #[trigger] own[v] == s0.1[v],
        forall|v: int| 512 <= v < 1024 ==> #[trigger] s0.1[v] <= s0.2,
        forall|q: int| start <= q < hi && q < sa0.len() ==> #[trigger] s0.0[q] == sa0[q],
        fold_down(partial_gsa_scan_right_to_left_8u_step(t), s0, lo, hi) is Some,
        fold_down(prepare_right_step(t, sa0, 512), (o, c, 0usize, 1i32), i, hi) is Some,
        forall|v: int| 0 <= v < 512 && #[trigger] s0.1[v]
            != fold_down(partial_gsa_scan_right_to_left_8u_step(t), s0, lo, hi).unwrap().1[v] ==> s0.1[v] <= start,
    ensures
        ({
            let s = fold_down(partial_gsa_scan_right_to_left_8u_step(t), s0, i, hi).unwrap();
            let x = fold_down(prepare_right_step(t, sa0, 512), (o, c, 0usize, 1i32), i, hi).unwrap();
            let y = place_gsa_run(x.1, 0, 512, 512, (s0.0, own, s0.2), 0, hi - i);
            &&& fold_down(partial_gsa_scan_right_to_left_8u_step(t), s0, i, hi) is Some
            &&& s.0.len() == s0.0.len()
            &&& s.1.len() == s0.1.len()
            &&& x.0.len() == o.len()
            &&& x.1.len() == c.len()
            &&& x.2 == hi - i
            &&& hi - i <= c.len()
            &&& 1 <= x.3
            &&& s.2 == s0.2 + x.3 - 1
            &&& y is Some
            &&& y.unwrap().0 == s.0
            &&& y.unwrap().2 == s.2
            &&& y.unwrap().1 == s.1.take(1024)
            &&& forall|v: int| 0 <= v < 512 && v != 1 ==> #[trigger] x.0[v] == s0.1[v] - s.1[v]
            &&& forall|v: int| 0 <= v < 512 ==> 0 <= #[trigger] x.0[512 + v] <= x.3
            &&& forall|v: int| 0 <= v < 512 && v != 1 ==> #[trigger] s.1[512 + v]
                == (if x.0[512 + v] > 0 { x.0[512 + v] + s0.2 - 1 } else { s0.1[512 + v] as int })
            &&& forall|v: int| 512 <= v < 1024 ==> #[trigger] s.1[v] <= s.2
            &&& forall|v: int| 1024 <= v < s0.1.len() ==> #[trigger] s.1[v] == s0.1[v]
            &&& forall|q: int| start <= q < i && q < sa0.len() ==> #[trigger] s.0[q] == sa0[q]
        }),
    decreases hi - i,
{
    let direct = partial_gsa_scan_right_to_left_8u_step(t);
    let read = prepare_right_step(t, sa0, 512);
    let base = (o, c, 0usize, 1i32);
    lemma_fold_down_prefix(direct, s0, lo, i, hi);
    if i < hi {
        lemma_fold_down_prefix(direct, s0, lo, i + 1, hi);
        lemma_fold_down_prefix(read, base, i, i + 1, hi);
        lemma_gsa_worker(t, sa0, s0, o, c, own, start, lo, hi, i + 1);
        let s = fold_down(direct, s0, i + 1, hi).unwrap();
        let x = fold_down(read, base, i + 1, hi).unwrap();
        let s2 = fold_down(direct, s0, i, hi).unwrap();
        let x2 = fold_down(read, base, i, hi).unwrap();
        assert(direct(s, i) == Some(s2));
        assert(read(x, i) == Some(x2));
        assert(s.0[i] == sa0[i]);
        let n = hi - i - 1;
        let y = place_gsa_run(x.1, 0, 512, 512, (s0.0, own, s0.2), 0, n).unwrap();
        let v = x2.1[n].symbol as int;
        assert(0 <= v < 512);
        lemma_place_gsa_alike(x.1, x2.1, (s0.0, own, s0.2), n);
        assert(place_gsa_run(x2.1, 0, 512, 512, (s0.0, own, s0.2), 0, hi - i) == place_gsa_step(x2.1, 0, 512, 512)(y, n));
        assert(y.1[v] == s.1[v] && y.1[512 + v] == s.1[512 + v] && s.1[512 + v] <= s.2);
        if v != 1 {
            let target = s.1[v] - 1;
            lemma_gsa_monotone(t, s0, lo, i, hi, v);
            lemma_gsa_monotone(t, s0, lo, i + 1, hi, v);
            assert(s2.1[v] == target);
            assert(s0.1[v] != fold_down(direct, s0, lo, hi).unwrap().1[v]);
            assert(target < start);
        }
        let y2 = place_gsa_run(x2.1, 0, 512, 512, (s0.0, own, s0.2), 0, hi - i).unwrap();
        assert(y2.1 =~= s2.1.take(1024));
    } else {
        assert(own =~= s0.1.take(1024));
    }
}

/// Reading a part of a byte text of separated texts downward into a cache, and writing from it with the counters and
/// the names of the scan, leaves what scanning the part directly leaves, where every counter that
/// the direct scan moves starts in front of the part and no counter holds a later name than the
/// last: the worker has counted what each counter moves by, and how many names were opened.
pub proof fn law_part_gsa(t: Seq<u8>, s: InduceState, buckets: Seq<i32>, cache: Seq<ThreadCache>, start: int, size: int)
    requires
        0 <= start,
        0 <= size,
        1024 <= s.1.len(),
        s.0.len() <= i32::MAX,
        buckets.len() == 1024,
        cache.len() <= usize::MAX,
        prepared_right(t, s.0, 256, buckets, cache, start, size) is Some,
        partial_gsa_scan_right_to_left_8u_run(t, s, start, size) is Some,
        forall|v: int| 512 <= v < 1024 ==> #[trigger] s.1[v] <= s.2,
        forall|v: int| 0 <= v < 512 && #[trigger] s.1[v] != partial_gsa_scan_right_to_left_8u_run(t, s, start, size).unwrap().1[v]
            ==> s.1[v] <= start,
    ensures
        ({
            let x = prepared_right(t, s.0, 256, buckets, cache, start, size).unwrap();
            let y = partial_gsa_scan_right_to_left_8u_run(t, s, start, size).unwrap();
            &&& x.2 == size
            &&& y.2 == s.2 + x.3 - 1
            &&& place_gsa_run(x.1, 0, 512, 512, (s.0, s.1.take(1024), s.2), 0, size) == Some((y.0, y.1.take(1024), y.2))
            &&& forall|v: int| 0 <= v < 512 && v != 1 ==> #[trigger] x.0[v] == s.1[v] - y.1[v]
            &&& forall|v: int| 0 <= v < 512 && v != 1 ==> y.1[512 + v]
                == (if #[trigger] x.0[512 + v] > 0 { x.0[512 + v] + s.2 - 1 } else { s.1[512 + v] as int })
            &&& forall|v: int| 1024 <= v < s.1.len() ==> #[trigger] y.1[v] == s.1[v]
        }),
{
    let o = cleared(buckets, 0, 1024);
    lemma_gsa_worker(t, s.0, s, o, cache, s.1.take(1024), start, start, start + size, start);
}

} // verus!
