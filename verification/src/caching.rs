//! Scanning a block through a cache leaves what scanning it directly leaves.

use vstd::prelude::*;
use crate::block_32s::{
    bucket_symbol, cached_final_left, cached_final_right, cached_left_1k, cached_left_4k, cached_left_6k, cached_right_1k,
    cached_right_4k, cached_right_6k, finally_induced, gather_final_left_run, gather_final_left_step, gather_final_right_run,
    gather_final_right_step, gather_left_1k_run, gather_left_1k_step, gather_left_4k_run, gather_left_4k_step,
    gather_left_6k_run, gather_left_6k_step, gather_right_1k_run, gather_right_1k_step, gather_right_4k_run,
    gather_right_4k_step, gather_right_6k_run, gather_right_6k_step, induced, place_chosen_run, place_chosen_step,
    sort_final_left_run, sort_final_left_step, sort_final_right_run, sort_final_right_step, sort_left_1k_run,
    sort_left_1k_step, sort_left_4k_run, sort_left_4k_step, sort_left_6k_run, sort_left_6k_step, sort_right_1k_run,
    sort_right_1k_step, sort_right_4k_run, sort_right_4k_step, sort_right_6k_run, sort_right_6k_step, Side,
};
use crate::effects::{law_cache_packed, law_cached_placed, law_packed_and_placed, slotted};
use crate::final_scan::{
    final_sorting_scan_left_to_right_32s_run, final_sorting_scan_left_to_right_32s_step,
    final_sorting_scan_right_to_left_32s_run, final_sorting_scan_right_to_left_32s_step,
};
use crate::fold::{fold_down, fold_up, lemma_fold_down_prefix, lemma_fold_up_prefix};
use crate::marks::{flipped, ungrouped, unmarked};
use crate::partial_32s::{
    partial_sorting_scan_left_to_right_32s_1k_run, partial_sorting_scan_left_to_right_32s_1k_step,
    partial_sorting_scan_left_to_right_32s_4k_run, partial_sorting_scan_left_to_right_32s_4k_step,
    partial_sorting_scan_left_to_right_32s_6k_run, partial_sorting_scan_left_to_right_32s_6k_step,
    partial_sorting_scan_right_to_left_32s_1k_run, partial_sorting_scan_right_to_left_32s_1k_step,
    partial_sorting_scan_right_to_left_32s_4k_run, partial_sorting_scan_right_to_left_32s_4k_step,
    partial_sorting_scan_right_to_left_32s_6k_run, partial_sorting_scan_right_to_left_32s_6k_step,
};
use crate::radix::{
    compact_and_place_run, compact_cached_run, place_cached_run, place_cached_step,
};
use crate::types::{InduceState, PlaceState, ThreadCache};

verus! {

/// Placing reads only the entries that it places.
proof fn lemma_placed_alike(c: Seq<ThreadCache>, e: Seq<ThreadCache>, sa: Seq<i32>, k: int)
    requires
        0 <= k <= c.len(),
        c.len() == e.len(),
        forall|x: int| 0 <= x < k ==> #[trigger] c[x] == e[x],
    ensures
        place_cached_run(c, sa, 0, k) == place_cached_run(e, sa, 0, k),
    decreases k,
{
    if k > 0 {
        lemma_placed_alike(c, e, sa, k - 1);
        assert(c[k - 1] == e[k - 1]);
    }
}

/// Whether a cache entry stands for the array entry `p` of a scan upward with six counters.
spec fn stands_left_6k(t: Seq<i32>, e: ThreadCache, p: i32) -> bool {
    &&& e.index == p
    &&& unmarked(p) != 0 ==> bucket_symbol(t, unmarked(p) as int, Side::NotBelow, 4) == Some(e.symbol)
}

/// Gathering a block leaves an entry for each slot.
proof fn lemma_left_6k_gathered(t: Seq<i32>, sa: Seq<i32>, start: int, c: Seq<ThreadCache>, hi: int)
    requires
        start <= hi <= start + c.len(),
        0 <= start,
        gather_left_6k_run(t, sa, start, c, start, hi) is Some,
    ensures
        ({
            let g = gather_left_6k_run(t, sa, start, c, start, hi).unwrap();
            &&& g.len() == c.len()
            &&& start < hi ==> hi <= sa.len()
            &&& forall|x: int| 0 <= x < hi - start ==> stands_left_6k(t, #[trigger] g[x], sa[start + x])
        }),
    decreases hi - start,
{
    if start < hi {
        lemma_left_6k_gathered(t, sa, start, c, hi - 1);
        let y = gather_left_6k_run(t, sa, start, c, start, hi - 1).unwrap();
        assert(fold_up(gather_left_6k_step(t, sa, start), c, start, hi) == gather_left_6k_step(t, sa, start)(y, hi - 1));
    }
}

/// Sorting a gathered block goes along with the direct scan: the counters are the same, the
/// entries ahead stand for the slots of the array, and placing the entries behind gives the array.
#[verifier::spinoff_prover]
proof fn lemma_left_6k_along(t: Seq<i32>, sa: Seq<i32>, b: Seq<i32>, d: i32, g: Seq<ThreadCache>, start: int, i: int)
    requires
        0 <= start <= i <= start + g.len() <= i32::MAX,
        start + g.len() <= sa.len(),
        forall|x: int| 0 <= x < g.len() ==> stands_left_6k(t, #[trigger] g[x], sa[start + x]),
        forall|w: int| 0 <= w < b.len() && w % 4 >= 2 ==> #[trigger] b[w] <= d,
        sort_left_6k_run(t, start, start, start + g.len(), (b, d, g), start, i) is Some,
        partial_sorting_scan_left_to_right_32s_6k_run(t, (sa, b, d), start, i - start) is Some,
        forall|j: int, v: int| start <= j < i && 0 <= v < b.len() && v % 4 < 2 ==> {
            ||| #[trigger] fold_up(partial_sorting_scan_left_to_right_32s_6k_step(t), (sa, b, d), start, j).unwrap().1[v] > j
            ||| fold_up(partial_sorting_scan_left_to_right_32s_6k_step(t), (sa, b, d), start, j + 1).unwrap().1[v]
                == fold_up(partial_sorting_scan_left_to_right_32s_6k_step(t), (sa, b, d), start, j).unwrap().1[v]
        },
    ensures
        ({
            let s = partial_sorting_scan_left_to_right_32s_6k_run(t, (sa, b, d), start, i - start).unwrap();
            let x = sort_left_6k_run(t, start, start, start + g.len(), (b, d, g), start, i).unwrap();
            &&& s.0.len() == sa.len()
            &&& s.1.len() == b.len()
            &&& x.2.len() == g.len()
            &&& x.0 == s.1
            &&& x.1 == s.2
            &&& forall|w: int| 0 <= w < b.len() && w % 4 >= 2 ==> #[trigger] s.1[w] <= s.2
            &&& forall|y: int| i - start <= y < g.len() ==> stands_left_6k(t, #[trigger] x.2[y], s.0[start + y])
            &&& place_cached_run(x.2, sa, 0, i - start) == Some(s.0)
        }),
    decreases i - start,
{
    if start < i {
        let j = i - 1;
        let direct = partial_sorting_scan_left_to_right_32s_6k_step(t);
        let sort = sort_left_6k_step(t, start, start, start + g.len());
        lemma_fold_up_prefix(direct, (sa, b, d), start, j, i);
        lemma_fold_up_prefix(sort, (b, d, g), start, j, i);
        lemma_left_6k_along(t, sa, b, d, g, start, j);
        let s = fold_up(direct, (sa, b, d), start, j).unwrap();
        let x = fold_up(sort, (b, d, g), start, j).unwrap();
        let s2 = fold_up(direct, (sa, b, d), start, i).unwrap();
        let x2 = fold_up(sort, (b, d, g), start, i).unwrap();
        assert(Some(s2) == direct(s, j));
        assert(Some(x2) == sort(x, j));
        assert(stands_left_6k(t, x.2[j - start], s.0[start + (j - start)]));
        let p = unmarked(s.0[j]);
        let v = x.2[j - start].symbol as int;
        assert(bucket_symbol(t, p as int, Side::NotBelow, 4) == Some(x.2[j - start].symbol));
        assert(v % 4 < 2 && (v + 2) % 4 >= 2);
        assert(s.1[v + 2] <= s.2);
        let target = s.1[v] as int;
        assert(s2.1[v] == target + 1);
        assert(j < target);
        assert forall|y: int| i - start <= y < g.len() implies stands_left_6k(t, #[trigger] x2.2[y], s2.0[start + y]) by {
            assert(stands_left_6k(t, x.2[y], s.0[start + y]));
        }
        lemma_placed_alike(x.2, x2.2, sa, j - start);
        assert(place_cached_run(x2.2, sa, 0, i - start) == place_cached_step(x2.2)(s.0, j - start));
    }
}

/// Scanning a block upward through the cache, with six counters for each symbol, leaves the array,
/// the counters and the name of the direct scan, where every head that the direct scan moves is
/// ahead of it and no counter holds a later name than the last.
pub proof fn law_cached_left_6k(t: Seq<i32>, sa: Seq<i32>, b: Seq<i32>, d: i32, cache: Seq<ThreadCache>, start: int, size: int)
    requires
        cached_left_6k(t, sa, b, d, cache, start, size) is Some,
        partial_sorting_scan_left_to_right_32s_6k_run(t, (sa, b, d), start, size) is Some,
        forall|w: int| 0 <= w < b.len() && w % 4 >= 2 ==> #[trigger] b[w] <= d,
        forall|j: int, v: int| start <= j < start + size && 0 <= v < b.len() && v % 4 < 2 ==> {
            ||| #[trigger] fold_up(partial_sorting_scan_left_to_right_32s_6k_step(t), (sa, b, d), start, j).unwrap().1[v] > j
            ||| fold_up(partial_sorting_scan_left_to_right_32s_6k_step(t), (sa, b, d), start, j + 1).unwrap().1[v]
                == fold_up(partial_sorting_scan_left_to_right_32s_6k_step(t), (sa, b, d), start, j).unwrap().1[v]
        },
    ensures
        ({
            let x = cached_left_6k(t, sa, b, d, cache, start, size).unwrap();
            &&& partial_sorting_scan_left_to_right_32s_6k_run(t, (sa, b, d), start, size) == Some((x.0, x.1, x.2))
            &&& x.3.len() == cache.len()
            &&& forall|y: int| size <= y < cache.len() ==> #[trigger] x.3[y] == cache[y]
        }),
{
    let c = cache.subrange(0, size);
    lemma_left_6k_gathered(t, sa, start, c, start + size);
    let g = gather_left_6k_run(t, sa, start, c, start, start + size).unwrap();
    if size > 0 {
        lemma_left_6k_along(t, sa, b, d, g, start, start + size);
    }
}

/// Whether the step of a scan downward at `j` moves the counter at `v`.
pub open spec fn head_moved(step: spec_fn(PlaceState, int) -> Option<PlaceState>, s: PlaceState, hi: int, j: int, v: int) -> bool {
    fold_down(step, s, j, hi).unwrap().1[v] != fold_down(step, s, j + 1, hi).unwrap().1[v]
}

/// Whether the step of a naming scan downward at `j` moves the counter at `v`.
pub open spec fn name_moved(step: spec_fn(InduceState, int) -> Option<InduceState>, s: InduceState, hi: int, j: int, v: int) -> bool {
    fold_down(step, s, j, hi).unwrap().1[v] != fold_down(step, s, j + 1, hi).unwrap().1[v]
}

/// Placing chosen entries reads only those that it places.
proof fn lemma_chosen_alike(c: Seq<ThreadCache>, e: Seq<ThreadCache>, sa: Seq<i32>, lo: int, hi: int)
    requires
        0 <= lo,
        hi <= c.len(),
        c.len() == e.len(),
        forall|x: int| lo <= x < hi ==> #[trigger] c[x] == e[x],
    ensures
        place_chosen_run(c, sa, lo, hi) == place_chosen_run(e, sa, lo, hi),
    decreases hi - lo,
{
    if lo < hi {
        lemma_chosen_alike(c, e, sa, lo, hi - 1);
        assert(c[hi - 1] == e[hi - 1]);
    }
}

/// Placing a list of the entries whose symbols name a slot places the chosen entries.
proof fn lemma_listed_placed(c: Seq<ThreadCache>, e: Seq<ThreadCache>, sa: Seq<i32>, lo: int, hi: int)
    requires
        0 <= lo <= hi <= c.len(),
        lo + slotted(c, lo, hi).len() <= e.len(),
        forall|k: int| 0 <= k < slotted(c, lo, hi).len() ==> #[trigger] e[lo + k] == slotted(c, lo, hi)[k],
    ensures
        place_cached_run(e, sa, lo, lo + slotted(c, lo, hi).len()) == place_chosen_run(c, sa, lo, hi),
    decreases hi - lo,
{
    if lo < hi {
        let list = slotted(c, lo, hi);
        let rest = slotted(c, lo, hi - 1);
        assert forall|k: int| 0 <= k < rest.len() implies #[trigger] e[lo + k] == rest[k] by {
            assert(e[lo + k] == list[k]);
        }
        lemma_listed_placed(c, e, sa, lo, hi - 1);
        if c[hi - 1].symbol >= 0 {
            assert(e[lo + rest.len()] == list[rest.len() as int]);
        }
    }
}

/// Packing and placing a block places its chosen entries.
proof fn lemma_packed_chosen(c: Seq<ThreadCache>, sa: Seq<i32>, lo: int, size: int)
    requires
        0 <= lo,
        0 <= size,
        lo + size <= c.len() <= usize::MAX,
        compact_and_place_run(sa, c, lo, size) is Some,
    ensures
        place_chosen_run(c, sa, lo, lo + size) == Some(compact_and_place_run(sa, c, lo, size).unwrap().0),
{
    law_cache_packed(c, lo, lo + size);
    let y = compact_cached_run((c, lo as usize), lo, lo + size).unwrap();
    let list = slotted(c, lo, lo + size);
    assert forall|k: int| 0 <= k < list.len() implies #[trigger] y.0[lo + k] == list[k] by {
        assert(y.0.subrange(lo, y.1 as int)[k] == list[k]);
    }
    lemma_listed_placed(c, y.0, sa, lo, lo + size);
}

/// What a scan upward with one counter for each symbol leaves of an entry that it has read.
spec fn read_left_1k(p: i32) -> i32 {
    if p <= 0 {
        unmarked(p)
    } else {
        0
    }
}

/// Whether a cache entry stands for the array entry `p` of a scan upward with one counter for each symbol.
spec fn stands_left_1k(t: Seq<i32>, e: ThreadCache, p: i32) -> bool {
    if p <= 0 {
        e.symbol < 0
    } else {
        induced(t, p as int, Side::Below) == Some(e)
    }
}

/// The array with the entries from `lo` up to `hi` as a scan upward with one counter for each symbol leaves them.
spec fn seen_left_1k(s: Seq<i32>, lo: int, hi: int) -> Seq<i32> {
    Seq::new(s.len(), |q: int| if lo <= q < hi { read_left_1k(s[q]) } else { s[q] })
}

/// Gathering a block leaves an entry for each slot.
proof fn lemma_left_1k_gathered(t: Seq<i32>, sa: Seq<i32>, start: int, c: Seq<ThreadCache>, hi: int)
    requires
        0 <= start <= hi,
        gather_left_1k_run(t, 0, (sa, c), start, hi) is Some,
    ensures
        ({
            let g = gather_left_1k_run(t, 0, (sa, c), start, hi).unwrap();
            &&& g.1.len() == c.len()
            &&& start < hi ==> hi <= sa.len() && hi <= c.len()
            &&& g.0 == seen_left_1k(sa, start, hi)
            &&& forall|q: int| start <= q < hi ==> stands_left_1k(t, #[trigger] g.1[q], sa[q])
            &&& forall|q: int| 0 <= q < c.len() && !(start <= q < hi) ==> #[trigger] g.1[q] == c[q]
        }),
    decreases hi - start,
{
    let step = gather_left_1k_step(t, 0);
    if start < hi {
        lemma_left_1k_gathered(t, sa, start, c, hi - 1);
        let y = gather_left_1k_run(t, 0, (sa, c), start, hi - 1).unwrap();
        let g = gather_left_1k_run(t, 0, (sa, c), start, hi).unwrap();
        assert(fold_up(step, (sa, c), start, hi) == step(y, hi - 1));
        assert(y.0[hi - 1] == sa[hi - 1]);
        assert(g.0 =~= seen_left_1k(sa, start, hi));
    } else {
        assert(sa =~= seen_left_1k(sa, start, hi));
    }
}

/// Sorting a gathered block goes along with the direct scan: the counters are the same, the
/// entries ahead stand for the slots of the array, and placing the entries behind gives the array
/// as the scan will leave it where it reads.
#[verifier::spinoff_prover]
proof fn lemma_left_1k_along(t: Seq<i32>, sa: Seq<i32>, b: Seq<i32>, g: Seq<ThreadCache>, start: int, edge: int, i: int)
    requires
        0 <= start <= i <= edge <= i32::MAX,
        edge <= sa.len(),
        edge <= g.len(),
        forall|q: int| start <= q < edge ==> stands_left_1k(t, #[trigger] g[q], sa[q]),
        sort_left_1k_run(t, 0, edge, (b, g), start, i) is Some,
        fold_up(partial_sorting_scan_left_to_right_32s_1k_step(t), (sa, b), start, i) is Some,
        forall|j: int, v: int| start <= j < i && 0 <= v < b.len() ==> {
            ||| #[trigger] fold_up(partial_sorting_scan_left_to_right_32s_1k_step(t), (sa, b), start, j).unwrap().1[v] > j
                && fold_up(partial_sorting_scan_left_to_right_32s_1k_step(t), (sa, b), start, j).unwrap().0[
                    fold_up(partial_sorting_scan_left_to_right_32s_1k_step(t), (sa, b), start, j).unwrap().1[v] as int] <= 0
            ||| fold_up(partial_sorting_scan_left_to_right_32s_1k_step(t), (sa, b), start, j + 1).unwrap().1[v]
                == fold_up(partial_sorting_scan_left_to_right_32s_1k_step(t), (sa, b), start, j).unwrap().1[v]
        },
    ensures
        ({
            let s = fold_up(partial_sorting_scan_left_to_right_32s_1k_step(t), (sa, b), start, i).unwrap();
            let x = sort_left_1k_run(t, 0, edge, (b, g), start, i).unwrap();
            &&& s.0.len() == sa.len()
            &&& s.1.len() == b.len()
            &&& x.1.len() == g.len()
            &&& x.0 == s.1
            &&& forall|q: int| i <= q < edge ==> stands_left_1k(t, #[trigger] x.1[q], s.0[q])
            &&& place_chosen_run(x.1, seen_left_1k(sa, start, edge), start, i) == Some(seen_left_1k(s.0, i, edge))
        }),
    decreases i - start,
{
    let front = seen_left_1k(sa, start, edge);
    if start < i {
        let j = i - 1;
        let direct = partial_sorting_scan_left_to_right_32s_1k_step(t);
        let sort = sort_left_1k_step(t, 0, edge);
        lemma_fold_up_prefix(direct, (sa, b), start, j, i);
        lemma_fold_up_prefix(sort, (b, g), start, j, i);
        lemma_left_1k_along(t, sa, b, g, start, edge, j);
        let s = fold_up(direct, (sa, b), start, j).unwrap();
        let x = fold_up(sort, (b, g), start, j).unwrap();
        let s2 = fold_up(direct, (sa, b), start, i).unwrap();
        let x2 = fold_up(sort, (b, g), start, i).unwrap();
        assert(Some(s2) == direct(s, j));
        assert(Some(x2) == sort(x, j));
        assert(stands_left_1k(t, x.1[j], s.0[j]));
        let p = s.0[j];
        if p > 0 {
            let v = x.1[j].symbol as int;
            assert(v == t[p - 1]);
            let target = s.1[v] as int;
            assert(s2.1[v] == target + 1);
            assert(j < target && s.0[target] <= 0);
            assert(x2.1[j].symbol == target);
            assert(x2.0 =~= s2.1);
            assert forall|q: int| i <= q < edge implies stands_left_1k(t, #[trigger] x2.1[q], s2.0[q]) by {
                assert(stands_left_1k(t, x.1[q], s.0[q]));
            }
            lemma_chosen_alike(x.1, x2.1, front, start, j);
            assert(place_chosen_run(x2.1, front, start, i) == place_chosen_step(x2.1)(seen_left_1k(s.0, j, edge), j));
            assert(seen_left_1k(s.0, j, edge).update(target, x2.1[j].index) =~= seen_left_1k(s2.0, i, edge));
        } else {
            assert(x2 == x);
            assert forall|q: int| i <= q < edge implies stands_left_1k(t, #[trigger] x2.1[q], s2.0[q]) by {
                assert(stands_left_1k(t, x.1[q], s.0[q]));
            }
            assert(place_chosen_run(x2.1, front, start, i) == place_chosen_step(x2.1)(seen_left_1k(s.0, j, edge), j));
            assert(seen_left_1k(s.0, j, edge) =~= seen_left_1k(s2.0, i, edge));
        }
    } else {
        assert(front =~= seen_left_1k(sa, i, edge));
    }
}

/// Scanning a block upward through the cache, with one counter for each symbol, leaves the array and the counters of the
/// direct scan, where every head that the direct scan moves is ahead of it and at a slot without
/// a suffix to read.
pub proof fn law_cached_left_1k(t: Seq<i32>, sa: Seq<i32>, b: Seq<i32>, cache: Seq<ThreadCache>, start: int, size: int)
    requires
        cache.len() <= usize::MAX,
        cached_left_1k(t, sa, b, cache, start, size) is Some,
        partial_sorting_scan_left_to_right_32s_1k_run(t, (sa, b), start, size) is Some,
        forall|j: int, v: int| start <= j < start + size && 0 <= v < b.len() ==> {
            ||| #[trigger] fold_up(partial_sorting_scan_left_to_right_32s_1k_step(t), (sa, b), start, j).unwrap().1[v] > j
                && fold_up(partial_sorting_scan_left_to_right_32s_1k_step(t), (sa, b), start, j).unwrap().0[
                    fold_up(partial_sorting_scan_left_to_right_32s_1k_step(t), (sa, b), start, j).unwrap().1[v] as int] <= 0
            ||| fold_up(partial_sorting_scan_left_to_right_32s_1k_step(t), (sa, b), start, j + 1).unwrap().1[v]
                == fold_up(partial_sorting_scan_left_to_right_32s_1k_step(t), (sa, b), start, j).unwrap().1[v]
        },
    ensures
        ({
            let x = cached_left_1k(t, sa, b, cache, start, size).unwrap();
            &&& partial_sorting_scan_left_to_right_32s_1k_run(t, (sa, b), start, size) == Some((x.0, x.1))
            &&& x.2.len() == cache.len()
        }),
{
    let edge = start + size;
    lemma_left_1k_gathered(t, sa, start, cache, edge);
    let g = gather_left_1k_run(t, 0, (sa, cache), start, edge).unwrap();
    if size > 0 {
        lemma_left_1k_along(t, sa, b, g.1, start, edge, edge);
        let s = partial_sorting_scan_left_to_right_32s_1k_run(t, (sa, b), start, size).unwrap();
        let x = sort_left_1k_run(t, 0, edge, (b, g.1), start, edge).unwrap();
        lemma_packed_chosen(x.1, g.0, start, size);
        law_cache_packed(x.1, start, edge);
        assert(seen_left_1k(s.0, edge, edge) =~= s.0);
    } else {
        assert(seen_left_1k(sa, start, edge) =~= sa);
        lemma_packed_chosen(cache, g.0, start, size);
        law_cache_packed(cache, start, edge);
    }
}

/// What a scan upward that ends in sorted order leaves of an entry that it has read.
spec fn read_left_final(p: i32) -> i32 {
    flipped(p)
}

/// Whether a cache entry stands for the array entry `p` of a scan upward that ends in sorted order.
spec fn stands_left_final(t: Seq<i32>, e: ThreadCache, p: i32) -> bool {
    if p <= 0 {
        e.symbol < 0
    } else {
        finally_induced(t, p as int, false) == Some(e)
    }
}

/// The array with the entries from `lo` up to `hi` as a scan upward that ends in sorted order leaves them.
spec fn seen_left_final(s: Seq<i32>, lo: int, hi: int) -> Seq<i32> {
    Seq::new(s.len(), |q: int| if lo <= q < hi { read_left_final(s[q]) } else { s[q] })
}

/// Gathering a block leaves an entry for each slot.
proof fn lemma_left_final_gathered(t: Seq<i32>, sa: Seq<i32>, start: int, c: Seq<ThreadCache>, hi: int)
    requires
        0 <= start <= hi,
        gather_final_left_run(t, 0, (sa, c), start, hi) is Some,
    ensures
        ({
            let g = gather_final_left_run(t, 0, (sa, c), start, hi).unwrap();
            &&& g.1.len() == c.len()
            &&& start < hi ==> hi <= sa.len() && hi <= c.len()
            &&& g.0 == seen_left_final(sa, start, hi)
            &&& forall|q: int| start <= q < hi ==> stands_left_final(t, #[trigger] g.1[q], sa[q])
            &&& forall|q: int| 0 <= q < c.len() && !(start <= q < hi) ==> #[trigger] g.1[q] == c[q]
        }),
    decreases hi - start,
{
    let step = gather_final_left_step(t, 0);
    if start < hi {
        lemma_left_final_gathered(t, sa, start, c, hi - 1);
        let y = gather_final_left_run(t, 0, (sa, c), start, hi - 1).unwrap();
        let g = gather_final_left_run(t, 0, (sa, c), start, hi).unwrap();
        assert(fold_up(step, (sa, c), start, hi) == step(y, hi - 1));
        assert(y.0[hi - 1] == sa[hi - 1]);
        assert(g.0 =~= seen_left_final(sa, start, hi));
    } else {
        assert(sa =~= seen_left_final(sa, start, hi));
    }
}

/// Sorting a gathered block goes along with the direct scan: the counters are the same, the
/// entries ahead stand for the slots of the array, and placing the entries behind gives the array
/// as the scan will leave it where it reads.
#[verifier::spinoff_prover]
proof fn lemma_left_final_along(t: Seq<i32>, sa: Seq<i32>, b: Seq<i32>, g: Seq<ThreadCache>, start: int, edge: int, i: int)
    requires
        0 <= start <= i <= edge <= i32::MAX,
        edge <= sa.len(),
        edge <= g.len(),
        forall|q: int| start <= q < edge ==> stands_left_final(t, #[trigger] g[q], sa[q]),
        sort_final_left_run(t, 0, edge, (b, g), start, i) is Some,
        fold_up(final_sorting_scan_left_to_right_32s_step(t), (sa, b), start, i) is Some,
        forall|j: int, v: int| start <= j < i && 0 <= v < b.len() ==> {
            ||| #[trigger] fold_up(final_sorting_scan_left_to_right_32s_step(t), (sa, b), start, j).unwrap().1[v] > j
                && fold_up(final_sorting_scan_left_to_right_32s_step(t), (sa, b), start, j).unwrap().0[
                    fold_up(final_sorting_scan_left_to_right_32s_step(t), (sa, b), start, j).unwrap().1[v] as int] <= 0
            ||| fold_up(final_sorting_scan_left_to_right_32s_step(t), (sa, b), start, j + 1).unwrap().1[v]
                == fold_up(final_sorting_scan_left_to_right_32s_step(t), (sa, b), start, j).unwrap().1[v]
        },
    ensures
        ({
            let s = fold_up(final_sorting_scan_left_to_right_32s_step(t), (sa, b), start, i).unwrap();
            let x = sort_final_left_run(t, 0, edge, (b, g), start, i).unwrap();
            &&& s.0.len() == sa.len()
            &&& s.1.len() == b.len()
            &&& x.1.len() == g.len()
            &&& x.0 == s.1
            &&& forall|q: int| i <= q < edge ==> stands_left_final(t, #[trigger] x.1[q], s.0[q])
            &&& place_chosen_run(x.1, seen_left_final(sa, start, edge), start, i) == Some(seen_left_final(s.0, i, edge))
        }),
    decreases i - start,
{
    let front = seen_left_final(sa, start, edge);
    if start < i {
        let j = i - 1;
        let direct = final_sorting_scan_left_to_right_32s_step(t);
        let sort = sort_final_left_step(t, 0, edge);
        lemma_fold_up_prefix(direct, (sa, b), start, j, i);
        lemma_fold_up_prefix(sort, (b, g), start, j, i);
        lemma_left_final_along(t, sa, b, g, start, edge, j);
        let s = fold_up(direct, (sa, b), start, j).unwrap();
        let x = fold_up(sort, (b, g), start, j).unwrap();
        let s2 = fold_up(direct, (sa, b), start, i).unwrap();
        let x2 = fold_up(sort, (b, g), start, i).unwrap();
        assert(Some(s2) == direct(s, j));
        assert(Some(x2) == sort(x, j));
        assert(stands_left_final(t, x.1[j], s.0[j]));
        let p = s.0[j];
        if p > 0 {
            let v = x.1[j].symbol as int;
            assert(v == t[p - 1]);
            let target = s.1[v] as int;
            assert(s2.1[v] == target + 1);
            assert(j < target && s.0[target] <= 0);
            assert(x2.1[j].symbol == target);
            assert(x2.0 =~= s2.1);
            assert forall|q: int| i <= q < edge implies stands_left_final(t, #[trigger] x2.1[q], s2.0[q]) by {
                assert(stands_left_final(t, x.1[q], s.0[q]));
            }
            lemma_chosen_alike(x.1, x2.1, front, start, j);
            assert(place_chosen_run(x2.1, front, start, i) == place_chosen_step(x2.1)(seen_left_final(s.0, j, edge), j));
            assert(seen_left_final(s.0, j, edge).update(target, x2.1[j].index) =~= seen_left_final(s2.0, i, edge));
        } else {
            assert(x2 == x);
            assert forall|q: int| i <= q < edge implies stands_left_final(t, #[trigger] x2.1[q], s2.0[q]) by {
                assert(stands_left_final(t, x.1[q], s.0[q]));
            }
            assert(place_chosen_run(x2.1, front, start, i) == place_chosen_step(x2.1)(seen_left_final(s.0, j, edge), j));
            assert(seen_left_final(s.0, j, edge) =~= seen_left_final(s2.0, i, edge));
        }
    } else {
        assert(front =~= seen_left_final(sa, i, edge));
    }
}

/// Scanning a block upward through the cache, in a scan that ends in sorted order, leaves the array and the counters of the
/// direct scan, where every head that the direct scan moves is ahead of it and at a slot without
/// a suffix to read.
pub proof fn law_cached_left_final(t: Seq<i32>, sa: Seq<i32>, b: Seq<i32>, cache: Seq<ThreadCache>, start: int, size: int)
    requires
        cache.len() <= usize::MAX,
        cached_final_left(t, sa, b, cache, start, size) is Some,
        final_sorting_scan_left_to_right_32s_run(t, (sa, b), start, size) is Some,
        forall|j: int, v: int| start <= j < start + size && 0 <= v < b.len() ==> {
            ||| #[trigger] fold_up(final_sorting_scan_left_to_right_32s_step(t), (sa, b), start, j).unwrap().1[v] > j
                && fold_up(final_sorting_scan_left_to_right_32s_step(t), (sa, b), start, j).unwrap().0[
                    fold_up(final_sorting_scan_left_to_right_32s_step(t), (sa, b), start, j).unwrap().1[v] as int] <= 0
            ||| fold_up(final_sorting_scan_left_to_right_32s_step(t), (sa, b), start, j + 1).unwrap().1[v]
                == fold_up(final_sorting_scan_left_to_right_32s_step(t), (sa, b), start, j).unwrap().1[v]
        },
    ensures
        ({
            let x = cached_final_left(t, sa, b, cache, start, size).unwrap();
            &&& final_sorting_scan_left_to_right_32s_run(t, (sa, b), start, size) == Some((x.0, x.1))
            &&& x.2.len() == cache.len()
        }),
{
    let edge = start + size;
    lemma_left_final_gathered(t, sa, start, cache, edge);
    let g = gather_final_left_run(t, 0, (sa, cache), start, edge).unwrap();
    if size > 0 {
        lemma_left_final_along(t, sa, b, g.1, start, edge, edge);
        let s = final_sorting_scan_left_to_right_32s_run(t, (sa, b), start, size).unwrap();
        let x = sort_final_left_run(t, 0, edge, (b, g.1), start, edge).unwrap();
        lemma_packed_chosen(x.1, g.0, start, size);
        law_cache_packed(x.1, start, edge);
        assert(seen_left_final(s.0, edge, edge) =~= s.0);
    } else {
        assert(seen_left_final(sa, start, edge) =~= sa);
        lemma_packed_chosen(cache, g.0, start, size);
        law_cache_packed(cache, start, edge);
    }
}

/// What a scan upward with four counters for each symbol leaves of an entry that it has read.
spec fn read_left_4k(p: i32) -> i32 {
    if p <= 0 {
        unmarked(p)
    } else {
        0
    }
}

/// Whether a cache entry stands for the array entry `p` of a scan upward with four counters for
/// each symbol.
spec fn stands_left_4k(t: Seq<i32>, e: ThreadCache, p: i32) -> bool {
    if p <= 0 {
        e.symbol < 0
    } else {
        e.index == p && bucket_symbol(t, ungrouped(p) as int, Side::Below, 2) == Some(e.symbol)
    }
}

/// The array with the entries from `lo` up to `hi` as a scan upward with four counters for each
/// symbol leaves them.
spec fn seen_left_4k(s: Seq<i32>, lo: int, hi: int) -> Seq<i32> {
    Seq::new(s.len(), |q: int| if lo <= q < hi { read_left_4k(s[q]) } else { s[q] })
}

/// Gathering a block leaves an entry for each slot.
proof fn lemma_left_4k_gathered(t: Seq<i32>, sa: Seq<i32>, start: int, c: Seq<ThreadCache>, hi: int)
    requires
        0 <= start <= hi,
        gather_left_4k_run(t, start, (sa, c), start, hi) is Some,
    ensures
        ({
            let g = gather_left_4k_run(t, start, (sa, c), start, hi).unwrap();
            &&& g.1.len() == c.len()
            &&& start < hi ==> hi <= sa.len() && hi <= start + c.len()
            &&& g.0 == seen_left_4k(sa, start, hi)
            &&& forall|x: int| 0 <= x < hi - start ==> stands_left_4k(t, #[trigger] g.1[x], sa[start + x])
        }),
    decreases hi - start,
{
    let step = gather_left_4k_step(t, start);
    if start < hi {
        lemma_left_4k_gathered(t, sa, start, c, hi - 1);
        let y = gather_left_4k_run(t, start, (sa, c), start, hi - 1).unwrap();
        let g = gather_left_4k_run(t, start, (sa, c), start, hi).unwrap();
        assert(fold_up(step, (sa, c), start, hi) == step(y, hi - 1));
        assert(y.0[hi - 1] == sa[hi - 1]);
        assert(g.0 =~= seen_left_4k(sa, start, hi));
    } else {
        assert(sa =~= seen_left_4k(sa, start, hi));
    }
}

/// Sorting a gathered block goes along with the direct scan: the counters are the same, the
/// entries ahead stand for the slots of the array, and placing the entries behind gives the array
/// as the scan will leave it where it reads.
#[verifier::spinoff_prover]
proof fn lemma_left_4k_along(t: Seq<i32>, k: int, sa: Seq<i32>, b: Seq<i32>, d: i32, g: Seq<ThreadCache>, start: int, i: int)
    requires
        0 <= start <= i <= start + g.len() <= i32::MAX,
        start + g.len() <= sa.len(),
        forall|x: int| 0 <= x < g.len() ==> stands_left_4k(t, #[trigger] g[x], sa[start + x]),
        forall|w: int| 0 <= w < b.len() && w < 2 * k ==> #[trigger] b[w] <= d,
        sort_left_4k_run(t, k, start, start, start + g.len(), (b, d, g), start, i) is Some,
        fold_up(partial_sorting_scan_left_to_right_32s_4k_step(t, k), (sa, b, d), start, i) is Some,
        forall|j: int, v: int| start <= j < i && 0 <= v < b.len() && 2 * k <= v ==> {
            ||| #[trigger] fold_up(partial_sorting_scan_left_to_right_32s_4k_step(t, k), (sa, b, d), start, j).unwrap().1[v] > j
                && fold_up(partial_sorting_scan_left_to_right_32s_4k_step(t, k), (sa, b, d), start, j).unwrap().0[
                    fold_up(partial_sorting_scan_left_to_right_32s_4k_step(t, k), (sa, b, d), start, j).unwrap().1[v] as int] <= 0
            ||| fold_up(partial_sorting_scan_left_to_right_32s_4k_step(t, k), (sa, b, d), start, j + 1).unwrap().1[v]
                == fold_up(partial_sorting_scan_left_to_right_32s_4k_step(t, k), (sa, b, d), start, j).unwrap().1[v]
        },
    ensures
        ({
            let edge = start + g.len();
            let s = fold_up(partial_sorting_scan_left_to_right_32s_4k_step(t, k), (sa, b, d), start, i).unwrap();
            let x = sort_left_4k_run(t, k, start, start, edge, (b, d, g), start, i).unwrap();
            &&& s.0.len() == sa.len()
            &&& s.1.len() == b.len()
            &&& x.2.len() == g.len()
            &&& x.0 == s.1
            &&& x.1 == s.2
            &&& forall|w: int| 0 <= w < b.len() && w < 2 * k ==> #[trigger] s.1[w] <= s.2
            &&& forall|y: int| i - start <= y < g.len() ==> stands_left_4k(t, #[trigger] x.2[y], s.0[start + y])
            &&& place_chosen_run(x.2, seen_left_4k(sa, start, edge), 0, i - start) == Some(seen_left_4k(s.0, i, edge))
        }),
    decreases i - start,
{
    let edge = start + g.len();
    let front = seen_left_4k(sa, start, edge);
    if start < i {
        let j = i - 1;
        let direct = partial_sorting_scan_left_to_right_32s_4k_step(t, k);
        let sort = sort_left_4k_step(t, k, start, start, edge);
        lemma_fold_up_prefix(direct, (sa, b, d), start, j, i);
        lemma_fold_up_prefix(sort, (b, d, g), start, j, i);
        lemma_left_4k_along(t, k, sa, b, d, g, start, j);
        let s = fold_up(direct, (sa, b, d), start, j).unwrap();
        let x = fold_up(sort, (b, d, g), start, j).unwrap();
        let s2 = fold_up(direct, (sa, b, d), start, i).unwrap();
        let x2 = fold_up(sort, (b, d, g), start, i).unwrap();
        assert(Some(s2) == direct(s, j));
        assert(Some(x2) == sort(x, j));
        assert(stands_left_4k(t, x.2[j - start], s.0[start + (j - start)]));
        let p = s.0[j];
        if p > 0 {
            let q = ungrouped(p) as int;
            let v = x.2[j - start].symbol as int;
            let c = t[q - 1] as int;
            assert(v / 2 == c && 0 <= v < 2 * k);
            assert(s.1[v] <= s.2);
            let u = 2 * k + c;
            let target = s.1[u] as int;
            assert(s2.1[u] == target + 1);
            assert(j < target && s.0[target] <= 0);
            let y = s2.0[target];
            assert(x2.2[j - start].symbol == target);
            assert(x2.0 =~= s2.1);
            assert forall|z: int| i - start <= z < g.len() implies stands_left_4k(t, #[trigger] x2.2[z], s2.0[start + z]) by {
                assert(stands_left_4k(t, x.2[z], s.0[start + z]));
            }
            lemma_chosen_alike(x.2, x2.2, front, 0, j - start);
            assert(place_chosen_run(x2.2, front, 0, i - start) == place_chosen_step(x2.2)(seen_left_4k(s.0, j, edge), j - start));
            assert(seen_left_4k(s.0, j, edge).update(target, x2.2[j - start].index) =~= seen_left_4k(s2.0, i, edge));
        } else {
            assert(x2 == x);
            assert forall|z: int| i - start <= z < g.len() implies stands_left_4k(t, #[trigger] x2.2[z], s2.0[start + z]) by {
                assert(stands_left_4k(t, x.2[z], s.0[start + z]));
            }
            assert(place_chosen_run(x2.2, front, 0, i - start) == place_chosen_step(x2.2)(seen_left_4k(s.0, j, edge), j - start));
            assert(seen_left_4k(s.0, j, edge) =~= seen_left_4k(s2.0, i, edge));
        }
    } else {
        assert(front =~= seen_left_4k(sa, i, edge));
    }
}

/// Scanning a block upward through the cache, with four counters for each symbol, leaves the
/// array, the counters and the name of the direct scan, where every head that the direct scan
/// moves is ahead of it and at a slot without a suffix to read, and no counter holds a later name
/// than the last.
pub proof fn law_cached_left_4k(t: Seq<i32>, k: int, sa: Seq<i32>, b: Seq<i32>, d: i32, cache: Seq<ThreadCache>, start: int, size: int)
    requires
        cached_left_4k(t, k, sa, b, d, cache, start, size) is Some,
        partial_sorting_scan_left_to_right_32s_4k_run(t, k, (sa, b, d), start, size) is Some,
        forall|w: int| 0 <= w < b.len() && w < 2 * k ==> #[trigger] b[w] <= d,
        forall|j: int, v: int| start <= j < start + size && 0 <= v < b.len() && 2 * k <= v ==> {
            ||| #[trigger] fold_up(partial_sorting_scan_left_to_right_32s_4k_step(t, k), (sa, b, d), start, j).unwrap().1[v] > j
                && fold_up(partial_sorting_scan_left_to_right_32s_4k_step(t, k), (sa, b, d), start, j).unwrap().0[
                    fold_up(partial_sorting_scan_left_to_right_32s_4k_step(t, k), (sa, b, d), start, j).unwrap().1[v] as int] <= 0
            ||| fold_up(partial_sorting_scan_left_to_right_32s_4k_step(t, k), (sa, b, d), start, j + 1).unwrap().1[v]
                == fold_up(partial_sorting_scan_left_to_right_32s_4k_step(t, k), (sa, b, d), start, j).unwrap().1[v]
        },
    ensures
        ({
            let x = cached_left_4k(t, k, sa, b, d, cache, start, size).unwrap();
            &&& partial_sorting_scan_left_to_right_32s_4k_run(t, k, (sa, b, d), start, size) == Some((x.0, x.1, x.2))
            &&& x.3.len() == cache.len()
            &&& forall|y: int| size <= y < cache.len() ==> #[trigger] x.3[y] == cache[y]
        }),
{
    let edge = start + size;
    let c = cache.subrange(0, size);
    lemma_left_4k_gathered(t, sa, start, c, edge);
    let g = gather_left_4k_run(t, start, (sa, c), start, edge).unwrap();
    let s = partial_sorting_scan_left_to_right_32s_4k_run(t, k, (sa, b, d), start, size).unwrap();
    if size > 0 {
        lemma_left_4k_along(t, k, sa, b, d, g.1, start, edge);
        assert(seen_left_4k(s.0, edge, edge) =~= s.0);
    } else {
        assert(seen_left_4k(sa, start, edge) =~= sa);
    }
}

/// What a scan downward with one counter for each symbol leaves of an entry that it has read.
spec fn read_right_1k(p: i32) -> i32 {
    if p <= 0 {
        p
    } else {
        0
    }
}

/// Whether a cache entry stands for the array entry `p` of a scan downward with one counter for each symbol.
spec fn stands_right_1k(t: Seq<i32>, e: ThreadCache, p: i32) -> bool {
    if p <= 0 {
        e.symbol < 0
    } else {
        induced(t, p as int, Side::Above) == Some(e)
    }
}

/// The array with the entries from `lo` up to `hi` as a scan downward with one counter for each symbol leaves them.
spec fn seen_right_1k(s: Seq<i32>, lo: int, hi: int) -> Seq<i32> {
    Seq::new(s.len(), |q: int| if lo <= q < hi { read_right_1k(s[q]) } else { s[q] })
}

/// Gathering a block leaves an entry for each slot.
proof fn lemma_right_1k_gathered(t: Seq<i32>, sa: Seq<i32>, start: int, c: Seq<ThreadCache>, hi: int)
    requires
        0 <= start <= hi,
        gather_right_1k_run(t, start, (sa, c), start, hi) is Some,
    ensures
        ({
            let g = gather_right_1k_run(t, start, (sa, c), start, hi).unwrap();
            &&& g.1.len() == c.len()
            &&& start < hi ==> hi <= sa.len() && hi - start <= c.len()
            &&& g.0 == seen_right_1k(sa, start, hi)
            &&& forall|y: int| start - start <= y < hi - start ==> stands_right_1k(t, #[trigger] g.1[y], sa[start + y])
        }),
    decreases hi - start,
{
    let step = gather_right_1k_step(t, start);
    if start < hi {
        lemma_right_1k_gathered(t, sa, start, c, hi - 1);
        let y = gather_right_1k_run(t, start, (sa, c), start, hi - 1).unwrap();
        let g = gather_right_1k_run(t, start, (sa, c), start, hi).unwrap();
        assert(fold_up(step, (sa, c), start, hi) == step(y, hi - 1));
        assert(y.0[hi - 1] == sa[hi - 1]);
        assert(g.0 =~= seen_right_1k(sa, start, hi));
    } else {
        assert(sa =~= seen_right_1k(sa, start, hi));
    }
}

/// Sorting a gathered block goes along with the direct scan: the counters are the same, the
/// entries ahead stand for the slots of the array, and the entries behind name what the scan has
/// written, each slot once.
#[verifier::spinoff_prover]
#[verifier::rlimit(40)]
proof fn lemma_right_1k_along(t: Seq<i32>, sa: Seq<i32>, b: Seq<i32>, g: Seq<ThreadCache>, start: int, hi: int, i: int)
    requires
        0 <= start <= i <= hi <= i32::MAX,
        hi <= sa.len(),
        hi - start <= g.len(),
        forall|y: int| start - start <= y < hi - start ==> stands_right_1k(t, #[trigger] g[y], sa[start + y]),
        sort_right_1k_run(t, start, start, (b, g), i, hi) is Some,
        fold_down(partial_sorting_scan_right_to_left_32s_1k_step(t), (sa, b), i, hi) is Some,
        forall|j: int, v: int| i <= j < hi && 0 <= v < b.len()
            && #[trigger] head_moved(partial_sorting_scan_right_to_left_32s_1k_step(t), (sa, b), hi, j, v)
            ==> fold_down(partial_sorting_scan_right_to_left_32s_1k_step(t), (sa, b), j, hi).unwrap().1[v] < j
            && fold_down(partial_sorting_scan_right_to_left_32s_1k_step(t), (sa, b), j + 1, hi).unwrap().0[fold_down(partial_sorting_scan_right_to_left_32s_1k_step(t), (sa, b), j, hi).unwrap().1[v] as int] <= 0,
        forall|j: int, v: int, l: int, w: int| i <= j < l < hi && 0 <= v < b.len() && 0 <= w < b.len()
            && #[trigger] head_moved(partial_sorting_scan_right_to_left_32s_1k_step(t), (sa, b), hi, j, v)
                && #[trigger] head_moved(partial_sorting_scan_right_to_left_32s_1k_step(t), (sa, b), hi, l, w)
                ==> fold_down(partial_sorting_scan_right_to_left_32s_1k_step(t), (sa, b), j, hi).unwrap().1[v]
                != fold_down(partial_sorting_scan_right_to_left_32s_1k_step(t), (sa, b), l, hi).unwrap().1[w],
    ensures
        ({
            let s = fold_down(partial_sorting_scan_right_to_left_32s_1k_step(t), (sa, b), i, hi).unwrap();
            let x = sort_right_1k_run(t, start, start, (b, g), i, hi).unwrap();
            let seen = seen_right_1k(s.0, start, i);
            &&& s.0.len() == sa.len()
            &&& s.1.len() == b.len()
            &&& x.1.len() == g.len()
            &&& x.0 == s.1
            &&& forall|y: int| start - start <= y < i - start ==> stands_right_1k(t, #[trigger] x.1[y], s.0[start + y])
            &&& forall|y: int| i - start <= y < hi - start && (#[trigger] x.1[y]).symbol >= 0 ==> x.1[y].symbol < sa.len()
                && seen[x.1[y].symbol as int] == x.1[y].index
            &&& forall|y: int| i - start <= y < hi - start && (#[trigger] x.1[y]).symbol >= 0 ==> exists|v: int| 0 <= v < b.len()
                && #[trigger] head_moved(partial_sorting_scan_right_to_left_32s_1k_step(t), (sa, b), hi, start + y, v)
                    && fold_down(partial_sorting_scan_right_to_left_32s_1k_step(t), (sa, b), start + y, hi).unwrap().1[v]
                    == x.1[y].symbol
            &&& forall|y: int, z: int| i - start <= y < z < hi - start && (#[trigger] x.1[y]).symbol >= 0
                ==> x.1[y].symbol != (#[trigger] x.1[z]).symbol
            &&& forall|p: int| 0 <= p < sa.len() && (forall|y: int| i - start <= y < hi - start ==> (#[trigger] x.1[y]).symbol != p)
                ==> #[trigger] seen[p] == seen_right_1k(sa, start, hi)[p]
        }),
    decreases hi - i,
{
    let direct = partial_sorting_scan_right_to_left_32s_1k_step(t);
    let front = seen_right_1k(sa, start, hi);
    if i < hi {
        let sort = sort_right_1k_step(t, start, start);
        lemma_fold_down_prefix(direct, (sa, b), i, i + 1, hi);
        lemma_fold_down_prefix(sort, (b, g), i, i + 1, hi);
        lemma_right_1k_along(t, sa, b, g, start, hi, i + 1);
        let s = fold_down(direct, (sa, b), i + 1, hi).unwrap();
        let x = fold_down(sort, (b, g), i + 1, hi).unwrap();
        let s2 = fold_down(direct, (sa, b), i, hi).unwrap();
        let x2 = fold_down(sort, (b, g), i, hi).unwrap();
        assert(Some(s2) == direct(s, i));
        assert(Some(x2) == sort(x, i));
        let a = i - start;
        let seen = seen_right_1k(s.0, start, i + 1);
        let seen2 = seen_right_1k(s2.0, start, i);
        assert(stands_right_1k(t, x.1[a], s.0[start + a]));
        let p = s.0[i];
        if p > 0 {
            let u = x.1[i - start].symbol as int;
            assert(u == t[p - 1]);
            let target = s.1[u] - 1;
            assert(s2.1[u] == target);
            assert(head_moved(partial_sorting_scan_right_to_left_32s_1k_step(t), (sa, b), hi, i, u));
            assert(target < i && s.0[target] <= 0);
            assert(x2.1[a].symbol == target);
            assert(x2.0 =~= s2.1);
            assert(seen2 =~= seen.update(target, x2.1[a].index));
            assert forall|y: int| start - start <= y < i - start implies stands_right_1k(t, #[trigger] x2.1[y], s2.0[start + y]) by {
                assert(stands_right_1k(t, x.1[y], s.0[start + y]));
            }
            assert forall|y: int| a < y < hi - start implies #[trigger] x2.1[y] == x.1[y] && x.1[y].symbol != target by {
                if x.1[y].symbol >= 0 {
                    let w = choose|w: int| 0 <= w < b.len()
                        && #[trigger] head_moved(partial_sorting_scan_right_to_left_32s_1k_step(t), (sa, b), hi, start + y, w)
                            && fold_down(partial_sorting_scan_right_to_left_32s_1k_step(t), (sa, b), start + y, hi).unwrap().1[w]
                            == x.1[y].symbol;
                    assert(head_moved(partial_sorting_scan_right_to_left_32s_1k_step(t), (sa, b), hi, i, u)
                        && head_moved(partial_sorting_scan_right_to_left_32s_1k_step(t), (sa, b), hi, start + y, w));
                }
            }
            assert forall|y: int| a <= y < hi - start && (#[trigger] x2.1[y]).symbol >= 0 implies x2.1[y].symbol < sa.len()
                && seen2[x2.1[y].symbol as int] == x2.1[y].index by {
                if y > a {
                    assert(x2.1[y] == x.1[y]);
                }
            }
            assert forall|y: int| a <= y < hi - start && (#[trigger] x2.1[y]).symbol >= 0 implies exists|v: int| 0 <= v < b.len()
                && #[trigger] head_moved(partial_sorting_scan_right_to_left_32s_1k_step(t), (sa, b), hi, start + y, v)
                    && fold_down(partial_sorting_scan_right_to_left_32s_1k_step(t), (sa, b), start + y, hi).unwrap().1[v]
                    == x2.1[y].symbol by {
                if y > a {
                    assert(x2.1[y] == x.1[y]);
                } else {
                    assert(head_moved(partial_sorting_scan_right_to_left_32s_1k_step(t), (sa, b), hi, start + y, u));
                }
            }
            assert forall|y: int, z: int| a <= y < z < hi - start && (#[trigger] x2.1[y]).symbol >= 0
                implies x2.1[y].symbol != (#[trigger] x2.1[z]).symbol by {
                assert(x2.1[z] == x.1[z]);
                if y > a {
                    assert(x2.1[y] == x.1[y]);
                }
            }
            assert forall|r: int| 0 <= r < sa.len() && (forall|y: int| a <= y < hi - start ==> (#[trigger] x2.1[y]).symbol != r)
                implies #[trigger] seen2[r] == front[r] by {
                assert(x2.1[a].symbol != r);
                assert forall|y: int| i + 1 - start <= y < hi - start implies (#[trigger] x.1[y]).symbol != r by {
                    assert(x2.1[y] == x.1[y]);
                }
                assert(seen[r] == front[r]);
            }
        } else {
            assert(x2 == x);
            assert(seen2 =~= seen);
            assert forall|r: int| 0 <= r < sa.len() && (forall|y: int| a <= y < hi - start ==> (#[trigger] x2.1[y]).symbol != r)
                implies #[trigger] seen2[r] == front[r] by {
                assert forall|y: int| i + 1 - start <= y < hi - start implies (#[trigger] x.1[y]).symbol != r by {
                    assert(x2.1[y] == x.1[y]);
                }
                assert(seen[r] == front[r]);
            }
        }
    }
}

/// Scanning a block downward through the cache, with one counter for each symbol, leaves the array and the counters of the
/// direct scan, where every head that the direct scan moves goes to a slot that is ahead of it,
/// is its own and holds no suffix to read.
pub proof fn law_cached_right_1k(t: Seq<i32>, sa: Seq<i32>, b: Seq<i32>, cache: Seq<ThreadCache>, start: int, size: int)
    requires
        cache.len() <= usize::MAX,
        cached_right_1k(t, sa, b, cache, start, size) is Some,
        partial_sorting_scan_right_to_left_32s_1k_run(t, (sa, b), start, size) is Some,
        forall|j: int, v: int| start <= j < start + size && 0 <= v < b.len()
            && #[trigger] head_moved(partial_sorting_scan_right_to_left_32s_1k_step(t), (sa, b), start + size, j, v)
            ==> fold_down(partial_sorting_scan_right_to_left_32s_1k_step(t), (sa, b), j, start + size).unwrap().1[v] < j
            && fold_down(partial_sorting_scan_right_to_left_32s_1k_step(t), (sa, b), j + 1, start + size).unwrap().0[fold_down(partial_sorting_scan_right_to_left_32s_1k_step(t), (sa, b), j, start + size).unwrap().1[v] as int] <= 0,
        forall|j: int, v: int, l: int, w: int| start <= j < l < start + size && 0 <= v < b.len() && 0 <= w < b.len()
            && #[trigger] head_moved(partial_sorting_scan_right_to_left_32s_1k_step(t), (sa, b), start + size, j, v)
                && #[trigger] head_moved(partial_sorting_scan_right_to_left_32s_1k_step(t), (sa, b), start + size, l, w)
                ==> fold_down(partial_sorting_scan_right_to_left_32s_1k_step(t), (sa, b), j, start + size).unwrap().1[v]
                != fold_down(partial_sorting_scan_right_to_left_32s_1k_step(t), (sa, b), l, start + size).unwrap().1[w],
    ensures
        ({
            let x = cached_right_1k(t, sa, b, cache, start, size).unwrap();
            &&& partial_sorting_scan_right_to_left_32s_1k_run(t, (sa, b), start, size) == Some((x.0, x.1))
            &&& x.2.len() == cache.len()
        }),
{
    let hi = start + size;
    let c = cache;
    lemma_right_1k_gathered(t, sa, start, c, hi);
    let g = gather_right_1k_run(t, start, (sa, c), start, hi).unwrap();
    let s = partial_sorting_scan_right_to_left_32s_1k_run(t, (sa, b), start, size).unwrap();
    let y = cached_right_1k(t, sa, b, cache, start, size).unwrap();
    if size > 0 {
        lemma_right_1k_along(t, sa, b, g.1, start, hi, start);
        let x = sort_right_1k_run(t, start, start, (b, g.1), start, hi).unwrap();
        let all = x.1;
        let lo: int = 0;
        assert forall|a: int| lo <= a < lo + size implies #[trigger] all[a] == x.1[a] by {}
        assert forall|a: int, e: int| lo <= a < e < lo + size && (#[trigger] all[a]).symbol >= 0 implies all[a].symbol
            != (#[trigger] all[e]).symbol by {
            assert(all[a] == x.1[a] && all[e] == x.1[e]);
        }
        assert forall|a: int| lo <= a < lo + size implies (#[trigger] all[a]).symbol < sa.len() by {
            assert(all[a] == x.1[a]);
        }
        law_packed_and_placed(g.0, all, lo, size);
        law_cache_packed(all, lo, lo + size);
        let seen = seen_right_1k(s.0, start, start);
        assert(seen =~= s.0);
        assert forall|r: int| 0 <= r < sa.len() implies #[trigger] y.0[r] == s.0[r] by {
            if exists|a: int| lo <= a < lo + size && (#[trigger] all[a]).symbol == r {
                let a = choose|a: int| lo <= a < lo + size && (#[trigger] all[a]).symbol == r;
                assert(all[a] == x.1[a]);
                assert(seen[x.1[a].symbol as int] == x.1[a].index);
            } else {
                assert forall|a: int| lo <= a < lo + size implies (#[trigger] x.1[a]).symbol != r by {
                    assert(all[a] == x.1[a]);
                }
                assert(seen[r] == g.0[r]);
            }
        }
        assert(y.0 =~= s.0);
    } else {
        assert(seen_right_1k(sa, start, hi) =~= sa);
        law_packed_and_placed(g.0, c, 0, size);
        law_cache_packed(c, 0, 0 + size);
        assert(y.0 =~= sa);
    }
}

/// What a scan downward that ends in sorted order leaves of an entry that it has read.
spec fn read_right_final(p: i32) -> i32 {
    unmarked(p)
}

/// Whether a cache entry stands for the array entry `p` of a scan downward that ends in sorted order.
spec fn stands_right_final(t: Seq<i32>, e: ThreadCache, p: i32) -> bool {
    if p <= 0 {
        e.symbol < 0
    } else {
        finally_induced(t, p as int, true) == Some(e)
    }
}

/// The array with the entries from `lo` up to `hi` as a scan downward that ends in sorted order leaves them.
spec fn seen_right_final(s: Seq<i32>, lo: int, hi: int) -> Seq<i32> {
    Seq::new(s.len(), |q: int| if lo <= q < hi { read_right_final(s[q]) } else { s[q] })
}

/// Gathering a block leaves an entry for each slot.
proof fn lemma_right_final_gathered(t: Seq<i32>, sa: Seq<i32>, start: int, c: Seq<ThreadCache>, hi: int)
    requires
        0 <= start <= hi,
        gather_final_right_run(t, 0, (sa, c), start, hi) is Some,
    ensures
        ({
            let g = gather_final_right_run(t, 0, (sa, c), start, hi).unwrap();
            &&& g.1.len() == c.len()
            &&& start < hi ==> hi <= sa.len() && hi <= c.len()
            &&& g.0 == seen_right_final(sa, start, hi)
            &&& forall|y: int| start <= y < hi ==> stands_right_final(t, #[trigger] g.1[y], sa[y])
        }),
    decreases hi - start,
{
    let step = gather_final_right_step(t, 0);
    if start < hi {
        lemma_right_final_gathered(t, sa, start, c, hi - 1);
        let y = gather_final_right_run(t, 0, (sa, c), start, hi - 1).unwrap();
        let g = gather_final_right_run(t, 0, (sa, c), start, hi).unwrap();
        assert(fold_up(step, (sa, c), start, hi) == step(y, hi - 1));
        assert(y.0[hi - 1] == sa[hi - 1]);
        assert(g.0 =~= seen_right_final(sa, start, hi));
    } else {
        assert(sa =~= seen_right_final(sa, start, hi));
    }
}

/// Sorting a gathered block goes along with the direct scan: the counters are the same, the
/// entries ahead stand for the slots of the array, and the entries behind name what the scan has
/// written, each slot once.
#[verifier::spinoff_prover]
#[verifier::rlimit(40)]
proof fn lemma_right_final_along(t: Seq<i32>, sa: Seq<i32>, b: Seq<i32>, g: Seq<ThreadCache>, start: int, hi: int, i: int)
    requires
        0 <= start <= i <= hi <= i32::MAX,
        hi <= sa.len(),
        hi <= g.len(),
        forall|y: int| start <= y < hi ==> stands_right_final(t, #[trigger] g[y], sa[y]),
        sort_final_right_run(t, 0, start, (b, g), i, hi) is Some,
        fold_down(final_sorting_scan_right_to_left_32s_step(t), (sa, b), i, hi) is Some,
        forall|j: int, v: int| i <= j < hi && 0 <= v < b.len()
            && #[trigger] head_moved(final_sorting_scan_right_to_left_32s_step(t), (sa, b), hi, j, v)
            ==> fold_down(final_sorting_scan_right_to_left_32s_step(t), (sa, b), j, hi).unwrap().1[v] < j
            && fold_down(final_sorting_scan_right_to_left_32s_step(t), (sa, b), j + 1, hi).unwrap().0[fold_down(final_sorting_scan_right_to_left_32s_step(t), (sa, b), j, hi).unwrap().1[v] as int] <= 0,
        forall|j: int, v: int, l: int, w: int| i <= j < l < hi && 0 <= v < b.len() && 0 <= w < b.len()
            && #[trigger] head_moved(final_sorting_scan_right_to_left_32s_step(t), (sa, b), hi, j, v)
                && #[trigger] head_moved(final_sorting_scan_right_to_left_32s_step(t), (sa, b), hi, l, w)
                ==> fold_down(final_sorting_scan_right_to_left_32s_step(t), (sa, b), j, hi).unwrap().1[v]
                != fold_down(final_sorting_scan_right_to_left_32s_step(t), (sa, b), l, hi).unwrap().1[w],
    ensures
        ({
            let s = fold_down(final_sorting_scan_right_to_left_32s_step(t), (sa, b), i, hi).unwrap();
            let x = sort_final_right_run(t, 0, start, (b, g), i, hi).unwrap();
            let seen = seen_right_final(s.0, start, i);
            &&& s.0.len() == sa.len()
            &&& s.1.len() == b.len()
            &&& x.1.len() == g.len()
            &&& x.0 == s.1
            &&& forall|y: int| start <= y < i ==> stands_right_final(t, #[trigger] x.1[y], s.0[y])
            &&& forall|y: int| i <= y < hi && (#[trigger] x.1[y]).symbol >= 0 ==> x.1[y].symbol < sa.len()
                && seen[x.1[y].symbol as int] == x.1[y].index
            &&& forall|y: int| i <= y < hi && (#[trigger] x.1[y]).symbol >= 0 ==> exists|v: int| 0 <= v < b.len()
                && #[trigger] head_moved(final_sorting_scan_right_to_left_32s_step(t), (sa, b), hi, y, v)
                    && fold_down(final_sorting_scan_right_to_left_32s_step(t), (sa, b), y, hi).unwrap().1[v] == x.1[y].symbol
            &&& forall|y: int, z: int| i <= y < z < hi && (#[trigger] x.1[y]).symbol >= 0
                ==> x.1[y].symbol != (#[trigger] x.1[z]).symbol
            &&& forall|p: int| 0 <= p < sa.len() && (forall|y: int| i <= y < hi ==> (#[trigger] x.1[y]).symbol != p)
                ==> #[trigger] seen[p] == seen_right_final(sa, start, hi)[p]
        }),
    decreases hi - i,
{
    let direct = final_sorting_scan_right_to_left_32s_step(t);
    let front = seen_right_final(sa, start, hi);
    if i < hi {
        let sort = sort_final_right_step(t, 0, start);
        lemma_fold_down_prefix(direct, (sa, b), i, i + 1, hi);
        lemma_fold_down_prefix(sort, (b, g), i, i + 1, hi);
        lemma_right_final_along(t, sa, b, g, start, hi, i + 1);
        let s = fold_down(direct, (sa, b), i + 1, hi).unwrap();
        let x = fold_down(sort, (b, g), i + 1, hi).unwrap();
        let s2 = fold_down(direct, (sa, b), i, hi).unwrap();
        let x2 = fold_down(sort, (b, g), i, hi).unwrap();
        assert(Some(s2) == direct(s, i));
        assert(Some(x2) == sort(x, i));
        let a = i;
        let seen = seen_right_final(s.0, start, i + 1);
        let seen2 = seen_right_final(s2.0, start, i);
        assert(stands_right_final(t, x.1[a], s.0[a]));
        let p = s.0[i];
        if p > 0 {
            let u = x.1[i].symbol as int;
            assert(u == t[p - 1]);
            let target = s.1[u] - 1;
            assert(s2.1[u] == target);
            assert(head_moved(final_sorting_scan_right_to_left_32s_step(t), (sa, b), hi, i, u));
            assert(target < i && s.0[target] <= 0);
            assert(x2.1[a].symbol == target);
            assert(x2.0 =~= s2.1);
            assert(seen2 =~= seen.update(target, x2.1[a].index));
            assert forall|y: int| start <= y < i implies stands_right_final(t, #[trigger] x2.1[y], s2.0[y]) by {
                assert(stands_right_final(t, x.1[y], s.0[y]));
            }
            assert forall|y: int| a < y < hi implies #[trigger] x2.1[y] == x.1[y] && x.1[y].symbol != target by {
                if x.1[y].symbol >= 0 {
                    let w = choose|w: int| 0 <= w < b.len()
                        && #[trigger] head_moved(final_sorting_scan_right_to_left_32s_step(t), (sa, b), hi, y, w)
                            && fold_down(final_sorting_scan_right_to_left_32s_step(t), (sa, b), y, hi).unwrap().1[w]
                            == x.1[y].symbol;
                    assert(head_moved(final_sorting_scan_right_to_left_32s_step(t), (sa, b), hi, i, u)
                        && head_moved(final_sorting_scan_right_to_left_32s_step(t), (sa, b), hi, y, w));
                }
            }
            assert forall|y: int| a <= y < hi && (#[trigger] x2.1[y]).symbol >= 0 implies x2.1[y].symbol < sa.len()
                && seen2[x2.1[y].symbol as int] == x2.1[y].index by {
                if y > a {
                    assert(x2.1[y] == x.1[y]);
                }
            }
            assert forall|y: int| a <= y < hi && (#[trigger] x2.1[y]).symbol >= 0 implies exists|v: int| 0 <= v < b.len()
                && #[trigger] head_moved(final_sorting_scan_right_to_left_32s_step(t), (sa, b), hi, y, v)
                    && fold_down(final_sorting_scan_right_to_left_32s_step(t), (sa, b), y, hi).unwrap().1[v]
                    == x2.1[y].symbol by {
                if y > a {
                    assert(x2.1[y] == x.1[y]);
                } else {
                    assert(head_moved(final_sorting_scan_right_to_left_32s_step(t), (sa, b), hi, y, u));
                }
            }
            assert forall|y: int, z: int| a <= y < z < hi && (#[trigger] x2.1[y]).symbol >= 0
                implies x2.1[y].symbol != (#[trigger] x2.1[z]).symbol by {
                assert(x2.1[z] == x.1[z]);
                if y > a {
                    assert(x2.1[y] == x.1[y]);
                }
            }
            assert forall|r: int| 0 <= r < sa.len() && (forall|y: int| a <= y < hi ==> (#[trigger] x2.1[y]).symbol != r)
                implies #[trigger] seen2[r] == front[r] by {
                assert(x2.1[a].symbol != r);
                assert forall|y: int| i + 1 <= y < hi implies (#[trigger] x.1[y]).symbol != r by {
                    assert(x2.1[y] == x.1[y]);
                }
                assert(seen[r] == front[r]);
            }
        } else {
            assert(x2 == x);
            assert(seen2 =~= seen);
            assert forall|r: int| 0 <= r < sa.len() && (forall|y: int| a <= y < hi ==> (#[trigger] x2.1[y]).symbol != r)
                implies #[trigger] seen2[r] == front[r] by {
                assert forall|y: int| i + 1 <= y < hi implies (#[trigger] x.1[y]).symbol != r by {
                    assert(x2.1[y] == x.1[y]);
                }
                assert(seen[r] == front[r]);
            }
        }
    }
}

/// Scanning a block downward through the cache, in a scan that ends in sorted order, leaves the array and the counters of the
/// direct scan, where every head that the direct scan moves goes to a slot that is ahead of it,
/// is its own and holds no suffix to read.
pub proof fn law_cached_right_final(t: Seq<i32>, sa: Seq<i32>, b: Seq<i32>, cache: Seq<ThreadCache>, start: int, size: int)
    requires
        cache.len() <= usize::MAX,
        cached_final_right(t, sa, b, cache, start, size) is Some,
        final_sorting_scan_right_to_left_32s_run(t, (sa, b), start, size) is Some,
        forall|j: int, v: int| start <= j < start + size && 0 <= v < b.len()
            && #[trigger] head_moved(final_sorting_scan_right_to_left_32s_step(t), (sa, b), start + size, j, v)
            ==> fold_down(final_sorting_scan_right_to_left_32s_step(t), (sa, b), j, start + size).unwrap().1[v] < j
            && fold_down(final_sorting_scan_right_to_left_32s_step(t), (sa, b), j + 1, start + size).unwrap().0[fold_down(final_sorting_scan_right_to_left_32s_step(t), (sa, b), j, start + size).unwrap().1[v] as int] <= 0,
        forall|j: int, v: int, l: int, w: int| start <= j < l < start + size && 0 <= v < b.len() && 0 <= w < b.len()
            && #[trigger] head_moved(final_sorting_scan_right_to_left_32s_step(t), (sa, b), start + size, j, v)
                && #[trigger] head_moved(final_sorting_scan_right_to_left_32s_step(t), (sa, b), start + size, l, w)
                ==> fold_down(final_sorting_scan_right_to_left_32s_step(t), (sa, b), j, start + size).unwrap().1[v]
                != fold_down(final_sorting_scan_right_to_left_32s_step(t), (sa, b), l, start + size).unwrap().1[w],
    ensures
        ({
            let x = cached_final_right(t, sa, b, cache, start, size).unwrap();
            &&& final_sorting_scan_right_to_left_32s_run(t, (sa, b), start, size) == Some((x.0, x.1))
            &&& x.2.len() == cache.len()
        }),
{
    let hi = start + size;
    let c = cache;
    lemma_right_final_gathered(t, sa, start, c, hi);
    let g = gather_final_right_run(t, 0, (sa, c), start, hi).unwrap();
    let s = final_sorting_scan_right_to_left_32s_run(t, (sa, b), start, size).unwrap();
    let y = cached_final_right(t, sa, b, cache, start, size).unwrap();
    if size > 0 {
        lemma_right_final_along(t, sa, b, g.1, start, hi, start);
        let x = sort_final_right_run(t, 0, start, (b, g.1), start, hi).unwrap();
        let all = x.1;
        let lo: int = start;
        assert forall|a: int| lo <= a < lo + size implies #[trigger] all[a] == x.1[a] by {}
        assert forall|a: int, e: int| lo <= a < e < lo + size && (#[trigger] all[a]).symbol >= 0 implies all[a].symbol
            != (#[trigger] all[e]).symbol by {
            assert(all[a] == x.1[a] && all[e] == x.1[e]);
        }
        assert forall|a: int| lo <= a < lo + size implies (#[trigger] all[a]).symbol < sa.len() by {
            assert(all[a] == x.1[a]);
        }
        law_packed_and_placed(g.0, all, lo, size);
        law_cache_packed(all, lo, lo + size);
        let seen = seen_right_final(s.0, start, start);
        assert(seen =~= s.0);
        assert forall|r: int| 0 <= r < sa.len() implies #[trigger] y.0[r] == s.0[r] by {
            if exists|a: int| lo <= a < lo + size && (#[trigger] all[a]).symbol == r {
                let a = choose|a: int| lo <= a < lo + size && (#[trigger] all[a]).symbol == r;
                assert(all[a] == x.1[a]);
                assert(seen[x.1[a].symbol as int] == x.1[a].index);
            } else {
                assert forall|a: int| lo <= a < lo + size implies (#[trigger] x.1[a]).symbol != r by {
                    assert(all[a] == x.1[a]);
                }
                assert(seen[r] == g.0[r]);
            }
        }
        assert(y.0 =~= s.0);
    } else {
        assert(seen_right_final(sa, start, hi) =~= sa);
        law_packed_and_placed(g.0, c, start, size);
        law_cache_packed(c, start, start + size);
        assert(y.0 =~= sa);
    }
}

/// What a scan downward with four counters for each symbol leaves of an entry that it has read.
spec fn read_right_4k(p: i32) -> i32 {
    if p <= 0 {
        p
    } else {
        0
    }
}

/// Whether a cache entry stands for the array entry `p` of a scan downward with four counters for each symbol.
spec fn stands_right_4k(t: Seq<i32>, e: ThreadCache, p: i32) -> bool {
    if p <= 0 {
        e.symbol < 0
    } else {
        e.index == p && bucket_symbol(t, ungrouped(p) as int, Side::Above, 2) == Some(e.symbol)
    }
}

/// The array with the entries from `lo` up to `hi` as a scan downward with four counters for each symbol leaves them.
spec fn seen_right_4k(s: Seq<i32>, lo: int, hi: int) -> Seq<i32> {
    Seq::new(s.len(), |q: int| if lo <= q < hi { read_right_4k(s[q]) } else { s[q] })
}

/// Gathering a block leaves an entry for each slot.
proof fn lemma_right_4k_gathered(t: Seq<i32>, sa: Seq<i32>, start: int, c: Seq<ThreadCache>, hi: int)
    requires
        0 <= start <= hi,
        gather_right_4k_run(t, start, (sa, c), start, hi) is Some,
    ensures
        ({
            let g = gather_right_4k_run(t, start, (sa, c), start, hi).unwrap();
            &&& g.1.len() == c.len()
            &&& start < hi ==> hi <= sa.len() && hi - start <= c.len()
            &&& g.0 == seen_right_4k(sa, start, hi)
            &&& forall|y: int| start - start <= y < hi - start ==> stands_right_4k(t, #[trigger] g.1[y], sa[start + y])
        }),
    decreases hi - start,
{
    let step = gather_right_4k_step(t, start);
    if start < hi {
        lemma_right_4k_gathered(t, sa, start, c, hi - 1);
        let y = gather_right_4k_run(t, start, (sa, c), start, hi - 1).unwrap();
        let g = gather_right_4k_run(t, start, (sa, c), start, hi).unwrap();
        assert(fold_up(step, (sa, c), start, hi) == step(y, hi - 1));
        assert(y.0[hi - 1] == sa[hi - 1]);
        assert(g.0 =~= seen_right_4k(sa, start, hi));
    } else {
        assert(sa =~= seen_right_4k(sa, start, hi));
    }
}

/// Sorting a gathered block goes along with the direct scan: the counters are the same, the
/// entries ahead stand for the slots of the array, and the entries behind name what the scan has
/// written, each slot once.
#[verifier::spinoff_prover]
#[verifier::rlimit(40)]
proof fn lemma_right_4k_along(t: Seq<i32>, k: int, sa: Seq<i32>, b: Seq<i32>, d: i32, g: Seq<ThreadCache>, start: int, hi: int, i: int)
    requires
        0 <= start <= i <= hi <= i32::MAX,
        hi <= sa.len(),
        hi - start <= g.len(),
        forall|y: int| start - start <= y < hi - start ==> stands_right_4k(t, #[trigger] g[y], sa[start + y]),
        forall|w: int| 0 <= w < b.len() && w < 2 * k ==> #[trigger] b[w] <= d,
        sort_right_4k_run(t, k, start, start, start, (b, d, g), i, hi) is Some,
        fold_down(partial_sorting_scan_right_to_left_32s_4k_step(t, k), (sa, b, d), i, hi) is Some,
        forall|j: int, v: int| i <= j < hi && 0 <= v < b.len() && 2 * k <= v
            && #[trigger] name_moved(partial_sorting_scan_right_to_left_32s_4k_step(t, k), (sa, b, d), hi, j, v)
            ==> fold_down(partial_sorting_scan_right_to_left_32s_4k_step(t, k), (sa, b, d), j, hi).unwrap().1[v] < j
            && fold_down(partial_sorting_scan_right_to_left_32s_4k_step(t, k), (sa, b, d), j + 1, hi).unwrap().0[fold_down(partial_sorting_scan_right_to_left_32s_4k_step(t, k), (sa, b, d), j, hi).unwrap().1[v] as int] <= 0,
        forall|j: int, v: int, l: int, w: int| i <= j < l < hi && 0 <= v < b.len() && 0 <= w < b.len() && 2 * k <= v && 2 * k <= w
            && #[trigger] name_moved(partial_sorting_scan_right_to_left_32s_4k_step(t, k), (sa, b, d), hi, j, v)
                && #[trigger] name_moved(partial_sorting_scan_right_to_left_32s_4k_step(t, k), (sa, b, d), hi, l, w)
                ==> fold_down(partial_sorting_scan_right_to_left_32s_4k_step(t, k), (sa, b, d), j, hi).unwrap().1[v]
                != fold_down(partial_sorting_scan_right_to_left_32s_4k_step(t, k), (sa, b, d), l, hi).unwrap().1[w],
    ensures
        ({
            let s = fold_down(partial_sorting_scan_right_to_left_32s_4k_step(t, k), (sa, b, d), i, hi).unwrap();
            let x = sort_right_4k_run(t, k, start, start, start, (b, d, g), i, hi).unwrap();
            let seen = seen_right_4k(s.0, start, i);
            &&& s.0.len() == sa.len()
            &&& s.1.len() == b.len()
            &&& x.2.len() == g.len()
            &&& x.0 == s.1
            &&& forall|w: int| 0 <= w < b.len() && w < 2 * k ==> #[trigger] s.1[w] <= s.2
            &&& x.1 == s.2
            &&& forall|y: int| start - start <= y < i - start ==> stands_right_4k(t, #[trigger] x.2[y], s.0[start + y])
            &&& forall|y: int| i - start <= y < hi - start && (#[trigger] x.2[y]).symbol >= 0 ==> x.2[y].symbol < sa.len()
                && seen[x.2[y].symbol as int] == x.2[y].index
            &&& forall|y: int| i - start <= y < hi - start && (#[trigger] x.2[y]).symbol >= 0 ==> exists|v: int| 2 * k <= v
                && 0 <= v < b.len()
                && #[trigger] name_moved(partial_sorting_scan_right_to_left_32s_4k_step(t, k), (sa, b, d), hi, start + y, v)
                    && fold_down(partial_sorting_scan_right_to_left_32s_4k_step(t, k), (sa, b, d), start + y, hi).unwrap().1[v]
                    == x.2[y].symbol
            &&& forall|y: int, z: int| i - start <= y < z < hi - start && (#[trigger] x.2[y]).symbol >= 0
                ==> x.2[y].symbol != (#[trigger] x.2[z]).symbol
            &&& forall|p: int| 0 <= p < sa.len() && (forall|y: int| i - start <= y < hi - start ==> (#[trigger] x.2[y]).symbol != p)
                ==> #[trigger] seen[p] == seen_right_4k(sa, start, hi)[p]
        }),
    decreases hi - i,
{
    let direct = partial_sorting_scan_right_to_left_32s_4k_step(t, k);
    let front = seen_right_4k(sa, start, hi);
    if i < hi {
        let sort = sort_right_4k_step(t, k, start, start, start);
        lemma_fold_down_prefix(direct, (sa, b, d), i, i + 1, hi);
        lemma_fold_down_prefix(sort, (b, d, g), i, i + 1, hi);
        lemma_right_4k_along(t, k, sa, b, d, g, start, hi, i + 1);
        let s = fold_down(direct, (sa, b, d), i + 1, hi).unwrap();
        let x = fold_down(sort, (b, d, g), i + 1, hi).unwrap();
        let s2 = fold_down(direct, (sa, b, d), i, hi).unwrap();
        let x2 = fold_down(sort, (b, d, g), i, hi).unwrap();
        assert(Some(s2) == direct(s, i));
        assert(Some(x2) == sort(x, i));
        let a = i - start;
        let seen = seen_right_4k(s.0, start, i + 1);
        let seen2 = seen_right_4k(s2.0, start, i);
        assert(stands_right_4k(t, x.2[a], s.0[start + a]));
        let p = s.0[i];
        if p > 0 {
            let q = ungrouped(p) as int;
            let v = x.2[i - start].symbol as int;
            let c = t[q - 1] as int;
            assert(v / 2 == c && 0 <= v < 2 * k);
            assert(s.1[v] <= s.2);
            let u = 3 * k + c;
            let target = s.1[u] - 1;
            assert(s2.1[u] == target);
            assert(name_moved(partial_sorting_scan_right_to_left_32s_4k_step(t, k), (sa, b, d), hi, i, u));
            assert(target < i && s.0[target] <= 0);
            assert(x2.2[a].symbol == target);
            assert(x2.0 =~= s2.1);
            assert(seen2 =~= seen.update(target, x2.2[a].index));
            assert forall|y: int| start - start <= y < i - start implies stands_right_4k(t, #[trigger] x2.2[y], s2.0[start + y]) by {
                assert(stands_right_4k(t, x.2[y], s.0[start + y]));
            }
            assert forall|y: int| a < y < hi - start implies #[trigger] x2.2[y] == x.2[y] && x.2[y].symbol != target by {
                if x.2[y].symbol >= 0 {
                    let w = choose|w: int| 2 * k <= w && 0 <= w < b.len()
                        && #[trigger] name_moved(partial_sorting_scan_right_to_left_32s_4k_step(t, k), (sa, b, d), hi, start + y, w)
                            && fold_down(partial_sorting_scan_right_to_left_32s_4k_step(t, k), (sa, b, d), start + y, hi).unwrap().1[w]
                            == x.2[y].symbol;
                    assert(name_moved(partial_sorting_scan_right_to_left_32s_4k_step(t, k), (sa, b, d), hi, i, u)
                        && name_moved(partial_sorting_scan_right_to_left_32s_4k_step(t, k), (sa, b, d), hi, start + y, w));
                }
            }
            assert forall|y: int| a <= y < hi - start && (#[trigger] x2.2[y]).symbol >= 0 implies x2.2[y].symbol < sa.len()
                && seen2[x2.2[y].symbol as int] == x2.2[y].index by {
                if y > a {
                    assert(x2.2[y] == x.2[y]);
                }
            }
            assert forall|y: int| a <= y < hi - start && (#[trigger] x2.2[y]).symbol >= 0 implies exists|v: int| 2 * k <= v
                && 0 <= v < b.len()
                && #[trigger] name_moved(partial_sorting_scan_right_to_left_32s_4k_step(t, k), (sa, b, d), hi, start + y, v)
                    && fold_down(partial_sorting_scan_right_to_left_32s_4k_step(t, k), (sa, b, d), start + y, hi).unwrap().1[v]
                    == x2.2[y].symbol by {
                if y > a {
                    assert(x2.2[y] == x.2[y]);
                } else {
                    assert(name_moved(partial_sorting_scan_right_to_left_32s_4k_step(t, k), (sa, b, d), hi, start + y, u));
                }
            }
            assert forall|y: int, z: int| a <= y < z < hi - start && (#[trigger] x2.2[y]).symbol >= 0
                implies x2.2[y].symbol != (#[trigger] x2.2[z]).symbol by {
                assert(x2.2[z] == x.2[z]);
                if y > a {
                    assert(x2.2[y] == x.2[y]);
                }
            }
            assert forall|r: int| 0 <= r < sa.len() && (forall|y: int| a <= y < hi - start ==> (#[trigger] x2.2[y]).symbol != r)
                implies #[trigger] seen2[r] == front[r] by {
                assert(x2.2[a].symbol != r);
                assert forall|y: int| i + 1 - start <= y < hi - start implies (#[trigger] x.2[y]).symbol != r by {
                    assert(x2.2[y] == x.2[y]);
                }
                assert(seen[r] == front[r]);
            }
        } else {
            assert(x2 == x);
            assert(seen2 =~= seen);
            assert forall|r: int| 0 <= r < sa.len() && (forall|y: int| a <= y < hi - start ==> (#[trigger] x2.2[y]).symbol != r)
                implies #[trigger] seen2[r] == front[r] by {
                assert forall|y: int| i + 1 - start <= y < hi - start implies (#[trigger] x.2[y]).symbol != r by {
                    assert(x2.2[y] == x.2[y]);
                }
                assert(seen[r] == front[r]);
            }
        }
    }
}

/// Scanning a block downward through the cache, with four counters for each symbol, leaves the array, the counters and the name of the
/// direct scan, where every head that the direct scan moves goes to a slot that is ahead of it,
/// is its own and holds no suffix to read, and no counter holds a later name than the last.
pub proof fn law_cached_right_4k(t: Seq<i32>, k: int, sa: Seq<i32>, b: Seq<i32>, d: i32, cache: Seq<ThreadCache>, start: int, size: int)
    requires
        cache.len() <= usize::MAX,
        cached_right_4k(t, k, sa, b, d, cache, start, size) is Some,
        partial_sorting_scan_right_to_left_32s_4k_run(t, k, (sa, b, d), start, size) is Some,
        forall|w: int| 0 <= w < b.len() && w < 2 * k ==> #[trigger] b[w] <= d,
        forall|j: int, v: int| start <= j < start + size && 0 <= v < b.len() && 2 * k <= v
            && #[trigger] name_moved(partial_sorting_scan_right_to_left_32s_4k_step(t, k), (sa, b, d), start + size, j, v)
            ==> fold_down(partial_sorting_scan_right_to_left_32s_4k_step(t, k), (sa, b, d), j, start + size).unwrap().1[v] < j
            && fold_down(partial_sorting_scan_right_to_left_32s_4k_step(t, k), (sa, b, d), j + 1, start + size).unwrap().0[fold_down(partial_sorting_scan_right_to_left_32s_4k_step(t, k), (sa, b, d), j, start + size).unwrap().1[v] as int] <= 0,
        forall|j: int, v: int, l: int, w: int| start <= j < l < start + size && 0 <= v < b.len() && 0 <= w < b.len() && 2 * k <= v
            && 2 * k <= w
            && #[trigger] name_moved(partial_sorting_scan_right_to_left_32s_4k_step(t, k), (sa, b, d), start + size, j, v)
                && #[trigger] name_moved(partial_sorting_scan_right_to_left_32s_4k_step(t, k), (sa, b, d), start + size, l, w)
                ==> fold_down(partial_sorting_scan_right_to_left_32s_4k_step(t, k), (sa, b, d), j, start + size).unwrap().1[v]
                != fold_down(partial_sorting_scan_right_to_left_32s_4k_step(t, k), (sa, b, d), l, start + size).unwrap().1[w],
    ensures
        ({
            let x = cached_right_4k(t, k, sa, b, d, cache, start, size).unwrap();
            &&& partial_sorting_scan_right_to_left_32s_4k_run(t, k, (sa, b, d), start, size) == Some((x.0, x.1, x.2))
            &&& x.3.len() == cache.len()
        }),
{
    let hi = start + size;
    let c = cache.subrange(0, size);
    lemma_right_4k_gathered(t, sa, start, c, hi);
    let g = gather_right_4k_run(t, start, (sa, c), start, hi).unwrap();
    let s = partial_sorting_scan_right_to_left_32s_4k_run(t, k, (sa, b, d), start, size).unwrap();
    let y = cached_right_4k(t, k, sa, b, d, cache, start, size).unwrap();
    if size > 0 {
        lemma_right_4k_along(t, k, sa, b, d, g.1, start, hi, start);
        let x = sort_right_4k_run(t, k, start, start, start, (b, d, g.1), start, hi).unwrap();
        let all = x.2 + cache.subrange(size, cache.len() as int);
        let lo: int = 0;
        assert forall|a: int| lo <= a < lo + size implies #[trigger] all[a] == x.2[a] by {}
        assert forall|a: int, e: int| lo <= a < e < lo + size && (#[trigger] all[a]).symbol >= 0 implies all[a].symbol
            != (#[trigger] all[e]).symbol by {
            assert(all[a] == x.2[a] && all[e] == x.2[e]);
        }
        assert forall|a: int| lo <= a < lo + size implies (#[trigger] all[a]).symbol < sa.len() by {
            assert(all[a] == x.2[a]);
        }
        law_packed_and_placed(g.0, all, lo, size);
        law_cache_packed(all, lo, lo + size);
        let seen = seen_right_4k(s.0, start, start);
        assert(seen =~= s.0);
        assert forall|r: int| 0 <= r < sa.len() implies #[trigger] y.0[r] == s.0[r] by {
            if exists|a: int| lo <= a < lo + size && (#[trigger] all[a]).symbol == r {
                let a = choose|a: int| lo <= a < lo + size && (#[trigger] all[a]).symbol == r;
                assert(all[a] == x.2[a]);
                assert(seen[x.2[a].symbol as int] == x.2[a].index);
            } else {
                assert forall|a: int| lo <= a < lo + size implies (#[trigger] x.2[a]).symbol != r by {
                    assert(all[a] == x.2[a]);
                }
                assert(seen[r] == g.0[r]);
            }
        }
        assert(y.0 =~= s.0);
    } else {
        assert(seen_right_4k(sa, start, hi) =~= sa);
        law_packed_and_placed(g.0, c + cache.subrange(size, cache.len() as int), 0, size);
        law_cache_packed(c + cache.subrange(size, cache.len() as int), 0, 0 + size);
        assert(y.0 =~= sa);
    }
}

/// Whether a cache entry stands for the array entry `p` of a scan downward with six counters for
/// each symbol.
spec fn stands_right_6k(t: Seq<i32>, e: ThreadCache, p: i32) -> bool {
    &&& e.index == p
    &&& unmarked(p) != 0 ==> bucket_symbol(t, unmarked(p) as int, Side::Above, 4) == Some(e.symbol)
}

/// Gathering a block leaves an entry for each slot.
proof fn lemma_right_6k_gathered(t: Seq<i32>, sa: Seq<i32>, start: int, c: Seq<ThreadCache>, hi: int)
    requires
        0 <= start <= hi <= start + c.len(),
        gather_right_6k_run(t, sa, start, c, start, hi) is Some,
    ensures
        ({
            let g = gather_right_6k_run(t, sa, start, c, start, hi).unwrap();
            &&& g.len() == c.len()
            &&& start < hi ==> hi <= sa.len()
            &&& forall|x: int| 0 <= x < hi - start ==> stands_right_6k(t, #[trigger] g[x], sa[start + x])
        }),
    decreases hi - start,
{
    if start < hi {
        lemma_right_6k_gathered(t, sa, start, c, hi - 1);
        let y = gather_right_6k_run(t, sa, start, c, start, hi - 1).unwrap();
        assert(fold_up(gather_right_6k_step(t, sa, start), c, start, hi) == gather_right_6k_step(t, sa, start)(y, hi - 1));
    }
}

/// Sorting a gathered block goes along with the direct scan: the counters are the same, the
/// entries ahead stand for the slots of the array, and the entries behind name what the scan has
/// written, each slot once.
#[verifier::spinoff_prover]
#[verifier::rlimit(40)]
proof fn lemma_right_6k_along(t: Seq<i32>, sa: Seq<i32>, b: Seq<i32>, d: i32, g: Seq<ThreadCache>, start: int, hi: int, i: int)
    requires
        0 <= start <= i <= hi <= i32::MAX,
        hi == start + g.len(),
        hi <= sa.len(),
        forall|x: int| 0 <= x < g.len() ==> stands_right_6k(t, #[trigger] g[x], sa[start + x]),
        forall|w: int| 0 <= w < b.len() && w % 4 >= 2 ==> #[trigger] b[w] <= d,
        sort_right_6k_run(t, start, start, start, (b, d, g), i, hi) is Some,
        fold_down(partial_sorting_scan_right_to_left_32s_6k_step(t), (sa, b, d), i, hi) is Some,
        forall|j: int, v: int| i <= j < hi && 0 <= v < b.len() && v % 4 < 2
            && #[trigger] name_moved(partial_sorting_scan_right_to_left_32s_6k_step(t), (sa, b, d), hi, j, v)
            ==> fold_down(partial_sorting_scan_right_to_left_32s_6k_step(t), (sa, b, d), j, hi).unwrap().1[v] < j,
        forall|j: int, v: int, l: int, w: int| i <= j < l < hi && 0 <= v < b.len() && 0 <= w < b.len() && v % 4 < 2 && w % 4 < 2
            && #[trigger] name_moved(partial_sorting_scan_right_to_left_32s_6k_step(t), (sa, b, d), hi, j, v)
            && #[trigger] name_moved(partial_sorting_scan_right_to_left_32s_6k_step(t), (sa, b, d), hi, l, w)
            ==> fold_down(partial_sorting_scan_right_to_left_32s_6k_step(t), (sa, b, d), j, hi).unwrap().1[v]
                != fold_down(partial_sorting_scan_right_to_left_32s_6k_step(t), (sa, b, d), l, hi).unwrap().1[w],
    ensures
        ({
            let s = fold_down(partial_sorting_scan_right_to_left_32s_6k_step(t), (sa, b, d), i, hi).unwrap();
            let x = sort_right_6k_run(t, start, start, start, (b, d, g), i, hi).unwrap();
            &&& s.0.len() == sa.len()
            &&& s.1.len() == b.len()
            &&& x.2.len() == g.len()
            &&& x.0 == s.1
            &&& x.1 == s.2
            &&& forall|w: int| 0 <= w < b.len() && w % 4 >= 2 ==> #[trigger] s.1[w] <= s.2
            &&& forall|y: int| 0 <= y < i - start ==> stands_right_6k(t, #[trigger] x.2[y], s.0[start + y])
            &&& forall|y: int| i - start <= y < g.len() ==> 0 <= (#[trigger] x.2[y]).symbol < sa.len()
                && s.0[x.2[y].symbol as int] == x.2[y].index
            &&& forall|y: int| i - start <= y < g.len() && (#[trigger] x.2[y]).symbol >= 0 ==> exists|v: int| 0 <= v < b.len() && v % 4 < 2
                && #[trigger] name_moved(partial_sorting_scan_right_to_left_32s_6k_step(t), (sa, b, d), hi, start + y, v)
                && fold_down(partial_sorting_scan_right_to_left_32s_6k_step(t), (sa, b, d), start + y, hi).unwrap().1[v]
                    == x.2[y].symbol
            &&& forall|y: int, z: int| i - start <= y < z < g.len() ==> (#[trigger] x.2[y]).symbol != (#[trigger] x.2[z]).symbol
            &&& forall|p: int| 0 <= p < sa.len() && (forall|y: int| i - start <= y < g.len() ==> (#[trigger] x.2[y]).symbol != p)
                ==> #[trigger] s.0[p] == sa[p]
        }),
    decreases hi - i,
{
    let direct = partial_sorting_scan_right_to_left_32s_6k_step(t);
    if i < hi {
        let sort = sort_right_6k_step(t, start, start, start);
        lemma_fold_down_prefix(direct, (sa, b, d), i, i + 1, hi);
        lemma_fold_down_prefix(sort, (b, d, g), i, i + 1, hi);
        lemma_right_6k_along(t, sa, b, d, g, start, hi, i + 1);
        let s = fold_down(direct, (sa, b, d), i + 1, hi).unwrap();
        let x = fold_down(sort, (b, d, g), i + 1, hi).unwrap();
        let s2 = fold_down(direct, (sa, b, d), i, hi).unwrap();
        let x2 = fold_down(sort, (b, d, g), i, hi).unwrap();
        assert(Some(s2) == direct(s, i));
        assert(Some(x2) == sort(x, i));
        let a = i - start;
        assert(stands_right_6k(t, x.2[a], s.0[start + a]));
        let p = unmarked(s.0[i]);
        let u = x.2[a].symbol as int;
        assert(bucket_symbol(t, p as int, Side::Above, 4) == Some(x.2[a].symbol));
        assert(u % 4 < 2 && (u + 2) % 4 >= 2);
        assert(s.1[u + 2] <= s.2);
        let target = s.1[u] - 1;
        assert(s2.1[u] == target);
        assert(name_moved(direct, (sa, b, d), hi, i, u));
        assert(target < i);
        assert(x2.2[a].symbol == target);
        assert(x2.0 =~= s2.1);
        assert forall|y: int| 0 <= y < i - start implies stands_right_6k(t, #[trigger] x2.2[y], s2.0[start + y]) by {
            assert(stands_right_6k(t, x.2[y], s.0[start + y]));
        }
        assert forall|y: int| a < y < g.len() implies #[trigger] x2.2[y] == x.2[y] && x.2[y].symbol != target by {
            let w = choose|w: int| 0 <= w < b.len() && w % 4 < 2 && #[trigger] name_moved(direct, (sa, b, d), hi, start + y, w)
                && fold_down(direct, (sa, b, d), start + y, hi).unwrap().1[w] == x.2[y].symbol;
            assert(name_moved(direct, (sa, b, d), hi, i, u) && name_moved(direct, (sa, b, d), hi, start + y, w));
        }
        assert forall|y: int| a <= y < g.len() implies 0 <= (#[trigger] x2.2[y]).symbol < sa.len()
            && s2.0[x2.2[y].symbol as int] == x2.2[y].index by {
            if y > a {
                assert(x2.2[y] == x.2[y]);
            }
        }
        assert forall|y: int| a <= y < g.len() && (#[trigger] x2.2[y]).symbol >= 0 implies exists|v: int| 0 <= v < b.len() && v % 4 < 2
            && #[trigger] name_moved(direct, (sa, b, d), hi, start + y, v)
            && fold_down(direct, (sa, b, d), start + y, hi).unwrap().1[v] == x2.2[y].symbol by {
            if y > a {
                assert(x2.2[y] == x.2[y]);
            } else {
                assert(name_moved(direct, (sa, b, d), hi, start + y, u));
            }
        }
        assert forall|y: int, z: int| a <= y < z < g.len() implies (#[trigger] x2.2[y]).symbol != (#[trigger] x2.2[z]).symbol by {
            assert(x2.2[z] == x.2[z]);
            if y > a {
                assert(x2.2[y] == x.2[y]);
            }
        }
        assert forall|r: int| 0 <= r < sa.len() && (forall|y: int| a <= y < g.len() ==> (#[trigger] x2.2[y]).symbol != r)
            implies #[trigger] s2.0[r] == sa[r] by {
            assert(x2.2[a].symbol != r);
            assert forall|y: int| i + 1 - start <= y < g.len() implies (#[trigger] x.2[y]).symbol != r by {
                assert(x2.2[y] == x.2[y]);
            }
            assert(s.0[r] == sa[r]);
        }
    }
}

/// Scanning a block downward through the cache, with six counters for each symbol, leaves the
/// array, the counters and the name of the direct scan, where every head that the direct scan
/// moves goes to a slot that is ahead of it and its own, and no counter holds a later name than
/// the last.
pub proof fn law_cached_right_6k(t: Seq<i32>, sa: Seq<i32>, b: Seq<i32>, d: i32, cache: Seq<ThreadCache>, start: int, size: int)
    requires
        cached_right_6k(t, sa, b, d, cache, start, size) is Some,
        partial_sorting_scan_right_to_left_32s_6k_run(t, (sa, b, d), start, size) is Some,
        forall|w: int| 0 <= w < b.len() && w % 4 >= 2 ==> #[trigger] b[w] <= d,
        forall|j: int, v: int| start <= j < start + size && 0 <= v < b.len() && v % 4 < 2
            && #[trigger] name_moved(partial_sorting_scan_right_to_left_32s_6k_step(t), (sa, b, d), start + size, j, v)
            ==> fold_down(partial_sorting_scan_right_to_left_32s_6k_step(t), (sa, b, d), j, start + size).unwrap().1[v] < j,
        forall|j: int, v: int, l: int, w: int| start <= j < l < start + size && 0 <= v < b.len() && 0 <= w < b.len() && v % 4 < 2
            && w % 4 < 2
            && #[trigger] name_moved(partial_sorting_scan_right_to_left_32s_6k_step(t), (sa, b, d), start + size, j, v)
            && #[trigger] name_moved(partial_sorting_scan_right_to_left_32s_6k_step(t), (sa, b, d), start + size, l, w)
            ==> fold_down(partial_sorting_scan_right_to_left_32s_6k_step(t), (sa, b, d), j, start + size).unwrap().1[v]
                != fold_down(partial_sorting_scan_right_to_left_32s_6k_step(t), (sa, b, d), l, start + size).unwrap().1[w],
    ensures
        ({
            let x = cached_right_6k(t, sa, b, d, cache, start, size).unwrap();
            &&& partial_sorting_scan_right_to_left_32s_6k_run(t, (sa, b, d), start, size) == Some((x.0, x.1, x.2))
            &&& x.3.len() == cache.len()
            &&& forall|y: int| size <= y < cache.len() ==> #[trigger] x.3[y] == cache[y]
        }),
{
    let hi = start + size;
    let c = cache.subrange(0, size);
    lemma_right_6k_gathered(t, sa, start, c, hi);
    let g = gather_right_6k_run(t, sa, start, c, start, hi).unwrap();
    let s = partial_sorting_scan_right_to_left_32s_6k_run(t, (sa, b, d), start, size).unwrap();
    let y = cached_right_6k(t, sa, b, d, cache, start, size).unwrap();
    if size > 0 {
        lemma_right_6k_along(t, sa, b, d, g, start, hi, start);
        let x = sort_right_6k_run(t, start, start, start, (b, d, g), start, hi).unwrap();
        law_cached_placed(x.2, sa, 0, size);
        assert forall|r: int| 0 <= r < sa.len() implies #[trigger] y.0[r] == s.0[r] by {
            if exists|a: int| 0 <= a < size && (#[trigger] x.2[a]).symbol == r {
                let a = choose|a: int| 0 <= a < size && (#[trigger] x.2[a]).symbol == r;
                assert(s.0[x.2[a].symbol as int] == x.2[a].index);
            }
        }
        assert(y.0 =~= s.0);
    }
}

} // verus!
