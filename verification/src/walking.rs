//! Walks over the filled slots of a byte text with several workers leave what one worker leaves.

use vstd::prelude::*;
use crate::block_8u::{block_bwt_aux_left, block_bwt_aux_right, block_bwt_left, block_bwt_right, block_final_right};
use crate::caching::{head_moved, name_moved};
use crate::desks::Desk;
use crate::final_scan::{
    final_bwt_aux_scan_left_to_right_8u_run, final_bwt_aux_scan_left_to_right_8u_slot_step,
    final_bwt_aux_scan_right_to_left_8u_run, final_bwt_aux_scan_right_to_left_8u_slot_step,
    final_bwt_scan_left_to_right_8u_run, final_bwt_scan_left_to_right_8u_step, final_bwt_scan_right_to_left_8u_run,
    final_bwt_scan_right_to_left_8u_step, final_sorting_scan_right_to_left_8u_run, final_sorting_scan_right_to_left_8u_step, sampled,
};
use crate::fold::{
    fold_down, fold_up, lemma_fold_down_prefix, lemma_fold_down_split, lemma_fold_up_prefix, lemma_fold_up_split,
};
use crate::induce::seeded_8u_1k;
use crate::orders::{bwt_aux_left_8u, bwt_left_8u};
use crate::reading::{law_block_bwt_aux_left, law_block_bwt_aux_right, law_block_bwt_left, law_block_bwt_right, law_block_final_right};
use crate::sweeps::{
    bwt_aux_left_long, bwt_aux_left_short, bwt_aux_left_walked, bwt_left_long, bwt_left_short, bwt_left_walked,
    bwt_aux_right_long, bwt_aux_right_short, bwt_aux_right_walked, bwt_right_long, bwt_right_short,
    bwt_right_walked, final_array, final_empty, sampling_array, sampling_empty,
    sort_right_long, sort_right_short, ranking_array, ranking_empty, sort_right_walked, FinalState, RankingState,
    SamplingState,
};
use crate::types::{InduceState, PlaceState};
use crate::walks::{filled_down, filled_up, half_span, walk_down, walk_up, worker_span};

verus! {

/// Whether the step of a scan upward at `j` moves the counter at `v`.
pub open spec fn head_risen(step: spec_fn(PlaceState, int) -> Option<PlaceState>, s: PlaceState, lo: int, j: int, v: int) -> bool {
    fold_up(step, s, lo, j + 1).unwrap().1[v] != fold_up(step, s, lo, j).unwrap().1[v]
}

/// Whether the step of a sampling scan upward at `j` moves the counter at `v`.
pub open spec fn sample_risen(
    step: spec_fn((Seq<i32>, Seq<i32>, Seq<i32>), int) -> Option<(Seq<i32>, Seq<i32>, Seq<i32>)>,
    s: (Seq<i32>, Seq<i32>, Seq<i32>),
    lo: int,
    j: int,
    v: int,
) -> bool {
    fold_up(step, s, lo, j + 1).unwrap().1[v] != fold_up(step, s, lo, j).unwrap().1[v]
}

/// A run of filled slots.
proof fn lemma_filled_up(sa: Seq<i32>, i: int, max: int)
    ensures
        i <= max ==> i <= filled_up(sa, i, max) <= max,
        i > max ==> filled_up(sa, i, max) == i,
        forall|q: int| i <= q < filled_up(sa, i, max) ==> #[trigger] sa[q] != 0,
    decreases max - i,
{
    if i < max && sa[i] != 0 {
        lemma_filled_up(sa, i + 1, max);
    }
}

/// While the direct scan reads a run of filled slots, it writes behind the run.
proof fn lemma_bwt_left_ahead(t: Seq<u8>, s: PlaceState, lo: int, end: int, j: int)
    requires
        0 <= lo <= j <= end <= s.0.len(),
        fold_up(final_bwt_scan_left_to_right_8u_step(t), s, lo, end) is Some,
        forall|q: int| lo <= q < end ==> #[trigger] s.0[q] != 0,
        forall|j: int, v: int| lo <= j < end && 0 <= v < s.1.len()
            && #[trigger] head_risen(final_bwt_scan_left_to_right_8u_step(t), s, lo, j, v) ==>
            fold_up(final_bwt_scan_left_to_right_8u_step(t), s, lo, j).unwrap().1[v] > j
            && fold_up(final_bwt_scan_left_to_right_8u_step(t), s, lo, j).unwrap().0[fold_up(final_bwt_scan_left_to_right_8u_step(t), s, lo, j).unwrap().1[v] as int]
                == 0,
    ensures
        fold_up(final_bwt_scan_left_to_right_8u_step(t), s, lo, j) is Some,
        fold_up(final_bwt_scan_left_to_right_8u_step(t), s, lo, j).unwrap().0.len() == s.0.len(),
        fold_up(final_bwt_scan_left_to_right_8u_step(t), s, lo, j).unwrap().1.len() == s.1.len(),
        forall|v: int| 0 <= v < s.1.len() && #[trigger] fold_up(final_bwt_scan_left_to_right_8u_step(t), s, lo, j).unwrap().1[v]
            != s.1[v] ==> s.1[v] >= end,
        forall|v: int| 0 <= v < s.1.len() ==> #[trigger] fold_up(final_bwt_scan_left_to_right_8u_step(t), s, lo, j).unwrap().1[v] >= s.1[v],
        forall|q: int| j <= q < end ==> #[trigger] fold_up(final_bwt_scan_left_to_right_8u_step(t), s, lo, j).unwrap().0[q] == s.0[q],
    decreases j - lo,
{
    let direct = final_bwt_scan_left_to_right_8u_step(t);
    lemma_fold_up_prefix(direct, s, lo, j, end);
    if lo < j {
        let i = j - 1;
        lemma_fold_up_prefix(direct, s, lo, i, end);
        lemma_bwt_left_ahead(t, s, lo, end, i);
        let x = fold_up(final_bwt_scan_left_to_right_8u_step(t), s, lo, i).unwrap();
        let y = fold_up(final_bwt_scan_left_to_right_8u_step(t), s, lo, j).unwrap();
        assert(direct(x, i) == Some(y));
        if x.0[i] > 0 {
            let v = t[x.0[i] - 1] as int;
            assert(y.1[v] == x.1[v] + 1);
            assert(head_risen(final_bwt_scan_left_to_right_8u_step(t), s, lo, i, v));
            let target = x.1[v] as int;
            if target < end {
                assert(x.1[v] == s.1[v]);
                assert(x.0[target] == s.0[target]);
            }
        }
    }
}

/// A walk upward leaves what the direct scan leaves.
#[verifier::spinoff_prover]
proof fn lemma_bwt_left_walk(t: Seq<u8>, k: int, span: int, s: PlaceState, desks: Seq<Desk>, lo: int, hi: int)
    requires
        0 <= lo <= hi <= s.0.len(),
        0 <= k,
        fold_up(final_bwt_scan_left_to_right_8u_step(t), s, 0, hi) is Some,
        forall|q: int| 0 <= q < t.len() ==> #[trigger] t[q] < k,
        desks.len() > 0 ==> desks[0].cache.len() <= isize::MAX,
        walk_up(final_array(), bwt_left_short(t), bwt_left_long(t, k), span, (fold_up(final_bwt_scan_left_to_right_8u_step(t), s, 0, lo).unwrap().0, fold_up(final_bwt_scan_left_to_right_8u_step(t), s, 0, lo).unwrap().1, desks), lo, hi) is Some,
        forall|j: int, v: int| lo <= j < hi && 0 <= v < s.1.len()
            && #[trigger] head_risen(final_bwt_scan_left_to_right_8u_step(t), s, 0, j, v) ==>
            fold_up(final_bwt_scan_left_to_right_8u_step(t), s, 0, j).unwrap().1[v] > j
            && fold_up(final_bwt_scan_left_to_right_8u_step(t), s, 0, j).unwrap().0[fold_up(final_bwt_scan_left_to_right_8u_step(t), s, 0, j).unwrap().1[v] as int]
                == 0,
    ensures
        ({
            let z = walk_up(final_array(), bwt_left_short(t), bwt_left_long(t, k), span, (fold_up(final_bwt_scan_left_to_right_8u_step(t), s, 0, lo).unwrap().0, fold_up(final_bwt_scan_left_to_right_8u_step(t), s, 0, lo).unwrap().1, desks), lo, hi).unwrap();
            (z.0, z.1) == fold_up(final_bwt_scan_left_to_right_8u_step(t), s, 0, hi).unwrap()
        }),
    decreases hi - lo,
{
    let direct = final_bwt_scan_left_to_right_8u_step(t);
    lemma_fold_up_prefix(direct, s, 0, lo, hi);
    if lo < hi {
        let x = fold_up(final_bwt_scan_left_to_right_8u_step(t), s, 0, lo).unwrap();
        if x.0[lo] == 0 {
            lemma_fold_up_prefix(direct, s, 0, lo + 1, hi);
            assert(direct(x, lo) == fold_up(direct, s, 0, lo + 1));
            assert(x.0.update(lo, 0i32) =~= x.0);
            lemma_bwt_left_walk(t, k, span, s, desks, lo + 1, hi);
        } else {
            let top = if lo + span < hi { lo + span } else { hi };
            let end = filled_up(x.0, lo + 1, top);
            lemma_filled_up(x.0, lo + 1, top);
            lemma_fold_up_prefix(direct, s, 0, end, hi);
            lemma_fold_up_split(direct, s, 0, lo, end);
            assert(fold_up(direct, x, lo, end) == fold_up(direct, s, 0, end));
            assert forall|j: int, v: int| lo <= j < end && 0 <= v < x.1.len()
                && #[trigger] head_risen(final_bwt_scan_left_to_right_8u_step(t), x, lo, j, v) implies
                fold_up(final_bwt_scan_left_to_right_8u_step(t), x, lo, j).unwrap().1[v] > j
                && fold_up(final_bwt_scan_left_to_right_8u_step(t), x, lo, j).unwrap().0[fold_up(final_bwt_scan_left_to_right_8u_step(t), x, lo, j).unwrap().1[v] as int]
                    == 0 by {
                lemma_fold_up_split(direct, s, 0, lo, j);
                lemma_fold_up_split(direct, s, 0, lo, j + 1);
                lemma_fold_up_prefix(direct, s, 0, j, hi);
                lemma_fold_up_prefix(direct, s, 0, j + 1, hi);
                lemma_bwt_left_sized(t, s, 0, lo);
                assert(head_risen(final_bwt_scan_left_to_right_8u_step(t), s, 0, j, v));
            }
            lemma_bwt_left_sized(t, s, 0, lo);
            lemma_bwt_left_ahead(t, x, lo, end, end);
            if end - lo < 32 || desks.len() == 0 {
                lemma_bwt_left_walk(t, k, span, s, desks, end, hi);
            } else {
                let b = (x.0, x.1, desks);
                assert forall|v: int| 0 <= v < k && #[trigger] b.1[v]
                    != final_bwt_scan_left_to_right_8u_run(t, (b.0, b.1), lo, end - lo).unwrap().1[v]
                    implies b.1[v] >= lo + (end - lo) by {
                    assert(fold_up(final_bwt_scan_left_to_right_8u_step(t), x, lo, end).unwrap().1[v] != x.1[v]);
                }
                law_block_bwt_left(t, k, b, lo, end - lo);
                let z = block_bwt_left(t, k, b, lo, end - lo).unwrap();
                assert(z.1 =~= fold_up(final_bwt_scan_left_to_right_8u_step(t), x, lo, end).unwrap().1);
                lemma_bwt_left_walk(t, k, span, s, z.2, end, hi);
            }
        }
    }
}

/// The direct scan keeps the numbers of slots and counters.
proof fn lemma_bwt_left_sized(t: Seq<u8>, s: PlaceState, lo: int, hi: int)
    requires
        fold_up(final_bwt_scan_left_to_right_8u_step(t), s, lo, hi) is Some,
    ensures
        fold_up(final_bwt_scan_left_to_right_8u_step(t), s, lo, hi).unwrap().0.len() == s.0.len(),
        fold_up(final_bwt_scan_left_to_right_8u_step(t), s, lo, hi).unwrap().1.len() == s.1.len(),
    decreases hi - lo,
{
    if lo < hi {
        lemma_fold_up_prefix(final_bwt_scan_left_to_right_8u_step(t), s, lo, hi - 1, hi);
        lemma_bwt_left_sized(t, s, lo, hi - 1);
        assert(final_bwt_scan_left_to_right_8u_step(t)(fold_up(final_bwt_scan_left_to_right_8u_step(t), s, lo, hi - 1).unwrap(), hi - 1) is Some);
    }
}

/// A scan upward for the transformed text leaves the array and the counters that one worker
/// leaves, whatever the number of workers, where every head that the direct scan moves is ahead of
/// it and at an empty slot.
pub proof fn law_walked_bwt_left(t: Seq<u8>, n: int, k: int, threads: int, s: FinalState)
    requires
        0 <= n <= s.0.len(),
        0 <= k <= s.1.len(),
        forall|q: int| 0 <= q < t.len() ==> #[trigger] t[q] < k,
        s.2.len() > 0 ==> s.2[0].cache.len() <= isize::MAX,
        bwt_left_walked(t, n, k, threads, s) is Some,
        bwt_left_8u(t, n, (s.0, s.1)) is Some,
        ({
            let y = seeded_8u_1k(t, n, (s.0, s.1)).unwrap();
            let x = y;
            forall|j: int, v: int| 0 <= j < n && 0 <= v < x.1.len()
                && #[trigger] head_risen(final_bwt_scan_left_to_right_8u_step(t), x, 0, j, v) ==>
                fold_up(final_bwt_scan_left_to_right_8u_step(t), x, 0, j).unwrap().1[v] > j
                && fold_up(final_bwt_scan_left_to_right_8u_step(t), x, 0, j).unwrap().0[fold_up(final_bwt_scan_left_to_right_8u_step(t), x, 0, j).unwrap().1[v] as int]
                    == 0
        }),
    ensures
        ({
            let z = bwt_left_walked(t, n, k, threads, s).unwrap();
            bwt_left_8u(t, n, (s.0, s.1)) == Some((z.0, z.1))
        }),
{
    if !(threads == 1 || n < 65536) {
        let y = seeded_8u_1k(t, n, (s.0, s.1)).unwrap();
        let x = y;
        assert(fold_up(final_bwt_scan_left_to_right_8u_step(t), x, 0, 0) == Some(x));
        lemma_bwt_left_walk(t, k, worker_span(threads), x, s.2, 0, n);
    }
}

/// While the direct scan reads a run of filled slots, it writes behind the run.
proof fn lemma_bwt_aux_left_ahead(t: Seq<u8>, rm: i32, s: (Seq<i32>, Seq<i32>, Seq<i32>), lo: int, end: int, j: int)
    requires
        0 <= lo <= j <= end <= s.0.len(),
        fold_up(final_bwt_aux_scan_left_to_right_8u_slot_step(t, rm), s, lo, end) is Some,
        forall|q: int| lo <= q < end ==> #[trigger] s.0[q] != 0,
        forall|j: int, v: int| lo <= j < end && 0 <= v < s.1.len()
            && #[trigger] sample_risen(final_bwt_aux_scan_left_to_right_8u_slot_step(t, rm), s, lo, j, v) ==>
            fold_up(final_bwt_aux_scan_left_to_right_8u_slot_step(t, rm), s, lo, j).unwrap().1[v] > j
            && fold_up(final_bwt_aux_scan_left_to_right_8u_slot_step(t, rm), s, lo, j).unwrap().0[fold_up(final_bwt_aux_scan_left_to_right_8u_slot_step(t, rm), s, lo, j).unwrap().1[v] as int]
                == 0,
    ensures
        fold_up(final_bwt_aux_scan_left_to_right_8u_slot_step(t, rm), s, lo, j) is Some,
        fold_up(final_bwt_aux_scan_left_to_right_8u_slot_step(t, rm), s, lo, j).unwrap().0.len() == s.0.len(),
        fold_up(final_bwt_aux_scan_left_to_right_8u_slot_step(t, rm), s, lo, j).unwrap().1.len() == s.1.len(),
        forall|v: int| 0 <= v < s.1.len()
            && #[trigger] fold_up(final_bwt_aux_scan_left_to_right_8u_slot_step(t, rm), s, lo, j).unwrap().1[v] != s.1[v]
            ==> s.1[v] >= end,
        forall|v: int| 0 <= v < s.1.len()
            ==> #[trigger] fold_up(final_bwt_aux_scan_left_to_right_8u_slot_step(t, rm), s, lo, j).unwrap().1[v] >= s.1[v],
        forall|q: int| j <= q < end
            ==> #[trigger] fold_up(final_bwt_aux_scan_left_to_right_8u_slot_step(t, rm), s, lo, j).unwrap().0[q] == s.0[q],
    decreases j - lo,
{
    let direct = final_bwt_aux_scan_left_to_right_8u_slot_step(t, rm);
    lemma_fold_up_prefix(direct, s, lo, j, end);
    if lo < j {
        let i = j - 1;
        lemma_fold_up_prefix(direct, s, lo, i, end);
        lemma_bwt_aux_left_ahead(t, rm, s, lo, end, i);
        let x = fold_up(final_bwt_aux_scan_left_to_right_8u_slot_step(t, rm), s, lo, i).unwrap();
        let y = fold_up(final_bwt_aux_scan_left_to_right_8u_slot_step(t, rm), s, lo, j).unwrap();
        assert(direct(x, i) == Some(y));
        if x.0[i] > 0 {
            let v = t[x.0[i] - 1] as int;
            assert(y.1[v] == x.1[v] + 1);
            assert(sample_risen(final_bwt_aux_scan_left_to_right_8u_slot_step(t, rm), s, lo, i, v));
            let target = x.1[v] as int;
            if target < end {
                assert(x.1[v] == s.1[v]);
                assert(x.0[target] == s.0[target]);
            }
        }
    }
}

/// A walk upward leaves what the direct scan leaves.
#[verifier::spinoff_prover]
proof fn lemma_bwt_aux_left_walk(t: Seq<u8>, rm: i32, k: int, span: int, s: (Seq<i32>, Seq<i32>, Seq<i32>), desks: Seq<Desk>, lo: int, hi: int)
    requires
        0 <= lo <= hi <= s.0.len(),
        0 <= k,
        0 <= rm,
        fold_up(final_bwt_aux_scan_left_to_right_8u_slot_step(t, rm), s, 0, hi) is Some,
        forall|q: int| 0 <= q < t.len() ==> #[trigger] t[q] < k,
        desks.len() > 0 ==> desks[0].cache.len() <= isize::MAX,
        walk_up(sampling_array(), bwt_aux_left_short(t, rm), bwt_aux_left_long(t, rm, k), span, (fold_up(final_bwt_aux_scan_left_to_right_8u_slot_step(t, rm), s, 0, lo).unwrap().0, fold_up(final_bwt_aux_scan_left_to_right_8u_slot_step(t, rm), s, 0, lo).unwrap().1, fold_up(final_bwt_aux_scan_left_to_right_8u_slot_step(t, rm), s, 0, lo).unwrap().2, desks), lo, hi) is Some,
        forall|j: int, v: int| lo <= j < hi && 0 <= v < s.1.len()
            && #[trigger] sample_risen(final_bwt_aux_scan_left_to_right_8u_slot_step(t, rm), s, 0, j, v) ==>
            fold_up(final_bwt_aux_scan_left_to_right_8u_slot_step(t, rm), s, 0, j).unwrap().1[v] > j
            && fold_up(final_bwt_aux_scan_left_to_right_8u_slot_step(t, rm), s, 0, j).unwrap().0[fold_up(final_bwt_aux_scan_left_to_right_8u_slot_step(t, rm), s, 0, j).unwrap().1[v] as int]
                == 0,
    ensures
        ({
            let z = walk_up(sampling_array(), bwt_aux_left_short(t, rm), bwt_aux_left_long(t, rm, k), span, (fold_up(final_bwt_aux_scan_left_to_right_8u_slot_step(t, rm), s, 0, lo).unwrap().0, fold_up(final_bwt_aux_scan_left_to_right_8u_slot_step(t, rm), s, 0, lo).unwrap().1, fold_up(final_bwt_aux_scan_left_to_right_8u_slot_step(t, rm), s, 0, lo).unwrap().2, desks), lo, hi).unwrap();
            (z.0, z.1, z.2) == fold_up(final_bwt_aux_scan_left_to_right_8u_slot_step(t, rm), s, 0, hi).unwrap()
        }),
    decreases hi - lo,
{
    let direct = final_bwt_aux_scan_left_to_right_8u_slot_step(t, rm);
    lemma_fold_up_prefix(direct, s, 0, lo, hi);
    if lo < hi {
        let x = fold_up(final_bwt_aux_scan_left_to_right_8u_slot_step(t, rm), s, 0, lo).unwrap();
        if x.0[lo] == 0 {
            lemma_fold_up_prefix(direct, s, 0, lo + 1, hi);
            assert(direct(x, lo) == fold_up(direct, s, 0, lo + 1));
            assert(x.0.update(lo, 0i32) =~= x.0);
            lemma_bwt_aux_left_walk(t, rm, k, span, s, desks, lo + 1, hi);
        } else {
            let top = if lo + span < hi { lo + span } else { hi };
            let end = filled_up(x.0, lo + 1, top);
            lemma_filled_up(x.0, lo + 1, top);
            lemma_fold_up_prefix(direct, s, 0, end, hi);
            lemma_fold_up_split(direct, s, 0, lo, end);
            assert(fold_up(direct, x, lo, end) == fold_up(direct, s, 0, end));
            assert forall|j: int, v: int| lo <= j < end && 0 <= v < x.1.len()
                && #[trigger] sample_risen(final_bwt_aux_scan_left_to_right_8u_slot_step(t, rm), x, lo, j, v) implies
                fold_up(final_bwt_aux_scan_left_to_right_8u_slot_step(t, rm), x, lo, j).unwrap().1[v] > j
                && fold_up(final_bwt_aux_scan_left_to_right_8u_slot_step(t, rm), x, lo, j).unwrap().0[fold_up(final_bwt_aux_scan_left_to_right_8u_slot_step(t, rm), x, lo, j).unwrap().1[v] as int]
                    == 0 by {
                lemma_fold_up_split(direct, s, 0, lo, j);
                lemma_fold_up_split(direct, s, 0, lo, j + 1);
                lemma_fold_up_prefix(direct, s, 0, j, hi);
                lemma_fold_up_prefix(direct, s, 0, j + 1, hi);
                lemma_bwt_aux_left_sized(t, rm, s, 0, lo);
                assert(sample_risen(final_bwt_aux_scan_left_to_right_8u_slot_step(t, rm), s, 0, j, v));
            }
            lemma_bwt_aux_left_sized(t, rm, s, 0, lo);
            lemma_bwt_aux_left_ahead(t, rm, x, lo, end, end);
            if end - lo < 32 || desks.len() == 0 {
                lemma_bwt_aux_left_walk(t, rm, k, span, s, desks, end, hi);
            } else {
                let b = (x.0, x.1, x.2, desks);
                assert forall|v: int| 0 <= v < k && #[trigger] b.1[v]
                    != final_bwt_aux_scan_left_to_right_8u_run(t, rm, (b.0, b.1, b.2), lo, end - lo).unwrap().1[v]
                    implies b.1[v] >= lo + (end - lo) by {
                    assert(fold_up(final_bwt_aux_scan_left_to_right_8u_slot_step(t, rm), x, lo, end).unwrap().1[v] != x.1[v]);
                }
                law_block_bwt_aux_left(t, rm, k, b, lo, end - lo);
                let z = block_bwt_aux_left(t, rm, k, b, lo, end - lo).unwrap();
                assert(z.1 =~= fold_up(final_bwt_aux_scan_left_to_right_8u_slot_step(t, rm), x, lo, end).unwrap().1);
                lemma_bwt_aux_left_walk(t, rm, k, span, s, z.3, end, hi);
            }
        }
    }
}

/// The direct scan keeps the numbers of slots and counters.
proof fn lemma_bwt_aux_left_sized(t: Seq<u8>, rm: i32, s: (Seq<i32>, Seq<i32>, Seq<i32>), lo: int, hi: int)
    requires
        fold_up(final_bwt_aux_scan_left_to_right_8u_slot_step(t, rm), s, lo, hi) is Some,
    ensures
        fold_up(final_bwt_aux_scan_left_to_right_8u_slot_step(t, rm), s, lo, hi).unwrap().0.len() == s.0.len(),
        fold_up(final_bwt_aux_scan_left_to_right_8u_slot_step(t, rm), s, lo, hi).unwrap().1.len() == s.1.len(),
    decreases hi - lo,
{
    if lo < hi {
        lemma_fold_up_prefix(final_bwt_aux_scan_left_to_right_8u_slot_step(t, rm), s, lo, hi - 1, hi);
        lemma_bwt_aux_left_sized(t, rm, s, lo, hi - 1);
        assert(final_bwt_aux_scan_left_to_right_8u_slot_step(t, rm)(fold_up(final_bwt_aux_scan_left_to_right_8u_slot_step(t, rm), s, lo, hi - 1).unwrap(), hi - 1) is Some);
    }
}

/// A scan upward for the transformed text and its samples leaves the array, the counters and the samples that one worker
/// leaves, whatever the number of workers, where every head that the direct scan moves is ahead of
/// it and at an empty slot.
pub proof fn law_walked_bwt_aux_left(t: Seq<u8>, n: int, rm: i32, k: int, threads: int, s: SamplingState)
    requires
        0 <= n <= s.0.len(),
        0 <= k <= s.1.len(),
        0 <= rm,
        forall|q: int| 0 <= q < t.len() ==> #[trigger] t[q] < k,
        s.3.len() > 0 ==> s.3[0].cache.len() <= isize::MAX,
        bwt_aux_left_walked(t, n, rm, k, threads, s) is Some,
        bwt_aux_left_8u(t, n, rm, (s.0, s.1, s.2)) is Some,
        ({
            let y = seeded_8u_1k(t, n, (s.0, s.1)).unwrap();
            let x = (y.0, y.1, sampled(s.2, rm, (n - 1) as i32, y.1[t[n - 1] as int]).unwrap());
            forall|j: int, v: int| 0 <= j < n && 0 <= v < x.1.len()
                && #[trigger] sample_risen(final_bwt_aux_scan_left_to_right_8u_slot_step(t, rm), x, 0, j, v) ==>
                fold_up(final_bwt_aux_scan_left_to_right_8u_slot_step(t, rm), x, 0, j).unwrap().1[v] > j
                && fold_up(final_bwt_aux_scan_left_to_right_8u_slot_step(t, rm), x, 0, j).unwrap().0[fold_up(final_bwt_aux_scan_left_to_right_8u_slot_step(t, rm), x, 0, j).unwrap().1[v] as int]
                    == 0
        }),
    ensures
        ({
            let z = bwt_aux_left_walked(t, n, rm, k, threads, s).unwrap();
            bwt_aux_left_8u(t, n, rm, (s.0, s.1, s.2)) == Some((z.0, z.1, z.2))
        }),
{
    if !(threads == 1 || n < 65536) {
        let y = seeded_8u_1k(t, n, (s.0, s.1)).unwrap();
        let x = (y.0, y.1, sampled(s.2, rm, (n - 1) as i32, y.1[t[n - 1] as int]).unwrap());
        assert(fold_up(final_bwt_aux_scan_left_to_right_8u_slot_step(t, rm), x, 0, 0) == Some(x));
        lemma_bwt_aux_left_walk(t, rm, k, worker_span(threads), x, s.3, 0, n);
    }
}

/// A run of filled slots, downward.
proof fn lemma_filled_down(sa: Seq<i32>, i: int, min: int)
    ensures
        i >= min ==> min <= filled_down(sa, i, min) <= i,
        i < min ==> filled_down(sa, i, min) == i,
        forall|q: int| filled_down(sa, i, min) <= q < i ==> #[trigger] sa[q] != 0,
    decreases i - min,
{
    if i > min && sa[i - 1] != 0 {
        lemma_filled_down(sa, i - 1, min);
    }
}

/// Whether the step of a sampling scan downward at `j` moves the counter at `v`.
pub open spec fn sample_moved(
    step: spec_fn((Seq<i32>, Seq<i32>, Seq<i32>), int) -> Option<(Seq<i32>, Seq<i32>, Seq<i32>)>,
    s: (Seq<i32>, Seq<i32>, Seq<i32>),
    hi: int,
    j: int,
    v: int,
) -> bool {
    fold_down(step, s, j, hi).unwrap().1[v] != fold_down(step, s, j + 1, hi).unwrap().1[v]
}

/// What was found before does not matter to the scan for the whole text.
proof fn lemma_bwt_right_alike(t: Seq<u8>, s: InduceState, e: i32, lo: int, hi: int)
    requires
        fold_down(final_bwt_scan_right_to_left_8u_step(t), s, lo, hi) is Some,
    ensures
        ({
            let x = fold_down(final_bwt_scan_right_to_left_8u_step(t), s, lo, hi).unwrap();
            let y = fold_down(final_bwt_scan_right_to_left_8u_step(t), (s.0, s.1, e), lo, hi);
            &&& y is Some
            &&& y.unwrap().0 == x.0
            &&& y.unwrap().1 == x.1
            &&& y.unwrap().2 == x.2 || (x.2 == s.2 && y.unwrap().2 == e)
        }),
    decreases hi - lo,
{
    if lo < hi {
        lemma_fold_down_prefix(final_bwt_scan_right_to_left_8u_step(t), s, lo, lo + 1, hi);
        lemma_bwt_right_alike(t, s, e, lo + 1, hi);
    }
}

/// The direct scan keeps the numbers of slots and counters.
proof fn lemma_sort_right_sized(t: Seq<u8>, s: PlaceState, lo: int, hi: int)
    requires
        fold_down(final_sorting_scan_right_to_left_8u_step(t), s, lo, hi) is Some,
    ensures
        fold_down(final_sorting_scan_right_to_left_8u_step(t), s, lo, hi).unwrap().0.len() == s.0.len(),
        fold_down(final_sorting_scan_right_to_left_8u_step(t), s, lo, hi).unwrap().1.len() == s.1.len(),
    decreases hi - lo,
{
    if lo < hi {
        lemma_fold_down_prefix(final_sorting_scan_right_to_left_8u_step(t), s, lo, lo + 1, hi);
        lemma_sort_right_sized(t, s, lo + 1, hi);
        assert(final_sorting_scan_right_to_left_8u_step(t)(fold_down(final_sorting_scan_right_to_left_8u_step(t), s, lo + 1, hi).unwrap(), lo) is Some);
    }
}

/// While the direct scan reads a run of filled slots, it writes in front of the run.
proof fn lemma_sort_right_ahead(t: Seq<u8>, s: PlaceState, end: int, top: int, j: int)
    requires
        0 <= end <= j <= top <= s.0.len(),
        fold_down(final_sorting_scan_right_to_left_8u_step(t), s, end, top) is Some,
        forall|q: int| end <= q < top ==> #[trigger] s.0[q] != 0,
        forall|j: int, v: int| end <= j < top && 0 <= v < s.1.len()
            && #[trigger] head_moved(final_sorting_scan_right_to_left_8u_step(t), s, top, j, v) ==>
            fold_down(final_sorting_scan_right_to_left_8u_step(t), s, j, top).unwrap().1[v] < j
            && fold_down(final_sorting_scan_right_to_left_8u_step(t), s, j + 1, top).unwrap().0[fold_down(final_sorting_scan_right_to_left_8u_step(t), s, j, top).unwrap().1[v] as int]
                == 0,
    ensures
        fold_down(final_sorting_scan_right_to_left_8u_step(t), s, j, top) is Some,
        fold_down(final_sorting_scan_right_to_left_8u_step(t), s, j, top).unwrap().0.len() == s.0.len(),
        fold_down(final_sorting_scan_right_to_left_8u_step(t), s, j, top).unwrap().1.len() == s.1.len(),
        forall|v: int| 0 <= v < s.1.len()
            && #[trigger] fold_down(final_sorting_scan_right_to_left_8u_step(t), s, j, top).unwrap().1[v] != s.1[v]
            ==> s.1[v] <= end,
        forall|v: int| 0 <= v < s.1.len()
            ==> #[trigger] fold_down(final_sorting_scan_right_to_left_8u_step(t), s, j, top).unwrap().1[v] <= s.1[v],
        forall|q: int| end <= q < j ==> #[trigger] fold_down(final_sorting_scan_right_to_left_8u_step(t), s, j, top).unwrap().0[q]
            == s.0[q],
    decreases top - j,
{
    let direct = final_sorting_scan_right_to_left_8u_step(t);
    lemma_fold_down_prefix(direct, s, end, j, top);
    if j < top {
        lemma_fold_down_prefix(direct, s, end, j + 1, top);
        lemma_sort_right_ahead(t, s, end, top, j + 1);
        let x = fold_down(final_sorting_scan_right_to_left_8u_step(t), s, j + 1, top).unwrap();
        let y = fold_down(final_sorting_scan_right_to_left_8u_step(t), s, j, top).unwrap();
        assert(direct(x, j) == Some(y));
        assert(x.0[j] == s.0[j]);
        if x.0[j] > 0 {
            let v = t[x.0[j] - 1] as int;
            assert(y.1[v] == x.1[v] - 1);
            assert(head_moved(final_sorting_scan_right_to_left_8u_step(t), s, top, j, v));
            let target = y.1[v] as int;
            if target >= end {
                assert(x.1[v] == s.1[v]);
                assert(x.0[target] == s.0[target]);
            }
        }
    }
}

/// Where a scan downward from `hi` has come to `mid`, it goes on as one that starts there.
proof fn lemma_sort_right_onward(t: Seq<u8>, s: PlaceState, lo: int, mid: int, hi: int, j: int, v: int)
    requires
        lo <= j < mid <= hi,
        fold_down(final_sorting_scan_right_to_left_8u_step(t), s, lo, hi) is Some,
    ensures
        fold_down(final_sorting_scan_right_to_left_8u_step(t), fold_down(final_sorting_scan_right_to_left_8u_step(t), s, mid, hi).unwrap(), j, mid)
            == fold_down(final_sorting_scan_right_to_left_8u_step(t), s, j, hi),
        fold_down(final_sorting_scan_right_to_left_8u_step(t), fold_down(final_sorting_scan_right_to_left_8u_step(t), s, mid, hi).unwrap(), j + 1, mid)
            == fold_down(final_sorting_scan_right_to_left_8u_step(t), s, j + 1, hi),
        head_moved(final_sorting_scan_right_to_left_8u_step(t), fold_down(final_sorting_scan_right_to_left_8u_step(t), s, mid, hi).unwrap(), mid, j, v)
            == head_moved(final_sorting_scan_right_to_left_8u_step(t), s, hi, j, v),
{
    lemma_fold_down_split(final_sorting_scan_right_to_left_8u_step(t), s, j, mid, hi);
    lemma_fold_down_split(final_sorting_scan_right_to_left_8u_step(t), s, j + 1, mid, hi);
    lemma_fold_down_prefix(final_sorting_scan_right_to_left_8u_step(t), s, lo, j, hi);
    lemma_fold_down_prefix(final_sorting_scan_right_to_left_8u_step(t), s, lo, j + 1, hi);
    lemma_fold_down_prefix(final_sorting_scan_right_to_left_8u_step(t), s, lo, mid, hi);
}

/// A walk downward leaves what the direct scan leaves.
#[verifier::spinoff_prover]
proof fn lemma_sort_right_walk(t: Seq<u8>, k: int, span: int, s: PlaceState, desks: Seq<Desk>, lo: int, mid: int, hi: int)
    requires
        0 <= lo <= mid <= hi <= s.0.len(),
        0 <= k <= s.1.len(),
        fold_down(final_sorting_scan_right_to_left_8u_step(t), s, lo, hi) is Some,
        forall|q: int| 0 <= q < t.len() ==> #[trigger] t[q] < k,
        desks.len() > 0 ==> desks[0].cache.len() <= isize::MAX,
        walk_down(final_array(), final_empty(), sort_right_short(t), sort_right_long(t, k), span, (fold_down(final_sorting_scan_right_to_left_8u_step(t), s, mid, hi).unwrap().0, fold_down(final_sorting_scan_right_to_left_8u_step(t), s, mid, hi).unwrap().1, desks), lo, mid) is Some,
        forall|j: int, v: int| lo <= j < mid && 0 <= v < s.1.len()
            && #[trigger] head_moved(final_sorting_scan_right_to_left_8u_step(t), s, hi, j, v) ==>
            fold_down(final_sorting_scan_right_to_left_8u_step(t), s, j, hi).unwrap().1[v] < j
            && fold_down(final_sorting_scan_right_to_left_8u_step(t), s, j + 1, hi).unwrap().0[fold_down(final_sorting_scan_right_to_left_8u_step(t), s, j, hi).unwrap().1[v] as int]
                == 0,
    ensures
        ({
            let z = walk_down(final_array(), final_empty(), sort_right_short(t), sort_right_long(t, k), span, (fold_down(final_sorting_scan_right_to_left_8u_step(t), s, mid, hi).unwrap().0, fold_down(final_sorting_scan_right_to_left_8u_step(t), s, mid, hi).unwrap().1, desks), lo, mid).unwrap();
            (z.0, z.1) == fold_down(final_sorting_scan_right_to_left_8u_step(t), s, lo, hi).unwrap()
        }),
    decreases mid - lo,
{
    let direct = final_sorting_scan_right_to_left_8u_step(t);
    lemma_fold_down_prefix(direct, s, lo, mid, hi);
    lemma_sort_right_sized(t, s, mid, hi);
    if lo < mid {
        let x = fold_down(final_sorting_scan_right_to_left_8u_step(t), s, mid, hi).unwrap();
        let p = mid - 1;
        if x.0[p] == 0 {
            lemma_fold_down_prefix(direct, s, lo, p, hi);
            assert(direct(x, p) == fold_down(direct, s, p, hi));
            assert(x.0.update(p, 0i32) =~= x.0);
            lemma_sort_right_walk(t, k, span, s, desks, lo, p, hi);
        } else {
            let low = if p - span > lo { p - span } else { lo };
            let end = filled_down(x.0, p, low);
            lemma_filled_down(x.0, p, low);
            lemma_fold_down_prefix(direct, s, lo, end, hi);
            lemma_fold_down_split(direct, s, end, mid, hi);
            assert(fold_down(direct, x, end, mid) == fold_down(direct, s, end, hi));
            assert forall|j: int, v: int| end <= j < mid && 0 <= v < x.1.len()
                && #[trigger] head_moved(final_sorting_scan_right_to_left_8u_step(t), x, mid, j, v) implies
                fold_down(final_sorting_scan_right_to_left_8u_step(t), x, j, mid).unwrap().1[v] < j
                && fold_down(final_sorting_scan_right_to_left_8u_step(t), x, j + 1, mid).unwrap().0[fold_down(final_sorting_scan_right_to_left_8u_step(t), x, j, mid).unwrap().1[v] as int]
                    == 0 by {
                lemma_sort_right_onward(t, s, lo, mid, hi, j, v);
            }
            lemma_sort_right_ahead(t, x, end, mid, end);
            if mid - end < 32 || desks.len() == 0 {
                lemma_sort_right_walk(t, k, span, s, desks, lo, end, hi);
            } else {
                let b = (x.0, x.1, desks);
                assert forall|v: int| 0 <= v < k && #[trigger] b.1[v]
                    != final_sorting_scan_right_to_left_8u_run(t, (b.0, b.1), end, mid - end).unwrap().1[v]
                    implies b.1[v] <= end by {
                    assert(fold_down(final_sorting_scan_right_to_left_8u_step(t), x, end, mid).unwrap().1[v] != x.1[v]);
                }
                law_block_final_right(t, k, b, end, mid - end);
                let z = block_final_right(t, k, b, end, mid - end).unwrap();
                assert(z.1 =~= fold_down(final_sorting_scan_right_to_left_8u_step(t), x, end, mid).unwrap().1);
                lemma_sort_right_walk(t, k, span, s, z.2, lo, end, hi);
            }
        }
    }
}

/// A scan downward for the sorted order leaves the array and the counters that one worker
/// leaves, whatever the number of workers, where every head that the direct scan moves goes to an
/// empty slot ahead of it.
pub proof fn law_walked_sort_right(t: Seq<u8>, k: int, lo: int, hi: int, threads: int, s: FinalState)
    requires
        0 <= lo <= hi <= s.0.len(),
        0 <= k <= s.1.len(),
        forall|q: int| 0 <= q < t.len() ==> #[trigger] t[q] < k,
        s.2.len() > 0 ==> s.2[0].cache.len() <= isize::MAX,
        sort_right_walked(t, k, lo, hi, threads, s) is Some,
        final_sorting_scan_right_to_left_8u_run(t, (s.0, s.1), lo, hi - lo) is Some,
        forall|j: int, v: int| lo <= j < hi && 0 <= v < s.1.len()
            && #[trigger] head_moved(final_sorting_scan_right_to_left_8u_step(t), (s.0, s.1), hi, j, v) ==>
            fold_down(final_sorting_scan_right_to_left_8u_step(t), (s.0, s.1), j, hi).unwrap().1[v] < j
            && fold_down(final_sorting_scan_right_to_left_8u_step(t), (s.0, s.1), j + 1, hi).unwrap().0[fold_down(final_sorting_scan_right_to_left_8u_step(t), (s.0, s.1), j, hi).unwrap().1[v] as int]
                == 0,
    ensures
        ({
            let z = sort_right_walked(t, k, lo, hi, threads, s).unwrap();
            final_sorting_scan_right_to_left_8u_run(t, (s.0, s.1), lo, hi - lo) == Some((z.0, z.1))
        }),
{
    if !(threads == 1 || hi - lo < 65536) {
        let x = (s.0, s.1);
        assert(fold_down(final_sorting_scan_right_to_left_8u_step(t), x, hi, hi) == Some(x));
        lemma_sort_right_walk(t, k, worker_span(threads), x, s.2, lo, hi, hi);
    }
}

/// The direct scan keeps the numbers of slots and counters.
proof fn lemma_bwt_aux_right_sized(t: Seq<u8>, rm: i32, s: (Seq<i32>, Seq<i32>, Seq<i32>), lo: int, hi: int)
    requires
        fold_down(final_bwt_aux_scan_right_to_left_8u_slot_step(t, rm), s, lo, hi) is Some,
    ensures
        fold_down(final_bwt_aux_scan_right_to_left_8u_slot_step(t, rm), s, lo, hi).unwrap().0.len() == s.0.len(),
        fold_down(final_bwt_aux_scan_right_to_left_8u_slot_step(t, rm), s, lo, hi).unwrap().1.len() == s.1.len(),
    decreases hi - lo,
{
    if lo < hi {
        lemma_fold_down_prefix(final_bwt_aux_scan_right_to_left_8u_slot_step(t, rm), s, lo, lo + 1, hi);
        lemma_bwt_aux_right_sized(t, rm, s, lo + 1, hi);
        assert(final_bwt_aux_scan_right_to_left_8u_slot_step(t, rm)(fold_down(final_bwt_aux_scan_right_to_left_8u_slot_step(t, rm), s, lo + 1, hi).unwrap(), lo) is Some);
    }
}

/// While the direct scan reads a run of filled slots, it writes in front of the run.
proof fn lemma_bwt_aux_right_ahead(t: Seq<u8>, rm: i32, s: (Seq<i32>, Seq<i32>, Seq<i32>), end: int, top: int, j: int)
    requires
        0 <= end <= j <= top <= s.0.len(),
        fold_down(final_bwt_aux_scan_right_to_left_8u_slot_step(t, rm), s, end, top) is Some,
        forall|q: int| end <= q < top ==> #[trigger] s.0[q] != 0,
        forall|j: int, v: int| end <= j < top && 0 <= v < s.1.len()
            && #[trigger] sample_moved(final_bwt_aux_scan_right_to_left_8u_slot_step(t, rm), s, top, j, v) ==>
            fold_down(final_bwt_aux_scan_right_to_left_8u_slot_step(t, rm), s, j, top).unwrap().1[v] < j
            && fold_down(final_bwt_aux_scan_right_to_left_8u_slot_step(t, rm), s, j + 1, top).unwrap().0[fold_down(final_bwt_aux_scan_right_to_left_8u_slot_step(t, rm), s, j, top).unwrap().1[v] as int]
                == 0,
    ensures
        fold_down(final_bwt_aux_scan_right_to_left_8u_slot_step(t, rm), s, j, top) is Some,
        fold_down(final_bwt_aux_scan_right_to_left_8u_slot_step(t, rm), s, j, top).unwrap().0.len() == s.0.len(),
        fold_down(final_bwt_aux_scan_right_to_left_8u_slot_step(t, rm), s, j, top).unwrap().1.len() == s.1.len(),
        forall|v: int| 0 <= v < s.1.len()
            && #[trigger] fold_down(final_bwt_aux_scan_right_to_left_8u_slot_step(t, rm), s, j, top).unwrap().1[v] != s.1[v]
            ==> s.1[v] <= end,
        forall|v: int| 0 <= v < s.1.len()
            ==> #[trigger] fold_down(final_bwt_aux_scan_right_to_left_8u_slot_step(t, rm), s, j, top).unwrap().1[v] <= s.1[v],
        forall|q: int| end <= q < j
            ==> #[trigger] fold_down(final_bwt_aux_scan_right_to_left_8u_slot_step(t, rm), s, j, top).unwrap().0[q] == s.0[q],
    decreases top - j,
{
    let direct = final_bwt_aux_scan_right_to_left_8u_slot_step(t, rm);
    lemma_fold_down_prefix(direct, s, end, j, top);
    if j < top {
        lemma_fold_down_prefix(direct, s, end, j + 1, top);
        lemma_bwt_aux_right_ahead(t, rm, s, end, top, j + 1);
        let x = fold_down(final_bwt_aux_scan_right_to_left_8u_slot_step(t, rm), s, j + 1, top).unwrap();
        let y = fold_down(final_bwt_aux_scan_right_to_left_8u_slot_step(t, rm), s, j, top).unwrap();
        assert(direct(x, j) == Some(y));
        assert(x.0[j] == s.0[j]);
        if x.0[j] > 0 {
            let v = t[x.0[j] - 1] as int;
            assert(y.1[v] == x.1[v] - 1);
            assert(sample_moved(final_bwt_aux_scan_right_to_left_8u_slot_step(t, rm), s, top, j, v));
            let target = y.1[v] as int;
            if target >= end {
                assert(x.1[v] == s.1[v]);
                assert(x.0[target] == s.0[target]);
            }
        }
    }
}

/// Where a scan downward from `hi` has come to `mid`, it goes on as one that starts there.
proof fn lemma_bwt_aux_right_onward(t: Seq<u8>, rm: i32, s: (Seq<i32>, Seq<i32>, Seq<i32>), lo: int, mid: int, hi: int, j: int, v: int)
    requires
        lo <= j < mid <= hi,
        fold_down(final_bwt_aux_scan_right_to_left_8u_slot_step(t, rm), s, lo, hi) is Some,
    ensures
        fold_down(final_bwt_aux_scan_right_to_left_8u_slot_step(t, rm), fold_down(final_bwt_aux_scan_right_to_left_8u_slot_step(t, rm), s, mid, hi).unwrap(), j, mid)
            == fold_down(final_bwt_aux_scan_right_to_left_8u_slot_step(t, rm), s, j, hi),
        fold_down(final_bwt_aux_scan_right_to_left_8u_slot_step(t, rm), fold_down(final_bwt_aux_scan_right_to_left_8u_slot_step(t, rm), s, mid, hi).unwrap(), j + 1, mid)
            == fold_down(final_bwt_aux_scan_right_to_left_8u_slot_step(t, rm), s, j + 1, hi),
        sample_moved(final_bwt_aux_scan_right_to_left_8u_slot_step(t, rm), fold_down(final_bwt_aux_scan_right_to_left_8u_slot_step(t, rm), s, mid, hi).unwrap(), mid, j, v)
            == sample_moved(final_bwt_aux_scan_right_to_left_8u_slot_step(t, rm), s, hi, j, v),
{
    lemma_fold_down_split(final_bwt_aux_scan_right_to_left_8u_slot_step(t, rm), s, j, mid, hi);
    lemma_fold_down_split(final_bwt_aux_scan_right_to_left_8u_slot_step(t, rm), s, j + 1, mid, hi);
    lemma_fold_down_prefix(final_bwt_aux_scan_right_to_left_8u_slot_step(t, rm), s, lo, j, hi);
    lemma_fold_down_prefix(final_bwt_aux_scan_right_to_left_8u_slot_step(t, rm), s, lo, j + 1, hi);
    lemma_fold_down_prefix(final_bwt_aux_scan_right_to_left_8u_slot_step(t, rm), s, lo, mid, hi);
}

/// A walk downward leaves what the direct scan leaves.
#[verifier::spinoff_prover]
proof fn lemma_bwt_aux_right_walk(t: Seq<u8>, rm: i32, k: int, span: int, s: (Seq<i32>, Seq<i32>, Seq<i32>), desks: Seq<Desk>, lo: int, mid: int, hi: int)
    requires
        0 <= lo <= mid <= hi <= s.0.len(),
        0 <= k <= s.1.len(),
        0 <= rm,
        fold_down(final_bwt_aux_scan_right_to_left_8u_slot_step(t, rm), s, lo, hi) is Some,
        forall|q: int| 0 <= q < t.len() ==> #[trigger] t[q] < k,
        desks.len() > 0 ==> desks[0].cache.len() <= isize::MAX,
        walk_down(sampling_array(), sampling_empty(), bwt_aux_right_short(t, rm), bwt_aux_right_long(t, rm, k), span, (fold_down(final_bwt_aux_scan_right_to_left_8u_slot_step(t, rm), s, mid, hi).unwrap().0, fold_down(final_bwt_aux_scan_right_to_left_8u_slot_step(t, rm), s, mid, hi).unwrap().1, fold_down(final_bwt_aux_scan_right_to_left_8u_slot_step(t, rm), s, mid, hi).unwrap().2, desks), lo, mid) is Some,
        forall|j: int, v: int| lo <= j < mid && 0 <= v < s.1.len()
            && #[trigger] sample_moved(final_bwt_aux_scan_right_to_left_8u_slot_step(t, rm), s, hi, j, v) ==>
            fold_down(final_bwt_aux_scan_right_to_left_8u_slot_step(t, rm), s, j, hi).unwrap().1[v] < j
            && fold_down(final_bwt_aux_scan_right_to_left_8u_slot_step(t, rm), s, j + 1, hi).unwrap().0[fold_down(final_bwt_aux_scan_right_to_left_8u_slot_step(t, rm), s, j, hi).unwrap().1[v] as int]
                == 0,
    ensures
        ({
            let z = walk_down(sampling_array(), sampling_empty(), bwt_aux_right_short(t, rm), bwt_aux_right_long(t, rm, k), span, (fold_down(final_bwt_aux_scan_right_to_left_8u_slot_step(t, rm), s, mid, hi).unwrap().0, fold_down(final_bwt_aux_scan_right_to_left_8u_slot_step(t, rm), s, mid, hi).unwrap().1, fold_down(final_bwt_aux_scan_right_to_left_8u_slot_step(t, rm), s, mid, hi).unwrap().2, desks), lo, mid).unwrap();
            (z.0, z.1, z.2) == fold_down(final_bwt_aux_scan_right_to_left_8u_slot_step(t, rm), s, lo, hi).unwrap()
        }),
    decreases mid - lo,
{
    let direct = final_bwt_aux_scan_right_to_left_8u_slot_step(t, rm);
    lemma_fold_down_prefix(direct, s, lo, mid, hi);
    lemma_bwt_aux_right_sized(t, rm, s, mid, hi);
    if lo < mid {
        let x = fold_down(final_bwt_aux_scan_right_to_left_8u_slot_step(t, rm), s, mid, hi).unwrap();
        let p = mid - 1;
        if x.0[p] == 0 {
            lemma_fold_down_prefix(direct, s, lo, p, hi);
            assert(direct(x, p) == fold_down(direct, s, p, hi));
            assert(x.0.update(p, 0i32) =~= x.0);
            lemma_bwt_aux_right_walk(t, rm, k, span, s, desks, lo, p, hi);
        } else {
            let low = if p - span > lo { p - span } else { lo };
            let end = filled_down(x.0, p, low);
            lemma_filled_down(x.0, p, low);
            lemma_fold_down_prefix(direct, s, lo, end, hi);
            lemma_fold_down_split(direct, s, end, mid, hi);
            assert(fold_down(direct, x, end, mid) == fold_down(direct, s, end, hi));
            assert forall|j: int, v: int| end <= j < mid && 0 <= v < x.1.len()
                && #[trigger] sample_moved(final_bwt_aux_scan_right_to_left_8u_slot_step(t, rm), x, mid, j, v) implies
                fold_down(final_bwt_aux_scan_right_to_left_8u_slot_step(t, rm), x, j, mid).unwrap().1[v] < j
                && fold_down(final_bwt_aux_scan_right_to_left_8u_slot_step(t, rm), x, j + 1, mid).unwrap().0[fold_down(final_bwt_aux_scan_right_to_left_8u_slot_step(t, rm), x, j, mid).unwrap().1[v] as int]
                    == 0 by {
                lemma_bwt_aux_right_onward(t, rm, s, lo, mid, hi, j, v);
            }
            lemma_bwt_aux_right_ahead(t, rm, x, end, mid, end);
            if mid - end < 32 || desks.len() == 0 {
                lemma_bwt_aux_right_walk(t, rm, k, span, s, desks, lo, end, hi);
            } else {
                let b = (x.0, x.1, x.2, desks);
                assert forall|v: int| 0 <= v < k && #[trigger] b.1[v]
                    != final_bwt_aux_scan_right_to_left_8u_run(t, rm, (b.0, b.1, b.2), end, mid - end).unwrap().1[v]
                    implies b.1[v] <= end by {
                    assert(fold_down(final_bwt_aux_scan_right_to_left_8u_slot_step(t, rm), x, end, mid).unwrap().1[v] != x.1[v]);
                }
                law_block_bwt_aux_right(t, rm, k, b, end, mid - end);
                let z = block_bwt_aux_right(t, rm, k, b, end, mid - end).unwrap();
                assert(z.1 =~= fold_down(final_bwt_aux_scan_right_to_left_8u_slot_step(t, rm), x, end, mid).unwrap().1);
                lemma_bwt_aux_right_walk(t, rm, k, span, s, z.3, lo, end, hi);
            }
        }
    }
}

/// A scan downward for the transformed text and its samples leaves the array, the counters and the samples that one worker
/// leaves, whatever the number of workers, where every head that the direct scan moves goes to an
/// empty slot ahead of it.
pub proof fn law_walked_bwt_aux_right(t: Seq<u8>, rm: i32, k: int, lo: int, hi: int, threads: int, s: SamplingState)
    requires
        0 <= lo <= hi <= s.0.len(),
        0 <= k <= s.1.len(),
        0 <= rm,
        forall|q: int| 0 <= q < t.len() ==> #[trigger] t[q] < k,
        s.3.len() > 0 ==> s.3[0].cache.len() <= isize::MAX,
        bwt_aux_right_walked(t, rm, k, lo, hi, threads, s) is Some,
        final_bwt_aux_scan_right_to_left_8u_run(t, rm, (s.0, s.1, s.2), lo, hi - lo) is Some,
        forall|j: int, v: int| lo <= j < hi && 0 <= v < s.1.len()
            && #[trigger] sample_moved(final_bwt_aux_scan_right_to_left_8u_slot_step(t, rm), (s.0, s.1, s.2), hi, j, v) ==>
            fold_down(final_bwt_aux_scan_right_to_left_8u_slot_step(t, rm), (s.0, s.1, s.2), j, hi).unwrap().1[v] < j
            && fold_down(final_bwt_aux_scan_right_to_left_8u_slot_step(t, rm), (s.0, s.1, s.2), j + 1, hi).unwrap().0[fold_down(final_bwt_aux_scan_right_to_left_8u_slot_step(t, rm), (s.0, s.1, s.2), j, hi).unwrap().1[v] as int]
                == 0,
    ensures
        ({
            let z = bwt_aux_right_walked(t, rm, k, lo, hi, threads, s).unwrap();
            final_bwt_aux_scan_right_to_left_8u_run(t, rm, (s.0, s.1, s.2), lo, hi - lo) == Some((z.0, z.1, z.2))
        }),
{
    if !(threads == 1 || hi - lo < 65536) {
        let x = (s.0, s.1, s.2);
        assert(fold_down(final_bwt_aux_scan_right_to_left_8u_slot_step(t, rm), x, hi, hi) == Some(x));
        lemma_bwt_aux_right_walk(t, rm, k, half_span(threads), x, s.3, lo, hi, hi);
    }
}

/// The direct scan keeps the numbers of slots and counters.
proof fn lemma_bwt_right_sized(t: Seq<u8>, s: InduceState, lo: int, hi: int)
    requires
        fold_down(final_bwt_scan_right_to_left_8u_step(t), s, lo, hi) is Some,
    ensures
        fold_down(final_bwt_scan_right_to_left_8u_step(t), s, lo, hi).unwrap().0.len() == s.0.len(),
        fold_down(final_bwt_scan_right_to_left_8u_step(t), s, lo, hi).unwrap().1.len() == s.1.len(),
    decreases hi - lo,
{
    if lo < hi {
        lemma_fold_down_prefix(final_bwt_scan_right_to_left_8u_step(t), s, lo, lo + 1, hi);
        lemma_bwt_right_sized(t, s, lo + 1, hi);
        assert(final_bwt_scan_right_to_left_8u_step(t)(fold_down(final_bwt_scan_right_to_left_8u_step(t), s, lo + 1, hi).unwrap(), lo) is Some);
    }
}

/// While the direct scan reads a run of filled slots, it writes in front of the run.
proof fn lemma_bwt_right_ahead(t: Seq<u8>, s: InduceState, end: int, top: int, j: int)
    requires
        0 <= end <= j <= top <= s.0.len(),
        fold_down(final_bwt_scan_right_to_left_8u_step(t), s, end, top) is Some,
        forall|q: int| end <= q < top ==> #[trigger] s.0[q] != 0,
        forall|j: int, v: int| end <= j < top && 0 <= v < s.1.len()
            && #[trigger] name_moved(final_bwt_scan_right_to_left_8u_step(t), s, top, j, v) ==>
            fold_down(final_bwt_scan_right_to_left_8u_step(t), s, j, top).unwrap().1[v] < j
            && fold_down(final_bwt_scan_right_to_left_8u_step(t), s, j + 1, top).unwrap().0[fold_down(final_bwt_scan_right_to_left_8u_step(t), s, j, top).unwrap().1[v] as int]
                == 0,
    ensures
        fold_down(final_bwt_scan_right_to_left_8u_step(t), s, j, top) is Some,
        fold_down(final_bwt_scan_right_to_left_8u_step(t), s, j, top).unwrap().0.len() == s.0.len(),
        fold_down(final_bwt_scan_right_to_left_8u_step(t), s, j, top).unwrap().1.len() == s.1.len(),
        fold_down(final_bwt_scan_right_to_left_8u_step(t), s, j, top).unwrap().2 == s.2,
        forall|v: int| 0 <= v < s.1.len()
            && #[trigger] fold_down(final_bwt_scan_right_to_left_8u_step(t), s, j, top).unwrap().1[v] != s.1[v] ==> s.1[v] <= end,
        forall|v: int| 0 <= v < s.1.len()
            ==> #[trigger] fold_down(final_bwt_scan_right_to_left_8u_step(t), s, j, top).unwrap().1[v] <= s.1[v],
        forall|q: int| end <= q < j ==> #[trigger] fold_down(final_bwt_scan_right_to_left_8u_step(t), s, j, top).unwrap().0[q] == s.0[q],
    decreases top - j,
{
    let direct = final_bwt_scan_right_to_left_8u_step(t);
    lemma_fold_down_prefix(direct, s, end, j, top);
    if j < top {
        lemma_fold_down_prefix(direct, s, end, j + 1, top);
        lemma_bwt_right_ahead(t, s, end, top, j + 1);
        let x = fold_down(final_bwt_scan_right_to_left_8u_step(t), s, j + 1, top).unwrap();
        let y = fold_down(final_bwt_scan_right_to_left_8u_step(t), s, j, top).unwrap();
        assert(direct(x, j) == Some(y));
        assert(x.0[j] == s.0[j]);
        if x.0[j] > 0 {
            let v = t[x.0[j] - 1] as int;
            assert(y.1[v] == x.1[v] - 1);
            assert(name_moved(final_bwt_scan_right_to_left_8u_step(t), s, top, j, v));
            let target = y.1[v] as int;
            if target >= end {
                assert(x.1[v] == s.1[v]);
                assert(x.0[target] == s.0[target]);
            }
        }
    }
}

/// Where a scan downward from `hi` has come to `mid`, it goes on as one that starts there.
proof fn lemma_bwt_right_onward(t: Seq<u8>, s: InduceState, lo: int, mid: int, hi: int, j: int, v: int)
    requires
        lo <= j < mid <= hi,
        fold_down(final_bwt_scan_right_to_left_8u_step(t), s, lo, hi) is Some,
    ensures
        fold_down(final_bwt_scan_right_to_left_8u_step(t), fold_down(final_bwt_scan_right_to_left_8u_step(t), s, mid, hi).unwrap(), j, mid)
            == fold_down(final_bwt_scan_right_to_left_8u_step(t), s, j, hi),
        fold_down(final_bwt_scan_right_to_left_8u_step(t), fold_down(final_bwt_scan_right_to_left_8u_step(t), s, mid, hi).unwrap(), j + 1, mid)
            == fold_down(final_bwt_scan_right_to_left_8u_step(t), s, j + 1, hi),
        name_moved(final_bwt_scan_right_to_left_8u_step(t), fold_down(final_bwt_scan_right_to_left_8u_step(t), s, mid, hi).unwrap(), mid, j, v)
            == name_moved(final_bwt_scan_right_to_left_8u_step(t), s, hi, j, v),
{
    lemma_fold_down_split(final_bwt_scan_right_to_left_8u_step(t), s, j, mid, hi);
    lemma_fold_down_split(final_bwt_scan_right_to_left_8u_step(t), s, j + 1, mid, hi);
    lemma_fold_down_prefix(final_bwt_scan_right_to_left_8u_step(t), s, lo, j, hi);
    lemma_fold_down_prefix(final_bwt_scan_right_to_left_8u_step(t), s, lo, j + 1, hi);
    lemma_fold_down_prefix(final_bwt_scan_right_to_left_8u_step(t), s, lo, mid, hi);
}

/// A walk downward leaves what the direct scan leaves.
#[verifier::spinoff_prover]
proof fn lemma_bwt_right_walk(t: Seq<u8>, k: int, span: int, s: InduceState, desks: Seq<Desk>, lo: int, mid: int, hi: int)
    requires
        0 <= lo <= mid <= hi <= s.0.len(),
        0 <= k <= s.1.len(),
        fold_down(final_bwt_scan_right_to_left_8u_step(t), s, lo, hi) is Some,
        forall|q: int| 0 <= q < t.len() ==> #[trigger] t[q] < k,
        desks.len() > 0 ==> desks[0].cache.len() <= isize::MAX,
        walk_down(ranking_array(), ranking_empty(), bwt_right_short(t), bwt_right_long(t, k), span, (fold_down(final_bwt_scan_right_to_left_8u_step(t), s, mid, hi).unwrap().0, fold_down(final_bwt_scan_right_to_left_8u_step(t), s, mid, hi).unwrap().1, fold_down(final_bwt_scan_right_to_left_8u_step(t), s, mid, hi).unwrap().2, desks), lo, mid) is Some,
        forall|j: int, v: int| lo <= j < mid && 0 <= v < s.1.len()
            && #[trigger] name_moved(final_bwt_scan_right_to_left_8u_step(t), s, hi, j, v) ==>
            fold_down(final_bwt_scan_right_to_left_8u_step(t), s, j, hi).unwrap().1[v] < j
            && fold_down(final_bwt_scan_right_to_left_8u_step(t), s, j + 1, hi).unwrap().0[fold_down(final_bwt_scan_right_to_left_8u_step(t), s, j, hi).unwrap().1[v] as int]
                == 0,
    ensures
        ({
            let z = walk_down(ranking_array(), ranking_empty(), bwt_right_short(t), bwt_right_long(t, k), span, (fold_down(final_bwt_scan_right_to_left_8u_step(t), s, mid, hi).unwrap().0, fold_down(final_bwt_scan_right_to_left_8u_step(t), s, mid, hi).unwrap().1, fold_down(final_bwt_scan_right_to_left_8u_step(t), s, mid, hi).unwrap().2, desks), lo, mid).unwrap();
            (z.0, z.1, z.2) == fold_down(final_bwt_scan_right_to_left_8u_step(t), s, lo, hi).unwrap()
        }),
    decreases mid - lo,
{
    let direct = final_bwt_scan_right_to_left_8u_step(t);
    lemma_fold_down_prefix(direct, s, lo, mid, hi);
    lemma_bwt_right_sized(t, s, mid, hi);
    if lo < mid {
        let x = fold_down(final_bwt_scan_right_to_left_8u_step(t), s, mid, hi).unwrap();
        let p = mid - 1;
        if x.0[p] == 0 {
            lemma_fold_down_prefix(direct, s, lo, p, hi);
            assert(direct(x, p) == fold_down(direct, s, p, hi));
            assert(x.0.update(p, 0i32) =~= x.0);
            lemma_bwt_right_walk(t, k, span, s, desks, lo, p, hi);
        } else {
            let low = if p - span > lo { p - span } else { lo };
            let end = filled_down(x.0, p, low);
            lemma_filled_down(x.0, p, low);
            lemma_fold_down_prefix(direct, s, lo, end, hi);
            lemma_fold_down_split(direct, s, end, mid, hi);
            assert(fold_down(direct, x, end, mid) == fold_down(direct, s, end, hi));
            assert forall|j: int, v: int| end <= j < mid && 0 <= v < x.1.len()
                && #[trigger] name_moved(final_bwt_scan_right_to_left_8u_step(t), x, mid, j, v) implies
                fold_down(final_bwt_scan_right_to_left_8u_step(t), x, j, mid).unwrap().1[v] < j
                && fold_down(final_bwt_scan_right_to_left_8u_step(t), x, j + 1, mid).unwrap().0[fold_down(final_bwt_scan_right_to_left_8u_step(t), x, j, mid).unwrap().1[v] as int]
                    == 0 by {
                lemma_bwt_right_onward(t, s, lo, mid, hi, j, v);
            }
            lemma_bwt_right_ahead(t, x, end, mid, end);
            lemma_bwt_right_alike(t, x, -1i32, end, mid);
            if mid - end < 32 || desks.len() == 0 {
                lemma_bwt_right_walk(t, k, span, s, desks, lo, end, hi);
            } else {
                let b = (x.0, x.1, x.2, desks);
                assert forall|v: int| 0 <= v < k && #[trigger] b.1[v]
                    != final_bwt_scan_right_to_left_8u_run(t, (b.0, b.1, b.2), end, mid - end).unwrap().1[v]
                    implies b.1[v] <= end by {
                    assert(fold_down(final_bwt_scan_right_to_left_8u_step(t), x, end, mid).unwrap().1[v] != x.1[v]);
                }
                law_block_bwt_right(t, k, (x.0, x.1, desks), x.2, end, mid - end);
                let z = block_bwt_right(t, k, (x.0, x.1, desks), end, mid - end).unwrap();
                assert(z.1 =~= fold_down(final_bwt_scan_right_to_left_8u_step(t), x, end, mid).unwrap().1);
                lemma_bwt_right_walk(t, k, span, s, z.2, lo, end, hi);
            }
        }
    }
}

/// A scan downward for the transformed text leaves the array, the counters and the slot of the whole text that one worker
/// leaves, whatever the number of workers, where every head that the direct scan moves goes to an
/// empty slot ahead of it.
pub proof fn law_walked_bwt_right(t: Seq<u8>, k: int, lo: int, hi: int, threads: int, s: RankingState)
    requires
        0 <= lo <= hi <= s.0.len(),
        0 <= k <= s.1.len(),
        s.2 == -1,
        forall|q: int| 0 <= q < t.len() ==> #[trigger] t[q] < k,
        s.3.len() > 0 ==> s.3[0].cache.len() <= isize::MAX,
        bwt_right_walked(t, k, lo, hi, threads, s) is Some,
        final_bwt_scan_right_to_left_8u_run(t, (s.0, s.1, s.2), lo, hi - lo) is Some,
        forall|j: int, v: int| lo <= j < hi && 0 <= v < s.1.len()
            && #[trigger] name_moved(final_bwt_scan_right_to_left_8u_step(t), (s.0, s.1, s.2), hi, j, v) ==>
            fold_down(final_bwt_scan_right_to_left_8u_step(t), (s.0, s.1, s.2), j, hi).unwrap().1[v] < j
            && fold_down(final_bwt_scan_right_to_left_8u_step(t), (s.0, s.1, s.2), j + 1, hi).unwrap().0[fold_down(final_bwt_scan_right_to_left_8u_step(t), (s.0, s.1, s.2), j, hi).unwrap().1[v] as int]
                == 0,
    ensures
        ({
            let z = bwt_right_walked(t, k, lo, hi, threads, s).unwrap();
            final_bwt_scan_right_to_left_8u_run(t, (s.0, s.1, s.2), lo, hi - lo) == Some((z.0, z.1, z.2))
        }),
{
    if !(threads == 1 || hi - lo < 65536) {
        let x = (s.0, s.1, s.2);
        assert(fold_down(final_bwt_scan_right_to_left_8u_step(t), x, hi, hi) == Some(x));
        lemma_bwt_right_walk(t, k, worker_span(threads), x, s.3, lo, hi, hi);
    }
}

} // verus!
