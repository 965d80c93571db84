//! Scans of integer texts that several workers share leave what one worker leaves.

use vstd::prelude::*;
use crate::block_8u::NamingState;
use crate::caching::{
    head_moved, law_cached_left_1k, law_cached_left_4k, law_cached_left_6k, law_cached_left_final, law_cached_right_1k,
    law_cached_right_4k, law_cached_right_6k, law_cached_right_final, name_moved,
};
use crate::desks::Desk;
use crate::final_scan::{
    final_sorting_scan_left_to_right_32s_step, final_sorting_scan_right_to_left_32s_run,
    final_sorting_scan_right_to_left_32s_step,
};
use crate::fold::{
    fold_down, fold_up, lemma_fold_down_prefix, lemma_fold_down_split, lemma_fold_up_prefix, lemma_fold_up_split,
};
use crate::induce::{
    final_left_32s, partial_left_32s_1k, partial_left_32s_4k, partial_left_32s_6k, seeded_32s_1k, seeded_32s_4k, seeded_32s_6k,
};
use crate::partial_32s::{
    partial_sorting_scan_left_to_right_32s_1k_step,
    partial_sorting_scan_left_to_right_32s_4k_step, partial_sorting_scan_left_to_right_32s_6k_step,
    partial_sorting_scan_right_to_left_32s_1k_run, partial_sorting_scan_right_to_left_32s_1k_step,
    partial_sorting_scan_right_to_left_32s_4k_run, partial_sorting_scan_right_to_left_32s_4k_step,
    partial_sorting_scan_right_to_left_32s_6k_run, partial_sorting_scan_right_to_left_32s_6k_step,
};
use crate::sweeps::FinalState;
use crate::sweeps_32s::{
    final_left_part, final_left_walked, final_right_part, final_right_walked, full_span, left_1k_part, left_1k_walked,
    left_4k_part, left_4k_walked, left_6k_part, left_6k_walked, part_span, right_1k_part, right_1k_walked, right_4k_part,
    right_4k_walked, right_6k_part, right_6k_walked,
};
use crate::types::{InduceState, PlaceState};
use crate::walks::{chunks_down, chunks_up};

verus! {

/// The scan upward with six counters for each symbol keeps the counters that hold names within the
/// names given.
proof fn lemma_left_6k_names(t: Seq<i32>, s: InduceState, lo: int, hi: int)
    requires
        lo <= hi,
        fold_up(partial_sorting_scan_left_to_right_32s_6k_step(t), s, lo, hi) is Some,
        forall|w: int| 0 <= w < s.1.len() && w % 4 >= 2 ==> #[trigger] s.1[w] <= s.2,
    ensures
        fold_up(partial_sorting_scan_left_to_right_32s_6k_step(t), s, lo, hi).unwrap().1.len() == s.1.len(),
        forall|w: int| 0 <= w < s.1.len() && w % 4 >= 2
            ==> #[trigger] fold_up(partial_sorting_scan_left_to_right_32s_6k_step(t), s, lo, hi).unwrap().1[w]
            <= fold_up(partial_sorting_scan_left_to_right_32s_6k_step(t), s, lo, hi).unwrap().2,
    decreases hi - lo,
{
    if lo < hi {
        lemma_fold_up_prefix(partial_sorting_scan_left_to_right_32s_6k_step(t), s, lo, hi - 1, hi);
        lemma_left_6k_names(t, s, lo, hi - 1);
        let x = fold_up(partial_sorting_scan_left_to_right_32s_6k_step(t), s, lo, hi - 1).unwrap();
        let y = fold_up(partial_sorting_scan_left_to_right_32s_6k_step(t), s, lo, hi).unwrap();
        assert(partial_sorting_scan_left_to_right_32s_6k_step(t)(x, hi - 1) == Some(y));
        assert forall|w: int| 0 <= w < s.1.len() && w % 4 >= 2 implies #[trigger] y.1[w] <= y.2 by {
            assert(x.1[w] <= x.2);
        }
    }
}

/// A scan upward in parts leaves what the direct scan leaves.
#[verifier::spinoff_prover]
proof fn lemma_left_6k_parts(t: Seq<i32>, threads: int, span: int, s: InduceState, desks: Seq<Desk>, lo: int, hi: int)
    requires
        0 <= lo <= hi,
        fold_up(partial_sorting_scan_left_to_right_32s_6k_step(t), s, 0, hi) is Some,
        chunks_up(left_6k_part(t, threads), span, (fold_up(partial_sorting_scan_left_to_right_32s_6k_step(t), s, 0, lo).unwrap().0, fold_up(partial_sorting_scan_left_to_right_32s_6k_step(t), s, 0, lo).unwrap().1, fold_up(partial_sorting_scan_left_to_right_32s_6k_step(t), s, 0, lo).unwrap().2, desks), lo, hi) is Some,
        forall|w: int| 0 <= w < s.1.len() && w % 4 >= 2 ==> #[trigger] s.1[w] <= s.2,
        forall|j: int, v: int| lo <= j < hi && 0 <= v < s.1.len() && v % 4 < 2 ==> {
            ||| #[trigger] fold_up(partial_sorting_scan_left_to_right_32s_6k_step(t), s, 0, j).unwrap().1[v] > j
            ||| fold_up(partial_sorting_scan_left_to_right_32s_6k_step(t), s, 0, j + 1).unwrap().1[v]
                == fold_up(partial_sorting_scan_left_to_right_32s_6k_step(t), s, 0, j).unwrap().1[v]
        },
    ensures
        ({
            let z = chunks_up(left_6k_part(t, threads), span, (fold_up(partial_sorting_scan_left_to_right_32s_6k_step(t), s, 0, lo).unwrap().0, fold_up(partial_sorting_scan_left_to_right_32s_6k_step(t), s, 0, lo).unwrap().1, fold_up(partial_sorting_scan_left_to_right_32s_6k_step(t), s, 0, lo).unwrap().2, desks), lo, hi).unwrap();
            (z.0, z.1, z.2) == fold_up(partial_sorting_scan_left_to_right_32s_6k_step(t), s, 0, hi).unwrap()
        }),
    decreases hi - lo,
{
    if lo < hi {
        let end = if lo + span < hi { lo + span } else { hi };
        let direct = partial_sorting_scan_left_to_right_32s_6k_step(t);
        lemma_fold_up_prefix(direct, s, 0, lo, hi);
        lemma_fold_up_prefix(direct, s, 0, end, hi);
        lemma_fold_up_split(direct, s, 0, lo, end);
        let x = fold_up(partial_sorting_scan_left_to_right_32s_6k_step(t), s, 0, lo).unwrap();
        lemma_left_6k_names(t, s, 0, lo);
        assert(fold_up(direct, x, lo, end) == fold_up(direct, s, 0, end));
        assert forall|j: int, v: int| lo <= j < end && 0 <= v < x.1.len() && v % 4 < 2 implies {
            ||| #[trigger] fold_up(direct, x, lo, j).unwrap().1[v] > j
            ||| fold_up(direct, x, lo, j + 1).unwrap().1[v] == fold_up(direct, x, lo, j).unwrap().1[v]
        } by {
            lemma_fold_up_split(direct, s, 0, lo, j);
            lemma_fold_up_split(direct, s, 0, lo, j + 1);
            lemma_fold_up_prefix(direct, s, 0, j, hi);
            lemma_fold_up_prefix(direct, s, 0, j + 1, hi);
            assert(fold_up(direct, x, lo, j).unwrap().1[v]
                == fold_up(partial_sorting_scan_left_to_right_32s_6k_step(t), s, 0, j).unwrap().1[v]);
        }
        let y = left_6k_part(t, threads)((x.0, x.1, x.2, desks), lo, end - lo).unwrap();
        if threads == 1 || end - lo < 16384 {
            lemma_left_6k_parts(t, threads, span, s, desks, end, hi);
        } else {
            law_cached_left_6k(t, x.0, x.1, x.2, desks[0].cache, lo, end - lo);
            lemma_left_6k_parts(t, threads, span, s, y.3, end, hi);
        }
    }
}

/// Scanning upward with six counters for each symbol leaves the array and the counters
/// that one worker leaves, whatever the number of workers, where every head that the scan moves is
/// ahead of it and no counter holds a later name than the last.
pub proof fn law_shared_left_6k(t: Seq<i32>, n: int, count: int, threads: int, s: NamingState)
    requires
        left_6k_walked(t, n, count, threads, s) is Some,
        partial_left_32s_6k(t, n, count, (s.0, s.1, s.2)) is Some,
        0 <= count,
        forall|w: int| 0 <= w < s.1.len() && w % 4 >= 2 ==> #[trigger] s.1[w] <= s.2,
        ({
            let x = seeded_32s_6k(t, n, (s.0, s.1, s.2)).unwrap();
            forall|j: int, v: int| 0 <= j < count && 0 <= v < s.1.len() && v % 4 < 2 ==> {
                ||| #[trigger] fold_up(partial_sorting_scan_left_to_right_32s_6k_step(t), x, 0, j).unwrap().1[v] > j
                ||| fold_up(partial_sorting_scan_left_to_right_32s_6k_step(t), x, 0, j + 1).unwrap().1[v]
                    == fold_up(partial_sorting_scan_left_to_right_32s_6k_step(t), x, 0, j).unwrap().1[v]
            }
        }),
    ensures
        ({
            let z = left_6k_walked(t, n, count, threads, s).unwrap();
            partial_left_32s_6k(t, n, count, (s.0, s.1, s.2)) == Some((z.0, z.1, z.2))
        }),
{
    if !(threads == 1 || count < 65536 || s.3.len() == 0) {
        let x = seeded_32s_6k(t, n, (s.0, s.1, s.2)).unwrap();
        assert forall|w: int| 0 <= w < x.1.len() && w % 4 >= 2 implies #[trigger] x.1[w] <= x.2 by {
            assert(s.1[w] <= s.2);
        }
        assert(fold_up(partial_sorting_scan_left_to_right_32s_6k_step(t), x, 0, 0) == Some(x));
        lemma_left_6k_parts(t, threads, part_span(threads), x, s.3, 0, count);
    }
}

/// The scan upward with four counters for each symbol keeps the counters that hold names within the
/// names given.
proof fn lemma_left_4k_names(t: Seq<i32>, k: int, s: InduceState, lo: int, hi: int)
    requires
        lo <= hi,
        fold_up(partial_sorting_scan_left_to_right_32s_4k_step(t, k), s, lo, hi) is Some,
        forall|w: int| 0 <= w < s.1.len() && w < 2 * k ==> #[trigger] s.1[w] <= s.2,
    ensures
        fold_up(partial_sorting_scan_left_to_right_32s_4k_step(t, k), s, lo, hi).unwrap().1.len() == s.1.len(),
        forall|w: int| 0 <= w < s.1.len() && w < 2 * k
            ==> #[trigger] fold_up(partial_sorting_scan_left_to_right_32s_4k_step(t, k), s, lo, hi).unwrap().1[w]
            <= fold_up(partial_sorting_scan_left_to_right_32s_4k_step(t, k), s, lo, hi).unwrap().2,
    decreases hi - lo,
{
    if lo < hi {
        lemma_fold_up_prefix(partial_sorting_scan_left_to_right_32s_4k_step(t, k), s, lo, hi - 1, hi);
        lemma_left_4k_names(t, k, s, lo, hi - 1);
        let x = fold_up(partial_sorting_scan_left_to_right_32s_4k_step(t, k), s, lo, hi - 1).unwrap();
        let y = fold_up(partial_sorting_scan_left_to_right_32s_4k_step(t, k), s, lo, hi).unwrap();
        assert(partial_sorting_scan_left_to_right_32s_4k_step(t, k)(x, hi - 1) == Some(y));
        assert forall|w: int| 0 <= w < s.1.len() && w < 2 * k implies #[trigger] y.1[w] <= y.2 by {
            assert(x.1[w] <= x.2);
        }
    }
}

/// A scan upward in parts leaves what the direct scan leaves.
#[verifier::spinoff_prover]
proof fn lemma_left_4k_parts(t: Seq<i32>, k: int, threads: int, span: int, s: InduceState, desks: Seq<Desk>, lo: int, hi: int)
    requires
        0 <= lo <= hi,
        fold_up(partial_sorting_scan_left_to_right_32s_4k_step(t, k), s, 0, hi) is Some,
        chunks_up(left_4k_part(t, k, threads), span, (fold_up(partial_sorting_scan_left_to_right_32s_4k_step(t, k), s, 0, lo).unwrap().0, fold_up(partial_sorting_scan_left_to_right_32s_4k_step(t, k), s, 0, lo).unwrap().1, fold_up(partial_sorting_scan_left_to_right_32s_4k_step(t, k), s, 0, lo).unwrap().2, desks), lo, hi) is Some,
        forall|w: int| 0 <= w < s.1.len() && w < 2 * k ==> #[trigger] s.1[w] <= s.2,
        forall|j: int, v: int| lo <= j < hi && 0 <= v < s.1.len() && 2 * k <= v ==> {
            ||| #[trigger] fold_up(partial_sorting_scan_left_to_right_32s_4k_step(t, k), s, 0, j).unwrap().1[v] > j
                && fold_up(partial_sorting_scan_left_to_right_32s_4k_step(t, k), s, 0, j).unwrap().0[fold_up(partial_sorting_scan_left_to_right_32s_4k_step(t, k), s, 0, j).unwrap().1[v] as int] <= 0
            ||| fold_up(partial_sorting_scan_left_to_right_32s_4k_step(t, k), s, 0, j + 1).unwrap().1[v]
                == fold_up(partial_sorting_scan_left_to_right_32s_4k_step(t, k), s, 0, j).unwrap().1[v]
        },
    ensures
        ({
            let z = chunks_up(left_4k_part(t, k, threads), span, (fold_up(partial_sorting_scan_left_to_right_32s_4k_step(t, k), s, 0, lo).unwrap().0, fold_up(partial_sorting_scan_left_to_right_32s_4k_step(t, k), s, 0, lo).unwrap().1, fold_up(partial_sorting_scan_left_to_right_32s_4k_step(t, k), s, 0, lo).unwrap().2, desks), lo, hi).unwrap();
            (z.0, z.1, z.2) == fold_up(partial_sorting_scan_left_to_right_32s_4k_step(t, k), s, 0, hi).unwrap()
        }),
    decreases hi - lo,
{
    if lo < hi {
        let end = if lo + span < hi { lo + span } else { hi };
        let direct = partial_sorting_scan_left_to_right_32s_4k_step(t, k);
        lemma_fold_up_prefix(direct, s, 0, lo, hi);
        lemma_fold_up_prefix(direct, s, 0, end, hi);
        lemma_fold_up_split(direct, s, 0, lo, end);
        let x = fold_up(partial_sorting_scan_left_to_right_32s_4k_step(t, k), s, 0, lo).unwrap();
        lemma_left_4k_names(t, k, s, 0, lo);
        assert(fold_up(direct, x, lo, end) == fold_up(direct, s, 0, end));
        assert forall|j: int, v: int| lo <= j < end && 0 <= v < x.1.len() && 2 * k <= v implies {
            ||| #[trigger] fold_up(direct, x, lo, j).unwrap().1[v] > j
                && fold_up(direct, x, lo, j).unwrap().0[fold_up(direct, x, lo, j).unwrap().1[v] as int] <= 0
            ||| fold_up(direct, x, lo, j + 1).unwrap().1[v] == fold_up(direct, x, lo, j).unwrap().1[v]
        } by {
            lemma_fold_up_split(direct, s, 0, lo, j);
            lemma_fold_up_split(direct, s, 0, lo, j + 1);
            lemma_fold_up_prefix(direct, s, 0, j, hi);
            lemma_fold_up_prefix(direct, s, 0, j + 1, hi);
            assert(fold_up(direct, x, lo, j).unwrap().1[v]
                == fold_up(partial_sorting_scan_left_to_right_32s_4k_step(t, k), s, 0, j).unwrap().1[v]);
        }
        let y = left_4k_part(t, k, threads)((x.0, x.1, x.2, desks), lo, end - lo).unwrap();
        if threads == 1 || end - lo < 16384 {
            lemma_left_4k_parts(t, k, threads, span, s, desks, end, hi);
        } else {
            law_cached_left_4k(t, k, x.0, x.1, x.2, desks[0].cache, lo, end - lo);
            lemma_left_4k_parts(t, k, threads, span, s, y.3, end, hi);
        }
    }
}

/// Scanning upward with four counters for each symbol leaves the array and the counters
/// that one worker leaves, whatever the number of workers, where every head that the scan moves is
/// ahead of it and at a slot without a suffix to read and no counter holds a later name than the last.
pub proof fn law_shared_left_4k(t: Seq<i32>, n: int, k: int, threads: int, s: NamingState)
    requires
        left_4k_walked(t, n, k, threads, s) is Some,
        partial_left_32s_4k(t, n, k, (s.0, s.1, s.2)) is Some,
        0 <= n,
        forall|w: int| 0 <= w < s.1.len() && w < 2 * k ==> #[trigger] s.1[w] <= s.2,
        ({
            let x = seeded_32s_4k(t, n, k, (s.0, s.1, s.2)).unwrap();
            forall|j: int, v: int| 0 <= j < n && 0 <= v < s.1.len() && 2 * k <= v ==> {
                ||| #[trigger] fold_up(partial_sorting_scan_left_to_right_32s_4k_step(t, k), x, 0, j).unwrap().1[v] > j
                    && fold_up(partial_sorting_scan_left_to_right_32s_4k_step(t, k), x, 0, j).unwrap().0[fold_up(partial_sorting_scan_left_to_right_32s_4k_step(t, k), x, 0, j).unwrap().1[v] as int] <= 0
                ||| fold_up(partial_sorting_scan_left_to_right_32s_4k_step(t, k), x, 0, j + 1).unwrap().1[v]
                    == fold_up(partial_sorting_scan_left_to_right_32s_4k_step(t, k), x, 0, j).unwrap().1[v]
            }
        }),
    ensures
        ({
            let z = left_4k_walked(t, n, k, threads, s).unwrap();
            partial_left_32s_4k(t, n, k, (s.0, s.1, s.2)) == Some((z.0, z.1, z.2))
        }),
{
    if !(threads == 1 || n < 65536 || s.3.len() == 0) {
        let x = seeded_32s_4k(t, n, k, (s.0, s.1, s.2)).unwrap();
        assert forall|w: int| 0 <= w < x.1.len() && w < 2 * k implies #[trigger] x.1[w] <= x.2 by {
            assert(s.1[w] <= s.2);
        }
        assert(fold_up(partial_sorting_scan_left_to_right_32s_4k_step(t, k), x, 0, 0) == Some(x));
        lemma_left_4k_parts(t, k, threads, part_span(threads), x, s.3, 0, n);
    }
}

/// The scan upward keeps the number of counters.
proof fn lemma_left_1k_sized(t: Seq<i32>, s: PlaceState, lo: int, hi: int)
    requires
        fold_up(partial_sorting_scan_left_to_right_32s_1k_step(t), s, lo, hi) is Some,
    ensures
        fold_up(partial_sorting_scan_left_to_right_32s_1k_step(t), s, lo, hi).unwrap().1.len() == s.1.len(),
    decreases hi - lo,
{
    if lo < hi {
        lemma_fold_up_prefix(partial_sorting_scan_left_to_right_32s_1k_step(t), s, lo, hi - 1, hi);
        lemma_left_1k_sized(t, s, lo, hi - 1);
    }
}

/// A scan upward in parts leaves what the direct scan leaves.
#[verifier::spinoff_prover]
proof fn lemma_left_1k_parts(t: Seq<i32>, threads: int, span: int, s: PlaceState, desks: Seq<Desk>, lo: int, hi: int)
    requires
        0 <= lo <= hi,
        fold_up(partial_sorting_scan_left_to_right_32s_1k_step(t), s, 0, hi) is Some,
        chunks_up(left_1k_part(t, threads), span, (fold_up(partial_sorting_scan_left_to_right_32s_1k_step(t), s, 0, lo).unwrap().0, fold_up(partial_sorting_scan_left_to_right_32s_1k_step(t), s, 0, lo).unwrap().1, desks), lo, hi) is Some,
        desks.len() > 0 ==> desks[0].cache.len() <= usize::MAX,
        forall|j: int, v: int| lo <= j < hi && 0 <= v < s.1.len() ==> {
            ||| #[trigger] fold_up(partial_sorting_scan_left_to_right_32s_1k_step(t), s, 0, j).unwrap().1[v] > j
                && fold_up(partial_sorting_scan_left_to_right_32s_1k_step(t), s, 0, j).unwrap().0[fold_up(partial_sorting_scan_left_to_right_32s_1k_step(t), s, 0, j).unwrap().1[v] as int] <= 0
            ||| fold_up(partial_sorting_scan_left_to_right_32s_1k_step(t), s, 0, j + 1).unwrap().1[v]
                == fold_up(partial_sorting_scan_left_to_right_32s_1k_step(t), s, 0, j).unwrap().1[v]
        },
    ensures
        ({
            let z = chunks_up(left_1k_part(t, threads), span, (fold_up(partial_sorting_scan_left_to_right_32s_1k_step(t), s, 0, lo).unwrap().0, fold_up(partial_sorting_scan_left_to_right_32s_1k_step(t), s, 0, lo).unwrap().1, desks), lo, hi).unwrap();
            (z.0, z.1) == fold_up(partial_sorting_scan_left_to_right_32s_1k_step(t), s, 0, hi).unwrap()
        }),
    decreases hi - lo,
{
    if lo < hi {
        let end = if lo + span < hi { lo + span } else { hi };
        let direct = partial_sorting_scan_left_to_right_32s_1k_step(t);
        lemma_fold_up_prefix(direct, s, 0, lo, hi);
        lemma_fold_up_prefix(direct, s, 0, end, hi);
        lemma_fold_up_split(direct, s, 0, lo, end);
        let x = fold_up(partial_sorting_scan_left_to_right_32s_1k_step(t), s, 0, lo).unwrap();
        lemma_left_1k_sized(t, s, 0, lo);
        assert(fold_up(direct, x, lo, end) == fold_up(direct, s, 0, end));
        assert forall|j: int, v: int| lo <= j < end && 0 <= v < x.1.len() implies {
            ||| #[trigger] fold_up(direct, x, lo, j).unwrap().1[v] > j
                && fold_up(direct, x, lo, j).unwrap().0[fold_up(direct, x, lo, j).unwrap().1[v] as int] <= 0
            ||| fold_up(direct, x, lo, j + 1).unwrap().1[v] == fold_up(direct, x, lo, j).unwrap().1[v]
        } by {
            lemma_fold_up_split(direct, s, 0, lo, j);
            lemma_fold_up_split(direct, s, 0, lo, j + 1);
            lemma_fold_up_prefix(direct, s, 0, j, hi);
            lemma_fold_up_prefix(direct, s, 0, j + 1, hi);
            assert(fold_up(direct, x, lo, j).unwrap().1[v]
                == fold_up(partial_sorting_scan_left_to_right_32s_1k_step(t), s, 0, j).unwrap().1[v]);
        }
        let y = left_1k_part(t, threads)((x.0, x.1, desks), lo, end - lo).unwrap();
        if threads == 1 || end - lo < 16384 {
            lemma_left_1k_parts(t, threads, span, s, desks, end, hi);
        } else {
            law_cached_left_1k(t, x.0, x.1, desks[0].cache, lo, end - lo);
            lemma_left_1k_parts(t, threads, span, s, y.2, end, hi);
        }
    }
}

/// Scanning upward with one counter for each symbol leaves the array and the counters
/// that one worker leaves, whatever the number of workers, where every head that the scan moves is
/// ahead of it and at a slot without a suffix to read.
pub proof fn law_shared_left_1k(t: Seq<i32>, n: int, threads: int, s: FinalState)
    requires
        left_1k_walked(t, n, threads, s) is Some,
        partial_left_32s_1k(t, n, (s.0, s.1)) is Some,
        0 <= n,
        s.2.len() > 0 ==> s.2[0].cache.len() <= usize::MAX,
        ({
            let x = seeded_32s_1k(t, n, (s.0, s.1)).unwrap();
            forall|j: int, v: int| 0 <= j < n && 0 <= v < s.1.len() ==> {
                ||| #[trigger] fold_up(partial_sorting_scan_left_to_right_32s_1k_step(t), x, 0, j).unwrap().1[v] > j
                    && fold_up(partial_sorting_scan_left_to_right_32s_1k_step(t), x, 0, j).unwrap().0[fold_up(partial_sorting_scan_left_to_right_32s_1k_step(t), x, 0, j).unwrap().1[v] as int] <= 0
                ||| fold_up(partial_sorting_scan_left_to_right_32s_1k_step(t), x, 0, j + 1).unwrap().1[v]
                    == fold_up(partial_sorting_scan_left_to_right_32s_1k_step(t), x, 0, j).unwrap().1[v]
            }
        }),
    ensures
        ({
            let z = left_1k_walked(t, n, threads, s).unwrap();
            partial_left_32s_1k(t, n, (s.0, s.1)) == Some((z.0, z.1))
        }),
{
    if !(threads == 1 || n < 65536 || s.2.len() == 0) {
        let x = seeded_32s_1k(t, n, (s.0, s.1)).unwrap();
        assert(fold_up(partial_sorting_scan_left_to_right_32s_1k_step(t), x, 0, 0) == Some(x));
        lemma_left_1k_parts(t, threads, part_span(threads), x, s.2, 0, n);
    }
}

/// The scan upward keeps the number of counters.
proof fn lemma_left_final_sized(t: Seq<i32>, s: PlaceState, lo: int, hi: int)
    requires
        fold_up(final_sorting_scan_left_to_right_32s_step(t), s, lo, hi) is Some,
    ensures
        fold_up(final_sorting_scan_left_to_right_32s_step(t), s, lo, hi).unwrap().1.len() == s.1.len(),
    decreases hi - lo,
{
    if lo < hi {
        lemma_fold_up_prefix(final_sorting_scan_left_to_right_32s_step(t), s, lo, hi - 1, hi);
        lemma_left_final_sized(t, s, lo, hi - 1);
    }
}

/// A scan upward in parts leaves what the direct scan leaves.
#[verifier::spinoff_prover]
proof fn lemma_left_final_parts(t: Seq<i32>, threads: int, span: int, s: PlaceState, desks: Seq<Desk>, lo: int, hi: int)
    requires
        0 <= lo <= hi,
        fold_up(final_sorting_scan_left_to_right_32s_step(t), s, 0, hi) is Some,
        chunks_up(final_left_part(t, threads), span, (fold_up(final_sorting_scan_left_to_right_32s_step(t), s, 0, lo).unwrap().0, fold_up(final_sorting_scan_left_to_right_32s_step(t), s, 0, lo).unwrap().1, desks), lo, hi) is Some,
        desks.len() > 0 ==> desks[0].cache.len() <= usize::MAX,
        forall|j: int, v: int| lo <= j < hi && 0 <= v < s.1.len() ==> {
            ||| #[trigger] fold_up(final_sorting_scan_left_to_right_32s_step(t), s, 0, j).unwrap().1[v] > j
                && fold_up(final_sorting_scan_left_to_right_32s_step(t), s, 0, j).unwrap().0[fold_up(final_sorting_scan_left_to_right_32s_step(t), s, 0, j).unwrap().1[v] as int] <= 0
            ||| fold_up(final_sorting_scan_left_to_right_32s_step(t), s, 0, j + 1).unwrap().1[v]
                == fold_up(final_sorting_scan_left_to_right_32s_step(t), s, 0, j).unwrap().1[v]
        },
    ensures
        ({
            let z = chunks_up(final_left_part(t, threads), span, (fold_up(final_sorting_scan_left_to_right_32s_step(t), s, 0, lo).unwrap().0, fold_up(final_sorting_scan_left_to_right_32s_step(t), s, 0, lo).unwrap().1, desks), lo, hi).unwrap();
            (z.0, z.1) == fold_up(final_sorting_scan_left_to_right_32s_step(t), s, 0, hi).unwrap()
        }),
    decreases hi - lo,
{
    if lo < hi {
        let end = if lo + span < hi { lo + span } else { hi };
        let direct = final_sorting_scan_left_to_right_32s_step(t);
        lemma_fold_up_prefix(direct, s, 0, lo, hi);
        lemma_fold_up_prefix(direct, s, 0, end, hi);
        lemma_fold_up_split(direct, s, 0, lo, end);
        let x = fold_up(final_sorting_scan_left_to_right_32s_step(t), s, 0, lo).unwrap();
        lemma_left_final_sized(t, s, 0, lo);
        assert(fold_up(direct, x, lo, end) == fold_up(direct, s, 0, end));
        assert forall|j: int, v: int| lo <= j < end && 0 <= v < x.1.len() implies {
            ||| #[trigger] fold_up(direct, x, lo, j).unwrap().1[v] > j
                && fold_up(direct, x, lo, j).unwrap().0[fold_up(direct, x, lo, j).unwrap().1[v] as int] <= 0
            ||| fold_up(direct, x, lo, j + 1).unwrap().1[v] == fold_up(direct, x, lo, j).unwrap().1[v]
        } by {
            lemma_fold_up_split(direct, s, 0, lo, j);
            lemma_fold_up_split(direct, s, 0, lo, j + 1);
            lemma_fold_up_prefix(direct, s, 0, j, hi);
            lemma_fold_up_prefix(direct, s, 0, j + 1, hi);
            assert(fold_up(direct, x, lo, j).unwrap().1[v] == fold_up(final_sorting_scan_left_to_right_32s_step(t), s, 0, j).unwrap().1[v]);
        }
        let y = final_left_part(t, threads)((x.0, x.1, desks), lo, end - lo).unwrap();
        if false {
            lemma_left_final_parts(t, threads, span, s, desks, end, hi);
        } else {
            law_cached_left_final(t, x.0, x.1, desks[0].cache, lo, end - lo);
            lemma_left_final_parts(t, threads, span, s, y.2, end, hi);
        }
    }
}

/// Scanning upward with one counter for each symbol to the sorted order leaves the array and the counters
/// that one worker leaves, whatever the number of workers, where every head that the scan moves is
/// ahead of it and at a slot without a suffix to read.
pub proof fn law_shared_left_final(t: Seq<i32>, n: int, threads: int, s: FinalState)
    requires
        final_left_walked(t, n, threads, s) is Some,
        final_left_32s(t, n, (s.0, s.1)) is Some,
        0 <= n,
        s.2.len() > 0 ==> s.2[0].cache.len() <= usize::MAX,
        ({
            let x = seeded_32s_1k(t, n, (s.0, s.1)).unwrap();
            forall|j: int, v: int| 0 <= j < n && 0 <= v < s.1.len() ==> {
                ||| #[trigger] fold_up(final_sorting_scan_left_to_right_32s_step(t), x, 0, j).unwrap().1[v] > j
                    && fold_up(final_sorting_scan_left_to_right_32s_step(t), x, 0, j).unwrap().0[fold_up(final_sorting_scan_left_to_right_32s_step(t), x, 0, j).unwrap().1[v] as int] <= 0
                ||| fold_up(final_sorting_scan_left_to_right_32s_step(t), x, 0, j + 1).unwrap().1[v]
                    == fold_up(final_sorting_scan_left_to_right_32s_step(t), x, 0, j).unwrap().1[v]
            }
        }),
    ensures
        ({
            let z = final_left_walked(t, n, threads, s).unwrap();
            final_left_32s(t, n, (s.0, s.1)) == Some((z.0, z.1))
        }),
{
    if !(threads == 1 || n < 65536 || s.2.len() == 0) {
        let x = seeded_32s_1k(t, n, (s.0, s.1)).unwrap();
        assert(fold_up(final_sorting_scan_left_to_right_32s_step(t), x, 0, 0) == Some(x));
        lemma_left_final_parts(t, threads, full_span(threads), x, s.2, 0, n);
    }
}

/// The scan downward with six counters for each symbol keeps the counters that hold names within
/// the names given.
proof fn lemma_right_6k_names(t: Seq<i32>, s: InduceState, lo: int, hi: int)
    requires
        lo <= hi,
        fold_down(partial_sorting_scan_right_to_left_32s_6k_step(t), s, lo, hi) is Some,
        forall|w: int| 0 <= w < s.1.len() && w % 4 >= 2 ==> #[trigger] s.1[w] <= s.2,
    ensures
        fold_down(partial_sorting_scan_right_to_left_32s_6k_step(t), s, lo, hi).unwrap().1.len() == s.1.len(),
        forall|w: int| 0 <= w < s.1.len() && w % 4 >= 2
            ==> #[trigger] fold_down(partial_sorting_scan_right_to_left_32s_6k_step(t), s, lo, hi).unwrap().1[w]
            <= fold_down(partial_sorting_scan_right_to_left_32s_6k_step(t), s, lo, hi).unwrap().2,
    decreases hi - lo,
{
    if lo < hi {
        lemma_fold_down_prefix(partial_sorting_scan_right_to_left_32s_6k_step(t), s, lo, lo + 1, hi);
        lemma_right_6k_names(t, s, lo + 1, hi);
        let x = fold_down(partial_sorting_scan_right_to_left_32s_6k_step(t), s, lo + 1, hi).unwrap();
        let y = fold_down(partial_sorting_scan_right_to_left_32s_6k_step(t), s, lo, hi).unwrap();
        assert(partial_sorting_scan_right_to_left_32s_6k_step(t)(x, lo) == Some(y));
        assert forall|w: int| 0 <= w < s.1.len() && w % 4 >= 2 implies #[trigger] y.1[w] <= y.2 by {
            assert(x.1[w] <= x.2);
        }
    }
}

/// Where a scan downward from `hi` has come to `mid`, it goes on as one that starts there.
proof fn lemma_right_6k_onward(t: Seq<i32>, s: InduceState, lo: int, mid: int, hi: int, j: int, v: int)
    requires
        lo <= j < mid <= hi,
        fold_down(partial_sorting_scan_right_to_left_32s_6k_step(t), s, lo, hi) is Some,
    ensures
        fold_down(partial_sorting_scan_right_to_left_32s_6k_step(t), fold_down(partial_sorting_scan_right_to_left_32s_6k_step(t), s, mid, hi).unwrap(), j, mid)
            == fold_down(partial_sorting_scan_right_to_left_32s_6k_step(t), s, j, hi),
        fold_down(partial_sorting_scan_right_to_left_32s_6k_step(t), fold_down(partial_sorting_scan_right_to_left_32s_6k_step(t), s, mid, hi).unwrap(), j + 1, mid)
            == fold_down(partial_sorting_scan_right_to_left_32s_6k_step(t), s, j + 1, hi),
        name_moved(partial_sorting_scan_right_to_left_32s_6k_step(t), fold_down(partial_sorting_scan_right_to_left_32s_6k_step(t), s, mid, hi).unwrap(), mid, j, v)
            == name_moved(partial_sorting_scan_right_to_left_32s_6k_step(t), s, hi, j, v),
{
    lemma_fold_down_split(partial_sorting_scan_right_to_left_32s_6k_step(t), s, j, mid, hi);
    lemma_fold_down_split(partial_sorting_scan_right_to_left_32s_6k_step(t), s, j + 1, mid, hi);
    lemma_fold_down_prefix(partial_sorting_scan_right_to_left_32s_6k_step(t), s, lo, j, hi);
    lemma_fold_down_prefix(partial_sorting_scan_right_to_left_32s_6k_step(t), s, lo, j + 1, hi);
    lemma_fold_down_prefix(partial_sorting_scan_right_to_left_32s_6k_step(t), s, lo, mid, hi);
}

/// A scan downward in parts leaves what the direct scan leaves.
#[verifier::spinoff_prover]
proof fn lemma_right_6k_parts(t: Seq<i32>, threads: int, span: int, s: InduceState, desks: Seq<Desk>, lo: int, mid: int, hi: int)
    requires
        0 <= lo <= mid <= hi,
        fold_down(partial_sorting_scan_right_to_left_32s_6k_step(t), s, lo, hi) is Some,
        chunks_down(right_6k_part(t, threads), span, (fold_down(partial_sorting_scan_right_to_left_32s_6k_step(t), s, mid, hi).unwrap().0, fold_down(partial_sorting_scan_right_to_left_32s_6k_step(t), s, mid, hi).unwrap().1, fold_down(partial_sorting_scan_right_to_left_32s_6k_step(t), s, mid, hi).unwrap().2, desks), lo, mid) is Some,
        forall|w: int| 0 <= w < s.1.len() && w % 4 >= 2 ==> #[trigger] s.1[w] <= s.2,
        forall|j: int, v: int| lo <= j < mid && 0 <= v < s.1.len() && v % 4 < 2
            && #[trigger] name_moved(partial_sorting_scan_right_to_left_32s_6k_step(t), s, hi, j, v) ==>
            fold_down(partial_sorting_scan_right_to_left_32s_6k_step(t), s, j, hi).unwrap().1[v] < j,
        forall|j: int, v: int, l: int, w: int| lo <= j < l < mid && 0 <= v < s.1.len() && 0 <= w < s.1.len() && v % 4 < 2 && w % 4 < 2
            && #[trigger] name_moved(partial_sorting_scan_right_to_left_32s_6k_step(t), s, hi, j, v)
                && #[trigger] name_moved(partial_sorting_scan_right_to_left_32s_6k_step(t), s, hi, l, w)
            ==> fold_down(partial_sorting_scan_right_to_left_32s_6k_step(t), s, j, hi).unwrap().1[v]
                != fold_down(partial_sorting_scan_right_to_left_32s_6k_step(t), s, l, hi).unwrap().1[w],
    ensures
        ({
            let z = chunks_down(right_6k_part(t, threads), span, (fold_down(partial_sorting_scan_right_to_left_32s_6k_step(t), s, mid, hi).unwrap().0, fold_down(partial_sorting_scan_right_to_left_32s_6k_step(t), s, mid, hi).unwrap().1, fold_down(partial_sorting_scan_right_to_left_32s_6k_step(t), s, mid, hi).unwrap().2, desks), lo, mid).unwrap();
            (z.0, z.1, z.2) == fold_down(partial_sorting_scan_right_to_left_32s_6k_step(t), s, lo, hi).unwrap()
        }),
    decreases mid - lo,
{
    if lo < mid {
        let start = if mid - span > lo { mid - span } else { lo };
        let direct = partial_sorting_scan_right_to_left_32s_6k_step(t);
        lemma_fold_down_prefix(direct, s, lo, mid, hi);
        lemma_fold_down_prefix(direct, s, lo, start, hi);
        lemma_fold_down_split(direct, s, start, mid, hi);
        let x = fold_down(partial_sorting_scan_right_to_left_32s_6k_step(t), s, mid, hi).unwrap();
        lemma_right_6k_names(t, s, mid, hi);
        assert(fold_down(direct, x, start, mid) == fold_down(direct, s, start, hi));
        assert forall|j: int, v: int| start <= j < mid && 0 <= v < x.1.len() && v % 4 < 2
            && #[trigger] name_moved(direct, x, mid, j, v) implies
            fold_down(direct, x, j, mid).unwrap().1[v] < j by {
            lemma_right_6k_onward(t, s, lo, mid, hi, j, v);
        }
        assert forall|j: int, v: int, l: int, w: int| start <= j < l < mid && 0 <= v < x.1.len() && 0 <= w < x.1.len()
            && v % 4 < 2 && w % 4 < 2
            && #[trigger] name_moved(direct, x, mid, j, v) && #[trigger] name_moved(direct, x, mid, l, w)
            implies fold_down(direct, x, j, mid).unwrap().1[v] != fold_down(direct, x, l, mid).unwrap().1[w] by {
            lemma_right_6k_onward(t, s, lo, mid, hi, j, v);
            lemma_right_6k_onward(t, s, lo, mid, hi, l, w);
        }
        let y = right_6k_part(t, threads)((x.0, x.1, x.2, desks), start, mid - start).unwrap();
        if threads == 1 || mid - start < 16384 {
            lemma_right_6k_parts(t, threads, span, s, desks, lo, start, hi);
        } else {
            assert(start + (mid - start) == mid);
            law_cached_right_6k(t, x.0, x.1, x.2, desks[0].cache, start, mid - start);
            lemma_right_6k_parts(t, threads, span, s, y.3, lo, start, hi);
        }
    }
}

/// Scanning downward with six counters for each symbol leaves the array and the counters
/// that one worker leaves, whatever the number of workers, where every head that the scan moves
/// goes to a slot that is ahead of it and its own, and no counter holds a later name than the last.
pub proof fn law_shared_right_6k(t: Seq<i32>, lo: int, hi: int, threads: int, s: NamingState)
    requires
        0 <= lo <= hi,
        right_6k_walked(t, lo, hi, threads, s) is Some,
        partial_sorting_scan_right_to_left_32s_6k_run(t, (s.0, s.1, s.2), lo, hi - lo) is Some,
        forall|w: int| 0 <= w < s.1.len() && w % 4 >= 2 ==> #[trigger] s.1[w] <= s.2,
        forall|j: int, v: int| lo <= j < hi && 0 <= v < s.1.len() && v % 4 < 2
            && #[trigger] name_moved(partial_sorting_scan_right_to_left_32s_6k_step(t), (s.0, s.1, s.2), hi, j, v) ==>
            fold_down(partial_sorting_scan_right_to_left_32s_6k_step(t), (s.0, s.1, s.2), j, hi).unwrap().1[v] < j,
        forall|j: int, v: int, l: int, w: int| lo <= j < l < hi && 0 <= v < s.1.len() && 0 <= w < s.1.len() && v % 4 < 2 && w % 4 < 2
            && #[trigger] name_moved(partial_sorting_scan_right_to_left_32s_6k_step(t), (s.0, s.1, s.2), hi, j, v)
                && #[trigger] name_moved(partial_sorting_scan_right_to_left_32s_6k_step(t), (s.0, s.1, s.2), hi, l, w)
            ==> fold_down(partial_sorting_scan_right_to_left_32s_6k_step(t), (s.0, s.1, s.2), j, hi).unwrap().1[v]
                != fold_down(partial_sorting_scan_right_to_left_32s_6k_step(t), (s.0, s.1, s.2), l, hi).unwrap().1[w],
    ensures
        ({
            let z = right_6k_walked(t, lo, hi, threads, s).unwrap();
            partial_sorting_scan_right_to_left_32s_6k_run(t, (s.0, s.1, s.2), lo, hi - lo) == Some((z.0, z.1, z.2))
        }),
{
    if !(threads == 1 || hi - lo < 65536 || s.3.len() == 0) {
        let x = (s.0, s.1, s.2);
        assert(fold_down(partial_sorting_scan_right_to_left_32s_6k_step(t), x, hi, hi) == Some(x));
        lemma_right_6k_parts(t, threads, part_span(threads), x, s.3, lo, hi, hi);
    }
}

/// The scan downward with four counters for each symbol keeps the counters that hold names within
/// the names given.
proof fn lemma_right_4k_names(t: Seq<i32>, k: int, s: InduceState, lo: int, hi: int)
    requires
        lo <= hi,
        fold_down(partial_sorting_scan_right_to_left_32s_4k_step(t, k), s, lo, hi) is Some,
        forall|w: int| 0 <= w < s.1.len() && w < 2 * k ==> #[trigger] s.1[w] <= s.2,
    ensures
        fold_down(partial_sorting_scan_right_to_left_32s_4k_step(t, k), s, lo, hi).unwrap().1.len() == s.1.len(),
        forall|w: int| 0 <= w < s.1.len() && w < 2 * k
            ==> #[trigger] fold_down(partial_sorting_scan_right_to_left_32s_4k_step(t, k), s, lo, hi).unwrap().1[w]
            <= fold_down(partial_sorting_scan_right_to_left_32s_4k_step(t, k), s, lo, hi).unwrap().2,
    decreases hi - lo,
{
    if lo < hi {
        lemma_fold_down_prefix(partial_sorting_scan_right_to_left_32s_4k_step(t, k), s, lo, lo + 1, hi);
        lemma_right_4k_names(t, k, s, lo + 1, hi);
        let x = fold_down(partial_sorting_scan_right_to_left_32s_4k_step(t, k), s, lo + 1, hi).unwrap();
        let y = fold_down(partial_sorting_scan_right_to_left_32s_4k_step(t, k), s, lo, hi).unwrap();
        assert(partial_sorting_scan_right_to_left_32s_4k_step(t, k)(x, lo) == Some(y));
        assert forall|w: int| 0 <= w < s.1.len() && w < 2 * k implies #[trigger] y.1[w] <= y.2 by {
            assert(x.1[w] <= x.2);
        }
    }
}

/// Where a scan downward from `hi` has come to `mid`, it goes on as one that starts there.
proof fn lemma_right_4k_onward(t: Seq<i32>, k: int, s: InduceState, lo: int, mid: int, hi: int, j: int, v: int)
    requires
        lo <= j < mid <= hi,
        fold_down(partial_sorting_scan_right_to_left_32s_4k_step(t, k), s, lo, hi) is Some,
    ensures
        fold_down(partial_sorting_scan_right_to_left_32s_4k_step(t, k), fold_down(partial_sorting_scan_right_to_left_32s_4k_step(t, k), s, mid, hi).unwrap(), j, mid)
            == fold_down(partial_sorting_scan_right_to_left_32s_4k_step(t, k), s, j, hi),
        fold_down(partial_sorting_scan_right_to_left_32s_4k_step(t, k), fold_down(partial_sorting_scan_right_to_left_32s_4k_step(t, k), s, mid, hi).unwrap(), j + 1, mid)
            == fold_down(partial_sorting_scan_right_to_left_32s_4k_step(t, k), s, j + 1, hi),
        name_moved(partial_sorting_scan_right_to_left_32s_4k_step(t, k), fold_down(partial_sorting_scan_right_to_left_32s_4k_step(t, k), s, mid, hi).unwrap(), mid, j, v)
            == name_moved(partial_sorting_scan_right_to_left_32s_4k_step(t, k), s, hi, j, v),
{
    lemma_fold_down_split(partial_sorting_scan_right_to_left_32s_4k_step(t, k), s, j, mid, hi);
    lemma_fold_down_split(partial_sorting_scan_right_to_left_32s_4k_step(t, k), s, j + 1, mid, hi);
    lemma_fold_down_prefix(partial_sorting_scan_right_to_left_32s_4k_step(t, k), s, lo, j, hi);
    lemma_fold_down_prefix(partial_sorting_scan_right_to_left_32s_4k_step(t, k), s, lo, j + 1, hi);
    lemma_fold_down_prefix(partial_sorting_scan_right_to_left_32s_4k_step(t, k), s, lo, mid, hi);
}

/// A scan downward in parts leaves what the direct scan leaves.
#[verifier::spinoff_prover]
proof fn lemma_right_4k_parts(t: Seq<i32>, k: int, threads: int, span: int, s: InduceState, desks: Seq<Desk>, lo: int, mid: int, hi: int)
    requires
        0 <= lo <= mid <= hi,
        fold_down(partial_sorting_scan_right_to_left_32s_4k_step(t, k), s, lo, hi) is Some,
        chunks_down(right_4k_part(t, k, threads), span, (fold_down(partial_sorting_scan_right_to_left_32s_4k_step(t, k), s, mid, hi).unwrap().0, fold_down(partial_sorting_scan_right_to_left_32s_4k_step(t, k), s, mid, hi).unwrap().1, fold_down(partial_sorting_scan_right_to_left_32s_4k_step(t, k), s, mid, hi).unwrap().2, desks), lo, mid) is Some,
        desks.len() > 0 ==> desks[0].cache.len() <= usize::MAX,
        forall|w: int| 0 <= w < s.1.len() && w < 2 * k ==> #[trigger] s.1[w] <= s.2,
        forall|j: int, v: int| lo <= j < mid && 0 <= v < s.1.len() && 2 * k <= v
            && #[trigger] name_moved(partial_sorting_scan_right_to_left_32s_4k_step(t, k), s, hi, j, v) ==>
            fold_down(partial_sorting_scan_right_to_left_32s_4k_step(t, k), s, j, hi).unwrap().1[v] < j
                && fold_down(partial_sorting_scan_right_to_left_32s_4k_step(t, k), s, j + 1, hi).unwrap().0[fold_down(partial_sorting_scan_right_to_left_32s_4k_step(t, k), s, j, hi).unwrap().1[v] as int] <= 0,
        forall|j: int, v: int, l: int, w: int| lo <= j < l < mid && 0 <= v < s.1.len() && 0 <= w < s.1.len() && 2 * k <= v && 2 * k <= w
            && #[trigger] name_moved(partial_sorting_scan_right_to_left_32s_4k_step(t, k), s, hi, j, v)
                && #[trigger] name_moved(partial_sorting_scan_right_to_left_32s_4k_step(t, k), s, hi, l, w)
            ==> fold_down(partial_sorting_scan_right_to_left_32s_4k_step(t, k), s, j, hi).unwrap().1[v]
                != fold_down(partial_sorting_scan_right_to_left_32s_4k_step(t, k), s, l, hi).unwrap().1[w],
    ensures
        ({
            let z = chunks_down(right_4k_part(t, k, threads), span, (fold_down(partial_sorting_scan_right_to_left_32s_4k_step(t, k), s, mid, hi).unwrap().0, fold_down(partial_sorting_scan_right_to_left_32s_4k_step(t, k), s, mid, hi).unwrap().1, fold_down(partial_sorting_scan_right_to_left_32s_4k_step(t, k), s, mid, hi).unwrap().2, desks), lo, mid).unwrap();
            (z.0, z.1, z.2) == fold_down(partial_sorting_scan_right_to_left_32s_4k_step(t, k), s, lo, hi).unwrap()
        }),
    decreases mid - lo,
{
    if lo < mid {
        let start = if mid - span > lo { mid - span } else { lo };
        let direct = partial_sorting_scan_right_to_left_32s_4k_step(t, k);
        lemma_fold_down_prefix(direct, s, lo, mid, hi);
        lemma_fold_down_prefix(direct, s, lo, start, hi);
        lemma_fold_down_split(direct, s, start, mid, hi);
        let x = fold_down(partial_sorting_scan_right_to_left_32s_4k_step(t, k), s, mid, hi).unwrap();
        lemma_right_4k_names(t, k, s, mid, hi);
        assert(fold_down(direct, x, start, mid) == fold_down(direct, s, start, hi));
        assert forall|j: int, v: int| start <= j < mid && 0 <= v < x.1.len() && 2 * k <= v
            && #[trigger] name_moved(direct, x, mid, j, v) implies
            fold_down(direct, x, j, mid).unwrap().1[v] < j
                && fold_down(direct, x, j + 1, mid).unwrap().0[fold_down(direct, x, j, mid).unwrap().1[v] as int] <= 0 by {
            lemma_right_4k_onward(t, k, s, lo, mid, hi, j, v);
        }
        assert forall|j: int, v: int, l: int, w: int| start <= j < l < mid && 0 <= v < x.1.len() && 0 <= w < x.1.len()
            && 2 * k <= v && 2 * k <= w
            && #[trigger] name_moved(direct, x, mid, j, v) && #[trigger] name_moved(direct, x, mid, l, w)
            implies fold_down(direct, x, j, mid).unwrap().1[v] != fold_down(direct, x, l, mid).unwrap().1[w] by {
            lemma_right_4k_onward(t, k, s, lo, mid, hi, j, v);
            lemma_right_4k_onward(t, k, s, lo, mid, hi, l, w);
        }
        let y = right_4k_part(t, k, threads)((x.0, x.1, x.2, desks), start, mid - start).unwrap();
        if threads == 1 || mid - start < 16384 {
            lemma_right_4k_parts(t, k, threads, span, s, desks, lo, start, hi);
        } else {
            assert(start + (mid - start) == mid);
            law_cached_right_4k(t, k, x.0, x.1, x.2, desks[0].cache, start, mid - start);
            lemma_right_4k_parts(t, k, threads, span, s, y.3, lo, start, hi);
        }
    }
}

/// Scanning downward with four counters for each symbol leaves the array and the counters
/// that one worker leaves, whatever the number of workers, where every head that the scan moves
/// goes to a slot that is ahead of it, is its own and holds no suffix to read, and no counter holds a later name than the last.
pub proof fn law_shared_right_4k(t: Seq<i32>, lo: int, hi: int, k: int, threads: int, s: NamingState)
    requires
        0 <= lo <= hi,
        right_4k_walked(t, lo, hi, k, threads, s) is Some,
        partial_sorting_scan_right_to_left_32s_4k_run(t, k, (s.0, s.1, s.2), lo, hi - lo) is Some,
        s.3.len() > 0 ==> s.3[0].cache.len() <= usize::MAX,
        forall|w: int| 0 <= w < s.1.len() && w < 2 * k ==> #[trigger] s.1[w] <= s.2,
        forall|j: int, v: int| lo <= j < hi && 0 <= v < s.1.len() && 2 * k <= v
            && #[trigger] name_moved(partial_sorting_scan_right_to_left_32s_4k_step(t, k), (s.0, s.1, s.2), hi, j, v) ==>
            fold_down(partial_sorting_scan_right_to_left_32s_4k_step(t, k), (s.0, s.1, s.2), j, hi).unwrap().1[v] < j
                && fold_down(partial_sorting_scan_right_to_left_32s_4k_step(t, k), (s.0, s.1, s.2), j + 1, hi).unwrap().0[fold_down(partial_sorting_scan_right_to_left_32s_4k_step(t, k), (s.0, s.1, s.2), j, hi).unwrap().1[v] as int] <= 0,
        forall|j: int, v: int, l: int, w: int| lo <= j < l < hi && 0 <= v < s.1.len() && 0 <= w < s.1.len() && 2 * k <= v && 2 * k <= w
            && #[trigger] name_moved(partial_sorting_scan_right_to_left_32s_4k_step(t, k), (s.0, s.1, s.2), hi, j, v)
                && #[trigger] name_moved(partial_sorting_scan_right_to_left_32s_4k_step(t, k), (s.0, s.1, s.2), hi, l, w)
            ==> fold_down(partial_sorting_scan_right_to_left_32s_4k_step(t, k), (s.0, s.1, s.2), j, hi).unwrap().1[v]
                != fold_down(partial_sorting_scan_right_to_left_32s_4k_step(t, k), (s.0, s.1, s.2), l, hi).unwrap().1[w],
    ensures
        ({
            let z = right_4k_walked(t, lo, hi, k, threads, s).unwrap();
            partial_sorting_scan_right_to_left_32s_4k_run(t, k, (s.0, s.1, s.2), lo, hi - lo) == Some((z.0, z.1, z.2))
        }),
{
    if !(threads == 1 || hi - lo < 65536 || s.3.len() == 0) {
        let x = (s.0, s.1, s.2);
        assert(fold_down(partial_sorting_scan_right_to_left_32s_4k_step(t, k), x, hi, hi) == Some(x));
        lemma_right_4k_parts(t, k, threads, part_span(threads), x, s.3, lo, hi, hi);
    }
}

/// The scan downward keeps the number of counters.
proof fn lemma_right_1k_sized(t: Seq<i32>, s: PlaceState, lo: int, hi: int)
    requires
        fold_down(partial_sorting_scan_right_to_left_32s_1k_step(t), s, lo, hi) is Some,
    ensures
        fold_down(partial_sorting_scan_right_to_left_32s_1k_step(t), s, lo, hi).unwrap().1.len() == s.1.len(),
    decreases hi - lo,
{
    if lo < hi {
        lemma_fold_down_prefix(partial_sorting_scan_right_to_left_32s_1k_step(t), s, lo, lo + 1, hi);
        lemma_right_1k_sized(t, s, lo + 1, hi);
    }
}

/// Where a scan downward from `hi` has come to `mid`, it goes on as one that starts there.
proof fn lemma_right_1k_onward(t: Seq<i32>, s: PlaceState, lo: int, mid: int, hi: int, j: int, v: int)
    requires
        lo <= j < mid <= hi,
        fold_down(partial_sorting_scan_right_to_left_32s_1k_step(t), s, lo, hi) is Some,
    ensures
        fold_down(partial_sorting_scan_right_to_left_32s_1k_step(t), fold_down(partial_sorting_scan_right_to_left_32s_1k_step(t), s, mid, hi).unwrap(), j, mid)
            == fold_down(partial_sorting_scan_right_to_left_32s_1k_step(t), s, j, hi),
        fold_down(partial_sorting_scan_right_to_left_32s_1k_step(t), fold_down(partial_sorting_scan_right_to_left_32s_1k_step(t), s, mid, hi).unwrap(), j + 1, mid)
            == fold_down(partial_sorting_scan_right_to_left_32s_1k_step(t), s, j + 1, hi),
        head_moved(partial_sorting_scan_right_to_left_32s_1k_step(t), fold_down(partial_sorting_scan_right_to_left_32s_1k_step(t), s, mid, hi).unwrap(), mid, j, v)
            == head_moved(partial_sorting_scan_right_to_left_32s_1k_step(t), s, hi, j, v),
{
    lemma_fold_down_split(partial_sorting_scan_right_to_left_32s_1k_step(t), s, j, mid, hi);
    lemma_fold_down_split(partial_sorting_scan_right_to_left_32s_1k_step(t), s, j + 1, mid, hi);
    lemma_fold_down_prefix(partial_sorting_scan_right_to_left_32s_1k_step(t), s, lo, j, hi);
    lemma_fold_down_prefix(partial_sorting_scan_right_to_left_32s_1k_step(t), s, lo, j + 1, hi);
    lemma_fold_down_prefix(partial_sorting_scan_right_to_left_32s_1k_step(t), s, lo, mid, hi);
}

/// A scan downward in parts leaves what the direct scan leaves.
#[verifier::spinoff_prover]
proof fn lemma_right_1k_parts(t: Seq<i32>, threads: int, span: int, s: PlaceState, desks: Seq<Desk>, lo: int, mid: int, hi: int)
    requires
        0 <= lo <= mid <= hi,
        fold_down(partial_sorting_scan_right_to_left_32s_1k_step(t), s, lo, hi) is Some,
        chunks_down(right_1k_part(t, threads), span, (fold_down(partial_sorting_scan_right_to_left_32s_1k_step(t), s, mid, hi).unwrap().0, fold_down(partial_sorting_scan_right_to_left_32s_1k_step(t), s, mid, hi).unwrap().1, desks), lo, mid) is Some,
        desks.len() > 0 ==> desks[0].cache.len() <= usize::MAX,
        forall|j: int, v: int| lo <= j < mid && 0 <= v < s.1.len()
            && #[trigger] head_moved(partial_sorting_scan_right_to_left_32s_1k_step(t), s, hi, j, v) ==>
            fold_down(partial_sorting_scan_right_to_left_32s_1k_step(t), s, j, hi).unwrap().1[v] < j
                && fold_down(partial_sorting_scan_right_to_left_32s_1k_step(t), s, j + 1, hi).unwrap().0[fold_down(partial_sorting_scan_right_to_left_32s_1k_step(t), s, j, hi).unwrap().1[v] as int] <= 0,
        forall|j: int, v: int, l: int, w: int| lo <= j < l < mid && 0 <= v < s.1.len() && 0 <= w < s.1.len()
            && #[trigger] head_moved(partial_sorting_scan_right_to_left_32s_1k_step(t), s, hi, j, v)
                && #[trigger] head_moved(partial_sorting_scan_right_to_left_32s_1k_step(t), s, hi, l, w)
            ==> fold_down(partial_sorting_scan_right_to_left_32s_1k_step(t), s, j, hi).unwrap().1[v]
                != fold_down(partial_sorting_scan_right_to_left_32s_1k_step(t), s, l, hi).unwrap().1[w],
    ensures
        ({
            let z = chunks_down(right_1k_part(t, threads), span, (fold_down(partial_sorting_scan_right_to_left_32s_1k_step(t), s, mid, hi).unwrap().0, fold_down(partial_sorting_scan_right_to_left_32s_1k_step(t), s, mid, hi).unwrap().1, desks), lo, mid).unwrap();
            (z.0, z.1) == fold_down(partial_sorting_scan_right_to_left_32s_1k_step(t), s, lo, hi).unwrap()
        }),
    decreases mid - lo,
{
    if lo < mid {
        let start = if mid - span > lo { mid - span } else { lo };
        let direct = partial_sorting_scan_right_to_left_32s_1k_step(t);
        lemma_fold_down_prefix(direct, s, lo, mid, hi);
        lemma_fold_down_prefix(direct, s, lo, start, hi);
        lemma_fold_down_split(direct, s, start, mid, hi);
        let x = fold_down(partial_sorting_scan_right_to_left_32s_1k_step(t), s, mid, hi).unwrap();
        lemma_right_1k_sized(t, s, mid, hi);
        assert(fold_down(direct, x, start, mid) == fold_down(direct, s, start, hi));
        assert forall|j: int, v: int| start <= j < mid && 0 <= v < x.1.len() && #[trigger] head_moved(direct, x, mid, j, v) implies
            fold_down(direct, x, j, mid).unwrap().1[v] < j
                && fold_down(direct, x, j + 1, mid).unwrap().0[fold_down(direct, x, j, mid).unwrap().1[v] as int] <= 0 by {
            lemma_right_1k_onward(t, s, lo, mid, hi, j, v);
        }
        assert forall|j: int, v: int, l: int, w: int| start <= j < l < mid && 0 <= v < x.1.len() && 0 <= w < x.1.len()
            && #[trigger] head_moved(direct, x, mid, j, v) && #[trigger] head_moved(direct, x, mid, l, w)
            implies fold_down(direct, x, j, mid).unwrap().1[v] != fold_down(direct, x, l, mid).unwrap().1[w] by {
            lemma_right_1k_onward(t, s, lo, mid, hi, j, v);
            lemma_right_1k_onward(t, s, lo, mid, hi, l, w);
        }
        let y = right_1k_part(t, threads)((x.0, x.1, desks), start, mid - start).unwrap();
        if threads == 1 || mid - start < 16384 {
            lemma_right_1k_parts(t, threads, span, s, desks, lo, start, hi);
        } else {
            assert(start + (mid - start) == mid);
            law_cached_right_1k(t, x.0, x.1, desks[0].cache, start, mid - start);
            lemma_right_1k_parts(t, threads, span, s, y.2, lo, start, hi);
        }
    }
}

/// Scanning downward with one counter for each symbol leaves the array and the counters
/// that one worker leaves, whatever the number of workers, where every head that the scan moves
/// goes to a slot that is ahead of it, is its own and holds no suffix to read.
pub proof fn law_shared_right_1k(t: Seq<i32>, lo: int, hi: int, threads: int, s: FinalState)
    requires
        0 <= lo <= hi,
        right_1k_walked(t, lo, hi, threads, s) is Some,
        partial_sorting_scan_right_to_left_32s_1k_run(t, (s.0, s.1), lo, hi - lo) is Some,
        s.2.len() > 0 ==> s.2[0].cache.len() <= usize::MAX,
        forall|j: int, v: int| lo <= j < hi && 0 <= v < s.1.len()
            && #[trigger] head_moved(partial_sorting_scan_right_to_left_32s_1k_step(t), (s.0, s.1), hi, j, v) ==>
            fold_down(partial_sorting_scan_right_to_left_32s_1k_step(t), (s.0, s.1), j, hi).unwrap().1[v] < j
                && fold_down(partial_sorting_scan_right_to_left_32s_1k_step(t), (s.0, s.1), j + 1, hi).unwrap().0[fold_down(partial_sorting_scan_right_to_left_32s_1k_step(t), (s.0, s.1), j, hi).unwrap().1[v] as int] <= 0,
        forall|j: int, v: int, l: int, w: int| lo <= j < l < hi && 0 <= v < s.1.len() && 0 <= w < s.1.len()
            && #[trigger] head_moved(partial_sorting_scan_right_to_left_32s_1k_step(t), (s.0, s.1), hi, j, v)
                && #[trigger] head_moved(partial_sorting_scan_right_to_left_32s_1k_step(t), (s.0, s.1), hi, l, w)
            ==> fold_down(partial_sorting_scan_right_to_left_32s_1k_step(t), (s.0, s.1), j, hi).unwrap().1[v]
                != fold_down(partial_sorting_scan_right_to_left_32s_1k_step(t), (s.0, s.1), l, hi).unwrap().1[w],
    ensures
        ({
            let z = right_1k_walked(t, lo, hi, threads, s).unwrap();
            partial_sorting_scan_right_to_left_32s_1k_run(t, (s.0, s.1), lo, hi - lo) == Some((z.0, z.1))
        }),
{
    if !(threads == 1 || hi - lo < 65536 || s.2.len() == 0) {
        let x = (s.0, s.1);
        assert(fold_down(partial_sorting_scan_right_to_left_32s_1k_step(t), x, hi, hi) == Some(x));
        lemma_right_1k_parts(t, threads, part_span(threads), x, s.2, lo, hi, hi);
    }
}

/// The scan downward keeps the number of counters.
proof fn lemma_right_final_sized(t: Seq<i32>, s: PlaceState, lo: int, hi: int)
    requires
        fold_down(final_sorting_scan_right_to_left_32s_step(t), s, lo, hi) is Some,
    ensures
        fold_down(final_sorting_scan_right_to_left_32s_step(t), s, lo, hi).unwrap().1.len() == s.1.len(),
    decreases hi - lo,
{
    if lo < hi {
        lemma_fold_down_prefix(final_sorting_scan_right_to_left_32s_step(t), s, lo, lo + 1, hi);
        lemma_right_final_sized(t, s, lo + 1, hi);
    }
}

/// Where a scan downward from `hi` has come to `mid`, it goes on as one that starts there.
proof fn lemma_right_final_onward(t: Seq<i32>, s: PlaceState, lo: int, mid: int, hi: int, j: int, v: int)
    requires
        lo <= j < mid <= hi,
        fold_down(final_sorting_scan_right_to_left_32s_step(t), s, lo, hi) is Some,
    ensures
        fold_down(final_sorting_scan_right_to_left_32s_step(t), fold_down(final_sorting_scan_right_to_left_32s_step(t), s, mid, hi).unwrap(), j, mid)
            == fold_down(final_sorting_scan_right_to_left_32s_step(t), s, j, hi),
        fold_down(final_sorting_scan_right_to_left_32s_step(t), fold_down(final_sorting_scan_right_to_left_32s_step(t), s, mid, hi).unwrap(), j + 1, mid)
            == fold_down(final_sorting_scan_right_to_left_32s_step(t), s, j + 1, hi),
        head_moved(final_sorting_scan_right_to_left_32s_step(t), fold_down(final_sorting_scan_right_to_left_32s_step(t), s, mid, hi).unwrap(), mid, j, v)
            == head_moved(final_sorting_scan_right_to_left_32s_step(t), s, hi, j, v),
{
    lemma_fold_down_split(final_sorting_scan_right_to_left_32s_step(t), s, j, mid, hi);
    lemma_fold_down_split(final_sorting_scan_right_to_left_32s_step(t), s, j + 1, mid, hi);
    lemma_fold_down_prefix(final_sorting_scan_right_to_left_32s_step(t), s, lo, j, hi);
    lemma_fold_down_prefix(final_sorting_scan_right_to_left_32s_step(t), s, lo, j + 1, hi);
    lemma_fold_down_prefix(final_sorting_scan_right_to_left_32s_step(t), s, lo, mid, hi);
}

/// A scan downward in parts leaves what the direct scan leaves.
#[verifier::spinoff_prover]
proof fn lemma_right_final_parts(t: Seq<i32>, threads: int, span: int, s: PlaceState, desks: Seq<Desk>, lo: int, mid: int, hi: int)
    requires
        0 <= lo <= mid <= hi,
        fold_down(final_sorting_scan_right_to_left_32s_step(t), s, lo, hi) is Some,
        chunks_down(final_right_part(t, threads), span, (fold_down(final_sorting_scan_right_to_left_32s_step(t), s, mid, hi).unwrap().0, fold_down(final_sorting_scan_right_to_left_32s_step(t), s, mid, hi).unwrap().1, desks), lo, mid) is Some,
        desks.len() > 0 ==> desks[0].cache.len() <= usize::MAX,
        forall|j: int, v: int| lo <= j < mid && 0 <= v < s.1.len()
            && #[trigger] head_moved(final_sorting_scan_right_to_left_32s_step(t), s, hi, j, v) ==>
            fold_down(final_sorting_scan_right_to_left_32s_step(t), s, j, hi).unwrap().1[v] < j
                && fold_down(final_sorting_scan_right_to_left_32s_step(t), s, j + 1, hi).unwrap().0[fold_down(final_sorting_scan_right_to_left_32s_step(t), s, j, hi).unwrap().1[v] as int] <= 0,
        forall|j: int, v: int, l: int, w: int| lo <= j < l < mid && 0 <= v < s.1.len() && 0 <= w < s.1.len()
            && #[trigger] head_moved(final_sorting_scan_right_to_left_32s_step(t), s, hi, j, v)
                && #[trigger] head_moved(final_sorting_scan_right_to_left_32s_step(t), s, hi, l, w)
            ==> fold_down(final_sorting_scan_right_to_left_32s_step(t), s, j, hi).unwrap().1[v]
                != fold_down(final_sorting_scan_right_to_left_32s_step(t), s, l, hi).unwrap().1[w],
    ensures
        ({
            let z = chunks_down(final_right_part(t, threads), span, (fold_down(final_sorting_scan_right_to_left_32s_step(t), s, mid, hi).unwrap().0, fold_down(final_sorting_scan_right_to_left_32s_step(t), s, mid, hi).unwrap().1, desks), lo, mid).unwrap();
            (z.0, z.1) == fold_down(final_sorting_scan_right_to_left_32s_step(t), s, lo, hi).unwrap()
        }),
    decreases mid - lo,
{
    if lo < mid {
        let start = if mid - span > lo { mid - span } else { lo };
        let direct = final_sorting_scan_right_to_left_32s_step(t);
        lemma_fold_down_prefix(direct, s, lo, mid, hi);
        lemma_fold_down_prefix(direct, s, lo, start, hi);
        lemma_fold_down_split(direct, s, start, mid, hi);
        let x = fold_down(final_sorting_scan_right_to_left_32s_step(t), s, mid, hi).unwrap();
        lemma_right_final_sized(t, s, mid, hi);
        assert(fold_down(direct, x, start, mid) == fold_down(direct, s, start, hi));
        assert forall|j: int, v: int| start <= j < mid && 0 <= v < x.1.len() && #[trigger] head_moved(direct, x, mid, j, v) implies
            fold_down(direct, x, j, mid).unwrap().1[v] < j
                && fold_down(direct, x, j + 1, mid).unwrap().0[fold_down(direct, x, j, mid).unwrap().1[v] as int] <= 0 by {
            lemma_right_final_onward(t, s, lo, mid, hi, j, v);
        }
        assert forall|j: int, v: int, l: int, w: int| start <= j < l < mid && 0 <= v < x.1.len() && 0 <= w < x.1.len()
            && #[trigger] head_moved(direct, x, mid, j, v) && #[trigger] head_moved(direct, x, mid, l, w)
            implies fold_down(direct, x, j, mid).unwrap().1[v] != fold_down(direct, x, l, mid).unwrap().1[w] by {
            lemma_right_final_onward(t, s, lo, mid, hi, j, v);
            lemma_right_final_onward(t, s, lo, mid, hi, l, w);
        }
        let y = final_right_part(t, threads)((x.0, x.1, desks), start, mid - start).unwrap();
        if false {
            lemma_right_final_parts(t, threads, span, s, desks, lo, start, hi);
        } else {
            assert(start + (mid - start) == mid);
            law_cached_right_final(t, x.0, x.1, desks[0].cache, start, mid - start);
            lemma_right_final_parts(t, threads, span, s, y.2, lo, start, hi);
        }
    }
}

/// Scanning downward with one counter for each symbol to the sorted order leaves the array and the counters
/// that one worker leaves, whatever the number of workers, where every head that the scan moves
/// goes to a slot that is ahead of it, is its own and holds no suffix to read.
pub proof fn law_shared_right_final(t: Seq<i32>, lo: int, hi: int, threads: int, s: FinalState)
    requires
        0 <= lo <= hi,
        final_right_walked(t, lo, hi, threads, s) is Some,
        final_sorting_scan_right_to_left_32s_run(t, (s.0, s.1), lo, hi - lo) is Some,
        s.2.len() > 0 ==> s.2[0].cache.len() <= usize::MAX,
        forall|j: int, v: int| lo <= j < hi && 0 <= v < s.1.len()
            && #[trigger] head_moved(final_sorting_scan_right_to_left_32s_step(t), (s.0, s.1), hi, j, v) ==>
            fold_down(final_sorting_scan_right_to_left_32s_step(t), (s.0, s.1), j, hi).unwrap().1[v] < j
                && fold_down(final_sorting_scan_right_to_left_32s_step(t), (s.0, s.1), j + 1, hi).unwrap().0[fold_down(final_sorting_scan_right_to_left_32s_step(t), (s.0, s.1), j, hi).unwrap().1[v] as int] <= 0,
        forall|j: int, v: int, l: int, w: int| lo <= j < l < hi && 0 <= v < s.1.len() && 0 <= w < s.1.len()
            && #[trigger] head_moved(final_sorting_scan_right_to_left_32s_step(t), (s.0, s.1), hi, j, v)
                && #[trigger] head_moved(final_sorting_scan_right_to_left_32s_step(t), (s.0, s.1), hi, l, w)
            ==> fold_down(final_sorting_scan_right_to_left_32s_step(t), (s.0, s.1), j, hi).unwrap().1[v]
                != fold_down(final_sorting_scan_right_to_left_32s_step(t), (s.0, s.1), l, hi).unwrap().1[w],
    ensures
        ({
            let z = final_right_walked(t, lo, hi, threads, s).unwrap();
            final_sorting_scan_right_to_left_32s_run(t, (s.0, s.1), lo, hi - lo) == Some((z.0, z.1))
        }),
{
    if !(threads == 1 || hi - lo < 65536 || s.2.len() == 0) {
        let x = (s.0, s.1);
        assert(fold_down(final_sorting_scan_right_to_left_32s_step(t), x, hi, hi) == Some(x));
        lemma_right_final_parts(t, threads, full_span(threads), x, s.2, lo, hi, hi);
    }
}

} // verus!
