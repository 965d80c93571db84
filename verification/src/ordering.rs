//! The order of all suffixes from the sorted leftmost suffixes of type S and the counts of all.

use vstd::prelude::*;
use crate::bounds::{
    count_below, counted, law_bucket_bounds_4k, law_bucket_bounds_6k, law_bucket_ends_2k, law_final_order_2k,
    law_final_order_4k, law_final_order_6k, lemma_counted, lemma_lanes_sum, lemma_sums_are_ends,
};
use crate::buckets::{
    initialize_buckets_end_32s_2k_run, initialize_buckets_start_and_end_32s_4k_run,
    initialize_buckets_start_and_end_32s_6k_run,
};
use crate::gather::{text32, LmsMode};
use crate::induction::{bucket_ends, symbols_below};
use crate::kinds::{counter_total, is_lms, slot_count};
use crate::main_32s::{ordered_2k, ordered_4k, ordered_6k};
use crate::order::{is_suffix_array, lemma_less_irreflexive, suffix_less};
use crate::place::{lms_count, placed, PlaceMode};
use crate::placement::lms_sorted;
use crate::recount::{
    below_of, every_lms, lemma_below_step, lemma_grouped, lemma_lms_slot_count, lists_base,
};
use crate::spreading::{grouped, holds_end, law_spread, lemma_spread_in_place, spreadable, tabled};

verus! {

/// Sorted leftmost suffixes of type S are grouped by their first symbols.
pub proof fn lemma_sorted_grouped(t: Seq<i32>, s: Seq<i32>, m: int, k: int)
    requires
        t.len() <= i32::MAX,
        lms_sorted(t, s, m),
    ensures
        grouped(t, s, m, k, below_of(text32(t), every_lms(text32(t)))),
{
    let x = text32(t);
    let base = every_lms(x);
    assert forall|a: int| 0 <= a < m implies 0 <= #[trigger] s[a] < t.len() && base(s[a] as int) by {
        assert(is_lms(x, s[a] as int));
    }
    assert forall|a: int, b: int| 0 <= a < b < m implies #[trigger] s[a] != #[trigger] s[b] by {
        assert(suffix_less(x, s[a] as int, s[b] as int));
        lemma_less_irreflexive(x, s[a] as int);
    }
    assert forall|a: int, b: int| 0 <= a < b < m implies t[#[trigger] s[a] as int] <= t[#[trigger] s[b] as int] by {
        assert(suffix_less(x, s[a] as int, s[b] as int));
        assert(is_lms(x, s[a] as int) && is_lms(x, s[b] as int));
    }
    assert(lists_base(t, base, s, m)) by {
        assert forall|p: int| 0 <= p < t.len() && #[trigger] base(p) implies crate::placement::among(s, 0, m, p as i32) by {
            assert(is_lms(x, p));
        }
    }
    lemma_grouped(t, base, s, m, k);
}

/// The counter of the leftmost suffixes of type S that start with `c`.
proof fn lemma_counter(t: Seq<i32>, mode: LmsMode, k: int, b: Seq<i32>, c: int)
    requires
        counted(t, mode, k, b),
        !mode.compact,
        mode.lanes == 2 || mode.lanes == 4,
        0 <= c < k,
    ensures
        ({
            let below = below_of(text32(t), every_lms(text32(t)));
            b[mode.lanes * c + 1] == below(c + 1) - below(c)
        }),
{
    let x = text32(t);
    lemma_lms_slot_count(x, mode, c, 0);
    lemma_below_step(x, every_lms(x), c, 0);
    assert(0 <= mode.lanes * c + 1 < mode.lanes * k) by (nonlinear_arith)
        requires
            0 <= c < k,
            mode.lanes == 2 || mode.lanes == 4,
    ;
    assert(b[mode.lanes * c + 1] == slot_count(x, mode, mode.lanes * c + 1, 0, t.len() as int));
}

/// Spreading by counts puts the sorted leftmost suffixes of type S in place.
proof fn lemma_spread_counted(
    t: Seq<i32>,
    sa: Seq<i32>,
    s: Seq<i32>,
    m: int,
    k: int,
    mode: LmsMode,
    b: Seq<i32>,
    place: PlaceMode,
    e: Seq<i32>,
    ends: Seq<i32>,
)
    requires
        2 <= t.len() <= i32::MAX,
        t.len() <= s.len(),
        is_suffix_array(text32(t), sa),
        symbols_below(t, k),
        1 <= k <= i32::MAX,
        !mode.compact,
        mode.lanes == 2 || mode.lanes == 4,
        counted(t, mode, k, b),
        lms_sorted(t, s, m),
        m <= t.len(),
        place.step == mode.lanes,
        !place.sums,
        mode.lanes * k <= e.len(),
        forall|c: int| 0 <= c < k ==> e[#[trigger] (mode.lanes * c + 1)] == b[mode.lanes * c + 1],
        forall|c: int| 0 <= c < k ==> #[trigger] b[mode.lanes * c + 1] >= 0,
        bucket_ends(t, sa, k, ends),
        forall|c: int| #![trigger ends[c]] 0 <= c < k - 1 ==> holds_end(place, e, c, ends[c]),
    ensures
        placed(place, e, s, t.len() as int, m, k - 1) is Some,
        crate::induction::lms_in_place(t, sa, placed(place, e, s, t.len() as int, m, k - 1)->0),
{
    let below = below_of(text32(t), every_lms(text32(t)));
    lemma_sorted_grouped(t, s, m, k);
    assert forall|c: int| #![trigger below(c)] 0 <= c < k - 1 implies lms_count(place, e, c) == Some(below(c + 1) - below(c)) by {
        lemma_counter(t, mode, k, b, c);
        assert(e[mode.lanes * c + 1] == b[mode.lanes * c + 1]);
        assert(mode.lanes * c + 1 < mode.lanes * k && 0 <= mode.lanes * c) by (nonlinear_arith)
            requires
                0 <= c < k,
                mode.lanes == 2 || mode.lanes == 4,
        ;
    }
    assert(spreadable(t, sa, s, m, k, ends, below));
    assert(tabled(place, e, k, ends, below));
    law_spread(t, sa, s, m, k, ends, below, place, e);
    lemma_spread_in_place(t, sa, s, m, placed(place, e, s, t.len() as int, m, k - 1)->0);
}

/// Whoever has sorted the leftmost suffixes of type S and counted all has the order of all, with
/// two buckets for each symbol.
pub proof fn law_sorted_lms_suffice_2k(t: Seq<i32>, sa: Seq<i32>, s: Seq<i32>, m: int, k: int, mode: LmsMode, b: Seq<i32>)
    requires
        2 <= t.len() <= i32::MAX,
        t.len() <= s.len(),
        is_suffix_array(text32(t), sa),
        symbols_below(t, k),
        1 <= k <= i32::MAX,
        2 * k <= b.len(),
        !mode.compact,
        mode.lanes == 2,
        counted(t, mode, k, b),
        lms_sorted(t, s, m),
        m <= t.len(),
    ensures
        ordered_2k(t, t.len() as int, k, m, (s, b)) is Some,
        ordered_2k(t, t.len() as int, k, m, (s, b)).unwrap().subrange(0, t.len() as int) == sa,
{
    let n = t.len() as int;
    lemma_counted(t, mode, k, b);
    law_bucket_ends_2k(k, b);
    let e = initialize_buckets_end_32s_2k_run(k, b).unwrap().0;
    let ends = Seq::new(k as nat, |c: int| e[2 * c]);
    assert forall|c: int| 0 <= c < k implies #[trigger] ends[c] == count_below(t, c + 1, n) by {
        lemma_lanes_sum(t, mode, b, k, c + 1);
        assert(e[2 * c] == counter_total(b, 2 * c + 2));
    }
    lemma_sums_are_ends(t, sa, k, ends);
    let place = PlaceMode { step: 2, sums: false, ends: 0, end_step: 2 };
    lemma_spread_counted(t, sa, s, m, k, mode, b, place, e, ends);
    law_final_order_2k(t, sa, placed(place, e, s, n, m, k - 1)->0, k, mode, b);
}

/// Whoever has sorted the leftmost suffixes of type S and counted all has the order of all, with
/// four buckets for each symbol.
pub proof fn law_sorted_lms_suffice_4k(t: Seq<i32>, sa: Seq<i32>, s: Seq<i32>, m: int, k: int, mode: LmsMode, b: Seq<i32>)
    requires
        2 <= t.len() <= i32::MAX,
        t.len() <= s.len(),
        is_suffix_array(text32(t), sa),
        symbols_below(t, k),
        1 <= k <= i32::MAX,
        4 * k <= b.len() <= usize::MAX,
        !mode.compact,
        mode.lanes == 2,
        counted(t, mode, k, b),
        lms_sorted(t, s, m),
        m <= t.len(),
    ensures
        ordered_4k(t, t.len() as int, k, m, (s, b)) is Some,
        ordered_4k(t, t.len() as int, k, m, (s, b)).unwrap().subrange(0, t.len() as int) == sa,
{
    let n = t.len() as int;
    lemma_counted(t, mode, k, b);
    law_bucket_bounds_4k(k, b);
    let e = initialize_buckets_start_and_end_32s_4k_run(k, b).unwrap().0;
    let ends = Seq::new(k as nat, |c: int| e[3 * k + c]);
    assert forall|c: int| 0 <= c < k implies #[trigger] ends[c] == count_below(t, c + 1, n) by {
        lemma_lanes_sum(t, mode, b, k, c + 1);
        assert(e[3 * k + c] == counter_total(b, 2 * c + 2));
    }
    lemma_sums_are_ends(t, sa, k, ends);
    let place = PlaceMode { step: 2, sums: false, ends: (3 * k) as usize, end_step: 1 };
    lemma_spread_counted(t, sa, s, m, k, mode, b, place, e, ends);
    law_final_order_4k(t, sa, placed(place, e, s, n, m, k - 1)->0, k, mode, b);
}

/// Whoever has sorted the leftmost suffixes of type S, one at most, and counted all has the order
/// of all, with six buckets for each symbol.
pub proof fn law_sorted_lms_suffice_6k(t: Seq<i32>, sa: Seq<i32>, s: Seq<i32>, m: int, k: int, mode: LmsMode, b: Seq<i32>)
    requires
        2 <= t.len() <= i32::MAX,
        t.len() <= s.len(),
        is_suffix_array(text32(t), sa),
        symbols_below(t, k),
        1 <= k <= i32::MAX,
        6 * k <= b.len() <= usize::MAX,
        !mode.compact,
        mode.lanes == 4,
        counted(t, mode, k, b),
        lms_sorted(t, s, m),
        m <= 1,
    ensures
        ordered_6k(t, t.len() as int, k, m, (s, b)) is Some,
        ordered_6k(t, t.len() as int, k, m, (s, b)).unwrap().subrange(0, t.len() as int) == sa,
{
    let n = t.len() as int;
    lemma_counted(t, mode, k, b);
    law_bucket_bounds_6k(k, b);
    let e = initialize_buckets_start_and_end_32s_6k_run(k, b).unwrap().0;
    let ends = Seq::new(k as nat, |c: int| e[5 * k + c]);
    assert forall|c: int| 0 <= c < k implies #[trigger] ends[c] == count_below(t, c + 1, n) by {
        lemma_lanes_sum(t, mode, b, k, c + 1);
        assert(e[5 * k + c] == counter_total(b, 4 * c + 4));
    }
    lemma_sums_are_ends(t, sa, k, ends);
    let place = PlaceMode { step: 4, sums: false, ends: (5 * k) as usize, end_step: 1 };
    lemma_spread_counted(t, sa, s, m, k, mode, b, place, e, ends);
    law_final_order_6k(t, sa, placed(place, e, s, n, m, k - 1)->0, k, mode, b);
}

} // verus!
