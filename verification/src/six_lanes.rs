//! The six buckets of each symbol for the scans over the substrings: how many suffixes there are
//! of each symbol and each pair of types.

use vstd::prelude::*;
use crate::buckets::{
    initialize_buckets_for_lms_suffixes_radix_sort_32s_6k_run, initialize_buckets_for_partial_sorting_32s_6k_run,
    partial_slot_32s_6k_run, partial_slot_32s_6k_step, radix_slot_32s_6k_run, radix_slot_32s_6k_step, uncount_run,
};
use crate::byte_lanes::{all_left, all_right, later_count, lemma_count_steps, lemma_slot_count_split, lemma_uncounted};
use crate::gather::{text32, LmsMode};
use crate::induction::symbols_below;
use crate::kinds::{is_lms, slot_count};
use crate::listing::{lemma_below_bound, lemma_below_grows, lemma_below_zero};
use crate::marks::bit;
use crate::partial_induction::first_lms;
use crate::recount::{below_of, every_lms};

verus! {

/// The bounds of the buckets that the scan to the right visits are summed symbol by symbol.
proof fn lemma_radix_slots_6k(x: Seq<int>, f: int, k: int, mode: LmsMode, b: Seq<i32>, hi: int)
    requires
        x.len() <= i32::MAX,
        first_lms(x, f),
        !mode.compact,
        mode.lanes == 4,
        6 * k <= b.len(),
        forall|i: int| 0 <= i < x.len() ==> 0 <= #[trigger] x[i] < k,
        forall|slot: int| 0 <= slot < 4 * k ==> #[trigger] b[slot] == later_count(x, f, mode, slot),
        0 <= hi <= k,
    ensures
        ({
            let r = radix_slot_32s_6k_run(k, (b, 0), 0, hi);
            let below = below_of(x, all_left(x, f));
            &&& r is Some
            &&& r.unwrap().0.len() == b.len()
            &&& r.unwrap().1 == below(hi)
            &&& forall|c: int| 0 <= c < hi ==> r.unwrap().0[#[trigger] (4 * k + c)] == below(c + 1)
            &&& forall|j: int| 0 <= j < 4 * k ==> #[trigger] r.unwrap().0[j] == b[j]
        }),
    decreases hi,
{
    let below = below_of(x, all_left(x, f));
    assert forall|p: int| 0 <= p < x.len() implies 0 <= #[trigger] x[p] by {
        assert(0 <= x[p] < k);
    }
    if hi > 0 {
        let i = hi - 1;
        lemma_radix_slots_6k(x, f, k, mode, b, i);
        let st = radix_slot_32s_6k_run(k, (b, 0), 0, i)->0;
        lemma_count_steps(x, f, mode, i);
        lemma_below_bound(x, all_left(x, f), i);
        lemma_below_bound(x, all_left(x, f), hi);
        assert(st.0[4 * i + 1] == b[4 * i + 1] && st.0[4 * i + 3] == b[4 * i + 3]);
        let nx = (st.0.update(4 * k + i, below(hi) as i32), below(hi) as i32);
        assert(radix_slot_32s_6k_run(k, (b, 0), 0, hi) == radix_slot_32s_6k_step(k)(st, i));
        assert(radix_slot_32s_6k_step(k)(st, i) == Some(nx));
        assert forall|c: int| 0 <= c < hi implies nx.0[#[trigger] (4 * k + c)] == below(c + 1) by {
            assert(c < i ==> st.0[4 * k + c] == below(c + 1));
        }
    } else {
        lemma_below_zero(x, all_left(x, f), 0);
    }
}

/// The buckets in front of the sorting by first symbols: the counters of the suffixes behind the
/// first leftmost one of type S, and the ends of the buckets that the scan to the right visits.
pub proof fn lemma_radix_buckets_6k(t: Seq<i32>, f: int, k: int, mode: LmsMode, b: Seq<i32>)
    requires
        t.len() <= i32::MAX,
        symbols_below(t, k),
        1 <= k,
        first_lms(text32(t), f),
        !mode.compact,
        mode.lanes == 4,
        6 * k <= b.len(),
        forall|slot: int| 0 <= slot < 4 * k ==> #[trigger] b[slot] == slot_count(text32(t), mode, slot, 0, t.len() as int),
    ensures
        ({
            let x = text32(t);
            let r = initialize_buckets_for_lms_suffixes_radix_sort_32s_6k_run(x, k, b, f);
            let below = below_of(x, all_left(x, f));
            &&& r is Some
            &&& r.unwrap().0.len() == b.len()
            &&& r.unwrap().1 == below(k)
            &&& forall|c: int| 0 <= c < k ==> r.unwrap().0[#[trigger] (4 * k + c)] == below(c + 1)
            &&& forall|slot: int| 0 <= slot < 4 * k ==> #[trigger] r.unwrap().0[slot] == later_count(x, f, mode, slot)
        }),
{
    let x = text32(t);
    let n = t.len() as int;
    assert(is_lms(x, f));
    assert forall|i: int| 0 <= i < x.len() implies 0 <= #[trigger] x[i] < k by {
        assert(0 <= t[i] < k);
    }
    assert forall|slot: int| 0 <= slot < 4 * k implies 0 <= #[trigger] b[slot] by {
        lemma_slot_count_split(x, mode, slot, 0, n, n);
    }
    lemma_uncounted(x, f, k, mode, b, -1);
    let u = uncount_run(x, (b, false), -1, f)->0;
    assert forall|slot: int| 0 <= slot < 4 * k implies #[trigger] u.0[slot] == later_count(x, f, mode, slot) by {
        lemma_slot_count_split(x, mode, slot, 0, f + 1, n);
    }
    lemma_radix_slots_6k(x, f, k, mode, u.0, k);
}

/// What the buckets of the symbols below `hi` hold in front of the scans, where `extra` of the
/// leftmost suffixes of type S that start with smaller symbols have not been counted.
spec fn summed_6k(x: Seq<int>, f: int, k: int, left: int, b: Seq<i32>, st: (Seq<i32>, i32, i32, i32), hi: int, extra: int) -> bool {
    let rights = below_of(x, all_right(x, f));
    let lows = below_of(x, every_lms(x));
    let lefts = below_of(x, all_left(x, f));
    &&& st.0.len() == b.len()
    &&& st.1 == left + 1 + rights(hi)
    &&& st.2 == lows(hi) - extra
    &&& st.3 == lefts(hi)
    &&& forall|c: int| 0 <= c < hi ==> st.0[#[trigger] (4 * c)] == left + 1 + rights(c)
    &&& forall|c: int| 0 <= c < hi ==> st.0[#[trigger] (4 * c + 1)] == lefts(c)
    &&& forall|c: int| 0 <= c < hi ==> st.0[#[trigger] (4 * c + 2)] == 0
    &&& forall|c: int| 0 <= c < hi ==> st.0[#[trigger] (4 * c + 3)] == 0
    &&& forall|c: int| 0 <= c < hi ==> st.0[#[trigger] (4 * k + 2 * c)] == left + 1 + rights(c + 1)
    &&& forall|c: int| 0 <= c < hi ==> st.0[#[trigger] (4 * k + 2 * c + 1)] == lows(c + 1)
    &&& forall|j: int| 4 * hi <= j < 4 * k ==> #[trigger] st.0[j] == b[j]
}

/// The buckets of both scans are summed symbol by symbol.
#[verifier::spinoff_prover]
proof fn lemma_partial_step_6k(
    x: Seq<int>,
    f: int,
    k: int,
    mode: LmsMode,
    left: int,
    b: Seq<i32>,
    st: (Seq<i32>, i32, i32, i32),
    i: int,
)
    requires
        x.len() <= i32::MAX,
        first_lms(x, f),
        !mode.compact,
        mode.lanes == 4,
        6 * k <= b.len(),
        forall|j: int| 0 <= j < x.len() ==> 0 <= #[trigger] x[j] < k,
        forall|slot: int| 0 <= slot < 4 * k ==> #[trigger] b[slot] == later_count(x, f, mode, slot),
        0 <= left,
        left + 1 + below_of(x, all_right(x, f))(k) <= i32::MAX,
        0 <= i < k,
        summed_6k(x, f, k, left, b, st, i, -bit(x[f] == i)),
    ensures
        partial_slot_32s_6k_step(k)(st, i) is Some,
        summed_6k(x, f, k, left, b, partial_slot_32s_6k_step(k)(st, i)->0, i + 1, 0),
{
    let rights = below_of(x, all_right(x, f));
    let lows = below_of(x, every_lms(x));
    let lefts = below_of(x, all_left(x, f));
    assert forall|p: int| 0 <= p < x.len() implies 0 <= #[trigger] x[p] by {
        assert(0 <= x[p] < k);
    }
    lemma_count_steps(x, f, mode, i);
    lemma_below_bound(x, all_right(x, f), i);
    lemma_below_bound(x, all_right(x, f), i + 1);
    lemma_below_grows(x, all_right(x, f), i + 1, k);
    lemma_below_bound(x, every_lms(x), i);
    lemma_below_bound(x, every_lms(x), i + 1);
    lemma_below_bound(x, all_left(x, f), i);
    lemma_below_bound(x, all_left(x, f), i + 1);
    let s = st.0;
    assert(s[4 * i] == b[4 * i] && s[4 * i + 1] == b[4 * i + 1] && s[4 * i + 2] == b[4 * i + 2] && s[4 * i + 3] == b[4 * i + 3]);
    assert(b[4 * i] == later_count(x, f, mode, 4 * i));
    assert(b[4 * i + 1] == later_count(x, f, mode, 4 * i + 1));
    assert(b[4 * i + 2] == later_count(x, f, mode, 4 * i + 2));
    assert(b[4 * i + 3] == later_count(x, f, mode, 4 * i + 3));
    let nx = s.update(4 * i, st.1).update(4 * i + 1, st.3).update(4 * i + 2, 0).update(4 * i + 3, 0).update(
        4 * k + 2 * i,
        (left + 1 + rights(i + 1)) as i32,
    ).update(4 * k + 2 * i + 1, lows(i + 1) as i32);
    let r = partial_slot_32s_6k_step(k)(st, i);
    assert(r is Some && r.unwrap().0 == nx);
    assert forall|c: int| 0 <= c < i + 1 implies nx[#[trigger] (4 * c)] == left + 1 + rights(c) by {
        assert(c < i ==> s[4 * c] == left + 1 + rights(c));
    }
    assert forall|c: int| 0 <= c < i + 1 implies nx[#[trigger] (4 * c + 1)] == lefts(c) by {
        assert(c < i ==> s[4 * c + 1] == lefts(c));
    }
    assert forall|c: int| 0 <= c < i + 1 implies nx[#[trigger] (4 * c + 2)] == 0 by {
        assert(c < i ==> s[4 * c + 2] == 0);
    }
    assert forall|c: int| 0 <= c < i + 1 implies nx[#[trigger] (4 * c + 3)] == 0 by {
        assert(c < i ==> s[4 * c + 3] == 0);
    }
    assert forall|c: int| 0 <= c < i + 1 implies nx[#[trigger] (4 * k + 2 * c)] == left + 1 + rights(c + 1) by {
        assert(c < i ==> s[4 * k + 2 * c] == left + 1 + rights(c + 1));
    }
    assert forall|c: int| 0 <= c < i + 1 implies nx[#[trigger] (4 * k + 2 * c + 1)] == lows(c + 1) by {
        assert(c < i ==> s[4 * k + 2 * c + 1] == lows(c + 1));
    }
}

/// The buckets of both scans are summed, from symbol `lo` on.
proof fn lemma_partial_slots_6k(
    x: Seq<int>,
    f: int,
    k: int,
    mode: LmsMode,
    left: int,
    b: Seq<i32>,
    st: (Seq<i32>, i32, i32, i32),
    lo: int,
    hi: int,
)
    requires
        x.len() <= i32::MAX,
        first_lms(x, f),
        !mode.compact,
        mode.lanes == 4,
        6 * k <= b.len(),
        forall|j: int| 0 <= j < x.len() ==> 0 <= #[trigger] x[j] < k,
        forall|slot: int| 0 <= slot < 4 * k ==> #[trigger] b[slot] == later_count(x, f, mode, slot),
        0 <= left,
        left + 1 + below_of(x, all_right(x, f))(k) <= i32::MAX,
        0 <= lo < hi <= k,
        lo == x[f] || hi <= x[f],
        summed_6k(x, f, k, left, b, st, lo, -bit(lo == x[f])),
    ensures
        partial_slot_32s_6k_run(k, st, lo, hi) is Some,
        summed_6k(x, f, k, left, b, partial_slot_32s_6k_run(k, st, lo, hi)->0, hi, 0),
    decreases hi - lo,
{
    if lo + 1 < hi {
        lemma_partial_slots_6k(x, f, k, mode, left, b, st, lo, hi - 1);
        let s = partial_slot_32s_6k_run(k, st, lo, hi - 1)->0;
        lemma_partial_step_6k(x, f, k, mode, left, b, s, hi - 1);
    } else {
        assert(partial_slot_32s_6k_run(k, st, lo, lo) == Some(st));
        lemma_partial_step_6k(x, f, k, mode, left, b, st, lo);
        assert(partial_slot_32s_6k_run(k, st, lo, hi) == partial_slot_32s_6k_step(k)(st, lo));
    }
}

/// The buckets in front of the scans over the substrings.
pub proof fn lemma_partial_buckets_6k(t: Seq<i32>, f: int, k: int, mode: LmsMode, b: Seq<i32>, left: int)
    requires
        t.len() <= i32::MAX,
        symbols_below(t, k),
        1 <= k,
        first_lms(text32(t), f),
        !mode.compact,
        mode.lanes == 4,
        6 * k <= b.len(),
        forall|slot: int| 0 <= slot < 4 * k ==> #[trigger] b[slot] == later_count(text32(t), f, mode, slot),
        left == below_of(text32(t), all_left(text32(t), f))(k),
        left + 1 + below_of(text32(t), all_right(text32(t), f))(k) <= t.len(),
    ensures
        ({
            let x = text32(t);
            let r = initialize_buckets_for_partial_sorting_32s_6k_run(t, k, b, f, left);
            let rights = below_of(x, all_right(x, f));
            let lows = below_of(x, every_lms(x));
            let lefts = below_of(x, all_left(x, f));
            &&& r is Some
            &&& r.unwrap().0.len() == b.len()
            &&& forall|c: int| 0 <= c < k ==> r.unwrap().0[#[trigger] (4 * c)] == left + 1 + rights(c)
            &&& forall|c: int| 0 <= c < k ==> r.unwrap().0[#[trigger] (4 * c + 1)] == lefts(c)
            &&& forall|c: int| 0 <= c < k ==> r.unwrap().0[#[trigger] (4 * c + 2)] == 0
            &&& forall|c: int| 0 <= c < k ==> r.unwrap().0[#[trigger] (4 * c + 3)] == 0
            &&& forall|c: int| 0 <= c < k ==> r.unwrap().0[#[trigger] (4 * k + 2 * c)] == left + 1 + rights(c + 1)
            &&& forall|c: int| 0 <= c < k ==> r.unwrap().0[#[trigger] (4 * k + 2 * c + 1)] == lows(c + 1)
        }),
{
    let x = text32(t);
    assert(is_lms(x, f));
    assert forall|i: int| 0 <= i < x.len() implies 0 <= #[trigger] x[i] < k by {
        assert(0 <= t[i] < k);
    }
    assert forall|p: int| 0 <= p < x.len() implies 0 <= #[trigger] x[p] by {
        assert(0 <= x[p] < k);
    }
    let c = x[f];
    assert(0 <= t[f] < k);
    lemma_below_bound(x, all_left(x, f), k);
    lemma_below_bound(x, all_right(x, f), k);
    lemma_below_zero(x, all_right(x, f), 0);
    lemma_below_zero(x, every_lms(x), 0);
    lemma_below_zero(x, all_left(x, f), 0);
    let s0: (Seq<i32>, i32, i32, i32) = (b, (left + 1) as i32, 0, 0);
    if c > 0 {
        lemma_partial_slots_6k(x, f, k, mode, left, b, s0, 0, c);
    }
    let s1 = partial_slot_32s_6k_run(k, s0, 0, c)->0;
    assert(summed_6k(x, f, k, left, b, s1, c, 0));
    lemma_below_bound(x, every_lms(x), c);
    let s2 = (s1.0, s1.1, (s1.2 + 1) as i32, s1.3);
    assert(s1.2 + 1 <= i32::MAX) by {
        lemma_count_steps(x, f, mode, c);
        lemma_below_bound(x, every_lms(x), c + 1);
        lemma_slot_count_split(x, mode, 4 * c + 1, f + 1, x.len() as int, x.len() as int);
    }
    lemma_partial_slots_6k(x, f, k, mode, left, b, s2, c, k);
}

} // verus!
