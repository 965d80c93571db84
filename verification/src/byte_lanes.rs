//! The buckets of a byte text for the scans over its substrings: how many suffixes there are of
//! each symbol and each pair of types.

use vstd::prelude::*;
use crate::buckets::{
    initialize_buckets_for_lms_suffixes_radix_sort_8u_run, initialize_buckets_for_partial_sorting_8u_run,
    partial_slot_8u_run, partial_slot_8u_step, radix_slot_8u_run, radix_slot_8u_step, uncount_run, uncount_step,
};
use crate::gather::{lms_slot, text8, LmsMode};
use crate::kinds::{is_l, is_lms, law_type_step, slot_count};
use crate::lanes::{in_left, in_right};
use crate::lengths::tally;
use crate::listing::{lemma_below_bound, lemma_below_zero};
use crate::marks::bit;
use crate::partial_induction::first_lms;
use crate::recount::{below_of, every_lms, lemma_below_step, with_symbol};

verus! {

/// The suffixes that the scan to the right visits.
pub open spec fn all_left(x: Seq<int>, f: int) -> spec_fn(int) -> bool {
    |v: int| in_left(x, f, v)
}

/// The suffixes that the scan to the left visits.
pub open spec fn all_right(x: Seq<int>, f: int) -> spec_fn(int) -> bool {
    |v: int| in_right(x, f, v)
}

/// Counts of two ranges add up.
pub proof fn lemma_slot_count_split(x: Seq<int>, mode: LmsMode, slot: int, lo: int, mid: int, hi: int)
    requires
        lo <= mid <= hi,
    ensures
        slot_count(x, mode, slot, lo, hi) == slot_count(x, mode, slot, lo, mid) + slot_count(x, mode, slot, mid, hi),
        0 <= slot_count(x, mode, slot, lo, mid) <= mid - lo,
    decreases mid - lo,
{
    if lo < mid {
        lemma_slot_count_split(x, mode, slot, lo + 1, mid, hi);
    } else {
        assert(slot_count(x, mode, slot, lo, mid) == 0);
    }
}

/// The counters of a symbol, by where its suffixes are visited.
proof fn lemma_lane_counts(x: Seq<int>, f: int, mode: LmsMode, c: int, lo: int)
    requires
        first_lms(x, f),
        !mode.compact,
        mode.lanes == 4,
        f < lo <= x.len(),
    ensures
        ({
            let n = x.len() as int;
            &&& tally(with_symbol(x, all_left(x, f), c), lo, n) == slot_count(x, mode, 4 * c + 1, lo, n) + slot_count(
                x,
                mode,
                4 * c + 3,
                lo,
                n,
            )
            &&& tally(with_symbol(x, all_right(x, f), c), lo, n) == slot_count(x, mode, 4 * c, lo, n) + slot_count(
                x,
                mode,
                4 * c + 2,
                lo,
                n,
            )
            &&& tally(with_symbol(x, every_lms(x), c), lo, n) == slot_count(x, mode, 4 * c + 1, lo, n)
        }),
    decreases x.len() - lo,
{
    if lo < x.len() {
        lemma_lane_counts(x, f, mode, c, lo + 1);
        assert(lms_slot(x[lo], is_l(x, lo), is_l(x, lo - 1), mode) == 4 * x[lo] + 2 * bit(is_l(x, lo)) + bit(is_l(x, lo - 1)));
    }
}

/// Nothing is selected up to the first leftmost suffix of type S but that one.
proof fn lemma_front_counts(x: Seq<int>, f: int, c: int, lo: int)
    requires
        first_lms(x, f),
        0 <= lo <= f + 1,
    ensures
        ({
            let n = x.len() as int;
            &&& tally(with_symbol(x, all_left(x, f), c), lo, n) == tally(with_symbol(x, all_left(x, f), c), f + 1, n)
            &&& tally(with_symbol(x, all_right(x, f), c), lo, n) == tally(with_symbol(x, all_right(x, f), c), f + 1, n)
            &&& tally(with_symbol(x, every_lms(x), c), lo, n) == tally(with_symbol(x, every_lms(x), c), f + 1, n) + bit(
                lo <= f && x[f] == c,
            )
        }),
    decreases f + 1 - lo,
{
    assert(is_lms(x, f));
    if lo <= f {
        lemma_front_counts(x, f, c, lo + 1);
        assert(lo < f ==> !is_lms(x, lo));
    }
}

/// How many suffixes behind the first leftmost one of type S have a counter.
pub open spec fn later_count(x: Seq<int>, f: int, mode: LmsMode, slot: int) -> int {
    slot_count(x, mode, slot, f + 1, x.len() as int)
}

/// The steps of the counts below, from the counters.
pub proof fn lemma_count_steps(x: Seq<int>, f: int, mode: LmsMode, c: int)
    requires
        first_lms(x, f),
        !mode.compact,
        mode.lanes == 4,
    ensures
        below_of(x, all_left(x, f))(c + 1) - below_of(x, all_left(x, f))(c) == later_count(x, f, mode, 4 * c + 1) + later_count(
            x,
            f,
            mode,
            4 * c + 3,
        ),
        below_of(x, all_right(x, f))(c + 1) - below_of(x, all_right(x, f))(c) == later_count(x, f, mode, 4 * c) + later_count(
            x,
            f,
            mode,
            4 * c + 2,
        ),
        below_of(x, every_lms(x))(c + 1) - below_of(x, every_lms(x))(c) == later_count(x, f, mode, 4 * c + 1) + bit(x[f] == c),
{
    assert(is_lms(x, f));
    lemma_below_step(x, all_left(x, f), c, 0);
    lemma_below_step(x, all_right(x, f), c, 0);
    lemma_below_step(x, every_lms(x), c, 0);
    lemma_front_counts(x, f, c, 0);
    lemma_lane_counts(x, f, mode, c, f + 1);
}

/// Taking the first suffixes out of the counters.
pub proof fn lemma_uncounted(x: Seq<int>, f: int, k: int, mode: LmsMode, b: Seq<i32>, lo: int)
    requires
        x.len() <= i32::MAX,
        first_lms(x, f),
        !mode.compact,
        mode.lanes == 4,
        4 * k <= b.len(),
        forall|i: int| 0 <= i < x.len() ==> 0 <= #[trigger] x[i] < k,
        forall|slot: int| 0 <= slot < 4 * k ==> 0 <= #[trigger] b[slot],
        -1 <= lo <= f,
    ensures
        ({
            let r = uncount_run(x, (b, false), lo, f);
            &&& r is Some
            &&& r.unwrap().1 == (lo >= 0 && is_l(x, lo))
            &&& r.unwrap().0.len() == b.len()
            &&& forall|slot: int| 0 <= slot < 4 * k ==> #[trigger] r.unwrap().0[slot] == b[slot] - slot_count(x, mode, slot, lo + 1, f + 1)
            &&& forall|j: int| 4 * k <= j < b.len() ==> #[trigger] r.unwrap().0[j] == b[j]
        }),
    decreases f - lo,
{
    assert(is_lms(x, f));
    if lo < f {
        lemma_uncounted(x, f, k, mode, b, lo + 1);
        let st = uncount_run(x, (b, false), lo + 1, f)->0;
        assert(0 <= x[lo + 1] < k);
        if lo >= 0 {
            law_type_step(x, lo);
            assert(0 <= x[lo] < k);
        }
        let g = lo >= 0 && is_l(x, lo);
        let slot = 4 * x[lo + 1] + 2 * bit(is_l(x, lo + 1)) + bit(g);
        assert(slot == lms_slot(x[lo + 1], is_l(x, lo + 1), g, mode));
        lemma_slot_count_split(x, mode, slot, lo + 2, f + 1, f + 1);
        assert(st.0[slot] == b[slot] - slot_count(x, mode, slot, lo + 2, f + 1));
        let nx = (st.0.update(slot, (st.0[slot] - 1) as i32), g);
        assert(uncount_step(x)(st, lo) == Some(nx));
        assert(uncount_run(x, (b, false), lo, f) == Some(nx));
        assert forall|s: int| 0 <= s < 4 * k implies #[trigger] nx.0[s] == b[s] - slot_count(x, mode, s, lo + 1, f + 1) by {
            assert(st.0[s] == b[s] - slot_count(x, mode, s, lo + 2, f + 1));
        }
    } else {
        assert forall|slot: int| 0 <= slot < 4 * k implies #[trigger] b[slot] == b[slot] - slot_count(x, mode, slot, lo + 1, f + 1) by {}
    }
}

/// The bounds of the buckets that the scan to the right visits are summed symbol by symbol.
proof fn lemma_radix_slots(x: Seq<int>, f: int, mode: LmsMode, b: Seq<i32>, hi: int)
    requires
        x.len() <= i32::MAX,
        first_lms(x, f),
        !mode.compact,
        mode.lanes == 4,
        2048 <= b.len(),
        forall|i: int| 0 <= i < x.len() ==> 0 <= #[trigger] x[i] < 256,
        forall|slot: int| 0 <= slot < 1024 ==> #[trigger] b[slot] == later_count(x, f, mode, slot),
        0 <= hi <= 256,
    ensures
        ({
            let r = radix_slot_8u_run((b, 0), 0, hi);
            let below = below_of(x, all_left(x, f));
            &&& r is Some
            &&& r.unwrap().0.len() == b.len()
            &&& r.unwrap().1 == below(hi)
            &&& forall|c: int| 0 <= c < hi ==> r.unwrap().0[#[trigger] (1024 + 2 * c)] == below(c + 1)
            &&& forall|c: int| 0 <= c < hi ==> r.unwrap().0[#[trigger] (1024 + 2 * c + 1)] == below(c)
            &&& forall|j: int| 0 <= j < 1024 || 1536 <= j < b.len() ==> #[trigger] r.unwrap().0[j] == b[j]
        }),
    decreases hi,
{
    let below = below_of(x, all_left(x, f));
    assert forall|p: int| 0 <= p < x.len() implies 0 <= #[trigger] x[p] by {
        assert(0 <= x[p] < 256);
    }
    if hi > 0 {
        let i = hi - 1;
        lemma_radix_slots(x, f, mode, b, i);
        let st = radix_slot_8u_run((b, 0), 0, i)->0;
        lemma_count_steps(x, f, mode, i);
        lemma_below_bound(x, all_left(x, f), i);
        lemma_below_bound(x, all_left(x, f), hi);
        let b1 = st.0.update(1024 + 2 * i + 1, st.1);
        assert(b1[4 * i + 1] == b[4 * i + 1] && b1[4 * i + 3] == b[4 * i + 3]);
        let nx = (b1.update(1024 + 2 * i, below(hi) as i32), below(hi) as i32);
        assert(radix_slot_8u_run((b, 0), 0, hi) == radix_slot_8u_step()(st, i));
        assert(radix_slot_8u_step()(st, i) == Some(nx));
        assert forall|c: int| 0 <= c < hi implies nx.0[#[trigger] (1024 + 2 * c)] == below(c + 1) by {
            assert(c < i ==> st.0[1024 + 2 * c] == below(c + 1));
        }
        assert forall|c: int| 0 <= c < hi implies nx.0[#[trigger] (1024 + 2 * c + 1)] == below(c) by {
            assert(c < i ==> st.0[1024 + 2 * c + 1] == below(c));
        }
    } else {
        lemma_below_zero(x, all_left(x, f), 0);
    }
}

/// The buckets in front of the sorting by first symbols: the counters of the suffixes behind the
/// first leftmost one of type S, and the bounds of the buckets that the scan to the right visits.
pub proof fn lemma_radix_buckets(t: Seq<u8>, f: int, mode: LmsMode, b: Seq<i32>)
    requires
        t.len() <= i32::MAX,
        first_lms(text8(t), f),
        !mode.compact,
        mode.lanes == 4,
        2048 <= b.len(),
        forall|slot: int| 0 <= slot < 1024 ==> #[trigger] b[slot] == slot_count(text8(t), mode, slot, 0, t.len() as int),
    ensures
        ({
            let x = text8(t);
            let r = initialize_buckets_for_lms_suffixes_radix_sort_8u_run(x, b, f);
            let below = below_of(x, all_left(x, f));
            &&& r is Some
            &&& r.unwrap().0.len() == b.len()
            &&& r.unwrap().1 == below(256)
            &&& forall|c: int| 0 <= c < 256 ==> r.unwrap().0[#[trigger] (1024 + 2 * c)] == below(c + 1)
            &&& forall|c: int| 0 <= c < 256 ==> r.unwrap().0[#[trigger] (1024 + 2 * c + 1)] == below(c)
            &&& forall|slot: int| 0 <= slot < 1024 ==> #[trigger] r.unwrap().0[slot] == later_count(x, f, mode, slot)
            &&& forall|j: int| 1536 <= j < b.len() ==> #[trigger] r.unwrap().0[j] == b[j]
        }),
{
    let x = text8(t);
    let n = t.len() as int;
    assert(is_lms(x, f));
    assert forall|i: int| 0 <= i < x.len() implies 0 <= #[trigger] x[i] < 256 by {}
    assert forall|slot: int| 0 <= slot < 1024 implies 0 <= #[trigger] b[slot] by {
        lemma_slot_count_split(x, mode, slot, 0, n, n);
    }
    lemma_uncounted(x, f, 256, mode, b, -1);
    let u = uncount_run(x, (b, false), -1, f)->0;
    assert forall|slot: int| 0 <= slot < 1024 implies #[trigger] u.0[slot] == later_count(x, f, mode, slot) by {
        lemma_slot_count_split(x, mode, slot, 0, f + 1, n);
    }
    lemma_radix_slots(x, f, mode, u.0, 256);
}

/// The buckets of both scans are summed symbol by symbol.
proof fn lemma_partial_slots(x: Seq<int>, f: int, mode: LmsMode, b: Seq<i32>, left: int, hi: int)
    requires
        x.len() <= i32::MAX,
        first_lms(x, f),
        !mode.compact,
        mode.lanes == 4,
        2048 <= b.len(),
        forall|i: int| 0 <= i < x.len() ==> 0 <= #[trigger] x[i] < 256,
        forall|slot: int| 0 <= slot < 1024 ==> #[trigger] b[slot] == later_count(x, f, mode, slot) + bit(slot == 4 * x[f] + 1),
        0 <= left,
        left + 1 + below_of(x, all_right(x, f))(256) <= i32::MAX,
        0 <= hi <= 256,
    ensures
        ({
            let r = partial_slot_8u_run((b, (left + 1) as i32, 0), 0, hi);
            let rights = below_of(x, all_right(x, f));
            let lows = below_of(x, every_lms(x));
            &&& r is Some
            &&& r.unwrap().0.len() == b.len()
            &&& r.unwrap().1 == left + 1 + rights(hi)
            &&& r.unwrap().2 == lows(hi)
            &&& forall|c: int| 0 <= c < hi ==> r.unwrap().0[#[trigger] (1024 + 2 * c)] == left + 1 + rights(c)
            &&& forall|c: int| 0 <= c < hi ==> r.unwrap().0[#[trigger] (2 * c)] == left + 1 + rights(c + 1)
            &&& forall|c: int| 0 <= c < hi ==> r.unwrap().0[#[trigger] (2 * c + 1)] == lows(c + 1)
            &&& forall|c: int| 0 <= c < 256 ==> r.unwrap().0[#[trigger] (1024 + 2 * c + 1)] == b[1024 + 2 * c + 1]
            &&& forall|j: int| 2 * hi <= j < 1024 || 1536 <= j < b.len() ==> #[trigger] r.unwrap().0[j] == b[j]
        }),
    decreases hi,
{
    let rights = below_of(x, all_right(x, f));
    let lows = below_of(x, every_lms(x));
    assert forall|p: int| 0 <= p < x.len() implies 0 <= #[trigger] x[p] by {
        assert(0 <= x[p] < 256);
    }
    if hi > 0 {
        let i = hi - 1;
        lemma_partial_slots(x, f, mode, b, left, i);
        let st = partial_slot_8u_run((b, (left + 1) as i32, 0), 0, i)->0;
        lemma_count_steps(x, f, mode, i);
        lemma_below_bound(x, all_right(x, f), i);
        lemma_below_bound(x, all_right(x, f), hi);
        crate::listing::lemma_below_grows(x, all_right(x, f), hi, 256);
        lemma_below_bound(x, every_lms(x), i);
        lemma_below_bound(x, every_lms(x), hi);
        let b1 = st.0.update(1024 + 2 * i, st.1);
        assert(b1[4 * i] == b[4 * i] && b1[4 * i + 1] == b[4 * i + 1] && b1[4 * i + 2] == b[4 * i + 2]);
        assert(4 * i != 4 * x[f] + 1 && 4 * i + 2 != 4 * x[f] + 1);
        assert((4 * i + 1 == 4 * x[f] + 1) == (x[f] == i));
        let nx = (
            b1.update(2 * i, (left + 1 + rights(hi)) as i32).update(2 * i + 1, lows(hi) as i32),
            (left + 1 + rights(hi)) as i32,
            lows(hi) as i32,
        );
        assert(partial_slot_8u_run((b, (left + 1) as i32, 0), 0, hi) == partial_slot_8u_step()(st, i));
        assert(partial_slot_8u_step()(st, i) == Some(nx));
        assert forall|c: int| 0 <= c < hi implies nx.0[#[trigger] (1024 + 2 * c)] == left + 1 + rights(c) by {
            assert(c < i ==> st.0[1024 + 2 * c] == left + 1 + rights(c));
        }
        assert forall|c: int| 0 <= c < hi implies nx.0[#[trigger] (2 * c)] == left + 1 + rights(c + 1) by {
            assert(c < i ==> st.0[2 * c] == left + 1 + rights(c + 1));
        }
        assert forall|c: int| 0 <= c < hi implies nx.0[#[trigger] (2 * c + 1)] == lows(c + 1) by {
            assert(c < i ==> st.0[2 * c + 1] == lows(c + 1));
        }
        assert forall|c: int| 0 <= c < 256 implies nx.0[#[trigger] (1024 + 2 * c + 1)] == b[1024 + 2 * c + 1] by {
            assert(st.0[1024 + 2 * c + 1] == b[1024 + 2 * c + 1]);
        }
    } else {
        lemma_below_zero(x, all_right(x, f), 0);
        lemma_below_zero(x, every_lms(x), 0);
        lemma_below_bound(x, all_right(x, f), 256);
    }
}

/// The buckets in front of the scans over the substrings.
pub proof fn lemma_partial_buckets(t: Seq<u8>, f: int, mode: LmsMode, b: Seq<i32>, left: int)
    requires
        t.len() <= i32::MAX,
        first_lms(text8(t), f),
        !mode.compact,
        mode.lanes == 4,
        2048 <= b.len(),
        forall|slot: int| 0 <= slot < 1024 ==> #[trigger] b[slot] == later_count(text8(t), f, mode, slot),
        left == below_of(text8(t), all_left(text8(t), f))(256),
        left + 1 + below_of(text8(t), all_right(text8(t), f))(256) <= t.len(),
    ensures
        ({
            let x = text8(t);
            let r = initialize_buckets_for_partial_sorting_8u_run(t, b, f, left);
            let rights = below_of(x, all_right(x, f));
            let lows = below_of(x, every_lms(x));
            &&& r is Some
            &&& r.unwrap().0.len() == b.len()
            &&& forall|c: int| 0 <= c < 256 ==> r.unwrap().0[#[trigger] (1024 + 2 * c)] == left + 1 + rights(c)
            &&& forall|c: int| 0 <= c < 256 ==> r.unwrap().0[#[trigger] (1024 + 2 * c + 1)] == b[1024 + 2 * c + 1]
            &&& forall|c: int| 0 <= c < 256 ==> r.unwrap().0[#[trigger] (2 * c)] == left + 1 + rights(c + 1)
            &&& forall|c: int| 0 <= c < 256 ==> r.unwrap().0[#[trigger] (2 * c + 1)] == lows(c + 1)
            &&& forall|j: int| 1536 <= j < b.len() ==> #[trigger] r.unwrap().0[j] == b[j]
        }),
{
    let x = text8(t);
    let n = t.len() as int;
    assert(is_lms(x, f));
    assert forall|i: int| 0 <= i < x.len() implies 0 <= #[trigger] x[i] < 256 by {}
    let v = 4 * t[f] + 1;
    lemma_slot_count_split(x, mode, v, f + 1, n, n);
    assert(b[v] == later_count(x, f, mode, v));
    lemma_below_bound(x, all_left(x, f), 256);
    lemma_below_bound(x, all_right(x, f), 256);
    let b1 = b.update(v, (b[v] + 1) as i32);
    assert forall|slot: int| 0 <= slot < 1024 implies #[trigger] b1[slot] == later_count(x, f, mode, slot) + bit(
        slot == 4 * x[f] + 1,
    ) by {
        assert(b[slot] == later_count(x, f, mode, slot));
    }
    lemma_partial_slots(x, f, mode, b1, left, 256);
}

} // verus!
