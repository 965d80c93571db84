//! Symbol counts and bucket bounds in closed form.

use vstd::prelude::*;
use crate::buckets::{
    count_suffixes_32s_run, count_symbol_run, initialize_buckets_end_32s_1k_run,
    initialize_buckets_end_32s_1k_slot_run, initialize_buckets_end_32s_2k_run, initialize_buckets_end_32s_2k_slot_run,
    initialize_buckets_start_32s_1k_run, initialize_buckets_start_32s_1k_slot_run,
    initialize_buckets_start_and_end_32s_4k_run, initialize_buckets_start_and_end_32s_4k_slot_run,
    initialize_buckets_start_and_end_32s_6k_run, initialize_buckets_start_and_end_32s_6k_slot_run,
    initialize_buckets_start_and_end_8u_run, initialize_buckets_start_and_end_8u_slot_run, lane_sum, packed_bounds,
};
use crate::gather::{cleared, text32, text8, LmsMode};
use crate::induce::final_left_32s;
use crate::induction::{
    bucket_ends, bucket_starts, law_final_scans_sort, lemma_left_scan, lms_in_place, prepared, symbols_below,
};
use crate::induction_8u::{lemma_wide, wide};
use crate::kinds::{counter_total, slot_count};
use crate::marks::bit;
use crate::order::{is_suffix_array, law_suffix_array_complete, lemma_suffix_array_distinct, suffix_less};
use crate::orders::{bucket_ends_1k, bucket_starts_1k, final_order_32s_1k, final_order_32s_2k, final_order_32s_4k, final_order_32s_6k};
use crate::types::ALPHABET_SIZE;

verus! {

/// How often symbol `c` occurs among the first `n` of `t`.
pub open spec fn symbol_count(t: Seq<i32>, c: int, n: int) -> int
    decreases n,
{
    if n <= 0 {
        0
    } else {
        symbol_count(t, c, n - 1) + bit(t[n - 1] == c)
    }
}

/// A symbol occurs no more often than there are symbols.
proof fn lemma_symbol_count_bound(t: Seq<i32>, c: int, n: int)
    requires
        0 <= n,
    ensures
        0 <= symbol_count(t, c, n) <= n,
    decreases n,
{
    if n > 0 {
        lemma_symbol_count_bound(t, c, n - 1);
    }
}

/// Counting adds how often each symbol occurs.
pub proof fn lemma_counted_symbols(t: Seq<i32>, b: Seq<i32>, n: int)
    requires
        0 <= n,
        count_symbol_run(t, b, 0, n) is Some,
    ensures
        ({
            let x = count_symbol_run(t, b, 0, n)->0;
            &&& x.len() == b.len()
            &&& forall|c: int| 0 <= c < b.len() ==> #[trigger] x[c] == b[c] + symbol_count(t, c, n)
        }),
    decreases n,
{
    if n > 0 {
        lemma_counted_symbols(t, b, n - 1);
    }
}

/// The first `k` slots count how often each symbol occurs; where all symbols are below `k`,
/// nothing else changes.
pub proof fn law_counted_symbols(t: Seq<i32>, n: int, k: int, b: Seq<i32>)
    requires
        0 <= n <= t.len(),
        n <= i32::MAX,
        0 <= k <= b.len(),
        forall|i: int| 0 <= i < n ==> 0 <= #[trigger] t[i] < k,
    ensures
        count_suffixes_32s_run(t, n, k, b) is Some,
        ({
            let x = count_suffixes_32s_run(t, n, k, b)->0;
            &&& x.len() == b.len()
            &&& forall|c: int| 0 <= c < k ==> #[trigger] x[c] == symbol_count(t, c, n)
            &&& forall|c: int| k <= c < b.len() ==> #[trigger] x[c] == b[c]
        }),
{
    let z = cleared(b, 0, k);
    lemma_counting_defined(t, z, n, k);
    lemma_counted_symbols(t, z, n);
    assert forall|c: int| k <= c < b.len() implies symbol_count(t, c, n) == 0 by {
        lemma_absent_symbol(t, c, n, k);
    }
}

/// Counting is defined where the counters of all symbols start at zero.
proof fn lemma_counting_defined(t: Seq<i32>, z: Seq<i32>, n: int, k: int)
    requires
        0 <= n <= t.len(),
        n <= i32::MAX,
        0 <= k <= z.len(),
        forall|i: int| 0 <= i < n ==> 0 <= #[trigger] t[i] < k,
        forall|c: int| 0 <= c < k ==> #[trigger] z[c] == 0,
    ensures
        count_symbol_run(t, z, 0, n) is Some,
    decreases n,
{
    if n > 0 {
        lemma_counting_defined(t, z, n - 1, k);
        lemma_counted_symbols(t, z, n - 1);
        let c = t[n - 1] as int;
        lemma_symbol_count_bound(t, c, n - 1);
        let y = count_symbol_run(t, z, 0, n - 1)->0;
        assert(y[c] == z[c] + symbol_count(t, c, n - 1));
        assert(z[c] == 0);
    }
}

/// A symbol from `k` on does not occur where all symbols are below `k`.
proof fn lemma_absent_symbol(t: Seq<i32>, c: int, n: int, k: int)
    requires
        0 <= n <= t.len(),
        forall|i: int| 0 <= i < n ==> 0 <= #[trigger] t[i] < k,
        k <= c,
    ensures
        symbol_count(t, c, n) == 0,
    decreases n,
{
    if n > 0 {
        lemma_absent_symbol(t, c, n - 1, k);
        assert(t[n - 1] < k);
    }
}

/// The sum of counters that are not negative grows.
proof fn lemma_counter_total_grows(b: Seq<i32>, lo: int, hi: int)
    requires
        0 <= lo <= hi <= b.len(),
        forall|i: int| 0 <= i < hi ==> 0 <= #[trigger] b[i],
    ensures
        0 <= counter_total(b, lo) <= counter_total(b, hi),
    decreases hi,
{
    if lo < hi {
        lemma_counter_total_grows(b, lo, hi - 1);
    } else if hi > 0 {
        lemma_counter_total_grows(b, hi - 1, hi - 1);
    }
}

/// Sums of counters depend on those counters only.
proof fn lemma_counter_total_same(a: Seq<i32>, b: Seq<i32>, hi: int)
    requires
        forall|i: int| 0 <= i < hi ==> #[trigger] a[i] == b[i],
    ensures
        counter_total(a, hi) == counter_total(b, hi),
    decreases hi,
{
    if hi > 0 {
        lemma_counter_total_same(a, b, hi - 1);
    }
}

/// A sum of lanes is a difference of sums.
proof fn lemma_lane_sum(b: Seq<i32>, at: int, lanes: nat)
    requires
        0 <= at,
        lane_sum(b, at, lanes) is Some,
    ensures
        lane_sum(b, at, lanes)->0 == counter_total(b, at + lanes) - counter_total(b, at),
    decreases lanes,
{
    if lanes > 0 {
        lemma_lane_sum(b, at, (lanes - 1) as nat);
    }
}

/// Lanes that are not negative sum up where their sum fits.
proof fn lemma_lane_sum_defined(b: Seq<i32>, at: int, lanes: nat)
    requires
        0 <= at,
        at + lanes <= b.len(),
        forall|i: int| 0 <= i < at + lanes ==> 0 <= #[trigger] b[i],
        counter_total(b, at + lanes) - counter_total(b, at) <= i32::MAX,
    ensures
        lane_sum(b, at, lanes) is Some,
    decreases lanes,
{
    if lanes > 0 {
        lemma_counter_total_grows(b, at + lanes - 1, at + lanes);
        lemma_lane_sum_defined(b, at, (lanes - 1) as nat);
        lemma_lane_sum(b, at, (lanes - 1) as nat);
        lemma_counter_total_grows(b, at, at + lanes - 1);
    }
}

/// Each counter becomes the first slot of its bucket: the sum of the counters before it.
pub proof fn lemma_bucket_starts_1k(k: int, b: Seq<i32>, hi: int)
    requires
        0 <= hi <= k,
        hi <= b.len(),
        initialize_buckets_start_32s_1k_slot_run(k, (b, 0), 0, hi) is Some,
    ensures
        ({
            let x = initialize_buckets_start_32s_1k_slot_run(k, (b, 0), 0, hi)->0;
            &&& x.0.len() == b.len()
            &&& x.1 == counter_total(b, hi)
            &&& forall|j: int| 0 <= j < hi ==> #[trigger] x.0[j] == counter_total(b, j)
            &&& forall|j: int| hi <= j < b.len() ==> #[trigger] x.0[j] == b[j]
        }),
    decreases hi,
{
    if hi > 0 {
        lemma_bucket_starts_1k(k, b, hi - 1);
    }
}

/// Where the counters of all `k` symbols are not negative and their sum fits, the first slots of
/// their buckets are set.
pub proof fn law_bucket_starts_1k(k: int, b: Seq<i32>)
    requires
        0 <= k <= b.len(),
        forall|i: int| 0 <= i < k ==> 0 <= #[trigger] b[i],
        counter_total(b, k) <= i32::MAX,
    ensures
        initialize_buckets_start_32s_1k_run(k, b) is Some,
        ({
            let x = initialize_buckets_start_32s_1k_run(k, b)->0;
            &&& x.0.len() == b.len()
            &&& forall|j: int| 0 <= j < k ==> #[trigger] x.0[j] == counter_total(b, j)
            &&& forall|j: int| k <= j < b.len() ==> #[trigger] x.0[j] == b[j]
        }),
{
    lemma_bucket_starts_1k_defined(k, b, k);
    lemma_bucket_starts_1k(k, b, k);
}

/// The running sums fit where the whole sum does.
proof fn lemma_bucket_starts_1k_defined(k: int, b: Seq<i32>, hi: int)
    requires
        0 <= hi <= k <= b.len(),
        forall|i: int| 0 <= i < k ==> 0 <= #[trigger] b[i],
        counter_total(b, k) <= i32::MAX,
    ensures
        initialize_buckets_start_32s_1k_slot_run(k, (b, 0), 0, hi) is Some,
    decreases hi,
{
    if hi > 0 {
        lemma_bucket_starts_1k_defined(k, b, hi - 1);
        lemma_bucket_starts_1k(k, b, hi - 1);
        lemma_counter_total_grows(b, hi, k);
        lemma_counter_total_grows(b, hi - 1, hi);
    }
}

/// Each counter becomes the end of its bucket: the sum of the counters up to it.
pub proof fn lemma_bucket_ends_1k(k: int, b: Seq<i32>, hi: int)
    requires
        0 <= hi <= k,
        hi <= b.len(),
        initialize_buckets_end_32s_1k_slot_run(k, (b, 0), 0, hi) is Some,
    ensures
        ({
            let x = initialize_buckets_end_32s_1k_slot_run(k, (b, 0), 0, hi)->0;
            &&& x.0.len() == b.len()
            &&& x.1 == counter_total(b, hi)
            &&& forall|j: int| 0 <= j < hi ==> #[trigger] x.0[j] == counter_total(b, j + 1)
            &&& forall|j: int| hi <= j < b.len() ==> #[trigger] x.0[j] == b[j]
        }),
    decreases hi,
{
    if hi > 0 {
        lemma_bucket_ends_1k(k, b, hi - 1);
    }
}

/// Where the counters of all `k` symbols are not negative and their sum fits, the ends of
/// their buckets are set.
pub proof fn law_bucket_ends_1k(k: int, b: Seq<i32>)
    requires
        0 <= k <= b.len(),
        forall|i: int| 0 <= i < k ==> 0 <= #[trigger] b[i],
        counter_total(b, k) <= i32::MAX,
    ensures
        initialize_buckets_end_32s_1k_run(k, b) is Some,
        ({
            let x = initialize_buckets_end_32s_1k_run(k, b)->0;
            &&& x.0.len() == b.len()
            &&& forall|j: int| 0 <= j < k ==> #[trigger] x.0[j] == counter_total(b, j + 1)
            &&& forall|j: int| k <= j < b.len() ==> #[trigger] x.0[j] == b[j]
        }),
{
    lemma_bucket_ends_1k_defined(k, b, k);
    lemma_bucket_ends_1k(k, b, k);
}

/// The running sums fit where the whole sum does.
proof fn lemma_bucket_ends_1k_defined(k: int, b: Seq<i32>, hi: int)
    requires
        0 <= hi <= k <= b.len(),
        forall|i: int| 0 <= i < k ==> 0 <= #[trigger] b[i],
        counter_total(b, k) <= i32::MAX,
    ensures
        initialize_buckets_end_32s_1k_slot_run(k, (b, 0), 0, hi) is Some,
    decreases hi,
{
    if hi > 0 {
        lemma_bucket_ends_1k_defined(k, b, hi - 1);
        lemma_bucket_ends_1k(k, b, hi - 1);
        lemma_counter_total_grows(b, hi, k);
        lemma_counter_total_grows(b, hi - 1, hi);
    }
}

/// The first counter of each symbol becomes the end of its bucket: the sum of all counters
/// up to its own.
pub proof fn lemma_bucket_ends_2k(k: int, b: Seq<i32>, hi: int)
    requires
        0 <= hi <= k,
        initialize_buckets_end_32s_2k_slot_run(k, (b, 0), 0, hi) is Some,
    ensures
        ({
            let x = initialize_buckets_end_32s_2k_slot_run(k, (b, 0), 0, hi)->0;
            &&& x.0.len() == b.len()
            &&& 2 * hi <= b.len()
            &&& x.1 == counter_total(b, 2 * hi)
            &&& forall|j: int| 0 <= j < hi ==> x.0[#[trigger] (2 * j)] == counter_total(b, 2 * j + 2)
            &&& forall|j: int| 0 <= j < hi ==> x.0[#[trigger] (2 * j + 1)] == b[2 * j + 1]
            &&& forall|i: int| 2 * hi <= i < b.len() ==> #[trigger] x.0[i] == b[i]
        }),
    decreases hi,
{
    if hi > 0 {
        lemma_bucket_ends_2k(k, b, hi - 1);
        let y = initialize_buckets_end_32s_2k_slot_run(k, (b, 0), 0, hi - 1)->0;
        reveal_with_fuel(lane_sum, 3);
        reveal_with_fuel(counter_total, 3);
        let i = hi - 1;
        assert(lane_sum(y.0, 2 * i, 2) is Some);
        assert(y.0[2 * i] == b[2 * i] && y.0[2 * i + 1] == b[2 * i + 1]);
    }
}

/// Where the counters of all `k` symbols are not negative and their sum fits, the ends of
/// their buckets are set.
pub proof fn law_bucket_ends_2k(k: int, b: Seq<i32>)
    requires
        0 <= k,
        2 * k <= b.len(),
        forall|i: int| 0 <= i < 2 * k ==> 0 <= #[trigger] b[i],
        counter_total(b, 2 * k) <= i32::MAX,
    ensures
        initialize_buckets_end_32s_2k_run(k, b) is Some,
        ({
            let x = initialize_buckets_end_32s_2k_run(k, b)->0;
            &&& x.0.len() == b.len()
            &&& forall|j: int| 0 <= j < k ==> x.0[#[trigger] (2 * j)] == counter_total(b, 2 * j + 2)
            &&& forall|j: int| 0 <= j < k ==> x.0[#[trigger] (2 * j + 1)] == b[2 * j + 1]
            &&& forall|i: int| 2 * k <= i < b.len() ==> #[trigger] x.0[i] == b[i]
        }),
{
    lemma_bucket_ends_2k_defined(k, b, k);
    lemma_bucket_ends_2k(k, b, k);
}

/// The running sums fit where the whole sum does.
proof fn lemma_bucket_ends_2k_defined(k: int, b: Seq<i32>, hi: int)
    requires
        0 <= hi <= k,
        2 * k <= b.len(),
        forall|i: int| 0 <= i < 2 * k ==> 0 <= #[trigger] b[i],
        counter_total(b, 2 * k) <= i32::MAX,
    ensures
        initialize_buckets_end_32s_2k_slot_run(k, (b, 0), 0, hi) is Some,
    decreases hi,
{
    if hi > 0 {
        lemma_bucket_ends_2k_defined(k, b, hi - 1);
        lemma_bucket_ends_2k(k, b, hi - 1);
        let y = initialize_buckets_end_32s_2k_slot_run(k, (b, 0), 0, hi - 1)->0;
        let i = hi - 1;
        lemma_counter_total_grows(b, 2 * hi, 2 * k);
        lemma_counter_total_grows(b, 2 * i, 2 * i + 1);
        lemma_counter_total_grows(b, 2 * i + 1, 2 * i + 2);
        reveal_with_fuel(lane_sum, 3);
        reveal_with_fuel(counter_total, 3);
        assert(y.0[2 * i] == b[2 * i] && y.0[2 * i + 1] == b[2 * i + 1]);
    }
}

/// The slots from `2 * k` and `3 * k` on become the first slot and the end of each bucket: the sum of all
/// counters before those of the symbol, and up to them.
#[verifier::spinoff_prover]
pub proof fn lemma_bucket_bounds_4k(k: int, b: Seq<i32>, hi: int)
    requires
        0 <= hi <= k,
        initialize_buckets_start_and_end_32s_4k_slot_run(k, (b, 0), 0, hi) is Some,
    ensures
        ({
            let x = initialize_buckets_start_and_end_32s_4k_slot_run(k, (b, 0), 0, hi)->0;
            &&& x.0.len() == b.len()
            &&& x.1 == counter_total(b, 2 * hi)
            &&& hi > 0 ==> 3 * k + hi <= b.len()
            &&& forall|j: int| 0 <= j < hi ==> x.0[#[trigger] (2 * k + j)] == counter_total(b, 2 * j)
            &&& forall|j: int| 0 <= j < hi ==> x.0[#[trigger] (3 * k + j)] == counter_total(b, 2 * j + 2)
            &&& forall|i: int| 0 <= i < b.len() && !(2 * k <= i < 2 * k + hi) && !(3 * k <= i < 3 * k + hi)
                ==> #[trigger] x.0[i] == b[i]
        }),
    decreases hi,
{
    if hi > 0 {
        lemma_bucket_bounds_4k(k, b, hi - 1);
        let y = initialize_buckets_start_and_end_32s_4k_slot_run(k, (b, 0), 0, hi - 1)->0;
        let i = hi - 1;
        let c = y.0.update(2 * k + i, y.1);
        assert(lane_sum(c, 2 * i, 2) is Some);
        lemma_lane_sum(c, 2 * i, 2);
        lemma_counter_total_same(c, b, 2 * i);
        lemma_counter_total_same(c, b, 2 * i + 2);
    }
}

/// Where the counters of all symbols are not negative and their sum fits, the first slots
/// and the ends of their buckets are set.
pub proof fn law_bucket_bounds_4k(k: int, b: Seq<i32>)
    requires
        0 <= k,
        4 * k <= b.len(),
        forall|i: int| 0 <= i < 2 * k ==> 0 <= #[trigger] b[i],
        counter_total(b, 2 * k) <= i32::MAX,
    ensures
        initialize_buckets_start_and_end_32s_4k_run(k, b) is Some,
        ({
            let x = initialize_buckets_start_and_end_32s_4k_run(k, b)->0;
            &&& x.0.len() == b.len()
            &&& forall|j: int| 0 <= j < k ==> x.0[#[trigger] (2 * k + j)] == counter_total(b, 2 * j)
            &&& forall|j: int| 0 <= j < k ==> x.0[#[trigger] (3 * k + j)] == counter_total(b, 2 * j + 2)
            &&& forall|i: int| 0 <= i < b.len() && !(2 * k <= i < 2 * k + k) && !(3 * k <= i < 3 * k + k)
                ==> #[trigger] x.0[i] == b[i]
        }),
{
    lemma_bucket_bounds_4k_defined(k, b, k);
    lemma_bucket_bounds_4k(k, b, k);
}

/// The running sums fit where the whole sum does.
proof fn lemma_bucket_bounds_4k_defined(k: int, b: Seq<i32>, hi: int)
    requires
        0 <= hi <= k,
        4 * k <= b.len(),
        forall|i: int| 0 <= i < 2 * k ==> 0 <= #[trigger] b[i],
        counter_total(b, 2 * k) <= i32::MAX,
    ensures
        initialize_buckets_start_and_end_32s_4k_slot_run(k, (b, 0), 0, hi) is Some,
    decreases hi,
{
    if hi > 0 {
        lemma_bucket_bounds_4k_defined(k, b, hi - 1);
        lemma_bucket_bounds_4k(k, b, hi - 1);
        let y = initialize_buckets_start_and_end_32s_4k_slot_run(k, (b, 0), 0, hi - 1)->0;
        let i = hi - 1;
        let c = y.0.update(2 * k + i, y.1);
        lemma_counter_total_grows(b, 2 * hi, 2 * k);
        lemma_counter_total_grows(b, 2 * i, 2 * i + 2);
        lemma_counter_total_same(c, b, 2 * i);
        lemma_counter_total_same(c, b, 2 * i + 2);
        lemma_lane_sum_defined(c, 2 * i, 2);
        lemma_lane_sum(c, 2 * i, 2);
    }
}

/// The slots from `4 * k` and `5 * k` on become the first slot and the end of each bucket: the sum of all
/// counters before those of the symbol, and up to them.
#[verifier::spinoff_prover]
pub proof fn lemma_bucket_bounds_6k(k: int, b: Seq<i32>, hi: int)
    requires
        0 <= hi <= k,
        initialize_buckets_start_and_end_32s_6k_slot_run(k, (b, 0), 0, hi) is Some,
    ensures
        ({
            let x = initialize_buckets_start_and_end_32s_6k_slot_run(k, (b, 0), 0, hi)->0;
            &&& x.0.len() == b.len()
            &&& x.1 == counter_total(b, 4 * hi)
            &&& hi > 0 ==> 5 * k + hi <= b.len()
            &&& forall|j: int| 0 <= j < hi ==> x.0[#[trigger] (4 * k + j)] == counter_total(b, 4 * j)
            &&& forall|j: int| 0 <= j < hi ==> x.0[#[trigger] (5 * k + j)] == counter_total(b, 4 * j + 4)
            &&& forall|i: int| 0 <= i < b.len() && !(4 * k <= i < 4 * k + hi) && !(5 * k <= i < 5 * k + hi)
                ==> #[trigger] x.0[i] == b[i]
        }),
    decreases hi,
{
    if hi > 0 {
        lemma_bucket_bounds_6k(k, b, hi - 1);
        let y = initialize_buckets_start_and_end_32s_6k_slot_run(k, (b, 0), 0, hi - 1)->0;
        let i = hi - 1;
        let c = y.0.update(4 * k + i, y.1);
        assert(lane_sum(c, 4 * i, 4) is Some);
        lemma_lane_sum(c, 4 * i, 4);
        lemma_counter_total_same(c, b, 4 * i);
        lemma_counter_total_same(c, b, 4 * i + 4);
    }
}

/// Where the counters of all symbols are not negative and their sum fits, the first slots
/// and the ends of their buckets are set.
pub proof fn law_bucket_bounds_6k(k: int, b: Seq<i32>)
    requires
        0 <= k,
        6 * k <= b.len(),
        forall|i: int| 0 <= i < 4 * k ==> 0 <= #[trigger] b[i],
        counter_total(b, 4 * k) <= i32::MAX,
    ensures
        initialize_buckets_start_and_end_32s_6k_run(k, b) is Some,
        ({
            let x = initialize_buckets_start_and_end_32s_6k_run(k, b)->0;
            &&& x.0.len() == b.len()
            &&& forall|j: int| 0 <= j < k ==> x.0[#[trigger] (4 * k + j)] == counter_total(b, 4 * j)
            &&& forall|j: int| 0 <= j < k ==> x.0[#[trigger] (5 * k + j)] == counter_total(b, 4 * j + 4)
            &&& forall|i: int| 0 <= i < b.len() && !(4 * k <= i < 4 * k + k) && !(5 * k <= i < 5 * k + k)
                ==> #[trigger] x.0[i] == b[i]
        }),
{
    lemma_bucket_bounds_6k_defined(k, b, k);
    lemma_bucket_bounds_6k(k, b, k);
}

/// The running sums fit where the whole sum does.
proof fn lemma_bucket_bounds_6k_defined(k: int, b: Seq<i32>, hi: int)
    requires
        0 <= hi <= k,
        6 * k <= b.len(),
        forall|i: int| 0 <= i < 4 * k ==> 0 <= #[trigger] b[i],
        counter_total(b, 4 * k) <= i32::MAX,
    ensures
        initialize_buckets_start_and_end_32s_6k_slot_run(k, (b, 0), 0, hi) is Some,
    decreases hi,
{
    if hi > 0 {
        lemma_bucket_bounds_6k_defined(k, b, hi - 1);
        lemma_bucket_bounds_6k(k, b, hi - 1);
        let y = initialize_buckets_start_and_end_32s_6k_slot_run(k, (b, 0), 0, hi - 1)->0;
        let i = hi - 1;
        let c = y.0.update(4 * k + i, y.1);
        lemma_counter_total_grows(b, 4 * hi, 4 * k);
        lemma_counter_total_grows(b, 4 * i, 4 * i + 4);
        lemma_counter_total_same(c, b, 4 * i);
        lemma_counter_total_same(c, b, 4 * i + 4);
        lemma_lane_sum_defined(c, 4 * i, 4);
        lemma_lane_sum(c, 4 * i, 4);
    }
}

/// The slots from `1536` and `1792` on become the first slot and the end of each bucket: the sum of all
/// counters before those of the symbol, and up to them.
#[verifier::spinoff_prover]
pub proof fn lemma_bucket_bounds_8u(b: Seq<i32>, hi: int)
    requires
        0 <= hi <= ALPHABET_SIZE,
        initialize_buckets_start_and_end_8u_slot_run((b, 0, 0), 0, hi) is Some,
    ensures
        ({
            let x = initialize_buckets_start_and_end_8u_slot_run((b, 0, 0), 0, hi)->0;
            &&& x.0.len() == b.len()
            &&& x.1 == counter_total(b, 4 * hi)
            &&& hi > 0 ==> 1792 + hi <= b.len()
            &&& forall|j: int| 0 <= j < hi ==> x.0[#[trigger] (1536 + j)] == counter_total(b, 4 * j)
            &&& forall|j: int| 0 <= j < hi ==> x.0[#[trigger] (1792 + j)] == counter_total(b, 4 * j + 4)
            &&& forall|i: int| 0 <= i < b.len() && !(1536 <= i < 1536 + hi) && !(1792 <= i < 1792 + hi)
                ==> #[trigger] x.0[i] == b[i]
        }),
    decreases hi,
{
    if hi > 0 {
        lemma_bucket_bounds_8u(b, hi - 1);
        let y = initialize_buckets_start_and_end_8u_slot_run((b, 0, 0), 0, hi - 1)->0;
        let i = hi - 1;
        let c = y.0.update(1536 + i, y.1);
        assert(lane_sum(c, 4 * i, 4) is Some);
        lemma_lane_sum(c, 4 * i, 4);
        lemma_counter_total_same(c, b, 4 * i);
        lemma_counter_total_same(c, b, 4 * i + 4);
    }
}

/// Where the counters of all symbols are not negative and their sum fits, the first slots
/// and the ends of their buckets are set.
pub proof fn law_bucket_bounds_8u(b: Seq<i32>)
    requires
        2048 <= b.len(),
        forall|i: int| 0 <= i < 4 * ALPHABET_SIZE ==> 0 <= #[trigger] b[i],
        counter_total(b, 4 * ALPHABET_SIZE) <= i32::MAX,
    ensures
        initialize_buckets_start_and_end_8u_run(b) is Some,
        ({
            let x = initialize_buckets_start_and_end_8u_run(b)->0;
            &&& x.0.len() == b.len()
            &&& forall|j: int| 0 <= j < ALPHABET_SIZE ==> x.0[#[trigger] (1536 + j)] == counter_total(b, 4 * j)
            &&& forall|j: int| 0 <= j < ALPHABET_SIZE ==> x.0[#[trigger] (1792 + j)] == counter_total(b, 4 * j + 4)
            &&& forall|i: int| 0 <= i < b.len() && !(1536 <= i < 1536 + ALPHABET_SIZE) && !(1792 <= i < 1792 + ALPHABET_SIZE)
                ==> #[trigger] x.0[i] == b[i]
        }),
{
    lemma_bucket_bounds_8u_defined(b, ALPHABET_SIZE as int);
    lemma_bucket_bounds_8u(b, ALPHABET_SIZE as int);
}

/// The running sums fit where the whole sum does.
proof fn lemma_bucket_bounds_8u_defined(b: Seq<i32>, hi: int)
    requires
        0 <= hi <= ALPHABET_SIZE,
        2048 <= b.len(),
        forall|i: int| 0 <= i < 4 * ALPHABET_SIZE ==> 0 <= #[trigger] b[i],
        counter_total(b, 4 * ALPHABET_SIZE) <= i32::MAX,
    ensures
        initialize_buckets_start_and_end_8u_slot_run((b, 0, 0), 0, hi) is Some,
    decreases hi,
{
    if hi > 0 {
        lemma_bucket_bounds_8u_defined(b, hi - 1);
        lemma_bucket_bounds_8u(b, hi - 1);
        let y = initialize_buckets_start_and_end_8u_slot_run((b, 0, 0), 0, hi - 1)->0;
        let i = hi - 1;
        let c = y.0.update(1536 + i, y.1);
        lemma_counter_total_grows(b, 4 * hi, 4 * ALPHABET_SIZE);
        lemma_counter_total_grows(b, 4 * i, 4 * i + 4);
        lemma_counter_total_same(c, b, 4 * i);
        lemma_counter_total_same(c, b, 4 * i + 4);
        lemma_lane_sum_defined(c, 4 * i, 4);
        lemma_lane_sum(c, 4 * i, 4);
    }
}

/// How many of the first `n` symbols are below `c`.
pub open spec fn count_below(t: Seq<i32>, c: int, n: int) -> int
    decreases n,
{
    if n <= 0 {
        0
    } else {
        count_below(t, c, n - 1) + bit(t[n - 1] < c)
    }
}

/// Symbols are below `c + 1` where they are below `c` or are `c`.
proof fn lemma_count_below_step(t: Seq<i32>, c: int, n: int)
    ensures
        count_below(t, c + 1, n) == count_below(t, c, n) + symbol_count(t, c, n),
    decreases n,
{
    if n > 0 {
        lemma_count_below_step(t, c, n - 1);
    }
}

/// No symbol is below zero.
pub proof fn lemma_count_below_zero(t: Seq<i32>, n: int)
    requires
        0 <= n <= t.len(),
        forall|i: int| 0 <= i < n ==> 0 <= #[trigger] t[i],
    ensures
        count_below(t, 0, n) == 0,
    decreases n,
{
    if n > 0 {
        lemma_count_below_zero(t, n - 1);
        assert(0 <= t[n - 1]);
    }
}

/// Summing the counts of the symbols below `c` counts the symbols below `c`.
proof fn lemma_counts_sum(t: Seq<i32>, n: int, b: Seq<i32>, c: int)
    requires
        0 <= n <= t.len(),
        forall|i: int| 0 <= i < n ==> 0 <= #[trigger] t[i],
        0 <= c,
        forall|d: int| 0 <= d < c ==> #[trigger] b[d] == symbol_count(t, d, n),
    ensures
        counter_total(b, c) == count_below(t, c, n),
    decreases c,
{
    if c > 0 {
        lemma_counts_sum(t, n, b, c - 1);
        lemma_count_below_step(t, c - 1, n);
    } else {
        lemma_count_below_zero(t, n);
    }
}

/// No more symbols are below `c` than there are.
pub proof fn lemma_count_below_bound(t: Seq<i32>, c: int, n: int)
    requires
        0 <= n,
    ensures
        0 <= count_below(t, c, n) <= n,
    decreases n,
{
    if n > 0 {
        lemma_count_below_bound(t, c, n - 1);
    }
}

/// The positions of the symbols below `c`.
spec fn places_below(t: Seq<i32>, c: int, n: int) -> Set<int> {
    Set::new(|i: int| 0 <= i < n && t[i] < c)
}

/// Counting symbols is counting their positions.
proof fn lemma_places_below(t: Seq<i32>, c: int, n: int)
    requires
        0 <= n <= t.len(),
    ensures
        places_below(t, c, n).finite(),
        places_below(t, c, n).len() == count_below(t, c, n),
    decreases n,
{
    if n == 0 {
        assert(places_below(t, c, 0) =~= Set::empty());
    } else {
        lemma_places_below(t, c, n - 1);
        if t[n - 1] < c {
            assert(places_below(t, c, n) =~= places_below(t, c, n - 1).insert(n - 1));
        } else {
            assert(places_below(t, c, n) =~= places_below(t, c, n - 1));
        }
    }
}

/// The slots of a suffix array whose suffixes start with a symbol below `c`.
spec fn slots_below(t: Seq<i32>, sa: Seq<i32>, c: int) -> Set<int> {
    Set::new(|j: int| 0 <= j < sa.len() && t[sa[j] as int] < c)
}

/// A set of slots that holds every slot in front of its own is a range.
pub proof fn lemma_closed_range(s: Set<int>, n: int)
    requires
        0 <= n,
        forall|j: int| s.contains(j) ==> 0 <= j < n,
        forall|i: int, j: int| 0 <= i < j && #[trigger] s.contains(j) ==> #[trigger] s.contains(i),
    ensures
        s.finite(),
        s == vstd::set_lib::set_int_range(0, s.len() as int),
    decreases n,
{
    if n == 0 {
        assert(s =~= Set::empty());
        vstd::set_lib::lemma_int_range(0, 0);
    } else if s.contains(n - 1) {
        assert(s =~= vstd::set_lib::set_int_range(0, n));
        vstd::set_lib::lemma_int_range(0, n);
    } else {
        lemma_closed_range(s, n - 1);
    }
}

/// The suffixes that start with a symbol below `c` fill the first slots of the suffix array.
pub proof fn lemma_slots_below(t: Seq<i32>, sa: Seq<i32>, c: int, j: int)
    requires
        is_suffix_array(text32(t), sa),
        0 <= j < sa.len(),
    ensures
        (t[sa[j] as int] < c) == (j < count_below(t, c, t.len() as int)),
{
    let n = t.len() as int;
    let x = text32(t);
    let slots = slots_below(t, sa, c);
    assert forall|i: int, l: int| 0 <= i < l && #[trigger] slots.contains(l) implies #[trigger] slots.contains(i) by {
        assert(suffix_less(x, sa[i] as int, sa[l] as int));
        assert(0 <= sa[i] < n && 0 <= sa[l] < n);
    }
    lemma_closed_range(slots, n);
    lemma_places_below(t, c, n);
    let f = |l: int| sa[l] as int;
    assert(vstd::relations::injective_on(f, slots)) by {
        assert forall|i: int, l: int| slots.contains(i) && slots.contains(l) && #[trigger] f(i) == #[trigger] f(l) implies i
            == l by {
            lemma_suffix_array_distinct(x, sa, i, l);
        }
    }
    assert(slots.map(f) =~= places_below(t, c, n)) by {
        assert forall|p: int| places_below(t, c, n).contains(p) implies slots.map(f).contains(p) by {
            law_suffix_array_complete(x, sa, p);
            let l = choose|l: int| 0 <= l < sa.len() && #[trigger] sa[l] == p;
            assert(slots.contains(l) && f(l) == p);
        }
        assert forall|p: int| slots.map(f).contains(p) implies places_below(t, c, n).contains(p) by {
            let l = choose|l: int| slots.contains(l) && f(l) == p;
            assert(0 <= sa[l] < n);
        }
    }
    vstd::set_lib::lemma_map_size(slots, places_below(t, c, n), f);
    assert(slots.contains(j) == (j < slots.len()));
}

/// Running sums of the symbol counts are the first slots of the buckets.
pub proof fn lemma_sums_are_starts(t: Seq<i32>, sa: Seq<i32>, k: int, b: Seq<i32>)
    requires
        is_suffix_array(text32(t), sa),
        t.len() <= i32::MAX,
        symbols_below(t, k),
        0 <= k <= b.len(),
        forall|c: int| 0 <= c < k ==> #[trigger] b[c] == count_below(t, c, t.len() as int),
    ensures
        bucket_starts(t, sa, k, b),
{
    assert forall|c: int| 0 <= c < k implies 0 <= #[trigger] b[c] <= sa.len() by {
        lemma_count_below_bound(t, c, t.len() as int);
    }
    assert forall|c: int, j: int| #![trigger b[c], sa[j]] 0 <= c < k && 0 <= j < sa.len() implies (t[sa[j] as int] < c) == (j
        < b[c]) by {
        lemma_slots_below(t, sa, c, j);
    }
}

/// Running sums of the symbol counts are the ends of the buckets.
pub proof fn lemma_sums_are_ends(t: Seq<i32>, sa: Seq<i32>, k: int, b: Seq<i32>)
    requires
        is_suffix_array(text32(t), sa),
        t.len() <= i32::MAX,
        symbols_below(t, k),
        0 <= k <= b.len(),
        forall|c: int| 0 <= c < k ==> #[trigger] b[c] == count_below(t, c + 1, t.len() as int),
    ensures
        bucket_ends(t, sa, k, b),
{
    assert forall|c: int| 0 <= c < k implies 0 <= #[trigger] b[c] <= sa.len() by {
        lemma_count_below_bound(t, c + 1, t.len() as int);
    }
    assert forall|c: int, j: int| #![trigger b[c], sa[j]] 0 <= c < k && 0 <= j < sa.len() implies (t[sa[j] as int] <= c) == (
    j < b[c]) by {
        lemma_slots_below(t, sa, c + 1, j);
    }
}

/// Counting the symbols and summing the counts gives the first slots and the ends of the
/// buckets of the suffix array.
pub proof fn law_bucket_bounds_1k(t: Seq<i32>, sa: Seq<i32>, k: int, b: Seq<i32>)
    requires
        is_suffix_array(text32(t), sa),
        t.len() <= i32::MAX,
        symbols_below(t, k),
        0 <= k <= b.len(),
    ensures
        bucket_starts_1k(t, t.len() as int, k, b) is Some,
        bucket_ends_1k(t, t.len() as int, k, b) is Some,
        bucket_starts(t, sa, k, bucket_starts_1k(t, t.len() as int, k, b)->0),
        bucket_ends(t, sa, k, bucket_ends_1k(t, t.len() as int, k, b)->0),
        bucket_starts_1k(t, t.len() as int, k, b).unwrap().len() == b.len(),
        bucket_ends_1k(t, t.len() as int, k, b).unwrap().len() == b.len(),
{
    let n = t.len() as int;
    law_counted_symbols(t, n, k, b);
    let x = count_suffixes_32s_run(t, n, k, b)->0;
    assert forall|i: int| 0 <= i < k implies 0 <= #[trigger] x[i] by {
        lemma_symbol_count_bound(t, i, n);
    }
    assert forall|c: int| 0 <= c <= k implies #[trigger] counter_total(x, c) == count_below(t, c, n) by {
        lemma_counts_sum(t, n, x, c);
    }
    lemma_count_below_bound(t, k, n);
    assert(counter_total(x, k) <= i32::MAX);
    law_bucket_starts_1k(k, x);
    law_bucket_ends_1k(k, x);
    let starts = bucket_starts_1k(t, n, k, b)->0;
    let ends = bucket_ends_1k(t, n, k, b)->0;
    assert forall|c: int| 0 <= c < k implies #[trigger] ends[c] == count_below(t, c + 1, n) by {
        assert(counter_total(x, c + 1) == count_below(t, c + 1, n));
    }
    lemma_sums_are_starts(t, sa, k, starts);
    lemma_sums_are_ends(t, sa, k, ends);
}

/// The final scans sort, with one bucket for each symbol: where the leftmost suffixes of type
/// S stand sorted in their buckets, inducing the final order leaves the suffix array.
pub proof fn law_final_order_1k(t: Seq<i32>, sa: Seq<i32>, s: Seq<i32>, k: int, b: Seq<i32>)
    requires
        2 <= t.len() <= i32::MAX,
        is_suffix_array(text32(t), sa),
        symbols_below(t, k),
        0 <= k <= b.len(),
        lms_in_place(t, sa, s),
    ensures
        final_order_32s_1k(t, t.len() as int, k, (s, b)) is Some,
        ({
            let x = final_order_32s_1k(t, t.len() as int, k, (s, b))->0;
            &&& x.0.len() == s.len()
            &&& x.0.subrange(0, t.len() as int) == sa
        }),
{
    let n = t.len() as int;
    law_bucket_bounds_1k(t, sa, k, b);
    let starts = bucket_starts_1k(t, n, k, b)->0;
    let ends = bucket_ends_1k(t, n, k, b)->0;
    assert(prepared(t, sa, s, k, starts, ends));
    lemma_left_scan(t, sa, s, k, starts, ends);
    let left = final_left_32s(t, n, (s, starts))->0;
    law_bucket_bounds_1k(t, sa, k, left.1);
    law_final_scans_sort(t, sa, s, k, starts, bucket_ends_1k(t, n, k, left.1)->0);
}

/// The counters of symbol `c` count the suffixes that start with it.
proof fn lemma_lanes_count(t: Seq<i32>, mode: LmsMode, c: int, lo: int, hi: int)
    requires
        0 <= lo <= hi <= t.len(),
        !mode.compact,
        mode.lanes == 2 || mode.lanes == 4,
    ensures
        mode.lanes == 2 ==> slot_count(text32(t), mode, 2 * c, lo, hi) + slot_count(text32(t), mode, 2 * c + 1, lo, hi)
            == symbol_count(t, c, hi) - symbol_count(t, c, lo),
        mode.lanes == 4 ==> slot_count(text32(t), mode, 4 * c, lo, hi) + slot_count(text32(t), mode, 4 * c + 1, lo, hi)
            + slot_count(text32(t), mode, 4 * c + 2, lo, hi) + slot_count(text32(t), mode, 4 * c + 3, lo, hi)
            == symbol_count(t, c, hi) - symbol_count(t, c, lo),
    decreases hi - lo,
{
    if lo < hi {
        lemma_lanes_count(t, mode, c, lo + 1, hi);
        assert(symbol_count(t, c, lo + 1) == symbol_count(t, c, lo) + bit(t[lo] == c));
        assert(text32(t)[lo] == t[lo]);
    }
}

/// Summing the counters of the symbols below `c` counts the symbols below `c`.
pub proof fn lemma_lanes_sum(t: Seq<i32>, mode: LmsMode, b: Seq<i32>, k: int, c: int)
    requires
        !mode.compact,
        mode.lanes == 2 || mode.lanes == 4,
        symbols_below(t, k),
        0 <= c <= k,
        mode.lanes * k <= b.len(),
        forall|slot: int| 0 <= slot < mode.lanes * k ==> #[trigger] b[slot] == slot_count(
            text32(t),
            mode,
            slot,
            0,
            t.len() as int,
        ),
    ensures
        counter_total(b, mode.lanes * c) == count_below(t, c, t.len() as int),
    decreases c,
{
    let n = t.len() as int;
    if c > 0 {
        lemma_lanes_sum(t, mode, b, k, c - 1);
        lemma_lanes_count(t, mode, c - 1, 0, n);
        lemma_count_below_step(t, c - 1, n);
        reveal_with_fuel(counter_total, 5);
        if mode.lanes == 2 {
            assert(b[2 * (c - 1)] == slot_count(text32(t), mode, 2 * (c - 1), 0, n));
            assert(b[2 * (c - 1) + 1] == slot_count(text32(t), mode, 2 * (c - 1) + 1, 0, n));
        } else {
            assert(b[4 * (c - 1)] == slot_count(text32(t), mode, 4 * (c - 1), 0, n));
            assert(b[4 * (c - 1) + 1] == slot_count(text32(t), mode, 4 * (c - 1) + 1, 0, n));
            assert(b[4 * (c - 1) + 2] == slot_count(text32(t), mode, 4 * (c - 1) + 2, 0, n));
            assert(b[4 * (c - 1) + 3] == slot_count(text32(t), mode, 4 * (c - 1) + 3, 0, n));
        }
    } else {
        lemma_count_below_zero(t, n);
    }
}

/// No count is negative.
proof fn lemma_slot_count_bound(t: Seq<int>, mode: LmsMode, slot: int, lo: int, hi: int)
    requires
        lo <= hi,
    ensures
        0 <= slot_count(t, mode, slot, lo, hi) <= hi - lo,
    decreases hi - lo,
{
    if lo < hi {
        lemma_slot_count_bound(t, mode, slot, lo + 1, hi);
    }
}

/// Whether `b` starts with the counts of the suffixes of `t` in their slots.
pub open spec fn counted(t: Seq<i32>, mode: LmsMode, k: int, b: Seq<i32>) -> bool {
    forall|slot: int| 0 <= slot < mode.lanes * k ==> #[trigger] b[slot] == slot_count(text32(t), mode, slot, 0, t.len() as int)
}

/// What every way to sum the counters needs.
pub proof fn lemma_counted(t: Seq<i32>, mode: LmsMode, k: int, b: Seq<i32>)
    requires
        !mode.compact,
        mode.lanes == 2 || mode.lanes == 4,
        symbols_below(t, k),
        0 <= k,
        t.len() <= i32::MAX,
        mode.lanes * k <= b.len(),
        counted(t, mode, k, b),
    ensures
        forall|slot: int| 0 <= slot < mode.lanes * k ==> 0 <= #[trigger] b[slot],
        counter_total(b, mode.lanes * k) <= i32::MAX,
{
    assert forall|slot: int| 0 <= slot < mode.lanes * k implies 0 <= #[trigger] b[slot] by {
        lemma_slot_count_bound(text32(t), mode, slot, 0, t.len() as int);
    }
    lemma_lanes_sum(t, mode, b, k, k);
    lemma_count_below_bound(t, k, t.len() as int);
}

/// The final scans sort, with four buckets for each symbol: two counters, and the bounds that
/// are summed from them.
pub proof fn law_final_order_4k(t: Seq<i32>, sa: Seq<i32>, s: Seq<i32>, k: int, mode: LmsMode, b: Seq<i32>)
    requires
        2 <= t.len() <= i32::MAX,
        is_suffix_array(text32(t), sa),
        symbols_below(t, k),
        0 <= k,
        4 * k <= b.len(),
        !mode.compact,
        mode.lanes == 2,
        counted(t, mode, k, b),
        lms_in_place(t, sa, s),
    ensures
        initialize_buckets_start_and_end_32s_4k_run(k, b) is Some,
        ({
            let bounds = initialize_buckets_start_and_end_32s_4k_run(k, b).unwrap().0;
            &&& final_order_32s_4k(t, t.len() as int, k, (s, bounds)) is Some
            &&& final_order_32s_4k(t, t.len() as int, k, (s, bounds)).unwrap().0.subrange(0, t.len() as int) == sa
        }),
{
    let n = t.len() as int;
    lemma_counted(t, mode, k, b);
    law_bucket_bounds_4k(k, b);
    let bounds = initialize_buckets_start_and_end_32s_4k_run(k, b).unwrap().0;
    let starts = bounds.subrange(2 * k, 3 * k);
    let ends = bounds.subrange(3 * k, bounds.len() as int);
    assert forall|c: int| 0 <= c < k implies #[trigger] starts[c] == count_below(t, c, n) by {
        lemma_lanes_sum(t, mode, b, k, c);
        assert(bounds[2 * k + c] == counter_total(b, 2 * c));
    }
    assert forall|c: int| 0 <= c < k implies #[trigger] ends[c] == count_below(t, c + 1, n) by {
        lemma_lanes_sum(t, mode, b, k, c + 1);
        assert(bounds[3 * k + c] == counter_total(b, 2 * c + 2));
    }
    lemma_sums_are_starts(t, sa, k, starts);
    lemma_sums_are_ends(t, sa, k, ends);
    law_final_scans_sort(t, sa, s, k, starts, ends);
}

/// The final scans sort, with six buckets for each symbol: four counters, and the bounds that
/// are summed from them.
pub proof fn law_final_order_6k(t: Seq<i32>, sa: Seq<i32>, s: Seq<i32>, k: int, mode: LmsMode, b: Seq<i32>)
    requires
        2 <= t.len() <= i32::MAX,
        is_suffix_array(text32(t), sa),
        symbols_below(t, k),
        0 <= k,
        6 * k <= b.len(),
        !mode.compact,
        mode.lanes == 4,
        counted(t, mode, k, b),
        lms_in_place(t, sa, s),
    ensures
        initialize_buckets_start_and_end_32s_6k_run(k, b) is Some,
        ({
            let bounds = initialize_buckets_start_and_end_32s_6k_run(k, b).unwrap().0;
            &&& final_order_32s_6k(t, t.len() as int, k, (s, bounds)) is Some
            &&& final_order_32s_6k(t, t.len() as int, k, (s, bounds)).unwrap().0.subrange(0, t.len() as int) == sa
        }),
{
    let n = t.len() as int;
    lemma_counted(t, mode, k, b);
    law_bucket_bounds_6k(k, b);
    let bounds = initialize_buckets_start_and_end_32s_6k_run(k, b).unwrap().0;
    let starts = bounds.subrange(4 * k, 5 * k);
    let ends = bounds.subrange(5 * k, bounds.len() as int);
    assert forall|c: int| 0 <= c < k implies #[trigger] starts[c] == count_below(t, c, n) by {
        lemma_lanes_sum(t, mode, b, k, c);
        assert(bounds[4 * k + c] == counter_total(b, 4 * c));
    }
    assert forall|c: int| 0 <= c < k implies #[trigger] ends[c] == count_below(t, c + 1, n) by {
        lemma_lanes_sum(t, mode, b, k, c + 1);
        assert(bounds[5 * k + c] == counter_total(b, 4 * c + 4));
    }
    lemma_sums_are_starts(t, sa, k, starts);
    lemma_sums_are_ends(t, sa, k, ends);
    law_final_scans_sort(t, sa, s, k, starts, ends);
}

/// The final scans sort, with two buckets for each symbol: two counters, which make room for
/// the bounds that are summed from them.
pub proof fn law_final_order_2k(t: Seq<i32>, sa: Seq<i32>, s: Seq<i32>, k: int, mode: LmsMode, b: Seq<i32>)
    requires
        2 <= t.len() <= i32::MAX,
        is_suffix_array(text32(t), sa),
        symbols_below(t, k),
        2 * k <= b.len(),
        !mode.compact,
        mode.lanes == 2,
        counted(t, mode, k, b),
        lms_in_place(t, sa, s),
    ensures
        initialize_buckets_end_32s_2k_run(k, b) is Some,
        ({
            let bounds = packed_bounds(k, initialize_buckets_end_32s_2k_run(k, b).unwrap().0);
            &&& final_order_32s_2k(t, t.len() as int, k, (s, bounds)) is Some
            &&& final_order_32s_2k(t, t.len() as int, k, (s, bounds)).unwrap().0.subrange(0, t.len() as int) == sa
        }),
{
    let n = t.len() as int;
    assert(0 <= t[0] < k);
    lemma_counted(t, mode, k, b);
    law_bucket_ends_2k(k, b);
    let e = initialize_buckets_end_32s_2k_run(k, b).unwrap().0;
    let bounds = packed_bounds(k, e);
    let starts = bounds.subrange(k, bounds.len() as int);
    let ends = bounds.subrange(0, k);
    assert forall|c: int| 0 <= c < k implies #[trigger] starts[c] == count_below(t, c, n) by {
        lemma_lanes_sum(t, mode, b, k, c);
        if c > 0 {
            assert(e[2 * (c - 1)] == counter_total(b, 2 * (c - 1) + 2));
        }
    }
    assert forall|c: int| 0 <= c < k implies #[trigger] ends[c] == count_below(t, c + 1, n) by {
        lemma_lanes_sum(t, mode, b, k, c + 1);
        assert(e[2 * c] == counter_total(b, 2 * c + 2));
    }
    lemma_sums_are_starts(t, sa, k, starts);
    lemma_sums_are_ends(t, sa, k, ends);
    law_final_scans_sort(t, sa, s, k, starts, ends);
}

/// The bounds that are summed from the counters of a byte text are those of its buckets.
pub proof fn law_bounds_of_bytes(t: Seq<u8>, sa: Seq<i32>, mode: LmsMode, b: Seq<i32>)
    requires
        t.len() <= i32::MAX,
        is_suffix_array(text8(t), sa),
        2048 <= b.len(),
        !mode.compact,
        mode.lanes == 4,
        counted(wide(t), mode, ALPHABET_SIZE as int, b),
    ensures
        initialize_buckets_start_and_end_8u_run(b) is Some,
        ({
            let bounds = initialize_buckets_start_and_end_8u_run(b).unwrap().0;
            &&& bounds.len() == b.len()
            &&& bucket_starts(wide(t), sa, ALPHABET_SIZE as int, bounds.subrange(1536, 1792))
            &&& bucket_ends(wide(t), sa, ALPHABET_SIZE as int, bounds.subrange(1792, 2048))
            &&& forall|c: int| 0 <= c < 256 ==> bounds[#[trigger] (1536 + c)] == count_below(wide(t), c, t.len() as int)
            &&& forall|c: int| 0 <= c < 256 ==> bounds[#[trigger] (1792 + c)] == count_below(wide(t), c + 1, t.len() as int)
            &&& forall|i: int| 0 <= i < 1536 ==> #[trigger] bounds[i] == b[i]
        }),
{
    let w = wide(t);
    let n = t.len() as int;
    let k = ALPHABET_SIZE as int;
    lemma_wide(t);
    lemma_counted(w, mode, k, b);
    law_bucket_bounds_8u(b);
    let bounds = initialize_buckets_start_and_end_8u_run(b).unwrap().0;
    let starts = bounds.subrange(1536, 1792);
    let ends = bounds.subrange(1792, 2048);
    assert forall|c: int| 0 <= c < k implies #[trigger] starts[c] == count_below(w, c, n) by {
        lemma_lanes_sum(w, mode, b, k, c);
        assert(bounds[1536 + c] == counter_total(b, 4 * c));
    }
    assert forall|c: int| 0 <= c < k implies #[trigger] ends[c] == count_below(w, c + 1, n) by {
        lemma_lanes_sum(w, mode, b, k, c + 1);
        assert(bounds[1792 + c] == counter_total(b, 4 * c + 4));
    }
    assert forall|c: int| 0 <= c < 256 implies bounds[#[trigger] (1536 + c)] == count_below(w, c, n) by {
        assert(starts[c] == bounds[1536 + c]);
    }
    assert forall|c: int| 0 <= c < 256 implies bounds[#[trigger] (1792 + c)] == count_below(w, c + 1, n) by {
        assert(ends[c] == bounds[1792 + c]);
    }
    lemma_sums_are_starts(w, sa, k, starts);
    lemma_sums_are_ends(w, sa, k, ends);
}

/// The buckets of the symbols tile the slots in order: the first starts at the first slot, each
/// has as many slots as its symbol has suffixes, and each starts where the one before ends.
pub proof fn law_buckets_tile(k: int, b: Seq<i32>)
    requires
        1 <= k <= b.len(),
        forall|i: int| 0 <= i < k ==> 0 <= #[trigger] b[i],
        counter_total(b, k) <= i32::MAX,
    ensures
        initialize_buckets_start_32s_1k_run(k, b) is Some,
        initialize_buckets_end_32s_1k_run(k, b) is Some,
        ({
            let s = initialize_buckets_start_32s_1k_run(k, b).unwrap().0;
            let e = initialize_buckets_end_32s_1k_run(k, b).unwrap().0;
            &&& s[0] == 0
            &&& forall|c: int| 0 <= c < k ==> #[trigger] e[c] == s[c] + b[c]
            &&& forall|c: int| 0 <= c < k - 1 ==> s[c + 1] == #[trigger] e[c]
            &&& e[k - 1] == counter_total(b, k)
        }),
{
    law_bucket_starts_1k(k, b);
    law_bucket_ends_1k(k, b);
    let s = initialize_buckets_start_32s_1k_run(k, b).unwrap().0;
    let e = initialize_buckets_end_32s_1k_run(k, b).unwrap().0;
    assert(s[0] == counter_total(b, 0));
    assert forall|c: int| 0 <= c < k implies #[trigger] e[c] == s[c] + b[c] by {
        assert(e[c] == counter_total(b, c + 1));
        assert(s[c] == counter_total(b, c));
    }
    assert forall|c: int| 0 <= c < k - 1 implies s[c + 1] == #[trigger] e[c] by {
        assert(e[c] == counter_total(b, c + 1));
    }
}

} // verus!
