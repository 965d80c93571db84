//! The types of suffixes, and what the passes over them gather and count.

use vstd::prelude::*;
use crate::gather::{
    count_and_gather_lms_suffixes_32s_2k_run, count_and_gather_lms_suffixes_32s_4k_run,
    count_and_gather_lms_suffixes_8u_run, count_lms_suffixes_32s_2k_mode, count_lms_suffixes_32s_2k_run,
    count_lms_suffixes_32s_4k_mode, count_lms_suffixes_32s_4k_run, gather_lms_suffixes_32s_run,
    gather_lms_suffixes_8u_run, lms_scan_run, lms_slot, run_end, run_type, symbol_before, zeros, LmsMode,
};
use crate::marks::bit;
use crate::order::suffix_less;

verus! {

/// Whether the suffix at `i` is of type L: it comes after the suffix behind it. The others
/// are of type S.
pub open spec fn is_l(t: Seq<int>, i: int) -> bool {
    suffix_less(t, i + 1, i)
}

/// Whether the suffix at `i` is a leftmost one of type S: the suffix in front of it is of
/// type L.
pub open spec fn is_lms(t: Seq<int>, i: int) -> bool {
    0 < i < t.len() && !is_l(t, i) && is_l(t, i - 1)
}

/// The type of a suffix follows from its first two symbols and the type of the next suffix.
pub proof fn law_type_step(t: Seq<int>, i: int)
    requires
        0 <= i,
        i + 1 < t.len(),
    ensures
        is_l(t, i) == (t[i] > t[i + 1] || (t[i] == t[i + 1] && is_l(t, i + 1))),
{
}

/// The last suffix is of type L.
pub proof fn law_last_type(t: Seq<int>)
    requires
        t.len() > 0,
    ensures
        is_l(t, t.len() - 1),
{
}

/// No two neighbours are both leftmost.
pub proof fn law_lms_apart(t: Seq<int>, i: int)
    requires
        is_lms(t, i),
    ensures
        !is_lms(t, i + 1),
{
}

/// The first symbol that differs decides the type.
proof fn lemma_run_decides(t: Seq<int>, i: int, j: int)
    requires
        0 <= i < j <= t.len(),
        forall|x: int| i <= x < j ==> #[trigger] t[x] == t[i],
        j < t.len() ==> t[j] != t[i],
    ensures
        is_l(t, i) == (j >= t.len() || t[i] > t[j]),
    decreases j - i,
{
    if i + 1 < j {
        assert(t[i + 1] == t[i]);
        lemma_run_decides(t, i + 1, j);
    }
}

/// The run of `c` from `j` ends where another symbol stands.
proof fn lemma_run_end(t: Seq<int>, n: int, j: int, c: int)
    requires
        0 <= j <= n <= t.len(),
    ensures
        j <= run_end(t, n, j, c) <= n,
        forall|x: int| j <= x < run_end(t, n, j, c) ==> #[trigger] t[x] == c,
        run_end(t, n, j, c) < n ==> t[run_end(t, n, j, c)] != c,
    decreases n - j,
{
    if j < n && t[j] == c {
        lemma_run_end(t, n, j + 1, c);
    }
}

/// The type that a pass starts from is the type of the last suffix of its block.
pub proof fn lemma_run_type(t: Seq<int>, last: int)
    requires
        0 <= last < t.len(),
        t[last] >= -1,
    ensures
        run_type(t, t.len() as int, last) == is_l(t, last),
{
    if last + 1 < t.len() {
        lemma_run_end(t, t.len() as int, last + 1, t[last]);
        lemma_run_decides(t, last, run_end(t, t.len() as int, last + 1, t[last]));
    }
}

/// Whether the slots of `sa` from `from` up to `to` list, in ascending order, the leftmost
/// suffixes of type S from position `lo` up to `hi`.
pub open spec fn lists_lms(t: Seq<int>, sa: Seq<i32>, lo: int, hi: int, from: int, to: int) -> bool {
    &&& forall|k: int| from <= k < to ==> lo <= #[trigger] sa[k] < hi && is_lms(t, sa[k] as int)
    &&& forall|k: int, l: int| from <= k < l < to ==> #[trigger] sa[k] < #[trigger] sa[l]
    &&& forall|p: int| lo <= p < hi && #[trigger] is_lms(t, p) ==> exists|k: int| from <= k < to && #[trigger] sa[k] == p
}

/// Whether the symbol in front of the text does not make its first suffix leftmost.
pub open spec fn bounded_left(t: Seq<int>, mode: LmsMode) -> bool {
    t[0] >= (if mode.closed { -0x8000_0000int } else { 0 })
}

/// How many suffixes from `lo` up to `hi` have the counter `slot`.
pub open spec fn slot_count(t: Seq<int>, mode: LmsMode, slot: int, lo: int, hi: int) -> int
    decreases hi - lo,
{
    if hi <= lo {
        0
    } else {
        slot_count(t, mode, slot, lo + 1, hi) + bit(
            lms_slot(t[lo], is_l(t, lo), lo > 0 && is_l(t, lo - 1), mode) == slot,
        )
    }
}

/// A pass over the positions from `lo` up to `hi` knows the types: it gathers the leftmost
/// suffixes behind `lo` and counts every suffix in its slot.
pub proof fn lemma_scan_types(
    t: Seq<int>,
    mode: LmsMode,
    s: (Seq<i32>, Seq<i32>, isize, bool),
    lo: int,
    hi: int,
)
    requires
        -1 <= lo <= hi < t.len(),
        !mode.compact,
        lo < 0 ==> bounded_left(t, mode),
        s.3 == is_l(t, hi),
        0 <= hi,
        lms_scan_run(t, mode, s, lo, hi) is Some,
    ensures
        ({
            let x = lms_scan_run(t, mode, s, lo, hi)->0;
            &&& x.3 == (lo >= 0 && is_l(t, lo))
            &&& x.0.len() == s.0.len()
            &&& x.1.len() == s.1.len()
            &&& mode.gather && lo < hi ==> -1 <= x.2 <= s.2 < s.0.len()
            &&& mode.gather ==> x.2 <= s.2 && lists_lms(t, x.0, lo + 1, hi + 1, x.2 + 1, s.2 + 1)
            &&& mode.gather ==> forall|k: int| s.2 < k < s.0.len() ==> x.0[k] == s.0[k]
            &&& !mode.gather ==> x.0 == s.0 && x.2 == s.2
            &&& mode.lanes != 0 ==> forall|slot: int| 0 <= slot < s.1.len() ==> #[trigger] x.1[slot] == s.1[slot]
                + slot_count(t, mode, slot, lo + 1, hi + 1)
            &&& mode.lanes == 0 ==> x.1 == s.1
        }),
    decreases hi - lo,
{
    let x = lms_scan_run(t, mode, s, lo, hi)->0;
    if lo < hi {
        let y = lms_scan_run(t, mode, s, lo + 1, hi)->0;
        lemma_scan_types(t, mode, s, lo + 1, hi);
        let c1 = t[lo + 1];
        let c0 = symbol_before(t, mode, lo);
        assert(y.3 == is_l(t, lo + 1));
        assert((c0 > c1 - bit(y.3)) == (lo >= 0 && is_l(t, lo))) by {
            if lo >= 0 {
                law_type_step(t, lo);
            }
        }
        if mode.gather {
            assert(x.0 == y.0.update(y.2 as int, (lo + 1) as i32));
            if lo >= 0 && is_lms(t, lo + 1) {
                assert(x.2 == y.2 - 1);
                assert forall|p: int| lo + 1 <= p < hi + 1 && #[trigger] is_lms(t, p) implies exists|k: int|
                    x.2 + 1 <= k < s.2 + 1 && #[trigger] x.0[k] == p by {
                    if p == lo + 1 {
                        assert(x.0[y.2 as int] == p);
                    } else {
                        let k = choose|k: int| y.2 + 1 <= k < s.2 + 1 && #[trigger] y.0[k] == p;
                        assert(x.0[k] == p);
                    }
                }
            } else {
                assert(x.2 == y.2);
                assert forall|p: int| lo + 1 <= p < hi + 1 && #[trigger] is_lms(t, p) implies exists|k: int|
                    x.2 + 1 <= k < s.2 + 1 && #[trigger] x.0[k] == p by {
                    let k = choose|k: int| y.2 + 1 <= k < s.2 + 1 && #[trigger] y.0[k] == p;
                    assert(x.0[k] == p);
                }
            }
        }
    } else {
        assert(x == s);
        assert(lo >= 0);
    }
}

/// A pass is defined where every symbol has its counters and every gathered suffix a slot.
pub proof fn lemma_scan_defined(
    t: Seq<int>,
    mode: LmsMode,
    s: (Seq<i32>, Seq<i32>, isize, bool),
    lo: int,
    hi: int,
)
    requires
        -1 <= lo <= hi < t.len() <= i32::MAX,
        !mode.compact,
        mode.lanes == 0 || mode.lanes == 2 || mode.lanes == 4,
        mode.lanes != 0 ==> forall|i: int| 0 <= i < t.len() ==> 0 <= #[trigger] t[i] && mode.lanes * t[i] + mode.lanes
            <= s.1.len(),
        mode.lanes != 0 ==> forall|slot: int| 0 <= slot < s.1.len() ==> #[trigger] s.1[slot] <= i32::MAX - (hi - lo),
        mode.gather ==> hi - lo - 1 <= s.2 < s.0.len(),
    ensures
        lms_scan_run(t, mode, s, lo, hi) is Some,
        ({
            let x = lms_scan_run(t, mode, s, lo, hi)->0;
            &&& x.0.len() == s.0.len()
            &&& x.1.len() == s.1.len()
            &&& s.2 - (hi - lo) <= x.2 <= s.2
            &&& mode.lanes != 0 ==> forall|slot: int| 0 <= slot < s.1.len() ==> #[trigger] x.1[slot] <= s.1[slot] + (hi - lo)
        }),
    decreases hi - lo,
{
    if lo < hi {
        lemma_scan_defined(t, mode, s, lo + 1, hi);
        let y = lms_scan_run(t, mode, s, lo + 1, hi)->0;
        let g = symbol_before(t, mode, lo) > t[lo + 1] - bit(y.3);
        let slot = lms_slot(t[lo + 1], y.3, g, mode);
        if mode.lanes != 0 {
            assert(0 <= slot < y.1.len());
            assert(y.1[slot] <= s.1[slot] + (hi - lo - 1));
        }
    }
}

/// Gathering lists the leftmost suffixes of type S of a text, in ascending order and at the
/// end of its slots.
pub proof fn law_gathered_lms(t: Seq<int>, sa: Seq<i32>)
    requires
        1 <= t.len() <= i32::MAX,
        t.len() <= sa.len(),
    ensures
        gather_lms_suffixes_32s_run(t, sa, t.len() as int) is Some,
        ({
            let x = gather_lms_suffixes_32s_run(t, sa, t.len() as int)->0;
            lists_lms(t, x.0, 0, t.len() as int, x.2 + 1, t.len() as int)
        }),
{
    let n = t.len() as int;
    let mode = crate::gather::gather_lms_suffixes_32s_mode();
    let s = (sa, Seq::<i32>::empty(), (n - 1) as isize, true);
    law_last_type(t);
    lemma_scan_defined(t, mode, s, 0, n - 1);
    lemma_scan_types(t, mode, s, 0, n - 1);
}

/// Gathering a block lists its leftmost suffixes of type S behind its first position, in
/// ascending order and up to slot `m`.
pub proof fn law_gathered_block(t: Seq<int>, sa: Seq<i32>, m: isize, start: int, size: int)
    requires
        t.len() <= i32::MAX,
        0 <= start,
        0 < size,
        start + size <= t.len(),
        t[start + size - 1] >= -1,
        size - 2 <= m < sa.len(),
    ensures
        gather_lms_suffixes_8u_run(t, sa, t.len() as int, m, start, size) is Some,
        ({
            let x = gather_lms_suffixes_8u_run(t, sa, t.len() as int, m, start, size)->0;
            lists_lms(t, x.0, start + 1, start + size, x.2 + 1, m + 1)
        }),
{
    let last = start + size - 1;
    let mode = crate::gather::gather_lms_suffixes_8u_mode();
    let s = (sa, Seq::<i32>::empty(), m, run_type(t, t.len() as int, last));
    lemma_run_type(t, last);
    lemma_scan_defined(t, mode, s, start, last);
    lemma_scan_types(t, mode, s, start, last);
}

/// Whether every symbol of `t` has `lanes` counters among `len`.
pub open spec fn has_counters(t: Seq<int>, lanes: int, len: int) -> bool {
    forall|i: int| 0 <= i < t.len() ==> 0 <= #[trigger] t[i] && lanes * t[i] + lanes <= len
}

/// Counting by four counts, for each symbol, the suffixes that start with it by their own type
/// and the type of the suffix in front.
pub proof fn law_counted_by_type(t: Seq<int>, len: nat, slot: int)
    requires
        1 <= t.len() <= i32::MAX,
        has_counters(t, 4, len as int),
        0 <= slot < len,
    ensures
        count_lms_suffixes_32s_4k_run(t, t.len() as int, len) is Some,
        count_lms_suffixes_32s_4k_run(t, t.len() as int, len).unwrap().1[slot] == slot_count(
            t, count_lms_suffixes_32s_4k_mode(), slot, 0, t.len() as int),
{
    let n = t.len() as int;
    let mode = count_lms_suffixes_32s_4k_mode();
    let s = (Seq::<i32>::empty(), zeros(len), 0isize, true);
    law_last_type(t);
    assert(t[0] >= 0);
    lemma_scan_defined(t, mode, s, -1, n - 1);
    lemma_scan_types(t, mode, s, -1, n - 1);
}

/// Counting by two counts, for each symbol, the leftmost suffixes of type S that start with it
/// apart from the others.
pub proof fn law_counted_apart(t: Seq<int>, len: nat, slot: int)
    requires
        1 <= t.len() <= i32::MAX,
        has_counters(t, 2, len as int),
        0 <= slot < len,
    ensures
        count_lms_suffixes_32s_2k_run(t, t.len() as int, len) is Some,
        count_lms_suffixes_32s_2k_run(t, t.len() as int, len).unwrap().1[slot] == slot_count(
            t, count_lms_suffixes_32s_2k_mode(), slot, 0, t.len() as int),
{
    let n = t.len() as int;
    let mode = count_lms_suffixes_32s_2k_mode();
    let s = (Seq::<i32>::empty(), zeros(len), 0isize, true);
    law_last_type(t);
    assert(t[0] >= 0);
    lemma_scan_defined(t, mode, s, -1, n - 1);
    lemma_scan_types(t, mode, s, -1, n - 1);
}

/// Counting and gathering a block does what counting and gathering do.
pub proof fn law_counted_and_gathered_8u(t: Seq<int>, sa: Seq<i32>, len: nat, start: int, size: int)
    requires
        t.len() <= i32::MAX,
        has_counters(t, 4, len as int),
        0 <= start,
        0 < size,
        start + size <= t.len(),
        start + size <= sa.len(),
    ensures
        count_and_gather_lms_suffixes_8u_run(t, sa, t.len() as int, len, start, size) is Some,
        ({
            let x = count_and_gather_lms_suffixes_8u_run(t, sa, t.len() as int, len, start, size)->0;
            &&& lists_lms(t, x.0, start, start + size, x.2 + 1, start + size)
            &&& forall|slot: int| 0 <= slot < len ==> #[trigger] x.1[slot] == slot_count(
                t, crate::gather::count_and_gather_lms_suffixes_8u_mode(), slot, start, start + size)
        }),
{
    let last = start + size - 1;
    let mode = crate::gather::count_and_gather_lms_suffixes_8u_mode();
    let s = (sa, zeros(len), last as isize, run_type(t, t.len() as int, last));
    assert(t[last] >= 0);
    lemma_run_type(t, last);
    assert(t[0] >= 0);
    lemma_scan_defined(t, mode, s, start - 1, last);
    lemma_scan_types(t, mode, s, start - 1, last);
}

/// Counting and gathering a block does what counting and gathering do.
pub proof fn law_counted_and_gathered_32s_4k(t: Seq<int>, sa: Seq<i32>, len: nat, start: int, size: int)
    requires
        t.len() <= i32::MAX,
        has_counters(t, 4, len as int),
        0 <= start,
        0 < size,
        start + size <= t.len(),
        start + size <= sa.len(),
    ensures
        count_and_gather_lms_suffixes_32s_4k_run(t, sa, t.len() as int, len, start, size) is Some,
        ({
            let x = count_and_gather_lms_suffixes_32s_4k_run(t, sa, t.len() as int, len, start, size)->0;
            &&& lists_lms(t, x.0, start, start + size, x.2 + 1, start + size)
            &&& forall|slot: int| 0 <= slot < len ==> #[trigger] x.1[slot] == slot_count(
                t, crate::gather::count_and_gather_lms_suffixes_32s_4k_mode(), slot, start, start + size)
        }),
{
    let last = start + size - 1;
    let mode = crate::gather::count_and_gather_lms_suffixes_32s_4k_mode();
    let s = (sa, zeros(len), last as isize, run_type(t, t.len() as int, last));
    assert(t[last] >= 0);
    lemma_run_type(t, last);
    assert(t[0] >= 0);
    lemma_scan_defined(t, mode, s, start - 1, last);
    lemma_scan_types(t, mode, s, start - 1, last);
}

/// Counting and gathering a block does what counting apart and gathering do.
pub proof fn law_counted_and_gathered_32s_2k(t: Seq<int>, sa: Seq<i32>, len: nat, start: int, size: int)
    requires
        t.len() <= i32::MAX,
        has_counters(t, 2, len as int),
        0 <= start,
        0 < size,
        start + size <= t.len(),
        start + size <= sa.len(),
    ensures
        count_and_gather_lms_suffixes_32s_2k_run(t, sa, t.len() as int, len, start, size) is Some,
        ({
            let x = count_and_gather_lms_suffixes_32s_2k_run(t, sa, t.len() as int, len, start, size)->0;
            &&& lists_lms(t, x.0, start, start + size, x.2 + 1, start + size)
            &&& forall|slot: int| 0 <= slot < len ==> #[trigger] x.1[slot] == slot_count(
                t, crate::gather::count_and_gather_lms_suffixes_32s_2k_mode(), slot, start, start + size)
        }),
{
    let last = start + size - 1;
    let mode = crate::gather::count_and_gather_lms_suffixes_32s_2k_mode();
    let s = (sa, zeros(len), last as isize, run_type(t, t.len() as int, last));
    assert(t[last] >= 0);
    lemma_run_type(t, last);
    assert(t[0] >= 0);
    lemma_scan_defined(t, mode, s, start - 1, last);
    lemma_scan_types(t, mode, s, start - 1, last);
}

/// The sum of the first `hi` counters.
pub open spec fn counter_total(b: Seq<i32>, hi: int) -> int
    decreases hi,
{
    if hi <= 0 {
        0
    } else {
        counter_total(b, hi - 1) + b[hi - 1]
    }
}

/// One more in a counter is one more in the sum.
proof fn lemma_counter_total_update(b: Seq<i32>, slot: int, v: i32, hi: int)
    requires
        0 <= hi <= b.len(),
        0 <= slot < b.len(),
    ensures
        counter_total(b.update(slot, v), hi) == counter_total(b, hi) + (if slot < hi { v - b[slot] } else { 0 }),
    decreases hi,
{
    if hi > 0 {
        lemma_counter_total_update(b, slot, v, hi - 1);
    }
}

/// A pass counts every suffix once.
pub proof fn law_counts_every_suffix(
    t: Seq<int>,
    mode: LmsMode,
    s: (Seq<i32>, Seq<i32>, isize, bool),
    lo: int,
    hi: int,
)
    requires
        lo <= hi,
        mode.lanes != 0,
        lms_scan_run(t, mode, s, lo, hi) is Some,
    ensures
        ({
            let x = lms_scan_run(t, mode, s, lo, hi)->0;
            &&& x.1.len() == s.1.len()
            &&& counter_total(x.1, x.1.len() as int) == counter_total(s.1, s.1.len() as int) + (hi - lo)
        }),
    decreases hi - lo,
{
    if lo < hi {
        law_counts_every_suffix(t, mode, s, lo + 1, hi);
        let y = lms_scan_run(t, mode, s, lo + 1, hi)->0;
        let g = symbol_before(t, mode, lo) > t[lo + 1] - bit(y.3);
        let slot = lms_slot(t[lo + 1], y.3, g, mode);
        lemma_counter_total_update(y.1, slot, (y.1[slot] + 1) as i32, y.1.len() as int);
    }
}

/// Two ascending lists of the same suffixes that end in the same slot are the same.
proof fn lemma_lists_agree(t: Seq<int>, a: Seq<i32>, b: Seq<i32>, lo: int, hi: int, a_from: int, b_from: int, to: int)
    requires
        lists_lms(t, a, lo, hi, a_from, to),
        lists_lms(t, b, lo, hi, b_from, to),
        a_from <= to,
        b_from <= to,
    ensures
        a_from == b_from,
        forall|p: int| a_from <= p < to ==> #[trigger] a[p] == b[p],
    decreases to - a_from,
{
    if a_from < to || b_from < to {
        if a_from < to {
            assert(is_lms(t, a[to - 1] as int));
            let k = choose|k: int| b_from <= k < to && #[trigger] b[k] == a[to - 1];
            assert(b[k] <= b[to - 1]);
        }
        assert(b_from < to);
        assert(is_lms(t, b[to - 1] as int));
        let l = choose|l: int| a_from <= l < to && #[trigger] a[l] == b[to - 1];
        assert(a[l] <= a[to - 1]);
        assert(a[to - 1] == b[to - 1]);
        let top = a[to - 1] as int;
        assert(lists_lms(t, a, lo, top, a_from, to - 1)) by {
            assert forall|p: int| lo <= p < top && #[trigger] is_lms(t, p) implies exists|k: int|
                a_from <= k < to - 1 && #[trigger] a[k] == p by {
                let k = choose|k: int| a_from <= k < to && #[trigger] a[k] == p;
                assert(k != to - 1);
            }
        }
        assert(lists_lms(t, b, lo, top, b_from, to - 1)) by {
            assert forall|p: int| lo <= p < top && #[trigger] is_lms(t, p) implies exists|k: int|
                b_from <= k < to - 1 && #[trigger] b[k] == p by {
                let k = choose|k: int| b_from <= k < to && #[trigger] b[k] == p;
                assert(k != to - 1);
            }
        }
        lemma_lists_agree(t, a, b, lo, top, a_from, b_from, to - 1);
    }
}

/// The suffixes with a counter do not depend on what else a pass does.
proof fn lemma_slot_count_alike(t: Seq<int>, a: LmsMode, b: LmsMode, slot: int, lo: int, hi: int)
    requires
        a.lanes == b.lanes,
        a.compact == b.compact,
    ensures
        slot_count(t, a, slot, lo, hi) == slot_count(t, b, slot, lo, hi),
    decreases hi - lo,
{
    if lo < hi {
        lemma_slot_count_alike(t, a, b, slot, lo + 1, hi);
    }
}

/// No suffix is counted before a pass.
proof fn lemma_zeros_total(len: nat, hi: int)
    requires
        hi <= len,
    ensures
        counter_total(zeros(len), hi) == 0,
    decreases hi,
{
    if hi > 0 {
        lemma_zeros_total(len, hi - 1);
    }
}

/// Counting by four and gathering in one pass gathers what a pass of its own gathers, whatever
/// the slots held before, and counts what a pass of its own counts; the counters add up to the
/// length of the text.
pub proof fn law_one_pass_suffices_4k(t: Seq<int>, sa: Seq<i32>, other: Seq<i32>, len: nat)
    requires
        1 <= t.len() <= i32::MAX,
        has_counters(t, 4, len as int),
        t.len() <= sa.len(),
        t.len() <= other.len(),
    ensures
        count_and_gather_lms_suffixes_32s_4k_run(t, sa, t.len() as int, len, 0, t.len() as int) is Some,
        gather_lms_suffixes_32s_run(t, other, t.len() as int) is Some,
        count_lms_suffixes_32s_4k_run(t, t.len() as int, len) is Some,
        ({
            let n = t.len() as int;
            let x = count_and_gather_lms_suffixes_32s_4k_run(t, sa, n, len, 0, n)->0;
            let y = gather_lms_suffixes_32s_run(t, other, n)->0;
            let z = count_lms_suffixes_32s_4k_run(t, n, len)->0;
            &&& x.2 == y.2
            &&& forall|p: int| x.2 < p < n ==> #[trigger] x.0[p] == y.0[p]
            &&& lists_lms(t, x.0, 0, n, x.2 + 1, n)
            &&& x.1 == z.1
            &&& counter_total(x.1, len as int) == n
        }),
{
    let n = t.len() as int;
    law_counted_and_gathered_32s_4k(t, sa, len, 0, n);
    law_gathered_lms(t, other);
    let x = count_and_gather_lms_suffixes_32s_4k_run(t, sa, n, len, 0, n)->0;
    let y = gather_lms_suffixes_32s_run(t, other, n)->0;
    let mode = crate::gather::count_and_gather_lms_suffixes_32s_4k_mode();
    let s = (sa, zeros(len), (n - 1) as isize, run_type(t, n, n - 1));
    lemma_scan_defined(t, mode, s, -1, n - 1);
    lemma_scan_defined(
        t, crate::gather::gather_lms_suffixes_32s_mode(), (other, Seq::<i32>::empty(), (n - 1) as isize, true), 0, n - 1);
    lemma_lists_agree(t, x.0, y.0, 0, n, x.2 + 1, y.2 + 1, n);
    law_counts_every_suffix(t, mode, s, -1, n - 1);
    lemma_zeros_total(len, len as int);
    let counting = (Seq::<i32>::empty(), zeros(len), 0isize, true);
    lemma_scan_defined(t, count_lms_suffixes_32s_4k_mode(), counting, -1, n - 1);
    let z = count_lms_suffixes_32s_4k_run(t, n, len)->0;
    assert forall|slot: int| 0 <= slot < len implies x.1[slot] == z.1[slot] by {
        law_counted_by_type(t, len, slot);
        lemma_slot_count_alike(t, mode, count_lms_suffixes_32s_4k_mode(), slot, 0, n);
    }
    assert(x.1 =~= z.1);
}

/// Counting by two and gathering in one pass gathers what a pass of its own gathers, whatever
/// the slots held before, and counts what a pass of its own counts; the counters add up to the
/// length of the text.
pub proof fn law_one_pass_suffices_2k(t: Seq<int>, sa: Seq<i32>, other: Seq<i32>, len: nat)
    requires
        1 <= t.len() <= i32::MAX,
        has_counters(t, 2, len as int),
        t.len() <= sa.len(),
        t.len() <= other.len(),
    ensures
        count_and_gather_lms_suffixes_32s_2k_run(t, sa, t.len() as int, len, 0, t.len() as int) is Some,
        gather_lms_suffixes_32s_run(t, other, t.len() as int) is Some,
        count_lms_suffixes_32s_2k_run(t, t.len() as int, len) is Some,
        ({
            let n = t.len() as int;
            let x = count_and_gather_lms_suffixes_32s_2k_run(t, sa, n, len, 0, n)->0;
            let y = gather_lms_suffixes_32s_run(t, other, n)->0;
            let z = count_lms_suffixes_32s_2k_run(t, n, len)->0;
            &&& x.2 == y.2
            &&& forall|p: int| x.2 < p < n ==> #[trigger] x.0[p] == y.0[p]
            &&& lists_lms(t, x.0, 0, n, x.2 + 1, n)
            &&& x.1 == z.1
            &&& counter_total(x.1, len as int) == n
        }),
{
    let n = t.len() as int;
    law_counted_and_gathered_32s_2k(t, sa, len, 0, n);
    law_gathered_lms(t, other);
    let x = count_and_gather_lms_suffixes_32s_2k_run(t, sa, n, len, 0, n)->0;
    let y = gather_lms_suffixes_32s_run(t, other, n)->0;
    let mode = crate::gather::count_and_gather_lms_suffixes_32s_2k_mode();
    let s = (sa, zeros(len), (n - 1) as isize, run_type(t, n, n - 1));
    lemma_scan_defined(t, mode, s, -1, n - 1);
    lemma_scan_defined(
        t, crate::gather::gather_lms_suffixes_32s_mode(), (other, Seq::<i32>::empty(), (n - 1) as isize, true), 0, n - 1);
    lemma_lists_agree(t, x.0, y.0, 0, n, x.2 + 1, y.2 + 1, n);
    law_counts_every_suffix(t, mode, s, -1, n - 1);
    lemma_zeros_total(len, len as int);
    let counting = (Seq::<i32>::empty(), zeros(len), 0isize, true);
    lemma_scan_defined(t, count_lms_suffixes_32s_2k_mode(), counting, -1, n - 1);
    let z = count_lms_suffixes_32s_2k_run(t, n, len)->0;
    assert forall|slot: int| 0 <= slot < len implies x.1[slot] == z.1[slot] by {
        law_counted_apart(t, len, slot);
        lemma_slot_count_alike(t, mode, count_lms_suffixes_32s_2k_mode(), slot, 0, n);
    }
    assert(x.1 =~= z.1);
}

} // verus!
