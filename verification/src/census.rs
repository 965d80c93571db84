//! What the counting passes count: how many positions, slots or rows there are of a kind.

use vstd::prelude::*;
use crate::bounds::symbol_count;
use crate::buckets::byte_count;
use crate::bytes::occurrences;
use crate::compact::unique_in;
use crate::counts::{
    strided_sum, sums_fit_2, sums_fit_3, sums_fit_4, sums_fit_5, sums_fit_6, sums_fit_7, sums_fit_8, sums_fit_9,
};
use crate::gather::{
    count_and_gather_lms_suffixes_32s_2k_mode, count_and_gather_lms_suffixes_32s_2k_run, count_and_gather_lms_suffixes_32s_4k_mode,
    count_and_gather_lms_suffixes_32s_4k_run,
    count_and_gather_lms_suffixes_8u_mode, count_and_gather_lms_suffixes_8u_run, count_lms_suffixes_32s_2k_mode,
    count_lms_suffixes_32s_2k_run, count_lms_suffixes_32s_4k_mode, count_lms_suffixes_32s_4k_run, lms_slot, run_type, text8, zeros, LmsMode,
};
use crate::gather_omp::{plain_2k_nofs_run, plain_4k_nofs_run};
use crate::kinds::{
    counter_total, has_counters, is_l, law_counted_and_gathered_8u, law_counted_apart, law_counted_by_type, law_gathered_lms, law_one_pass_suffices_2k, law_one_pass_suffices_4k, lemma_scan_defined, lists_lms, slot_count,
};
use crate::marks::bit;
use crate::order::suffix_less;
use crate::radix::{count_negative_marked_in, count_zero_marked_in};
use crate::renumber::half;
use crate::rows::row_count;
use crate::unbwt_tables::{histogram_added, histogram_fits, pair_count, pairs_counted, pairs_fit, started, starts};

verus! {

/// How many numbers from `lo` up to `hi` have a property.
spec fn among(p: spec_fn(int) -> bool, lo: int, hi: int) -> Set<int> {
    Set::new(|i: int| lo <= i < hi && p(i))
}

/// One more number at the end adds one where it has the property.
proof fn lemma_last(p: spec_fn(int) -> bool, lo: int, hi: int)
    ensures
        among(p, lo, hi).finite(),
        hi <= lo ==> among(p, lo, hi).len() == 0,
        lo < hi ==> among(p, lo, hi).len() == among(p, lo, hi - 1).len() + bit(p(hi - 1)),
    decreases hi - lo,
{
    if hi <= lo {
        assert(among(p, lo, hi) =~= Set::empty());
    } else {
        lemma_last(p, lo, hi - 1);
        if p(hi - 1) {
            assert(among(p, lo, hi) =~= among(p, lo, hi - 1).insert(hi - 1));
        } else {
            assert(among(p, lo, hi) =~= among(p, lo, hi - 1));
        }
    }
}

/// One more number at the front adds one where it has the property.
proof fn lemma_first(p: spec_fn(int) -> bool, lo: int, hi: int)
    requires
        lo < hi,
    ensures
        among(p, lo, hi).finite(),
        among(p, lo, hi).len() == among(p, lo + 1, hi).len() + bit(p(lo)),
{
    lemma_last(p, lo + 1, hi);
    if p(lo) {
        assert(among(p, lo, hi) =~= among(p, lo + 1, hi).insert(lo));
    } else {
        assert(among(p, lo, hi) =~= among(p, lo + 1, hi));
    }
}

/// Numbers with one of two properties that exclude each other.
proof fn lemma_either(p: spec_fn(int) -> bool, q: spec_fn(int) -> bool, r: spec_fn(int) -> bool, lo: int, hi: int)
    requires
        forall|i: int| lo <= i < hi ==> (#[trigger] r(i) <==> p(i) || q(i)),
        forall|i: int| lo <= i < hi ==> !(#[trigger] p(i) && q(i)),
    ensures
        among(r, lo, hi).len() == among(p, lo, hi).len() + among(q, lo, hi).len(),
    decreases hi - lo,
{
    lemma_last(p, lo, hi);
    lemma_last(q, lo, hi);
    lemma_last(r, lo, hi);
    if lo < hi {
        lemma_either(p, q, r, lo, hi - 1);
        assert(r(hi - 1) <==> p(hi - 1) || q(hi - 1));
        assert(!(p(hi - 1) && q(hi - 1)));
    }
}

/// The marked entries of a range are counted.
pub proof fn law_marked_entries_are(sa: Seq<i32>, lo: int, hi: int)
    ensures
        count_negative_marked_in(sa, lo, hi) == Set::new(|i: int| lo <= i < hi && sa[i] < 0).len(),
{
    let p = |i: int| sa[i] < 0;
    assert(Set::new(|i: int| lo <= i < hi && sa[i] < 0) =~= among(p, lo, hi));
    lemma_marked(sa, lo, hi);
}

/// Counting marked entries.
proof fn lemma_marked(sa: Seq<i32>, lo: int, hi: int)
    ensures
        count_negative_marked_in(sa, lo, hi) == among(|i: int| sa[i] < 0, lo, hi).len(),
    decreases hi - lo,
{
    lemma_last(|i: int| sa[i] < 0, lo, hi);
    if lo < hi {
        lemma_marked(sa, lo, hi - 1);
    }
}

/// The empty slots of a range are counted.
pub proof fn law_empty_slots_are(sa: Seq<i32>, lo: int, hi: int)
    ensures
        count_zero_marked_in(sa, lo, hi) == Set::new(|i: int| lo <= i < hi && sa[i] == 0).len(),
{
    let p = |i: int| sa[i] == 0;
    assert(Set::new(|i: int| lo <= i < hi && sa[i] == 0) =~= among(p, lo, hi));
    lemma_empty(sa, lo, hi);
}

/// Counting empty slots.
proof fn lemma_empty(sa: Seq<i32>, lo: int, hi: int)
    ensures
        count_zero_marked_in(sa, lo, hi) == among(|i: int| sa[i] == 0, lo, hi).len(),
    decreases hi - lo,
{
    lemma_last(|i: int| sa[i] == 0, lo, hi);
    if lo < hi {
        lemma_empty(sa, lo, hi - 1);
    }
}

/// The positions of a symbol are counted.
pub proof fn law_symbols_are(t: Seq<i32>, c: int, n: int)
    ensures
        symbol_count(t, c, n) == Set::new(|i: int| 0 <= i < n && t[i] == c).len(),
{
    let p = |i: int| t[i] == c;
    assert(Set::new(|i: int| 0 <= i < n && t[i] == c) =~= among(p, 0, n));
    lemma_symbols(t, c, n);
}

/// Counting a symbol.
proof fn lemma_symbols(t: Seq<i32>, c: int, n: int)
    ensures
        symbol_count(t, c, n) == among(|i: int| t[i] == c, 0, n).len(),
    decreases n,
{
    lemma_last(|i: int| t[i] == c, 0, n);
    if n > 0 {
        lemma_symbols(t, c, n - 1);
    }
}

/// Half of an entry is half of its bit pattern, read without a sign.
pub proof fn law_half(x: i32)
    ensures
        x >= 0 ==> 2 * half(x) <= x < 2 * half(x) + 2,
        x < 0 ==> 2 * half(x) <= x + 0x1_0000_0000 < 2 * half(x) + 2,
{
}

/// The sorted suffixes of a range whose names are marked are counted, where each selects a slot.
pub proof fn law_unique_are(sa: Seq<i32>, m: int, lo: int, hi: int)
    requires
        unique_in(sa, m, lo, hi) is Some,
    ensures
        unique_in(sa, m, lo, hi)->0 == Set::new(|i: int| lo <= i < hi && sa[m + half(sa[i])] < 0).len(),
{
    let p = |i: int| sa[m + half(sa[i])] < 0;
    assert(Set::new(|i: int| lo <= i < hi && sa[m + half(sa[i])] < 0) =~= among(p, lo, hi));
    lemma_unique(sa, m, lo, hi);
}

/// Counting marked names.
proof fn lemma_unique(sa: Seq<i32>, m: int, lo: int, hi: int)
    requires
        unique_in(sa, m, lo, hi) is Some,
    ensures
        unique_in(sa, m, lo, hi)->0 == among(|i: int| sa[m + half(sa[i])] < 0, lo, hi).len(),
    decreases hi - lo,
{
    lemma_last(|i: int| sa[m + half(sa[i])] < 0, lo, hi);
    if lo < hi {
        lemma_unique(sa, m, lo, hi - 1);
    }
}

/// A histogram is left with what it held and the number of positions of each byte; what is behind
/// its first 256 entries is kept.
pub proof fn law_histogram(count: Seq<u32>, t: Seq<u8>, n: int, c: u8)
    requires
        histogram_fits(count, t, n),
        count.len() >= 256,
    ensures
        histogram_added(count, t, n).len() == count.len(),
        histogram_added(count, t, n)[c as int] == count[c as int] + Set::new(|i: int| 0 <= i < n && t[i] == c).len(),
        forall|k: int| 256 <= k < count.len() ==> #[trigger] histogram_added(count, t, n)[k] == count[k],
{
    lemma_bytes(t, c as int, n);
    assert(Set::new(|i: int| 0 <= i < n && t[i] == c) =~= among(|i: int| t[i] == c as int, 0, n));
    assert(count[c as int] + occurrences(t, c as int, n) <= u32::MAX);
    lemma_last(|i: int| t[i] == c as int, 0, n);
}

/// Counting a byte.
proof fn lemma_bytes(t: Seq<u8>, c: int, n: int)
    ensures
        occurrences(t, c, n) == among(|i: int| t[i] == c, 0, n).len(),
    decreases n,
{
    lemma_last(|i: int| t[i] == c, 0, n);
    if n > 0 {
        lemma_bytes(t, c, n - 1);
    }
}

/// The suffixes with a counter are counted.
proof fn lemma_slots(t: Seq<int>, mode: LmsMode, slot: int, lo: int, hi: int)
    ensures
        slot_count(t, mode, slot, lo, hi) == among(
            |i: int| lms_slot(t[i], is_l(t, i), i > 0 && is_l(t, i - 1), mode) == slot, lo, hi).len(),
    decreases hi - lo,
{
    let p = |i: int| lms_slot(t[i], is_l(t, i), i > 0 && is_l(t, i - 1), mode) == slot;
    lemma_last(p, lo, hi);
    if lo < hi {
        lemma_first(p, lo, hi);
        lemma_slots(t, mode, slot, lo + 1, hi);
    }
}

/// With four counters for each symbol, the suffixes that start with a symbol are counted by
/// whether they come after the suffix behind them, and whether the suffix in front comes after
/// them.
pub proof fn law_suffixes_counted_by_type(t: Seq<int>, len: nat, c: int, f: bool, g: bool)
    requires
        1 <= t.len() <= i32::MAX,
        has_counters(t, 4, len as int),
        0 <= c,
        4 * c + 4 <= len,
    ensures
        count_lms_suffixes_32s_4k_run(t, t.len() as int, len) is Some,
        count_lms_suffixes_32s_4k_run(t, t.len() as int, len).unwrap().1[4 * c + (if f { 2int } else { 0 }) + (if g { 1int } else { 0 })]
            == Set::new(|i: int| 0 <= i < t.len() && t[i] == c && suffix_less(t, i + 1, i) == f && (i > 0
                && suffix_less(t, i, i - 1)) == g).len(),
{
    let slot = 4 * c + (if f { 2int } else { 0 }) + (if g { 1int } else { 0 });
    let mode = count_lms_suffixes_32s_4k_mode();
    let n = t.len() as int;
    law_counted_by_type(t, len, slot);
    lemma_slots(t, mode, slot, 0, n);
    let p = |i: int| lms_slot(t[i], is_l(t, i), i > 0 && is_l(t, i - 1), mode) == slot;
    assert(Set::new(|i: int| 0 <= i < t.len() && t[i] == c && suffix_less(t, i + 1, i) == f && (i > 0 && suffix_less(t, i, i - 1)) == g)
        =~= among(p, 0, n));
}

/// With two counters for each symbol, the suffixes that start with a symbol and are lower than
/// both neighbours in the text are counted apart from the others.
pub proof fn law_suffixes_counted_apart(t: Seq<int>, len: nat, c: int, lms: bool)
    requires
        1 <= t.len() <= i32::MAX,
        has_counters(t, 2, len as int),
        0 <= c,
        2 * c + 2 <= len,
    ensures
        count_lms_suffixes_32s_2k_run(t, t.len() as int, len) is Some,
        count_lms_suffixes_32s_2k_run(t, t.len() as int, len).unwrap().1[2 * c + (if lms { 1int } else { 0 })]
            == Set::new(|i: int| 0 <= i < t.len() && t[i] == c && (i > 0 && suffix_less(t, i, i - 1) && !suffix_less(t, i + 1, i))
                == lms).len(),
{
    let slot = 2 * c + (if lms { 1int } else { 0 });
    let mode = count_lms_suffixes_32s_2k_mode();
    let n = t.len() as int;
    law_counted_apart(t, len, slot);
    lemma_slots(t, mode, slot, 0, n);
    let p = |i: int| lms_slot(t[i], is_l(t, i), i > 0 && is_l(t, i - 1), mode) == slot;
    assert(Set::new(|i: int| 0 <= i < t.len() && t[i] == c && (i > 0 && suffix_less(t, i, i - 1) && !suffix_less(t, i + 1, i)) == lms)
        =~= among(p, 0, n));
}

/// The four counters of a byte that a pass over a text leaves add up to the number of positions
/// that hold it: this is what a table of frequencies is filled with.
pub proof fn law_byte_counters(t: Seq<u8>, sa: Seq<i32>, len: nat, c: u8)
    requires
        1 <= t.len() <= i32::MAX,
        t.len() <= sa.len(),
        1024 <= len,
    ensures
        count_and_gather_lms_suffixes_8u_run(text8(t), sa, t.len() as int, len, 0, t.len() as int) is Some,
        byte_count(count_and_gather_lms_suffixes_8u_run(text8(t), sa, t.len() as int, len, 0, t.len() as int).unwrap().1, c as int)
            == Set::new(|i: int| 0 <= i < t.len() && t[i] == c).len(),
{
    let x = text8(t);
    let n = t.len() as int;
    let mode = count_and_gather_lms_suffixes_8u_mode();
    assert(x.len() == n);
    assert(has_counters(x, 4, len as int)) by {
        assert forall|i: int| 0 <= i < x.len() implies 0 <= #[trigger] x[i] && 4 * x[i] + 4 <= len by {
            assert(x[i] == t[i]);
        }
    }
    law_counted_and_gathered_8u(x, sa, len, 0, n);
    let b = count_and_gather_lms_suffixes_8u_run(x, sa, n, len, 0, n).unwrap().1;
    let q = |s: int| (|i: int| lms_slot(x[i], is_l(x, i), i > 0 && is_l(x, i - 1), mode) == s);
    let s = 4 * c;
    lemma_slots(x, mode, s, 0, n);
    lemma_slots(x, mode, s + 1, 0, n);
    lemma_slots(x, mode, s + 2, 0, n);
    lemma_slots(x, mode, s + 3, 0, n);
    let q0 = |i: int| lms_slot(x[i], is_l(x, i), i > 0 && is_l(x, i - 1), mode) == s;
    let q1 = |i: int| lms_slot(x[i], is_l(x, i), i > 0 && is_l(x, i - 1), mode) == s + 1;
    let q2 = |i: int| lms_slot(x[i], is_l(x, i), i > 0 && is_l(x, i - 1), mode) == s + 2;
    let q3 = |i: int| lms_slot(x[i], is_l(x, i), i > 0 && is_l(x, i - 1), mode) == s + 3;
    let low = |i: int| q0(i) || q1(i);
    let high = |i: int| q2(i) || q3(i);
    let all = |i: int| t[i] == c;
    lemma_either(q0, q1, low, 0, n);
    lemma_either(q2, q3, high, 0, n);
    assert forall|i: int| 0 <= i < n implies (#[trigger] all(i) <==> low(i) || high(i)) by {
        assert(x[i] == t[i]);
    }
    lemma_either(low, high, all, 0, n);
    assert(Set::new(|i: int| 0 <= i < t.len() && t[i] == c) =~= among(all, 0, n));
    assert(b[s] == among(q0, 0, n).len());
    assert(b[s + 1] == among(q1, 0, n).len());
    assert(b[s + 2] == among(q2, 0, n).len());
    assert(b[s + 3] == among(q3, 0, n).len());
}

/// Counters are added up.
pub proof fn law_counters_add_up(b: Seq<i32>, hi: int)
    requires
        0 <= hi <= b.len(),
    ensures
        counter_total(b, hi) == b.take(hi).fold_left(0, |sum: int, x: i32| sum + x),
    decreases hi,
{
    if hi > 0 {
        law_counters_add_up(b, hi - 1);
        assert(b.take(hi).drop_last() =~= b.take(hi - 1));
    }
}

/// The first row of each byte is one behind all rows of lower bytes, where `b1` holds the counts.
pub proof fn law_starts_add_up(b1: Seq<u32>, c: int)
    requires
        0 <= c <= b1.len(),
    ensures
        starts(b1, c) == b1.take(c).fold_left(1, |sum: int, x: u32| sum + x),
        c < 256 && starts(b1, c) <= u32::MAX && c < b1.len() ==> started(b1)[c] == starts(b1, c),
        started(b1).len() == b1.len(),
        forall|k: int| 256 <= k < b1.len() ==> #[trigger] started(b1)[k] == b1[k],
    decreases c,
{
    lemma_starts_positive(b1, c);
    if c > 0 {
        law_starts_add_up(b1, c - 1);
        assert(b1.take(c).drop_last() =~= b1.take(c - 1));
    }
}

/// Rows start behind the first.
proof fn lemma_starts_positive(b1: Seq<u32>, c: int)
    ensures
        starts(b1, c) >= 1,
    decreases c,
{
    if c > 0 {
        lemma_starts_positive(b1, c - 1);
    }
}

/// The counts of workers that stand `stride` slots apart are added up.
pub proof fn law_strides_add_up(b: Seq<i32>, x: int, stride: int, num: int)
    requires
        0 <= num,
    ensures
        strided_sum(b, x, stride, num) == Seq::new(num as nat, |j: int| b[x - j * stride]).fold_left(0, |sum: int, y: i32| sum + y),
    decreases num,
{
    let s = Seq::new(num as nat, |j: int| b[x - j * stride]);
    if num > 0 {
        law_strides_add_up(b, x, stride, num - 1);
        assert(s.drop_last() =~= Seq::new((num - 1) as nat, |j: int| b[x - j * stride]));
    }
}

/// The rows of a range with a byte in front of them are counted; the row of the whole text has
/// none, and the bytes of the rows behind it stand one place earlier.
pub proof fn law_rows_are(t: Seq<u8>, index: int, c: int, lo: int, hi: int)
    ensures
        row_count(t, index, c, lo, hi) == Set::new(
            |r: int| lo <= r < hi && r != index && t[if r < index { r } else { r - 1 }] == c).len(),
{
    let p = |r: int| r != index && t[if r < index { r } else { r - 1 }] == c;
    assert(Set::new(|r: int| lo <= r < hi && r != index && t[if r < index { r } else { r - 1 }] == c) =~= among(p, lo, hi));
    lemma_rows(t, index, c, lo, hi);
}

/// Counting rows.
proof fn lemma_rows(t: Seq<u8>, index: int, c: int, lo: int, hi: int)
    ensures
        row_count(t, index, c, lo, hi) == among(|r: int| r != index && t[if r < index { r } else { r - 1 }] == c, lo, hi).len(),
    decreases hi - lo,
{
    lemma_last(|r: int| r != index && t[if r < index { r } else { r - 1 }] == c, lo, hi);
    if lo < hi {
        lemma_rows(t, index, c, lo, hi - 1);
    }
}

/// Counting pairs adds to the entry of each pair the number of rows of its first byte that have
/// its second byte in front of them.
pub proof fn law_pairs_are(t: Seq<u8>, b1: Seq<u32>, b2: Seq<u32>, index: int, a: int, b: int)
    requires
        pairs_fit(t, b1, b2, index),
        b2.len() >= 65536,
        0 <= a < 256,
        0 <= b < 256,
    ensures
        pairs_counted(t, b1, b2, index).len() == b2.len(),
        pairs_counted(t, b1, b2, index)[256 * a + b] == b2[256 * a + b] + Set::new(
            |r: int| starts(b1, a) <= r < starts(b1, a + 1) && r != index && t[if r < index { r } else { r - 1 }] == b).len(),
        forall|k: int| 65536 <= k < b2.len() ==> #[trigger] pairs_counted(t, b1, b2, index)[k] == b2[k],
{
    let w = 256 * a + b;
    assert(w / 256 == a && w % 256 == b);
    law_rows_are(t, index, b, starts(b1, a), starts(b1, a + 1));
    assert(b2[w] + pair_count(t, b1, index, w) <= u32::MAX);
}

/// Counting by four and gathering counts and gathers the same with any number of workers: the
/// counters add up to the length of the text, and the leftmost S suffixes stand in ascending order
/// at the end of the slots.
pub proof fn law_gathered_by_any_4k(t: Seq<int>, sa: Seq<i32>, len: nat, threads: int, other: int)
    requires
        1 <= t.len() <= i32::MAX,
        has_counters(t, 4, len as int),
        t.len() <= sa.len(),
    ensures
        ({
            let n = t.len() as int;
            let x = plain_4k_nofs_run(t, sa, n, len, threads);
            let y = plain_4k_nofs_run(t, sa, n, len, other);
            &&& x is Some
            &&& y is Some
            &&& x.unwrap().1 == y.unwrap().1
            &&& x.unwrap().2 == y.unwrap().2
            &&& 0 <= x.unwrap().2 <= n
            &&& forall|p: int| n - x.unwrap().2 <= p < n ==> #[trigger] x.unwrap().0[p] == y.unwrap().0[p]
            &&& lists_lms(t, x.unwrap().0, 0, n, n - x.unwrap().2, n)
            &&& x.unwrap().1.len() == len
            &&& x.unwrap().1.fold_left(0, |sum: int, c: i32| sum + c) == n
        }),
{
    let n = t.len() as int;
    law_one_pass_suffices_4k(t, sa, sa, len);
    law_gathered_lms(t, sa);
    let s = (sa, zeros(len), (n - 1) as isize, run_type(t, n, n - 1));
    lemma_scan_defined(t, count_and_gather_lms_suffixes_32s_4k_mode(), s, -1, n - 1);
    assert(count_and_gather_lms_suffixes_32s_4k_run(t, sa, n, len, 0, n) is Some);
    let x = plain_4k_nofs_run(t, sa, n, len, threads).unwrap();
    law_counters_add_up(x.1, len as int);
    assert(x.1.take(len as int) =~= x.1);
}

/// Counting by two and gathering counts and gathers the same with any number of workers: the
/// counters add up to the length of the text, and the leftmost S suffixes stand in ascending order
/// at the end of the slots.
pub proof fn law_gathered_by_any_2k(t: Seq<int>, sa: Seq<i32>, len: nat, threads: int, other: int)
    requires
        1 <= t.len() <= i32::MAX,
        has_counters(t, 2, len as int),
        t.len() <= sa.len(),
    ensures
        ({
            let n = t.len() as int;
            let x = plain_2k_nofs_run(t, sa, n, len, threads);
            let y = plain_2k_nofs_run(t, sa, n, len, other);
            &&& x is Some
            &&& y is Some
            &&& x.unwrap().1 == y.unwrap().1
            &&& x.unwrap().2 == y.unwrap().2
            &&& 0 <= x.unwrap().2 <= n
            &&& forall|p: int| n - x.unwrap().2 <= p < n ==> #[trigger] x.unwrap().0[p] == y.unwrap().0[p]
            &&& lists_lms(t, x.unwrap().0, 0, n, n - x.unwrap().2, n)
            &&& x.unwrap().1.len() == len
            &&& x.unwrap().1.fold_left(0, |sum: int, c: i32| sum + c) == n
        }),
{
    let n = t.len() as int;
    law_one_pass_suffices_2k(t, sa, sa, len);
    law_gathered_lms(t, sa);
    let s = (sa, zeros(len), (n - 1) as isize, run_type(t, n, n - 1));
    lemma_scan_defined(t, count_and_gather_lms_suffixes_32s_2k_mode(), s, -1, n - 1);
    assert(count_and_gather_lms_suffixes_32s_2k_run(t, sa, n, len, 0, n) is Some);
    let x = plain_2k_nofs_run(t, sa, n, len, threads).unwrap();
    law_counters_add_up(x.1, len as int);
    assert(x.1.take(len as int) =~= x.1);
}

/// Counts can be added up wherever their sum is an entry.
pub proof fn law_counts_fit(a: i32, b: i32, c: i32, d: i32, e: i32, f: i32, g: i32, h: i32, i: i32)
    requires
        0 <= a && 0 <= b && 0 <= c && 0 <= d && 0 <= e && 0 <= f && 0 <= g && 0 <= h && 0 <= i,
    ensures
        sums_fit_2(a, b) <==> a + b < 0x8000_0000,
        sums_fit_3(a, b, c) <==> a + b + c < 0x8000_0000,
        sums_fit_4(a, b, c, d) <==> a + b + c + d < 0x8000_0000,
        sums_fit_5(a, b, c, d, e) <==> a + b + c + d + e < 0x8000_0000,
        sums_fit_6(a, b, c, d, e, f) <==> a + b + c + d + e + f < 0x8000_0000,
        sums_fit_7(a, b, c, d, e, f, g) <==> a + b + c + d + e + f + g < 0x8000_0000,
        sums_fit_8(a, b, c, d, e, f, g, h) <==> a + b + c + d + e + f + g + h < 0x8000_0000,
        sums_fit_9(a, b, c, d, e, f, g, h, i) <==> a + b + c + d + e + f + g + h + i < 0x8000_0000,
{
}

} // verus!
