//! Sorting the leftmost suffixes of type S but the first by their first symbols, with two buckets
//! for each symbol.

use vstd::prelude::*;
use crate::bounds::{count_below, counted, lemma_count_below_bound, lemma_counted, lemma_lanes_sum};
use crate::buckets::{
    first_lms_moved, initialize_buckets_for_lms_suffixes_radix_sort_32s_2k_run, radix_slot_32s_2k_run, radix_slot_32s_2k_step,
};
use crate::gather::{text32, LmsMode};
use crate::induction::symbols_below;
use crate::kinds::{counter_total, is_lms, slot_count};
use crate::lengths::{lemma_tally_bound, tally};
use crate::marks::bit;
use crate::partial_induction::{first_lms, later_lms};
use crate::placement::{among, lemma_among, lemma_found};
use crate::radix::{radix_sort_lms_suffixes_32s_2k_run, radix_sort_lms_suffixes_32s_2k_step};
use crate::recount::{
    below_of, every_lms, lemma_below_step, lemma_list_tally, lemma_lms_slot_count, lemma_tally_full, lemma_tally_less,
    lists_base, with_smaller, with_symbol,
};
use crate::types::PlaceState;

verus! {

/// The leftmost suffixes of type S but the first, at `f`.
pub open spec fn all_later(x: Seq<int>, f: int) -> spec_fn(int) -> bool {
    |p: int| later_lms(x, f, p)
}

/// The first leftmost suffix of type S is one of those that start with its symbol.
proof fn lemma_later_count(x: Seq<int>, f: int, c: int, lo: int)
    requires
        first_lms(x, f),
        0 <= lo <= x.len(),
    ensures
        tally(with_symbol(x, every_lms(x), c), lo, x.len() as int) == tally(with_symbol(x, all_later(x, f), c), lo, x.len() as int)
            + bit(lo <= f && x[f] == c),
    decreases x.len() - lo,
{
    if lo < x.len() {
        lemma_later_count(x, f, c, lo + 1);
        let a = with_symbol(x, every_lms(x), c);
        let b = with_symbol(x, all_later(x, f), c);
        if is_lms(x, lo) {
            assert(f <= lo);
        }
        assert(a(lo) == (b(lo) || lo == f && x[f] == c));
    }
}

/// The state of the buckets when the symbols below `hi` have been treated.
spec fn bounded_at(t: Seq<i32>, f: int, b1: Seq<i32>, st: (Seq<i32>, i32, i32), hi: int) -> bool {
    let x = text32(t);
    let n = t.len() as int;
    let below = below_of(x, all_later(x, f));
    let (cur, sum0, sum1) = st;
    &&& cur.len() == b1.len()
    &&& sum0 == count_below(t, hi, n)
    &&& sum1 == below(hi)
    &&& forall|d: int| 0 <= d < hi ==> cur[#[trigger] (2 * d)] == count_below(t, d + 1, n)
    &&& forall|d: int| 0 <= d < hi ==> cur[#[trigger] (2 * d + 1)] == below(d + 1)
    &&& forall|j: int| 2 * hi <= j < b1.len() ==> #[trigger] cur[j] == b1[j]
}

/// What the counters say of one symbol once the first suffix has been moved.
pub proof fn lemma_moved_counts(t: Seq<i32>, k: int, mode: LmsMode, b: Seq<i32>, f: int, c: int)
    requires
        1 <= t.len() <= i32::MAX,
        symbols_below(t, k),
        2 * k <= b.len(),
        !mode.compact,
        mode.lanes == 2,
        counted(t, mode, k, b),
        first_lms(text32(t), f),
        0 <= c < k,
    ensures
        first_lms_moved(b, t[f] as int) is Some,
        ({
            let n = t.len() as int;
            let b1 = first_lms_moved(b, t[f] as int)->0;
            let below = below_of(text32(t), all_later(text32(t), f));
            &&& b1.len() == b.len()
            &&& b1[2 * c] + b1[2 * c + 1] == count_below(t, c + 1, n) - count_below(t, c, n)
            &&& b1[2 * c + 1] == below(c + 1) - below(c)
        }),
{
    let x = text32(t);
    let n = t.len() as int;
    let later = all_later(x, f);
    let g = t[f] as int;
    assert(is_lms(x, f));
    assert(0 <= t[f] < k);
    lemma_counted(t, mode, k, b);
    lemma_count_below_bound(t, k, n);
    lemma_lms_slot_count(x, mode, g, 0);
    lemma_later_count(x, f, g, 0);
    lemma_tally_bound(with_symbol(x, later, g), 0, n);
    assert(b[2 * g + 1] == slot_count(x, mode, 2 * g + 1, 0, n));
    lemma_lanes_sum(t, mode, b, k, g);
    lemma_lanes_sum(t, mode, b, k, g + 1);
    lemma_count_below_bound(t, g, n);
    lemma_count_below_bound(t, g + 1, n);
    reveal_with_fuel(counter_total, 3);
    assert(b[2 * g] + b[2 * g + 1] <= n);
    assert(first_lms_moved(b, g) is Some);
    lemma_lms_slot_count(x, mode, c, 0);
    lemma_later_count(x, f, c, 0);
    lemma_below_step(x, later, c, 0);
    assert(b[2 * c + 1] == slot_count(x, mode, 2 * c + 1, 0, n));
    lemma_lanes_sum(t, mode, b, k, c);
    lemma_lanes_sum(t, mode, b, k, c + 1);
}

/// The counts below lie between nothing and all.
pub proof fn lemma_below_bound(x: Seq<int>, base: spec_fn(int) -> bool, c: int)
    ensures
        0 <= below_of(x, base)(c) <= tally(base, 0, x.len() as int) <= x.len(),
{
    lemma_tally_bound(with_smaller(x, base, c), 0, x.len() as int);
    lemma_tally_bound(base, 0, x.len() as int);
    lemma_tally_less(with_smaller(x, base, c), base, 0, x.len() as int);
}

/// Nothing starts with a symbol below the smallest.
pub proof fn lemma_below_zero(x: Seq<int>, base: spec_fn(int) -> bool, lo: int)
    requires
        0 <= lo <= x.len(),
        forall|p: int| 0 <= p < x.len() ==> 0 <= #[trigger] x[p],
    ensures
        tally(with_smaller(x, base, 0), lo, x.len() as int) == 0,
    decreases x.len() - lo,
{
    if lo < x.len() {
        lemma_below_zero(x, base, lo + 1);
        assert(0 <= x[lo]);
    }
}

/// The buckets are set from symbol to symbol.
proof fn lemma_bounded_run(t: Seq<i32>, k: int, mode: LmsMode, b: Seq<i32>, f: int, hi: int)
    requires
        1 <= t.len() <= i32::MAX,
        symbols_below(t, k),
        2 * k <= b.len(),
        !mode.compact,
        mode.lanes == 2,
        counted(t, mode, k, b),
        first_lms(text32(t), f),
        0 <= hi <= k,
    ensures
        ({
            let b1 = first_lms_moved(b, t[f] as int)->0;
            let st = radix_slot_32s_2k_run(k, (b1, 0, 0), 0, hi);
            st is Some && bounded_at(t, f, b1, st->0, hi)
        }),
    decreases hi,
{
    let x = text32(t);
    let n = t.len() as int;
    let later = all_later(x, f);
    let b1 = first_lms_moved(b, t[f] as int)->0;
    assert forall|p: int| 0 <= p < x.len() implies 0 <= #[trigger] x[p] by {
        assert(0 <= t[p]);
    }
    if hi > 0 {
        let i = hi - 1;
        lemma_bounded_run(t, k, mode, b, f, i);
        lemma_moved_counts(t, k, mode, b, f, i);
        let st = radix_slot_32s_2k_run(k, (b1, 0, 0), 0, i)->0;
        lemma_count_below_bound(t, i, n);
        lemma_count_below_bound(t, hi, n);
        lemma_below_bound(x, later, i);
        lemma_below_bound(x, later, hi);
        assert(st.0[2 * i] == b1[2 * i] && st.0[2 * i + 1] == b1[2 * i + 1]);
        let nx = radix_slot_32s_2k_run(k, (b1, 0, 0), 0, hi);
        assert(nx == radix_slot_32s_2k_step(k)(st, i));
        let total = count_below(t, hi, n) as i32;
        let later_total = below_of(x, later)(hi) as i32;
        assert(nx == Some((st.0.update(2 * i, total).update(2 * i + 1, later_total), total, later_total)));
        let cur = nx.unwrap().0;
        assert forall|d: int| 0 <= d < hi implies cur[#[trigger] (2 * d)] == count_below(t, d + 1, n) by {
            assert(d < i ==> st.0[2 * d] == count_below(t, d + 1, n));
        }
        assert forall|d: int| 0 <= d < hi implies cur[#[trigger] (2 * d + 1)] == below_of(x, later)(d + 1) by {
            assert(d < i ==> st.0[2 * d + 1] == below_of(x, later)(d + 1));
        }
    } else {
        lemma_below_zero(x, later, 0);
        crate::bounds::lemma_count_below_zero(t, n);
    }
}

/// Setting the buckets leaves the ends of all, and behind each the number of the later suffixes up
/// to its symbol.
pub proof fn lemma_bounded(t: Seq<i32>, k: int, mode: LmsMode, b: Seq<i32>, f: int)
    requires
        1 <= t.len() <= i32::MAX,
        symbols_below(t, k),
        2 * k <= b.len(),
        !mode.compact,
        mode.lanes == 2,
        counted(t, mode, k, b),
        first_lms(text32(t), f),
    ensures
        initialize_buckets_for_lms_suffixes_radix_sort_32s_2k_run(t, k, b, f) is Some,
        ({
            let y = initialize_buckets_for_lms_suffixes_radix_sort_32s_2k_run(t, k, b, f).unwrap().0;
            let below = below_of(text32(t), all_later(text32(t), f));
            &&& y.len() == b.len()
            &&& forall|d: int| 0 <= d < k ==> y[#[trigger] (2 * d)] == count_below(t, d + 1, t.len() as int)
            &&& forall|d: int| 0 <= d < k ==> y[#[trigger] (2 * d + 1)] == below(d + 1)
        }),
{
    assert(is_lms(text32(t), f));
    assert(0 <= t[f] < k);
    lemma_moved_counts(t, k, mode, b, f, t[f] as int);
    lemma_bounded_run(t, k, mode, b, f, k);
}

/// How many of the slots from `i` up to `n` hold a suffix that starts with `c`.
spec fn slots_with(t: Seq<i32>, s: Seq<i32>, c: int) -> spec_fn(int) -> bool {
    |j: int| t[s[j] as int] == c
}

/// What the sorting by first symbols starts from: `s` lists the suffixes of `base` from slot
/// `from` on, and `b` holds, at every other slot, where the suffixes of each symbol are to end.
pub open spec fn radix_ready(
    t: Seq<i32>,
    base: spec_fn(int) -> bool,
    s: Seq<i32>,
    b: Seq<i32>,
    k: int,
    from: int,
    top: spec_fn(int) -> int,
) -> bool {
    let n = t.len() as int;
    &&& 1 <= n <= i32::MAX
    &&& n <= s.len()
    &&& symbols_below(t, k)
    &&& 0 <= from <= n
    &&& 2 * k <= b.len() + 1
    &&& forall|j: int| from <= j < n ==> 0 <= #[trigger] s[j] < n && base(s[j] as int)
    &&& forall|i: int, j: int| from <= i < j < n ==> #[trigger] s[i] != #[trigger] s[j]
    &&& forall|p: int| 0 <= p < n && #[trigger] base(p) ==> among(s, from, n, p as i32)
    &&& forall|c: int| 0 <= c < k ==> #[trigger] even(b, c) == top(c)
    &&& forall|c: int| 0 <= c < k ==> size_of_symbol(t, base, c) <= #[trigger] top(c) <= from
    &&& forall|c: int, d: int| #![trigger top(c), top(d)] 0 <= c < d < k ==> top(c) <= top(d) - size_of_symbol(t, base, d)
}

/// How many of `base` start with `c`.
pub open spec fn size_of_symbol(t: Seq<i32>, base: spec_fn(int) -> bool, c: int) -> int {
    tally(with_symbol(text32(t), base, c), 0, t.len() as int)
}

/// The entry for symbol `c` of a table with two entries for each symbol.
pub open spec fn even(e: Seq<i32>, c: int) -> i32 {
    e[2 * c]
}

/// Whether slot `j` among those of `c` has been taken.
spec fn taken(top: spec_fn(int) -> int, k: int, e: Seq<i32>, c: int, j: int) -> bool {
    0 <= c < k && even(e, c) <= j < top(c)
}

/// The state of the sorting by first symbols when the slots from `i` on have been treated.
spec fn radix_list_at(
    t: Seq<i32>,
    base: spec_fn(int) -> bool,
    s: Seq<i32>,
    b: Seq<i32>,
    k: int,
    from: int,
    top: spec_fn(int) -> int,
    st: PlaceState,
    i: int,
) -> bool {
    let n = t.len() as int;
    let (cur, e) = st;
    &&& cur.len() == s.len()
    &&& e.len() == b.len()
    &&& forall|j: int| from <= j < s.len() ==> #[trigger] cur[j] == s[j]
    &&& forall|c: int| 0 <= c < k ==> #[trigger] even(e, c) == top(c) - tally(slots_with(t, s, c), i, n)
    &&& forall|j: int| 0 <= j < b.len() && j % 2 == 1 ==> #[trigger] e[j] == b[j]
    &&& forall|j: int| 2 * k <= j < b.len() ==> #[trigger] e[j] == b[j]
    &&& forall|c: int, j: int| #[trigger] taken(top, k, e, c, j) ==> among(s, i, n, cur[j]) && t[cur[j] as int] == c
    &&& forall|c: int, j: int, l: int| #[trigger] taken(top, k, e, c, j) && #[trigger] taken(top, k, e, c, l) && j < l ==> cur[j]
        != cur[l]
    &&& forall|j: int| i <= j < n ==> listed_at(top, cur, e, t[#[trigger] s[j] as int] as int, s[j])
}

/// Whether suffix `v` stands in the bucket of `c`.
spec fn listed_at(top: spec_fn(int) -> int, cur: Seq<i32>, e: Seq<i32>, c: int, v: i32) -> bool {
    among(cur, even(e, c) as int, top(c), v)
}

/// The suffixes that start with one symbol have room in their bucket.
proof fn lemma_list_room(
    t: Seq<i32>,
    base: spec_fn(int) -> bool,
    s: Seq<i32>,
    b: Seq<i32>,
    k: int,
    from: int,
    top: spec_fn(int) -> int,
    c: int,
    i: int,
)
    requires
        radix_ready(t, base, s, b, k, from, top),
        0 <= c < k,
        from <= i <= t.len(),
    ensures
        ({
            let n = t.len() as int;
            &&& 0 <= tally(slots_with(t, s, c), i, n) <= tally(slots_with(t, s, c), from, n)
            &&& tally(slots_with(t, s, c), from, n) == size_of_symbol(t, base, c)
            &&& size_of_symbol(t, base, c) <= top(c) <= from
        }),
{
    let x = text32(t);
    let n = t.len() as int;
    let sel = with_symbol(x, base, c);
    let at = |j: int| sel(s[j] as int);
    lemma_list_tally(s, from, n, n, sel);
    lemma_tally_bound(sel, 0, n);
    lemma_tally_bound(slots_with(t, s, c), i, n);
    assert forall|j: int| from <= j < n && #[trigger] at(j) implies slots_with(t, s, c)(j) by {
        assert(0 <= s[j] < n);
    }
    assert forall|j: int| from <= j < n && #[trigger] slots_with(t, s, c)(j) implies at(j) by {
        assert(0 <= s[j] < n && base(s[j] as int));
    }
    lemma_tally_less(at, slots_with(t, s, c), from, n);
    lemma_tally_less(slots_with(t, s, c), at, from, n);
    lemma_tally_part(slots_with(t, s, c), from, i, n);
}

/// A part counts no more than the whole.
proof fn lemma_tally_part(sel: spec_fn(int) -> bool, lo: int, i: int, hi: int)
    requires
        lo <= i <= hi,
    ensures
        tally(sel, i, hi) <= tally(sel, lo, hi),
    decreases i - lo,
{
    if lo < i {
        lemma_tally_part(sel, lo + 1, i, hi);
    }
}

/// Buckets of smaller symbols end where those of greater ones begin.
pub proof fn lemma_below_grows(x: Seq<int>, base: spec_fn(int) -> bool, c: int, d: int)
    requires
        c <= d,
    ensures
        below_of(x, base)(c) <= below_of(x, base)(d),
{
    lemma_tally_less(with_smaller(x, base, c), with_smaller(x, base, d), 0, x.len() as int);
}

/// What treating one more slot does.
proof fn lemma_radix_list_does(t: Seq<i32>, base: spec_fn(int) -> bool, s: Seq<i32>, b: Seq<i32>, k: int, from: int, top: spec_fn(int) -> int, st: PlaceState, i: int)
    requires
        radix_ready(t, base, s, b, k, from, top),
        from <= i < t.len(),
        radix_list_at(t, base, s, b, k, from, top, st, i + 1),
    ensures
        ({
            let c = t[s[i] as int] as int;
            let y = even(st.1, c) - 1;
            &&& 0 <= c < k
            &&& 0 <= s[i] < t.len()
            &&& top(c) - size_of_symbol(t, base, c) <= y < top(c)
            &&& 0 <= y < from
            &&& radix_sort_lms_suffixes_32s_2k_step(t)(st, i) == Some((st.0.update(y, s[i]), st.1.update(2 * c, y as i32)))
            &&& tally(slots_with(t, s, c), i, t.len() as int) == tally(slots_with(t, s, c), i + 1, t.len() as int) + 1
            &&& forall|d: int| d != c ==> #[trigger] tally(slots_with(t, s, d), i, t.len() as int) == tally(
                slots_with(t, s, d),
                i + 1,
                t.len() as int,
            )
        }),
{
    let n = t.len() as int;
    let (cur, e) = st;
    let p = s[i];
    assert(cur[i] == p);
    assert(0 <= p < n);
    let c = t[p as int] as int;
    assert(0 <= t[p as int] < k);
    assert(slots_with(t, s, c)(i));
    lemma_list_room(t, base, s, b, k, from, top, c, i);
    assert(tally(slots_with(t, s, c), i, n) == tally(slots_with(t, s, c), i + 1, n) + 1);
    assert(even(e, c) == top(c) - tally(slots_with(t, s, c), i + 1, n));
    lemma_tally_bound(slots_with(t, s, c), i + 1, n);
    assert forall|d: int| d != c implies #[trigger] tally(slots_with(t, s, d), i, n) == tally(slots_with(t, s, d), i + 1, n) by {
        assert(!slots_with(t, s, d)(i));
    }
}

/// Treating one more slot keeps the state.
#[verifier::spinoff_prover]
proof fn lemma_radix_list_step(
    t: Seq<i32>,
    base: spec_fn(int) -> bool,
    s: Seq<i32>,
    b: Seq<i32>,
    k: int,
    from: int,
    top: spec_fn(int) -> int,
    st: PlaceState,
    i: int,
)
    requires
        radix_ready(t, base, s, b, k, from, top),
        from <= i < t.len(),
        radix_list_at(t, base, s, b, k, from, top, st, i + 1),
    ensures
        radix_sort_lms_suffixes_32s_2k_step(t)(st, i) is Some,
        radix_list_at(t, base, s, b, k, from, top, radix_sort_lms_suffixes_32s_2k_step(t)(st, i)->0, i),
{
    let n = t.len() as int;
    let x = text32(t);
    let (cur, e) = st;
    let p = s[i];
    let c = t[p as int] as int;
    let y = even(e, c) - 1;
    lemma_radix_list_does(t, base, s, b, k, from, top, st, i);
    let cur1 = cur.update(y, p);
    let e1 = e.update(2 * c, y as i32);
    assert(even(e1, c) == y);
    assert forall|d: int| 0 <= d < k && d != c implies #[trigger] even(e1, d) == even(e, d) by {}
    assert forall|d: int| 0 <= d < k implies #[trigger] even(e1, d) == top(d) - tally(slots_with(t, s, d), i, n) by {
        assert(even(e, d) == top(d) - tally(slots_with(t, s, d), i + 1, n));
    }
    assert forall|d: int, j: int| #[trigger] taken(top, k, e1, d, j) implies among(s, i, n, cur1[j]) && t[cur1[j] as int]
        == d by {
        if d == c && j == y {
            lemma_among(s, i, n, i);
        } else {
            lemma_apart(t, base, s, b, k, from, top, st, i + 1, c, y, d, j);
            assert(cur1[j] == cur[j]);
            let l = lemma_found(s, i + 1, n, cur[j]);
            lemma_among(s, i, n, l);
        }
    }
    assert forall|d: int, j: int, l: int| #[trigger] taken(top, k, e1, d, j) && #[trigger] taken(top, k, e1, d, l) && j
        < l implies cur1[j] != cur1[l] by {
        lemma_apart(t, base, s, b, k, from, top, st, i + 1, c, y, d, l);
        assert(cur1[l] == cur[l]);
        let q = lemma_found(s, i + 1, n, cur[l]);
        if d == c && j == y {
            assert(s[i] != s[q]);
        } else {
            lemma_apart(t, base, s, b, k, from, top, st, i + 1, c, y, d, j);
            assert(cur1[j] == cur[j]);
        }
    }
    assert forall|j: int| i <= j < n implies listed_at(top, cur1, e1, t[#[trigger] s[j] as int] as int, s[j]) by {
        assert(0 <= s[j] < n);
        let d = t[s[j] as int] as int;
        assert(0 <= t[s[j] as int] < k);
        if j == i {
            lemma_among(cur1, y, top(c), y);
        } else {
            let l = lemma_found(cur, even(e, d) as int, top(d), s[j]);
            lemma_apart(t, base, s, b, k, from, top, st, i + 1, c, y, d, l);
            assert(cur1[l] == cur[l]);
            lemma_among(cur1, even(e1, d) as int, top(d), l);
        }
    }
}

/// The next free slot of a bucket is none of the slots that are taken.
proof fn lemma_apart(
    t: Seq<i32>,
    base: spec_fn(int) -> bool,
    s: Seq<i32>,
    b: Seq<i32>,
    k: int,
    from: int,
    top: spec_fn(int) -> int,
    st: PlaceState,
    i: int,
    c: int,
    y: int,
    d: int,
    j: int,
)
    requires
        radix_ready(t, base, s, b, k, from, top),
        from <= i <= t.len(),
        radix_list_at(t, base, s, b, k, from, top, st, i),
        0 <= c < k,
        0 <= d < k,
        y == even(st.1, c) - 1,
        top(c) - size_of_symbol(t, base, c) <= y < top(c),
        even(st.1, d) - (if d == c { 1int } else { 0 }) <= j < top(d),
        !(d == c && j == y),
    ensures
        j != y,
        0 <= j < from,
        taken(top, k, st.1, d, j),
{
    lemma_list_room(t, base, s, b, k, from, top, d, i);
    assert(even(st.1, d) == top(d) - tally(slots_with(t, s, d), i, t.len() as int));
    if d < c {
        assert(top(d) <= top(c) - size_of_symbol(t, base, c));
    } else if c < d {
        assert(top(c) <= top(d) - size_of_symbol(t, base, d));
    }
}

/// The sorting by first symbols runs from slot to slot.
proof fn lemma_radix_list_run(t: Seq<i32>, base: spec_fn(int) -> bool, s: Seq<i32>, b: Seq<i32>, k: int, from: int, top: spec_fn(int) -> int, i: int)
    requires
        radix_ready(t, base, s, b, k, from, top),
        from <= i <= t.len(),
    ensures
        ({
            let st = radix_sort_lms_suffixes_32s_2k_run(t, (s, b), i, t.len() - i);
            st is Some && radix_list_at(t, base, s, b, k, from, top, st->0, i)
        }),
    decreases t.len() - i,
{
    let n = t.len() as int;
    if i < n {
        lemma_radix_list_run(t, base, s, b, k, from, top, i + 1);
        let st = radix_sort_lms_suffixes_32s_2k_run(t, (s, b), i + 1, n - (i + 1))->0;
        lemma_radix_list_step(t, base, s, b, k, from, top, st, i);
    }
}

/// Whether the slots of each symbol, which end where `top` says, hold the suffixes of `base` that
/// start with it.
pub open spec fn segmented(t: Seq<i32>, base: spec_fn(int) -> bool, k: int, top: spec_fn(int) -> int, cur: Seq<i32>) -> bool {
    &&& forall|c: int, j: int| #![trigger top(c), cur[j]]
        0 <= c < k && top(c) - size_of_symbol(t, base, c) <= j < top(c) ==> 0 <= cur[j] < t.len() && base(cur[j] as int)
            && t[cur[j] as int] == c
    &&& forall|c: int, j: int, l: int| #![trigger top(c), cur[j], cur[l]]
        0 <= c < k && top(c) - size_of_symbol(t, base, c) <= j < l < top(c) ==> cur[j] != cur[l]
    &&& forall|p: int| 0 <= p < t.len() && #[trigger] base(p) ==> among(
        cur,
        top(t[p] as int) - size_of_symbol(t, base, t[p] as int),
        top(t[p] as int),
        p as i32,
    )
}

/// Sorting by first symbols fills the slots of each symbol.
pub proof fn lemma_radix_segments(
    t: Seq<i32>,
    base: spec_fn(int) -> bool,
    s: Seq<i32>,
    b: Seq<i32>,
    k: int,
    from: int,
    top: spec_fn(int) -> int,
)
    requires
        radix_ready(t, base, s, b, k, from, top),
    ensures
        ({
            let n = t.len() as int;
            let st = radix_sort_lms_suffixes_32s_2k_run(t, (s, b), from, n - from);
            &&& st is Some
            &&& st.unwrap().0.len() == s.len()
            &&& st.unwrap().1.len() == b.len()
            &&& segmented(t, base, k, top, st.unwrap().0)
            &&& forall|c: int| 0 <= c < k ==> #[trigger] even(st.unwrap().1, c) == top(c) - size_of_symbol(t, base, c)
            &&& forall|j: int| 0 <= j < b.len() && j % 2 == 1 ==> #[trigger] st.unwrap().1[j] == b[j]
            &&& forall|j: int| 2 * k <= j < b.len() ==> #[trigger] st.unwrap().1[j] == b[j]
        }),
{
    let n = t.len() as int;
    lemma_radix_list_run(t, base, s, b, k, from, top, from);
    let st = radix_sort_lms_suffixes_32s_2k_run(t, (s, b), from, n - from)->0;
    let (cur, e) = st;
    assert forall|c: int| 0 <= c < k implies #[trigger] even(e, c) == top(c) - size_of_symbol(t, base, c) by {
        lemma_list_room(t, base, s, b, k, from, top, c, from);
    }
    assert forall|c: int, j: int| #![trigger top(c), cur[j]]
        0 <= c < k && top(c) - size_of_symbol(t, base, c) <= j < top(c) implies 0 <= cur[j] < t.len() && base(cur[j] as int)
        && t[cur[j] as int] == c by {
        assert(even(e, c) == top(c) - size_of_symbol(t, base, c));
        assert(taken(top, k, e, c, j));
        let q = lemma_found(s, from, n, cur[j]);
        assert(0 <= s[q] < n && base(s[q] as int));
    }
    assert forall|c: int, j: int, l: int| #![trigger top(c), cur[j], cur[l]]
        0 <= c < k && top(c) - size_of_symbol(t, base, c) <= j < l < top(c) implies cur[j] != cur[l] by {
        assert(even(e, c) == top(c) - size_of_symbol(t, base, c));
        assert(taken(top, k, e, c, j) && taken(top, k, e, c, l));
    }
    assert forall|p: int| 0 <= p < n && #[trigger] base(p) implies among(
        cur,
        top(t[p] as int) - size_of_symbol(t, base, t[p] as int),
        top(t[p] as int),
        p as i32,
    ) by {
        let q = lemma_found(s, from, n, p as i32);
        let c = t[s[q] as int] as int;
        assert(0 <= t[p] < k);
        assert(even(e, c) == top(c) - size_of_symbol(t, base, c));
        assert(listed_at(top, cur, e, c, s[q]));
    }
}

/// Where the suffixes of `base` up to each symbol end.
pub open spec fn packed_tops(x: Seq<int>, base: spec_fn(int) -> bool) -> spec_fn(int) -> int {
    |c: int| below_of(x, base)(c + 1)
}

/// The slots of the symbols follow each other without gaps.
pub proof fn lemma_packed_tops(t: Seq<i32>, base: spec_fn(int) -> bool, c: int, d: int)
    requires
        0 <= c < d,
    ensures
        packed_tops(text32(t), base)(c) <= packed_tops(text32(t), base)(d) - size_of_symbol(t, base, d),
        packed_tops(text32(t), base)(c) - size_of_symbol(t, base, c) == below_of(text32(t), base)(c),
        0 <= below_of(text32(t), base)(c),
{
    let x = text32(t);
    lemma_below_step(x, base, c, 0);
    lemma_below_step(x, base, d, 0);
    lemma_below_grows(x, base, c + 1, d);
    lemma_below_bound(x, base, c);
}

/// Sorting by first symbols lists the suffixes by their first symbols, and leaves the number of
/// those that start with smaller symbols.
pub proof fn lemma_radix_list(t: Seq<i32>, base: spec_fn(int) -> bool, s: Seq<i32>, b: Seq<i32>, k: int, from: int)
    requires
        radix_ready(t, base, s, b, k, from, packed_tops(text32(t), base)),
    ensures
        ({
            let n = t.len() as int;
            let st = radix_sort_lms_suffixes_32s_2k_run(t, (s, b), from, n - from);
            &&& st is Some
            &&& st.unwrap().0.len() == s.len()
            &&& st.unwrap().1.len() == b.len()
            &&& lists_base(t, base, st.unwrap().0, n - from)
            &&& forall|c: int| 0 <= c < k ==> #[trigger] even(st.unwrap().1, c) == below_of(text32(t), base)(c)
            &&& forall|j: int| 0 <= j < b.len() && j % 2 == 1 ==> #[trigger] st.unwrap().1[j] == b[j]
            &&& forall|j: int| 2 * k <= j < b.len() ==> #[trigger] st.unwrap().1[j] == b[j]
        }),
{
    let n = t.len() as int;
    let x = text32(t);
    let m = n - from;
    let top = packed_tops(x, base);
    lemma_radix_segments(t, base, s, b, k, from, top);
    let (cur, e) = radix_sort_lms_suffixes_32s_2k_run(t, (s, b), from, n - from)->0;
    assert forall|c: int| 0 <= c < k implies #[trigger] even(e, c) == below_of(x, base)(c) by {
        lemma_packed_tops(t, base, c, c + 1);
    }
    assert forall|j: int| 0 <= j < m implies in_bucket(x, base, k, #[trigger] cur[j], j) by {
        assert forall|p: int| 0 <= p < x.len() implies 0 <= #[trigger] x[p] < k by {
            assert(0 <= t[p] < k);
        }
        lemma_below_zero(x, base, 0);
        lemma_below_all(x, base, k, 0);
        let all = |j: int| base(s[j] as int);
        lemma_list_tally(s, from, n, n, base);
        lemma_tally_full(all, from, n);
        let c = lemma_bucket_found(x, base, k, j, k);
        lemma_packed_tops(t, base, c, c + 1);
        assert(top(c) == below_of(x, base)(c + 1));
        assert(0 <= cur[j] < t.len() && base(cur[j] as int) && t[cur[j] as int] == c);
    }
    assert forall|a: int| 0 <= a < m implies 0 <= #[trigger] cur[a] < t.len() && base(cur[a] as int) by {
        assert(in_bucket(x, base, k, cur[a], a));
    }
    assert forall|a: int, l: int| 0 <= a < l < m implies #[trigger] cur[a] != #[trigger] cur[l] && t[cur[a] as int]
        <= t[cur[l] as int] by {
        assert(in_bucket(x, base, k, cur[a], a));
        assert(in_bucket(x, base, k, cur[l], l));
        let c = x[cur[a] as int];
        let d = x[cur[l] as int];
        lemma_packed_tops(t, base, c, c + 1);
        assert(top(c) == below_of(x, base)(c + 1));
        if d < c {
            lemma_below_grows(x, base, d + 1, c);
        }
    }
    assert forall|p: int| 0 <= p < n && #[trigger] base(p) implies among(cur, 0, m, p as i32) by {
        let c = t[p] as int;
        assert(0 <= t[p] < k);
        lemma_packed_tops(t, base, c, c + 1);
        let l = lemma_found(cur, top(c) - size_of_symbol(t, base, c), top(c), p as i32);
        let all = |j: int| base(s[j] as int);
        lemma_list_tally(s, from, n, n, base);
        lemma_tally_full(all, from, n);
        lemma_below_bound(x, base, c + 1);
        lemma_among(cur, 0, m, l);
    }
}

/// Whether slot `j` lies in the bucket of the suffix that it holds.
spec fn in_bucket(x: Seq<int>, base: spec_fn(int) -> bool, k: int, v: i32, j: int) -> bool {
    &&& 0 <= v < x.len()
    &&& base(v as int)
    &&& 0 <= x[v as int] < k
    &&& below_of(x, base)(x[v as int]) <= j < below_of(x, base)(x[v as int] + 1)
}

/// Every slot in front of those of a symbol lies in a bucket of a smaller one.
proof fn lemma_bucket_found(x: Seq<int>, base: spec_fn(int) -> bool, k: int, j: int, c: int) -> (d: int)
    requires
        0 <= c <= k,
        below_of(x, base)(0) <= j < below_of(x, base)(c),
    ensures
        0 <= d < k,
        below_of(x, base)(d) <= j < below_of(x, base)(d + 1),
    decreases c,
{
    if c > 0 && j < below_of(x, base)(c - 1) {
        lemma_bucket_found(x, base, k, j, c - 1)
    } else {
        c - 1
    }
}

/// Everything starts with a symbol below the limit.
proof fn lemma_below_all(x: Seq<int>, base: spec_fn(int) -> bool, k: int, lo: int)
    requires
        0 <= lo <= x.len(),
        forall|p: int| 0 <= p < x.len() ==> 0 <= #[trigger] x[p] < k,
    ensures
        tally(with_smaller(x, base, k), lo, x.len() as int) == tally(base, lo, x.len() as int),
    decreases x.len() - lo,
{
    if lo < x.len() {
        lemma_below_all(x, base, k, lo + 1);
        assert(0 <= x[lo] < k);
    }
}

} // verus!
