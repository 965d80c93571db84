//! The lists that the scans start from with four buckets for each symbol: the first leftmost
//! suffix of type S of each symbol carries a group bit.

use vstd::prelude::*;
use crate::bounds::{count_below, counted, lemma_count_below_bound};
use crate::buckets::{
    first_lms_moved, initialize_buckets_for_radix_and_partial_sorting_32s_4k_run, radix_and_partial_slot_32s_4k_run,
    radix_and_partial_slot_32s_4k_step,
};
use crate::gather::{cleared, text32, LmsMode};
use crate::induction::symbols_below;
use crate::kinds::is_lms;
use crate::listing::{all_later, even, lemma_below_bound, lemma_below_grows, lemma_below_zero, lemma_moved_counts};
use crate::marks::with_group;
use crate::partial_induction::first_lms;
use crate::place::{lms_count, place_bucket_run, place_bucket_step, placed, PlaceMode};
use crate::radix::{radix_sort_set_markers_32s_4k_slot_run, radix_sort_set_markers_32s_4k_slot_step};
use crate::recount::{below_of, lists_base};
use crate::span::moved;
use crate::spreading::{lemma_fit, lemma_spread_run, spreadable, tabled};

verus! {

/// The buckets are set from symbol to symbol.
proof fn lemma_four_slots(t: Seq<i32>, k: int, mode: LmsMode, b: Seq<i32>, f: int, hi: int)
    requires
        1 <= t.len() <= i32::MAX,
        symbols_below(t, k),
        4 * k <= b.len(),
        !mode.compact,
        mode.lanes == 2,
        counted(t, mode, k, b),
        first_lms(text32(t), f),
        0 <= hi <= k,
    ensures
        ({
            let b1 = first_lms_moved(b, t[f] as int)->0;
            let st = radix_and_partial_slot_32s_4k_run(k, (b1, 0, 0), 0, hi);
            let below = below_of(text32(t), all_later(text32(t), f));
            let n = t.len() as int;
            &&& st is Some
            &&& st.unwrap().0.len() == b1.len()
            &&& st.unwrap().1 == below(hi)
            &&& st.unwrap().2 == count_below(t, hi, n)
            &&& forall|c: int| 0 <= c < hi ==> st.unwrap().0[#[trigger] (2 * c + 1)] == below(c + 1)
            &&& forall|c: int| 0 <= c < hi ==> st.unwrap().0[#[trigger] (2 * k + c)] == count_below(t, c, n)
            &&& forall|c: int| 0 <= c < hi ==> st.unwrap().0[#[trigger] (3 * k + c)] == count_below(t, c + 1, n)
            &&& forall|j: int| 2 * hi <= j < 2 * k ==> #[trigger] st.unwrap().0[j] == b1[j]
        }),
    decreases hi,
{
    let x = text32(t);
    let n = t.len() as int;
    let later = all_later(x, f);
    let below = below_of(x, later);
    let b1 = first_lms_moved(b, t[f] as int)->0;
    assert forall|p: int| 0 <= p < x.len() implies 0 <= #[trigger] x[p] by {
        assert(0 <= t[p]);
    }
    if hi > 0 {
        let i = hi - 1;
        lemma_four_slots(t, k, mode, b, f, i);
        lemma_moved_counts(t, k, mode, b, f, i);
        let st = radix_and_partial_slot_32s_4k_run(k, (b1, 0, 0), 0, i)->0;
        lemma_count_below_bound(t, i, n);
        lemma_count_below_bound(t, hi, n);
        lemma_below_bound(x, later, i);
        lemma_below_bound(x, later, hi);
        lemma_below_grows(x, later, i, hi);
        assert(st.0[2 * i] == b1[2 * i] && st.0[2 * i + 1] == b1[2 * i + 1]);
        let u = st.0.update(2 * k + i, st.2);
        assert(u[2 * i] == b1[2 * i] && u[2 * i + 1] == b1[2 * i + 1]);
        let cur = u.update(2 * i + 1, below(hi) as i32).update(3 * k + i, count_below(t, hi, n) as i32);
        let nx = radix_and_partial_slot_32s_4k_run(k, (b1, 0, 0), 0, hi);
        assert(nx == radix_and_partial_slot_32s_4k_step(k)(st, i));
        assert(nx == Some((cur, below(hi) as i32, count_below(t, hi, n) as i32)));
        assert forall|c: int| 0 <= c < hi implies cur[#[trigger] (2 * c + 1)] == below(c + 1) by {
            assert(c < i ==> st.0[2 * c + 1] == below(c + 1));
        }
        assert forall|c: int| 0 <= c < hi implies cur[#[trigger] (2 * k + c)] == count_below(t, c, n) by {
            assert(c < i ==> st.0[2 * k + c] == count_below(t, c, n));
        }
        assert forall|c: int| 0 <= c < hi implies cur[#[trigger] (3 * k + c)] == count_below(t, c + 1, n) by {
            assert(c < i ==> st.0[3 * k + c] == count_below(t, c + 1, n));
        }
    } else {
        lemma_below_zero(x, later, 0);
        crate::bounds::lemma_count_below_zero(t, n);
    }
}

/// Setting the buckets leaves the bounds of all, and the number of the later suffixes up to each
/// symbol.
pub proof fn lemma_four_buckets(t: Seq<i32>, k: int, mode: LmsMode, b: Seq<i32>, f: int)
    requires
        1 <= t.len() <= i32::MAX,
        symbols_below(t, k),
        4 * k <= b.len(),
        !mode.compact,
        mode.lanes == 2,
        counted(t, mode, k, b),
        first_lms(text32(t), f),
    ensures
        ({
            let y = initialize_buckets_for_radix_and_partial_sorting_32s_4k_run(t, k, b, f);
            let below = below_of(text32(t), all_later(text32(t), f));
            let n = t.len() as int;
            &&& y is Some
            &&& y.unwrap().0.len() == b.len()
            &&& forall|c: int| 0 <= c < k ==> y.unwrap().0[#[trigger] (2 * c + 1)] == below(c + 1)
            &&& forall|c: int| 0 <= c < k ==> y.unwrap().0[#[trigger] (2 * k + c)] == count_below(t, c, n)
            &&& forall|c: int| 0 <= c < k ==> y.unwrap().0[#[trigger] (3 * k + c)] == count_below(t, c + 1, n)
        }),
{
    assert(is_lms(text32(t), f));
    assert(0 <= t[f] < k);
    lemma_moved_counts(t, k, mode, b, f, t[f] as int);
    lemma_four_slots(t, k, mode, b, f, k);
}

/// Whether one of the first `hi` buckets points at slot `j`.
spec fn points_at(e: Seq<i32>, hi: int, j: int) -> bool {
    exists|c: int| 0 <= c < hi && #[trigger] even(e, c) == j
}

/// The group bits go where buckets point.
proof fn lemma_group_bits(e: Seq<i32>, s: Seq<i32>, hi: int)
    requires
        0 <= hi,
        2 * hi <= e.len() + 1,
        forall|c: int| 0 <= c < hi ==> 0 <= #[trigger] even(e, c) < s.len(),
    ensures
        ({
            let r = radix_sort_set_markers_32s_4k_slot_run(e, s, 0, hi);
            &&& r is Some
            &&& r.unwrap().len() == s.len()
            &&& forall|j: int| 0 <= j < s.len() ==> #[trigger] r.unwrap()[j] == with_group(s[j], points_at(e, hi, j))
        }),
    decreases hi,
{
    if hi > 0 {
        lemma_group_bits(e, s, hi - 1);
        let r = radix_sort_set_markers_32s_4k_slot_run(e, s, 0, hi - 1)->0;
        let y = even(e, hi - 1) as int;
        let nx = r.update(y, with_group(r[y], true));
        assert(radix_sort_set_markers_32s_4k_slot_run(e, s, 0, hi) == radix_sort_set_markers_32s_4k_slot_step(e)(r, hi - 1));
        assert(radix_sort_set_markers_32s_4k_slot_step(e)(r, hi - 1) == Some(nx));
        assert forall|j: int| 0 <= j < s.len() implies #[trigger] nx[j] == with_group(s[j], points_at(e, hi, j)) by {
            assert(r[j] == with_group(s[j], points_at(e, hi - 1, j)));
            if j == y {
                assert(even(e, hi - 1) == j);
                assert(points_at(e, hi, j));
            } else if points_at(e, hi, j) {
                let c = choose|c: int| 0 <= c < hi && #[trigger] even(e, c) == j;
                assert(c < hi - 1);
                assert(points_at(e, hi - 1, j));
            } else if points_at(e, hi - 1, j) {
                let c = choose|c: int| 0 <= c < hi - 1 && #[trigger] even(e, c) == j;
                assert(even(e, c) == j);
            }
        }
    }
}

/// Whether `v` is the first of its symbol in the list `w` of the later suffixes.
pub open spec fn heads(t: Seq<i32>, f: int, w: Seq<i32>, v: i32) -> bool {
    0 < v && v == w[below_of(text32(t), all_later(text32(t), f))(t[v as int] as int)]
}

/// The entry of `v` with its group bit.
pub open spec fn tagged(t: Seq<i32>, f: int, w: Seq<i32>, v: i32) -> i32 {
    with_group(v, heads(t, f, w, v))
}

/// The first of each symbol in the list gets a group bit.
pub proof fn lemma_four_tags(t: Seq<i32>, f: int, k: int, w: Seq<i32>, m: int, e: Seq<i32>)
    requires
        2 <= t.len() <= i32::MAX,
        symbols_below(t, k),
        1 <= k,
        2 * k <= e.len() + 1,
        0 <= m < w.len(),
        first_lms(text32(t), f),
        lists_base(t, all_later(text32(t), f), w, m),
        forall|c: int| 0 <= c < k ==> #[trigger] even(e, c) == below_of(text32(t), all_later(text32(t), f))(c),
    ensures
        ({
            let r = radix_sort_set_markers_32s_4k_slot_run(e, w, 0, k - 1);
            &&& r is Some
            &&& r.unwrap().len() == w.len()
            &&& forall|j: int| 0 <= j < m ==> #[trigger] r.unwrap()[j] == tagged(t, f, w, w[j])
        }),
{
    let x = text32(t);
    let later = all_later(x, f);
    let below = below_of(x, later);
    crate::recount::lemma_grouped(t, later, w, m, k);
    assert forall|c: int| 0 <= c < k - 1 implies 0 <= #[trigger] even(e, c) < w.len() by {
        assert(0 <= below(c) <= m);
    }
    lemma_group_bits(e, w, k - 1);
    assert forall|j: int| 0 <= j < m implies points_at(e, k - 1, j) == heads(t, f, w, #[trigger] w[j]) by {
        let v = w[j] as int;
        assert(later(w[j] as int));
        assert(is_lms(x, v));
        let c = t[v] as int;
        assert(0 <= t[v] < k);
        assert forall|i: int| 0 <= i < x.len() implies 0 <= #[trigger] x[i] < k by {
            assert(0 <= t[i] < k);
        }
        crate::six_radix::lemma_not_greatest(x, k, v);
        assert((t[w[j] as int] < c) == (j < below(c)));
        assert((t[w[j] as int] < c + 1) == (j < below(c + 1)));
        assert(0 <= below(c) <= m);
        if points_at(e, k - 1, j) {
            let d = choose|d: int| 0 <= d < k - 1 && #[trigger] even(e, d) == j;
            assert((t[w[j] as int] < d) == (j < below(d)));
            lemma_below_grows(x, later, d, c);
            assert(below(c) == j);
        }
        if heads(t, f, w, w[j]) {
            let i = below(c);
            if i < j {
                assert(w[i] != w[j]);
            }
            assert(even(e, c) == j);
        }
    }
}

/// Placing moves entries with their group bits.
proof fn lemma_tags_move(
    t: Seq<i32>,
    sa: Seq<i32>,
    f: int,
    w: Seq<i32>,
    m: int,
    k: int,
    ends: Seq<i32>,
    below: spec_fn(int) -> int,
    mode: PlaceMode,
    b: Seq<i32>,
    q: Seq<i32>,
    c: int,
)
    requires
        spreadable(t, sa, w, m, k, ends, below),
        tabled(mode, b, k, ends, below),
        place_bucket_run(mode, b, (w, m as usize, t.len() as usize), c, k - 1) is Some,
        place_bucket_run(mode, b, (w, m as usize, t.len() as usize), c, k - 1).unwrap().1 == below(c),
        below(k - 1) == m,
        q.len() == w.len(),
        forall|j: int| 0 <= j < m ==> #[trigger] q[j] == tagged(t, f, w, w[j]),
        0 <= c <= k - 1,
    ensures
        ({
            let u = place_bucket_run(mode, b, (w, m as usize, t.len() as usize), c, k - 1)->0;
            let v = place_bucket_run(mode, b, (q, m as usize, t.len() as usize), c, k - 1);
            &&& v is Some
            &&& v.unwrap().1 == u.1
            &&& v.unwrap().2 == u.2
            &&& u.0.len() == w.len()
            &&& v.unwrap().0.len() == w.len()
            &&& u.2 <= t.len()
            &&& forall|j: int| 0 <= j < u.1 ==> #[trigger] u.0[j] == w[j]
            &&& forall|j: int| 0 <= j < u.1 ==> #[trigger] v.unwrap().0[j] == q[j]
            &&& forall|j: int| u.2 <= j < t.len() ==> #[trigger] v.unwrap().0[j] == tagged(t, f, w, u.0[j])
        }),
    decreases k - c,
{
    let n = t.len() as int;
    if c < k - 1 {
        let u0 = place_bucket_run(mode, b, (w, m as usize, n as usize), c + 1, k - 1);
        let u1 = place_bucket_run(mode, b, (w, m as usize, n as usize), c, k - 1)->0;
        assert(u0 is Some);
        let size = below(c + 1) - below(c);
        assert(lms_count(mode, b, c) == Some(size));
        assert(place_bucket_step(mode, b)(u0->0, c) == Some(u1));
        assert(u0.unwrap().1 == below(c + 1));
        lemma_tags_move(t, sa, f, w, m, k, ends, below, mode, b, q, c + 1);
        let v0 = place_bucket_run(mode, b, (q, m as usize, n as usize), c + 1, k - 1)->0;
        let v1 = place_bucket_run(mode, b, (q, m as usize, n as usize), c, k - 1);
        assert(v1 == place_bucket_step(mode, b)(v0, c));
        lemma_fit(t, sa, w, m, k, ends, below, c);
        assert(0 <= below(c) <= m);
        if size != 0 {
            assert(crate::spreading::holds_end(mode, b, c, ends[c]));
            let end = ends[c] as int;
            let lo = below(c);
            let y = end - size;
            let su = cleared(u0.unwrap().0, end, u0.unwrap().2 as int);
            let sv = cleared(v0.0, end, v0.2 as int);
            assert(u1.0 == moved(su, lo, size, y));
            assert(v1.unwrap().0 == moved(sv, lo, size, y));
            assert forall|j: int| y <= j < n implies #[trigger] v1.unwrap().0[j] == tagged(t, f, w, u1.0[j]) by {
                if j < end {
                    let a = lo + (j - y);
                    assert(su[a] == u0.unwrap().0[a] && u0.unwrap().0[a] == w[a]);
                    assert(sv[a] == v0.0[a] && v0.0[a] == q[a]);
                    assert(q[a] == tagged(t, f, w, w[a]));
                } else if j < u0.unwrap().2 {
                    assert(su[j] == 0 && sv[j] == 0);
                } else {
                    assert(v0.0[j] == tagged(t, f, w, u0.unwrap().0[j]));
                    assert(su[j] == u0.unwrap().0[j] && sv[j] == v0.0[j]);
                }
            }
            assert forall|j: int| 0 <= j < lo implies #[trigger] u1.0[j] == w[j] by {
                assert(su[j] == u0.unwrap().0[j]);
            }
            assert forall|j: int| 0 <= j < lo implies #[trigger] v1.unwrap().0[j] == q[j] by {
                assert(sv[j] == v0.0[j]);
            }
        }
    }
}

/// Spreading a list with group bits spreads the group bits with it.
pub proof fn lemma_tags_placed(
    t: Seq<i32>,
    sa: Seq<i32>,
    f: int,
    w: Seq<i32>,
    m: int,
    k: int,
    ends: Seq<i32>,
    below: spec_fn(int) -> int,
    mode: PlaceMode,
    b: Seq<i32>,
    q: Seq<i32>,
)
    requires
        spreadable(t, sa, w, m, k, ends, below),
        tabled(mode, b, k, ends, below),
        q.len() == w.len(),
        forall|j: int| 0 <= j < m ==> #[trigger] q[j] == tagged(t, f, w, w[j]),
    ensures
        ({
            let r = placed(mode, b, w, t.len() as int, m, k - 1);
            let v = placed(mode, b, q, t.len() as int, m, k - 1);
            &&& r is Some
            &&& v is Some
            &&& v.unwrap().len() == w.len()
            &&& forall|j: int| 0 <= j < t.len() ==> #[trigger] v.unwrap()[j] == tagged(t, f, w, r.unwrap()[j])
        }),
{
    lemma_spread_run(t, sa, w, m, k, ends, below, mode, b, 0);
    lemma_spread_run(t, sa, w, m, k, ends, below, mode, b, k - 1);
    assert(place_bucket_run(mode, b, (w, m as usize, t.len() as usize), k - 1, k - 1) == Some((w, m as usize, t.len() as usize)));
    lemma_tags_move(t, sa, f, w, m, k, ends, below, mode, b, q, 0);
}

} // verus!
