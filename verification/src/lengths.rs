//! What naming works on: the leftmost suffixes of type S in the order of the text, and the
//! lengths of their substrings.

use vstd::prelude::*;
use crate::gather::{cleared, gather_lms_suffixes_32s_mode, gather_lms_suffixes_32s_run, lms_scan_run, text32, LmsMode};
use crate::kinds::{is_l, is_lms, law_last_type, law_lms_apart, law_type_step};
use crate::marks::bit;
use crate::partial_induction::lms_count;
use crate::placement::{among, lemma_among, lemma_found};
use crate::renumber::{clamped, lms_length_run, lms_length_step, lms_lengths};

verus! {

/// Whether the slots of `s` from `from` up to `to` list, in ascending order, the positions from
/// `lo` up to `hi` that `sel` selects.
pub open spec fn picks(sel: spec_fn(int) -> bool, s: Seq<i32>, lo: int, hi: int, from: int, to: int) -> bool {
    &&& forall|k: int| from <= k < to ==> lo <= #[trigger] s[k] < hi && sel(s[k] as int)
    &&& forall|k: int, l: int| from <= k < l < to ==> #[trigger] s[k] < #[trigger] s[l]
    &&& forall|p: int| lo <= p < hi && #[trigger] sel(p) ==> among(s, from, to, p as i32)
}

/// How many positions from `lo` up to `hi` are selected.
pub open spec fn tally(sel: spec_fn(int) -> bool, lo: int, hi: int) -> int
    decreases hi - lo,
{
    if hi <= lo {
        0
    } else {
        tally(sel, lo + 1, hi) + bit(sel(lo))
    }
}

/// Tallies are not negative.
pub proof fn lemma_tally_bound(sel: spec_fn(int) -> bool, lo: int, hi: int)
    ensures
        0 <= tally(sel, lo, hi),
        lo <= hi ==> tally(sel, lo, hi) <= hi - lo,
    decreases hi - lo,
{
    if lo < hi {
        lemma_tally_bound(sel, lo + 1, hi);
    }
}

/// What a gathering pass selects: the leftmost suffixes of type S, and those with a mark only
/// where marks do not matter.
pub open spec fn gathers(x: Seq<int>, compact: bool) -> spec_fn(int) -> bool {
    |p: int| is_lms(x, p) && (!compact || x[p] >= 0)
}

/// A gathering pass picks what it selects, and touches no slot in front of the one that it stops
/// at.
pub proof fn lemma_gathering(x: Seq<int>, mode: LmsMode, s: (Seq<i32>, Seq<i32>, isize, bool), lo: int, hi: int)
    requires
        x.len() <= i32::MAX,
        0 <= lo <= hi < x.len(),
        mode.gather,
        mode.lanes == 0,
        s.3 == is_l(x, hi),
        s.2 < s.0.len(),
        s.2 - tally(gathers(x, mode.compact), lo + 1, hi + 1) >= 0,
    ensures
        lms_scan_run(x, mode, s, lo, hi) is Some,
        ({
            let y = lms_scan_run(x, mode, s, lo, hi)->0;
            let sel = gathers(x, mode.compact);
            &&& y.3 == is_l(x, lo)
            &&& y.0.len() == s.0.len()
            &&& y.2 == s.2 - tally(sel, lo + 1, hi + 1)
            &&& picks(sel, y.0, lo + 1, hi + 1, y.2 + 1, s.2 + 1)
            &&& forall|j: int| 0 <= j < y.2 ==> #[trigger] y.0[j] == s.0[j]
            &&& forall|j: int| s.2 < j < s.0.len() ==> #[trigger] y.0[j] == s.0[j]
        }),
    decreases hi - lo,
{
    let sel = gathers(x, mode.compact);
    if lo < hi {
        lemma_tally_bound(sel, lo + 2, hi + 1);
        lemma_gathering(x, mode, s, lo + 1, hi);
        let z = lms_scan_run(x, mode, s, lo + 1, hi)->0;
        let y = lms_scan_run(x, mode, s, lo, hi)->0;
        law_type_step(x, lo);
        assert((x[lo] > x[lo + 1] - bit(z.3)) == is_l(x, lo));
        assert(y.0 == z.0.update(z.2 as int, (lo + 1) as i32));
        assert(y.2 == z.2 - bit(sel(lo + 1)));
        assert forall|p: int| lo + 1 <= p < hi + 1 && #[trigger] sel(p) implies among(y.0, y.2 + 1, s.2 + 1, p as i32) by {
            if p == lo + 1 {
                lemma_among(y.0, y.2 + 1, s.2 + 1, z.2 as int);
            } else {
                let k = lemma_found(z.0, z.2 + 1, s.2 + 1, p as i32);
                assert(y.0[k] == z.0[k]);
                lemma_among(y.0, y.2 + 1, s.2 + 1, k);
            }
        }
        assert forall|k: int| y.2 + 1 <= k < s.2 + 1 implies lo + 1 <= #[trigger] y.0[k] < hi + 1 && sel(y.0[k] as int) by {
            if k != z.2 {
                assert(y.0[k] == z.0[k]);
            }
        }
        assert forall|k: int, l: int| y.2 + 1 <= k < l < s.2 + 1 implies #[trigger] y.0[k] < #[trigger] y.0[l] by {
            assert(y.0[l] == z.0[l]);
            if k != z.2 {
                assert(y.0[k] == z.0[k]);
            }
        }
    }
}

/// A tally of the leftmost suffixes of type S is their count.
proof fn lemma_tally_lms(x: Seq<int>, sel: spec_fn(int) -> bool, lo: int)
    requires
        0 <= lo <= x.len(),
        forall|p: int| lo <= p < x.len() ==> #[trigger] sel(p) == is_lms(x, p),
    ensures
        tally(sel, lo, x.len() as int) == lms_count(x, lo),
    decreases x.len() - lo,
{
    if lo < x.len() {
        lemma_tally_lms(x, sel, lo + 1);
        assert(sel(lo) == is_lms(x, lo));
    }
}

/// Leftmost suffixes of type S take two positions each.
pub proof fn lemma_lms_sparse(x: Seq<int>, lo: int)
    requires
        0 <= lo < x.len(),
    ensures
        0 <= 2 * lms_count(x, lo) <= x.len() - lo,
    decreases x.len() - lo,
{
    law_last_type(x);
    if lo + 1 < x.len() {
        lemma_lms_sparse(x, lo + 1);
        if is_lms(x, lo) {
            law_lms_apart(x, lo);
            if lo + 2 < x.len() {
                lemma_lms_sparse(x, lo + 2);
            } else {
                assert(lms_count(x, lo + 2) == 0);
            }
            assert(lms_count(x, lo + 1) == lms_count(x, lo + 2));
        }
    } else {
        assert(lms_count(x, lo + 1) == 0);
        assert(!is_lms(x, lo));
    }
}

/// Leftmost suffixes of type S take two positions each, wherever they are counted from.
pub proof fn lemma_lms_sparse_from(x: Seq<int>, lo: int)
    requires
        0 <= lo,
    ensures
        0 <= lms_count(x, lo),
        lo <= x.len() ==> 2 * lms_count(x, lo) <= x.len() - lo,
{
    if lo < x.len() {
        lemma_lms_sparse(x, lo);
    }
}

/// Fewer than half of all suffixes are leftmost ones of type S.
pub proof fn law_lms_few(x: Seq<int>)
    requires
        1 <= x.len(),
    ensures
        0 <= 2 * lms_count(x, 0) <= x.len() - 1,
{
    assert(!is_lms(x, 0));
    if x.len() > 1 {
        lemma_lms_sparse(x, 1);
    } else {
        assert(lms_count(x, 1) == 0);
    }
}

/// The list of the leftmost suffixes of type S at the end of the first `n` slots.
pub open spec fn lists_all(x: Seq<int>, g: Seq<i32>, m: int) -> bool {
    picks(gathers(x, false), g, 0, x.len() as int, x.len() - m, x.len() as int)
}

/// Gathering all leftmost suffixes of type S leaves the slots in front of them alone.
pub proof fn lemma_gathered_all(x: Seq<int>, s: Seq<i32>)
    requires
        1 <= x.len() <= i32::MAX,
        x.len() <= s.len(),
    ensures
        gather_lms_suffixes_32s_run(x, s, x.len() as int) is Some,
        ({
            let g = gather_lms_suffixes_32s_run(x, s, x.len() as int)->0;
            let m = lms_count(x, 0);
            &&& g.2 == x.len() - 1 - m
            &&& g.0.len() == s.len()
            &&& lists_all(x, g.0, m)
            &&& forall|j: int| 0 <= j < x.len() - 1 - m ==> #[trigger] g.0[j] == s[j]
            &&& forall|j: int| x.len() <= j < s.len() ==> #[trigger] g.0[j] == s[j]
        }),
{
    let n = x.len() as int;
    let mode = gather_lms_suffixes_32s_mode();
    let sel = gathers(x, false);
    law_last_type(x);
    law_lms_few(x);
    lemma_tally_lms(x, sel, 1);
    assert(lms_count(x, 0) == lms_count(x, 1));
    lemma_gathering(x, mode, (s, Seq::<i32>::empty(), (n - 1) as isize, true), 0, n - 1);
    let g = gather_lms_suffixes_32s_run(x, s, n)->0;
    assert forall|p: int| 0 <= p < n && #[trigger] sel(p) implies among(g.0, n - lms_count(x, 0), n, p as i32) by {
        assert(is_lms(x, p));
    }
}

/// The next leftmost suffix of type S behind `p`, or the end of the text.
pub open spec fn next_lms(x: Seq<int>, p: int) -> int
    decreases x.len() - p,
{
    if p + 1 >= x.len() {
        x.len() as int
    } else if is_lms(x, p + 1) {
        p + 1
    } else {
        next_lms(x, p + 1)
    }
}

/// What stands up to the next leftmost suffix of type S.
pub proof fn lemma_next_lms(x: Seq<int>, p: int)
    requires
        0 <= p < x.len(),
    ensures
        p < next_lms(x, p) <= x.len(),
        next_lms(x, p) < x.len() ==> is_lms(x, next_lms(x, p)),
        forall|q: int| p < q < next_lms(x, p) ==> !#[trigger] is_lms(x, q),
    decreases x.len() - p,
{
    if p + 1 < x.len() && !is_lms(x, p + 1) {
        lemma_next_lms(x, p + 1);
    }
}

/// The length of the substring at `p`, with both of its ends; the last substring has length one.
pub open spec fn lms_length(x: Seq<int>, p: int) -> int {
    if next_lms(x, p) < x.len() {
        next_lms(x, p) - p + 1
    } else {
        1
    }
}

/// An entry and its successor in the list.
pub proof fn lemma_listed_next(x: Seq<int>, g: Seq<i32>, m: int, j: int)
    requires
        1 <= x.len() <= i32::MAX,
        0 <= m <= x.len() <= g.len(),
        lists_all(x, g, m),
        0 <= j < m,
    ensures
        is_lms(x, g[x.len() - m + j] as int),
        j + 1 < m ==> next_lms(x, g[x.len() - m + j] as int) == g[x.len() - m + j + 1],
        j + 1 == m ==> next_lms(x, g[x.len() - m + j] as int) == x.len(),
        g[x.len() - m + j] + 2 * (m - 1 - j) <= x.len() - 2,
    decreases m - j,
{
    let n = x.len() as int;
    let at = n - m + j;
    let sel = gathers(x, false);
    let p = g[at] as int;
    assert(sel(g[at] as int));
    lemma_next_lms(x, p);
    let q = next_lms(x, p);
    law_last_type(x);
    if q < n {
        assert(sel(q));
        let k = lemma_found(g, n - m, n, q as i32);
        if k <= at {
            if k < at {
                assert(g[k] < g[at]);
            }
        }
        if k > at + 1 {
            assert(g[at] < g[at + 1] && g[at + 1] < g[k]);
            assert(sel(g[at + 1] as int));
            assert(is_lms(x, g[at + 1] as int));
        }
    } else if j + 1 < m {
        assert(g[at] < g[at + 1]);
        assert(sel(g[at + 1] as int));
        assert(is_lms(x, g[at + 1] as int));
    }
    if j + 1 < m {
        lemma_listed_next(x, g, m, j + 1);
        law_lms_apart(x, p);
    } else {
        assert(p <= n - 2);
    }
}

/// Leftmost suffixes of type S have different halves.
pub proof fn lemma_halves(x: Seq<int>, p: int, q: int)
    requires
        is_lms(x, p),
        is_lms(x, q),
        p < q,
    ensures
        p / 2 < q / 2,
{
    law_lms_apart(x, p);
}

/// Whether no leftmost suffix of type S has half `h`.
#[verifier::opaque]
pub open spec fn spare(x: Seq<int>, h: int) -> bool {
    !is_lms(x, 2 * h) && !is_lms(x, 2 * h + 1)
}

/// The half of a leftmost suffix of type S is not spare.
pub proof fn lemma_half_taken(x: Seq<int>, p: int)
    requires
        is_lms(x, p),
    ensures
        !spare(x, p / 2),
        0 <= p / 2 < x.len() as int / 2,
{
    reveal(spare);
    law_last_type(x);
}

/// Whether the slots behind the first `m` of `s` hold what `v` says of the leftmost suffixes of
/// type S, each in the slot that half of it selects, and zeros elsewhere.
pub open spec fn noted(x: Seq<int>, m: int, s: Seq<i32>, v: spec_fn(int) -> int) -> bool {
    &&& m + x.len() as int / 2 <= s.len()
    &&& forall|p: int| #[trigger] is_lms(x, p) ==> s[m + p / 2] == v(p)
    &&& forall|h: int| 0 <= h < x.len() as int / 2 && #[trigger] spare(x, h) ==> s[m + h] == 0
}

/// The state of the pass that notes lengths.
spec fn length_at(x: Seq<int>, g: Seq<i32>, m: int, s: Seq<i32>, j: int) -> bool {
    let n = x.len() as int;
    &&& s.len() == g.len()
    &&& forall|i: int| 0 <= i < m ==> #[trigger] s[i] == g[i]
    &&& forall|i: int| n - m + j <= i < g.len() ==> #[trigger] s[i] == g[i]
    &&& forall|b: int| #![trigger g[b]]
        n - m <= b < n - m + j ==> s[m + g[b] as int / 2] == lms_length(x, g[b] as int) - 0x8000_0000
    &&& forall|i: int| m <= i < n && #[trigger] s[i] < 0 ==> !spare(x, i - m)
}

/// The pass that notes lengths runs from entry to entry.
proof fn lemma_length_run(x: Seq<int>, g: Seq<i32>, m: int, j: int)
    requires
        1 <= x.len() <= i32::MAX,
        x.len() <= g.len(),
        0 <= 2 * m < x.len(),
        lists_all(x, g, m),
        forall|i: int| m <= i < x.len() - m ==> #[trigger] g[i] == 0,
        0 <= j < m,
    ensures
        ({
            let s = lms_length_run(m, g, x.len() - m, x.len() - m + j);
            s is Some && length_at(x, g, m, s->0, j)
        }),
    decreases j,
{
    let n = x.len() as int;
    if j > 0 {
        lemma_length_run(x, g, m, j - 1);
        let s = lms_length_run(m, g, n - m, n - m + j - 1)->0;
        let i = n - m + j - 1;
        let p = g[i] as int;
        lemma_listed_next(x, g, m, j - 1);
        lemma_next_lms(x, p);
        assert(s[i] == g[i] && s[i + 1] == g[i + 1]);
        let at = m + p / 2;
        let r = lms_length_step(m)(s, i)->0;
        assert(at <= i);
        assert(r == s.update(at, (lms_length(x, p) - 0x8000_0000) as i32));
        assert forall|b: int| #![trigger g[b]]
            n - m <= b < n - m + j implies r[m + g[b] as int / 2] == lms_length(x, g[b] as int) - 0x8000_0000 by {
            if b < i {
                lemma_listed_next(x, g, m, b - (n - m));
                assert(g[b] < g[i]);
                lemma_halves(x, g[b] as int, p);
            }
        }
        lemma_half_taken(x, p);
    } else {
        assert forall|i: int| m <= i < n implies #[trigger] g[i] >= 0 by {}
    }
}

/// Gathering and measuring leaves the lengths of the substrings behind the sorted suffixes.
pub proof fn lemma_lengths_noted(t: Seq<i32>, w: Seq<i32>)
    requires
        1 <= t.len() <= i32::MAX,
        t.len() <= w.len(),
        lms_count(text32(t), 0) > 0,
    ensures
        ({
            let x = text32(t);
            let m = lms_count(x, 0);
            let s = lms_lengths(t, w, t.len() as int, m);
            &&& s is Some
            &&& s.unwrap().len() == w.len()
            &&& forall|i: int| 0 <= i < m ==> #[trigger] s.unwrap()[i] == w[i]
            &&& forall|i: int| t.len() <= i < w.len() ==> #[trigger] s.unwrap()[i] == w[i]
            &&& noted(x, m, s.unwrap(), |p: int| lms_length(x, p))
        }),
{
    let x = text32(t);
    let n = x.len() as int;
    let m = lms_count(x, 0);
    law_lms_few(x);
    lemma_gathered_all(x, w);
    let g0 = gather_lms_suffixes_32s_run(x, w, n).unwrap().0;
    let g = cleared(g0, m, n - m);
    assert(lists_all(x, g, m)) by {
        let sel = gathers(x, false);
        assert forall|p: int| 0 <= p < n && #[trigger] sel(p) implies among(g, n - m, n, p as i32) by {
            let k = lemma_found(g0, n - m, n, p as i32);
            assert(g[k] == g0[k]);
            lemma_among(g, n - m, n, k);
        }
        assert forall|k: int| n - m <= k < n implies 0 <= #[trigger] g[k] < n && sel(g[k] as int) by {
            assert(g[k] == g0[k]);
        }
    }
    lemma_length_run(x, g, m, m - 1);
    let y = lms_length_run(m, g, n - m, n - 1)->0;
    lemma_listed_next(x, g, m, m - 1);
    let last = g[n - 1] as int;
    let z = y.update(m + last / 2, (1 - 0x8000_0000) as i32);
    let s = clamped(z, m, m + n / 2);
    assert(lms_lengths(t, w, n, m) == Some(s));
    let v = |p: int| lms_length(x, p);
    assert forall|p: int| #[trigger] is_lms(x, p) implies s[m + p / 2] == v(p) by {
        let sel = gathers(x, false);
        assert(sel(p));
        let b = lemma_found(g, n - m, n, p as i32);
        lemma_next_lms(x, p);
        if b < n - 1 {
            assert(g[b] < g[n - 1]);
            lemma_halves(x, p, last);
            assert(y[m + g[b] as int / 2] == lms_length(x, g[b] as int) - 0x8000_0000);
        }
        assert(p <= n - 2) by {
            law_last_type(x);
        }
        assert(z[m + p / 2] == lms_length(x, p) - 0x8000_0000);
    }
    assert forall|h: int| 0 <= h < n / 2 && #[trigger] spare(x, h) implies s[m + h] == 0 by {
        let i = m + h;
        assert(!(y[i] < 0));
        lemma_half_taken(x, last);
        assert(z[i] == y[i]);
    }
}

} // verus!
