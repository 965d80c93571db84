//! Names from marks: the suffixes between two marks share a name, and the names in the order of
//! the text form the reduced text.

use vstd::prelude::*;
use crate::gather::{cleared, text32};
use crate::induction::slot_of;
use crate::kinds::{is_l, is_lms, law_last_type, law_lms_apart};
use crate::lane_left::{lemma_mark_between, lemma_mark_count, lemma_no_mark, lemma_same_self, mark_count};
use crate::lane_right::{low_pair, low_true, lows};
use crate::lanes::{fielded, linked, Field};
use crate::lengths::{law_lms_few, lemma_half_taken, lemma_halves, noted, spare};
use crate::marks::{bit, marked, unmarked};
use crate::name_order::{lemma_substring_between, lemma_substring_irreflexive};
use crate::naming::lemma_listed_slot;
use crate::partial_induction::{lms_count, lms_listed, substrings_sorted};
use crate::placement::{among, lemma_among, lms_sorted};
use crate::reduction::names_substrings;
use crate::renumber::{
    gather_marked_run, gather_marked_step, renumber_and_gather_run, renumber_lms_run, renumber_lms_step,
    unmarked_prefix,
};
use crate::substrings::{
    induced_less, law_substrings_decide, lemma_induced_irreflexive, lemma_induced_transitive, lemma_substrings_induce,
    substring_less,
};
use crate::ties::{lemma_tied_transitive, same_chain, tied};

verus! {

/// Equal substrings are the same chains.
pub proof fn lemma_equal_chain(x: Seq<int>, u: int, v: int)
    requires
        0 <= u < x.len(),
        0 <= v < x.len(),
        !substring_less(x, u, v),
        !substring_less(x, v, u),
    ensures
        x[u] == x[v],
        is_l(x, u) == is_l(x, v),
        same_chain(x, u + 1, v + 1),
    decreases x.len() - u,
{
    if is_lms(x, u + 1) && is_lms(x, v + 1) {
    } else {
        assert(!substring_less(x, u + 1, v + 1) && !substring_less(x, v + 1, u + 1));
        if u + 1 < x.len() && v + 1 < x.len() {
            lemma_equal_chain(x, u + 1, v + 1);
        }
    }
}

/// The same chains are equal substrings.
pub proof fn lemma_chain_equal(x: Seq<int>, u: int, v: int)
    requires
        0 <= u < x.len(),
        0 <= v < x.len(),
        x[u] == x[v],
        is_l(x, u) == is_l(x, v),
        same_chain(x, u + 1, v + 1),
    ensures
        !substring_less(x, u, v),
        !substring_less(x, v, u),
    decreases x.len() - u,
{
    if u + 1 < x.len() && v + 1 < x.len() && !is_lms(x, u + 1) {
        assert(!is_lms(x, v + 1));
        lemma_chain_equal(x, u + 1, v + 1);
    } else if u + 1 < x.len() {
        assert(is_lms(x, u + 1) && is_lms(x, v + 1) && x[u + 1] == x[v + 1]);
    } else {
        assert(v + 1 >= x.len());
        assert(!substring_less(x, u + 1, v + 1) && !substring_less(x, v + 1, u + 1));
    }
}

/// Whether the marks in front of `sa` say where the substrings of the sorted suffixes change:
/// where there is a mark the next substring is greater, elsewhere the next is tied.
pub open spec fn marks_names(t: Seq<i32>, low: Seq<i32>, m: int, sa: Seq<i32>) -> bool {
    let x = text32(t);
    &&& m <= sa.len()
    &&& substrings_sorted(t, low, m)
    &&& forall|j: int| #![trigger low[j]] 0 <= j < m ==> unmarked(sa[j]) == low[j]
    &&& forall|j: int| #![trigger low[j]] 0 <= j < m && sa[j] < 0 && j + 1 < m ==> substring_less(x, low[j] as int, low[j + 1] as int)
    &&& forall|j: int| 0 <= j < m && sa[j] >= 0 ==> #[trigger] next_tied(x, low, m, j)
}

/// Whether the sorted suffix behind the one in slot `j` is tied to it.
pub open spec fn next_tied(x: Seq<int>, low: Seq<i32>, m: int, j: int) -> bool {
    j + 1 < m && x[low[j] as int] == x[low[j + 1] as int] && tied(x, low[j] + 1, low[j + 1] + 1)
}

/// What the scans leave names the substrings.
pub proof fn lemma_low_marks(t: Seq<i32>, g: Field, low: Seq<i32>, sa: Seq<i32>)
    requires
        g.x == text32(t),
        t.len() <= i32::MAX,
        fielded(g),
        lows(g, low),
        low.len() <= sa.len(),
        forall|j: int| #![trigger low[j]] 0 <= j < low.len() ==> unmarked(sa[j]) == low[j] && low_true(g, low, sa, j),
    ensures
        marks_names(t, low, low.len() as int, sa),
{
    let x = text32(t);
    let m = low.len() as int;
    assert forall|b: int, c: int| 0 <= b < c < m implies #[trigger] low[b] != #[trigger] low[c] && !substring_less(
        x,
        low[c] as int,
        low[b] as int,
    ) by {
        let u = low[b] as int;
        let v = low[c] as int;
        assert(induced_less(x, g.f, g.slot, low[b] as int, low[c] as int));
        assert(is_lms(x, low[b] as int) && is_lms(x, low[c] as int));
        lemma_induced_irreflexive(x, g.f, g.slot, u);
        if substring_less(x, v, u) {
            lemma_substrings_induce(x, g.f, g.slot, v, u);
            lemma_induced_transitive(x, g.f, g.slot, u, v, u);
        }
    }
    assert forall|j: int| #![trigger low[j]] 0 <= j < m && sa[j] < 0 && j + 1 < m implies substring_less(
        x,
        low[j] as int,
        low[j + 1] as int,
    ) by {
        assert(low_true(g, low, sa, j));
        assert(low[j] != low[j + 1] && !substring_less(x, low[j + 1] as int, low[j] as int));
        assert(is_lms(x, low[j] as int) && is_lms(x, low[j + 1] as int));
        if !substring_less(x, low[j] as int, low[j + 1] as int) {
            lemma_equal_chain(x, low[j] as int, low[j + 1] as int);
        }
    }
    assert forall|j: int| 0 <= j < m && sa[j] >= 0 implies #[trigger] next_tied(x, low, m, j) by {
        let p = low[j];
        assert(unmarked(sa[j]) == p);
        assert(low_true(g, low, sa, j));
        assert(low_pair(g, low, j) && linked(g, low[j] + 1, low[j + 1] + 1));
    }
}

/// Suffixes between two marks are tied.
proof fn lemma_same_name(t: Seq<i32>, low: Seq<i32>, m: int, sa: Seq<i32>, j: int, l: int)
    requires
        marks_names(t, low, m, sa),
        0 <= j <= l < m,
        mark_count(sa, j) == mark_count(sa, l),
    ensures
        text32(t)[low[j] as int] == text32(t)[low[l] as int],
        tied(text32(t), low[j] + 1, low[l] + 1),
    decreases l - j,
{
    let x = text32(t);
    if j < l {
        lemma_mark_count(sa, j, l - 1);
        lemma_no_mark(sa, j, l, l - 1);
        lemma_same_name(t, low, m, sa, j, l - 1);
        assert(next_tied(x, low, m, l - 1));
        lemma_tied_transitive(x, low[j] + 1, low[l - 1] + 1, low[l] + 1);
    } else {
        lemma_same_self(x, low[j] + 1);
    }
}

/// Suffixes behind a mark have greater substrings.
proof fn lemma_other_name(t: Seq<i32>, low: Seq<i32>, m: int, sa: Seq<i32>, j: int, l: int)
    requires
        marks_names(t, low, m, sa),
        0 <= j < l < m,
        mark_count(sa, j) != mark_count(sa, l),
    ensures
        substring_less(text32(t), low[j] as int, low[l] as int),
{
    let x = text32(t);
    let z = lemma_mark_between(sa, j, l);
    assert(low[z] == unmarked(sa[z]));
    assert(is_lms(x, low[j] as int) && is_lms(x, low[l] as int) && is_lms(x, low[z] as int) && is_lms(x, low[z + 1] as int));
    let a = low[z] as int;
    if z + 1 < l {
        lemma_substring_between(x, a, low[z + 1] as int, low[l] as int);
        assert(low[z + 1] != low[l]);
    }
    assert(substring_less(x, a, low[l] as int));
    if j < z {
        lemma_substring_between(x, a, low[l] as int, low[j] as int);
        assert(low[j] != low[z]);
    }
}

/// The name of the leftmost suffix of type S at `p`.
pub open spec fn lane_name(low: Seq<i32>, m: int, sa: Seq<i32>, p: int) -> int {
    mark_count(sa, slot_of(low, m, p))
}

/// The names in the order of the text.
pub open spec fn lane_text(low: Seq<i32>, m: int, sa: Seq<i32>, p: Seq<i32>) -> Seq<int> {
    Seq::new(p.len(), |a: int| lane_name(low, m, sa, p[a] as int))
}

/// Names from marks name the substrings.
pub proof fn lemma_lane_names(t: Seq<i32>, low: Seq<i32>, m: int, sa: Seq<i32>, p: Seq<i32>)
    requires
        t.len() <= i32::MAX,
        marks_names(t, low, m, sa),
        forall|a: int| 0 <= a < p.len() ==> is_lms(text32(t), #[trigger] p[a] as int),
    ensures
        names_substrings(text32(t), p, lane_text(low, m, sa, p)),
{
    let x = text32(t);
    let r = lane_text(low, m, sa, p);
    assert forall|a: int, b: int| #![trigger p[a], p[b]] 0 <= a < r.len() && 0 <= b < r.len() implies (r[a] < r[b]
        ==> substring_less(x, p[a] as int, p[b] as int)) && (r[a] == r[b] ==> x[p[a] as int] == x[p[b] as int] && (substring_less(
        x,
        p[a] as int,
        p[b] as int,
    ) ==> crate::ties::stop_symbol(x, p[a] + 1) < crate::ties::stop_symbol(x, p[b] + 1))) by {
        let u = p[a] as int;
        let v = p[b] as int;
        assert(is_lms(x, p[a] as int) && is_lms(x, p[b] as int));
        lemma_listed_slot(t, low, m, u);
        lemma_listed_slot(t, low, m, v);
        let j = slot_of(low, m, u);
        let l = slot_of(low, m, v);
        if j < l {
            lemma_mark_count(sa, j, l);
            if mark_count(sa, j) == mark_count(sa, l) {
                lemma_same_name(t, low, m, sa, j, l);
                if same_chain(x, u + 1, v + 1) {
                    lemma_chain_equal(x, u, v);
                }
            } else {
                lemma_other_name(t, low, m, sa, j, l);
            }
        } else if l < j {
            lemma_mark_count(sa, l, j);
            assert(!substring_less(x, low[j] as int, low[l] as int));
            if mark_count(sa, j) == mark_count(sa, l) {
                lemma_same_name(t, low, m, sa, l, j);
            }
        } else {
            lemma_substring_irreflexive(x, u);
        }
    }
}

/// The state of the naming in front of the sorted suffix `i`.
spec fn lane_named_at(t: Seq<i32>, low: Seq<i32>, m: int, sa: Seq<i32>, s0: Seq<i32>, st: (Seq<i32>, i32), i: int) -> bool {
    let x = text32(t);
    &&& st.0.len() == s0.len()
    &&& st.1 == mark_count(sa, i)
    &&& forall|j: int| 0 <= j < m || m + t.len() as int / 2 <= j < s0.len() ==> #[trigger] st.0[j] == s0[j]
    &&& forall|b: int| #![trigger low[b]] 0 <= b < i ==> st.0[m + low[b] as int / 2] == marked(mark_count(sa, b) as i32, true)
    &&& forall|h: int| 0 <= h < x.len() as int / 2 && #[trigger] spare(x, h) ==> st.0[m + h] == s0[m + h]
}

/// The naming runs from suffix to suffix.
proof fn lemma_lane_naming(t: Seq<i32>, low: Seq<i32>, m: int, sa: Seq<i32>, s0: Seq<i32>, i: int)
    requires
        1 <= t.len() <= i32::MAX,
        marks_names(t, low, m, sa),
        s0.len() == sa.len(),
        m + t.len() as int / 2 <= sa.len(),
        m <= t.len(),
        forall|j: int| 0 <= j < m ==> #[trigger] s0[j] == sa[j],
        0 <= i <= m,
    ensures
        ({
            let st = renumber_lms_run(m, (s0, 0), 0, i);
            st is Some && lane_named_at(t, low, m, sa, s0, st->0, i)
        }),
    decreases i,
{
    let x = text32(t);
    if i > 0 {
        let b0 = i - 1;
        lemma_lane_naming(t, low, m, sa, s0, b0);
        let st = renumber_lms_run(m, (s0, 0), 0, b0)->0;
        let p = low[b0] as int;
        assert(is_lms(x, low[b0] as int));
        lemma_half_taken(x, p);
        lemma_mark_count(sa, 0, b0);
        lemma_mark_count(sa, 0, i);
        assert(st.0[b0] == s0[b0] && s0[b0] == sa[b0]);
        assert(unmarked(sa[b0]) == low[b0]);
        let nx = (st.0.update(m + p / 2, marked(st.1, true)), mark_count(sa, i) as i32);
        assert(renumber_lms_step(m)(st, b0) == Some(nx));
        assert(renumber_lms_run(m, (s0, 0), 0, i) == Some(nx));
        assert forall|b: int| #![trigger low[b]] 0 <= b < i implies nx.0[m + low[b] as int / 2] == marked(
            mark_count(sa, b) as i32,
            true,
        ) by {
            if b < b0 {
                assert(low[b] != low[b0]);
                assert(is_lms(x, low[b] as int));
                if low[b] < low[b0] {
                    lemma_halves(x, low[b] as int, p);
                } else {
                    lemma_halves(x, p, low[b] as int);
                }
            }
        }
        assert forall|h: int| 0 <= h < x.len() as int / 2 && #[trigger] spare(x, h) implies nx.0[m + h] == s0[m + h] by {
            assert(st.0[m + h] == s0[m + h]);
        }
    } else {
        assert(mark_count(sa, 0) == 0);
    }
}

/// What is noted of the suffix at `p`: its name, marked.
pub open spec fn lane_note(low: Seq<i32>, m: int, sa: Seq<i32>) -> spec_fn(int) -> int {
    |p: int| marked(lane_name(low, m, sa, p) as i32, true) as int
}

/// How many leftmost suffixes of type S there are from half `h` on.
proof fn lemma_half_count(x: Seq<int>, h: int)
    requires
        0 <= h < x.len() as int / 2,
    ensures
        lms_count(x, 2 * h) == lms_count(x, 2 * h + 2) + bit(!spare(x, h)),
        is_lms(x, 2 * h) ==> lms_count(x, 2 * h) == lms_count(x, 2 * h + 2) + 1,
        is_lms(x, 2 * h + 1) ==> lms_count(x, 2 * h + 1) == lms_count(x, 2 * h + 2) + 1,
{
    reveal(spare);
    assert(lms_count(x, 2 * h) == lms_count(x, 2 * h + 1) + bit(is_lms(x, 2 * h)));
    assert(lms_count(x, 2 * h + 1) == lms_count(x, 2 * h + 2) + bit(is_lms(x, 2 * h + 1)));
    if is_lms(x, 2 * h) {
        law_lms_apart(x, 2 * h);
    }
}

/// Counts of leftmost suffixes of type S do not grow to the right.
proof fn lemma_lms_count_falls(x: Seq<int>, lo: int, hi: int)
    requires
        lo <= hi,
    ensures
        0 <= lms_count(x, hi) <= lms_count(x, lo),
    decreases x.len() - lo,
{
    if lo < x.len() {
        if lo < hi {
            lemma_lms_count_falls(x, lo + 1, hi);
        } else {
            lemma_lms_count_falls(x, lo + 1, lo + 1);
        }
    }
}

/// Where each leftmost suffix of type S stands when those from half `h` on have been gathered.
spec fn lane_gathered(t: Seq<i32>, low: Seq<i32>, m: int, sa: Seq<i32>, s: Seq<i32>, end: int, st: (Seq<i32>, isize), h: int) -> bool {
    let x = text32(t);
    &&& st.0.len() == s.len()
    &&& st.1 == end - 1 - lms_count(x, 2 * h)
    &&& forall|j: int| 0 <= j < m + h ==> #[trigger] st.0[j] == s[j]
    &&& forall|p: int| 2 * h <= p && #[trigger] is_lms(x, p) ==> st.0[end - lms_count(x, p)] == lane_name(low, m, sa, p)
}

/// Gathering runs from half to half.
proof fn lemma_lane_gather(t: Seq<i32>, low: Seq<i32>, m: int, sa: Seq<i32>, s: Seq<i32>, end: int, h: int)
    requires
        1 <= t.len() <= i32::MAX,
        m == lms_count(text32(t), 0),
        noted(text32(t), m, s, lane_note(low, m, sa)),
        lms_listed(t, low, m),
        t.len() <= end <= s.len() <= isize::MAX,
        0 <= h <= t.len() as int / 2,
    ensures
        ({
            let st = gather_marked_run((s, (end - 1) as isize), m + h, m + t.len() as int / 2);
            st is Some && lane_gathered(t, low, m, sa, s, end, st->0, h)
        }),
    decreases t.len() as int / 2 - h,
{
    let x = text32(t);
    let n = t.len() as int;
    law_lms_few(x);
    if h < n / 2 {
        lemma_lane_gather(t, low, m, sa, s, end, h + 1);
        let st = gather_marked_run((s, (end - 1) as isize), m + (h + 1), m + n / 2)->0;
        let l = st.1 as int;
        lemma_half_count(x, h);
        lemma_lms_count_falls(x, 0, 2 * h + 2);
        crate::lengths::lemma_lms_sparse_from(x, 2 * h + 2);
        assert(l >= m + h);
        assert(st.0[m + h] == s[m + h]);
        let e = s[m + h];
        let nx = (st.0.update(l, unmarked(e)), (l - bit(e < 0)) as isize);
        assert(gather_marked_run((s, (end - 1) as isize), m + h, m + n / 2) == gather_marked_step()(st, m + h));
        assert(gather_marked_step()(st, m + h) == Some(nx));
        assert((e < 0) == !spare(x, h)) by {
            if !spare(x, h) {
                reveal(spare);
                let p = if is_lms(x, 2 * h) {
                    2 * h
                } else {
                    2 * h + 1
                };
                assert(is_lms(x, p) && p / 2 == h);
                assert(s[m + p / 2] == lane_note(low, m, sa)(p));
                lemma_listed_slot(t, low, m, p);
                lemma_mark_count(sa, 0, slot_of(low, m, p));
            }
        }
        assert forall|p: int| 2 * h <= p && #[trigger] is_lms(x, p) implies nx.0[end - lms_count(x, p)] == lane_name(low, m, sa, p) by {
            lemma_listed_slot(t, low, m, p);
            lemma_mark_count(sa, 0, slot_of(low, m, p));
            if p < 2 * h + 2 {
                assert(p / 2 == h);
                assert(s[m + p / 2] == lane_note(low, m, sa)(p));
                assert(end - lms_count(x, p) == l);
            } else {
                lemma_lms_count_falls(x, 2 * h + 2, p);
                assert(st.0[end - lms_count(x, p)] == lane_name(low, m, sa, p));
                assert(lms_count(x, p) >= 1) by {
                    lemma_lms_count_falls(x, p + 1, p + 1);
                }
            }
        }
    } else {
        assert(lms_count(x, 2 * h) == 0) by {
            law_last_type(x);
            if 2 * h < x.len() {
                assert(!is_lms(x, 2 * h));
                assert(lms_count(x, 2 * h + 1) == 0);
            }
        }
        assert forall|p: int| 2 * h <= p && #[trigger] is_lms(x, p) implies false by {
            lemma_half_taken(x, p);
        }
    }
}

/// Naming and gathering: all names count the marks; where every name stands alone, the sorted
/// suffixes are left, elsewhere the names in the order of the text.
pub proof fn lemma_lane_renumbered(t: Seq<i32>, low: Seq<i32>, m: int, sa: Seq<i32>, fs: int)
    requires
        2 <= t.len() <= i32::MAX,
        marks_names(t, low, m, sa),
        1 <= m == lms_count(text32(t), 0),
        0 <= fs,
        t.len() + fs <= sa.len() <= isize::MAX,
    ensures
        ({
            let n = t.len() as int;
            let r = renumber_and_gather_run(sa, n, m, fs);
            &&& r is Some
            &&& r.unwrap().0.len() == sa.len()
            &&& r.unwrap().1 == mark_count(sa, m)
            &&& mark_count(sa, m) < m ==> forall|p: int| #[trigger] is_lms(text32(t), p) ==> r.unwrap().0[n + fs - lms_count(
                text32(t),
                p,
            )] == lane_name(low, m, sa, p)
            &&& mark_count(sa, m) >= m ==> lms_sorted(t, r.unwrap().0, m)
        }),
{
    let x = text32(t);
    let n = t.len() as int;
    law_lms_few(x);
    let s0 = cleared(sa, m, m + n / 2);
    lemma_lane_naming(t, low, m, sa, s0, m);
    let st = renumber_lms_run(m, (s0, 0), 0, m)->0;
    lemma_mark_count(sa, 0, m);
    assert(noted(x, m, st.0, lane_note(low, m, sa))) by {
        assert forall|p: int| #[trigger] is_lms(x, p) implies st.0[m + p / 2] == lane_note(low, m, sa)(p) by {
            lemma_listed_slot(t, low, m, p);
            let b = slot_of(low, m, p);
            assert(low[b] == p);
        }
        assert forall|h: int| 0 <= h < n / 2 && #[trigger] spare(x, h) implies st.0[m + h] == 0 by {
            assert(st.0[m + h] == s0[m + h]);
        }
    }
    if mark_count(sa, m) < m {
        lemma_lane_gather(t, low, m, sa, st.0, n + fs, 0);
    } else {
        let r = unmarked_prefix(st.0, m);
        assert forall|j: int| 0 <= j < m implies #[trigger] r[j] == low[j] && sa[j] < 0 by {
            assert(st.0[j] == s0[j]);
            assert(unmarked(sa[j]) == low[j]);
            lemma_mark_count(sa, j + 1, m);
            lemma_marks_all(sa, j, m);
        }
        assert forall|j: int, l: int| 0 <= j < l < m implies crate::order::suffix_less(
            x,
            #[trigger] r[j] as int,
            #[trigger] r[l] as int,
        ) by {
            assert(r[j] == low[j] && r[l] == low[l]);
            assert(sa[j] < 0);
            lemma_mark_count(sa, 0, j);
            lemma_mark_count(sa, j + 1, l);
            lemma_other_name(t, low, m, sa, j, l);
            assert(is_lms(x, low[j] as int) && is_lms(x, low[l] as int));
            law_substrings_decide(x, low[j] as int, low[l] as int);
        }
        assert forall|j: int| 0 <= j < m implies is_lms(x, #[trigger] r[j] as int) by {
            assert(r[j] == low[j]);
        }
        assert forall|p: int| #[trigger] is_lms(x, p) implies among(r, 0, m, p as i32) by {
            lemma_listed_slot(t, low, m, p);
            let b = slot_of(low, m, p);
            assert(r[b] == low[b]);
            lemma_among(r, 0, m, b);
        }
    }
}

/// Where there are as many marks as slots, all are marked.
proof fn lemma_marks_all(sa: Seq<i32>, j: int, m: int)
    requires
        0 <= j < m,
        mark_count(sa, m) >= m,
    ensures
        sa[j] < 0,
    decreases m,
{
    lemma_mark_count(sa, 0, m - 1);
    if j < m - 1 {
        lemma_marks_all(sa, j, m - 1);
    }
}

} // verus!
