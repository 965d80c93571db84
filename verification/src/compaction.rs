//! Why compaction works: the suffixes that need not be sorted again keep their ranks, and the
//! others make up the reduced text.

use vstd::prelude::*;
use crate::compact::{
    compact_lms_run, compact_name_run, compact_name_step, compact_names_omp, compact_names_run, split_name_run,
    split_name_step, split_names_omp,
};
use crate::gather::text32;
use crate::induction::slot_of;
use crate::kinds::{is_lms, law_last_type, law_lms_apart};
use crate::lengths::{
    law_lms_few, lemma_half_taken, lemma_next_lms, lemma_tally_bound, next_lms, noted, picks, spare,
    tally,
};
use crate::marks::{marked, unmarked};
use crate::name_order::{drops, lemma_short_names_grow, settled_at, short_name};
use crate::naming::{
    alone, lemma_listed_entry, lemma_listed_slot, lemma_name_bound, lemma_slots_apart, mark_note,
    nameable, settled,
};
use crate::partial_induction::lms_count;
use crate::placement::{among, lemma_among, lemma_found};
use crate::span::moved;

verus! {

/// Everything that compaction starts from: the sorted suffixes, and behind them their names.
pub open spec fn compactable(t: Seq<i32>, w: Seq<i32>, m: int, s: Seq<i32>, lead: bool) -> bool {
    &&& nameable(t, w, m)
    &&& s.len() == w.len()
    &&& forall|j: int| 0 <= j < m ==> #[trigger] s[j] == w[j]
    &&& noted(text32(t), m, s, mark_note(text32(t), w, m, lead))
    &&& forall|i: int| 0 <= i < t.len() ==> 0 <= #[trigger] t[i]
}

/// The text with the symbols of the suffixes marked that need not be sorted again.
pub open spec fn marked_text(t: Seq<i32>, w: Seq<i32>, m: int, u: Seq<i32>, lead: bool) -> bool {
    &&& u.len() == t.len()
    &&& forall|i: int| 0 <= i < t.len() ==> #[trigger] u[i] == marked(
        t[i],
        is_lms(text32(t), i) && settled(text32(t), w, m, i, lead),
    )
}

/// The entry of the sorted suffix `b` when the names have been split: its rank, marked, where it
/// need not be sorted again, and its short name elsewhere.
pub open spec fn split_entry(x: Seq<int>, w: Seq<i32>, m: int, b: int, lead: bool) -> i32 {
    if settled_at(x, w, m, b, lead) {
        (b - 0x8000_0000) as i32
    } else {
        short_name(x, w, m, b, lead) as i32
    }
}

/// The state of the splitting in front of the sorted suffix `i`.
spec fn split_at(t: Seq<i32>, w: Seq<i32>, m: int, s: Seq<i32>, st: (Seq<i32>, Seq<i32>, i32), i: int, lead: bool) -> bool {
    let x = text32(t);
    let n = t.len() as int;
    let (u, r, f) = st;
    &&& u.len() == t.len()
    &&& r.len() == s.len()
    &&& f == drops(x, w, m, i, lead)
    &&& forall|b: int| #![trigger w[b]] 0 <= b < i ==> r[m + w[b] as int / 2] == split_entry(x, w, m, b, lead)
    &&& forall|b: int| #![trigger w[b]] i <= b < m ==> r[m + w[b] as int / 2] == s[m + w[b] as int / 2]
    &&& forall|h: int| 0 <= h < n / 2 && #[trigger] spare(x, h) ==> r[m + h] == 0
    &&& forall|j: int| 0 <= j < m ==> #[trigger] r[j] == w[j]
    &&& forall|b: int| #![trigger w[b]] 0 <= b < i ==> u[w[b] as int] == marked(t[w[b] as int], settled_at(x, w, m, b, lead))
    &&& forall|b: int| #![trigger w[b]] i <= b < m ==> u[w[b] as int] == t[w[b] as int]
    &&& forall|p: int| 0 <= p < n && !is_lms(x, p) ==> #[trigger] u[p] == t[p]
}

/// What splitting the name of the sorted suffix `i` does.
proof fn lemma_split_does(t: Seq<i32>, w: Seq<i32>, m: int, s: Seq<i32>, st: (Seq<i32>, Seq<i32>, i32), i: int, lead: bool)
    requires
        compactable(t, w, m, s, lead),
        0 <= i < m,
        split_at(t, w, m, s, st, i, lead),
    ensures
        ({
            let x = text32(t);
            split_name_step(m)(st, i) == Some((
                st.0.update(w[i] as int, marked(t[w[i] as int], settled_at(x, w, m, i, lead))),
                st.1.update(m + w[i] as int / 2, split_entry(x, w, m, i, lead)),
                drops(x, w, m, i + 1, lead) as i32,
            ))
        }),
        0 <= drops(text32(t), w, m, i + 1, lead) <= i + 1,
        is_lms(text32(t), w[i] as int),
{
    let x = text32(t);
    let n = t.len() as int;
    let (u, r, f) = st;
    law_lms_few(x);
    let p = w[i] as int;
    assert(is_lms(x, w[i] as int));
    lemma_half_taken(x, p);
    lemma_listed_entry(t, w, m, i);
    lemma_name_bound(x, w, m, i);
    lemma_short_names_grow(t, w, m, i, i, lead);
    assert(r[i] == w[i]);
    assert(r[m + w[i] as int / 2] == s[m + w[i] as int / 2]);
    assert(s[m + p / 2] == mark_note(x, w, m, lead)(p));
    assert(settled_at(x, w, m, i, lead) == settled(x, w, m, p, lead)) by {
        reveal(settled_at);
    }
    assert(u[w[i] as int] == t[w[i] as int]);
    assert(0 <= t[p]);
    assert(u.update(p, u[p]) =~= u);
}

/// Splitting one more name keeps the state.
#[verifier::spinoff_prover]
proof fn lemma_split_step(t: Seq<i32>, w: Seq<i32>, m: int, s: Seq<i32>, st: (Seq<i32>, Seq<i32>, i32), i: int, lead: bool)
    requires
        compactable(t, w, m, s, lead),
        0 <= i < m,
        split_at(t, w, m, s, st, i, lead),
    ensures
        split_name_step(m)(st, i) is Some,
        split_at(t, w, m, s, split_name_step(m)(st, i)->0, i + 1, lead),
{
    let x = text32(t);
    let n = t.len() as int;
    let (u, r, f) = st;
    let p = w[i] as int;
    lemma_split_does(t, w, m, s, st, i, lead);
    law_lms_few(x);
    lemma_half_taken(x, p);
    let nx = split_name_step(m)(st, i)->0;
    assert forall|b: int| #![trigger w[b]] 0 <= b < i + 1 implies nx.1[m + w[b] as int / 2] == split_entry(x, w, m, b, lead)
        && nx.0[w[b] as int] == marked(t[w[b] as int], settled_at(x, w, m, b, lead)) by {
        if b < i {
            lemma_slots_apart(t, w, m, b, i);
            assert(w[b] != w[i]);
            assert(r[m + w[b] as int / 2] == split_entry(x, w, m, b, lead));
        }
    }
    assert forall|b: int| #![trigger w[b]] i + 1 <= b < m implies nx.1[m + w[b] as int / 2] == s[m + w[b] as int / 2]
        && nx.0[w[b] as int] == t[w[b] as int] by {
        lemma_slots_apart(t, w, m, b, i);
        assert(w[i] != w[b]);
        assert(r[m + w[b] as int / 2] == s[m + w[b] as int / 2]);
    }
    assert forall|h: int| 0 <= h < n / 2 && #[trigger] spare(x, h) implies nx.1[m + h] == 0 by {
        assert(r[m + h] == 0);
    }
}

/// The splitting runs from suffix to suffix.
proof fn lemma_split_run(t: Seq<i32>, w: Seq<i32>, m: int, s: Seq<i32>, i: int, lead: bool)
    requires
        compactable(t, w, m, s, lead),
        0 <= i <= m,
    ensures
        ({
            let st = split_name_run(m, (t, s, 0), 0, i);
            st is Some && split_at(t, w, m, s, st->0, i, lead)
        }),
    decreases i,
{
    if i > 0 {
        lemma_split_run(t, w, m, s, i - 1, lead);
        let st = split_name_run(m, (t, s, 0), 0, i - 1)->0;
        lemma_split_step(t, w, m, s, st, i - 1, lead);
    }
}

/// What is noted of the suffix at `p` when the names have been split.
pub open spec fn split_note(x: Seq<int>, w: Seq<i32>, m: int, lead: bool) -> spec_fn(int) -> int {
    |p: int| split_entry(x, w, m, slot_of(w, m, p), lead) as int
}

/// Splitting marks the suffixes that need not be sorted again in the text and notes their ranks,
/// and short names elsewhere.
proof fn lemma_split_noted(t: Seq<i32>, w: Seq<i32>, m: int, s: Seq<i32>, lead: bool)
    requires
        compactable(t, w, m, s, lead),
    ensures
        ({
            let x = text32(t);
            let r = split_names_omp(t, s, m);
            &&& r is Some
            &&& r.unwrap().2 == drops(x, w, m, m, lead)
            &&& r.unwrap().1.len() == s.len()
            &&& marked_text(t, w, m, r.unwrap().0, lead)
            &&& noted(x, m, r.unwrap().1, split_note(x, w, m, lead))
        }),
{
    let x = text32(t);
    let n = t.len() as int;
    law_lms_few(x);
    lemma_split_run(t, w, m, s, m, lead);
    let r = split_name_run(m, (t, s, 0), 0, m)->0;
    assert forall|p: int| #[trigger] is_lms(x, p) implies r.1[m + p / 2] == split_note(x, w, m, lead)(p) by {
        lemma_listed_slot(t, w, m, p);
        let b = slot_of(w, m, p);
        assert(r.1[m + w[b] as int / 2] == split_entry(x, w, m, b, lead));
    }
    assert forall|i: int| 0 <= i < n implies #[trigger] r.0[i] == marked(t[i], is_lms(x, i) && settled(x, w, m, i, lead)) by {
        if is_lms(x, i) {
            lemma_listed_slot(t, w, m, i);
            let b = slot_of(w, m, i);
            assert(r.0[w[b] as int] == marked(t[w[b] as int], settled_at(x, w, m, b, lead)));
            reveal(settled_at);
        }
    }
}

/// The positions from `lo` up to `hi` that are selected, in ascending order.
pub open spec fn selected(sel: spec_fn(int) -> bool, lo: int, hi: int) -> Seq<i32>
    decreases hi - lo,
{
    if hi <= lo {
        Seq::empty()
    } else if sel(lo) {
        seq![lo as i32] + selected(sel, lo + 1, hi)
    } else {
        selected(sel, lo + 1, hi)
    }
}

/// The selected positions are picked.
pub proof fn lemma_selected(sel: spec_fn(int) -> bool, lo: int, hi: int)
    requires
        0 <= lo,
        hi <= i32::MAX,
    ensures
        selected(sel, lo, hi).len() == tally(sel, lo, hi),
        picks(sel, selected(sel, lo, hi), lo, hi, 0, selected(sel, lo, hi).len() as int),
    decreases hi - lo,
{
    let a = selected(sel, lo, hi);
    if lo < hi {
        lemma_selected(sel, lo + 1, hi);
        let b = selected(sel, lo + 1, hi);
        if sel(lo) {
            assert forall|k: int| 0 <= k < a.len() implies lo <= #[trigger] a[k] < hi && sel(a[k] as int) by {
                if k > 0 {
                    assert(a[k] == b[k - 1]);
                }
            }
            assert forall|k: int, l: int| 0 <= k < l < a.len() implies #[trigger] a[k] < #[trigger] a[l] by {
                assert(a[l] == b[l - 1]);
                if k > 0 {
                    assert(a[k] == b[k - 1]);
                }
            }
            assert forall|p: int| lo <= p < hi && #[trigger] sel(p) implies among(a, 0, a.len() as int, p as i32) by {
                if p == lo {
                    lemma_among(a, 0, a.len() as int, 0);
                } else {
                    let k = lemma_found(b, 0, b.len() as int, p as i32);
                    assert(a[k + 1] == b[k]);
                    lemma_among(a, 0, a.len() as int, k + 1);
                }
            }
        }
    }
}

/// Which leftmost suffixes of type S need not be sorted again.
pub open spec fn ranked(x: Seq<int>, w: Seq<i32>, m: int, lead: bool) -> spec_fn(int) -> bool {
    |p: int| is_lms(x, p) && settled(x, w, m, p, lead)
}

/// Which leftmost suffixes of type S are sorted again.
pub open spec fn open_lms(x: Seq<int>, w: Seq<i32>, m: int, lead: bool) -> spec_fn(int) -> bool {
    |p: int| is_lms(x, p) && !settled(x, w, m, p, lead)
}

/// Tallies grow with the range.
proof fn lemma_tally_grows(sel: spec_fn(int) -> bool, lo: int, mid: int, hi: int)
    requires
        lo <= mid <= hi,
    ensures
        tally(sel, mid, hi) <= tally(sel, lo, hi),
    decreases mid - lo,
{
    if lo < mid {
        lemma_tally_grows(sel, lo + 1, mid, hi);
    }
}

/// Each leftmost suffix of type S is sorted again or not.
proof fn lemma_tallies_add_up(x: Seq<int>, w: Seq<i32>, m: int, lo: int, lead: bool)
    requires
        0 <= lo <= x.len(),
    ensures
        tally(ranked(x, w, m, lead), lo, x.len() as int) + tally(open_lms(x, w, m, lead), lo, x.len() as int) == lms_count(x, lo),
    decreases x.len() - lo,
{
    if lo < x.len() {
        lemma_tallies_add_up(x, w, m, lo + 1, lead);
    }
}

/// A first leftmost suffix of type S is sorted again.
proof fn lemma_some_open(x: Seq<int>, w: Seq<i32>, m: int, lo: int, lead: bool)
    requires
        0 <= lo <= x.len(),
        lms_count(x, lo) > 0,
        forall|p: int| 0 <= p < lo ==> !#[trigger] is_lms(x, p),
    ensures
        tally(open_lms(x, w, m, lead), lo, x.len() as int) > 0,
    decreases x.len() - lo,
{
    let sel = open_lms(x, w, m, lead);
    if lo < x.len() {
        if is_lms(x, lo) {
            if settled(x, w, m, lo, lead) {
                let q = choose|q: int| is_lms(x, q) && #[trigger] next_lms(x, q) == lo && alone(x, w, m, q, lead);
                lemma_next_lms(x, q);
                assert(!is_lms(x, q));
            }
            lemma_tally_bound(sel, lo + 1, x.len() as int);
            assert(sel(lo));
        } else {
            lemma_some_open(x, w, m, lo + 1, lead);
        }
    }
}

/// The suffixes that need not be sorted again, by their slots.
spec fn settled_slots(x: Seq<int>, w: Seq<i32>, m: int, b: int, lead: bool) -> Set<int> {
    Set::new(|c: int| 0 <= c < b && settled_at(x, w, m, c, lead))
}

/// Drops count slots.
proof fn lemma_settled_slots(x: Seq<int>, w: Seq<i32>, m: int, b: int, lead: bool)
    requires
        0 <= b,
    ensures
        settled_slots(x, w, m, b, lead).finite(),
        settled_slots(x, w, m, b, lead).len() == drops(x, w, m, b, lead),
    decreases b,
{
    if b > 0 {
        lemma_settled_slots(x, w, m, b - 1, lead);
        if settled_at(x, w, m, b - 1, lead) {
            assert(settled_slots(x, w, m, b, lead) =~= settled_slots(x, w, m, b - 1, lead).insert(b - 1));
        } else {
            assert(settled_slots(x, w, m, b, lead) =~= settled_slots(x, w, m, b - 1, lead));
        }
    } else {
        assert(settled_slots(x, w, m, b, lead) =~= Set::empty());
    }
}

/// The selected positions as a set.
spec fn chosen(sel: spec_fn(int) -> bool, lo: int, hi: int) -> Set<int> {
    Set::new(|p: int| lo <= p < hi && sel(p))
}

/// Tallies count positions.
proof fn lemma_chosen(sel: spec_fn(int) -> bool, lo: int, hi: int)
    ensures
        chosen(sel, lo, hi).finite(),
        chosen(sel, lo, hi).len() == tally(sel, lo, hi),
    decreases hi - lo,
{
    if lo < hi {
        lemma_chosen(sel, lo + 1, hi);
        if sel(lo) {
            assert(chosen(sel, lo, hi) =~= chosen(sel, lo + 1, hi).insert(lo));
        } else {
            assert(chosen(sel, lo, hi) =~= chosen(sel, lo + 1, hi));
        }
    } else {
        assert(chosen(sel, lo, hi) =~= Set::empty());
    }
}

/// Drops and tallies count the same suffixes.
proof fn lemma_drops_total(t: Seq<i32>, w: Seq<i32>, m: int, lead: bool)
    requires
        nameable(t, w, m),
    ensures
        drops(text32(t), w, m, m, lead) == tally(ranked(text32(t), w, m, lead), 0, t.len() as int),
{
    let x = text32(t);
    let n = t.len() as int;
    let from = settled_slots(x, w, m, m, lead);
    let to = chosen(ranked(x, w, m, lead), 0, n);
    let g = |b: int| w[b] as int;
    reveal(settled_at);
    lemma_settled_slots(x, w, m, m, lead);
    lemma_chosen(ranked(x, w, m, lead), 0, n);
    assert(vstd::relations::injective_on(g, from)) by {
        assert forall|b: int, c: int| from.contains(b) && from.contains(c) && #[trigger] g(b) == #[trigger] g(c) implies b == c by {
            if b < c {
                assert(w[b] != w[c]);
            } else if c < b {
                assert(w[c] != w[b]);
            }
        }
    }
    assert(from.map(g) =~= to) by {
        assert forall|p: int| to.contains(p) implies from.map(g).contains(p) by {
            lemma_listed_slot(t, w, m, p);
            let b = slot_of(w, m, p);
            assert(from.contains(b) && g(b) == p);
        }
        assert forall|p: int| from.map(g).contains(p) implies to.contains(p) by {
            let b = choose|b: int| from.contains(b) && g(b) == p;
            assert(is_lms(x, w[b] as int));
        }
    }
    vstd::set_lib::lemma_map_size(from, to, g);
}

/// What stands in the slots of the pair of positions `2 * h` and `2 * h + 1`.
proof fn lemma_pair(x: Seq<int>, sel: spec_fn(int) -> bool, h: int, p: int)
    requires
        0 <= h,
        2 * h + 1 < x.len() <= i32::MAX,
        forall|q: int| #[trigger] sel(q) ==> is_lms(x, q),
        p == -1 || ((p == 2 * h || p == 2 * h + 1) && is_lms(x, p)),
        p == -1 ==> spare(x, h),
    ensures
        p == -1 || !sel(p) ==> selected(sel, 2 * h, x.len() as int) == selected(sel, 2 * h + 2, x.len() as int),
        p >= 0 && sel(p) ==> selected(sel, 2 * h, x.len() as int) == seq![p as i32] + selected(sel, 2 * h + 2, x.len() as int),
{
    reveal(spare);
    let n = x.len() as int;
    reveal_with_fuel(selected, 3);
    if p == 2 * h {
        law_lms_apart(x, p);
    } else if p == 2 * h + 1 && is_lms(x, 2 * h) {
        law_lms_apart(x, 2 * h);
    }
    assert(selected(sel, 2 * h + 1, n) == (if sel(2 * h + 1) { seq![(2 * h + 1) as i32] + selected(sel, 2 * h + 2, n) } else {
        selected(sel, 2 * h + 2, n)
    }));
}

/// The state of the compaction when the halves from `h` on have been visited.
spec fn compact_at(t: Seq<i32>, w: Seq<i32>, m: int, end: int, s: Seq<i32>, st: (Seq<i32>, usize, usize), h: int, lead: bool) -> bool {
    let x = text32(t);
    let n = t.len() as int;
    let d = selected(ranked(x, w, m, lead), 2 * h, n);
    let k = selected(open_lms(x, w, m, lead), 2 * h, n);
    let (cur, l, r) = st;
    &&& cur.len() == s.len()
    &&& l == m - 1 - d.len()
    &&& r == end - 1 - k.len()
    &&& forall|i: int| #![trigger d[i]] 0 <= i < d.len() ==> cur[m - d.len() + i] == slot_of(w, m, d[i] as int)
    &&& forall|i: int| #![trigger k[i]] 0 <= i < k.len() ==> cur[end - k.len() + i] == short_name(
        x,
        w,
        m,
        slot_of(w, m, k[i] as int),
        lead,
    ) - 1
    &&& forall|j: int| end <= j < s.len() ==> #[trigger] cur[j] == s[j]
}

/// How many suffixes are left at half `h`.
pub proof fn lemma_left_counts(t: Seq<i32>, w: Seq<i32>, m: int, h: int, lead: bool)
    requires
        nameable(t, w, m),
        0 <= h,
        2 * h <= t.len(),
    ensures
        ({
            let x = text32(t);
            let n = t.len() as int;
            let d = selected(ranked(x, w, m, lead), 2 * h, n);
            let k = selected(open_lms(x, w, m, lead), 2 * h, n);
            let f = drops(x, w, m, m, lead);
            &&& d.len() <= f
            &&& k.len() <= m - f
            &&& h == 0 ==> d.len() == f && k.len() == m - f
            &&& 0 <= f < m
        }),
{
    let x = text32(t);
    let n = t.len() as int;
    lemma_selected(ranked(x, w, m, lead), 2 * h, n);
    lemma_selected(open_lms(x, w, m, lead), 2 * h, n);
    lemma_tally_grows(ranked(x, w, m, lead), 0, 2 * h, n);
    lemma_tally_grows(open_lms(x, w, m, lead), 0, 2 * h, n);
    lemma_tallies_add_up(x, w, m, 0, lead);
    lemma_drops_total(t, w, m, lead);
    lemma_some_open(x, w, m, 0, lead);
    lemma_tally_bound(ranked(x, w, m, lead), 0, n);
}

/// Visiting one more half keeps the state.
#[verifier::spinoff_prover]
proof fn lemma_compact_step(
    t: Seq<i32>,
    w: Seq<i32>,
    m: int,
    end: int,
    s: Seq<i32>,
    st: (Seq<i32>, usize, usize),
    h: int,
    lead: bool,
)
    requires
        nameable(t, w, m),
        noted(text32(t), m, s, split_note(text32(t), w, m, lead)),
        t.len() <= end <= s.len(),
        end <= i32::MAX,
        0 <= h < t.len() as int / 2,
        compact_at(t, w, m, end, s, st, h + 1, lead),
    ensures
        ({
            let source = s.subrange(m, m + t.len() as int / 2);
            let nx = compact_name_step(source)(st, h);
            nx is Some && compact_at(t, w, m, end, s, nx->0, h, lead)
        }),
{
    let x = text32(t);
    let n = t.len() as int;
    let source = s.subrange(m, m + n / 2);
    let (cur, l, r) = st;
    let sd = ranked(x, w, m, lead);
    let sk = open_lms(x, w, m, lead);
    let d0 = selected(sd, 2 * (h + 1), n);
    let k0 = selected(sk, 2 * (h + 1), n);
    law_lms_few(x);
    lemma_left_counts(t, w, m, h + 1, lead);
    lemma_left_counts(t, w, m, h, lead);
    assert(source[h] == s[m + h]);
    let d = selected(sd, 2 * h, n);
    let k = selected(sk, 2 * h, n);
    let nx = compact_name_step(source)(st, h)->0;
    let v = s[m + h];
    if spare(x, h) {
        lemma_pair(x, sd, h, -1);
        lemma_pair(x, sk, h, -1);
        assert(v == 0);
        assert(d == d0 && k == k0);
        assert forall|i: int| #![trigger d[i]] 0 <= i < d.len() implies nx.0[m - d.len() + i] == slot_of(w, m, d[i] as int) by {
            assert(cur[m - d.len() + i] == slot_of(w, m, d0[i] as int));
        }
        assert forall|i: int| #![trigger k[i]] 0 <= i < k.len() implies nx.0[end - k.len() + i] == short_name(
            x,
            w,
            m,
            slot_of(w, m, k[i] as int),
            lead,
        ) - 1 by {
            assert(k0[i] == k[i]);
        }
    } else {
        let p = lemma_half_owner(x, h);
        lemma_pair(x, sd, h, p);
        lemma_pair(x, sk, h, p);
        lemma_listed_slot(t, w, m, p);
        let b = slot_of(w, m, p);
        assert(s[m + p / 2] == split_note(x, w, m, lead)(p));
        assert(v == split_entry(x, w, m, b, lead));
        assert(settled_at(x, w, m, b, lead) == settled(x, w, m, p, lead)) by {
            reveal(settled_at);
        }
        lemma_short_names_grow(t, w, m, b, b, lead);
        lemma_name_bound(x, w, m, b);
        if settled(x, w, m, p, lead) {
            assert(sd(p) && !sk(p));
            assert(d == seq![p as i32] + d0 && k == k0);
            assert(v < 0 && unmarked(v) == b);
            assert(nx.1 == l - 1 && nx.2 == r);
        } else {
            assert(!sd(p) && sk(p));
            assert(d == d0 && k == seq![p as i32] + k0);
            assert(v > 0);
            assert(nx.1 == l && nx.2 == r - 1);
        }
        assert forall|i: int| #![trigger d[i]] 0 <= i < d.len() implies nx.0[m - d.len() + i] == slot_of(w, m, d[i] as int) by {
            if settled(x, w, m, p, lead) {
                if i > 0 {
                    assert(d[i] == d0[i - 1]);
                    assert(cur[m - d0.len() + (i - 1)] == slot_of(w, m, d0[i - 1] as int));
                }
            } else {
                assert(d0[i] == d[i]);
            }
        }
        assert forall|i: int| #![trigger k[i]] 0 <= i < k.len() implies nx.0[end - k.len() + i] == short_name(
            x,
            w,
            m,
            slot_of(w, m, k[i] as int),
            lead,
        ) - 1 by {
            if settled(x, w, m, p, lead) {
                assert(k0[i] == k[i]);
            } else {
                if i > 0 {
                    assert(k[i] == k0[i - 1]);
                    assert(cur[end - k0.len() + (i - 1)] == short_name(x, w, m, slot_of(w, m, k0[i - 1] as int), lead) - 1);
                }
            }
        }
    }
}

/// The leftmost suffix of type S with half `h`.
proof fn lemma_half_owner(x: Seq<int>, h: int) -> (p: int)
    requires
        !spare(x, h),
    ensures
        p == 2 * h || p == 2 * h + 1,
        is_lms(x, p),
        p / 2 == h,
{
    reveal(spare);
    if is_lms(x, 2 * h) {
        2 * h
    } else {
        2 * h + 1
    }
}

/// The compaction runs from half to half.
proof fn lemma_compact_run(t: Seq<i32>, w: Seq<i32>, m: int, end: int, s: Seq<i32>, h: int, lead: bool)
    requires
        nameable(t, w, m),
        noted(text32(t), m, s, split_note(text32(t), w, m, lead)),
        t.len() <= end <= s.len(),
        end <= i32::MAX,
        0 <= h <= t.len() as int / 2,
    ensures
        ({
            let source = s.subrange(m, m + t.len() as int / 2);
            let st = compact_name_run(source, (s, (m - 1) as usize, (end - 1) as usize), h, t.len() as int / 2);
            st is Some && compact_at(t, w, m, end, s, st->0, h, lead)
        }),
    decreases t.len() as int / 2 - h,
{
    let x = text32(t);
    let n = t.len() as int;
    let source = s.subrange(m, m + n / 2);
    if h < n / 2 {
        lemma_compact_run(t, w, m, end, s, h + 1, lead);
        let st = compact_name_run(source, (s, (m - 1) as usize, (end - 1) as usize), h + 1, n / 2)->0;
        lemma_compact_step(t, w, m, end, s, st, h, lead);
    } else {
        law_last_type(x);
        law_lms_few(x);
        assert(selected(ranked(x, w, m, lead), 2 * (n / 2), n) =~= Seq::<i32>::empty()) by {
            reveal_with_fuel(selected, 3);
        }
        assert(selected(open_lms(x, w, m, lead), 2 * (n / 2), n) =~= Seq::<i32>::empty()) by {
            reveal_with_fuel(selected, 3);
        }
    }
}

/// Whether the last `m` of the first `end` slots hold the ranks of the suffixes that need not be
/// sorted again, and behind them the short names of the others, both in the order of the text.
pub open spec fn tail_ready(t: Seq<i32>, w: Seq<i32>, m: int, end: int, s: Seq<i32>, lead: bool) -> bool {
    let x = text32(t);
    let n = t.len() as int;
    let f = drops(x, w, m, m, lead);
    let d = selected(ranked(x, w, m, lead), 0, n);
    let k = selected(open_lms(x, w, m, lead), 0, n);
    &&& forall|i: int| #![trigger d[i]] 0 <= i < f ==> s[end - m + i] == slot_of(w, m, d[i] as int)
    &&& forall|i: int| #![trigger k[i]] 0 <= i < m - f ==> s[end - m + f + i] == short_name(
        x,
        w,
        m,
        slot_of(w, m, k[i] as int),
        lead,
    ) - 1
}

/// Compaction puts the ranks of the suffixes that need not be sorted again and the reduced text
/// of the others at the end of the free space, and marks the former in the text.
pub proof fn law_compacted(t: Seq<i32>, w: Seq<i32>, m: int, s: Seq<i32>, fs: int, lead: bool)
    requires
        compactable(t, w, m, s, lead),
        0 <= fs,
        t.len() + fs <= s.len(),
        t.len() + fs <= i32::MAX,
    ensures
        ({
            let c = compact_lms_run(t, s, t.len() as int, m, fs);
            &&& c is Some
            &&& c.unwrap().2 == drops(text32(t), w, m, m, lead)
            &&& c.unwrap().1.len() == s.len()
            &&& marked_text(t, w, m, c.unwrap().0, lead)
            &&& tail_ready(t, w, m, t.len() + fs, c.unwrap().1, lead)
        }),
{
    let x = text32(t);
    let n = t.len() as int;
    let end = n + fs;
    law_lms_few(x);
    lemma_split_noted(t, w, m, s, lead);
    let s1 = split_names_omp(t, s, m).unwrap().1;
    let f = drops(x, w, m, m, lead);
    lemma_compact_run(t, w, m, end, s1, 0, lead);
    lemma_left_counts(t, w, m, 0, lead);
    let source = s1.subrange(m, m + n / 2);
    let st = compact_name_run(source, (s1, (m - 1) as usize, (end - 1) as usize), 0, n / 2)->0;
    assert(s1.subrange(m + 0, m + 0 + n / 2) =~= source);
    let d = selected(ranked(x, w, m, lead), 0, n);
    let k = selected(open_lms(x, w, m, lead), 0, n);
    assert(d.len() == f && k.len() == m - f);
    assert(compact_names_run(s1, m, m, end, 0, n / 2) is Some) by {
        if n / 2 <= 0 {
            assert(m == 0);
        }
    }
    let c = moved(st.0, m - f, f, end - m);
    assert(compact_names_omp(s1, n, m, fs, f) == Some(c));
    assert forall|i: int| #![trigger d[i]] 0 <= i < f implies c[end - m + i] == slot_of(w, m, d[i] as int) by {
        assert(st.0[m - d.len() + i] == slot_of(w, m, d[i] as int));
    }
    assert forall|i: int| #![trigger k[i]] 0 <= i < m - f implies c[end - m + f + i] == short_name(
        x,
        w,
        m,
        slot_of(w, m, k[i] as int),
        lead,
    ) - 1 by {
        assert(st.0[end - k.len() + i] == short_name(x, w, m, slot_of(w, m, k[i] as int), lead) - 1);
    }
}

} // verus!
