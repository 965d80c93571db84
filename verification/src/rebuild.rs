//! What restoring the sorted leftmost suffixes of type S does, step by step.

use vstd::prelude::*;
use crate::compact::{
    compact_lms_run, merge_compacted_run, merge_nonunique_block, merge_nonunique_run, merge_nonunique_step, merge_unique_block,
    merge_unique_run, merge_unique_step, others_restored, ranks_restored, reconstruct_compacted_1k_run, reconstruct_compacted_2k_run,
};
use crate::compaction::{
    compactable, law_compacted, lemma_left_counts, lemma_selected, marked_text, open_lms, ranked, selected, tail_ready,
};
use crate::bounds::counted;
use crate::gather::{
    cleared, count_and_gather_compacted_lms_suffixes_32s_2k_mode, count_and_gather_compacted_lms_suffixes_32s_2k_run,
    count_and_gather_lms_suffixes_32s_2k_mode, count_and_gather_lms_suffixes_32s_2k_run,
    gather_compacted_lms_suffixes_32s_mode, gather_compacted_lms_suffixes_32s_run, gather_lms_suffixes_32s_run, lms_slot,
    run_type, text32, zeros,
};
use crate::induction::{slot_of, symbols_below};
use crate::kinds::{is_lms, law_last_type, law_lms_apart, slot_count};
use crate::partial_induction::lms_count;
use crate::recount::{has_slots, lemma_tally_last, lemma_counting_first, lemma_marked_counts};
use crate::lengths::{
    gathers, law_lms_few, lemma_gathered_all, lemma_gathering, lemma_tally_bound, lists_all, picks, tally,
};
use crate::main_32s::reduced_sorted;
use crate::marks::{bit, marked, unmarked};
use crate::name_order::{drops, settled_at, short_name};
use crate::naming::{lemma_listed_slot, nameable, settled};
use crate::order::is_suffix_array;
use crate::placement::lms_sorted;
use crate::renumber::{reconstruct_lms_run, reconstruct_lms_step, reconstruct_lms_suffixes_run};
use crate::restoring::{
    law_merged_sorted, lemma_marked_types, lemma_open_len, lemma_open_ordered, lemma_picks_agree, merged, open_list,
    open_ordered, reduced_text,
};
use crate::span::moved;

verus! {

/// Where a selected position stands.
proof fn lemma_selected_at(sel: spec_fn(int) -> bool, lo: int, i: int, hi: int)
    requires
        0 <= lo <= i < hi <= i32::MAX,
        sel(i),
    ensures
        0 <= tally(sel, lo, i) < selected(sel, lo, hi).len(),
        selected(sel, lo, hi)[tally(sel, lo, i)] == i,
    decreases i - lo,
{
    if lo < i {
        lemma_selected_at(sel, lo + 1, i, hi);
    } else {
        assert(tally(sel, lo, i) == 0);
    }
}

/// Selections that agree select the same.
pub proof fn lemma_tally_same(a: spec_fn(int) -> bool, b: spec_fn(int) -> bool, lo: int, hi: int)
    requires
        forall|p: int| lo <= p < hi ==> #[trigger] a(p) == b(p),
    ensures
        tally(a, lo, hi) == tally(b, lo, hi),
    decreases hi - lo,
{
    if lo < hi {
        lemma_tally_same(a, b, lo + 1, hi);
        assert(a(lo) == b(lo));
    }
}

/// Taking suffixes in place of ranks runs from slot to slot.
pub proof fn lemma_reconstruct(base: int, s: Seq<i32>, size: int, i: int)
    requires
        0 <= i <= size <= base,
        base + size <= s.len(),
        forall|j: int| 0 <= j < size ==> 0 <= #[trigger] s[j] < size,
    ensures
        ({
            let r = reconstruct_lms_run(base, s, 0, i);
            &&& r is Some
            &&& r.unwrap().len() == s.len()
            &&& forall|j: int| 0 <= j < i ==> #[trigger] r.unwrap()[j] == s[base + s[j]]
            &&& forall|j: int| i <= j < s.len() ==> #[trigger] r.unwrap()[j] == s[j]
        }),
    decreases i,
{
    if i > 0 {
        lemma_reconstruct(base, s, size, i - 1);
        let r = reconstruct_lms_run(base, s, 0, i - 1)->0;
        assert(r[i - 1] == s[i - 1]);
        assert(r[base + s[i - 1]] == s[base + s[i - 1]]);
        assert(reconstruct_lms_run(base, s, 0, i) == reconstruct_lms_step(base)(r, i - 1));
    }
}

/// Whether the slots from `at` on hold the ranks of the suffixes that need not be sorted again,
/// and behind them the others in their order.
pub open spec fn staged(t: Seq<i32>, w: Seq<i32>, m: int, s: Seq<i32>, v: Seq<i32>, lead: bool) -> bool {
    let x = text32(t);
    let n = t.len() as int;
    let f = drops(x, w, m, m, lead);
    let d = selected(ranked(x, w, m, lead), 0, n);
    let e = open_ordered(t, w, m, s, lead);
    &&& v.len() >= n
    &&& forall|b: int| 0 <= b < m ==> #[trigger] v[b] == 0
    &&& forall|i: int| #![trigger d[i]] 0 <= i < f ==> v[n - m - 1 + i] == slot_of(w, m, d[i] as int)
    &&& forall|i: int| #![trigger e[i]] 0 <= i < m - f ==> v[n - m - 1 + f + i] == e[i]
}

/// The state of the merge of the suffixes that need not be sorted again in front of position `i`.
spec fn unique_at(t: Seq<i32>, w: Seq<i32>, m: int, u: Seq<i32>, v: Seq<i32>, st: (Seq<i32>, Seq<i32>, i32, usize, bool), i: int, lead: bool) -> bool {
    let x = text32(t);
    let n = t.len() as int;
    let a = tally(ranked(x, w, m, lead), 0, i);
    let (y, s, rank, src, skip) = st;
    &&& y.len() == n
    &&& s.len() == v.len()
    &&& forall|j: int| 0 <= j < i ==> #[trigger] y[j] == t[j]
    &&& forall|j: int| i <= j < n ==> #[trigger] y[j] == u[j]
    &&& rank == v[n - m - 1 + a]
    &&& src == n - m + a
    &&& skip == (i > 0 && ranked(x, w, m, lead)(i - 1))
    &&& forall|j: int| m <= j < v.len() ==> #[trigger] s[j] == v[j]
    &&& forall|b: int| 0 <= b < m ==> #[trigger] s[b] == (if settled_at(x, w, m, b, lead) && w[b] < i { w[b] } else { 0 })
}

/// Merging one more position keeps the state.
#[verifier::spinoff_prover]
proof fn lemma_unique_step(
    t: Seq<i32>,
    w: Seq<i32>,
    m: int,
    u: Seq<i32>,
    e: Seq<i32>,
    v: Seq<i32>,
    st: (Seq<i32>, Seq<i32>, i32, usize, bool),
    i: int,
    lead: bool,
)
    requires
        nameable(t, w, m),
        forall|j: int| 0 <= j < t.len() ==> 0 <= #[trigger] t[j],
        marked_text(t, w, m, u, lead),
        staged(t, w, m, e, v, lead),
        0 <= i < t.len(),
        unique_at(t, w, m, u, v, st, i, lead),
    ensures
        merge_unique_step()(st, i) is Some,
        unique_at(t, w, m, u, v, merge_unique_step()(st, i)->0, i + 1, lead),
{
    let x = text32(t);
    let n = t.len() as int;
    let sel = ranked(x, w, m, lead);
    let (y, s, rank, src, skip) = st;
    law_lms_few(x);
    lemma_left_counts(t, w, m, 0, lead);
    lemma_tally_last(sel, 0, i);
    lemma_tally_bound(sel, 0, i);
    assert(u[i] == marked(t[i], is_lms(x, i) && settled(x, w, m, i, lead)));
    assert(0 <= t[i]);
    assert(y[i] == u[i]);
    if skip {
        law_lms_apart(x, i - 1);
        assert(!sel(i));
    }
    let nx = merge_unique_step()(st, i)->0;
    if sel(i) {
        lemma_selected_at(sel, 0, i, n);
        let a = tally(sel, 0, i);
        let d = selected(sel, 0, n);
        assert(d[a] == i);
        lemma_listed_slot(t, w, m, i);
        let b = slot_of(w, m, i);
        assert(rank == b);
        assert(settled_at(x, w, m, b, lead)) by {
            reveal(settled_at);
        }
        assert(nx.1 == s.update(b, i as i32));
        assert(nx.0 == y.update(i, unmarked(y[i])));
        assert forall|c: int| 0 <= c < m implies #[trigger] nx.1[c] == (if settled_at(x, w, m, c, lead) && w[c] < i + 1 {
            w[c]
        } else {
            0
        }) by {
            if c != b {
                assert(nx.1[c] == s[c]);
                if w[c] == i {
                    if b < c {
                        assert(w[b] != w[c]);
                    } else {
                        assert(w[c] != w[b]);
                    }
                }
            }
        }
    } else {
        assert(nx.0 == y && nx.1 == s);
        assert forall|c: int| 0 <= c < m implies #[trigger] nx.1[c] == (if settled_at(x, w, m, c, lead) && w[c] < i + 1 {
            w[c]
        } else {
            0
        }) by {
            if w[c] == i && settled_at(x, w, m, c, lead) {
                assert(is_lms(x, w[c] as int));
                reveal(settled_at);
                assert(sel(i));
            }
        }
    }
}

/// The merge of the suffixes that need not be sorted again runs from position to position.
proof fn lemma_unique_run(t: Seq<i32>, w: Seq<i32>, m: int, u: Seq<i32>, e: Seq<i32>, v: Seq<i32>, i: int, lead: bool)
    requires
        nameable(t, w, m),
        forall|j: int| 0 <= j < t.len() ==> 0 <= #[trigger] t[j],
        marked_text(t, w, m, u, lead),
        staged(t, w, m, e, v, lead),
        0 <= i <= t.len(),
    ensures
        ({
            let at = t.len() - m - 1;
            let st = merge_unique_run((u, v, v[at], (at + 1) as usize, false), 0, i);
            st is Some && unique_at(t, w, m, u, v, st->0, i, lead)
        }),
    decreases i,
{
    let x = text32(t);
    let at = t.len() - m - 1;
    law_lms_few(x);
    if i > 0 {
        lemma_unique_run(t, w, m, u, e, v, i - 1, lead);
        let st = merge_unique_run((u, v, v[at], (at + 1) as usize, false), 0, i - 1)->0;
        lemma_unique_step(t, w, m, u, e, v, st, i - 1, lead);
    } else {
        assert(tally(ranked(x, w, m, lead), 0, 0) == 0);
        assert forall|b: int| 0 <= b < m implies #[trigger] v[b] == (if settled_at(x, w, m, b, lead) && w[b] < 0 { w[b] } else { 0 }) by {
            assert(is_lms(x, w[b] as int));
        }
    }
}

/// The state of the merge of the others in front of slot `i`.
spec fn nonunique_at(t: Seq<i32>, w: Seq<i32>, m: int, e: Seq<i32>, v: Seq<i32>, st: (Seq<i32>, i32, usize), i: int, lead: bool) -> bool {
    let x = text32(t);
    let n = t.len() as int;
    let at = n - m - 1 + drops(x, w, m, m, lead);
    let z = i - drops(x, w, m, i, lead);
    let (s, next, src) = st;
    &&& s.len() == v.len()
    &&& next == v[at + z]
    &&& src == at + z + 1
    &&& forall|b: int| 0 <= b < i ==> #[trigger] s[b] == merged(t, w, m, e, b, lead)
    &&& forall|b: int| i <= b < v.len() ==> #[trigger] s[b] == v[b]
}

/// The merge of the others runs from slot to slot.
proof fn lemma_nonunique_run(t: Seq<i32>, w: Seq<i32>, m: int, e: Seq<i32>, v: Seq<i32>, i: int, lead: bool)
    requires
        nameable(t, w, m),
        t.len() <= v.len() <= isize::MAX,
        forall|b: int| 0 <= b < m ==> #[trigger] v[b] == (if settled_at(text32(t), w, m, b, lead) { w[b] } else { 0 }),
        open_ordered(t, w, m, e, lead).len() == m - drops(text32(t), w, m, m, lead),
        forall|j: int| #![trigger open_ordered(t, w, m, e, lead)[j]]
            0 <= j < m - drops(text32(t), w, m, m, lead) ==> v[t.len() - m - 1 + drops(text32(t), w, m, m, lead) + j]
                == open_ordered(t, w, m, e, lead)[j],
        0 <= i <= m,
    ensures
        ({
            let at = t.len() - m - 1 + drops(text32(t), w, m, m, lead);
            let st = merge_nonunique_run((v, v[at], (at + 1) as usize), 0, i);
            st is Some && nonunique_at(t, w, m, e, v, st->0, i, lead)
        }),
    decreases i,
{
    let x = text32(t);
    let n = t.len() as int;
    let f = drops(x, w, m, m, lead);
    let at = n - m - 1 + f;
    law_lms_few(x);
    lemma_open_len(x, w, m, m, lead);
    if i > 0 {
        lemma_nonunique_run(t, w, m, e, v, i - 1, lead);
        let st = merge_nonunique_run((v, v[at], (at + 1) as usize), 0, i - 1)->0;
        let (s, next, src) = st;
        let b = i - 1;
        let z = b - drops(x, w, m, b, lead);
        lemma_open_len(x, w, m, b, lead);
        crate::restoring::lemma_open_grows(x, w, m, i, m, lead);
        assert(s[b] == v[b]);
        assert(is_lms(x, w[b] as int));
        if settled_at(x, w, m, b, lead) {
            assert(merge_nonunique_step()(st, b) == Some(st));
        } else {
            assert(z < m - f);
            assert(v[at + z] == open_ordered(t, w, m, e, lead)[z]);
            let s1 = s.update(b, next);
            assert(s1[src as int] == v[src as int]);
            assert(merge_nonunique_step()(st, b) == Some((s1, v[src as int], (src + 1) as usize)));
        }
    }
}

/// Merging what has been staged leaves the text as it was and the suffixes in their order.
proof fn lemma_merged(t: Seq<i32>, w: Seq<i32>, m: int, u: Seq<i32>, e: Seq<i32>, v: Seq<i32>, lead: bool)
    requires
        nameable(t, w, m),
        forall|j: int| 0 <= j < t.len() ==> 0 <= #[trigger] t[j],
        marked_text(t, w, m, u, lead),
        staged(t, w, m, e, v, lead),
        v.len() <= isize::MAX,
        open_ordered(t, w, m, e, lead).len() == m - drops(text32(t), w, m, m, lead),
    ensures
        ({
            let r = merge_compacted_run(u, v, t.len() as int, m, drops(text32(t), w, m, m, lead), 1, 1);
            &&& r is Some
            &&& r.unwrap().0 == t
            &&& r.unwrap().1.len() == v.len()
            &&& forall|b: int| 0 <= b < m ==> #[trigger] r.unwrap().1[b] == merged(t, w, m, e, b, lead)
        }),
{
    let x = text32(t);
    let n = t.len() as int;
    let f = drops(x, w, m, m, lead);
    let at = n - m - 1;
    law_lms_few(x);
    lemma_open_len(x, w, m, m, lead);
    lemma_unique_run(t, w, m, u, e, v, n, lead);
    let st = merge_unique_run((u, v, v[at], (at + 1) as usize, false), 0, n)->0;
    assert(st.0 =~= t);
    assert(merge_unique_block(u, v, n, m, 0, 0, n) == Some((st.0, st.1)));
    let v1 = st.1;
    assert forall|b: int| 0 <= b < m implies #[trigger] v1[b] == (if settled_at(x, w, m, b, lead) { w[b] } else { 0 }) by {
        assert(is_lms(x, w[b] as int));
    }
    let o = open_ordered(t, w, m, e, lead);
    assert forall|j: int| #![trigger o[j]] 0 <= j < m - f implies v1[n - m - 1 + f + j] == o[j] by {
        assert(v[n - m - 1 + f + j] == o[j]);
    }
    lemma_nonunique_run(t, w, m, e, v1, m, lead);
    let r = merge_nonunique_run((v1, v1[at + f], (at + f + 1) as usize), 0, m)->0;
    assert(merge_nonunique_block(v1, n, m, f, 0, m) == Some(r.0));
}

/// What is selected among marked symbols.
proof fn lemma_marked_selection(t: Seq<i32>, w: Seq<i32>, m: int, u: Seq<i32>, p: int, lead: bool)
    requires
        nameable(t, w, m),
        forall|j: int| 0 <= j < t.len() ==> 0 <= #[trigger] t[j],
        marked_text(t, w, m, u, lead),
        0 <= p < t.len(),
    ensures
        gathers(text32(u), true)(p) == open_lms(text32(t), w, m, lead)(p),
{
    let x = text32(t);
    let y = text32(u);
    assert(u[p] == marked(t[p], is_lms(x, p) && settled(x, w, m, p, lead)));
    assert(0 <= t[p]);
    assert(y[p] == u[p]);
    lemma_marked_types(t, w, m, u, p, lead);
    if p > 0 {
        lemma_marked_types(t, w, m, u, p - 1, lead);
    }
}

/// Whether `g` is `s` with the suffixes that are sorted again listed at the end of the slots of
/// the text, and nothing changed in front of the slot before them.
pub open spec fn regathered(t: Seq<i32>, w: Seq<i32>, m: int, s: Seq<i32>, g: Seq<i32>, lead: bool) -> bool {
    let n = t.len() as int;
    let k = open_list(t, w, m, lead);
    let q = m - drops(text32(t), w, m, m, lead);
    &&& g.len() == s.len()
    &&& forall|i: int| #![trigger k[i]] 0 <= i < q ==> g[n - q + i] == k[i]
    &&& forall|j: int| 0 <= j < n - 1 - q ==> #[trigger] g[j] == s[j]
}

/// Gathering what is not marked lists the suffixes that are sorted again.
proof fn lemma_open_gathered(t: Seq<i32>, w: Seq<i32>, m: int, u: Seq<i32>, s: Seq<i32>, lead: bool)
    requires
        nameable(t, w, m),
        forall|j: int| 0 <= j < t.len() ==> 0 <= #[trigger] t[j],
        marked_text(t, w, m, u, lead),
        t.len() <= s.len(),
    ensures
        ({
            let n = t.len() as int;
            let k = open_list(t, w, m, lead);
            let q = m - drops(text32(t), w, m, m, lead);
            let g = gather_compacted_lms_suffixes_32s_run(text32(u), s, n);
            &&& g is Some
            &&& g.unwrap().2 == n - 1 - q
            &&& k.len() == q
            &&& regathered(t, w, m, s, g.unwrap().0, lead)
        }),
{
    let x = text32(t);
    let y = text32(u);
    let n = t.len() as int;
    let k = open_list(t, w, m, lead);
    let sk = open_lms(x, w, m, lead);
    let sel = gathers(y, true);
    let mode = gather_compacted_lms_suffixes_32s_mode();
    law_lms_few(x);
    law_last_type(y);
    lemma_left_counts(t, w, m, 0, lead);
    lemma_selected(sk, 0, n);
    let q = m - drops(x, w, m, m, lead);
    assert forall|p: int| 0 <= p < n implies #[trigger] sel(p) == sk(p) by {
        lemma_marked_selection(t, w, m, u, p, lead);
    }
    lemma_tally_same(sel, sk, 1, n);
    assert(tally(sk, 0, n) == tally(sk, 1, n) + bit(sk(0)));
    lemma_gathering(y, mode, (s, Seq::<i32>::empty(), (n - 1) as isize, true), 0, n - 1);
    let g = gather_compacted_lms_suffixes_32s_run(y, s, n).unwrap().0;
    assert(picks(sk, g, 1, n, n - q, n)) by {
        assert forall|i: int| n - q <= i < n implies 1 <= #[trigger] g[i] < n && sk(g[i] as int) by {
            assert(sel(g[i] as int));
        }
        assert forall|p: int| 1 <= p < n && #[trigger] sk(p) implies crate::placement::among(g, n - q, n, p as i32) by {
            assert(sel(p));
        }
    }
    assert(picks(sk, k, 1, n, 0, q)) by {
        assert forall|i: int| 0 <= i < q implies 1 <= #[trigger] k[i] < n && sk(k[i] as int) by {}
        assert forall|p: int| 1 <= p < n && #[trigger] sk(p) implies crate::placement::among(k, 0, q, p as i32) by {}
    }
    assert forall|i: int| #![trigger k[i]] 0 <= i < q implies g[n - q + i] == k[i] by {
        lemma_picks_agree(sk, g, k, 1, n, n - q, n, 0, q, i);
        assert(k[0 + i] == k[i]);
    }
}

/// Restoring stages the ranks and the others.
proof fn lemma_staged(t: Seq<i32>, w: Seq<i32>, m: int, fs: int, r: Seq<i32>, s2: Seq<i32>, lead: bool)
    requires
        nameable(t, w, m),
        0 <= fs,
        t.len() + fs <= r.len(),
        t.len() + fs <= i32::MAX,
        tail_ready(t, w, m, t.len() + fs, r, lead),
        is_suffix_array(reduced_text(t, w, m, lead), r.subrange(0, m - drops(text32(t), w, m, m, lead))),
        ranks_restored(r, t.len() as int, m, fs, drops(text32(t), w, m, m, lead)) is Some,
        regathered(t, w, m, ranks_restored(r, t.len() as int, m, fs, drops(text32(t), w, m, m, lead))->0, s2, lead),
    ensures
        ({
            let f = drops(text32(t), w, m, m, lead);
            let s3 = others_restored(s2, t.len() as int, m, f);
            &&& s3 is Some
            &&& s3.unwrap().len() == r.len()
            &&& staged(t, w, m, r.subrange(0, m - f), s3->0, lead)
        }),
{
    let x = text32(t);
    let n = t.len() as int;
    let end = n + fs;
    let f = drops(x, w, m, m, lead);
    let q = m - f;
    let e = r.subrange(0, q);
    let k = open_list(t, w, m, lead);
    let d = selected(ranked(x, w, m, lead), 0, n);
    law_lms_few(x);
    lemma_left_counts(t, w, m, 0, lead);
    let s1 = moved(r, end - m, f, n - m - 1);
    assert(ranks_restored(r, n, m, fs, f) == Some(s1));
    assert forall|j: int| 0 <= j < q implies 0 <= #[trigger] s2[j] < q && s2[j] == e[j] by {
        assert(s2[j] == s1[j]);
        assert(0 <= e[j] < reduced_text(t, w, m, lead).len());
    }
    lemma_reconstruct(n - q, s2, q, q);
    let s = reconstruct_lms_run(n - q, s2, 0, q)->0;
    assert(reconstruct_lms_suffixes_run(s2, n, q, 0, q) == Some(s));
    let v = cleared(moved(s, 0, q, n - m - 1 + f), 0, m);
    assert(others_restored(s2, n, m, f) == Some(v));
    assert forall|i: int| #![trigger d[i]] 0 <= i < f implies v[n - m - 1 + i] == slot_of(w, m, d[i] as int) by {
        assert(r[end - m + i] == slot_of(w, m, d[i] as int));
        assert(s1[n - m - 1 + i] == r[end - m + i]);
        assert(s2[n - m - 1 + i] == s1[n - m - 1 + i]);
        assert(s[n - m - 1 + i] == s2[n - m - 1 + i]);
    }
    let o = open_ordered(t, w, m, e, lead);
    assert forall|i: int| #![trigger o[i]] 0 <= i < q implies v[n - m - 1 + f + i] == o[i] by {
        assert(s2[i] == e[i]);
        assert(s[i] == s2[n - q + s2[i]]);
        assert(k[e[i] as int] == s2[n - q + e[i]]);
    }
}

/// Whether `r` holds the sorted reduced text that the compaction of the text and its array left.
pub open spec fn restorable(t: Seq<i32>, w: Seq<i32>, m: int, s: Seq<i32>, fs: int, r: Seq<i32>, lead: bool) -> bool {
    &&& compactable(t, w, m, s, lead)
    &&& 0 <= fs
    &&& t.len() + fs <= s.len() <= isize::MAX
    &&& t.len() + fs <= i32::MAX
    &&& ({
        let c = compact_lms_run(t, s, t.len() as int, m, fs)->0;
        reduced_sorted(c.1, r, t.len() as int, m, c.2 as int, fs)
    })
}

/// What the sorted reduced text says.
proof fn lemma_reduced_order(t: Seq<i32>, w: Seq<i32>, m: int, s: Seq<i32>, fs: int, r: Seq<i32>, lead: bool)
    requires
        restorable(t, w, m, s, fs, r, lead),
    ensures
        ({
            let f = drops(text32(t), w, m, m, lead);
            let c = compact_lms_run(t, s, t.len() as int, m, fs)->0;
            &&& c.2 == f
            &&& r.len() == s.len()
            &&& marked_text(t, w, m, c.0, lead)
            &&& 0 <= f <= m
            &&& tail_ready(t, w, m, t.len() + fs, r, lead)
            &&& is_suffix_array(reduced_text(t, w, m, lead), r.subrange(0, m - f))
            &&& open_ordered(t, w, m, r.subrange(0, m - f), lead).len() == m - f
            &&& f > 0 ==> ranks_restored(r, t.len() as int, m, fs, f) is Some
                && ranks_restored(r, t.len() as int, m, fs, f).unwrap().len() == s.len()
        }),
{
    let x = text32(t);
    let n = t.len() as int;
    let end = n + fs;
    law_compacted(t, w, m, s, fs, lead);
    law_lms_few(x);
    lemma_left_counts(t, w, m, 0, lead);
    let c = compact_lms_run(t, s, n, m, fs)->0;
    let f = drops(x, w, m, m, lead);
    let q = m - f;
    let e = r.subrange(0, q);
    let k = open_list(t, w, m, lead);
    let d = selected(ranked(x, w, m, lead), 0, n);
    assert(text32(c.1.subrange(end - q, end)) =~= reduced_text(t, w, m, lead)) by {
        assert forall|i: int| 0 <= i < q implies #[trigger] text32(c.1.subrange(end - q, end))[i] == reduced_text(t, w, m, lead)[i] by {
            assert(c.1[end - m + f + i] == short_name(x, w, m, slot_of(w, m, k[i] as int), lead) - 1);
        }
    }
    assert(tail_ready(t, w, m, end, r, lead)) by {
        assert forall|i: int| #![trigger d[i]] 0 <= i < f implies r[end - m + i] == slot_of(w, m, d[i] as int) by {
            assert(r[end - m + i] == c.1[end - m + i]);
        }
        assert forall|i: int| #![trigger k[i]] 0 <= i < q implies r[end - m + f + i] == short_name(
            x,
            w,
            m,
            slot_of(w, m, k[i] as int),
            lead,
        ) - 1 by {
            assert(r[end - m + f + i] == c.1[end - m + f + i]);
        }
    }
    lemma_open_ordered(t, w, m, e, lead);
}

/// Restoring the suffixes that have been gathered again sorts all.
proof fn lemma_restored_open(t: Seq<i32>, w: Seq<i32>, m: int, s: Seq<i32>, fs: int, r: Seq<i32>, g: Seq<i32>, lead: bool)
    requires
        restorable(t, w, m, s, fs, r, lead),
        drops(text32(t), w, m, m, lead) > 0,
        regathered(t, w, m, ranks_restored(r, t.len() as int, m, fs, drops(text32(t), w, m, m, lead))->0, g, lead),
    ensures
        ({
            let n = t.len() as int;
            let f = drops(text32(t), w, m, m, lead);
            let c = compact_lms_run(t, s, n, m, fs)->0;
            let s3 = others_restored(g, n, m, f);
            let v = merge_compacted_run(c.0, s3->0, n, m, f, 1, 1);
            &&& s3 is Some
            &&& v is Some
            &&& v.unwrap().0 == t
            &&& v.unwrap().1.len() == s.len()
            &&& lms_sorted(t, v.unwrap().1, m)
        }),
{
    let n = t.len() as int;
    let f = drops(text32(t), w, m, m, lead);
    let c = compact_lms_run(t, s, n, m, fs)->0;
    let e = r.subrange(0, m - f);
    lemma_reduced_order(t, w, m, s, fs, r, lead);
    lemma_staged(t, w, m, fs, r, g, lead);
    let s3 = others_restored(g, n, m, f)->0;
    lemma_merged(t, w, m, c.0, e, s3, lead);
    let v = merge_compacted_run(c.0, s3, n, m, f, 1, 1).unwrap().1;
    law_merged_sorted(t, w, m, e, v, lead);
}

/// Where nothing was set apart, the text is as it was, and restoring all sorts all.
proof fn lemma_restored_all(t: Seq<i32>, w: Seq<i32>, m: int, s: Seq<i32>, fs: int, r: Seq<i32>, g: Seq<i32>, lead: bool)
    requires
        restorable(t, w, m, s, fs, r, lead),
        drops(text32(t), w, m, m, lead) == 0,
        g.len() == r.len(),
        lists_all(text32(t), g, m),
        forall|j: int| 0 <= j < t.len() - 1 - m ==> #[trigger] g[j] == r[j],
    ensures
        ({
            let n = t.len() as int;
            let c = compact_lms_run(t, s, n, m, fs)->0;
            let v = reconstruct_lms_suffixes_run(g, n, m, 0, m);
            &&& c.0 == t
            &&& v is Some
            &&& v.unwrap().len() == s.len()
            &&& lms_sorted(t, v->0, m)
        }),
{
    let x = text32(t);
    let n = t.len() as int;
    lemma_reduced_order(t, w, m, s, fs, r, lead);
    law_lms_few(x);
    lemma_left_counts(t, w, m, 0, lead);
    let c = compact_lms_run(t, s, n, m, fs)->0;
    let e = r.subrange(0, m);
    let k = open_list(t, w, m, lead);
    lemma_none_settled(t, w, m, lead);
    assert(c.0 =~= t) by {
        assert forall|i: int| 0 <= i < n implies #[trigger] c.0[i] == t[i] by {
            if is_lms(x, i) {
                lemma_listed_slot(t, w, m, i);
                assert(!settled_at(x, w, m, slot_of(w, m, i), lead));
                reveal(settled_at);
            }
        }
    }
    lemma_all_open(t, w, m, g, lead);
    assert forall|j: int| 0 <= j < m implies 0 <= #[trigger] g[j] < m && g[j] == e[j] by {
        assert(g[j] == r[j]);
        assert(0 <= e[j] < reduced_text(t, w, m, lead).len());
    }
    lemma_reconstruct(n - m, g, m, m);
    let v = reconstruct_lms_run(n - m, g, 0, m)->0;
    assert forall|b: int| 0 <= b < m implies #[trigger] v[b] == merged(t, w, m, e, b, lead) by {
        assert(!settled_at(x, w, m, b, lead));
        assert(drops(x, w, m, b, lead) == 0) by {
            lemma_none_dropped(x, w, m, b, m, lead);
        }
        assert(g[b] == e[b]);
        assert(v[b] == g[n - m + g[b]]);
        assert(k[e[b] as int] == g[n - m + e[b]]);
    }
    law_merged_sorted(t, w, m, e, v, lead);
}

/// Restoring turns the sorted reduced text into the sorted leftmost suffixes of type S, and
/// leaves the text as it was before the compaction.
pub proof fn law_restored(t: Seq<i32>, w: Seq<i32>, m: int, s: Seq<i32>, fs: int, r: Seq<i32>, lead: bool)
    requires
        restorable(t, w, m, s, fs, r, lead),
    ensures
        ({
            let c = compact_lms_run(t, s, t.len() as int, m, fs)->0;
            let v = reconstruct_compacted_1k_run(c.0, r, t.len() as int, m, fs, c.2 as int, 1, 1);
            &&& v is Some
            &&& v.unwrap().0 == t
            &&& v.unwrap().1.len() == s.len()
            &&& lms_sorted(t, v.unwrap().1, m)
        }),
{
    let x = text32(t);
    let n = t.len() as int;
    let f = drops(x, w, m, m, lead);
    let c = compact_lms_run(t, s, n, m, fs)->0;
    lemma_reduced_order(t, w, m, s, fs, r, lead);
    if f > 0 {
        let s1 = ranks_restored(r, n, m, fs, f)->0;
        lemma_open_gathered(t, w, m, c.0, s1, lead);
        lemma_restored_open(t, w, m, s, fs, r, gather_compacted_lms_suffixes_32s_run(text32(c.0), s1, n).unwrap().0, lead);
    } else {
        lemma_gathered_all(x, r);
        lemma_restored_all(t, w, m, s, fs, r, gather_lms_suffixes_32s_run(x, r, n).unwrap().0, lead);
    }
}

/// Counting while the suffixes are gathered again counts the text as it was.
proof fn lemma_open_counted(t: Seq<i32>, w: Seq<i32>, m: int, u: Seq<i32>, s: Seq<i32>, k: int, len: nat, lead: bool)
    requires
        nameable(t, w, m),
        symbols_below(t, k),
        marked_text(t, w, m, u, lead),
        t.len() <= s.len() <= isize::MAX,
        2 * k <= len,
    ensures
        ({
            let g = count_and_gather_compacted_lms_suffixes_32s_2k_run(text32(u), s, t.len() as int, len, 0, t.len() as int);
            &&& g is Some
            &&& regathered(t, w, m, s, g.unwrap().0, lead)
            &&& g.unwrap().1.len() == len
            &&& counted(t, count_and_gather_lms_suffixes_32s_2k_mode(), k, g.unwrap().1)
        }),
{
    let x = text32(t);
    let y = text32(u);
    let n = t.len() as int;
    let q = m - drops(x, w, m, m, lead);
    let mode = count_and_gather_compacted_lms_suffixes_32s_2k_mode();
    let plain = count_and_gather_lms_suffixes_32s_2k_mode();
    let start = (s, zeros(len), (n - 1) as isize, run_type(y, n, n - 1));
    assert forall|j: int| 0 <= j < n implies 0 <= #[trigger] t[j] by {}
    law_lms_few(x);
    law_last_type(x);
    law_last_type(y);
    lemma_left_counts(t, w, m, 0, lead);
    lemma_open_gathered(t, w, m, u, s, lead);
    assert(u[n - 1] == marked(t[n - 1], is_lms(x, n - 1) && settled(x, w, m, n - 1, lead)));
    assert(u[0] == marked(t[0], is_lms(x, 0) && settled(x, w, m, 0, lead)));
    assert(y[n - 1] == t[n - 1] && y[0] == t[0]);
    assert(0 <= t[n - 1] && 0 <= t[0]);
    assert(run_type(y, n, n - 1));
    assert(has_slots(y, mode, len as int)) by {
        assert forall|i: int, f: bool, g: bool| 0 <= i < y.len() implies 0 <= #[trigger] lms_slot(y[i], f, g, mode) < len by {
            assert(u[i] == marked(t[i], is_lms(x, i) && settled(x, w, m, i, lead)));
            assert(0 <= t[i] < k);
        }
    }
    assert(crate::recount::uncounted(mode) == gather_compacted_lms_suffixes_32s_mode());
    lemma_counting_first(y, mode, start, n - 1);
    let g = count_and_gather_compacted_lms_suffixes_32s_2k_run(y, s, n, len, 0, n)->0;
    assert forall|slot: int| 0 <= slot < plain.lanes * k implies #[trigger] g.1[slot] == slot_count(x, plain, slot, 0, n) by {
        lemma_marked_counts(t, w, m, u, plain, mode, slot, 0, lead);
        assert(g.1[slot] == slot_count(y, mode, slot, 0, n));
    }
}

/// Counting while all are gathered.
pub proof fn lemma_all_counted(t: Seq<i32>, s: Seq<i32>, k: int, len: nat)
    requires
        1 <= t.len() <= i32::MAX,
        symbols_below(t, k),
        t.len() <= s.len() <= isize::MAX,
        2 * k <= len,
    ensures
        ({
            let n = t.len() as int;
            let m = lms_count(text32(t), 0);
            let g = count_and_gather_lms_suffixes_32s_2k_run(text32(t), s, n, len, 0, n);
            &&& g is Some
            &&& g.unwrap().2 == n - 1 - m
            &&& g.unwrap().0.len() == s.len()
            &&& lists_all(text32(t), g.unwrap().0, m)
            &&& forall|j: int| 0 <= j < n - 1 - m ==> #[trigger] g.unwrap().0[j] == s[j]
            &&& forall|j: int| n <= j < s.len() ==> #[trigger] g.unwrap().0[j] == s[j]
            &&& g.unwrap().1.len() == len
            &&& counted(t, count_and_gather_lms_suffixes_32s_2k_mode(), k, g.unwrap().1)
        }),
{
    let x = text32(t);
    let n = t.len() as int;
    let m = lms_count(x, 0);
    let mode = count_and_gather_lms_suffixes_32s_2k_mode();
    law_lms_few(x);
    law_last_type(x);
    lemma_gathered_all(x, s);
    assert(0 <= t[n - 1] && 0 <= t[0]);
    assert(run_type(x, n, n - 1));
    assert(has_slots(x, mode, len as int)) by {
        assert forall|i: int, f: bool, g: bool| 0 <= i < x.len() implies 0 <= #[trigger] lms_slot(x[i], f, g, mode) < len by {
            assert(0 <= t[i] < k);
        }
    }
    assert(crate::recount::uncounted(mode) == crate::gather::gather_lms_suffixes_32s_mode());
    lemma_counting_first(x, mode, (s, zeros(len), (n - 1) as isize, run_type(x, n, n - 1)), n - 1);
    let z = gather_lms_suffixes_32s_run(x, s, n)->0;
    let g = count_and_gather_lms_suffixes_32s_2k_run(x, s, n, len, 0, n)->0;
    assert(g.0 == z.0.update(z.2 as int, 0));
    assert(lists_all(x, g.0, m)) by {
        let sel = gathers(x, false);
        assert forall|p: int| 0 <= p < n && #[trigger] sel(p) implies crate::placement::among(g.0, n - m, n, p as i32) by {
            let j = crate::placement::lemma_found(z.0, n - m, n, p as i32);
            assert(g.0[j] == z.0[j]);
            crate::placement::lemma_among(g.0, n - m, n, j);
        }
    }
}

/// Restoring with counters turns the sorted reduced text into the sorted leftmost suffixes of
/// type S, leaves the text as it was before the compaction, and counts its suffixes.
pub proof fn law_restored_and_counted(
    t: Seq<i32>,
    w: Seq<i32>,
    m: int,
    s: Seq<i32>,
    fs: int,
    r: Seq<i32>,
    k: int,
    b: Seq<i32>,
    lead: bool,
)
    requires
        restorable(t, w, m, s, fs, r, lead),
        symbols_below(t, k),
        1 <= k,
        2 * k <= b.len(),
    ensures
        ({
            let c = compact_lms_run(t, s, t.len() as int, m, fs)->0;
            let v = reconstruct_compacted_2k_run(c.0, r, t.len() as int, k, m, fs, c.2 as int, b, 0, 1, 1, 1);
            &&& v is Some
            &&& v.unwrap().0 == t
            &&& v.unwrap().1.len() == s.len()
            &&& lms_sorted(t, v.unwrap().1, m)
            &&& v.unwrap().2.len() == b.len()
            &&& counted(t, count_and_gather_lms_suffixes_32s_2k_mode(), k, v.unwrap().2)
        }),
{
    let x = text32(t);
    let n = t.len() as int;
    let f = drops(x, w, m, m, lead);
    let c = compact_lms_run(t, s, n, m, fs)->0;
    lemma_reduced_order(t, w, m, s, fs, r, lead);
    if f > 0 {
        let s1 = ranks_restored(r, n, m, fs, f)->0;
        lemma_open_counted(t, w, m, c.0, s1, k, b.len(), lead);
        lemma_restored_open(t, w, m, s, fs, r,
            count_and_gather_compacted_lms_suffixes_32s_2k_run(text32(c.0), s1, n, b.len(), 0, n).unwrap().0, lead);
    } else {
        lemma_all_counted(t, r, k, b.len());
        lemma_restored_all(t, w, m, s, fs, r, count_and_gather_lms_suffixes_32s_2k_run(x, r, n, b.len(), 0, n).unwrap().0, lead);
    }
}

/// Where nothing is dropped in all, nothing is dropped before.
proof fn lemma_none_dropped(x: Seq<int>, w: Seq<i32>, m: int, b: int, c: int, lead: bool)
    requires
        0 <= b <= c,
        drops(x, w, m, c, lead) == 0,
    ensures
        drops(x, w, m, b, lead) == 0,
    decreases c,
{
    if b < c {
        lemma_open_len(x, w, m, c - 1, lead);
        lemma_none_dropped(x, w, m, b, c - 1, lead);
    }
}

/// Where nothing is dropped, every suffix is sorted again.
proof fn lemma_none_settled(t: Seq<i32>, w: Seq<i32>, m: int, lead: bool)
    requires
        nameable(t, w, m),
        drops(text32(t), w, m, m, lead) == 0,
    ensures
        forall|b: int| 0 <= b < m ==> !#[trigger] settled_at(text32(t), w, m, b, lead),
{
    let x = text32(t);
    assert forall|b: int| 0 <= b < m implies !#[trigger] settled_at(x, w, m, b, lead) by {
        lemma_none_dropped(x, w, m, b + 1, m, lead);
        lemma_open_len(x, w, m, b, lead);
    }
}

/// Where nothing is dropped, the list of all is the list of those that are sorted again.
proof fn lemma_all_open(t: Seq<i32>, w: Seq<i32>, m: int, g: Seq<i32>, lead: bool)
    requires
        nameable(t, w, m),
        drops(text32(t), w, m, m, lead) == 0,
        t.len() <= g.len(),
        lists_all(text32(t), g, m),
    ensures
        ({
            let k = open_list(t, w, m, lead);
            &&& k.len() == m
            &&& forall|i: int| #![trigger k[i]] 0 <= i < m ==> g[t.len() - m + i] == k[i]
        }),
{
    let x = text32(t);
    let n = t.len() as int;
    let k = open_list(t, w, m, lead);
    let sk = open_lms(x, w, m, lead);
    let sel = gathers(x, false);
    lemma_left_counts(t, w, m, 0, lead);
    lemma_selected(sk, 0, n);
    lemma_none_settled(t, w, m, lead);
    assert forall|p: int| 0 <= p < n implies #[trigger] sel(p) == sk(p) by {
        if is_lms(x, p) {
            lemma_listed_slot(t, w, m, p);
            assert(!settled_at(x, w, m, slot_of(w, m, p), lead));
            reveal(settled_at);
        }
    }
    assert(picks(sel, k, 0, n, 0, m)) by {
        assert forall|i: int| 0 <= i < m implies 0 <= #[trigger] k[i] < n && sel(k[i] as int) by {
            assert(sk(k[i] as int));
        }
        assert forall|p: int| 0 <= p < n && #[trigger] sel(p) implies crate::placement::among(k, 0, m, p as i32) by {
            assert(sk(p));
        }
    }
    assert forall|i: int| #![trigger k[i]] 0 <= i < m implies g[n - m + i] == k[i] by {
        lemma_picks_agree(sel, g, k, 0, n, n - m, n, 0, m, i);
        assert(k[0 + i] == k[i]);
    }
}

} // verus!
