//! Why restoring works: the sorted reduced text puts the suffixes that are sorted again in their
//! order, and the others go to their ranks.

use vstd::prelude::*;
use crate::compaction::{lemma_left_counts, lemma_selected, marked_text, open_lms, selected};
use crate::gather::text32;
use crate::induction::slot_of;
use crate::kinds::{is_l, is_lms, law_last_type, law_lms_apart, law_type_step};
use crate::lengths::{lemma_next_lms, next_lms, picks};
use crate::marks::marked;
use crate::name_order::{
    drops, lemma_names_grow, lemma_names_order, lemma_settled_alone, lemma_shared_name, lemma_short_names_order, settled_at,
    short_name,
};
use crate::naming::{alone, lemma_listed_entry, lemma_listed_slot, name_at, nameable, settled};
use crate::order::{
    is_suffix_array, law_suffix_array_complete, lemma_less_irreflexive, lemma_less_transitive,
    suffix_less,
};
use crate::placement::{among, lemma_among, lemma_found, lms_sorted};
use crate::reduction::lemma_equal_substrings;
use crate::substrings::{law_substrings_decide, substring_less};

verus! {

/// The suffixes that are sorted again, in the order of the text.
pub open spec fn open_list(t: Seq<i32>, w: Seq<i32>, m: int, lead: bool) -> Seq<i32> {
    selected(open_lms(text32(t), w, m, lead), 0, t.len() as int)
}

/// The reduced text: the short names of the suffixes that are sorted again.
pub open spec fn reduced_text(t: Seq<i32>, w: Seq<i32>, m: int, lead: bool) -> Seq<int> {
    let k = open_list(t, w, m, lead);
    Seq::new(k.len(), |i: int| short_name(text32(t), w, m, slot_of(w, m, k[i] as int), lead) - 1)
}

/// What an entry of the list of suffixes that are sorted again is.
proof fn lemma_open_entry(t: Seq<i32>, w: Seq<i32>, m: int, a: int, lead: bool)
    requires
        nameable(t, w, m),
        0 <= a < open_list(t, w, m, lead).len(),
    ensures
        ({
            let p = open_list(t, w, m, lead)[a] as int;
            let b = slot_of(w, m, p);
            &&& is_lms(text32(t), p)
            &&& 0 <= b < m
            &&& w[b] == p
            &&& !settled_at(text32(t), w, m, b, lead)
            &&& !settled(text32(t), w, m, p, lead)
        }),
{
    let x = text32(t);
    let sel = open_lms(x, w, m, lead);
    lemma_selected(sel, 0, t.len() as int);
    let k = open_list(t, w, m, lead);
    assert(sel(k[a] as int));
    lemma_listed_slot(t, w, m, k[a] as int);
    reveal(settled_at);
}

/// Short names have the order of substrings.
proof fn lemma_open_names(t: Seq<i32>, w: Seq<i32>, m: int, a: int, b: int, lead: bool)
    requires
        nameable(t, w, m),
        0 <= a < open_list(t, w, m, lead).len(),
        0 <= b < open_list(t, w, m, lead).len(),
    ensures
        ({
            let k = open_list(t, w, m, lead);
            let r = reduced_text(t, w, m, lead);
            &&& substring_less(text32(t), k[a] as int, k[b] as int) == (r[a] < r[b])
            &&& r[a] == r[b] ==> name_at(text32(t), w, m, slot_of(w, m, k[a] as int)) == name_at(
                text32(t),
                w,
                m,
                slot_of(w, m, k[b] as int),
            )
        }),
{
    let k = open_list(t, w, m, lead);
    lemma_open_entry(t, w, m, a, lead);
    lemma_open_entry(t, w, m, b, lead);
    let i = slot_of(w, m, k[a] as int);
    let j = slot_of(w, m, k[b] as int);
    lemma_names_order(t, w, m, i, j);
    lemma_short_names_order(t, w, m, i, j, lead);
    lemma_short_names_order(t, w, m, j, i, lead);
}

/// Behind a suffix whose name is shared, the next one is sorted again.
proof fn lemma_open_next(t: Seq<i32>, w: Seq<i32>, m: int, a: int, d: int, lead: bool)
    requires
        nameable(t, w, m),
        0 <= a < open_list(t, w, m, lead).len(),
        !alone(text32(t), w, m, open_list(t, w, m, lead)[a] as int, lead),
        0 < d,
        is_lms(text32(t), open_list(t, w, m, lead)[a] + d),
        forall|q: int| open_list(t, w, m, lead)[a] < q < open_list(t, w, m, lead)[a] + d ==> !#[trigger] is_lms(text32(t), q),
    ensures
        a + 1 < open_list(t, w, m, lead).len(),
        open_list(t, w, m, lead)[a + 1] == open_list(t, w, m, lead)[a] + d,
{
    let x = text32(t);
    let k = open_list(t, w, m, lead);
    let sel = open_lms(x, w, m, lead);
    lemma_selected(sel, 0, t.len() as int);
    lemma_open_entry(t, w, m, a, lead);
    let p = k[a] as int;
    if settled(x, w, m, p + d, lead) {
        let q = choose|q: int| is_lms(x, q) && #[trigger] next_lms(x, q) == p + d && alone(x, w, m, q, lead);
        lemma_next_lms(x, q);
        if q < p {
            assert(!is_lms(x, p));
        } else if q > p {
            assert(!is_lms(x, q));
        }
    }
    assert(sel(p + d));
    let b = lemma_found(k, 0, k.len() as int, (p + d) as i32);
    if b <= a {
        if b < a {
            assert(k[b] < k[a]);
        }
    } else if b > a + 1 {
        assert(k[a] < k[a + 1] && k[a + 1] < k[b]);
        assert(sel(k[a + 1] as int));
        assert(is_lms(x, k[a + 1] as int));
    }
}

/// The reduced text has the order of the suffixes that are sorted again.
pub proof fn law_compacted_order(t: Seq<i32>, w: Seq<i32>, m: int, a: int, b: int, lead: bool)
    requires
        nameable(t, w, m),
        0 <= a < open_list(t, w, m, lead).len(),
        0 <= b < open_list(t, w, m, lead).len(),
    ensures
        suffix_less(reduced_text(t, w, m, lead), a, b) == suffix_less(
            text32(t),
            open_list(t, w, m, lead)[a] as int,
            open_list(t, w, m, lead)[b] as int,
        ),
    decreases open_list(t, w, m, lead).len() - a,
{
    let x = text32(t);
    let k = open_list(t, w, m, lead);
    let r = reduced_text(t, w, m, lead);
    let u = k[a] as int;
    let v = k[b] as int;
    lemma_open_entry(t, w, m, a, lead);
    lemma_open_entry(t, w, m, b, lead);
    lemma_open_names(t, w, m, a, b, lead);
    lemma_open_names(t, w, m, b, a, lead);
    if a == b {
        lemma_less_irreflexive(r, a);
        lemma_less_irreflexive(x, u);
    } else if r[a] < r[b] {
        law_substrings_decide(x, u, v);
    } else if r[b] < r[a] {
        law_substrings_decide(x, v, u);
        if suffix_less(x, u, v) {
            lemma_less_transitive(x, u, v, u);
            lemma_less_irreflexive(x, u);
        }
    } else {
        lemma_selected(open_lms(x, w, m, lead), 0, t.len() as int);
        assert(u != v) by {
            if a < b {
                assert(k[a] < k[b]);
            } else {
                assert(k[b] < k[a]);
            }
        }
        let i = slot_of(w, m, u);
        let j = slot_of(w, m, v);
        if i < j {
            lemma_shared_name(x, w, m, i, j, lead);
        } else {
            lemma_shared_name(x, w, m, j, i, lead);
        }
        let d = lemma_equal_substrings(x, u, v);
        lemma_open_next(t, w, m, a, d, lead);
        lemma_open_next(t, w, m, b, d, lead);
        law_compacted_order(t, w, m, a + 1, b + 1, lead);
    }
}

/// Lists of the same positions agree.
pub proof fn lemma_picks_agree(
    sel: spec_fn(int) -> bool,
    a: Seq<i32>,
    b: Seq<i32>,
    lo: int,
    hi: int,
    fa: int,
    ta: int,
    fb: int,
    tb: int,
    k: int,
)
    requires
        0 <= lo,
        hi <= i32::MAX,
        picks(sel, a, lo, hi, fa, ta),
        picks(sel, b, lo, hi, fb, tb),
        0 <= k,
        fa + k < ta,
        fb + k < tb,
    ensures
        a[fa + k] == b[fb + k],
    decreases k,
{
    assert forall|j: int| 0 <= j < k implies #[trigger] a[fa + j] == b[fb + j] by {
        lemma_picks_agree(sel, a, b, lo, hi, fa, ta, fb, tb, j);
    }
    if a[fa + k] < b[fb + k] {
        let v = a[fa + k];
        assert(sel(v as int));
        let j = lemma_found(b, fb, tb, v) - fb;
        if j >= k {
            if j > k {
                assert(b[fb + k] < b[fb + j]);
            }
        } else {
            assert(a[fa + j] == b[fb + j]);
            assert(a[fa + j] < a[fa + k]);
        }
    } else if b[fb + k] < a[fa + k] {
        let v = b[fb + k];
        assert(sel(v as int));
        let j = lemma_found(a, fa, ta, v) - fa;
        if j >= k {
            if j > k {
                assert(a[fa + k] < a[fa + j]);
            }
        } else {
            assert(a[fa + j] == b[fb + j]);
            assert(b[fb + j] < b[fb + k]);
        }
    }
}

/// Marks do not change the types.
pub proof fn lemma_marked_types(t: Seq<i32>, w: Seq<i32>, m: int, u: Seq<i32>, i: int, lead: bool)
    requires
        1 <= t.len() <= i32::MAX,
        marked_text(t, w, m, u, lead),
        forall|j: int| 0 <= j < t.len() ==> 0 <= #[trigger] t[j],
        0 <= i < t.len(),
    ensures
        is_l(text32(u), i) == is_l(text32(t), i),
    decreases t.len() - i,
{
    let x = text32(t);
    let y = text32(u);
    let n = t.len() as int;
    law_last_type(x);
    law_last_type(y);
    if i + 1 < n {
        lemma_marked_types(t, w, m, u, i + 1, lead);
        law_type_step(x, i);
        law_type_step(y, i);
        assert(u[i] == marked(t[i], is_lms(x, i) && settled(x, w, m, i, lead)));
        assert(u[i + 1] == marked(t[i + 1], is_lms(x, i + 1) && settled(x, w, m, i + 1, lead)));
        assert(0 <= t[i] && 0 <= t[i + 1]);
        assert(y[i] == u[i] && y[i + 1] == u[i + 1]);
        if is_lms(x, i) {
            law_lms_apart(x, i);
        }
    }
}

/// Whether `a` lists what `b` does, each once, by a key.
pub open spec fn lists_by(a: Seq<i32>, b: Seq<i32>, key: spec_fn(int) -> int) -> bool {
    &&& forall|i: int, j: int| 0 <= i < j < a.len() ==> #[trigger] a[i] != #[trigger] a[j]
    &&& forall|i: int, j: int| 0 <= i < j < a.len() ==> key(#[trigger] a[i] as int) <= key(#[trigger] a[j] as int)
    &&& forall|i: int| 0 <= i < a.len() ==> among(b, 0, b.len() as int, #[trigger] a[i])
}

/// No list by a key runs ahead of another.
proof fn lemma_no_key_ahead(a: Seq<i32>, b: Seq<i32>, key: spec_fn(int) -> int, j: int)
    requires
        lists_by(a, b, key),
        lists_by(b, a, key),
        0 <= j < a.len(),
        j < b.len(),
    ensures
        key(a[j] as int) >= key(b[j] as int),
{
    if key(a[j] as int) < key(b[j] as int) {
        let heads = vstd::set_lib::set_int_range(0, j + 1);
        let fore = vstd::set_lib::set_int_range(0, j);
        let f = |i: int| a[i] as int;
        let g = |i: int| b[i] as int;
        vstd::set_lib::lemma_int_range(0, j + 1);
        vstd::set_lib::lemma_int_range(0, j);
        assert(vstd::relations::injective_on(f, heads)) by {
            assert forall|i: int, l: int| heads.contains(i) && heads.contains(l) && #[trigger] f(i) == #[trigger] f(l) implies i
                == l by {
                if i < l {
                    assert(a[i] != a[l]);
                } else if l < i {
                    assert(a[l] != a[i]);
                }
            }
        }
        vstd::set_lib::lemma_map_size(heads, heads.map(f), f);
        vstd::set_lib::lemma_map_size_bound(fore, fore.map(g), g);
        assert(heads.map(f).subset_of(fore.map(g))) by {
            assert forall|p: int| heads.map(f).contains(p) implies fore.map(g).contains(p) by {
                let i = choose|i: int| heads.contains(i) && f(i) == p;
                if i < j {
                    assert(key(a[i] as int) <= key(a[j] as int));
                }
                let l = lemma_found(b, 0, b.len() as int, a[i]);
                if l > j {
                    assert(key(b[j] as int) <= key(b[l] as int));
                }
                assert(fore.contains(l) && g(l) == p);
            }
        }
        vstd::set_lib::lemma_len_subset(heads.map(f), fore.map(g));
    }
}

/// The suffixes that are sorted again among the first `b` sorted ones, by their substrings.
pub open spec fn open_sorted(x: Seq<int>, w: Seq<i32>, m: int, b: int, lead: bool) -> Seq<i32>
    decreases b,
{
    if b <= 0 {
        Seq::empty()
    } else if settled_at(x, w, m, b - 1, lead) {
        open_sorted(x, w, m, b - 1, lead)
    } else {
        open_sorted(x, w, m, b - 1, lead).push(w[b - 1])
    }
}

/// Where a suffix that is sorted again stands.
proof fn lemma_open_sorted(x: Seq<int>, w: Seq<i32>, m: int, b: int, c: int, lead: bool)
    requires
        0 <= b < c,
        !settled_at(x, w, m, b, lead),
    ensures
        open_sorted(x, w, m, c, lead).len() == c - drops(x, w, m, c, lead),
        open_sorted(x, w, m, b, lead).len() == b - drops(x, w, m, b, lead),
        0 <= b - drops(x, w, m, b, lead) < c - drops(x, w, m, c, lead),
        open_sorted(x, w, m, c, lead)[b - drops(x, w, m, b, lead)] == w[b],
    decreases c,
{
    lemma_open_len(x, w, m, c - 1, lead);
    lemma_open_len(x, w, m, b, lead);
    if b < c - 1 {
        lemma_open_sorted(x, w, m, b, c - 1, lead);
    }
}

/// How many suffixes are sorted again.
pub proof fn lemma_open_len(x: Seq<int>, w: Seq<i32>, m: int, b: int, lead: bool)
    requires
        0 <= b,
    ensures
        open_sorted(x, w, m, b, lead).len() == b - drops(x, w, m, b, lead),
        0 <= drops(x, w, m, b, lead) <= b,
    decreases b,
{
    if b > 0 {
        lemma_open_len(x, w, m, b - 1, lead);
    }
}

/// The sorted suffix that entry `j` is.
proof fn lemma_open_slot(x: Seq<int>, w: Seq<i32>, m: int, c: int, j: int, lead: bool) -> (b: int)
    requires
        0 <= c,
        0 <= j < open_sorted(x, w, m, c, lead).len(),
    ensures
        0 <= b < c,
        !settled_at(x, w, m, b, lead),
        b - drops(x, w, m, b, lead) == j,
        open_sorted(x, w, m, c, lead)[j] == w[b],
    decreases c,
{
    lemma_open_len(x, w, m, c, lead);
    if c > 0 {
        lemma_open_len(x, w, m, c - 1, lead);
        if j < open_sorted(x, w, m, c - 1, lead).len() {
            lemma_open_slot(x, w, m, c - 1, j, lead)
        } else {
            c - 1
        }
    } else {
        0
    }
}

/// The suffixes that are sorted again, in their order.
pub open spec fn open_ordered(t: Seq<i32>, w: Seq<i32>, m: int, s: Seq<i32>, lead: bool) -> Seq<i32> {
    Seq::new(s.len(), |i: int| open_list(t, w, m, lead)[s[i] as int])
}

/// The key by which suffixes are named.
pub open spec fn name_key(t: Seq<i32>, w: Seq<i32>, m: int) -> spec_fn(int) -> int {
    |p: int| name_at(text32(t), w, m, slot_of(w, m, p))
}

/// What sorting the reduced text gives.
pub proof fn lemma_open_ordered(t: Seq<i32>, w: Seq<i32>, m: int, s: Seq<i32>, lead: bool)
    requires
        nameable(t, w, m),
        is_suffix_array(reduced_text(t, w, m, lead), s),
    ensures
        ({
            let e = open_ordered(t, w, m, s, lead);
            let o = open_sorted(text32(t), w, m, m, lead);
            &&& e.len() == m - drops(text32(t), w, m, m, lead)
            &&& o.len() == e.len()
            &&& forall|i: int, j: int| 0 <= i < j < e.len() ==> suffix_less(text32(t), #[trigger] e[i] as int, #[trigger] e[j] as int)
            &&& forall|i: int| 0 <= i < e.len() ==> is_lms(text32(t), #[trigger] e[i] as int)
            &&& lists_by(e, o, name_key(t, w, m))
            &&& lists_by(o, e, name_key(t, w, m))
        }),
{
    let x = text32(t);
    let k = open_list(t, w, m, lead);
    let r = reduced_text(t, w, m, lead);
    let e = open_ordered(t, w, m, s, lead);
    let o = open_sorted(x, w, m, m, lead);
    let key = name_key(t, w, m);
    let sel = open_lms(x, w, m, lead);
    lemma_left_counts(t, w, m, 0, lead);
    lemma_selected(sel, 0, t.len() as int);
    lemma_open_len(x, w, m, m, lead);
    assert forall|i: int| 0 <= i < e.len() implies is_lms(x, #[trigger] e[i] as int) by {
        assert(0 <= s[i] < r.len());
        lemma_open_entry(t, w, m, s[i] as int, lead);
    }
    assert forall|i: int, j: int| 0 <= i < j < e.len() implies suffix_less(x, #[trigger] e[i] as int, #[trigger] e[j] as int)
        && e[i] != e[j] && key(e[i] as int) <= key(e[j] as int) by {
        assert(suffix_less(r, s[i] as int, s[j] as int));
        assert(0 <= s[i] < r.len() && 0 <= s[j] < r.len());
        law_compacted_order(t, w, m, s[i] as int, s[j] as int, lead);
        lemma_less_irreflexive(x, e[i] as int);
        lemma_open_entry(t, w, m, s[i] as int, lead);
        lemma_open_entry(t, w, m, s[j] as int, lead);
        let b = slot_of(w, m, e[i] as int);
        let c = slot_of(w, m, e[j] as int);
        lemma_names_order(t, w, m, c, b);
        if name_at(x, w, m, c) < name_at(x, w, m, b) {
            law_substrings_decide(x, e[j] as int, e[i] as int);
            lemma_less_transitive(x, e[i] as int, e[j] as int, e[i] as int);
        }
    }
    assert forall|i: int| 0 <= i < e.len() implies among(o, 0, o.len() as int, #[trigger] e[i]) by {
        assert(0 <= s[i] < r.len());
        lemma_open_entry(t, w, m, s[i] as int, lead);
        let b = slot_of(w, m, e[i] as int);
        lemma_open_sorted(x, w, m, b, m, lead);
        lemma_among(o, 0, o.len() as int, b - drops(x, w, m, b, lead));
    }
    assert forall|i: int, j: int| 0 <= i < j < o.len() implies #[trigger] o[i] != #[trigger] o[j] && key(o[i] as int) <= key(
        o[j] as int,
    ) by {
        let b = lemma_open_slot(x, w, m, m, i, lead);
        let c = lemma_open_slot(x, w, m, m, j, lead);
        lemma_open_steps(x, w, m, b, c, lead);
        assert(w[b] != w[c]);
        lemma_listed_entry(t, w, m, b);
        lemma_listed_entry(t, w, m, c);
        lemma_names_grow(x, w, m, b, c);
    }
    assert forall|i: int| 0 <= i < o.len() implies among(e, 0, e.len() as int, #[trigger] o[i]) by {
        let b = lemma_open_slot(x, w, m, m, i, lead);
        assert(is_lms(x, w[b] as int));
        assert(sel(w[b] as int)) by {
            reveal(settled_at);
        }
        let a = lemma_found(k, 0, k.len() as int, w[b]);
        law_suffix_array_complete(r, s, a);
        let l = choose|l: int| 0 <= l < s.len() && #[trigger] s[l] == a;
        assert(e[l] == w[b]);
        lemma_among(e, 0, e.len() as int, l);
    }
}

/// Slots and entries have the same order.
proof fn lemma_open_steps(x: Seq<int>, w: Seq<i32>, m: int, b: int, c: int, lead: bool)
    requires
        0 <= b,
        0 <= c,
        b - drops(x, w, m, b, lead) < c - drops(x, w, m, c, lead),
    ensures
        b < c,
{
    if c <= b {
        lemma_open_grows(x, w, m, c, b, lead);
    }
}

/// Entries do not fall.
pub proof fn lemma_open_grows(x: Seq<int>, w: Seq<i32>, m: int, b: int, c: int, lead: bool)
    requires
        0 <= b <= c,
    ensures
        b - drops(x, w, m, b, lead) <= c - drops(x, w, m, c, lead),
    decreases c,
{
    if b < c {
        lemma_open_grows(x, w, m, b, c - 1, lead);
    }
}

/// The sorted suffix with rank `b`: where it need not be sorted again, it stands there already.
pub open spec fn merged(t: Seq<i32>, w: Seq<i32>, m: int, s: Seq<i32>, b: int, lead: bool) -> i32 {
    if settled_at(text32(t), w, m, b, lead) {
        w[b]
    } else {
        open_ordered(t, w, m, s, lead)[b - drops(text32(t), w, m, b, lead)]
    }
}

/// What stands at rank `b` has the name that is there.
proof fn lemma_merged_name(t: Seq<i32>, w: Seq<i32>, m: int, s: Seq<i32>, b: int, lead: bool)
    requires
        nameable(t, w, m),
        is_suffix_array(reduced_text(t, w, m, lead), s),
        0 <= b < m,
    ensures
        ({
            let p = merged(t, w, m, s, b, lead) as int;
            &&& is_lms(text32(t), p)
            &&& 0 <= slot_of(w, m, p) < m
            &&& w[slot_of(w, m, p)] == p
            &&& name_at(text32(t), w, m, slot_of(w, m, p)) == name_at(text32(t), w, m, b)
        }),
{
    let x = text32(t);
    assert(is_lms(x, w[b] as int));
    lemma_listed_entry(t, w, m, b);
    if !settled_at(x, w, m, b, lead) {
        lemma_open_ordered(t, w, m, s, lead);
        let e = open_ordered(t, w, m, s, lead);
        let o = open_sorted(x, w, m, m, lead);
        let key = name_key(t, w, m);
        lemma_open_sorted(x, w, m, b, m, lead);
        let j = b - drops(x, w, m, b, lead);
        lemma_no_key_ahead(e, o, key, j);
        lemma_no_key_ahead(o, e, key, j);
        assert(is_lms(x, e[j] as int));
        lemma_listed_slot(t, w, m, e[j] as int);
        assert(key(e[j] as int) == key(o[j] as int));
    }
}

/// Merging sorts: the suffixes that need not be sorted again and the others, which the sorted
/// reduced text orders, make up the sorted leftmost suffixes of type S.
pub proof fn law_merged_sorted(t: Seq<i32>, w: Seq<i32>, m: int, s: Seq<i32>, v: Seq<i32>, lead: bool)
    requires
        nameable(t, w, m),
        is_suffix_array(reduced_text(t, w, m, lead), s),
        m <= v.len(),
        forall|b: int| 0 <= b < m ==> #[trigger] v[b] == merged(t, w, m, s, b, lead),
    ensures
        lms_sorted(t, v, m),
{
    let x = text32(t);
    let e = open_ordered(t, w, m, s, lead);
    let o = open_sorted(x, w, m, m, lead);
    lemma_open_ordered(t, w, m, s, lead);
    assert forall|b: int| 0 <= b < m implies is_lms(x, #[trigger] v[b] as int) by {
        lemma_merged_name(t, w, m, s, b, lead);
    }
    assert forall|b: int, c: int| 0 <= b < c < m implies suffix_less(x, #[trigger] v[b] as int, #[trigger] v[c] as int) by {
        lemma_merged_name(t, w, m, s, b, lead);
        lemma_merged_name(t, w, m, s, c, lead);
        lemma_names_grow(x, w, m, b, c);
        if settled_at(x, w, m, b, lead) {
            lemma_settled_alone(t, w, m, b, lead);
            lemma_names_grow(x, w, m, b + 1, c);
        }
        if settled_at(x, w, m, c, lead) {
            lemma_settled_alone(t, w, m, c, lead);
            lemma_names_grow(x, w, m, b, c - 1);
        }
        let i = slot_of(w, m, v[b] as int);
        let j = slot_of(w, m, v[c] as int);
        if name_at(x, w, m, b) < name_at(x, w, m, c) {
            lemma_names_order(t, w, m, i, j);
            law_substrings_decide(x, v[b] as int, v[c] as int);
        } else {
            lemma_open_sorted(x, w, m, b, c, lead);
            lemma_open_sorted(x, w, m, c, m, lead);
            assert(suffix_less(x, e[b - drops(x, w, m, b, lead)] as int, e[c - drops(x, w, m, c, lead)] as int));
        }
    }
    assert forall|p: int| #[trigger] is_lms(x, p) implies among(v, 0, m, p as i32) by {
        lemma_listed_slot(t, w, m, p);
        let b = slot_of(w, m, p);
        if settled_at(x, w, m, b, lead) {
            assert(v[b] == p);
            lemma_among(v, 0, m, b);
        } else {
            lemma_open_sorted(x, w, m, b, m, lead);
            let i = lemma_found(e, 0, e.len() as int, o[b - drops(x, w, m, b, lead)]);
            let c = lemma_open_slot(x, w, m, m, i, lead);
            assert(v[c] == merged(t, w, m, s, c, lead));
            lemma_among(v, 0, m, c);
        }
    }
}

} // verus!
