//! Separated texts as texts over small symbols: each separator is a symbol of its own, in front of
//! all bytes.

use vstd::prelude::*;
use crate::bytes::{separated_text, well_separated};
use crate::byte_lanes::all_left;
use crate::gather::{text32, text8};
use crate::induction::symbols_below;
use crate::kinds::{is_l, is_lms, law_last_type, law_type_step};
use crate::lanes::in_left;
use crate::lengths::{lemma_tally_bound, tally};
use crate::order::{is_suffix_array, suffix_less};
use crate::partial_induction::{first_lms, lms_count};
use crate::rebuild::lemma_tally_same;
use crate::recount::{below_of, every_lms, lemma_tally_last, with_smaller};

verus! {

/// The positions of the separators.
pub open spec fn closes(t: Seq<u8>) -> spec_fn(int) -> bool {
    |p: int| t[p] == 0
}

/// How many separators there are in front of position `p`.
pub open spec fn closed_before(t: Seq<u8>, p: int) -> int {
    tally(closes(t), 0, p)
}

/// How many separators there are.
pub open spec fn separators(t: Seq<u8>) -> int {
    closed_before(t, t.len() as int)
}

/// How many symbols the text over small symbols has.
pub open spec fn ranked_symbols(t: Seq<u8>) -> int {
    separators(t) + 255
}

/// The symbol of byte `c`, which is no separator.
pub open spec fn ranked_symbol(t: Seq<u8>, c: int) -> int {
    separators(t) - 1 + c
}

/// The text over small symbols: the separators in the order of the text, then the bytes.
pub open spec fn ranked(t: Seq<u8>) -> Seq<i32> {
    Seq::new(
        t.len(),
        |p: int|
            if t[p] == 0 {
                closed_before(t, p) as i32
            } else {
                ranked_symbol(t, t[p] as int) as i32
            },
    )
}

/// Separators are few, and counts of them grow.
pub proof fn lemma_closed_before(t: Seq<u8>, p: int)
    requires
        well_separated(t),
        0 <= p <= t.len(),
    ensures
        0 <= closed_before(t, p) <= p / 2,
        p < t.len() ==> closed_before(t, p + 1) == closed_before(t, p) + (if t[p] == 0 {
            1int
        } else {
            0
        }),
    decreases p,
{
    lemma_tally_last(closes(t), 0, p);
    if p > 0 {
        lemma_closed_before(t, p - 1);
        if p > 1 && t[p - 1] == 0 {
            lemma_closed_before(t, p - 2);
        }
    }
}

/// Counts of separators grow.
pub proof fn lemma_closed_grow(t: Seq<u8>, p: int, q: int)
    requires
        well_separated(t),
        0 <= p <= q <= t.len(),
    ensures
        closed_before(t, p) <= closed_before(t, q),
        p < q && t[p] == 0 ==> closed_before(t, p) < closed_before(t, q),
        (forall|i: int| p <= i < q ==> #[trigger] t[i] != 0) ==> closed_before(t, p) == closed_before(t, q),
    decreases q - p,
{
    lemma_closed_before(t, p);
    if p < q {
        lemma_closed_grow(t, p + 1, q);
    }
}

/// What the text over small symbols is.
pub proof fn lemma_ranked(t: Seq<u8>)
    requires
        2 <= t.len() <= i32::MAX,
        well_separated(t),
    ensures
        ranked(t).len() == t.len(),
        1 <= separators(t) <= t.len() / 2,
        symbols_below(ranked(t), ranked_symbols(t)),
        ranked(t)[t.len() - 1] == separators(t) - 1,
        forall|p: int| 0 <= p < t.len() && #[trigger] t[p] == 0 ==> ranked(t)[p] == closed_before(t, p) && 0 <= ranked(t)[p]
            < separators(t) && (p < t.len() - 1 ==> ranked(t)[p] < separators(t) - 1),
        forall|p: int| 0 <= p < t.len() && #[trigger] t[p] != 0 ==> ranked(t)[p] == separators(t) - 1 + t[p],
        forall|p: int| 0 <= p < t.len() ==> #[trigger] text32(ranked(t))[p] == ranked(t)[p],
{
    let n = t.len() as int;
    lemma_closed_before(t, n);
    lemma_closed_before(t, n - 1);
    assert forall|p: int| 0 <= p < n && #[trigger] t[p] == 0 implies ranked(t)[p] == closed_before(t, p) && 0 <= ranked(t)[p]
        < separators(t) && (p < n - 1 ==> ranked(t)[p] < separators(t) - 1) by {
        lemma_closed_before(t, p);
        lemma_closed_grow(t, p, n);
        if p < n - 1 {
            lemma_closed_grow(t, p, n - 1);
        }
    }
    assert forall|p: int| 0 <= p < n implies 0 <= #[trigger] ranked(t)[p] < ranked_symbols(t) by {
        assert(t[p] == 0 || t[p] != 0);
    }
}

/// The symbols have the order of the separated text.
proof fn lemma_ranked_order(t: Seq<u8>, p: int, q: int)
    requires
        2 <= t.len() <= i32::MAX,
        well_separated(t),
        0 <= p < t.len(),
        0 <= q < t.len(),
    ensures
        (ranked(t)[p] < ranked(t)[q]) == (separated_text(t)[p] < separated_text(t)[q]),
        (ranked(t)[p] == ranked(t)[q]) == (separated_text(t)[p] == separated_text(t)[q]),
{
    lemma_ranked(t);
    assert(t[p] == 0 || t[p] != 0);
    assert(t[q] == 0 || t[q] != 0);
    if t[p] == 0 && t[q] == 0 {
        if p < q {
            lemma_closed_grow(t, p, q);
        } else if q < p {
            lemma_closed_grow(t, q, p);
        }
    }
}

/// Suffixes have the order that they have in the separated text.
proof fn lemma_ranked_less(t: Seq<u8>, p: int, q: int)
    requires
        2 <= t.len() <= i32::MAX,
        well_separated(t),
        0 <= p,
        0 <= q,
    ensures
        suffix_less(text32(ranked(t)), p, q) == suffix_less(separated_text(t), p, q),
    decreases t.len() - p,
{
    lemma_ranked(t);
    if p < t.len() && q < t.len() {
        lemma_ranked_order(t, p, q);
        assert(text32(ranked(t))[p] == ranked(t)[p] && text32(ranked(t))[q] == ranked(t)[q]);
        lemma_ranked_less(t, p + 1, q + 1);
    }
}

/// A suffix array of the text over small symbols is one of the separated text.
pub proof fn lemma_ranked_array(t: Seq<u8>, sa: Seq<i32>)
    requires
        2 <= t.len() <= i32::MAX,
        well_separated(t),
    ensures
        is_suffix_array(text32(ranked(t)), sa) == is_suffix_array(separated_text(t), sa),
{
    lemma_ranked(t);
    assert forall|k: int, l: int| 0 <= k < sa.len() && 0 <= l < sa.len() && 0 <= sa[k] && 0 <= sa[l] implies suffix_less(
        text32(ranked(t)), #[trigger] sa[k] as int, #[trigger] sa[l] as int) == suffix_less(separated_text(t), sa[k] as int, sa[l] as int) by {
        lemma_ranked_less(t, sa[k] as int, sa[l] as int);
    }
}

/// Suffixes have the types that they have in the text of bytes.
pub proof fn lemma_ranked_types(t: Seq<u8>, p: int)
    requires
        2 <= t.len() <= i32::MAX,
        well_separated(t),
        0 <= p < t.len(),
    ensures
        is_l(text32(ranked(t)), p) == is_l(text8(t), p),
        t[p] == 0 ==> is_l(text8(t), p) == (p == t.len() - 1),
        t[p] == 0 ==> p > 0 && is_l(text8(t), p - 1) && t[p - 1] > 0,
    decreases t.len() - p,
{
    let x = text8(t);
    let y = text32(ranked(t));
    lemma_ranked(t);
    if p == t.len() - 1 {
        law_last_type(x);
        law_last_type(y);
    } else {
        lemma_ranked_types(t, p + 1);
        law_type_step(x, p);
        law_type_step(y, p);
        assert(x[p] == t[p] && x[p + 1] == t[p + 1]);
        assert(y[p] == ranked(t)[p] && y[p + 1] == ranked(t)[p + 1]);
        assert(t[p] == 0 || t[p] != 0);
        assert(t[p + 1] == 0 || t[p + 1] != 0);
    }
    if t[p] == 0 {
        law_type_step(x, p - 1);
        assert(x[p] == t[p] && x[p - 1] == t[p - 1]);
    }
}

/// The leftmost suffixes of type S are the same, and every separator but the last is one.
pub proof fn lemma_ranked_lms(t: Seq<u8>)
    requires
        2 <= t.len() <= i32::MAX,
        well_separated(t),
    ensures
        forall|p: int| #[trigger] is_lms(text32(ranked(t)), p) == is_lms(text8(t), p),
        forall|p: int| 0 <= p < t.len() - 1 && #[trigger] t[p] == 0 ==> is_lms(text8(t), p),
        forall|p: int| #[trigger] is_lms(text8(t), p) ==> 0 < p < t.len() - 1,
{
    lemma_ranked(t);
    assert forall|p: int| #[trigger] is_lms(text32(ranked(t)), p) == is_lms(text8(t), p) by {
        if 0 < p < t.len() {
            lemma_ranked_types(t, p);
            lemma_ranked_types(t, p - 1);
        }
    }
    assert forall|p: int| 0 <= p < t.len() - 1 && #[trigger] t[p] == 0 implies is_lms(text8(t), p) by {
        lemma_ranked_types(t, p);
    }
    law_last_type(text8(t));
}

/// As many leftmost suffixes of type S follow.
pub proof fn lemma_ranked_count(t: Seq<u8>, lo: int)
    requires
        2 <= t.len() <= i32::MAX,
        well_separated(t),
    ensures
        lms_count(text32(ranked(t)), lo) == lms_count(text8(t), lo),
    decreases t.len() - lo,
{
    lemma_ranked(t);
    lemma_ranked_lms(t);
    if lo < t.len() {
        lemma_ranked_count(t, lo + 1);
        assert(is_lms(text32(ranked(t)), lo) == is_lms(text8(t), lo));
    }
}

/// As many selected suffixes have smaller symbols.
pub proof fn lemma_ranked_below(t: Seq<u8>, base: spec_fn(int) -> bool, based: spec_fn(int) -> bool, c: int)
    requires
        2 <= t.len() <= i32::MAX,
        well_separated(t),
        forall|p: int| 0 <= p < t.len() ==> #[trigger] base(p) == based(p),
        1 <= c <= 256,
    ensures
        below_of(text32(ranked(t)), based)(ranked_symbol(t, c)) == below_of(text8(t), base)(c),
{
    let x = text8(t);
    let y = text32(ranked(t));
    let a = with_smaller(x, base, c);
    let b = with_smaller(y, based, ranked_symbol(t, c));
    lemma_ranked(t);
    assert forall|p: int| 0 <= p < t.len() implies #[trigger] a(p) == b(p) by {
        assert(base(p) == based(p));
        assert(x[p] == t[p] && y[p] == ranked(t)[p]);
        assert(t[p] == 0 || t[p] != 0);
    }
    lemma_tally_same(a, b, 0, t.len() as int);
}

/// How many separators stand at the first leftmost suffix of type S or in front of it.
pub open spec fn first_closed(t: Seq<u8>, f: int) -> int {
    if t[f] == 0 {
        1
    } else {
        0
    }
}

/// No separator stands in front of the first leftmost suffix of type S.
pub proof fn lemma_first_closed(t: Seq<u8>, f: int)
    requires
        2 <= t.len() <= i32::MAX,
        well_separated(t),
        first_lms(text8(t), f),
    ensures
        closed_before(t, f) == 0,
        closed_before(t, f + 1) == first_closed(t, f),
        0 < f < t.len() - 1,
        first_closed(t, f) <= separators(t) - 1,
{
    lemma_ranked(t);
    lemma_ranked_lms(t);
    assert(is_lms(text8(t), f));
    assert forall|i: int| 0 <= i < f implies #[trigger] t[i] != 0 by {
        if t[i] == 0 {
            assert(is_lms(text8(t), i));
        }
    }
    lemma_closed_grow(t, 0, f);
    lemma_closed_before(t, f);
    lemma_closed_grow(t, f + 1, t.len() - 1);
    lemma_closed_before(t, t.len() - 1);
}

/// How many of the suffixes in front of `h` that the scan to the right visits are separators below
/// the symbol `c`.
proof fn lemma_left_separators(t: Seq<u8>, f: int, c: int, h: int)
    requires
        2 <= t.len() <= i32::MAX,
        well_separated(t),
        first_lms(text8(t), f),
        first_closed(t, f) <= c <= separators(t),
        f + 1 <= h <= t.len(),
    ensures
        tally(with_smaller(text32(ranked(t)), all_left(text32(ranked(t)), f), c), 0, h) == (if closed_before(t, h) < c {
            closed_before(t, h)
        } else {
            c
        }) - first_closed(t, f),
    decreases h,
{
    let y = text32(ranked(t));
    let sel = with_smaller(y, all_left(y, f), c);
    lemma_ranked(t);
    lemma_first_closed(t, f);
    if h == f + 1 {
        lemma_none_left(t, f, c, h);
    } else {
        lemma_left_separators(t, f, c, h - 1);
        lemma_tally_last(sel, 0, h - 1);
        lemma_closed_before(t, h - 1);
        lemma_ranked_types(t, h - 1);
        lemma_ranked_types(t, h - 2);
        assert(y[h - 1] == ranked(t)[h - 1]);
        assert(t[h - 1] == 0 || t[h - 1] != 0);
        assert(sel(h - 1) == (in_left(y, f, h - 1) && y[h - 1] < c));
    }
}

/// Nothing is visited up to the first leftmost suffix of type S.
proof fn lemma_none_left(t: Seq<u8>, f: int, c: int, h: int)
    requires
        h <= f + 1,
    ensures
        tally(with_smaller(text32(ranked(t)), all_left(text32(ranked(t)), f), c), 0, h) == 0,
    decreases h,
{
    let sel = with_smaller(text32(ranked(t)), all_left(text32(ranked(t)), f), c);
    if h > 0 {
        lemma_none_left(t, f, c, h - 1);
        lemma_tally_last(sel, 0, h - 1);
        assert(!sel(h - 1));
    } else {
        lemma_tally_bound(sel, 0, h);
    }
}

/// How many of the suffixes that the scan to the right visits are separators below the symbol `c`.
pub proof fn lemma_left_closed(t: Seq<u8>, f: int, c: int)
    requires
        2 <= t.len() <= i32::MAX,
        well_separated(t),
        first_lms(text8(t), f),
        first_closed(t, f) <= c <= separators(t),
    ensures
        below_of(text32(ranked(t)), all_left(text32(ranked(t)), f))(c) == c - first_closed(t, f),
{
    lemma_ranked(t);
    lemma_first_closed(t, f);
    lemma_left_separators(t, f, c, t.len() as int);
}

/// How many of the leftmost suffixes of type S in front of `h` are separators below the symbol `c`.
proof fn lemma_lms_separators(t: Seq<u8>, c: int, h: int)
    requires
        2 <= t.len() <= i32::MAX,
        well_separated(t),
        0 <= c < separators(t),
        0 <= h < t.len(),
    ensures
        tally(with_smaller(text32(ranked(t)), every_lms(text32(ranked(t))), c), 0, h) == (if closed_before(t, h) < c {
            closed_before(t, h)
        } else {
            c
        }),
    decreases h,
{
    let y = text32(ranked(t));
    let sel = with_smaller(y, every_lms(y), c);
    lemma_ranked(t);
    lemma_ranked_lms(t);
    lemma_closed_before(t, h);
    if h > 0 {
        lemma_lms_separators(t, c, h - 1);
        lemma_tally_last(sel, 0, h - 1);
        lemma_closed_before(t, h - 1);
        assert(y[h - 1] == ranked(t)[h - 1]);
        assert(t[h - 1] == 0 || t[h - 1] != 0);
        assert(sel(h - 1) == (is_lms(y, h - 1) && y[h - 1] < c));
        assert(is_lms(y, h - 1) == is_lms(text8(t), h - 1));
    }
}

/// How many of the leftmost suffixes of type S are separators below the symbol `c`.
pub proof fn lemma_lms_closed(t: Seq<u8>, c: int)
    requires
        2 <= t.len() <= i32::MAX,
        well_separated(t),
        0 <= c < separators(t),
    ensures
        below_of(text32(ranked(t)), every_lms(text32(ranked(t))))(c) == c,
{
    let y = text32(ranked(t));
    let n = t.len() as int;
    let sel = with_smaller(y, every_lms(y), c);
    lemma_ranked(t);
    lemma_ranked_lms(t);
    lemma_lms_separators(t, c, n - 1);
    lemma_tally_last(sel, 0, n - 1);
    lemma_closed_before(t, n - 1);
    assert(is_lms(y, n - 1) == is_lms(text8(t), n - 1));
}

/// Separators are told apart by their symbols.
pub proof fn lemma_separator_alone(t: Seq<u8>, p: int, q: int)
    requires
        2 <= t.len() <= i32::MAX,
        well_separated(t),
        0 <= p < t.len(),
        0 <= q < t.len(),
        ranked(t)[p] < separators(t),
        ranked(t)[p] == ranked(t)[q],
    ensures
        p == q,
        t[p] == 0,
{
    lemma_ranked(t);
    assert(t[p] == 0 || t[p] != 0);
    assert(t[q] == 0 || t[q] != 0);
    if p < q {
        lemma_closed_grow(t, p, q);
    } else if q < p {
        lemma_closed_grow(t, q, p);
    }
}

} // verus!
