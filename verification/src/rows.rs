//! The rows of the Burrows-Wheeler transform: the sorted suffixes, the empty one first,
//! each with the byte in front of it, and the way from a row to the row of the suffix that
//! is one byte longer.

use vstd::prelude::*;
use crate::bytes::{
    bwt_byte, bwt_from, frequency_sum, law_frequencies_add_up, lemma_occurrences_bound, occurrences,
};
use crate::gather::text8;
use crate::marks::bit;
use crate::order::{
    is_suffix_array, law_suffix_array_complete, lemma_less_irreflexive, lemma_less_transitive, lemma_suffix_array_distinct,
    suffix_less,
};
use crate::types::ALPHABET_SIZE;

verus! {

/// Where the byte of row `r` stands in the transformed text: the row of the whole text,
/// `index`, has no byte in front of it and is left out.
pub open spec fn row_position(index: int, r: int) -> int {
    if r < index {
        r
    } else {
        r - 1
    }
}

/// The byte in front of the suffix of row `r`.
pub open spec fn row_byte(t: Seq<u8>, index: int, r: int) -> int {
    t[row_position(index, r)] as int
}

/// How many of the rows from `lo` up to `hi` have byte `c`.
pub open spec fn row_count(t: Seq<u8>, index: int, c: int, lo: int, hi: int) -> int
    decreases hi - lo,
{
    if hi <= lo {
        0
    } else {
        row_count(t, index, c, lo, hi - 1) + bit(hi - 1 != index && row_byte(t, index, hi - 1) == c)
    }
}

/// The first row of the suffixes that start with byte `c` or a later one.
pub open spec fn first_row(t: Seq<u8>, c: int) -> int {
    1 + frequency_sum(t, c, t.len() as int)
}

/// The row of the suffix that has the byte of row `r` in front of the suffix of row `r`.
pub open spec fn previous_row(t: Seq<u8>, index: int, r: int) -> int {
    first_row(t, row_byte(t, index, r)) + row_count(t, index, row_byte(t, index, r), 0, r)
}

/// Counts are not negative, and no more than the rows counted.
pub proof fn lemma_row_count_bound(t: Seq<u8>, index: int, c: int, lo: int, hi: int)
    requires
        lo <= hi,
    ensures
        0 <= row_count(t, index, c, lo, hi) <= hi - lo,
    decreases hi - lo,
{
    if lo < hi {
        lemma_row_count_bound(t, index, c, lo, hi - 1);
    }
}

/// Counts add up.
pub proof fn lemma_row_count_split(t: Seq<u8>, index: int, c: int, lo: int, mid: int, hi: int)
    requires
        lo <= mid <= hi,
    ensures
        row_count(t, index, c, lo, hi) == row_count(t, index, c, lo, mid) + row_count(t, index, c, mid, hi),
    decreases hi - mid,
{
    if mid < hi {
        lemma_row_count_split(t, index, c, lo, mid, hi - 1);
    }
}

/// More rows count for no less.
pub proof fn lemma_row_count_monotone(t: Seq<u8>, index: int, c: int, mid: int, hi: int)
    requires
        0 <= mid <= hi,
    ensures
        row_count(t, index, c, 0, mid) <= row_count(t, index, c, 0, hi),
{
    lemma_row_count_split(t, index, c, 0, mid, hi);
    lemma_row_count_bound(t, index, c, mid, hi);
}

/// Counting rows is counting bytes of the transformed text.
pub proof fn lemma_row_count_is_occurrences(t: Seq<u8>, index: int, c: int, hi: int)
    requires
        0 <= index,
        0 <= hi,
    ensures
        row_count(t, index, c, 0, hi) == occurrences(t, c, if hi <= index { hi } else { hi - 1 }),
    decreases hi,
{
    if hi > 0 {
        lemma_row_count_is_occurrences(t, index, c, hi - 1);
    }
}

/// Every number below a count is the count in front of a row that is counted.
pub proof fn lemma_row_of_count(t: Seq<u8>, index: int, c: int, hi: int, m: int) -> (r: int)
    requires
        0 <= hi,
        0 <= m < row_count(t, index, c, 0, hi),
    ensures
        0 <= r < hi,
        r != index,
        row_byte(t, index, r) == c,
        row_count(t, index, c, 0, r) == m,
    decreases hi,
{
    lemma_row_count_bound(t, index, c, 0, hi);
    if m < row_count(t, index, c, 0, hi - 1) {
        lemma_row_of_count(t, index, c, hi - 1, m)
    } else {
        hi - 1
    }
}

/// The rows of later bytes come later.
pub proof fn lemma_first_row_monotone(t: Seq<u8>, a: int, b: int)
    requires
        0 <= a <= b,
    ensures
        1 <= first_row(t, a) <= first_row(t, b),
    decreases b,
{
    if a < b {
        lemma_first_row_monotone(t, a, b - 1);
        lemma_occurrences_bound(t, b - 1, t.len() as int);
    } else if b > 0 {
        lemma_first_row_monotone(t, b - 1, b - 1);
        lemma_occurrences_bound(t, b - 1, t.len() as int);
    }
}

/// The rows of all bytes are the rows after the first.
pub proof fn lemma_first_row_end(t: Seq<u8>)
    ensures
        first_row(t, ALPHABET_SIZE as int) == t.len() + 1,
{
    law_frequencies_add_up(t, t.len() as int);
}

/// Whether `index` is the row of the whole text, where `t` is not empty.
pub open spec fn valid_index(t: Seq<u8>, index: int) -> bool {
    1 <= index <= t.len()
}

/// The way to the previous row leads to the rows of the byte in front.
pub proof fn lemma_previous_row_range(t: Seq<u8>, index: int, r: int)
    requires
        valid_index(t, index),
        0 <= r <= t.len(),
        r != index,
    ensures
        first_row(t, row_byte(t, index, r)) <= previous_row(t, index, r) < first_row(t, row_byte(t, index, r) + 1),
        1 <= previous_row(t, index, r) <= t.len(),
{
    let c = row_byte(t, index, r);
    let n = t.len() as int;
    lemma_row_count_bound(t, index, c, 0, r);
    lemma_row_count_monotone(t, index, c, r + 1, n + 1);
    lemma_row_count_is_occurrences(t, index, c, n + 1);
    lemma_first_row_monotone(t, 0, c);
    lemma_first_row_monotone(t, c + 1, 256);
    lemma_first_row_end(t);
}

/// Different rows have different previous rows.
pub proof fn lemma_previous_row_injective(t: Seq<u8>, index: int, r: int, s: int)
    requires
        valid_index(t, index),
        0 <= r < s <= t.len(),
        r != index,
        s != index,
    ensures
        previous_row(t, index, r) != previous_row(t, index, s),
{
    let c = row_byte(t, index, r);
    let d = row_byte(t, index, s);
    lemma_previous_row_range(t, index, r);
    lemma_previous_row_range(t, index, s);
    if c == d {
        lemma_row_count_monotone(t, index, c, r + 1, s);
    } else if c < d {
        lemma_first_row_monotone(t, c + 1, d);
    } else {
        lemma_first_row_monotone(t, d + 1, c);
    }
}

/// How many suffixes start with the two bytes of `w`, the first one in its higher half.
pub open spec fn bigram_count(t: Seq<u8>, index: int, w: int) -> int {
    row_count(t, index, w / 256, first_row(t, w % 256), first_row(t, w % 256 + 1))
}

/// The first row of the suffixes that start with the two bytes of `w`.
pub open spec fn bigram_start(t: Seq<u8>, index: int, w: int) -> int {
    first_row(t, w / 256) + row_count(t, index, w / 256, 0, first_row(t, w % 256))
}

/// The row behind the suffixes that start with the two bytes of `w`.
pub open spec fn bigram_end(t: Seq<u8>, index: int, w: int) -> int {
    first_row(t, w / 256) + row_count(t, index, w / 256, 0, first_row(t, w % 256 + 1))
}

/// The rows of one pair of bytes follow each other.
pub proof fn lemma_bigram_rows(t: Seq<u8>, index: int, w: int)
    requires
        valid_index(t, index),
        0 <= w < 65536,
    ensures
        bigram_end(t, index, w) == bigram_start(t, index, w) + bigram_count(t, index, w),
        0 <= bigram_count(t, index, w),
        1 <= bigram_start(t, index, w) <= bigram_end(t, index, w) <= t.len() + 1,
{
    let d = w / 256;
    let c = w % 256;
    let n = t.len() as int;
    lemma_first_row_monotone(t, 0, d);
    lemma_first_row_monotone(t, c, c + 1);
    lemma_first_row_monotone(t, c + 1, 256);
    lemma_first_row_monotone(t, d + 1, 256);
    lemma_first_row_end(t);
    lemma_row_count_split(t, index, d, 0, first_row(t, c), first_row(t, c + 1));
    lemma_row_count_bound(t, index, d, first_row(t, c), first_row(t, c + 1));
    lemma_row_count_bound(t, index, d, 0, first_row(t, c));
    lemma_row_count_monotone(t, index, d, first_row(t, c + 1), n + 1);
    lemma_row_count_is_occurrences(t, index, d, n + 1);
}

/// The rows of the pairs of bytes follow each other in the order of the pairs. In front of
/// the pairs with the last byte of the text stands the row of the last byte alone.
pub proof fn lemma_bigram_order(t: Seq<u8>, index: int, w: int)
    requires
        valid_index(t, index),
        0 <= w < 65536,
    ensures
        w == 0 ==> bigram_start(t, index, w) == 1 + bit(t[0] == 0),
        w > 0 ==> bigram_start(t, index, w) == bigram_end(t, index, w - 1) + bit(w % 256 == 0 && w / 256 == t[0]),
        w == 65535 ==> bigram_end(t, index, w) == t.len() + 1,
{
    let n = t.len() as int;
    let d = w / 256;
    assert(first_row(t, 0) == 1);
    assert(row_count(t, index, d, 0, 1) == bit(t[0] == d)) by {
        assert(row_count(t, index, d, 0, 0) == 0);
    }
    lemma_first_row_end(t);
    if w % 256 == 0 && w > 0 {
        assert((w - 1) / 256 == d - 1 && (w - 1) % 256 == 255);
        lemma_row_count_is_occurrences(t, index, d - 1, n + 1);
    } else if w > 0 {
        assert((w - 1) / 256 == d && (w - 1) % 256 == w % 256 - 1);
    }
    if w == 65535 {
        lemma_row_count_is_occurrences(t, index, 255, n + 1);
    }
}

/// The rows of earlier pairs come earlier.
pub proof fn lemma_bigram_monotone(t: Seq<u8>, index: int, v: int, w: int)
    requires
        valid_index(t, index),
        0 <= v < w < 65536,
    ensures
        bigram_end(t, index, v) <= bigram_start(t, index, w),
    decreases w,
{
    lemma_bigram_order(t, index, w);
    if v < w - 1 {
        lemma_bigram_monotone(t, index, v, w - 1);
        lemma_bigram_rows(t, index, w - 1);
    }
}

/// The row two steps in front of row `r` is among the rows of the two bytes on the way.
pub proof fn lemma_bigram_of_row(t: Seq<u8>, index: int, r: int)
    requires
        valid_index(t, index),
        0 <= r <= t.len(),
        r != index,
        previous_row(t, index, r) != index,
    ensures
        ({
            let q = previous_row(t, index, r);
            let w = 256 * row_byte(t, index, q) + row_byte(t, index, r);
            bigram_start(t, index, w) <= previous_row(t, index, q) < bigram_end(t, index, w)
        }),
{
    let q = previous_row(t, index, r);
    let c = row_byte(t, index, r);
    let d = row_byte(t, index, q);
    lemma_previous_row_range(t, index, r);
    lemma_first_row_monotone(t, 0, c);
    assert((256 * d + c) / 256 == d && (256 * d + c) % 256 == c);
    lemma_row_count_monotone(t, index, d, first_row(t, c), q);
    lemma_row_count_monotone(t, index, d, q + 1, first_row(t, c + 1));
}

/// The suffix of row `r`: the first row is that of the empty suffix.
pub open spec fn suffix_in_row(sa: Seq<i32>, r: int) -> int {
    if r == 0 {
        sa.len() as int
    } else {
        sa[r - 1] as int
    }
}

/// Every suffix has a row.
pub proof fn lemma_row_of_suffix(t: Seq<int>, sa: Seq<i32>, s: int) -> (r: int)
    requires
        is_suffix_array(t, sa),
        0 <= s <= t.len(),
    ensures
        0 <= r <= t.len(),
        suffix_in_row(sa, r) == s,
{
    if s == t.len() {
        0
    } else {
        law_suffix_array_complete(t, sa, s);
        let k = choose|k: int| 0 <= k < sa.len() && #[trigger] sa[k] == s;
        k + 1
    }
}

/// No suffix has two rows.
pub proof fn lemma_row_unique(t: Seq<int>, sa: Seq<i32>, q: int, r: int)
    requires
        is_suffix_array(t, sa),
        0 <= q <= t.len(),
        0 <= r <= t.len(),
        suffix_in_row(sa, q) == suffix_in_row(sa, r),
    ensures
        q == r,
{
    if q > 0 {
        assert(sa[q - 1] < t.len());
    }
    if r > 0 {
        assert(sa[r - 1] < t.len());
    }
    if q > 0 && r > 0 {
        lemma_suffix_array_distinct(t, sa, q - 1, r - 1);
    }
}

/// The rows are in the order of their suffixes.
pub proof fn lemma_rows_sorted(t: Seq<int>, sa: Seq<i32>, q: int, r: int)
    requires
        is_suffix_array(t, sa),
        0 <= q <= t.len(),
        0 <= r <= t.len(),
    ensures
        suffix_less(t, suffix_in_row(sa, q), suffix_in_row(sa, r)) == (q < r),
    decreases q,
{
    if q < r {
        assert(sa[r - 1] < t.len());
        if q > 0 {
            assert(suffix_less(t, sa[q - 1] as int, sa[r - 1] as int));
        }
    } else if suffix_less(t, suffix_in_row(sa, q), suffix_in_row(sa, r)) {
        if q == r {
            lemma_less_irreflexive(t, suffix_in_row(sa, q));
        } else {
            lemma_rows_sorted(t, sa, r, q);
            lemma_less_transitive(t, suffix_in_row(sa, q), suffix_in_row(sa, r), suffix_in_row(sa, q));
            lemma_less_irreflexive(t, suffix_in_row(sa, q));
        }
    }
}

/// In the transform of `x`, the byte of a row is the one in front of its suffix.
pub proof fn lemma_row_byte(x: Seq<u8>, sa: Seq<i32>, t: Seq<u8>, index: int, r: int)
    requires
        bwt_from(x, sa, t, index),
        t.len() == x.len(),
        0 <= r <= x.len(),
        r != index,
    ensures
        1 <= suffix_in_row(sa, r) <= x.len(),
        row_byte(t, index, r) == x[suffix_in_row(sa, r) - 1],
        suffix_in_row(sa, index) == 0,
{
    if r > 0 {
        assert(0 <= sa[r - 1] < x.len());
        if sa[r - 1] == 0 {
            lemma_row_unique(text8(x), sa, r, index);
        }
    }
    assert(t[row_position(index, r)] == bwt_byte(x, sa, index - 1, row_position(index, r)));
}

/// Whether the rows of the suffixes that start with `c` or a later byte start at the first
/// row of `c`.
pub open spec fn starts_agree(x: Seq<u8>, sa: Seq<i32>, t: Seq<u8>, c: int) -> bool {
    forall|p: int|
        1 <= p <= x.len() ==> (p >= first_row(t, c)) == (#[trigger] x[suffix_in_row(sa, p)] >= c)
}

/// The way to the previous row leads to the suffix that is one byte longer, for the rows of
/// one byte.
proof fn lemma_previous_row_of_byte(x: Seq<u8>, sa: Seq<i32>, t: Seq<u8>, index: int, c: int, r: int)
    requires
        bwt_from(x, sa, t, index),
        t.len() == x.len(),
        starts_agree(x, sa, t, c),
        0 <= c < 256,
        0 <= r <= x.len(),
        r != index,
        row_byte(t, index, r) == c,
    ensures
        suffix_in_row(sa, previous_row(t, index, r)) == suffix_in_row(sa, r) - 1,
    decreases r,
{
    let xt = text8(x);
    let y = previous_row(t, index, r);
    lemma_row_byte(x, sa, t, index, r);
    lemma_previous_row_range(t, index, r);
    lemma_row_count_bound(t, index, c, 0, r);
    let s = suffix_in_row(sa, r) - 1;
    let g = lemma_row_of_suffix(xt, sa, s);
    assert(x[suffix_in_row(sa, g)] == c);
    assert(g > 0);
    assert(g >= first_row(t, c));
    if g < y {
        let q = lemma_row_of_count(t, index, c, r, g - first_row(t, c));
        lemma_previous_row_of_byte(x, sa, t, index, c, q);
        lemma_row_byte(x, sa, t, index, q);
        lemma_row_unique(xt, sa, q, r);
    } else if g > y {
        let z = suffix_in_row(sa, y);
        assert(x[z] >= c);
        lemma_rows_sorted(xt, sa, y, g);
        assert(suffix_less(xt, z, s));
        assert(0 <= sa[y - 1] < x.len());
        assert(xt[z] == x[z] && xt[s] == x[s]);
        assert(x[z] == c);
        let q = lemma_row_of_suffix(xt, sa, z + 1);
        assert(suffix_less(xt, z + 1, s + 1));
        lemma_rows_sorted(xt, sa, q, r);
        assert(q < r);
        if q == index {
            lemma_row_byte(x, sa, t, index, r);
        }
        lemma_row_byte(x, sa, t, index, q);
        lemma_previous_row_of_byte(x, sa, t, index, c, q);
        lemma_previous_row_range(t, index, q);
        lemma_row_unique(xt, sa, previous_row(t, index, q), y);
        lemma_row_count_monotone(t, index, c, q + 1, r);
    }
}

/// The rows of each byte start where the transformed text says.
proof fn lemma_starts_agree(x: Seq<u8>, sa: Seq<i32>, t: Seq<u8>, index: int, c: int)
    requires
        bwt_from(x, sa, t, index),
        t.len() == x.len(),
        0 <= c <= 256,
    ensures
        starts_agree(x, sa, t, c),
    decreases c,
{
    let xt = text8(x);
    let n = x.len() as int;
    if c > 0 {
        let b = c - 1;
        lemma_starts_agree(x, sa, t, index, b);
        lemma_row_count_is_occurrences(t, index, b, n + 1);
        assert forall|p: int| 1 <= p <= n implies (p >= first_row(t, c)) == (#[trigger] x[suffix_in_row(sa, p)] >= c) by {
            assert(0 <= sa[p - 1] < x.len());
            if p < first_row(t, c) && x[suffix_in_row(sa, p)] >= c {
                let q = lemma_row_of_count(t, index, b, n + 1, p - first_row(t, b));
                lemma_previous_row_of_byte(x, sa, t, index, b, q);
                lemma_row_byte(x, sa, t, index, q);
            }
            if p >= first_row(t, c) && x[suffix_in_row(sa, p)] < c {
                lemma_occurrences_bound(t, b, n);
                let q = lemma_row_of_suffix(xt, sa, suffix_in_row(sa, p) + 1);
                if q == index {
                    lemma_row_byte(x, sa, t, index, if index == 1 { 0 } else { 1 });
                }
                lemma_row_byte(x, sa, t, index, q);
                lemma_previous_row_of_byte(x, sa, t, index, b, q);
                lemma_previous_row_range(t, index, q);
                lemma_row_unique(xt, sa, previous_row(t, index, q), p);
            }
        }
    } else {
        assert(first_row(t, 0) == 1);
    }
}

/// In the transform of a text, the way to the previous row leads to the suffix that is one
/// byte longer.
pub proof fn law_previous_row(x: Seq<u8>, sa: Seq<i32>, t: Seq<u8>, index: int, r: int)
    requires
        bwt_from(x, sa, t, index),
        t.len() == x.len(),
        0 <= r <= x.len(),
        r != index,
    ensures
        suffix_in_row(sa, previous_row(t, index, r)) == suffix_in_row(sa, r) - 1,
{
    lemma_starts_agree(x, sa, t, index, row_byte(t, index, r));
    lemma_previous_row_of_byte(x, sa, t, index, row_byte(t, index, r), r);
}

} // verus!
