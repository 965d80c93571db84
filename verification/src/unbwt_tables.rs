//! The tables by which the transform is inverted: where the suffixes of each pair of bytes
//! end, a coarse index into them, and for each row the row of the suffix two bytes shorter.

use vstd::prelude::*;
use vstd::arithmetic::power2::{lemma_pow2_pos, pow2};
use vstd::bits::lemma_usize_shr_is_div;
use crate::bytes::{lemma_occurrences_bound, occurrences};
use crate::fold::{fold_up, lemma_fold_up_prefix};
use crate::marks::bit;
use crate::rows::{
    bigram_count, bigram_end, bigram_start, first_row, lemma_bigram_order, lemma_bigram_rows,
    lemma_first_row_end, lemma_first_row_monotone, lemma_previous_row_injective, lemma_previous_row_range,
    lemma_row_count_bound, previous_row, row_byte, row_count, row_position, valid_index,
};
use crate::types::{FastSint, FastUint, SaSint, SaUint, ALPHABET_SIZE};

verus! {

/// How many pairs of bytes there are.
pub const BIGRAMS: usize = 65536;

/// `x` without its `shift` lowest bits.
pub open spec fn high(x: int, shift: int) -> int {
    x / (pow2(shift as nat) as int)
}

/// Computes [`high`].
pub(crate) fn shifted(x: usize, shift: usize) -> (r: usize)
    requires
        shift < usize::BITS,
    ensures
        r == high(x as int, shift as int),
{
    proof {
        lemma_usize_shr_is_div(x, shift);
        lemma_pow2_pos(shift as nat);
    }
    x >> shift
}

/// The higher part grows with the number.
pub proof fn lemma_high_monotone(x: int, y: int, shift: int)
    requires
        0 <= x <= y,
        0 <= shift,
    ensures
        0 <= high(x, shift) <= high(y, shift) <= y,
{
    lemma_pow2_pos(shift as nat);
    let d = pow2(shift as nat) as int;
    vstd::arithmetic::div_mod::lemma_div_is_ordered(x, y, d);
    vstd::arithmetic::div_mod::lemma_div_pos_is_pos(x, d);
    vstd::arithmetic::div_mod::lemma_div_nonincreasing(y, d);
}

/// The least number of bits, from `s` on, without which `n` is at most `2^17`.
pub open spec fn shift_from(n: int, s: int) -> int
    decreases 31 - s,
{
    if s >= 31 || high(n, s) <= 131072 {
        s
    } else {
        shift_from(n, s + 1)
    }
}

/// The least number of bits without which `n` is at most `2^17`.
pub open spec fn fast_shift(n: int) -> int {
    shift_from(n, 0)
}

/// Computes [`fast_shift`].
pub(crate) fn find_shift(n: usize) -> (s: usize)
    requires
        n <= i32::MAX,
    ensures
        s == fast_shift(n as int),
        s <= 31,
        high(n as int, s as int) <= 131072,
{
    let mut s: usize = 0;
    while s < 31 && shifted(n, s) > 131072
        invariant
            s <= 31,
            n <= i32::MAX,
            shift_from(n as int, s as int) == fast_shift(n as int),
        decreases 31 - s,
    {
        s += 1;
    }
    proof {
        if s == 31 {
            vstd::arithmetic::power2::lemma2_to64();
            assert(pow2(31) == 0x8000_0000);
            vstd::arithmetic::div_mod::lemma_basic_div(n as int, 0x8000_0000);
        }
    }
    s
}

/// `count` with the bytes among the first `n` of `t` counted into it.
pub open spec fn histogram_added(count: Seq<u32>, t: Seq<u8>, n: int) -> Seq<u32> {
    Seq::new(
        count.len(),
        |c: int| if c < ALPHABET_SIZE { (count[c] + occurrences(t, c, n)) as u32 } else { count[c] },
    )
}

/// Whether the counts stay within their range.
pub open spec fn histogram_fits(count: Seq<u32>, t: Seq<u8>, n: int) -> bool {
    forall|c: int| 0 <= c < ALPHABET_SIZE ==> #[trigger] count[c] + occurrences(t, c, n) <= u32::MAX
}

/// A longer text holds a byte no less often.
pub proof fn lemma_occurrences_monotone(t: Seq<u8>, c: int, m: int, n: int)
    requires
        0 <= m <= n,
    ensures
        occurrences(t, c, m) <= occurrences(t, c, n),
    decreases n - m,
{
    if m < n {
        lemma_occurrences_monotone(t, c, m, n - 1);
    }
}

/// Counts the bytes among the first `n` of `t`.
pub fn unbwt_compute_histogram(t: &[u8], n: FastSint, count: &mut [SaUint])
    requires
        0 <= n <= t.len(),
        old(count).len() >= ALPHABET_SIZE,
        histogram_fits(old(count)@, t@, n as int),
    ensures
        final(count)@ == histogram_added(old(count)@, t@, n as int),
{
    let m: usize = n as usize;
    let mut i: usize = 0;
    while i < m
        invariant
            i <= m == n,
            n <= t.len(),
            count.len() >= ALPHABET_SIZE,
            histogram_fits(old(count)@, t@, n as int),
            count@ =~= histogram_added(old(count)@, t@, i as int),
        decreases m - i,
    {
        let c: usize = t[i] as usize;
        proof {
            assert(old(count)@[c as int] + occurrences(t@, c as int, n as int) <= u32::MAX);
            lemma_occurrences_monotone(t@, c as int, i + 1, n as int);
            lemma_occurrences_bound(t@, c as int, i as int);
        }
        count[c] = count[c] + 1;
        i += 1;
    }
    assert(count@ =~= histogram_added(old(count)@, t@, n as int));
}

/// The table with the two bytes of every pair exchanged.
pub open spec fn transposed(b: Seq<u32>) -> Seq<u32> {
    Seq::new(b.len(), |w: int| if w < BIGRAMS { b[256 * (w % 256) + w / 256] } else { b[w] })
}

/// Whether the pair `w` has been exchanged when the pairs of the bytes below `x`, and of `x`
/// with those below `y`, have been.
spec fn exchanged(w: int, x: int, y: int) -> bool {
    let a = w / 256;
    let b = w % 256;
    let lo = if a < b { a } else { b };
    let hi = if a < b { b } else { a };
    lo < x || (lo == x && hi < y)
}

/// Exchanges the two bytes of every pair.
pub fn unbwt_transpose_bucket2(bucket2: &mut [SaUint])
    requires
        old(bucket2).len() >= BIGRAMS,
    ensures
        final(bucket2)@ == transposed(old(bucket2)@),
{
    let ghost b = bucket2@;
    let mut x: usize = 0;
    while x < ALPHABET_SIZE
        invariant
            x <= ALPHABET_SIZE,
            b.len() >= BIGRAMS,
            bucket2.len() == b.len(),
            forall|w: int| 0 <= w < BIGRAMS ==> #[trigger] bucket2@[w] == (if exchanged(w, x as int, x + 1) { transposed(b)[w] } else { b[w] }),
            forall|w: int| BIGRAMS <= w < b.len() ==> #[trigger] bucket2@[w] == b[w],
        decreases ALPHABET_SIZE - x,
    {
        let mut y: usize = x + 1;
        while y < ALPHABET_SIZE
            invariant
                x < y <= ALPHABET_SIZE,
                b.len() >= BIGRAMS,
                bucket2.len() == b.len(),
                forall|w: int| 0 <= w < BIGRAMS ==> #[trigger] bucket2@[w] == (if exchanged(w, x as int, y as int) { transposed(b)[w] } else { b[w] }),
                forall|w: int| BIGRAMS <= w < b.len() ==> #[trigger] bucket2@[w] == b[w],
            decreases ALPHABET_SIZE - y,
        {
            let first: usize = y * 256 + x;
            let second: usize = x * 256 + y;
            proof {
                assert((y * 256 + x) / 256 == y && (y * 256 + x) % 256 == x);
                assert((x * 256 + y) / 256 == x && (x * 256 + y) % 256 == y);
            }
            let kept: SaUint = bucket2[first];
            bucket2[first] = bucket2[second];
            bucket2[second] = kept;
            y += 1;
        }
        x += 1;
    }
    assert(bucket2@ =~= transposed(b));
}

/// Exchanging takes the entry of each pair to the pair with its bytes exchanged, and keeps what
/// is behind the pairs.
pub proof fn law_transposed_pairs(b: Seq<u32>)
    requires
        b.len() >= BIGRAMS,
    ensures
        transposed(b).len() == b.len(),
        forall|x: int, y: int| 0 <= x < 256 && 0 <= y < 256 ==> #[trigger] transposed(b)[256 * x + y] == b[256 * y + x],
        forall|w: int| BIGRAMS <= w < b.len() ==> #[trigger] transposed(b)[w] == b[w],
{
    assert forall|x: int, y: int| 0 <= x < 256 && 0 <= y < 256 implies #[trigger] transposed(b)[256 * x + y] == b[256 * y + x] by {
        let w = 256 * x + y;
        assert(0 <= w < BIGRAMS && w / 256 == x && w % 256 == y);
    }
}

/// Exchanging the bytes of every pair twice changes nothing.
pub proof fn law_transposed_twice(b: Seq<u32>)
    requires
        b.len() >= BIGRAMS,
    ensures
        transposed(transposed(b)) == b,
{
    assert forall|w: int| 0 <= w < BIGRAMS implies transposed(transposed(b))[w] == b[w] by {
        let v = 256 * (w % 256) + w / 256;
        assert(0 <= v < BIGRAMS && v / 256 == w % 256 && v % 256 == w / 256);
    }
    assert(transposed(transposed(b)) =~= b);
}

/// One more than the sum of the first `c` counts.
pub open spec fn starts(b1: Seq<u32>, c: int) -> int
    decreases c,
{
    if c <= 0 {
        1
    } else {
        starts(b1, c - 1) + b1[c - 1]
    }
}

/// The starts in place of the counts.
pub open spec fn started(b1: Seq<u32>) -> Seq<u32> {
    Seq::new(b1.len(), |c: int| if c < ALPHABET_SIZE { starts(b1, c) as u32 } else { b1[c] })
}

/// Whether the bytes of the rows from `lo` up to `hi` are in the text.
pub open spec fn rows_within(t: Seq<u8>, index: int, lo: int, hi: int) -> bool {
    forall|r: int| lo <= r < hi && r != index ==> 0 <= #[trigger] row_position(index, r) < t.len()
}

/// How often the second byte of `w` stands in front of a row of the first one, where `b1`
/// holds the counts of the rows.
pub open spec fn pair_count(t: Seq<u8>, b1: Seq<u32>, index: int, w: int) -> int {
    row_count(t, index, w % 256, starts(b1, w / 256), starts(b1, w / 256 + 1))
}

/// `b2` with the pairs counted into it, the byte of the row in the higher half.
pub open spec fn pairs_counted(t: Seq<u8>, b1: Seq<u32>, b2: Seq<u32>, index: int) -> Seq<u32> {
    Seq::new(b2.len(), |w: int| if w < BIGRAMS { (b2[w] + pair_count(t, b1, index, w)) as u32 } else { b2[w] })
}

/// Whether the counts of pairs stay within their range.
pub open spec fn pairs_fit(t: Seq<u8>, b1: Seq<u32>, b2: Seq<u32>, index: int) -> bool {
    forall|w: int| 0 <= w < BIGRAMS ==> #[trigger] b2[w] + pair_count(t, b1, index, w) <= u32::MAX
}

/// The starts grow.
proof fn lemma_starts_monotone(b1: Seq<u32>, c: int, d: int)
    requires
        0 <= c <= d <= b1.len(),
    ensures
        1 <= starts(b1, c) <= starts(b1, d),
    decreases d,
{
    if c < d {
        lemma_starts_monotone(b1, c, d - 1);
    } else if d > 0 {
        lemma_starts_monotone(b1, d - 1, d - 1);
    }
}

/// Counts the bytes of the rows from `lo` up to `hi` into the slots from `base` on.
fn count_rows(t: &[u8], index: usize, lo: usize, hi: usize, b2: &mut [SaUint], base: usize)
    requires
        lo <= hi,
        rows_within(t@, index as int, lo as int, hi as int),
        base + 256 <= old(b2).len(),
        forall|w: int| base <= w < base + 256 ==> #[trigger] old(b2)@[w] + row_count(t@, index as int, w - base, lo as int, hi as int) <= u32::MAX,
    ensures
        final(b2).len() == old(b2).len(),
        forall|w: int| base <= w < base + 256 ==> #[trigger] final(b2)@[w]
            == old(b2)@[w] + row_count(t@, index as int, w - base, lo as int, hi as int),
        forall|w: int| 0 <= w < old(b2).len() && !(base <= w < base + 256) ==> #[trigger] final(b2)@[w] == old(b2)@[w],
{
    let mut r: usize = lo;
    while r < hi
        invariant
            lo <= r <= hi,
            rows_within(t@, index as int, lo as int, hi as int),
            base + 256 <= b2.len(),
            b2.len() == old(b2).len(),
            forall|w: int| base <= w < base + 256 ==> #[trigger] old(b2)@[w] + row_count(t@, index as int, w - base, lo as int, hi as int) <= u32::MAX,
            forall|w: int| base <= w < base + 256 ==> #[trigger] b2@[w]
                == old(b2)@[w] + row_count(t@, index as int, w - base, lo as int, r as int),
            forall|w: int| 0 <= w < old(b2).len() && !(base <= w < base + 256) ==> #[trigger] b2@[w] == old(b2)@[w],
        decreases hi - r,
    {
        if r != index {
            assert(0 <= row_position(index as int, r as int) < t.len());
            let c: usize = t[if r < index { r } else { r - 1 }] as usize;
            let w: usize = base + c;
            proof {
                assert(old(b2)@[w as int] + row_count(t@, index as int, w - base, lo as int, hi as int) <= u32::MAX);
                crate::rows::lemma_row_count_split(t@, index as int, w - base, lo as int, r + 1, hi as int);
                lemma_row_count_bound(t@, index as int, w - base, r + 1, hi as int);
            }
            b2[w] = b2[w] + 1;
        }
        r += 1;
    }
}

/// Turns the counts of the bytes into the first rows of the bytes, and counts the pairs of
/// bytes at the starts of the suffixes.
pub fn unbwt_compute_bigram_histogram_single(t: &[u8], bucket1: &mut [SaUint], bucket2: &mut [SaUint], index: FastUint)
    requires
        old(bucket1).len() >= ALPHABET_SIZE,
        old(bucket2).len() >= BIGRAMS,
        starts(old(bucket1)@, ALPHABET_SIZE as int) <= usize::MAX,
        rows_within(t@, index as int, 1, starts(old(bucket1)@, ALPHABET_SIZE as int)),
        pairs_fit(t@, old(bucket1)@, old(bucket2)@, index as int),
    ensures
        final(bucket1)@ == started(old(bucket1)@),
        final(bucket2)@ == transposed(pairs_counted(t@, old(bucket1)@, old(bucket2)@, index as int)),
{
    let ghost b1 = bucket1@;
    let ghost b2 = bucket2@;
    let mut sum: usize = 1;
    let mut c: usize = 0;
    while c < ALPHABET_SIZE
        invariant
            c <= ALPHABET_SIZE,
            b1.len() >= ALPHABET_SIZE,
            bucket1.len() == b1.len(),
            b2.len() >= BIGRAMS,
            bucket2.len() == b2.len(),
            starts(b1, ALPHABET_SIZE as int) <= usize::MAX,
            rows_within(t@, index as int, 1, starts(b1, ALPHABET_SIZE as int)),
            pairs_fit(t@, b1, b2, index as int),
            sum == starts(b1, c as int),
            forall|x: int| 0 <= x < b1.len() ==> #[trigger] bucket1@[x] == (if x < c { started(b1)[x] } else { b1[x] }),
            forall|w: int| 0 <= w < b2.len() ==> #[trigger] bucket2@[w] == (if w < 256 * c { pairs_counted(t@, b1, b2, index as int)[w] } else { b2[w] }),
        decreases ALPHABET_SIZE - c,
    {
        let prev: usize = sum;
        proof {
            lemma_starts_monotone(b1, c as int, c as int);
            lemma_starts_monotone(b1, c + 1, 256);
            assert(bucket1@[c as int] == b1[c as int]);
        }
        sum = sum + bucket1[c] as usize;
        bucket1[c] = #[verifier::truncate] (prev as SaUint);
        proof {
            assert forall|w: int| 256 * c <= w < 256 * c + 256 implies #[trigger] bucket2@[w] + row_count(t@, index as int, w - 256 * c, prev as int, sum as int) <= u32::MAX by {
                assert(w / 256 == c && w % 256 == w - 256 * c);
                assert(b2[w] + pair_count(t@, b1, index as int, w) <= u32::MAX);
            }
        }
        count_rows(t, index, prev, sum, bucket2, 256 * c);
        proof {
            assert forall|w: int| 256 * c <= w < 256 * c + 256 implies #[trigger] bucket2@[w] == pairs_counted(t@, b1, b2, index as int)[w] by {
                assert(w / 256 == c && w % 256 == w - 256 * c);
                lemma_row_count_bound(t@, index as int, w - 256 * c, prev as int, sum as int);
            }
        }
        c += 1;
    }
    assert(bucket1@ =~= started(b1));
    assert(bucket2@ =~= pairs_counted(t@, b1, b2, index as int));
    unbwt_transpose_bucket2(bucket2);
}

/// `f` with `value` in the slots from `lo` up to `hi`.
pub open spec fn filled(f: Seq<u16>, lo: int, hi: int, value: u16) -> Seq<u16> {
    Seq::new(f.len(), |x: int| if lo <= x < hi { value } else { f[x] })
}

/// What indexing the pairs works on: the pairs, the index, how much of it is written, and
/// the next row.
pub type FastState = (Seq<u32>, Seq<u16>, int, int);

/// Replaces the count of pair `w` by its first row and lets the index point to it.
pub open spec fn fastbits_step(lastc: int, shift: int) -> spec_fn(FastState, int) -> Option<FastState> {
    |s: FastState, w: int|
        {
            let (b, f, v, sum) = s;
            let prev = sum + bit(w % 256 == 0 && w / 256 == lastc);
            let next = prev + b[w];
            let last = high(next - 1, shift);
            let to = if prev != next && v <= last { last + 1 } else { v };
            if 0 <= w < b.len() && next <= usize::MAX && to <= f.len() {
                Some((b.update(w, prev as u32), filled(f, v, to, w as u16), to, next))
            } else {
                None
            }
        }
}

/// [`fastbits_step`] over the pairs below `hi`.
pub open spec fn fastbits_run(lastc: int, shift: int, b: Seq<u32>, f: Seq<u16>, hi: int) -> Option<FastState> {
    fold_up(fastbits_step(lastc, shift), (b, f, 0, 1), 0, hi)
}

/// Replaces the counts of the pairs by their first rows and indexes the pairs by the higher
/// bits of their rows.
pub fn unbwt_calculate_fastbits(bucket2: &mut [SaUint], fastbits: &mut [u16], lastc: FastUint, shift: FastUint)
    requires
        shift < usize::BITS,
        fastbits_run(lastc as int, shift as int, old(bucket2)@, old(fastbits)@, BIGRAMS as int) is Some,
    ensures
        ({
            let s = fastbits_run(lastc as int, shift as int, old(bucket2)@, old(fastbits)@, BIGRAMS as int)->0;
            final(bucket2)@ == s.0 && final(fastbits)@ == s.1
        }),
        final(bucket2).len() == old(bucket2).len(),
        final(fastbits).len() == old(fastbits).len(),
{
    let ghost step = fastbits_step(lastc as int, shift as int);
    let ghost s0 = (bucket2@, fastbits@, 0int, 1int);
    let mut v: usize = 0;
    let mut sum: usize = 1;
    let mut w: usize = 0;
    while w < BIGRAMS
        invariant
            w <= BIGRAMS,
            shift < usize::BITS,
            step == fastbits_step(lastc as int, shift as int),
            s0 == (old(bucket2)@, old(fastbits)@, 0int, 1int),
            fold_up(step, s0, 0, BIGRAMS as int) is Some,
            fold_up(step, s0, 0, w as int) == Some((bucket2@, fastbits@, v as int, sum as int)),
            bucket2.len() == old(bucket2).len(),
            fastbits.len() == old(fastbits).len(),
        decreases BIGRAMS - w,
    {
        proof {
            lemma_fold_up_prefix(step, s0, 0, w + 1, BIGRAMS as int);
            assert(step((bucket2@, fastbits@, v as int, sum as int), w as int) is Some);
        }
        let ghost f0 = fastbits@;
        let ghost v0 = v;
        if w % 256 == 0 && w / 256 == lastc {
            sum = sum + 1;
        }
        let prev: usize = sum;
        sum = sum + bucket2[w] as usize;
        bucket2[w] = #[verifier::truncate] (prev as SaUint);
        if prev != sum {
            let last: usize = shifted(sum - 1, shift);
            while v <= last
                invariant
                    w < BIGRAMS,
                    v0 <= v,
                    v <= last + 1 || v == v0,
                    v0 <= last ==> last < fastbits.len(),
                    fastbits.len() == f0.len(),
                    fastbits@ =~= filled(f0, v0 as int, v as int, w as u16),
                decreases last + 1 - v,
            {
                fastbits[v] = w as u16;
                v += 1;
            }
        }
        assert(fastbits@ =~= filled(f0, v0 as int, v as int, w as u16));
        w += 1;
    }
}

/// Whether the index of the pairs below `w` leads to the pair of each of their rows, or to
/// one in front of it.
pub open spec fn leads_to_pairs(t: Seq<u8>, index: int, f: Seq<u16>, shift: int, w: int) -> bool {
    forall|k: int, x: int|
        0 <= k < w && #[trigger] bigram_count(t, index, k) > 0 && 0 <= x <= high(bigram_end(t, index, k) - 1, shift)
            ==> #[trigger] f[x] <= k
}

/// Whether indexing has come as far as pair `w` of the transformed text `t`.
pub open spec fn indexed(t: Seq<u8>, index: int, shift: int, s: FastState, w: int) -> bool {
    let (b, f, v, sum) = s;
    &&& sum == (if w == 0 { 1 } else { bigram_end(t, index, w - 1) })
    &&& forall|k: int| 0 <= k < w ==> #[trigger] b[k] == bigram_start(t, index, k)
    &&& forall|k: int| w <= k < BIGRAMS ==> #[trigger] b[k] == bigram_count(t, index, k)
    &&& 0 <= v <= high(t.len() as int, shift) + 1
    &&& forall|k: int| 0 <= k < w && #[trigger] bigram_count(t, index, k) > 0 ==> v > high(bigram_end(t, index, k) - 1, shift)
    &&& forall|x: int| 0 <= x < v ==> #[trigger] f[x] < w
    &&& leads_to_pairs(t, index, f, shift, w)
}

/// Indexing the pairs of a transformed text.
pub proof fn lemma_fastbits(t: Seq<u8>, index: int, shift: int, b: Seq<u32>, f: Seq<u16>, w: int)
    requires
        valid_index(t, index),
        t.len() < u32::MAX,
        0 <= shift,
        b.len() >= BIGRAMS,
        forall|k: int| 0 <= k < BIGRAMS ==> #[trigger] b[k] == bigram_count(t, index, k),
        high(t.len() as int, shift) < f.len(),
        0 <= w <= BIGRAMS,
    ensures
        fastbits_run(t[0] as int, shift, b, f, w) is Some,
        ({
            let s = fastbits_run(t[0] as int, shift, b, f, w)->0;
            indexed(t, index, shift, s, w) && s.0.len() == b.len() && s.1.len() == f.len()
        }),
    decreases w,
{
    lemma_high_monotone(0, t.len() as int, shift);
    if w > 0 {
        let k = w - 1;
        lemma_fastbits(t, index, shift, b, f, k);
        let s = fastbits_run(t[0] as int, shift, b, f, k)->0;
        lemma_bigram_order(t, index, k);
        lemma_bigram_rows(t, index, k);
        let prev = bigram_start(t, index, k);
        let next = bigram_end(t, index, k);
        assert(s.0[k] == bigram_count(t, index, k));
        if prev != next {
            lemma_high_monotone(next - 1, t.len() as int, shift);
        }
        let z = fastbits_run(t[0] as int, shift, b, f, w)->0;
        assert(Some(z) == fastbits_step(t[0] as int, shift)(s, k));
        assert forall|m: int, x: int|
            0 <= m < w && #[trigger] bigram_count(t, index, m) > 0 && 0 <= x <= high(bigram_end(t, index, m) - 1, shift)
            implies #[trigger] z.1[x] <= m by {
            if m < k {
                assert(s.2 > high(bigram_end(t, index, m) - 1, shift));
                assert(s.1[x] <= m);
            } else if x < s.2 {
                assert(s.1[x] < k);
            }
        }
    }
}

/// What collecting the rows works on: the rows two bytes on, the next rows of the bytes and
/// the next rows of the pairs.
pub type PsiState = (Seq<u32>, Seq<u32>, Seq<u32>);

/// Notes row `i` for the row two steps in front of it.
pub open spec fn psi_step(t: Seq<u8>, index: int) -> spec_fn(PsiState, int) -> Option<PsiState> {
    |s: PsiState, i: int|
        {
            let (p, b1, b2) = s;
            let c = row_byte(t, index, i);
            let q = b1[c] as int;
            let w = 256 * row_byte(t, index, q) + c;
            if !(0 <= row_position(index, i) < t.len() && c < b1.len() && q < u32::MAX) {
                None
            } else if q == index {
                Some((p, b1.update(c, (q + 1) as u32), b2))
            } else if 0 <= row_position(index, q) < t.len() && w < b2.len() && b2[w] < p.len() && b2[w] < u32::MAX {
                Some((p.update(b2[w] as int, i as u32), b1.update(c, (q + 1) as u32), b2.update(w, (b2[w] + 1) as u32)))
            } else {
                None
            }
        }
}

/// [`psi_step`] over the rows whose bytes stand from `start` up to `end` in the transformed
/// text.
pub open spec fn psi_run(t: Seq<u8>, index: int, s: PsiState, start: int, end: int) -> Option<PsiState> {
    match fold_up(psi_step(t, index), s, start, if end < index { end } else { index }) {
        Some(x) => fold_up(psi_step(t, index), x, (if start > index { start } else { index }) + 1, end + 1),
        None => None,
    }
}

/// Performs one step.
fn psi_at(t: &[u8], p: &mut [SaUint], bucket1: &mut [SaUint], bucket2: &mut [SaUint], index: usize, i: usize)
    requires
        psi_step(t@, index as int)((old(p)@, old(bucket1)@, old(bucket2)@), i as int) is Some,
    ensures
        psi_step(t@, index as int)((old(p)@, old(bucket1)@, old(bucket2)@), i as int)
            == Some((final(p)@, final(bucket1)@, final(bucket2)@)),
        final(p).len() == old(p).len(),
        final(bucket1).len() == old(bucket1).len(),
        final(bucket2).len() == old(bucket2).len(),
{
    let c: usize = t[if i < index { i } else { i - 1 }] as usize;
    let q: usize = bucket1[c] as usize;
    bucket1[c] = bucket1[c] + 1;
    if q != index {
        let w: usize = 256 * t[if q < index { q } else { q - 1 }] as usize + c;
        let to: usize = bucket2[w] as usize;
        p[to] = #[verifier::truncate] (i as SaUint);
        bucket2[w] = bucket2[w] + 1;
    }
}

/// Performs the steps from `lo` up to `hi`.
fn psi_rows(t: &[u8], p: &mut [SaUint], bucket1: &mut [SaUint], bucket2: &mut [SaUint], index: usize, lo: usize, hi: usize)
    requires
        fold_up(psi_step(t@, index as int), (old(p)@, old(bucket1)@, old(bucket2)@), lo as int, hi as int) is Some,
    ensures
        fold_up(psi_step(t@, index as int), (old(p)@, old(bucket1)@, old(bucket2)@), lo as int, hi as int)
            == Some((final(p)@, final(bucket1)@, final(bucket2)@)),
        final(p).len() == old(p).len(),
        final(bucket1).len() == old(bucket1).len(),
        final(bucket2).len() == old(bucket2).len(),
{
    let ghost step = psi_step(t@, index as int);
    let ghost s0 = (p@, bucket1@, bucket2@);
    let mut i: usize = lo;
    while i < hi
        invariant
            lo <= i,
            i <= hi || i == lo,
            step == psi_step(t@, index as int),
            s0 == (old(p)@, old(bucket1)@, old(bucket2)@),
            fold_up(step, s0, lo as int, hi as int) is Some,
            fold_up(step, s0, lo as int, i as int) == Some((p@, bucket1@, bucket2@)),
            p.len() == old(p).len(),
            bucket1.len() == old(bucket1).len(),
            bucket2.len() == old(bucket2).len(),
        decreases hi - i,
    {
        proof {
            lemma_fold_up_prefix(step, s0, lo as int, i + 1, hi as int);
        }
        psi_at(t, p, bucket1, bucket2, index, i);
        i += 1;
    }
}

/// Notes, for the rows of a block of the transformed text, each row for the row two steps in
/// front of it.
pub fn unbwt_calculate_bi_psi(
    t: &[u8],
    p: &mut [SaUint],
    bucket1: &mut [SaUint],
    bucket2: &mut [SaUint],
    index: FastUint,
    omp_block_start: FastSint,
    omp_block_end: FastSint,
)
    requires
        0 <= omp_block_start,
        0 <= omp_block_end,
        index < usize::MAX,
        psi_run(t@, index as int, (old(p)@, old(bucket1)@, old(bucket2)@), omp_block_start as int, omp_block_end as int) is Some,
    ensures
        psi_run(t@, index as int, (old(p)@, old(bucket1)@, old(bucket2)@), omp_block_start as int, omp_block_end as int)
            == Some((final(p)@, final(bucket1)@, final(bucket2)@)),
        final(p).len() == old(p).len(),
        final(bucket1).len() == old(bucket1).len(),
        final(bucket2).len() == old(bucket2).len(),
{
    let start: usize = omp_block_start as usize;
    let end: usize = omp_block_end as usize;
    psi_rows(t, p, bucket1, bucket2, index, start, if end < index { end } else { index });
    psi_rows(t, p, bucket1, bucket2, index, (if start > index { start } else { index }) + 1, end + 1);
}

/// The row two steps in front of row `r`.
pub open spec fn two_rows_back(t: Seq<u8>, index: int, r: int) -> int {
    previous_row(t, index, previous_row(t, index, r))
}

/// Whether `p` leads from the row two steps in front of each of the first `i` rows back to
/// it.
pub open spec fn leads_on(t: Seq<u8>, index: int, p: Seq<u32>, i: int) -> bool {
    forall|r: int|
        0 <= r < i && r != index && previous_row(t, index, r) != index ==> p[#[trigger] two_rows_back(t, index, r)] == r
}

/// Whether `b1` holds the next rows of the bytes when the first `i` rows are done.
pub open spec fn bytes_at(t: Seq<u8>, index: int, b1: Seq<u32>, i: int) -> bool {
    &&& b1.len() >= ALPHABET_SIZE
    &&& forall|c: int| 0 <= c < ALPHABET_SIZE ==> #[trigger] b1[c] == first_row(t, c) + row_count(t, index, c, 0, i)
}

/// Whether `b2` holds the next rows of the pairs that go with the next rows of the bytes.
pub open spec fn pairs_at(t: Seq<u8>, index: int, b1: Seq<u32>, b2: Seq<u32>) -> bool {
    &&& b2.len() >= BIGRAMS
    &&& forall|w: int|
        0 <= w < BIGRAMS ==> #[trigger] b2[w] == first_row(t, w / 256) + row_count(t, index, w / 256, 0, b1[w % 256] as int)
}

/// Whether no entry of `p` is above `n`.
pub open spec fn bounded(p: Seq<u32>, n: int) -> bool {
    forall|x: int| 0 <= x < p.len() ==> #[trigger] p[x] <= n
}

/// Whether collecting has come as far as row `i`.
pub open spec fn collected(t: Seq<u8>, index: int, p0: Seq<u32>, s: PsiState, i: int) -> bool {
    &&& s.0.len() == p0.len()
    &&& bounded(p0, t.len() as int) ==> bounded(s.0, t.len() as int)
    &&& leads_on(t, index, s.0, i)
    &&& bytes_at(t, index, s.1, i)
    &&& pairs_at(t, index, s.1, s.2)
}

/// One step of collecting.
proof fn lemma_psi_step(t: Seq<u8>, index: int, p0: Seq<u32>, s: PsiState, i: int)
    requires
        valid_index(t, index),
        t.len() < u32::MAX,
        p0.len() > t.len(),
        0 <= i <= t.len(),
        i != index,
        collected(t, index, p0, s, i),
    ensures
        psi_step(t, index)(s, i) is Some,
        collected(t, index, p0, psi_step(t, index)(s, i)->0, i + 1),
        psi_step(t, index)(s, i).unwrap().1.len() == s.1.len(),
        psi_step(t, index)(s, i).unwrap().2.len() == s.2.len(),
{
    let c = row_byte(t, index, i);
    let q = s.1[c] as int;
    lemma_previous_row_range(t, index, i);
    assert(q == previous_row(t, index, i));
    let z = psi_step(t, index)(s, i)->0;
    if q != index {
        let d = row_byte(t, index, q);
        let w = 256 * d + c;
        assert(w / 256 == d && w % 256 == c);
        assert(s.2[w] == two_rows_back(t, index, i));
        lemma_previous_row_range(t, index, q);
        assert(leads_on(t, index, z.0, i + 1)) by {
            assert forall|r: int| 0 <= r < i + 1 && r != index && previous_row(t, index, r) != index
                implies z.0[#[trigger] two_rows_back(t, index, r)] == r by {
                if r < i {
                    let a = previous_row(t, index, r);
                    lemma_previous_row_injective(t, index, r, i);
                    lemma_previous_row_range(t, index, r);
                    if a < q {
                        lemma_previous_row_injective(t, index, a, q);
                    } else {
                        lemma_previous_row_injective(t, index, q, a);
                    }
                    lemma_previous_row_range(t, index, a);
                    assert(s.0[two_rows_back(t, index, r)] == r);
                }
            }
        }
    } else {
        assert(leads_on(t, index, z.0, i + 1));
    }
    assert(bytes_at(t, index, z.1, i + 1)) by {
        assert forall|b: int| 0 <= b < ALPHABET_SIZE implies #[trigger] z.1[b] == first_row(t, b) + row_count(t, index, b, 0, i + 1) by {
            assert(s.1[b] == first_row(t, b) + row_count(t, index, b, 0, i));
        }
    }
    assert(pairs_at(t, index, z.1, z.2)) by {
        assert forall|v: int| 0 <= v < BIGRAMS implies #[trigger] z.2[v] == first_row(t, v / 256) + row_count(t, index, v / 256, 0, z.1[v % 256] as int) by {
            assert(s.2[v] == first_row(t, v / 256) + row_count(t, index, v / 256, 0, s.1[v % 256] as int));
            if v % 256 == c {
                assert(z.1[v % 256] == q + 1);
                assert(row_count(t, index, v / 256, 0, q + 1) == row_count(t, index, v / 256, 0, q)
                    + bit(q != index && row_byte(t, index, q) == v / 256));
            }
        }
    }
}

/// The row of the whole text adds nothing.
proof fn lemma_psi_skip(t: Seq<u8>, index: int, p0: Seq<u32>, s: PsiState)
    requires
        valid_index(t, index),
        collected(t, index, p0, s, index),
    ensures
        collected(t, index, p0, s, index + 1),
{
    assert(bytes_at(t, index, s.1, index + 1)) by {
        assert forall|b: int| 0 <= b < ALPHABET_SIZE implies #[trigger] s.1[b] == first_row(t, b) + row_count(t, index, b, 0, index + 1) by {
            assert(s.1[b] == first_row(t, b) + row_count(t, index, b, 0, index));
        }
    }
}

/// Collecting a run of rows without that of the whole text.
proof fn lemma_psi_rows(t: Seq<u8>, index: int, p0: Seq<u32>, s: PsiState, lo: int, hi: int)
    requires
        valid_index(t, index),
        t.len() < u32::MAX,
        p0.len() > t.len(),
        0 <= lo <= hi <= t.len() + 1,
        hi <= index || index < lo,
        collected(t, index, p0, s, lo),
    ensures
        fold_up(psi_step(t, index), s, lo, hi) is Some,
        ({
            let z = fold_up(psi_step(t, index), s, lo, hi)->0;
            collected(t, index, p0, z, hi) && z.1.len() == s.1.len() && z.2.len() == s.2.len()
        }),
    decreases hi - lo,
{
    if lo < hi {
        lemma_psi_rows(t, index, p0, s, lo, hi - 1);
        lemma_psi_step(t, index, p0, fold_up(psi_step(t, index), s, lo, hi - 1)->0, hi - 1);
    }
}

/// The row whose byte stands at `k`.
pub open spec fn row_at(index: int, k: int) -> int {
    if k < index {
        k
    } else {
        k + 1
    }
}

/// Collecting the rows of a block.
pub proof fn lemma_psi(t: Seq<u8>, index: int, p0: Seq<u32>, s: PsiState, start: int, end: int)
    requires
        valid_index(t, index),
        t.len() < u32::MAX,
        p0.len() > t.len(),
        0 <= start <= end <= t.len(),
        collected(t, index, p0, s, row_at(index, start)),
    ensures
        psi_run(t, index, s, start, end) is Some,
        ({
            let z = psi_run(t, index, s, start, end)->0;
            collected(t, index, p0, z, row_at(index, end)) && z.1.len() == s.1.len() && z.2.len() == s.2.len()
        }),
{
    let mid = if end < index { end } else { index };
    if start < index {
        lemma_psi_rows(t, index, p0, s, start, mid);
        if index <= end {
            let x = fold_up(psi_step(t, index), s, start, mid)->0;
            lemma_psi_skip(t, index, p0, x);
            lemma_psi_rows(t, index, p0, x, index + 1, end + 1);
        }
    } else {
        lemma_psi_rows(t, index, p0, s, start + 1, end + 1);
    }
}

/// The counts of the pairs, in a table of length `len`.
pub open spec fn pair_table(t: Seq<u8>, index: int, len: nat) -> Seq<u32> {
    Seq::new(len, |w: int| if w < BIGRAMS { bigram_count(t, index, w) as u32 } else { 0 })
}

/// The first rows of the bytes.
pub open spec fn byte_table(t: Seq<u8>) -> Seq<u32> {
    Seq::new(ALPHABET_SIZE as nat, |c: int| first_row(t, c) as u32)
}

/// The rows two bytes on, the ends of the pairs and the index of the pairs.
pub struct Tables {
    pub next: Seq<u32>,
    pub ends: Seq<u32>,
    pub fast: Seq<u16>,
}

/// The tables for the transformed text `t`, written over `p`, a table of `len` pairs and
/// the index `f`.
pub open spec fn tables(t: Seq<u8>, index: int, p: Seq<u32>, len: nat, f: Seq<u16>) -> Tables {
    let indexing = fastbits_run(t[0] as int, fast_shift(t.len() as int), pair_table(t, index, len), f, BIGRAMS as int).unwrap();
    let collecting = psi_run(t, index, (p, byte_table(t), indexing.0), 0, t.len() as int).unwrap();
    Tables { next: collecting.0, ends: collecting.2, fast: indexing.1 }
}

/// Whether the tables are large enough for a text of length `n`.
pub open spec fn tables_fit(n: int, p: Seq<u32>, len: nat, f: Seq<u16>) -> bool {
    &&& 0 < n <= i32::MAX
    &&& p.len() > n
    &&& len >= BIGRAMS
    &&& f.len() > high(n, fast_shift(n))
}

/// Whether the tables invert the transformed text `t`.
pub open spec fn inverts(t: Seq<u8>, index: int, b: Tables) -> bool {
    &&& leads_on(t, index, b.next, (t.len() + 1) as int)
    &&& b.ends.len() >= BIGRAMS
    &&& forall|w: int| 0 <= w < BIGRAMS ==> #[trigger] b.ends[w] == bigram_end(t, index, w)
    &&& leads_to_pairs(t, index, b.fast, fast_shift(t.len() as int), BIGRAMS as int)
}

/// The number of bits left out is not negative.
pub proof fn lemma_shift_bound(n: int, s: int)
    requires
        0 <= s <= 31,
    ensures
        s <= shift_from(n, s) <= 31,
    decreases 31 - s,
{
    if s < 31 {
        lemma_shift_bound(n, s + 1);
    }
}

/// Pairs are counted within their range.
pub proof fn lemma_pair_table(t: Seq<u8>, index: int, len: nat)
    requires
        valid_index(t, index),
        t.len() <= i32::MAX,
        len >= BIGRAMS,
    ensures
        forall|w: int| 0 <= w < BIGRAMS ==> #[trigger] pair_table(t, index, len)[w] == bigram_count(t, index, w),
{
    assert forall|w: int| 0 <= w < BIGRAMS implies #[trigger] pair_table(t, index, len)[w] == bigram_count(t, index, w) by {
        lemma_bigram_rows(t, index, w);
    }
}

/// The first rows are within their range.
pub proof fn lemma_byte_table(t: Seq<u8>, index: int)
    requires
        t.len() <= i32::MAX,
    ensures
        bytes_at(t, index, byte_table(t), 0),
{
    assert forall|c: int| 0 <= c < ALPHABET_SIZE implies #[trigger] byte_table(t)[c] == first_row(t, c) + row_count(t, index, c, 0, 0) by {
        lemma_first_row_monotone(t, 0, c);
        lemma_first_row_monotone(t, c, 256);
        lemma_first_row_end(t);
    }
}

/// The runs that make the tables are defined.
pub open spec fn tables_defined(t: Seq<u8>, index: int, p: Seq<u32>, len: nat, f: Seq<u16>) -> bool {
    let indexing = fastbits_run(t[0] as int, fast_shift(t.len() as int), pair_table(t, index, len), f, BIGRAMS as int);
    &&& indexing is Some
    &&& psi_run(t, index, (p, byte_table(t), indexing.unwrap().0), 0, t.len() as int) is Some
}

/// The tables invert the transformed text.
pub proof fn lemma_tables(t: Seq<u8>, index: int, p: Seq<u32>, len: nat, f: Seq<u16>)
    requires
        valid_index(t, index),
        tables_fit(t.len() as int, p, len, f),
    ensures
        tables_defined(t, index, p, len, f),
        inverts(t, index, tables(t, index, p, len, f)),
        tables(t, index, p, len, f).next.len() == p.len(),
        tables(t, index, p, len, f).ends.len() == len,
        tables(t, index, p, len, f).fast.len() == f.len(),
        bounded(p, t.len() as int) ==> bounded(tables(t, index, p, len, f).next, t.len() as int),
{
    let n = t.len() as int;
    let shift = fast_shift(n);
    lemma_shift_bound(n, 0);
    lemma_pair_table(t, index, len);
    lemma_fastbits(t, index, shift, pair_table(t, index, len), f, BIGRAMS as int);
    let s = fastbits_run(t[0] as int, shift, pair_table(t, index, len), f, BIGRAMS as int)->0;
    lemma_byte_table(t, index);
    let start = (p, byte_table(t), s.0);
    assert(pairs_at(t, index, byte_table(t), s.0)) by {
        assert forall|w: int| 0 <= w < BIGRAMS implies #[trigger] s.0[w]
            == first_row(t, w / 256) + row_count(t, index, w / 256, 0, byte_table(t)[w % 256] as int) by {
            assert(s.0[w] == bigram_start(t, index, w));
            assert(byte_table(t)[w % 256] == first_row(t, w % 256) + row_count(t, index, w % 256, 0, 0));
        }
    }
    assert(collected(t, index, p, start, 0));
    lemma_psi(t, index, p, start, 0, n);
    let z = psi_run(t, index, start, 0, n)->0;
    assert forall|w: int| 0 <= w < BIGRAMS implies #[trigger] z.2[w] == bigram_end(t, index, w) by {
        let c = w % 256;
        assert(z.1[c] == first_row(t, c) + row_count(t, index, c, 0, n + 1));
        crate::rows::lemma_row_count_is_occurrences(t, index, c, n + 1);
    }
}

/// Whether `freq`, where it is given, holds the frequencies of `t`.
pub open spec fn frequencies_given(t: Seq<u8>, freq: Option<&[i32]>) -> bool {
    freq matches Some(f) ==> f.len() >= ALPHABET_SIZE && forall|c: int|
        0 <= c < ALPHABET_SIZE ==> #[trigger] f@[c] == occurrences(t, c, t.len() as int)
}

/// The first `n` bytes.
pub open spec fn prefix(t: Seq<u8>, n: int) -> Seq<u8> {
    t.subrange(0, n)
}

/// The starts of the bytes by their frequencies are their first rows.
pub proof fn lemma_starts(t: Seq<u8>, b1: Seq<u32>, c: int)
    requires
        0 <= c <= ALPHABET_SIZE <= b1.len(),
        forall|x: int| 0 <= x < ALPHABET_SIZE ==> #[trigger] b1[x] == occurrences(t, x, t.len() as int),
    ensures
        starts(b1, c) == first_row(t, c),
    decreases c,
{
    if c > 0 {
        lemma_starts(t, b1, c - 1);
        assert(b1[c - 1] == occurrences(t, c - 1, t.len() as int));
    }
}

/// Sets every slot to zero.
pub(crate) fn clear_words(b: &mut [SaUint])
    ensures
        final(b).len() == old(b).len(),
        forall|i: int| 0 <= i < old(b).len() ==> #[trigger] final(b)@[i] == 0,
{
    let len: usize = b.len();
    let mut i: usize = 0;
    while i < len
        invariant
            i <= len == b.len(),
            len == old(b).len(),
            forall|x: int| 0 <= x < i ==> #[trigger] b@[x] == 0,
        decreases len - i,
    {
        b[i] = 0;
        i += 1;
    }
}

/// The frequencies of the bytes of `t`, counted or given.
fn byte_counts(t: &[u8], freq: Option<&[SaSint]>) -> (b1: Vec<SaUint>)
    requires
        t.len() <= i32::MAX,
        frequencies_given(t@, freq),
    ensures
        b1.len() == ALPHABET_SIZE,
        forall|c: int| 0 <= c < ALPHABET_SIZE ==> #[trigger] b1@[c] == occurrences(t@, c, t.len() as int),
{
    let mut b1: Vec<SaUint> = vec![0; ALPHABET_SIZE];
    match freq {
        Some(f) => {
            let mut c: usize = 0;
            while c < ALPHABET_SIZE
                invariant
                    c <= ALPHABET_SIZE,
                    b1.len() == ALPHABET_SIZE,
                    f.len() >= ALPHABET_SIZE,
                    forall|x: int| 0 <= x < ALPHABET_SIZE ==> #[trigger] f@[x] == occurrences(t@, x, t.len() as int),
                    forall|x: int| 0 <= x < c ==> #[trigger] b1@[x] == occurrences(t@, x, t.len() as int),
                decreases ALPHABET_SIZE - c,
            {
                proof {
                    lemma_occurrences_bound(t@, c as int, t.len() as int);
                    assert(f@[c as int] == occurrences(t@, c as int, t.len() as int));
                }
                b1[c] = f[c] as SaUint;
                c += 1;
            }
        },
        None => {
            proof {
                assert forall|c: int| 0 <= c < ALPHABET_SIZE implies #[trigger] b1@[c] + occurrences(t@, c, t.len() as int) <= u32::MAX by {
                    lemma_occurrences_bound(t@, c, t.len() as int);
                }
            }
            unbwt_compute_histogram(t, t.len() as FastSint, b1.as_mut_slice());
            proof {
                assert forall|c: int| 0 <= c < ALPHABET_SIZE implies #[trigger] b1@[c] == occurrences(t@, c, t.len() as int) by {
                    lemma_occurrences_bound(t@, c, t.len() as int);
                }
            }
        },
    }
    b1
}

/// Makes the tables for the first `n` bytes of `t`. The row of the whole text is `i[0]`.
pub fn unbwt_init_single(
    t: &[u8],
    p: &mut [SaUint],
    n: SaSint,
    freq: Option<&[SaSint]>,
    i: &[SaUint],
    bucket2: &mut [SaUint],
    fastbits: &mut [u16],
)
    requires
        0 < n <= t.len(),
        i.len() > 0,
        1 <= i@[0] <= n,
        frequencies_given(prefix(t@, n as int), freq),
        tables_fit(n as int, old(p)@, old(bucket2)@.len(), old(fastbits)@),
    ensures
        (Tables { next: final(p)@, ends: final(bucket2)@, fast: final(fastbits)@ })
            == tables(prefix(t@, n as int), i@[0] as int, old(p)@, old(bucket2)@.len(), old(fastbits)@),
        final(p).len() == old(p).len(),
        final(bucket2).len() == old(bucket2).len(),
        final(fastbits).len() == old(fastbits).len(),
{
    let text: &[u8] = vstd::slice::slice_subrange(t, 0, n as usize);
    let index: usize = i[0] as usize;
    let mut bucket1: Vec<SaUint> = byte_counts(text, freq);
    let shift: usize = find_shift(n as usize);
    clear_words(bucket2);
    let ghost b1 = bucket1@;
    let ghost b2 = bucket2@;
    proof {
        lemma_tables(text@, index as int, p@, bucket2@.len(), fastbits@);
        lemma_pair_table(text@, index as int, bucket2@.len());
        assert forall|c: int| 0 <= c <= ALPHABET_SIZE implies starts(b1, c) == #[trigger] first_row(text@, c) by {
            lemma_starts(text@, b1, c);
        }
        lemma_first_row_end(text@);
        assert forall|r: int| 1 <= r < starts(b1, 256) && r != index implies 0 <= #[trigger] row_position(index as int, r) < text.len() by {
            assert(starts(b1, 256) == first_row(text@, 256));
        }
        assert(starts(b1, 256) == first_row(text@, 256));
        assert forall|w: int| 0 <= w < BIGRAMS implies pair_count(text@, b1, index as int, w)
            == bigram_count(text@, index as int, 256 * (w % 256) + w / 256) && #[trigger] b2[w] + pair_count(text@, b1, index as int, w) <= u32::MAX by {
            let v = 256 * (w % 256) + w / 256;
            assert(v / 256 == w % 256 && v % 256 == w / 256);
            assert(starts(b1, w / 256) == first_row(text@, w / 256));
            assert(starts(b1, w / 256 + 1) == first_row(text@, w / 256 + 1));
            lemma_bigram_rows(text@, index as int, v);
        }
    }
    unbwt_compute_bigram_histogram_single(text, bucket1.as_mut_slice(), bucket2, index);
    proof {
        assert(bucket1@ =~= byte_table(text@)) by {
            assert forall|c: int| 0 <= c < ALPHABET_SIZE implies bucket1@[c] == byte_table(text@)[c] by {
                assert(starts(b1, c) == first_row(text@, c));
            }
        }
        assert(bucket2@ =~= pair_table(text@, index as int, b2.len())) by {
            assert forall|w: int| 0 <= w < BIGRAMS implies bucket2@[w] == pair_table(text@, index as int, b2.len())[w] by {
                let v = 256 * (w % 256) + w / 256;
                assert(v / 256 == w % 256 && v % 256 == w / 256 && 256 * (v % 256) + v / 256 == w);
                assert(b2[v] == 0);
            }
        }
    }
    unbwt_calculate_fastbits(bucket2, fastbits, text[0] as usize, shift);
    unbwt_calculate_bi_psi(text, p, bucket1.as_mut_slice(), bucket2, index, 0, n as FastSint);
}

} // verus!
