//! What the suffix array functions say of byte texts: frequencies, separated texts and
//! the transformed text.

use vstd::prelude::*;
use crate::gather::text8;
use crate::marks::bit;
use crate::order::is_suffix_array;
use crate::types::{SaSint, ALPHABET_SIZE};

verus! {

/// How often byte `c` occurs among the first `n` bytes of `t`.
pub open spec fn occurrences(t: Seq<u8>, c: int, n: int) -> int
    decreases n,
{
    if n <= 0 {
        0
    } else {
        occurrences(t, c, n - 1) + bit(t[n - 1] == c)
    }
}

/// Whether `f` holds the frequencies of `t` in its first 256 slots and is otherwise `old_f`.
pub open spec fn frequencies(t: Seq<u8>, old_f: Seq<i32>, f: Seq<i32>) -> bool {
    &&& f.len() == old_f.len()
    &&& forall|c: int| 0 <= c < ALPHABET_SIZE ==> #[trigger] f[c] == occurrences(t, c, t.len() as int)
    &&& forall|c: int| ALPHABET_SIZE <= c < f.len() ==> #[trigger] f[c] == old_f[c]
}

/// A byte occurs no more often than there are bytes.
pub proof fn lemma_occurrences_bound(t: Seq<u8>, c: int, n: int)
    requires
        0 <= n,
    ensures
        0 <= occurrences(t, c, n) <= n,
    decreases n,
{
    if n > 0 {
        lemma_occurrences_bound(t, c, n - 1);
    }
}

/// The sum of the frequencies of the bytes below `k` among the first `n` bytes.
pub open spec fn frequency_sum(t: Seq<u8>, k: int, n: int) -> int
    decreases k,
{
    if k <= 0 {
        0
    } else {
        frequency_sum(t, k - 1, n) + occurrences(t, k - 1, n)
    }
}

/// One more byte adds one to the sum where the sum covers it.
proof fn lemma_frequency_sum_step(t: Seq<u8>, k: int, n: int)
    requires
        0 <= k,
        0 < n <= t.len(),
    ensures
        frequency_sum(t, k, n) == frequency_sum(t, k, n - 1) + bit(t[n - 1] < k),
    decreases k,
{
    if k > 0 {
        lemma_frequency_sum_step(t, k - 1, n);
    }
}

/// The frequencies of all bytes add up to the length of the text.
pub proof fn law_frequencies_add_up(t: Seq<u8>, n: int)
    requires
        0 <= n <= t.len(),
    ensures
        frequency_sum(t, ALPHABET_SIZE as int, n) == n,
    decreases n,
{
    if n > 0 {
        law_frequencies_add_up(t, n - 1);
        lemma_frequency_sum_step(t, ALPHABET_SIZE as int, n);
    } else {
        lemma_frequency_sum_empty(t, ALPHABET_SIZE as int);
    }
}

/// No byte occurs in an empty text.
proof fn lemma_frequency_sum_empty(t: Seq<u8>, k: int)
    ensures
        frequency_sum(t, k, 0) == 0,
    decreases k,
{
    if k > 0 {
        lemma_frequency_sum_empty(t, k - 1);
    }
}

/// Counts how often each byte occurs.
pub(crate) fn count_bytes(t: &[u8], f: &mut [SaSint])
    requires
        t.len() <= i32::MAX,
        old(f).len() >= ALPHABET_SIZE,
    ensures
        frequencies(t@, old(f)@, final(f)@),
{
    crate::gather::clear_range(f, 0, ALPHABET_SIZE);
    let n: usize = t.len();
    let mut i: usize = 0;
    while i < n
        invariant
            i <= n == t.len(),
            n <= i32::MAX,
            f.len() == old(f).len(),
            f.len() >= ALPHABET_SIZE,
            forall|c: int| 0 <= c < ALPHABET_SIZE ==> #[trigger] f@[c] == occurrences(t@, c, i as int),
            forall|c: int| ALPHABET_SIZE <= c < f.len() ==> #[trigger] f@[c] == old(f)@[c],
        decreases n - i,
    {
        let c: usize = t[i] as usize;
        proof {
            lemma_occurrences_bound(t@, c as int, i as int);
        }
        f[c] = f[c] + 1;
        i += 1;
    }
}

/// Whether `t` is made of texts that are not empty, each closed by a zero byte.
pub open spec fn well_separated(t: Seq<u8>) -> bool {
    &&& t.len() > 0 ==> t[t.len() - 1] == 0
    &&& forall|i: int| 0 <= i < t.len() && #[trigger] t[i] == 0 ==> i > 0 && t[i - 1] != 0
}

/// Separated texts as one text in which every separator is a symbol of its own: it comes
/// before all bytes and before the separators after it.
pub open spec fn separated_text(t: Seq<u8>) -> Seq<int> {
    Seq::new(t.len(), |i: int| if t[i] == 0 { i - t.len() } else { t[i] as int })
}

/// The text whose suffixes are sorted.
pub open spec fn sorted_text(t: Seq<u8>, gsa: bool) -> Seq<int> {
    if gsa {
        separated_text(t)
    } else {
        text8(t)
    }
}

/// Determines whether `t` is well separated.
pub(crate) fn is_well_separated(t: &[u8]) -> (r: bool)
    ensures
        r == well_separated(t@),
{
    let n: usize = t.len();
    if n > 0 && t[n - 1] != 0 {
        return false;
    }
    let mut i: usize = 0;
    while i < n
        invariant
            i <= n == t.len(),
            forall|x: int| 0 <= x < i && #[trigger] t@[x] == 0 ==> x > 0 && t@[x - 1] != 0,
        decreases n - i,
    {
        if t[i] == 0 && (i == 0 || t[i - 1] == 0) {
            assert(t@[i as int] == 0);
            return false;
        }
        i += 1;
    }
    true
}

/// The byte in row `j` of the transformed text, where `sa` is the suffix array and the whole
/// text stands at rank `zero`.
pub open spec fn bwt_byte(t: Seq<u8>, sa: Seq<i32>, zero: int, j: int) -> u8 {
    if j == 0 {
        t[t.len() - 1]
    } else if j <= zero {
        t[sa[j - 1] - 1]
    } else {
        t[sa[j] - 1]
    }
}

/// Whether `u` starts with the transformed text that belongs to the suffix array `sa`, with
/// primary index `index`.
pub open spec fn bwt_from(t: Seq<u8>, sa: Seq<i32>, u: Seq<u8>, index: int) -> bool {
    &&& is_suffix_array(text8(t), sa)
    &&& 1 <= index <= t.len()
    &&& sa[index - 1] == 0
    &&& u.len() >= t.len()
    &&& forall|j: int| 0 <= j < t.len() ==> #[trigger] u[j] == bwt_byte(t, sa, index - 1, j)
}

/// Whether `u` starts with the Burrows-Wheeler transform of `t`, with primary index `index`.
pub open spec fn is_bwt(t: Seq<u8>, u: Seq<u8>, index: int) -> bool {
    if t.len() == 0 {
        index == 0
    } else {
        exists|sa: Seq<i32>| bwt_from(t, sa, u, index)
    }
}

/// How many samples the transform of a text of length `n` has at rate `r`.
pub open spec fn sample_count(n: int, r: int) -> int {
    if n <= 0 {
        1
    } else {
        (n - 1) / r + 1
    }
}

/// Whether `r` is a sampling rate: a power of two, and at least two.
pub open spec fn valid_rate(r: i32) -> bool {
    r >= 2 && r & ((r - 1) as i32) == 0
}

/// Whether `samples` holds one more than the rank of every `r`-th suffix of `t`.
pub open spec fn samples_from(sa: Seq<i32>, n: int, r: int, samples: Seq<i32>) -> bool {
    forall|k: int| 0 <= k && #[trigger] (k * r) < n ==> 0 <= k < samples.len() && 1 <= samples[k] <= n
        && sa[samples[k] - 1] == k * r
}

/// Whether `u` starts with the transform of `t` and `samples` with its samples at rate `r`.
pub open spec fn is_bwt_aux(t: Seq<u8>, u: Seq<u8>, r: int, samples: Seq<i32>) -> bool {
    &&& samples.len() >= sample_count(t.len() as int, r)
    &&& if t.len() == 0 {
        samples[0] == 0
    } else {
        exists|sa: Seq<i32>| bwt_from(t, sa, u, samples[0] as int) && samples_from(sa, t.len() as int, r, samples)
    }
}

} // verus!
