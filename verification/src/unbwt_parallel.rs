//! Making the tables for the inverse transform block by block: every worker counts and
//! collects the rows of one block of the transformed text.

use vstd::prelude::*;
use crate::blocks::{block_lo, block_range};
use crate::bytes::{lemma_occurrences_bound, occurrences};
use crate::fold::{fold_up, lemma_fold_up_prefix, lemma_fold_up_split};
use crate::marks::bit;
use crate::rows::{
    bigram_count, bigram_start, first_row, lemma_bigram_rows, lemma_first_row_end,
    lemma_first_row_monotone, lemma_row_count_is_occurrences, lemma_row_count_monotone,
    lemma_row_count_split, row_byte, row_count, row_position, valid_index,
};
use crate::types::{FastSint, FastUint, SaSint, SaUint, ALPHABET_SIZE};
use crate::unbwt_tables::{
    byte_table, clear_words, collected, find_shift, inverts, lemma_byte_table, lemma_fastbits, lemma_pair_table,
    lemma_psi, lemma_shift_bound, lemma_starts, lemma_tables, pair_table, pairs_at, prefix, psi_run,
    psi_step, row_at, starts, tables, tables_fit, unbwt_calculate_bi_psi, unbwt_calculate_fastbits,
    unbwt_compute_histogram, unbwt_init_single, PsiState, Tables, BIGRAMS,
};

verus! {

/// What counting the pairs of a block works on: the next rows of the bytes and the counts.
pub type PairState = (Seq<u32>, Seq<u32>);

/// Counts the pair at the start of the suffix two bytes longer than that of the row whose
/// byte stands at `k`.
pub open spec fn pair_step(t: Seq<u8>, index: int) -> spec_fn(PairState, int) -> Option<PairState> {
    |s: PairState, k: int|
        {
            let (b1, b2) = s;
            let c = t[k] as int;
            let q = b1[c] as int;
            let w = 256 * row_byte(t, index, q) + c;
            if !(0 <= k < t.len() && c < b1.len() && q < u32::MAX) {
                None
            } else if q == index {
                Some((b1.update(c, (q + 1) as u32), b2))
            } else if 0 <= row_position(index, q) < t.len() && w < b2.len() && b2[w] < u32::MAX {
                Some((b1.update(c, (q + 1) as u32), b2.update(w, (b2[w] + 1) as u32)))
            } else {
                None
            }
        }
}

/// [`pair_step`] over the bytes from `lo` up to `hi`.
pub open spec fn pair_run(t: Seq<u8>, index: int, s: PairState, lo: int, hi: int) -> Option<PairState> {
    fold_up(pair_step(t, index), s, lo, hi)
}

/// Counts the pairs for the rows of a block of the transformed text.
pub fn unbwt_compute_bigram_histogram_parallel(
    t: &[u8],
    index: FastUint,
    bucket1: &mut [SaUint],
    bucket2: &mut [SaUint],
    omp_block_start: FastSint,
    omp_block_size: FastSint,
)
    requires
        0 <= omp_block_start,
        0 <= omp_block_size,
        omp_block_start + omp_block_size <= t.len(),
        pair_run(t@, index as int, (old(bucket1)@, old(bucket2)@), omp_block_start as int, omp_block_start + omp_block_size) is Some,
    ensures
        pair_run(t@, index as int, (old(bucket1)@, old(bucket2)@), omp_block_start as int, omp_block_start + omp_block_size)
            == Some((final(bucket1)@, final(bucket2)@)),
        final(bucket1).len() == old(bucket1).len(),
        final(bucket2).len() == old(bucket2).len(),
{
    let ghost step = pair_step(t@, index as int);
    let ghost s0 = (bucket1@, bucket2@);
    let start: usize = omp_block_start as usize;
    let end: usize = start + omp_block_size as usize;
    let mut k: usize = start;
    while k < end
        invariant
            start <= k <= end <= t.len(),
            step == pair_step(t@, index as int),
            s0 == (old(bucket1)@, old(bucket2)@),
            fold_up(step, s0, start as int, end as int) is Some,
            fold_up(step, s0, start as int, k as int) == Some((bucket1@, bucket2@)),
            bucket1.len() == old(bucket1).len(),
            bucket2.len() == old(bucket2).len(),
        decreases end - k,
    {
        proof {
            lemma_fold_up_prefix(step, s0, start as int, k + 1, end as int);
            assert(step((bucket1@, bucket2@), k as int) is Some);
        }
        let c: usize = t[k] as usize;
        let q: usize = bucket1[c] as usize;
        bucket1[c] = bucket1[c] + 1;
        if q != index {
            let w: usize = 256 * t[if q < index { q } else { q - 1 }] as usize + c;
            bucket2[w] = bucket2[w] + 1;
        }
        k += 1;
    }
}

/// The next row of byte `c` when the first `k` bytes of `t` are done.
pub open spec fn byte_row(t: Seq<u8>, c: int, k: int) -> int {
    first_row(t, c) + occurrences(t, c, k)
}

/// How many rows of the pair `w` are done when the first `k` bytes of `t` are.
pub open spec fn pairs_done(t: Seq<u8>, index: int, w: int, k: int) -> int {
    row_count(t, index, w / 256, 0, byte_row(t, w % 256, k)) - row_count(t, index, w / 256, 0, first_row(t, w % 256))
}

/// Whether `b` holds the next rows of the bytes when the first `k` bytes are done.
pub open spec fn rows_of_bytes(t: Seq<u8>, b: Seq<u32>, k: int) -> bool {
    b.len() == ALPHABET_SIZE && forall|c: int| 0 <= c < ALPHABET_SIZE ==> #[trigger] b[c] == byte_row(t, c, k)
}

/// Whether `b` holds the frequencies of the bytes from `lo` up to `hi`.
pub open spec fn counts_between(t: Seq<u8>, b: Seq<u32>, lo: int, hi: int) -> bool {
    b.len() == ALPHABET_SIZE && forall|c: int|
        0 <= c < ALPHABET_SIZE ==> #[trigger] b[c] == occurrences(t, c, hi) - occurrences(t, c, lo)
}

/// Whether `b` holds how many rows of each pair the bytes from `lo` up to `hi` add.
pub open spec fn pairs_between(t: Seq<u8>, index: int, b: Seq<u32>, lo: int, hi: int) -> bool {
    b.len() == BIGRAMS && forall|w: int|
        0 <= w < BIGRAMS ==> #[trigger] b[w] == pairs_done(t, index, w, hi) - pairs_done(t, index, w, lo)
}

/// Rows of bytes are rows, and pairs done are no more than the pairs.
proof fn lemma_byte_row(t: Seq<u8>, c: int, j: int, k: int)
    requires
        0 <= c < ALPHABET_SIZE,
        0 <= j <= k <= t.len(),
    ensures
        1 <= first_row(t, c) <= byte_row(t, c, j) <= byte_row(t, c, k) <= first_row(t, c + 1) <= t.len() + 1,
        byte_row(t, c, t.len() as int) == first_row(t, c + 1),
        byte_row(t, c, 0) == first_row(t, c),
{
    lemma_first_row_monotone(t, 0, c);
    lemma_first_row_monotone(t, c + 1, 256);
    lemma_first_row_end(t);
    lemma_occurrences_bound(t, c, j);
    crate::unbwt_tables::lemma_occurrences_monotone(t, c, j, k);
    crate::unbwt_tables::lemma_occurrences_monotone(t, c, k, t.len() as int);
}

/// Pairs done grow up to the counts of the pairs.
proof fn lemma_pairs_done(t: Seq<u8>, index: int, w: int, j: int, k: int)
    requires
        valid_index(t, index),
        0 <= w < BIGRAMS,
        0 <= j <= k <= t.len(),
    ensures
        0 <= pairs_done(t, index, w, j) <= pairs_done(t, index, w, k) <= bigram_count(t, index, w),
        pairs_done(t, index, w, 0) == 0,
        pairs_done(t, index, w, t.len() as int) == bigram_count(t, index, w),
{
    let c = w % 256;
    let d = w / 256;
    lemma_byte_row(t, c, j, k);
    lemma_row_count_monotone(t, index, d, first_row(t, c), byte_row(t, c, j));
    lemma_row_count_monotone(t, index, d, byte_row(t, c, j), byte_row(t, c, k));
    lemma_row_count_monotone(t, index, d, byte_row(t, c, k), first_row(t, c + 1));
    lemma_row_count_split(t, index, d, 0, first_row(t, c), first_row(t, c + 1));
}

/// Counting the pairs of a block.
proof fn lemma_pair_run(t: Seq<u8>, index: int, b1: Seq<u32>, b2: Seq<u32>, lo: int, hi: int)
    requires
        valid_index(t, index),
        t.len() <= i32::MAX,
        0 <= lo <= hi <= t.len(),
        rows_of_bytes(t, b1, lo),
        pairs_between(t, index, b2, lo, lo),
    ensures
        pair_run(t, index, (b1, b2), lo, hi) is Some,
        ({
            let z = pair_run(t, index, (b1, b2), lo, hi)->0;
            rows_of_bytes(t, z.0, hi) && pairs_between(t, index, z.1, lo, hi)
        }),
    decreases hi - lo,
{
    if lo < hi {
        let k = hi - 1;
        lemma_pair_run(t, index, b1, b2, lo, k);
        let s = pair_run(t, index, (b1, b2), lo, k)->0;
        let c = t[k] as int;
        let q = s.0[c] as int;
        assert(q == byte_row(t, c, k));
        lemma_byte_row(t, c, k, hi);
        assert(byte_row(t, c, hi) == q + 1);
        if q != index {
            let w = 256 * row_byte(t, index, q) + c;
            assert(w / 256 == row_byte(t, index, q) && w % 256 == c);
            assert(s.1[w] == pairs_done(t, index, w, k) - pairs_done(t, index, w, lo));
            lemma_pairs_done(t, index, w, lo, k);
            lemma_pairs_done(t, index, w, 0, lo);
            lemma_bigram_rows(t, index, w);
        }
        let z = pair_run(t, index, (b1, b2), lo, hi)->0;
        assert(Some(z) == pair_step(t, index)(s, k));
        assert forall|x: int| 0 <= x < ALPHABET_SIZE implies #[trigger] z.0[x] == byte_row(t, x, hi) by {
            assert(s.0[x] == byte_row(t, x, k));
        }
        assert forall|w: int| 0 <= w < BIGRAMS implies #[trigger] z.1[w] == pairs_done(t, index, w, hi) - pairs_done(t, index, w, lo) by {
            assert(s.1[w] == pairs_done(t, index, w, k) - pairs_done(t, index, w, lo));
            if w % 256 == c {
                assert(row_count(t, index, w / 256, 0, q + 1) == row_count(t, index, w / 256, 0, q)
                    + bit(q != index && row_byte(t, index, q) == w / 256));
            } else {
                assert(byte_row(t, w % 256, hi) == byte_row(t, w % 256, k));
            }
        }
    }
}

/// The length of the storage of one worker.
pub const SEGMENT: usize = 65792;

/// What worker `k` keeps for the bytes.
spec fn bytes_of(b: Seq<u32>, k: int) -> Seq<u32> {
    b.subrange(k * SEGMENT, k * SEGMENT + ALPHABET_SIZE)
}

/// What worker `k` keeps for the pairs.
spec fn pairs_of(b: Seq<u32>, k: int) -> Seq<u32> {
    b.subrange(k * SEGMENT + ALPHABET_SIZE, k * SEGMENT + SEGMENT)
}

/// Hands out the storage of worker `k`.
fn segment(b: &mut [SaUint], k: usize) -> (r: (&mut [SaUint], &mut [SaUint]))
    requires
        k * SEGMENT + SEGMENT <= old(b).len(),
    ensures
        r.0@ == bytes_of(old(b)@, k as int),
        r.1@ == pairs_of(old(b)@, k as int),
        final(b)@ == old(b)@.subrange(0, k * SEGMENT) + ((final(r.0)@ + final(r.1)@) + old(b)@.subrange(k * SEGMENT + SEGMENT, old(b).len() as int)),
{
    let ghost b0 = b@;
    let (_head, tail) = b.split_at_mut(k * SEGMENT);
    let (own, _rest) = tail.split_at_mut(SEGMENT);
    let (bytes, pairs) = own.split_at_mut(ALPHABET_SIZE);
    proof {
        assert(bytes@ =~= bytes_of(b0, k as int));
        assert(pairs@ =~= pairs_of(b0, k as int));
        assert(b0.subrange(k * SEGMENT, b0.len() as int).subrange(SEGMENT as int, b0.len() - k * SEGMENT)
            =~= b0.subrange(k * SEGMENT + SEGMENT, b0.len() as int));
    }
    (bytes, pairs)
}

/// Writing the storage of one worker leaves that of the others.
proof fn lemma_segment(b0: Seq<u32>, b: Seq<u32>, k: int, bytes: Seq<u32>, pairs: Seq<u32>)
    requires
        0 <= k,
        k * SEGMENT + SEGMENT <= b0.len(),
        bytes.len() == ALPHABET_SIZE,
        pairs.len() == BIGRAMS,
        b == b0.subrange(0, k * SEGMENT) + ((bytes + pairs) + b0.subrange(k * SEGMENT + SEGMENT, b0.len() as int)),
    ensures
        b.len() == b0.len(),
        bytes_of(b, k) == bytes,
        pairs_of(b, k) == pairs,
        forall|j: int| 0 <= j && j != k && j * SEGMENT + SEGMENT <= b0.len() ==> #[trigger] bytes_of(b, j) == bytes_of(b0, j),
        forall|j: int| 0 <= j && j != k && j * SEGMENT + SEGMENT <= b0.len() ==> #[trigger] pairs_of(b, j) == pairs_of(b0, j),
{
    assert(bytes_of(b, k) =~= bytes);
    assert(pairs_of(b, k) =~= pairs);
    assert forall|j: int| 0 <= j && j != k && j * SEGMENT + SEGMENT <= b0.len() implies #[trigger] bytes_of(b, j) == bytes_of(b0, j) by {
        assert(bytes_of(b, j) =~= bytes_of(b0, j));
    }
    assert forall|j: int| 0 <= j && j != k && j * SEGMENT + SEGMENT <= b0.len() implies #[trigger] pairs_of(b, j) == pairs_of(b0, j) by {
        assert(pairs_of(b, j) =~= pairs_of(b0, j));
    }
}

/// Where block `k` starts, and the one before it ends.
spec fn bound(n: int, workers: int, k: int) -> int {
    if k < workers {
        block_lo(n, workers, k)
    } else {
        n
    }
}

/// Adds `part` to `total`, and leaves in `part` what `total` was.
fn carry(total: &mut [SaUint], part: &mut [SaUint])
    requires
        old(total).len() == old(part).len(),
        forall|x: int| 0 <= x < old(total).len() ==> #[trigger] old(total)@[x] + old(part)@[x] <= u32::MAX,
    ensures
        final(total).len() == old(total).len(),
        final(part)@ == old(total)@,
        forall|x: int| 0 <= x < old(total).len() ==> #[trigger] final(total)@[x] == old(total)@[x] + old(part)@[x],
{
    let len: usize = total.len();
    let mut x: usize = 0;
    while x < len
        invariant
            x <= len == total.len(),
            len == part.len(),
            len == old(total).len(),
            len == old(part).len(),
            forall|y: int| 0 <= y < len ==> #[trigger] old(total)@[y] + old(part)@[y] <= u32::MAX,
            forall|y: int| 0 <= y < len ==> #[trigger] total@[y] == (if y < x { old(total)@[y] + old(part)@[y] } else { old(total)@[y] as int }),
            forall|y: int| 0 <= y < len ==> #[trigger] part@[y] == (if y < x { old(total)@[y] } else { old(part)@[y] }),
        decreases len - x,
    {
        assert(old(total)@[x as int] + old(part)@[x as int] <= u32::MAX);
        let a: SaUint = total[x];
        total[x] = a + part[x];
        part[x] = a;
        x += 1;
    }
    assert(part@ =~= old(total)@);
}

/// Adds `base` to `part`.
fn add_words(part: &mut [SaUint], base: &[SaUint])
    requires
        old(part).len() == base.len(),
        forall|x: int| 0 <= x < base.len() ==> #[trigger] old(part)@[x] + base@[x] <= u32::MAX,
    ensures
        final(part).len() == old(part).len(),
        forall|x: int| 0 <= x < base.len() ==> #[trigger] final(part)@[x] == old(part)@[x] + base@[x],
{
    let len: usize = base.len();
    let mut x: usize = 0;
    while x < len
        invariant
            x <= len == base.len(),
            len == part.len(),
            len == old(part).len(),
            forall|y: int| 0 <= y < len ==> #[trigger] old(part)@[y] + base@[y] <= u32::MAX,
            forall|y: int| 0 <= y < len ==> #[trigger] part@[y] == (if y < x { old(part)@[y] + base@[y] } else { old(part)@[y] as int }),
        decreases len - x,
    {
        assert(old(part)@[x as int] + base@[x as int] <= u32::MAX);
        part[x] = part[x] + base[x];
        x += 1;
    }
}

/// Copies `from` to `to`.
fn copy_words(to: &mut [SaUint], from: &[SaUint])
    requires
        old(to).len() == from.len(),
    ensures
        final(to)@ == from@,
{
    let len: usize = from.len();
    let mut x: usize = 0;
    while x < len
        invariant
            x <= len == from.len(),
            len == to.len(),
            forall|y: int| 0 <= y < x ==> #[trigger] to@[y] == from@[y],
        decreases len - x,
    {
        to[x] = from[x];
        x += 1;
    }
    assert(to@ =~= from@);
}

/// The bytes of a block are those of the text.
proof fn lemma_occurrences_between(t: Seq<u8>, c: int, lo: int, hi: int, k: int)
    requires
        0 <= lo <= k <= hi <= t.len(),
    ensures
        occurrences(t.subrange(lo, hi), c, k - lo) == occurrences(t, c, k) - occurrences(t, c, lo),
    decreases k - lo,
{
    if lo < k {
        lemma_occurrences_between(t, c, lo, hi, k - 1);
    }
}

/// Counts the bytes of every block.
fn count_blocks(t: &[u8], workers: usize, buckets: &mut [SaUint])
    requires
        t.len() <= i32::MAX,
        workers > 0,
        workers * SEGMENT <= old(buckets).len(),
    ensures
        final(buckets).len() == old(buckets).len(),
        forall|j: int| 0 <= j < workers ==> counts_between(t@, #[trigger] bytes_of(final(buckets)@, j),
            bound(t.len() as int, workers as int, j), bound(t.len() as int, workers as int, j + 1)),
{
    let n: usize = t.len();
    let mut k: usize = 0;
    while k < workers
        invariant
            k <= workers,
            n == t.len(),
            n <= i32::MAX,
            workers * SEGMENT <= buckets.len(),
            buckets.len() == old(buckets).len(),
            forall|j: int| 0 <= j < k ==> counts_between(t@, #[trigger] bytes_of(buckets@, j),
                bound(n as int, workers as int, j), bound(n as int, workers as int, j + 1)),
        decreases workers - k,
    {
        let (lo, hi) = block_range(n, workers, k);
        let part: &[u8] = vstd::slice::slice_subrange(t, lo, hi);
        let ghost b0 = buckets@;
        let (bytes, _pairs) = segment(buckets, k);
        clear_words(bytes);
        proof {
            assert forall|c: int| 0 <= c < ALPHABET_SIZE implies #[trigger] bytes@[c] + occurrences(part@, c, part.len() as int) <= u32::MAX by {
                lemma_occurrences_bound(part@, c, part.len() as int);
            }
        }
        unbwt_compute_histogram(part, (hi - lo) as FastSint, bytes);
        proof {
            assert forall|c: int| 0 <= c < ALPHABET_SIZE implies #[trigger] bytes@[c] == occurrences(t@, c, hi as int) - occurrences(t@, c, lo as int) by {
                lemma_occurrences_bound(part@, c, part.len() as int);
                lemma_occurrences_between(t@, c, lo as int, hi as int, hi as int);
            }
            assert(counts_between(t@, bytes@, lo as int, hi as int));
        }
        let ghost own = bytes@;
        let ghost pairs = _pairs@;
        proof {
            lemma_segment(b0, buckets@, k as int, own, pairs);
        }
        k += 1;
    }
}

/// Turns the counts of every block into the sums of the blocks before, and returns the sums
/// of all.
fn sum_bytes(t: &[u8], workers: usize, buckets: &mut [SaUint]) -> (bucket1: Vec<SaUint>)
    requires
        t.len() <= i32::MAX,
        workers > 0,
        workers * SEGMENT <= old(buckets).len(),
        forall|j: int| 0 <= j < workers ==> counts_between(t@, #[trigger] bytes_of(old(buckets)@, j),
            bound(t.len() as int, workers as int, j), bound(t.len() as int, workers as int, j + 1)),
    ensures
        final(buckets).len() == old(buckets).len(),
        forall|j: int| 0 <= j < workers ==> counts_between(t@, #[trigger] bytes_of(final(buckets)@, j), 0,
            bound(t.len() as int, workers as int, j)),
        counts_between(t@, bucket1@, 0, t.len() as int),
{
    let n: usize = t.len();
    let mut bucket1: Vec<SaUint> = vec![0; ALPHABET_SIZE];
    let mut k: usize = 0;
    assert(bound(n as int, workers as int, 0) == 0);
    while k < workers
        invariant
            k <= workers,
            n == t.len(),
            n <= i32::MAX,
            workers * SEGMENT <= buckets.len(),
            buckets.len() == old(buckets).len(),
            counts_between(t@, bucket1@, 0, bound(n as int, workers as int, k as int)),
            forall|j: int| 0 <= j < k ==> counts_between(t@, #[trigger] bytes_of(buckets@, j), 0, bound(n as int, workers as int, j)),
            forall|j: int| k <= j < workers ==> counts_between(t@, #[trigger] bytes_of(buckets@, j),
                bound(n as int, workers as int, j), bound(n as int, workers as int, j + 1)),
        decreases workers - k,
    {
        let (lo, hi) = block_range(n, workers, k);
        let ghost b0 = buckets@;
        let ghost before = bucket1@;
        assert(counts_between(t@, bytes_of(b0, k as int), lo as int, hi as int));
        let (bytes, pairs) = segment(buckets, k);
        proof {
            assert forall|c: int| 0 <= c < ALPHABET_SIZE implies #[trigger] before[c] + bytes@[c] == occurrences(t@, c, hi as int) - occurrences(t@, c, 0)
                && before[c] + bytes@[c] <= u32::MAX by {
                assert(bytes@[c] == occurrences(t@, c, hi as int) - occurrences(t@, c, lo as int));
                lemma_occurrences_bound(t@, c, hi as int);
            }
        }
        carry(bucket1.as_mut_slice(), bytes);
        let ghost own = bytes@;
        let ghost kept = pairs@;
        proof {
            lemma_segment(b0, buckets@, k as int, own, kept);
            assert(counts_between(t@, bucket1@, 0, hi as int)) by {
                assert forall|c: int| 0 <= c < ALPHABET_SIZE implies #[trigger] bucket1@[c] == occurrences(t@, c, hi as int) - occurrences(t@, c, 0) by {
                    assert(bucket1@[c] == before[c] + bytes_of(b0, k as int)[c]);
                }
            }
        }
        k += 1;
    }
    bucket1
}

/// Turns the counts of the bytes into their first rows.
fn start_bytes(t: &[u8], bucket1: &mut Vec<SaUint>)
    requires
        t.len() <= i32::MAX,
        counts_between(t@, old(bucket1)@, 0, t.len() as int),
    ensures
        final(bucket1)@ == byte_table(t@),
        rows_of_bytes(t@, final(bucket1)@, 0),
{
    let ghost b = bucket1@;
    proof {
        assert forall|x: int| 0 <= x < ALPHABET_SIZE implies #[trigger] b[x] == occurrences(t@, x, t.len() as int) by {}
        assert forall|c: int| 0 <= c <= ALPHABET_SIZE implies starts(b, c) == #[trigger] first_row(t@, c) by {
            lemma_starts(t@, b, c);
        }
        lemma_first_row_end(t@);
    }
    let mut sum: usize = 1;
    let mut c: usize = 0;
    while c < ALPHABET_SIZE
        invariant
            c <= ALPHABET_SIZE,
            t.len() <= i32::MAX,
            bucket1.len() == ALPHABET_SIZE,
            b.len() == ALPHABET_SIZE,
            sum == first_row(t@, c as int),
            forall|x: int| 0 <= x <= ALPHABET_SIZE ==> starts(b, x) == #[trigger] first_row(t@, x),
            first_row(t@, 256) == t.len() + 1,
            forall|x: int| 0 <= x < c ==> #[trigger] bucket1@[x] == first_row(t@, x),
            forall|x: int| c <= x < ALPHABET_SIZE ==> #[trigger] bucket1@[x] == b[x],
        decreases ALPHABET_SIZE - c,
    {
        let prev: usize = sum;
        proof {
            lemma_first_row_monotone(t@, c as int, c + 1);
            lemma_first_row_monotone(t@, c + 1, 256);
            assert(starts(b, c + 1) == first_row(t@, c + 1));
            assert(bucket1@[c as int] == b[c as int]);
        }
        sum = sum + bucket1[c] as usize;
        bucket1[c] = prev as SaUint;
        c += 1;
    }
    proof {
        assert(bucket1@ =~= byte_table(t@));
        assert forall|x: int| 0 <= x < ALPHABET_SIZE implies #[trigger] bucket1@[x] == byte_row(t@, x, 0) by {}
    }
}

/// Counts the pairs of every block.
fn count_pairs(t: &[u8], index: usize, workers: usize, bucket1: &Vec<SaUint>, buckets: &mut [SaUint])
    requires
        t.len() <= i32::MAX,
        valid_index(t@, index as int),
        workers > 0,
        workers * SEGMENT <= old(buckets).len(),
        rows_of_bytes(t@, bucket1@, 0),
        forall|j: int| 0 <= j < workers ==> counts_between(t@, #[trigger] bytes_of(old(buckets)@, j), 0,
            bound(t.len() as int, workers as int, j)),
    ensures
        final(buckets).len() == old(buckets).len(),
        forall|j: int| 0 <= j < workers ==> rows_of_bytes(t@, #[trigger] bytes_of(final(buckets)@, j), bound(t.len() as int, workers as int, j + 1)),
        forall|j: int| 0 <= j < workers ==> pairs_between(t@, index as int, #[trigger] pairs_of(final(buckets)@, j),
            bound(t.len() as int, workers as int, j), bound(t.len() as int, workers as int, j + 1)),
{
    let n: usize = t.len();
    let mut k: usize = 0;
    while k < workers
        invariant
            k <= workers,
            n == t.len(),
            n <= i32::MAX,
            valid_index(t@, index as int),
            rows_of_bytes(t@, bucket1@, 0),
            workers * SEGMENT <= buckets.len(),
            buckets.len() == old(buckets).len(),
            forall|j: int| 0 <= j < k ==> rows_of_bytes(t@, #[trigger] bytes_of(buckets@, j), bound(n as int, workers as int, j + 1)),
            forall|j: int| 0 <= j < k ==> pairs_between(t@, index as int, #[trigger] pairs_of(buckets@, j),
                bound(n as int, workers as int, j), bound(n as int, workers as int, j + 1)),
            forall|j: int| k <= j < workers ==> counts_between(t@, #[trigger] bytes_of(buckets@, j), 0, bound(n as int, workers as int, j)),
        decreases workers - k,
    {
        let (lo, hi) = block_range(n, workers, k);
        let ghost b0 = buckets@;
        assert(counts_between(t@, bytes_of(b0, k as int), 0, lo as int));
        let (bytes, pairs) = segment(buckets, k);
        proof {
            assert forall|c: int| 0 <= c < ALPHABET_SIZE implies #[trigger] bytes@[c] + bucket1@[c] == byte_row(t@, c, lo as int)
                && bytes@[c] + bucket1@[c] <= u32::MAX by {
                lemma_byte_row(t@, c, 0, lo as int);
                assert(bucket1@[c] == byte_row(t@, c, 0));
            }
        }
        add_words(bytes, bucket1.as_slice());
        clear_words(pairs);
        proof {
            assert forall|c: int| 0 <= c < ALPHABET_SIZE implies #[trigger] bytes@[c] == byte_row(t@, c, lo as int) by {
                assert(bytes_of(b0, k as int)[c] + bucket1@[c] == byte_row(t@, c, lo as int));
            }
            lemma_pair_run(t@, index as int, bytes@, pairs@, lo as int, hi as int);
        }
        unbwt_compute_bigram_histogram_parallel(t, index, bytes, pairs, lo as FastSint, (hi - lo) as FastSint);
        let ghost own = bytes@;
        let ghost counted = pairs@;
        proof {
            lemma_segment(b0, buckets@, k as int, own, counted);
        }
        k += 1;
    }
}

/// Turns the pairs of every block into the sums of the blocks before, and leaves the sums of
/// all in `bucket2`.
fn sum_pairs(t: &[u8], index: usize, workers: usize, bucket2: &mut [SaUint], buckets: &mut [SaUint])
    requires
        t.len() <= i32::MAX,
        valid_index(t@, index as int),
        workers > 0,
        workers * SEGMENT <= old(buckets).len(),
        old(bucket2).len() == BIGRAMS,
        forall|j: int| 0 <= j < workers ==> pairs_between(t@, index as int, #[trigger] pairs_of(old(buckets)@, j),
            bound(t.len() as int, workers as int, j), bound(t.len() as int, workers as int, j + 1)),
    ensures
        final(buckets).len() == old(buckets).len(),
        forall|j: int| 0 <= j < workers ==> #[trigger] bytes_of(final(buckets)@, j) == bytes_of(old(buckets)@, j),
        forall|j: int| 0 <= j < workers ==> pairs_between(t@, index as int, #[trigger] pairs_of(final(buckets)@, j), 0,
            bound(t.len() as int, workers as int, j)),
        final(bucket2)@ == pair_table(t@, index as int, BIGRAMS as nat),
{
    let n: usize = t.len();
    clear_words(bucket2);
    let mut k: usize = 0;
    assert(bound(n as int, workers as int, 0) == 0);
    while k < workers
        invariant
            k <= workers,
            n == t.len(),
            n <= i32::MAX,
            valid_index(t@, index as int),
            workers * SEGMENT <= buckets.len(),
            buckets.len() == old(buckets).len(),
            pairs_between(t@, index as int, bucket2@, 0, bound(n as int, workers as int, k as int)),
            forall|j: int| 0 <= j < workers ==> #[trigger] bytes_of(buckets@, j) == bytes_of(old(buckets)@, j),
            forall|j: int| 0 <= j < k ==> pairs_between(t@, index as int, #[trigger] pairs_of(buckets@, j), 0, bound(n as int, workers as int, j)),
            forall|j: int| k <= j < workers ==> pairs_between(t@, index as int, #[trigger] pairs_of(buckets@, j),
                bound(n as int, workers as int, j), bound(n as int, workers as int, j + 1)),
        decreases workers - k,
    {
        let (lo, hi) = block_range(n, workers, k);
        let ghost b0 = buckets@;
        let ghost before = bucket2@;
        assert(pairs_between(t@, index as int, pairs_of(b0, k as int), lo as int, hi as int));
        let (bytes, pairs) = segment(buckets, k);
        proof {
            assert forall|w: int| 0 <= w < BIGRAMS implies #[trigger] before[w] + pairs@[w] == pairs_done(t@, index as int, w, hi as int)
                - pairs_done(t@, index as int, w, 0) && before[w] + pairs@[w] <= u32::MAX by {
                assert(pairs@[w] == pairs_done(t@, index as int, w, hi as int) - pairs_done(t@, index as int, w, lo as int));
                lemma_pairs_done(t@, index as int, w, 0, hi as int);
                lemma_bigram_rows(t@, index as int, w);
            }
        }
        carry(bucket2, pairs);
        let ghost kept = bytes@;
        let ghost own = pairs@;
        proof {
            lemma_segment(b0, buckets@, k as int, kept, own);
            assert(pairs_between(t@, index as int, bucket2@, 0, hi as int)) by {
                assert forall|w: int| 0 <= w < BIGRAMS implies #[trigger] bucket2@[w] == pairs_done(t@, index as int, w, hi as int)
                    - pairs_done(t@, index as int, w, 0) by {
                    assert(bucket2@[w] == before[w] + pairs_of(b0, k as int)[w]);
                }
            }
        }
        k += 1;
    }
    proof {
        lemma_pair_table(t@, index as int, BIGRAMS as nat);
        assert forall|w: int| 0 <= w < BIGRAMS implies bucket2@[w] == pair_table(t@, index as int, BIGRAMS as nat)[w] by {
            lemma_pairs_done(t@, index as int, w, 0, n as int);
        }
        assert(bucket2@ =~= pair_table(t@, index as int, BIGRAMS as nat));
    }
}

/// Hands each worker the next rows of the bytes at the start of its block.
fn shift_bytes(t: &[u8], workers: usize, bucket1: &Vec<SaUint>, buckets: &mut [SaUint])
    requires
        workers > 0,
        workers * SEGMENT <= old(buckets).len(),
        rows_of_bytes(t@, bucket1@, 0),
        forall|j: int| 0 <= j < workers ==> rows_of_bytes(t@, #[trigger] bytes_of(old(buckets)@, j), bound(t.len() as int, workers as int, j + 1)),
    ensures
        final(buckets).len() == old(buckets).len(),
        forall|j: int| 0 <= j < workers ==> rows_of_bytes(t@, #[trigger] bytes_of(final(buckets)@, j), bound(t.len() as int, workers as int, j)),
        forall|j: int| 0 <= j < workers ==> #[trigger] pairs_of(final(buckets)@, j) == pairs_of(old(buckets)@, j),
{
    let ghost n = t.len() as int;
    let mut k: usize = workers;
    assert(bound(n, workers as int, 0) == 0);
    while k > 0
        invariant
            k <= workers,
            n == t.len(),
            bound(n, workers as int, 0) == 0,
            rows_of_bytes(t@, bucket1@, 0),
            workers * SEGMENT <= buckets.len(),
            buckets.len() == old(buckets).len(),
            forall|j: int| 0 <= j < workers ==> #[trigger] pairs_of(buckets@, j) == pairs_of(old(buckets)@, j),
            forall|j: int| 0 <= j < k ==> rows_of_bytes(t@, #[trigger] bytes_of(buckets@, j), bound(n, workers as int, j + 1)),
            forall|j: int| k <= j < workers ==> rows_of_bytes(t@, #[trigger] bytes_of(buckets@, j), bound(n, workers as int, j)),
        decreases k,
    {
        let to: usize = k - 1;
        let mut from: Vec<SaUint> = vec![0; ALPHABET_SIZE];
        if to > 0 {
            let ghost b0 = buckets@;
            assert(rows_of_bytes(t@, bytes_of(b0, to - 1), bound(n, workers as int, to as int)));
            let (bytes, pairs) = segment(buckets, to - 1);
            copy_words(from.as_mut_slice(), bytes);
            let ghost own = bytes@;
            let ghost kept = pairs@;
            proof {
                lemma_segment(b0, buckets@, to - 1, own, kept);
            }
        } else {
            copy_words(from.as_mut_slice(), bucket1.as_slice());
        }
        assert(rows_of_bytes(t@, from@, bound(n, workers as int, to as int)));
        let ghost b1 = buckets@;
        let (bytes, pairs) = segment(buckets, to);
        copy_words(bytes, from.as_slice());
        let ghost own = bytes@;
        let ghost kept = pairs@;
        proof {
            lemma_segment(b1, buckets@, to as int, own, kept);
        }
        k = to;
    }
}

/// Collecting the rows up to `mid` and then those up to `end` is collecting those up to
/// `end`.
proof fn lemma_psi_split(t: Seq<u8>, index: int, s: PsiState, mid: int, end: int)
    requires
        valid_index(t, index),
        0 <= mid <= end <= t.len(),
    ensures
        psi_run(t, index, s, 0, end) == (match psi_run(t, index, s, 0, mid) {
            Some(x) => psi_run(t, index, x, mid, end),
            None => None,
        }),
{
    let f = psi_step(t, index);
    if end < index {
        lemma_fold_up_split(f, s, 0, mid, end);
    } else if mid < index {
        lemma_fold_up_split(f, s, 0, mid, index);
    } else {
        match fold_up(f, s, 0, index) {
            Some(x) => lemma_fold_up_split(f, x, index + 1, mid + 1, end + 1),
            None => {},
        }
    }
}

/// The rows up to the byte at `k` that have byte `c`.
proof fn lemma_row_at(t: Seq<u8>, index: int, c: int, k: int)
    requires
        valid_index(t, index),
        0 <= k <= t.len(),
    ensures
        row_count(t, index, c, 0, row_at(index, k)) == occurrences(t, c, k),
{
    lemma_row_count_is_occurrences(t, index, c, row_at(index, k));
}

/// Collects the rows of every block, and leaves in `bucket2` the ends of the pairs.
fn collect_blocks(t: &[u8], p: &mut [SaUint], index: usize, workers: usize, bucket2: &mut [SaUint], buckets: &mut [SaUint])
    requires
        t.len() <= i32::MAX,
        valid_index(t@, index as int),
        old(p).len() > t.len(),
        workers > 0,
        workers * SEGMENT <= old(buckets).len(),
        old(bucket2).len() == BIGRAMS,
        forall|w: int| 0 <= w < BIGRAMS ==> #[trigger] old(bucket2)@[w] == bigram_start(t@, index as int, w),
        forall|j: int| 0 <= j < workers ==> rows_of_bytes(t@, #[trigger] bytes_of(old(buckets)@, j), bound(t.len() as int, workers as int, j)),
        forall|j: int| 0 <= j < workers ==> pairs_between(t@, index as int, #[trigger] pairs_of(old(buckets)@, j), 0,
            bound(t.len() as int, workers as int, j)),
    ensures
        final(buckets).len() == old(buckets).len(),
        final(p).len() == old(p).len(),
        final(bucket2).len() == old(bucket2).len(),
        ({
            let z = psi_run(t@, index as int, (old(p)@, byte_table(t@), old(bucket2)@), 0, t.len() as int);
            z is Some && z.unwrap().0 == final(p)@ && z.unwrap().2 == final(bucket2)@
        }),
{
    let n: usize = t.len();
    let ghost s0 = (p@, byte_table(t@), bucket2@);
    let ghost mut state = s0;
    proof {
        assert(bound(n as int, workers as int, 0) == 0);
        lemma_byte_table(t@, index as int);
        assert(pairs_at(t@, index as int, byte_table(t@), bucket2@)) by {
            assert forall|w: int| 0 <= w < BIGRAMS implies #[trigger] bucket2@[w]
                == first_row(t@, w / 256) + row_count(t@, index as int, w / 256, 0, byte_table(t@)[w % 256] as int) by {
                assert(byte_table(t@)[w % 256] == first_row(t@, w % 256) + row_count(t@, index as int, w % 256, 0, 0));
            }
        }
        assert(collected(t@, index as int, s0.0, s0, row_at(index as int, 0)));
        assert(psi_run(t@, index as int, s0, 0, 0) == Some(s0));
    }
    let mut k: usize = 0;
    while k < workers
        invariant
            k <= workers,
            n == t.len(),
            n <= i32::MAX,
            valid_index(t@, index as int),
            s0 == (old(p)@, byte_table(t@), old(bucket2)@),
            s0.0.len() > n,
            workers * SEGMENT <= buckets.len(),
            buckets.len() == old(buckets).len(),
            p.len() == old(p).len(),
            bucket2@ == old(bucket2)@,
            bucket2.len() == BIGRAMS,
            forall|w: int| 0 <= w < BIGRAMS ==> #[trigger] bucket2@[w] == bigram_start(t@, index as int, w),
            psi_run(t@, index as int, s0, 0, bound(n as int, workers as int, k as int)) == Some(state),
            collected(t@, index as int, s0.0, state, row_at(index as int, bound(n as int, workers as int, k as int))),
            state.0 == p@,
            state.1.len() == ALPHABET_SIZE,
            state.2.len() == BIGRAMS,
            k > 0 ==> pairs_of(buckets@, k - 1) == state.2,
            forall|j: int| k <= j < workers ==> rows_of_bytes(t@, #[trigger] bytes_of(buckets@, j), bound(n as int, workers as int, j)),
            forall|j: int| k <= j < workers ==> pairs_between(t@, index as int, #[trigger] pairs_of(buckets@, j), 0,
                bound(n as int, workers as int, j)),
        decreases workers - k,
    {
        let (lo, hi) = block_range(n, workers, k);
        let ghost b0 = buckets@;
        assert(rows_of_bytes(t@, bytes_of(b0, k as int), lo as int));
        assert(pairs_between(t@, index as int, pairs_of(b0, k as int), 0, lo as int));
        let (bytes, pairs) = segment(buckets, k);
        proof {
            assert forall|w: int| 0 <= w < BIGRAMS implies #[trigger] pairs@[w] + bucket2@[w]
                == first_row(t@, w / 256) + row_count(t@, index as int, w / 256, 0, byte_row(t@, w % 256, lo as int))
                && pairs@[w] + bucket2@[w] <= u32::MAX by {
                lemma_pairs_done(t@, index as int, w, 0, lo as int);
                lemma_bigram_rows(t@, index as int, w);
                assert(bucket2@[w] == bigram_start(t@, index as int, w));
            }
        }
        add_words(pairs, bucket2);
        proof {
            assert(bytes@ =~= state.1) by {
                assert forall|c: int| 0 <= c < ALPHABET_SIZE implies bytes@[c] == state.1[c] by {
                    lemma_row_at(t@, index as int, c, lo as int);
                    assert(bytes@[c] == byte_row(t@, c, lo as int));
                }
            }
            assert(pairs@ =~= state.2) by {
                assert forall|w: int| 0 <= w < BIGRAMS implies pairs@[w] == state.2[w] by {
                    assert(pairs_of(b0, k as int)[w] + bucket2@[w]
                        == first_row(t@, w / 256) + row_count(t@, index as int, w / 256, 0, byte_row(t@, w % 256, lo as int)));
                    assert(bytes@[w % 256] == byte_row(t@, w % 256, lo as int));
                    assert(state.2[w] == first_row(t@, w / 256) + row_count(t@, index as int, w / 256, 0, state.1[w % 256] as int));
                }
            }
            lemma_psi(t@, index as int, s0.0, state, lo as int, hi as int);
            lemma_psi_split(t@, index as int, s0, lo as int, hi as int);
        }
        unbwt_calculate_bi_psi(t, p, bytes, pairs, index, lo as FastSint, hi as FastSint);
        let ghost own = bytes@;
        let ghost counted = pairs@;
        proof {
            state = (p@, own, counted);
            lemma_segment(b0, buckets@, k as int, own, counted);
        }
        k += 1;
    }
    let ghost done = buckets@;
    let (_bytes, pairs) = segment(buckets, workers - 1);
    copy_words(bucket2, pairs);
    let ghost own = _bytes@;
    let ghost counted = pairs@;
    proof {
        lemma_segment(done, buckets@, workers - 1, own, counted);
    }
}

/// Makes the tables for the first `n` bytes of `t`, with a share of the work for each of
/// `threads` workers. The result does not depend on their number.
pub fn unbwt_init_parallel(
    t: &[u8],
    p: &mut [SaUint],
    n: SaSint,
    _freq: Option<&[SaSint]>,
    i: &[SaUint],
    bucket2: &mut [SaUint],
    fastbits: &mut [u16],
    buckets: Option<&mut [SaUint]>,
    threads: SaSint,
)
    requires
        0 < n <= t.len(),
        i.len() > 0,
        1 <= i@[0] <= n,
        tables_fit(n as int, old(p)@, old(bucket2)@.len(), old(fastbits)@),
        threads > 1 && n >= 65536 ==> (buckets matches Some(s) ==> old(bucket2).len() == BIGRAMS && s.len() >= threads * SEGMENT),
    ensures
        (Tables { next: final(p)@, ends: final(bucket2)@, fast: final(fastbits)@ })
            == tables(prefix(t@, n as int), i@[0] as int, old(p)@, old(bucket2)@.len(), old(fastbits)@),
        final(p).len() == old(p).len(),
        final(bucket2).len() == old(bucket2).len(),
        final(fastbits).len() == old(fastbits).len(),
        buckets matches Some(s) ==> final(s).len() == s.len(),
{
    if threads <= 1 || n < 65536 {
        unbwt_init_single(t, p, n, None, i, bucket2, fastbits);
        return;
    }
    match buckets {
        None => unbwt_init_single(t, p, n, None, i, bucket2, fastbits),
        Some(own) => {
            let text: &[u8] = vstd::slice::slice_subrange(t, 0, n as usize);
            let index: usize = i[0] as usize;
            let workers: usize = threads as usize;
            let shift: usize = find_shift(n as usize);
            count_blocks(text, workers, own);
            let mut bucket1: Vec<SaUint> = sum_bytes(text, workers, own);
            start_bytes(text, &mut bucket1);
            count_pairs(text, index, workers, &bucket1, own);
            sum_pairs(text, index, workers, bucket2, own);
            proof {
                lemma_tables(text@, index as int, p@, BIGRAMS as nat, fastbits@);
                lemma_pair_table(text@, index as int, BIGRAMS as nat);
                lemma_shift_bound(n as int, 0);
                lemma_fastbits(text@, index as int, shift as int, pair_table(text@, index as int, BIGRAMS as nat), fastbits@, BIGRAMS as int);
            }
            unbwt_calculate_fastbits(bucket2, fastbits, text[0] as usize, shift);
            shift_bytes(text, workers, &bucket1, own);
            collect_blocks(text, p, index, workers, bucket2, own);
        },
    }
}

/// The tables that several workers make are those that one makes, whatever number of workers and
/// whatever frequencies are given, and they invert the transformed text.
pub proof fn law_tables_shared(t: Seq<u8>, index: int, p: Seq<u32>, len: nat, f: Seq<u16>, single: Tables, shared: Tables)
    requires
        valid_index(t, index),
        tables_fit(t.len() as int, p, len, f),
        single == tables(prefix(t, t.len() as int), index, p, len, f),
        shared == tables(prefix(t, t.len() as int), index, p, len, f),
    ensures
        shared == single,
        inverts(t, index, shared),
        shared.next.len() == p.len(),
        shared.ends.len() == len,
        shared.fast.len() == f.len(),
{
    assert(prefix(t, t.len() as int) =~= t);
    lemma_tables(t, index, p, len, f);
}

} // verus!
