//! Inverting the Burrows-Wheeler transform: the rows are followed two bytes at a time.

use vstd::prelude::*;
use crate::bytes::{bwt_from, is_bwt, is_bwt_aux, sample_count, samples_from, valid_rate};
use crate::fold::{fold_up, lemma_fold_up_prefix};
use crate::gather::text8;
use crate::rows::{
    bigram_end, bigram_start, law_previous_row, lemma_bigram_monotone, lemma_bigram_of_row,
    lemma_bigram_order, lemma_bigram_rows, lemma_previous_row_range, lemma_row_byte,
    lemma_row_of_suffix, lemma_row_unique, previous_row, row_byte, suffix_in_row, valid_index,
};
use crate::types::{FastSint, FastUint, SaSint, SaUint, UnbwtContext, ALPHABET_SIZE};
use crate::unbwt_parallel::unbwt_init_parallel;
use crate::unbwt_tables::{
    bounded, fast_shift, find_shift, frequencies_given, high, inverts, lemma_high_monotone,
    lemma_shift_bound, lemma_tables, prefix, shift_from, shifted, tables, tables_fit, two_rows_back,
    unbwt_init_single, Tables, BIGRAMS,
};

verus! {

/// The first pair of bytes from `c` on that ends behind row `p`.
pub open spec fn resolved(b2: Seq<u32>, p: int, c: int) -> Option<int>
    decreases 65536 - c,
{
    if !(0 <= c < 65536 && c < b2.len()) {
        None
    } else if b2[c] > p {
        Some(c)
    } else {
        resolved(b2, p, c + 1)
    }
}

/// The pair of bytes at the start of the suffix of row `p`.
pub open spec fn symbol(b2: Seq<u32>, fast: Seq<u16>, shift: int, p: int) -> Option<int> {
    if 0 <= high(p, shift) < fast.len() {
        resolved(b2, p, fast[high(p, shift)] as int)
    } else {
        None
    }
}

/// Exchanges the two bytes of a word.
fn bswap16(value: u16) -> (r: u16)
    ensures
        r == 256 * (value % 256) + value / 256,
{
    (value % 256) * 256 + value / 256
}

/// Finds the pair of bytes at the start of the suffix of row `p`.
fn unbwt_resolve_symbol(bucket2: &[SaUint], fastbits: &[u16], shift: FastUint, p: SaUint) -> (c: u16)
    requires
        shift < usize::BITS,
        symbol(bucket2@, fastbits@, shift as int, p as int) is Some,
    ensures
        symbol(bucket2@, fastbits@, shift as int, p as int) == Some(c as int),
{
    let mut c: u16 = fastbits[shifted(p as usize, shift)];
    let ghost want = symbol(bucket2@, fastbits@, shift as int, p as int);
    while bucket2[c as usize] <= p
        invariant
            want is Some,
            resolved(bucket2@, p as int, c as int) == want,
            c < bucket2.len(),
        decreases 65536 - c,
    {
        assert(resolved(bucket2@, p as int, c + 1) == want);
        c += 1;
    }
    c
}

/// What decoding works on: the text and the row to go on from.
pub type DecodeState = (Seq<u8>, u32);

/// Writes the two bytes of the row at hand and goes on to the row two bytes on; `b` holds
/// the tables and the text starts at `at`.
pub open spec fn decode_step(b: Tables, shift: int, at: int) -> spec_fn(DecodeState, int) -> Option<DecodeState> {
    |s: DecodeState, i: int|
        {
            let (u, row) = s;
            let c = symbol(b.ends, b.fast, shift, row as int);
            if c is Some && row < b.next.len() && 0 <= at + 2 * i && at + 2 * i + 1 < u.len() {
                Some((
                    u.update(at + 2 * i, (c->0 / 256) as u8).update(at + 2 * i + 1, (c->0 % 256) as u8),
                    b.next[row as int],
                ))
            } else {
                None
            }
        }
}

/// Decodes `k` pairs of bytes.
pub open spec fn decode_run(b: Tables, shift: int, at: int, s: DecodeState, k: int) -> Option<DecodeState> {
    fold_up(decode_step(b, shift, at), s, 0, k)
}

/// Decodes `k` pairs of bytes from row `row` on into the text from `at` on, and returns the
/// row to go on from.
fn decode_block(
    u: &mut [u8],
    at: usize,
    p: &[SaUint],
    bucket2: &[SaUint],
    fastbits: &[u16],
    shift: FastUint,
    row: SaUint,
    k: usize,
) -> (next: SaUint)
    requires
        shift < usize::BITS,
        decode_run(Tables { next: p@, ends: bucket2@, fast: fastbits@ }, shift as int, at as int, (old(u)@, row), k as int) is Some,
    ensures
        decode_run(Tables { next: p@, ends: bucket2@, fast: fastbits@ }, shift as int, at as int, (old(u)@, row), k as int)
            == Some((final(u)@, next)),
        final(u).len() == old(u).len(),
{
    let ghost b = Tables { next: p@, ends: bucket2@, fast: fastbits@ };
    let ghost step = decode_step(b, shift as int, at as int);
    let ghost s0 = (u@, row);
    let mut next: SaUint = row;
    let mut i: usize = 0;
    while i < k
        invariant
            i <= k,
            shift < usize::BITS,
            b == (Tables { next: p@, ends: bucket2@, fast: fastbits@ }),
            step == decode_step(b, shift as int, at as int),
            s0 == (old(u)@, row),
            fold_up(step, s0, 0, k as int) is Some,
            fold_up(step, s0, 0, i as int) == Some((u@, next)),
            u.len() == old(u).len(),
        decreases k - i,
    {
        proof {
            lemma_fold_up_prefix(step, s0, 0, i + 1, k as int);
            assert(step((u@, next), i as int) is Some);
        }
        let c: u16 = unbwt_resolve_symbol(bucket2, fastbits, shift, next);
        let swapped: u16 = bswap16(c);
        next = p[next as usize];
        u[at + 2 * i] = (swapped % 256) as u8;
        u[at + 2 * i + 1] = (swapped / 256) as u8;
        i += 1;
    }
    next
}

/// Decodes `k` pairs of bytes from row `i0` on, and leaves in `i0` the row to go on from.
pub fn unbwt_decode_1(
    u: &mut [u8],
    p: &[SaUint],
    bucket2: &[SaUint],
    fastbits: &[u16],
    shift: FastUint,
    i0: &mut FastUint,
    k: FastUint,
)
    requires
        shift < usize::BITS,
        *old(i0) <= u32::MAX,
        decode_run(Tables { next: p@, ends: bucket2@, fast: fastbits@ }, shift as int, 0, (old(u)@, *old(i0) as u32), k as int) is Some,
    ensures
        decode_run(Tables { next: p@, ends: bucket2@, fast: fastbits@ }, shift as int, 0, (old(u)@, *old(i0) as u32), k as int)
            == Some((final(u)@, *final(i0) as u32)),
        *final(i0) <= u32::MAX,
        final(u).len() == old(u).len(),
{
    let next: SaUint = decode_block(u, 0, p, bucket2, fastbits, shift, *i0 as SaUint, k);
    *i0 = next as FastUint;
}

/// Decodes `k` pairs of bytes from each of `rows` on, into stretches of the text that start
/// `r` bytes apart, and gives the rows to go on from.
pub open spec fn decode_many(b: Tables, shift: int, r: int, u: Seq<u8>, rows: Seq<u32>, k: int) -> Option<(Seq<u8>, Seq<u32>)>
    decreases rows.len(),
{
    if rows.len() == 0 {
        Some((u, rows))
    } else {
        match decode_many(b, shift, r, u, rows.drop_last(), k) {
            Some(x) => match decode_run(b, shift, (rows.len() - 1) * r, (x.0, rows.last()), k) {
                Some(y) => Some((y.0, x.1.push(y.1))),
                None => None,
            },
            None => None,
        }
    }
}

/// Decoding from one row on.
proof fn lemma_decode_one(b: Tables, shift: int, r: int, u: Seq<u8>, row: u32, k: int)
    ensures
        decode_many(b, shift, r, u, seq![row], k) == (match decode_run(b, shift, 0, (u, row), k) {
            Some(y) => Some((y.0, seq![y.1])),
            None => None,
        }),
{
    let rows = seq![row];
    assert(rows.drop_last() =~= Seq::<u32>::empty());
    assert(decode_many(b, shift, r, u, rows.drop_last(), k) == Some((u, rows.drop_last())));
    assert(rows.drop_last().push(decode_run(b, shift, 0, (u, row), k).unwrap().1) =~= seq![decode_run(b, shift, 0, (u, row), k).unwrap().1]);
    assert((rows.len() - 1) * r == 0) by (nonlinear_arith)
        requires
            rows.len() == 1,
    ;
}

/// Decodes `k` pairs of bytes from each of two rows on, into stretches of the text that
/// start `r` bytes apart, and leaves behind the rows to go on from.
pub fn unbwt_decode_2(
    u: &mut [u8],
    p: &[SaUint],
    bucket2: &[SaUint],
    fastbits: &[u16],
    shift: FastUint,
    r: FastUint,
    i0: &mut FastUint,
    i1: &mut FastUint,
    k: FastUint,
)
    requires
        shift < usize::BITS,
        1 * r + 2 * k <= old(u).len(),
        *old(i0) <= u32::MAX,
        *old(i1) <= u32::MAX,
        decode_many(Tables { next: p@, ends: bucket2@, fast: fastbits@ }, shift as int, r as int, old(u)@, seq![*old(i0) as u32, *old(i1) as u32], k as int) is Some,
    ensures
        decode_many(Tables { next: p@, ends: bucket2@, fast: fastbits@ }, shift as int, r as int, old(u)@, seq![*old(i0) as u32, *old(i1) as u32], k as int)
            == Some((final(u)@, seq![*final(i0) as u32, *final(i1) as u32])),
        *final(i0) <= u32::MAX,
        *final(i1) <= u32::MAX,
        final(u).len() == old(u).len(),
{
    let ghost rows = seq![*old(i0) as u32, *old(i1) as u32];
    proof {
        assert(rows.drop_last() =~= seq![*old(i0) as u32]);
        lemma_decode_one(Tables { next: p@, ends: bucket2@, fast: fastbits@ }, shift as int, r as int, old(u)@, *old(i0) as u32, k as int);
    }
    unbwt_decode_1(u, p, bucket2, fastbits, shift, i0, k);
    let next: SaUint = decode_block(u, 1 * r, p, bucket2, fastbits, shift, *i1 as SaUint, k);
    *i1 = next as FastUint;
    proof {
        let before = decode_many(Tables { next: p@, ends: bucket2@, fast: fastbits@ }, shift as int, r as int, old(u)@, rows.drop_last(), k as int)->0;
        assert(before.1.push(next) =~= seq![*i0 as u32, *i1 as u32]);
    }
}

/// Decodes `k` pairs of bytes from each of three rows on, into stretches of the text that
/// start `r` bytes apart, and leaves behind the rows to go on from.
pub fn unbwt_decode_3(
    u: &mut [u8],
    p: &[SaUint],
    bucket2: &[SaUint],
    fastbits: &[u16],
    shift: FastUint,
    r: FastUint,
    i0: &mut FastUint,
    i1: &mut FastUint,
    i2: &mut FastUint,
    k: FastUint,
)
    requires
        shift < usize::BITS,
        2 * r + 2 * k <= old(u).len(),
        *old(i0) <= u32::MAX,
        *old(i1) <= u32::MAX,
        *old(i2) <= u32::MAX,
        decode_many(Tables { next: p@, ends: bucket2@, fast: fastbits@ }, shift as int, r as int, old(u)@, seq![*old(i0) as u32, *old(i1) as u32, *old(i2) as u32], k as int) is Some,
    ensures
        decode_many(Tables { next: p@, ends: bucket2@, fast: fastbits@ }, shift as int, r as int, old(u)@, seq![*old(i0) as u32, *old(i1) as u32, *old(i2) as u32], k as int)
            == Some((final(u)@, seq![*final(i0) as u32, *final(i1) as u32, *final(i2) as u32])),
        *final(i0) <= u32::MAX,
        *final(i1) <= u32::MAX,
        *final(i2) <= u32::MAX,
        final(u).len() == old(u).len(),
{
    let ghost rows = seq![*old(i0) as u32, *old(i1) as u32, *old(i2) as u32];
    proof {
        assert(1 * r <= 2 * r) by (nonlinear_arith);
        assert(rows.drop_last() =~= seq![*old(i0) as u32, *old(i1) as u32]);
    }
    unbwt_decode_2(u, p, bucket2, fastbits, shift, r, i0, i1, k);
    let next: SaUint = decode_block(u, 2 * r, p, bucket2, fastbits, shift, *i2 as SaUint, k);
    *i2 = next as FastUint;
    proof {
        let before = decode_many(Tables { next: p@, ends: bucket2@, fast: fastbits@ }, shift as int, r as int, old(u)@, rows.drop_last(), k as int)->0;
        assert(before.1.push(next) =~= seq![*i0 as u32, *i1 as u32, *i2 as u32]);
    }
}

/// Decodes `k` pairs of bytes from each of four rows on, into stretches of the text that
/// start `r` bytes apart, and leaves behind the rows to go on from.
pub fn unbwt_decode_4(
    u: &mut [u8],
    p: &[SaUint],
    bucket2: &[SaUint],
    fastbits: &[u16],
    shift: FastUint,
    r: FastUint,
    i0: &mut FastUint,
    i1: &mut FastUint,
    i2: &mut FastUint,
    i3: &mut FastUint,
    k: FastUint,
)
    requires
        shift < usize::BITS,
        3 * r + 2 * k <= old(u).len(),
        *old(i0) <= u32::MAX,
        *old(i1) <= u32::MAX,
        *old(i2) <= u32::MAX,
        *old(i3) <= u32::MAX,
        decode_many(Tables { next: p@, ends: bucket2@, fast: fastbits@ }, shift as int, r as int, old(u)@, seq![*old(i0) as u32, *old(i1) as u32, *old(i2) as u32, *old(i3) as u32], k as int) is Some,
    ensures
        decode_many(Tables { next: p@, ends: bucket2@, fast: fastbits@ }, shift as int, r as int, old(u)@, seq![*old(i0) as u32, *old(i1) as u32, *old(i2) as u32, *old(i3) as u32], k as int)
            == Some((final(u)@, seq![*final(i0) as u32, *final(i1) as u32, *final(i2) as u32, *final(i3) as u32])),
        *final(i0) <= u32::MAX,
        *final(i1) <= u32::MAX,
        *final(i2) <= u32::MAX,
        *final(i3) <= u32::MAX,
        final(u).len() == old(u).len(),
{
    let ghost rows = seq![*old(i0) as u32, *old(i1) as u32, *old(i2) as u32, *old(i3) as u32];
    proof {
        assert(2 * r <= 3 * r) by (nonlinear_arith);
        assert(rows.drop_last() =~= seq![*old(i0) as u32, *old(i1) as u32, *old(i2) as u32]);
    }
    unbwt_decode_3(u, p, bucket2, fastbits, shift, r, i0, i1, i2, k);
    let next: SaUint = decode_block(u, 3 * r, p, bucket2, fastbits, shift, *i3 as SaUint, k);
    *i3 = next as FastUint;
    proof {
        let before = decode_many(Tables { next: p@, ends: bucket2@, fast: fastbits@ }, shift as int, r as int, old(u)@, rows.drop_last(), k as int)->0;
        assert(before.1.push(next) =~= seq![*i0 as u32, *i1 as u32, *i2 as u32, *i3 as u32]);
    }
}

/// Decodes `k` pairs of bytes from each of five rows on, into stretches of the text that
/// start `r` bytes apart, and leaves behind the rows to go on from.
pub fn unbwt_decode_5(
    u: &mut [u8],
    p: &[SaUint],
    bucket2: &[SaUint],
    fastbits: &[u16],
    shift: FastUint,
    r: FastUint,
    i0: &mut FastUint,
    i1: &mut FastUint,
    i2: &mut FastUint,
    i3: &mut FastUint,
    i4: &mut FastUint,
    k: FastUint,
)
    requires
        shift < usize::BITS,
        4 * r + 2 * k <= old(u).len(),
        *old(i0) <= u32::MAX,
        *old(i1) <= u32::MAX,
        *old(i2) <= u32::MAX,
        *old(i3) <= u32::MAX,
        *old(i4) <= u32::MAX,
        decode_many(Tables { next: p@, ends: bucket2@, fast: fastbits@ }, shift as int, r as int, old(u)@, seq![*old(i0) as u32, *old(i1) as u32, *old(i2) as u32, *old(i3) as u32, *old(i4) as u32], k as int) is Some,
    ensures
        decode_many(Tables { next: p@, ends: bucket2@, fast: fastbits@ }, shift as int, r as int, old(u)@, seq![*old(i0) as u32, *old(i1) as u32, *old(i2) as u32, *old(i3) as u32, *old(i4) as u32], k as int)
            == Some((final(u)@, seq![*final(i0) as u32, *final(i1) as u32, *final(i2) as u32, *final(i3) as u32, *final(i4) as u32])),
        *final(i0) <= u32::MAX,
        *final(i1) <= u32::MAX,
        *final(i2) <= u32::MAX,
        *final(i3) <= u32::MAX,
        *final(i4) <= u32::MAX,
        final(u).len() == old(u).len(),
{
    let ghost rows = seq![*old(i0) as u32, *old(i1) as u32, *old(i2) as u32, *old(i3) as u32, *old(i4) as u32];
    proof {
        assert(3 * r <= 4 * r) by (nonlinear_arith);
        assert(rows.drop_last() =~= seq![*old(i0) as u32, *old(i1) as u32, *old(i2) as u32, *old(i3) as u32]);
    }
    unbwt_decode_4(u, p, bucket2, fastbits, shift, r, i0, i1, i2, i3, k);
    let next: SaUint = decode_block(u, 4 * r, p, bucket2, fastbits, shift, *i4 as SaUint, k);
    *i4 = next as FastUint;
    proof {
        let before = decode_many(Tables { next: p@, ends: bucket2@, fast: fastbits@ }, shift as int, r as int, old(u)@, rows.drop_last(), k as int)->0;
        assert(before.1.push(next) =~= seq![*i0 as u32, *i1 as u32, *i2 as u32, *i3 as u32, *i4 as u32]);
    }
}

/// Decodes `k` pairs of bytes from each of six rows on, into stretches of the text that
/// start `r` bytes apart, and leaves behind the rows to go on from.
pub fn unbwt_decode_6(
    u: &mut [u8],
    p: &[SaUint],
    bucket2: &[SaUint],
    fastbits: &[u16],
    shift: FastUint,
    r: FastUint,
    i0: &mut FastUint,
    i1: &mut FastUint,
    i2: &mut FastUint,
    i3: &mut FastUint,
    i4: &mut FastUint,
    i5: &mut FastUint,
    k: FastUint,
)
    requires
        shift < usize::BITS,
        5 * r + 2 * k <= old(u).len(),
        *old(i0) <= u32::MAX,
        *old(i1) <= u32::MAX,
        *old(i2) <= u32::MAX,
        *old(i3) <= u32::MAX,
        *old(i4) <= u32::MAX,
        *old(i5) <= u32::MAX,
        decode_many(Tables { next: p@, ends: bucket2@, fast: fastbits@ }, shift as int, r as int, old(u)@, seq![*old(i0) as u32, *old(i1) as u32, *old(i2) as u32, *old(i3) as u32, *old(i4) as u32, *old(i5) as u32], k as int) is Some,
    ensures
        decode_many(Tables { next: p@, ends: bucket2@, fast: fastbits@ }, shift as int, r as int, old(u)@, seq![*old(i0) as u32, *old(i1) as u32, *old(i2) as u32, *old(i3) as u32, *old(i4) as u32, *old(i5) as u32], k as int)
            == Some((final(u)@, seq![*final(i0) as u32, *final(i1) as u32, *final(i2) as u32, *final(i3) as u32, *final(i4) as u32, *final(i5) as u32])),
        *final(i0) <= u32::MAX,
        *final(i1) <= u32::MAX,
        *final(i2) <= u32::MAX,
        *final(i3) <= u32::MAX,
        *final(i4) <= u32::MAX,
        *final(i5) <= u32::MAX,
        final(u).len() == old(u).len(),
{
    let ghost rows = seq![*old(i0) as u32, *old(i1) as u32, *old(i2) as u32, *old(i3) as u32, *old(i4) as u32, *old(i5) as u32];
    proof {
        assert(4 * r <= 5 * r) by (nonlinear_arith);
        assert(rows.drop_last() =~= seq![*old(i0) as u32, *old(i1) as u32, *old(i2) as u32, *old(i3) as u32, *old(i4) as u32]);
    }
    unbwt_decode_5(u, p, bucket2, fastbits, shift, r, i0, i1, i2, i3, i4, k);
    let next: SaUint = decode_block(u, 5 * r, p, bucket2, fastbits, shift, *i5 as SaUint, k);
    *i5 = next as FastUint;
    proof {
        let before = decode_many(Tables { next: p@, ends: bucket2@, fast: fastbits@ }, shift as int, r as int, old(u)@, rows.drop_last(), k as int)->0;
        assert(before.1.push(next) =~= seq![*i0 as u32, *i1 as u32, *i2 as u32, *i3 as u32, *i4 as u32, *i5 as u32]);
    }
}

/// Decodes `k` pairs of bytes from each of seven rows on, into stretches of the text that
/// start `r` bytes apart, and leaves behind the rows to go on from.
pub fn unbwt_decode_7(
    u: &mut [u8],
    p: &[SaUint],
    bucket2: &[SaUint],
    fastbits: &[u16],
    shift: FastUint,
    r: FastUint,
    i0: &mut FastUint,
    i1: &mut FastUint,
    i2: &mut FastUint,
    i3: &mut FastUint,
    i4: &mut FastUint,
    i5: &mut FastUint,
    i6: &mut FastUint,
    k: FastUint,
)
    requires
        shift < usize::BITS,
        6 * r + 2 * k <= old(u).len(),
        *old(i0) <= u32::MAX,
        *old(i1) <= u32::MAX,
        *old(i2) <= u32::MAX,
        *old(i3) <= u32::MAX,
        *old(i4) <= u32::MAX,
        *old(i5) <= u32::MAX,
        *old(i6) <= u32::MAX,
        decode_many(Tables { next: p@, ends: bucket2@, fast: fastbits@ }, shift as int, r as int, old(u)@, seq![*old(i0) as u32, *old(i1) as u32, *old(i2) as u32, *old(i3) as u32, *old(i4) as u32, *old(i5) as u32, *old(i6) as u32], k as int) is Some,
    ensures
        decode_many(Tables { next: p@, ends: bucket2@, fast: fastbits@ }, shift as int, r as int, old(u)@, seq![*old(i0) as u32, *old(i1) as u32, *old(i2) as u32, *old(i3) as u32, *old(i4) as u32, *old(i5) as u32, *old(i6) as u32], k as int)
            == Some((final(u)@, seq![*final(i0) as u32, *final(i1) as u32, *final(i2) as u32, *final(i3) as u32, *final(i4) as u32, *final(i5) as u32, *final(i6) as u32])),
        *final(i0) <= u32::MAX,
        *final(i1) <= u32::MAX,
        *final(i2) <= u32::MAX,
        *final(i3) <= u32::MAX,
        *final(i4) <= u32::MAX,
        *final(i5) <= u32::MAX,
        *final(i6) <= u32::MAX,
        final(u).len() == old(u).len(),
{
    let ghost rows = seq![*old(i0) as u32, *old(i1) as u32, *old(i2) as u32, *old(i3) as u32, *old(i4) as u32, *old(i5) as u32, *old(i6) as u32];
    proof {
        assert(5 * r <= 6 * r) by (nonlinear_arith);
        assert(rows.drop_last() =~= seq![*old(i0) as u32, *old(i1) as u32, *old(i2) as u32, *old(i3) as u32, *old(i4) as u32, *old(i5) as u32]);
    }
    unbwt_decode_6(u, p, bucket2, fastbits, shift, r, i0, i1, i2, i3, i4, i5, k);
    let next: SaUint = decode_block(u, 6 * r, p, bucket2, fastbits, shift, *i6 as SaUint, k);
    *i6 = next as FastUint;
    proof {
        let before = decode_many(Tables { next: p@, ends: bucket2@, fast: fastbits@ }, shift as int, r as int, old(u)@, rows.drop_last(), k as int)->0;
        assert(before.1.push(next) =~= seq![*i0 as u32, *i1 as u32, *i2 as u32, *i3 as u32, *i4 as u32, *i5 as u32, *i6 as u32]);
    }
}

/// Decodes `k` pairs of bytes from each of eight rows on, into stretches of the text that
/// start `r` bytes apart, and leaves behind the rows to go on from.
pub fn unbwt_decode_8(
    u: &mut [u8],
    p: &[SaUint],
    bucket2: &[SaUint],
    fastbits: &[u16],
    shift: FastUint,
    r: FastUint,
    i0: &mut FastUint,
    i1: &mut FastUint,
    i2: &mut FastUint,
    i3: &mut FastUint,
    i4: &mut FastUint,
    i5: &mut FastUint,
    i6: &mut FastUint,
    i7: &mut FastUint,
    k: FastUint,
)
    requires
        shift < usize::BITS,
        7 * r + 2 * k <= old(u).len(),
        *old(i0) <= u32::MAX,
        *old(i1) <= u32::MAX,
        *old(i2) <= u32::MAX,
        *old(i3) <= u32::MAX,
        *old(i4) <= u32::MAX,
        *old(i5) <= u32::MAX,
        *old(i6) <= u32::MAX,
        *old(i7) <= u32::MAX,
        decode_many(Tables { next: p@, ends: bucket2@, fast: fastbits@ }, shift as int, r as int, old(u)@, seq![*old(i0) as u32, *old(i1) as u32, *old(i2) as u32, *old(i3) as u32, *old(i4) as u32, *old(i5) as u32, *old(i6) as u32, *old(i7) as u32], k as int) is Some,
    ensures
        decode_many(Tables { next: p@, ends: bucket2@, fast: fastbits@ }, shift as int, r as int, old(u)@, seq![*old(i0) as u32, *old(i1) as u32, *old(i2) as u32, *old(i3) as u32, *old(i4) as u32, *old(i5) as u32, *old(i6) as u32, *old(i7) as u32], k as int)
            == Some((final(u)@, seq![*final(i0) as u32, *final(i1) as u32, *final(i2) as u32, *final(i3) as u32, *final(i4) as u32, *final(i5) as u32, *final(i6) as u32, *final(i7) as u32])),
        *final(i0) <= u32::MAX,
        *final(i1) <= u32::MAX,
        *final(i2) <= u32::MAX,
        *final(i3) <= u32::MAX,
        *final(i4) <= u32::MAX,
        *final(i5) <= u32::MAX,
        *final(i6) <= u32::MAX,
        *final(i7) <= u32::MAX,
        final(u).len() == old(u).len(),
{
    let ghost rows = seq![*old(i0) as u32, *old(i1) as u32, *old(i2) as u32, *old(i3) as u32, *old(i4) as u32, *old(i5) as u32, *old(i6) as u32, *old(i7) as u32];
    proof {
        assert(6 * r <= 7 * r) by (nonlinear_arith);
        assert(rows.drop_last() =~= seq![*old(i0) as u32, *old(i1) as u32, *old(i2) as u32, *old(i3) as u32, *old(i4) as u32, *old(i5) as u32, *old(i6) as u32]);
    }
    unbwt_decode_7(u, p, bucket2, fastbits, shift, r, i0, i1, i2, i3, i4, i5, i6, k);
    let next: SaUint = decode_block(u, 7 * r, p, bucket2, fastbits, shift, *i7 as SaUint, k);
    *i7 = next as FastUint;
    proof {
        let before = decode_many(Tables { next: p@, ends: bucket2@, fast: fastbits@ }, shift as int, r as int, old(u)@, rows.drop_last(), k as int)->0;
        assert(before.1.push(next) =~= seq![*i0 as u32, *i1 as u32, *i2 as u32, *i3 as u32, *i4 as u32, *i5 as u32, *i6 as u32, *i7 as u32]);
    }
}

/// Decodes block `j` of `blocks` blocks of `r` bytes, the last of which has `remainder`
/// bytes; `i` holds the rows of the starts of the blocks.
pub open spec fn blocks_step(b: Tables, shift: int, r: int, i: Seq<u32>, blocks: int, remainder: int) -> spec_fn(Seq<u8>, int) -> Option<Seq<u8>> {
    |u: Seq<u8>, j: int|
        {
            if 0 <= j < i.len() {
                match decode_run(b, shift, j * r, (u, i[j]), (if j < blocks - 1 { r } else { remainder }) / 2) {
                    Some(x) => Some(x.0),
                    None => None,
                }
            } else {
                None
            }
        }
}

/// Decodes the first `hi` blocks.
pub open spec fn blocks_run(b: Tables, shift: int, r: int, i: Seq<u32>, blocks: int, remainder: int, u: Seq<u8>, hi: int) -> Option<Seq<u8>> {
    fold_up(blocks_step(b, shift, r, i, blocks, remainder), u, 0, hi)
}

/// Decodes `blocks` blocks of `r` bytes, the last of which has `remainder` bytes; `i` holds
/// the rows of the starts of the blocks. Of an odd number of bytes the last is left out.
pub fn unbwt_decode(
    u: &mut [u8],
    p: &[SaUint],
    n: SaSint,
    r: SaSint,
    i: &[SaUint],
    bucket2: &[SaUint],
    fastbits: &[u16],
    blocks: FastSint,
    remainder: FastUint,
)
    requires
        0 <= n,
        0 <= r,
        (blocks - 1) * r <= usize::MAX,
        (blocks - 1) % 8 == 0 || remainder / 2 <= r as int / 2,
        blocks_run(Tables { next: p@, ends: bucket2@, fast: fastbits@ }, fast_shift(n as int), r as int, i@, blocks as int,
            remainder as int, old(u)@, blocks as int) is Some,
    ensures
        blocks_run(Tables { next: p@, ends: bucket2@, fast: fastbits@ }, fast_shift(n as int), r as int, i@, blocks as int,
            remainder as int, old(u)@, blocks as int) == Some(final(u)@),
        final(u).len() == old(u).len(),
{
    let shift: usize = find_shift(n as usize);
    let ghost b = Tables { next: p@, ends: bucket2@, fast: fastbits@ };
    let ghost step = blocks_step(b, shift as int, r as int, i@, blocks as int, remainder as int);
    let ghost u0 = u@;
    let width: usize = r as usize;
    let mut at: usize = 0;
    let mut j: FastSint = 0;
    proof {
        lemma_word_bits();
    }
    while j < blocks
        invariant
            0 <= j,
            j <= blocks || j == 0,
            shift <= 31,
            usize::BITS >= 32,
            width == r,
            0 <= r,
            (blocks - 1) * r <= usize::MAX,
            b == (Tables { next: p@, ends: bucket2@, fast: fastbits@ }),
            step == blocks_step(b, shift as int, r as int, i@, blocks as int, remainder as int),
            u0 == old(u)@,
            fold_up(step, u0, 0, blocks as int) is Some,
            fold_up(step, u0, 0, j as int) == Some(u@),
            j < blocks ==> at == j * r,
            u.len() == old(u).len(),
        decreases blocks - j,
    {
        proof {
            lemma_fold_up_prefix(step, u0, 0, j + 1, blocks as int);
            assert(step(u@, j as int) is Some);
        }
        let k: usize = (if j < blocks - 1 { width } else { remainder }) / 2;
        let _next: SaUint = decode_block(u, at, p, bucket2, fastbits, shift, i[j as usize], k);
        if j < blocks - 1 {
            proof {
                assert((j + 1) * r == j * r + r && (j + 1) * r <= (blocks - 1) * r) by (nonlinear_arith)
                    requires
                        j + 1 <= blocks - 1,
                        0 <= r,
                ;
            }
            at = at + width;
        }
        j += 1;
    }
}

/// A word has at least 32 bits.
proof fn lemma_word_bits()
    ensures
        usize::BITS >= 32,
{
}

/// The bytes that the last of the blocks of a text of length `n` has.
pub open spec fn last_block(n: int, r: int) -> int {
    n - r * (sample_count(n, r) - 1)
}

/// The text that decoding gives for the transformed text `t`: the blocks, and the last byte.
pub open spec fn decoded(t: Seq<u8>, b: Tables, n: int, r: int, i: Seq<u32>, u: Seq<u8>) -> Option<Seq<u8>> {
    match blocks_run(b, fast_shift(n), r, i, sample_count(n, r), last_block(n, r), u, sample_count(n, r)) {
        Some(x) => Some(x.update(n - 1, t[0])),
        None => None,
    }
}

/// The blocks cover the text.
pub proof fn lemma_last_block(n: int, r: int)
    requires
        0 < n,
        0 < r,
    ensures
        1 <= sample_count(n, r) <= n,
        0 <= r * (sample_count(n, r) - 1) < n,
        (sample_count(n, r) - 1) * r == r * (sample_count(n, r) - 1),
        1 <= last_block(n, r) <= r,
{
    let q = (n - 1) / r;
    vstd::arithmetic::div_mod::lemma_fundamental_div_mod(n - 1, r);
    vstd::arithmetic::div_mod::lemma_mod_bound(n - 1, r);
    vstd::arithmetic::div_mod::lemma_div_pos_is_pos(n - 1, r);
    vstd::arithmetic::div_mod::lemma_div_nonincreasing(n - 1, r);
    assert(r * q >= 0) by (nonlinear_arith)
        requires
            r > 0,
            q >= 0,
    ;
    assert(q * r == r * q) by (nonlinear_arith);
}

/// Decodes the blocks of a text of length `n` and adds the last byte. The result does not
/// depend on `threads`.
pub fn unbwt_decode_omp(
    t: &[u8],
    u: &mut [u8],
    p: &[SaUint],
    n: SaSint,
    r: SaSint,
    i: &[SaUint],
    bucket2: &[SaUint],
    fastbits: &[u16],
    _threads: SaSint,
)
    requires
        0 < n <= old(u).len(),
        0 < r,
        t.len() > 0,
        decoded(t@, Tables { next: p@, ends: bucket2@, fast: fastbits@ }, n as int, r as int, i@, old(u)@) is Some,
    ensures
        decoded(t@, Tables { next: p@, ends: bucket2@, fast: fastbits@ }, n as int, r as int, i@, old(u)@) == Some(final(u)@),
        final(u).len() == old(u).len(),
{
    proof {
        lemma_last_block(n as int, r as int);
    }
    let blocks: SaSint = (n - 1) / r + 1;
    let remainder: usize = (n - r * (blocks - 1)) as usize;
    unbwt_decode(u, p, n, r, i, bucket2, fastbits, blocks as FastSint, remainder);
    let last: usize = (n - 1) as usize;
    u[last] = t[0];
}

/// Whether a context, or what stands for one, has room for inverting with several workers.
pub open spec fn workers_fit(n: i32, buckets: Option<&mut [u32]>, threads: i32) -> bool {
    threads > 1 && n >= 262144 ==> (buckets matches Some(s) ==> s.len() >= threads * (ALPHABET_SIZE + BIGRAMS))
}

/// The tables that inverting the first `n` bytes of `t` makes.
pub open spec fn core_tables(t: Seq<u8>, n: int, i: Seq<u32>, p: Seq<u32>, len: nat, f: Seq<u16>) -> Tables {
    tables(prefix(t, n), i[0] as int, p, len, f)
}

/// Makes the tables for the first `n` bytes of `t` and decodes the text with samples at rate
/// `r`. Returns `0`.
pub fn unbwt_core(
    t: &[u8],
    u: &mut [u8],
    p: &mut [SaUint],
    n: SaSint,
    freq: Option<&[SaSint]>,
    r: SaSint,
    i: &[SaUint],
    bucket2: &mut [SaUint],
    fastbits: &mut [u16],
    buckets: Option<&mut [SaUint]>,
    threads: SaSint,
) -> (result: SaSint)
    requires
        0 < n <= t.len(),
        n <= old(u).len(),
        0 < r,
        i.len() > 0,
        1 <= i@[0] <= n,
        !(threads > 1 && n >= 262144) ==> frequencies_given(prefix(t@, n as int), freq),
        workers_fit(n, buckets, threads),
        threads > 1 && n >= 262144 ==> old(bucket2).len() == BIGRAMS,
        tables_fit(n as int, old(p)@, old(bucket2)@.len(), old(fastbits)@),
        decoded(t@, core_tables(t@, n as int, i@, old(p)@, old(bucket2)@.len(), old(fastbits)@), n as int, r as int, i@, old(u)@) is Some,
    ensures
        result == 0,
        (Tables { next: final(p)@, ends: final(bucket2)@, fast: final(fastbits)@ })
            == core_tables(t@, n as int, i@, old(p)@, old(bucket2)@.len(), old(fastbits)@),
        decoded(t@, core_tables(t@, n as int, i@, old(p)@, old(bucket2)@.len(), old(fastbits)@), n as int, r as int, i@, old(u)@)
            == Some(final(u)@),
        final(p).len() == old(p).len(),
        final(bucket2).len() == old(bucket2).len(),
        final(fastbits).len() == old(fastbits).len(),
        final(u).len() == old(u).len(),
        buckets matches Some(s) ==> final(s).len() == s.len(),
{
    if threads > 1 && n >= 262144 {
        unbwt_init_parallel(t, p, n, freq, i, bucket2, fastbits, buckets, threads);
    } else {
        unbwt_init_single(t, p, n, freq, i, bucket2, fastbits);
    }
    unbwt_decode_omp(t, u, p, n, r, i, bucket2, fastbits, threads);
    0
}

/// A table of `len` zeros.
pub open spec fn zero_index(len: nat) -> Seq<u16> {
    Seq::new(len, |x: int| 0)
}

/// Decodes the first `n` bytes of `t`, transformed, with tables of its own. Returns `0`.
pub fn unbwt_main(
    t: &[u8],
    u: &mut [u8],
    p: &mut [SaUint],
    n: SaSint,
    freq: Option<&[SaSint]>,
    r: SaSint,
    i: &[SaUint],
    threads: SaSint,
) -> (result: SaSint)
    requires
        0 < n <= t.len(),
        n <= old(u).len(),
        n < old(p).len(),
        0 < r,
        i.len() > 0,
        1 <= i@[0] <= n,
        !(threads > 1 && n >= 262144) ==> frequencies_given(prefix(t@, n as int), freq),
        threads > 1 && n >= 262144 ==> threads * (ALPHABET_SIZE + BIGRAMS) <= usize::MAX,
        decoded(t@, main_tables(t@, n as int, i@, old(p)@), n as int, r as int, i@, old(u)@) is Some,
    ensures
        result == 0,
        final(p)@ == main_tables(t@, n as int, i@, old(p)@).next,
        decoded(t@, main_tables(t@, n as int, i@, old(p)@), n as int, r as int, i@, old(u)@) == Some(final(u)@),
        final(p).len() == old(p).len(),
        final(u).len() == old(u).len(),
{
    let shift: usize = find_shift(n as usize);
    let mut bucket2: Vec<SaUint> = vec![0; BIGRAMS];
    proof {
        lemma_word_bits();
        lemma_high_monotone(n as int, n as int, shift as int);
    }
    let mut fastbits: Vec<u16> = vec![0; 1 + shifted(n as usize, shift)];
    assert(fastbits@ =~= zero_index((1 + high(n as int, shift as int)) as nat));
    if threads > 1 && n >= 262144 {
        let mut buckets: Vec<SaUint> = vec![0; threads as usize * (ALPHABET_SIZE + BIGRAMS)];
        unbwt_core(t, u, p, n, freq, r, i, bucket2.as_mut_slice(), fastbits.as_mut_slice(), Some(buckets.as_mut_slice()), threads)
    } else {
        unbwt_core(t, u, p, n, freq, r, i, bucket2.as_mut_slice(), fastbits.as_mut_slice(), None, threads)
    }
}

/// The tables that inverting makes from scratch.
pub open spec fn main_tables(t: Seq<u8>, n: int, i: Seq<u32>, p: Seq<u32>) -> Tables {
    core_tables(t, n, i, p, BIGRAMS as nat, zero_index((1 + high(n, fast_shift(n))) as nat))
}

impl UnbwtContext {
    /// Whether the tables have the sizes that inverting relies on.
    pub open spec fn wf(&self) -> bool {
        &&& self.bucket2.len() == BIGRAMS
        &&& self.fastbits.len() > 131072
        &&& 0 <= self.threads <= i32::MAX
        &&& self.buckets matches Some(s) ==> s.len() >= self.threads * (ALPHABET_SIZE + BIGRAMS)
    }

    /// Whether `after` differs from this context in what its tables hold at most.
    pub open spec fn same_tables(&self, after: &UnbwtContext) -> bool {
        &&& after.wf() == self.wf()
        &&& after.bucket2.len() == self.bucket2.len()
        &&& after.fastbits.len() == self.fastbits.len()
        &&& after.buckets is Some == self.buckets is Some
        &&& after.buckets is Some ==> after.buckets->0.len() == self.buckets->0.len()
        &&& after.threads == self.threads
    }
}

/// Decodes the first `n` bytes of `t`, transformed, with the tables of `ctx`. Returns `0`.
pub fn unbwt_main_ctx(
    ctx: &mut UnbwtContext,
    t: &[u8],
    u: &mut [u8],
    p: &mut [SaUint],
    n: SaSint,
    freq: Option<&[SaSint]>,
    r: SaSint,
    i: &[SaUint],
) -> (result: SaSint)
    requires
        old(ctx).wf(),
        0 < n <= t.len(),
        n <= old(u).len(),
        n < old(p).len(),
        0 < r,
        i.len() > 0,
        1 <= i@[0] <= n,
        !(old(ctx).threads > 1 && n >= 262144) ==> frequencies_given(prefix(t@, n as int), freq),
        decoded(t@, core_tables(t@, n as int, i@, old(p)@, BIGRAMS as nat, old(ctx).fastbits@), n as int, r as int, i@, old(u)@) is Some,
    ensures
        result == 0,
        (Tables { next: final(p)@, ends: final(ctx).bucket2@, fast: final(ctx).fastbits@ })
            == core_tables(t@, n as int, i@, old(p)@, BIGRAMS as nat, old(ctx).fastbits@),
        decoded(t@, core_tables(t@, n as int, i@, old(p)@, BIGRAMS as nat, old(ctx).fastbits@), n as int, r as int, i@, old(u)@)
            == Some(final(u)@),
        old(ctx).same_tables(final(ctx)),
        final(p).len() == old(p).len(),
        final(u).len() == old(u).len(),
{
    proof {
        lemma_shift_fits(n as int);
    }
    let threads: SaSint = ctx.threads as SaSint;
    match &mut ctx.buckets {
        Some(buckets) => unbwt_core(t, u, p, n, freq, r, i, ctx.bucket2.as_mut_slice(), ctx.fastbits.as_mut_slice(), Some(buckets.as_mut_slice()), threads),
        None => unbwt_core(t, u, p, n, freq, r, i, ctx.bucket2.as_mut_slice(), ctx.fastbits.as_mut_slice(), None, threads),
    }
}

/// Leaving out bits keeps the higher part of a length within `2^17`.
pub proof fn lemma_shift_fits(n: int)
    requires
        0 <= n <= i32::MAX,
    ensures
        0 <= high(n, fast_shift(n)) <= 131072,
{
    lemma_shift_bound(n, 0);
    lemma_high_monotone(n, n, fast_shift(n));
    lemma_shift_from_fits(n, 0);
}

/// Leaving out bits from `s` on keeps the higher part of a length within `2^17`.
proof fn lemma_shift_from_fits(n: int, s: int)
    requires
        0 <= n <= i32::MAX,
        0 <= s <= 31,
    ensures
        high(n, shift_from(n, s)) <= 131072,
    decreases 31 - s,
{
    if s < 31 {
        lemma_shift_from_fits(n, s + 1);
    } else {
        vstd::arithmetic::power2::lemma2_to64();
        assert(vstd::arithmetic::power2::pow2(31) == 0x8000_0000);
        vstd::arithmetic::div_mod::lemma_basic_div(n, 0x8000_0000);
    }
}

/// Searching upward from `c` finds the pair `w` of row `p`.
proof fn lemma_resolved(t: Seq<u8>, index: int, b2: Seq<u32>, p: int, c: int, w: int)
    requires
        valid_index(t, index),
        b2.len() >= BIGRAMS,
        forall|v: int| 0 <= v < BIGRAMS ==> #[trigger] b2[v] == bigram_end(t, index, v),
        0 <= c <= w < BIGRAMS,
        bigram_start(t, index, w) <= p < bigram_end(t, index, w),
    ensures
        resolved(b2, p, c) == Some(w),
    decreases w - c,
{
    assert(b2[c] == bigram_end(t, index, c));
    if c < w {
        lemma_bigram_monotone(t, index, c, w);
        lemma_resolved(t, index, b2, p, c + 1, w);
    }
}

/// Searching upward finds some pair.
proof fn lemma_resolved_defined(t: Seq<u8>, index: int, b2: Seq<u32>, p: int, c: int)
    requires
        valid_index(t, index),
        b2.len() >= BIGRAMS,
        forall|v: int| 0 <= v < BIGRAMS ==> #[trigger] b2[v] == bigram_end(t, index, v),
        0 <= c < BIGRAMS,
        0 <= p <= t.len(),
    ensures
        resolved(b2, p, c) is Some,
    decreases 65536 - c,
{
    if c == 65535 {
        lemma_bigram_order(t, index, c);
        assert(b2[c] == bigram_end(t, index, c));
    } else if b2[c] <= p {
        lemma_resolved_defined(t, index, b2, p, c + 1);
    }
}

/// Whether the tables fit the transformed text `t` and invert it.
pub open spec fn ready(t: Seq<u8>, index: int, b: Tables) -> bool {
    &&& valid_index(t, index)
    &&& t.len() <= i32::MAX
    &&& b.next.len() > t.len()
    &&& b.fast.len() > high(t.len() as int, fast_shift(t.len() as int))
    &&& inverts(t, index, b)
}

/// The pair of a row that leads on.
proof fn lemma_symbol(t: Seq<u8>, index: int, b: Tables, r: int)
    requires
        ready(t, index, b),
        0 <= r <= t.len(),
        r != index,
        previous_row(t, index, r) != index,
    ensures
        symbol(b.ends, b.fast, fast_shift(t.len() as int), two_rows_back(t, index, r))
            == Some(256 * row_byte(t, index, previous_row(t, index, r)) + row_byte(t, index, r)),
        0 <= two_rows_back(t, index, r) <= t.len(),
        b.next[two_rows_back(t, index, r)] == r,
{
    let q = previous_row(t, index, r);
    let p = two_rows_back(t, index, r);
    let n = t.len() as int;
    let shift = fast_shift(n);
    let w = 256 * row_byte(t, index, q) + row_byte(t, index, r);
    lemma_shift_bound(n, 0);
    lemma_bigram_of_row(t, index, r);
    lemma_bigram_rows(t, index, w);
    lemma_previous_row_range(t, index, r);
    lemma_previous_row_range(t, index, q);
    lemma_high_monotone(p, n, shift);
    lemma_high_monotone(p, bigram_end(t, index, w) - 1, shift);
    assert(b.fast[high(p, shift)] <= w);
    lemma_resolved(t, index, b.ends, p, b.fast[high(p, shift)] as int, w);
}

/// Decoding is defined from every row on.
proof fn lemma_decode_defined(t: Seq<u8>, index: int, b: Tables, at: int, u: Seq<u8>, row: u32, k: int)
    requires
        ready(t, index, b),
        bounded(b.next, t.len() as int),
        row <= t.len(),
        0 <= at,
        0 <= k,
        at + 2 * k <= u.len(),
    ensures
        decode_run(b, fast_shift(t.len() as int), at, (u, row), k) is Some,
        ({
            let s = decode_run(b, fast_shift(t.len() as int), at, (u, row), k)->0;
            s.0.len() == u.len() && s.1 <= t.len()
        }),
    decreases k,
{
    let n = t.len() as int;
    let shift = fast_shift(n);
    if k > 0 {
        lemma_decode_defined(t, index, b, at, u, row, k - 1);
        let s = decode_run(b, shift, at, (u, row), k - 1)->0;
        lemma_shift_bound(n, 0);
        lemma_high_monotone(s.1 as int, n, shift);
        lemma_resolved_defined(t, index, b.ends, s.1 as int, b.fast[high(s.1 as int, shift)] as int);
        assert(b.next[s.1 as int] <= n);
    }
}

/// Decoding blocks is defined from every choice of rows.
proof fn lemma_blocks_defined(t: Seq<u8>, index: int, b: Tables, r: int, i: Seq<u32>, blocks: int, remainder: int, u: Seq<u8>, hi: int)
    requires
        ready(t, index, b),
        bounded(b.next, t.len() as int),
        0 <= hi <= blocks <= i.len(),
        0 < r,
        1 <= remainder <= r,
        (blocks - 1) * r + remainder <= u.len(),
        forall|j: int| 0 <= j < blocks ==> #[trigger] i[j] <= t.len(),
    ensures
        blocks_run(b, fast_shift(t.len() as int), r, i, blocks, remainder, u, hi) is Some,
        blocks_run(b, fast_shift(t.len() as int), r, i, blocks, remainder, u, hi)->0.len() == u.len(),
    decreases hi,
{
    if hi > 0 {
        lemma_blocks_defined(t, index, b, r, i, blocks, remainder, u, hi - 1);
        let j = hi - 1;
        let x = blocks_run(b, fast_shift(t.len() as int), r, i, blocks, remainder, u, j)->0;
        let k = (if j < blocks - 1 { r } else { remainder }) / 2;
        assert(0 <= j * r && j * r + 2 * k <= u.len()) by (nonlinear_arith)
            requires
                0 <= j < blocks,
                0 < r,
                1 <= remainder,
                k == (if j < blocks - 1 { r } else { remainder }) / 2,
                (blocks - 1) * r + remainder <= u.len(),
        ;
        assert(i[j] <= t.len());
        lemma_decode_defined(t, index, b, j * r, x, i[j], k);
    }
}

/// Decoding the transform of `x` from the row of a suffix on gives the bytes of `x`.
proof fn lemma_decode_text(x: Seq<u8>, sa: Seq<i32>, t: Seq<u8>, index: int, b: Tables, at: int, u: Seq<u8>, s: int, row: u32, k: int)
    requires
        bwt_from(x, sa, t, index),
        t.len() == x.len(),
        ready(t, index, b),
        0 <= row <= t.len(),
        suffix_in_row(sa, row as int) == s,
        0 <= at,
        0 <= k,
        at + 2 * k <= u.len(),
        0 <= s,
        s + 2 * k <= x.len(),
    ensures
        decode_run(b, fast_shift(t.len() as int), at, (u, row), k) is Some,
        ({
            let z = decode_run(b, fast_shift(t.len() as int), at, (u, row), k)->0;
            &&& z.0.len() == u.len()
            &&& 0 <= z.1 <= t.len()
            &&& suffix_in_row(sa, z.1 as int) == s + 2 * k
            &&& forall|y: int| 0 <= y < u.len() ==> #[trigger] z.0[y] == (if at <= y < at + 2 * k { x[s + (y - at)] } else { u[y] })
        }),
    decreases k,
{
    let n = t.len() as int;
    let shift = fast_shift(n);
    if k > 0 {
        lemma_decode_text(x, sa, t, index, b, at, u, s, row, k - 1);
        let z = decode_run(b, shift, at, (u, row), k - 1)->0;
        let e = s + 2 * (k - 1);
        let far = lemma_row_of_suffix(text8(x), sa, e + 2);
        if far == index {
            lemma_row_byte(x, sa, t, index, if index == 1 { 0 } else { 1 });
        }
        lemma_row_byte(x, sa, t, index, far);
        law_previous_row(x, sa, t, index, far);
        lemma_previous_row_range(t, index, far);
        let q = previous_row(t, index, far);
        if q == index {
            lemma_row_byte(x, sa, t, index, far);
        }
        lemma_row_byte(x, sa, t, index, q);
        law_previous_row(x, sa, t, index, q);
        lemma_previous_row_range(t, index, q);
        lemma_row_unique(text8(x), sa, previous_row(t, index, q), z.1 as int);
        lemma_symbol(t, index, b, far);
        let w = 256 * row_byte(t, index, q) + row_byte(t, index, far);
        assert(w / 256 == x[e] && w % 256 == x[e + 1]);
        assert(decode_step(b, shift, at)(z, k - 1) is Some);
    }
}

/// Decoding the blocks of the transform of `x` gives the bytes of `x`.
proof fn lemma_blocks_text(x: Seq<u8>, sa: Seq<i32>, t: Seq<u8>, index: int, b: Tables, r: int, i: Seq<u32>, u: Seq<u8>, hi: int)
    requires
        bwt_from(x, sa, t, index),
        t.len() == x.len(),
        u.len() >= x.len(),
        ready(t, index, b),
        0 < r,
        r == x.len() || r % 2 == 0,
        0 <= hi <= sample_count(x.len() as int, r) <= i.len(),
        forall|j: int| 0 <= j < sample_count(x.len() as int, r) ==> 0 <= #[trigger] i[j] <= x.len() && suffix_in_row(sa, i[j] as int) == j * r,
    ensures
        ({
            let n = x.len() as int;
            let blocks = sample_count(n, r);
            let z = blocks_run(b, fast_shift(n), r, i, blocks, last_block(n, r), u, hi);
            &&& z is Some
            &&& z->0.len() == u.len()
            &&& forall|y: int| 0 <= y < (if hi < blocks { hi * r } else { n - n % 2 }) ==> #[trigger] z->0[y] == x[y]
            &&& forall|y: int| n <= y < u.len() ==> #[trigger] z->0[y] == u[y]
        }),
    decreases hi,
{
    let n = x.len() as int;
    let blocks = sample_count(n, r);
    let remainder = last_block(n, r);
    lemma_last_block(n, r);
    if hi > 0 {
        lemma_blocks_text(x, sa, t, index, b, r, i, u, hi - 1);
        let j = hi - 1;
        let z = blocks_run(b, fast_shift(n), r, i, blocks, remainder, u, j)->0;
        let k = (if j < blocks - 1 { r } else { remainder }) / 2;
        assert(0 <= j * r && j * r + 2 * k <= n && (j + 1) * r == j * r + r) by (nonlinear_arith)
            requires
                0 <= j < blocks,
                0 < r,
                1 <= remainder,
                remainder == n - r * (blocks - 1),
                k == (if j < blocks - 1 { r } else { remainder }) / 2,
        ;
        assert(0 <= i[j] <= n && suffix_in_row(sa, i[j] as int) == j * r);
        lemma_decode_text(x, sa, t, index, b, j * r, z, j * r, i[j], k);
        if hi < blocks {
            if r == n {
                assert((blocks - 1) * r >= r) by (nonlinear_arith)
                    requires
                        blocks >= 2,
                        r > 0,
                ;
            }
            assert(2 * k == r);
        } else {
            assert((blocks - 1) * r + 2 * k == n - n % 2) by {
                if r != n {
                    let h = r / 2;
                    assert((blocks - 1) * r == 2 * ((blocks - 1) * h)) by (nonlinear_arith)
                        requires
                            r == 2 * h,
                    ;
                } else if blocks > 1 {
                    assert((blocks - 1) * r >= r) by (nonlinear_arith)
                        requires
                            blocks >= 2,
                            r > 0,
                    ;
                } else {
                    assert((blocks - 1) * r == 0) by (nonlinear_arith)
                        requires
                            blocks == 1,
                    ;
                }
            }
        }
    }
}

/// Decoding the transform of `x` gives `x`, and leaves what stands behind it.
proof fn lemma_decoded_text(x: Seq<u8>, sa: Seq<i32>, t: Seq<u8>, index: int, b: Tables, r: int, i: Seq<u32>, u: Seq<u8>)
    requires
        bwt_from(x, sa, t, index),
        t.len() == x.len(),
        u.len() >= x.len(),
        ready(t, index, b),
        0 < r,
        r == x.len() || r % 2 == 0,
        sample_count(x.len() as int, r) <= i.len(),
        forall|j: int| 0 <= j < sample_count(x.len() as int, r) ==> 0 <= #[trigger] i[j] <= x.len() && suffix_in_row(sa, i[j] as int) == j * r,
    ensures
        ({
            let z = decoded(t, b, x.len() as int, r, i, u);
            z is Some && z->0.len() == u.len() && z->0.subrange(0, x.len() as int) == x
        }),
{
    let n = x.len() as int;
    lemma_blocks_text(x, sa, t, index, b, r, i, u, sample_count(n, r));
    lemma_row_byte(x, sa, t, index, 0);
    let z = decoded(t, b, n, r, i, u)->0;
    assert(z.subrange(0, n) =~= x);
}

/// The rows that the samples name.
pub open spec fn as_rows(i: Seq<i32>, count: int) -> Seq<u32> {
    Seq::new(count as nat, |k: int| i[k] as u32)
}

/// A table of `len` zeros.
pub open spec fn zero_rows(len: nat) -> Seq<u32> {
    Seq::new(len, |x: int| 0)
}

/// Whether the samples of a text of length `n` at rate `r` are rows.
pub open spec fn samples_valid(n: int, r: int, i: Seq<i32>) -> bool {
    forall|k: int| 0 <= k < sample_count(n, r) ==> 1 <= #[trigger] i[k] <= n
}

/// Whether inverting a transformed text of length `n` refuses its arguments.
pub open spec fn refused(n: int, u: int, a: int, freq: Option<&[i32]>, r: i32, i: Seq<i32>) -> bool {
    ||| u < n
    ||| a < n
    ||| (freq matches Some(f) && f.len() < ALPHABET_SIZE)
    ||| (r != n && !valid_rate(r))
    ||| i.len() < sample_count(n, r as int)
    ||| (n <= 1 && i[0] != n)
    ||| (n >= 2 && !samples_valid(n, r as int, i))
}

/// The rows of `next` in place of the first `n` entries of `a`.
pub open spec fn rows_written(a: Seq<i32>, next: Seq<u32>, n: int) -> Seq<i32> {
    Seq::new(a.len(), |k: int| if k < n { next[k] as i32 } else { a[k] })
}

/// What inverting the transformed text `t` leaves in `u` and `a`, where it starts from the
/// index `f`.
pub open spec fn inverted(t: Seq<u8>, r: int, i: Seq<i32>, f: Seq<u16>, u0: Seq<u8>, a0: Seq<i32>, u: Seq<u8>, a: Seq<i32>) -> bool {
    let n = t.len() as int;
    let rows = as_rows(i, sample_count(n, r));
    let b = core_tables(t, n, rows, zero_rows((n + 1) as nat), BIGRAMS as nat, f);
    if n == 0 {
        u == u0 && a == a0
    } else if n == 1 {
        u == u0.update(0, t[0]) && a == a0
    } else {
        decoded(t, b, n, r, rows, u0) == Some(u) && a == rows_written(a0, b.next, n)
    }
}

/// The index that inverting starts from when it brings its own.
pub open spec fn fresh_index(n: int) -> Seq<u16> {
    zero_index((1 + high(n, fast_shift(n))) as nat)
}

/// A rate is the length of the text, or even.
proof fn lemma_rate_even(r: i32)
    requires
        valid_rate(r),
    ensures
        r % 2 == 0,
{
    assert(r >= 2 && r & ((r - 1) as i32) == 0 ==> r % 2 == 0) by (bit_vector);
}

/// Inverting gives back the text whose transform was taken.
pub proof fn law_round_trip(x: Seq<u8>, t: Seq<u8>, r: i32, i: Seq<i32>, f: Seq<u16>, u0: Seq<u8>, a0: Seq<i32>, u: Seq<u8>, a: Seq<i32>)
    requires
        x.len() == t.len(),
        0 < t.len() <= i32::MAX,
        r == t.len() || valid_rate(r),
        u0.len() >= t.len(),
        f.len() > high(t.len() as int, fast_shift(t.len() as int)),
        is_bwt_aux(x, t, r as int, i),
        inverted(t, r as int, i, f, u0, a0, u, a),
    ensures
        u.len() == u0.len(),
        u.subrange(0, x.len() as int) == x,
{
    let n = t.len() as int;
    let sa = choose|sa: Seq<i32>| bwt_from(x, sa, t, i[0] as int) && samples_from(sa, n, r as int, i);
    let index = i[0] as int;
    lemma_last_block(n, r as int);
    if n == 1 {
        lemma_row_byte(x, sa, t, index, 0);
        assert(u.subrange(0, n) =~= x);
    } else {
        let rows = as_rows(i, sample_count(n, r as int));
        let p = zero_rows((n + 1) as nat);
        let b = core_tables(t, n, rows, p, BIGRAMS as nat, f);
        assert(prefix(t, n) =~= t);
        assert forall|j: int| 0 <= j < sample_count(n, r as int) implies 0 <= #[trigger] rows[j] <= n && suffix_in_row(sa, rows[j] as int) == j * r by {
            assert(j * r < n) by (nonlinear_arith)
                requires
                    0 <= j <= sample_count(n, r as int) - 1,
                    r * (sample_count(n, r as int) - 1) < n,
                    r > 0,
            ;
        }
        assert(rows[0] == index);
        lemma_tables(t, index, p, BIGRAMS as nat, f);
        if r != n {
            lemma_rate_even(r);
        }
        lemma_decoded_text(x, sa, t, index, b, r as int, rows, u0);
    }
}

/// Two texts with the same transform and primary index are the same.
pub proof fn law_transform_injective(x: Seq<u8>, y: Seq<u8>, t: Seq<u8>, index: int)
    requires
        x.len() == t.len(),
        y.len() == t.len(),
        t.len() <= i32::MAX,
        is_bwt(x, t, index),
        is_bwt(y, t, index),
    ensures
        x == y,
{
    let n = t.len() as int;
    if n == 0 {
        assert(x =~= y);
    } else {
        let r = n as i32;
        let i = seq![index as i32];
        let f = fresh_index(n);
        lemma_last_block(n, n);
        lemma_shift_bound(n, 0);
        lemma_high_monotone(n, n, fast_shift(n));
        assert(sample_count(n, n) == 1) by {
            vstd::arithmetic::div_mod::lemma_basic_div(n - 1, n);
        }
        let xs = choose|sa: Seq<i32>| bwt_from(x, sa, t, index);
        let ys = choose|sa: Seq<i32>| bwt_from(y, sa, t, index);
        lemma_whole_text_sampled(x, xs, t, index);
        lemma_whole_text_sampled(y, ys, t, index);
        let p = zero_rows((n + 1) as nat);
        let rows = as_rows(i, 1);
        assert(prefix(t, n) =~= t);
        assert(rows[0] == index);
        lemma_tables(t, index, p, BIGRAMS as nat, f);
        let b = core_tables(t, n, rows, p, BIGRAMS as nat, f);
        lemma_blocks_defined(t, index, b, n, rows, 1, last_block(n, n), t, 1);
        let u = if n == 1 { t.update(0, t[0]) } else { decoded(t, b, n, n, rows, t)->0 };
        let a0 = Seq::<i32>::empty();
        let a = if n == 1 { a0 } else { rows_written(a0, b.next, n) };
        law_round_trip(x, t, r, i, f, t, a0, u, a);
        law_round_trip(y, t, r, i, f, t, a0, u, a);
    }
}

/// At the rate of its length, the samples of a text are its primary index.
pub proof fn lemma_whole_text_sampled(x: Seq<u8>, sa: Seq<i32>, t: Seq<u8>, index: int)
    requires
        bwt_from(x, sa, t, index),
        0 < x.len() <= i32::MAX,
    ensures
        is_bwt_aux(x, t, x.len() as int, seq![index as i32]),
{
    let n = x.len() as int;
    let i = seq![index as i32];
    vstd::arithmetic::div_mod::lemma_basic_div(n - 1, n);
    assert(samples_from(sa, n, n, i)) by {
        assert forall|k: int| 0 <= k && #[trigger] (k * n) < n implies 0 <= k < i.len() && 1 <= i[k] <= n && sa[i[k] - 1] == k * n by {
            assert(k == 0) by (nonlinear_arith)
                requires
                    k * n < n,
                    0 <= k,
                    n > 0,
            ;
        }
    }
    assert(bwt_from(x, sa, t, i[0] as int) && samples_from(sa, n, n, i));
}

/// Inverting is defined for every transformed text and every choice of rows as samples.
pub proof fn lemma_decodable(t: Seq<u8>, r: int, rows: Seq<u32>, f: Seq<u16>, u: Seq<u8>)
    requires
        0 < t.len() <= i32::MAX,
        0 < r,
        u.len() >= t.len(),
        f.len() > high(t.len() as int, fast_shift(t.len() as int)),
        rows.len() == sample_count(t.len() as int, r),
        forall|j: int| 0 <= j < rows.len() ==> 1 <= #[trigger] rows[j] <= t.len(),
    ensures
        ({
            let n = t.len() as int;
            let p = zero_rows((n + 1) as nat);
            let b = core_tables(t, n, rows, p, BIGRAMS as nat, f);
            &&& tables_fit(n, p, BIGRAMS as nat, f)
            &&& decoded(t, b, n, r, rows, u) is Some
            &&& bounded(b.next, n)
            &&& b.next.len() == n + 1
        }),
{
    let n = t.len() as int;
    let p = zero_rows((n + 1) as nat);
    assert(prefix(t, n) =~= t);
    lemma_last_block(n, r);
    assert(1 <= rows[0] <= n);
    lemma_tables(t, rows[0] as int, p, BIGRAMS as nat, f);
    let b = core_tables(t, n, rows, p, BIGRAMS as nat, f);
    assert forall|j: int| 0 <= j < rows.len() implies #[trigger] rows[j] <= n by {}
    lemma_blocks_defined(t, rows[0] as int, b, r, rows, rows.len() as int, last_block(n, r), u, rows.len() as int);
}

/// With the tables of the transformed text `t`, decoding is defined from every choice of rows,
/// whatever number of workers is given, and the last byte of the text is the first of `t`.
pub proof fn law_decoded_last_byte(t: Seq<u8>, r: int, i: Seq<u32>, p: Seq<u32>, f: Seq<u16>, u: Seq<u8>)
    requires
        tables_fit(t.len() as int, p, BIGRAMS as nat, f),
        bounded(p, t.len() as int),
        0 < r,
        t.len() <= u.len(),
        sample_count(t.len() as int, r) <= i.len(),
        1 <= i[0],
        forall|j: int| 0 <= j < sample_count(t.len() as int, r) ==> #[trigger] i[j] <= t.len(),
    ensures
        ({
            let n = t.len() as int;
            let x = decoded(t, core_tables(t, n, i, p, BIGRAMS as nat, f), n, r, i, u);
            &&& x is Some
            &&& x->0.len() == u.len()
            &&& x->0[n - 1] == t[0]
        }),
{
    let n = t.len() as int;
    assert(prefix(t, n) =~= t);
    lemma_last_block(n, r);
    assert(i[0] <= n);
    lemma_tables(t, i[0] as int, p, BIGRAMS as nat, f);
    let b = core_tables(t, n, i, p, BIGRAMS as nat, f);
    lemma_blocks_defined(t, i[0] as int, b, r, i, sample_count(n, r), last_block(n, r), u, sample_count(n, r));
}

/// With tables that invert the transformed text `t`, decoding blocks is defined from every
/// choice of rows.
pub proof fn law_decoding_defined(t: Seq<u8>, index: int, b: Tables, r: int, i: Seq<u32>, blocks: int, remainder: int, u: Seq<u8>)
    requires
        ready(t, index, b),
        bounded(b.next, t.len() as int),
        0 <= blocks <= i.len(),
        0 < r,
        1 <= remainder <= r,
        (blocks - 1) * r + remainder <= u.len(),
        forall|j: int| 0 <= j < blocks ==> #[trigger] i[j] <= t.len(),
    ensures
        blocks_run(b, fast_shift(t.len() as int), r, i, blocks, remainder, u, blocks) is Some,
        blocks_run(b, fast_shift(t.len() as int), r, i, blocks, remainder, u, blocks)->0.len() == u.len(),
{
    lemma_blocks_defined(t, index, b, r, i, blocks, remainder, u, blocks);
}

} // verus!
