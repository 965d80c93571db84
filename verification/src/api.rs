//! The functions that sort suffixes and transform texts.

use vstd::prelude::*;
use vstd::slice::slice_subrange;
use crate::blocks::workers;
use crate::bytes::{
    bwt_byte, bwt_from, count_bytes, frequencies, is_bwt, is_bwt_aux, occurrences, sample_count, samples_from,
    separated_text, valid_rate, well_separated,
};
use crate::gather::{text32, text8};
use crate::main_8u::{
    fronts, libsais_main, libsais_main_ctx, libsais_main_int, refused_by, refused_in, refused_slots, transform_8u,
};
use crate::order::{is_suffix_array, law_suffix_array_unique, lemma_suffix_array_distinct};
use crate::sampling::samples_kept;
use crate::types::{
    separated, Context, SaSint, ALPHABET_SIZE, LIBSAIS_FLAGS_GSA, LIBSAIS_FLAGS_NONE,
};

verus! {

/// The flags ask for separated texts just where they should.
proof fn lemma_flags()
    ensures
        !separated(LIBSAIS_FLAGS_NONE),
        separated(LIBSAIS_FLAGS_GSA),
{
    assert(0i32 & 2i32 == 0) by (bit_vector);
    assert(2i32 & 2i32 != 0) by (bit_vector);
}

/// What is left of the slots behind the first `n + fs`: nothing changes there.
pub open spec fn rest_kept(before: Seq<i32>, after: Seq<i32>, n: int, fs: int) -> bool {
    &&& after.len() == before.len()
    &&& forall|i: int| n + (if fs > 0 { fs } else { 0 }) <= i < before.len() ==> #[trigger] after[i] == before[i]
}

/// Whether a frequency table is given that is too short.
pub open spec fn short_table(freq: Option<&mut [SaSint]>) -> bool {
    freq matches Some(f) && f.len() < ALPHABET_SIZE
}

/// Whether `slots` do not hold the suffix array of a text of length `n` and `fs` spare slots,
/// or the frequency table is too short.
pub open spec fn sort_refused(n: int, slots: int, fs: int, freq: Option<&mut [SaSint]>) -> bool {
    fs < 0 || slots < n + fs || short_table(freq)
}

/// Whether a text of length `n` cannot be transformed: its `bytes` are too few, or its
/// suffixes cannot be sorted in `slots`.
pub open spec fn bwt_refused(n: int, bytes: int, slots: int, fs: int, freq: Option<&mut [SaSint]>) -> bool {
    bytes < n || sort_refused(n, slots, fs, freq)
}

/// Whether `r` is no sampling rate, or `slots` do not hold the samples of a text of length `n`.
pub open spec fn samples_refused(n: int, r: i32, slots: int) -> bool {
    !valid_rate(r) || slots < sample_count(n, r as int)
}

/// Whether the last of the texts in `t` is not closed.
pub open spec fn unclosed(t: Seq<u8>) -> bool {
    t.len() > 0 && t[t.len() - 1] != 0
}

/// Whether `sa` starts with the suffix array of `t`.
pub open spec fn sorts(t: Seq<int>, sa: Seq<i32>) -> bool {
    t.len() <= sa.len() && is_suffix_array(t, sa.subrange(0, t.len() as int))
}

/// The transform of a text of at most one byte is that text.
proof fn lemma_short_bwt(t: Seq<u8>, u: Seq<u8>)
    requires
        t.len() <= 1,
        t.len() <= u.len(),
        t.len() == 1 ==> u[0] == t[0],
    ensures
        is_bwt(t, u, t.len() as int),
        t.len() == 1 ==> bwt_from(t, seq![0i32], u, 1),
{
    if t.len() == 1 {
        assert(bwt_from(t, seq![0i32], u, 1));
    }
}

/// The one sample of a text of at most one byte is its length.
proof fn lemma_short_samples(t: Seq<u8>, u: Seq<u8>, r: int, samples: Seq<i32>)
    requires
        t.len() <= 1,
        t.len() == 1 ==> bwt_from(t, seq![0i32], u, 1),
        2 <= r,
        samples.len() >= sample_count(t.len() as int, r),
        samples.len() > 0,
        samples[0] == t.len(),
    ensures
        is_bwt_aux(t, u, r, samples),
{
    if t.len() == 1 {
        assert(samples_from(seq![0i32], 1, r, samples)) by {
            assert forall|k: int| 0 <= k && #[trigger] (k * r) < 1 implies k == 0 by {
                assert(k <= 0) by (nonlinear_arith)
                    requires
                        k * r < 1,
                        r >= 2,
                        0 <= k,
                ;
            }
        }
    }
}

/// Fills the frequency table where there is one.
fn fill_table(t: &[u8], freq: Option<&mut [SaSint]>)
    requires
        t.len() <= i32::MAX,
        freq matches Some(f) ==> f.len() >= ALPHABET_SIZE,
    ensures
        freq matches Some(f) ==> frequencies(t@, f@, final(f)@),
{
    match freq {
        Some(f) => {
            count_bytes(t, f);
        },
        None => {},
    }
}

/// Whether the frequency table, where there is one, is too short.
fn table_too_short(freq: &Option<&mut [SaSint]>) -> (r: bool)
    ensures
        r == short_table(*freq),
{
    match freq {
        Some(f) => f.len() < ALPHABET_SIZE,
        None => false,
    }
}

/// Whether `r` is a sampling rate.
fn is_rate(r: SaSint) -> (ok: bool)
    ensures
        ok == valid_rate(r),
{
    r >= 2 && (r & (r - 1)) == 0
}

/// Whether `len` slots hold `n` entries and `fs` spare ones.
fn holds(len: usize, n: usize, fs: SaSint) -> (r: bool)
    requires
        0 <= fs,
    ensures
        r == (len >= n + fs),
{
    n <= len && len - n >= fs as usize
}

/// Writes the suffix array of `t` into the first slots of `sa`, and how often each byte
/// occurs into `freq` where it is given. The `fs` slots behind are scratch.
///
/// Returns `0`, or `-1` where an argument does not fit.
pub fn libsais(
    t: &[u8],
    sa: &mut [SaSint],
    fs: SaSint,
    freq: Option<&mut [SaSint]>,
) -> (r: SaSint)
    requires
        !sort_refused(t.len() as int, old(sa).len() as int, fs as int, freq) ==> t.len() <= i32::MAX,
    ensures
        r == (if sort_refused(t.len() as int, old(sa).len() as int, fs as int, freq) {
            -1int
        } else {
            0
        }),
        r == 0 ==> sorts(text8(t@), final(sa)@),
        r != 0 ==> final(sa)@ == old(sa)@,
        freq matches Some(f) ==> if r != 0 {
            final(f)@ == f@
        } else {
            frequencies(t@, f@, final(f)@)
        },
        rest_kept(old(sa)@, final(sa)@, t.len() as int, fs as int),
{
    let n: usize = t.len();
    if fs < 0 || !holds(sa.len(), t.len(), fs) || table_too_short(&freq) {
        return -1;
    }
    if n <= 1 {
        fill_table(t, freq);
        if n == 1 {
            sa[0] = 0;
        }
        assert(sorts(text8(t@), sa@));
        return 0;
    }
    proof {
        lemma_flags();
    }
    fill_table(t, freq);
    libsais_main(t, sa, LIBSAIS_FLAGS_NONE, fs, 1)
}

/// Writes the suffix array of separated texts into the first slots of `sa`, and how often
/// each byte occurs into `freq` where it is given. The `fs` slots behind are scratch.
///
/// Returns `0`, or `-1` where an argument does not fit or `t` is not made of texts, none of
/// them empty, that are closed by a zero byte each.
pub fn libsais_gsa(
    t: &[u8],
    sa: &mut [SaSint],
    fs: SaSint,
    freq: Option<&mut [SaSint]>,
) -> (r: SaSint)
    requires
        !(sort_refused(t.len() as int, old(sa).len() as int, fs as int, freq) || unclosed(t@)) ==> t.len() <= i32::MAX,
    ensures
        r == (if sort_refused(t.len() as int, old(sa).len() as int, fs as int, freq) || unclosed(t@) {
            -1int
        } else if t.len() >= 2 && !well_separated(t@) {
            -1
        } else {
            0
        }),
        r == 0 ==> sorts(separated_text(t@), final(sa)@),
        (sort_refused(t.len() as int, old(sa).len() as int, fs as int, freq) || unclosed(t@)) ==> final(sa)@ == old(sa)@,
        !(sort_refused(t.len() as int, old(sa).len() as int, fs as int, freq) || unclosed(t@)) && r == -1
            ==> final(sa)@ == refused_slots(t@, old(sa)@),
        freq matches Some(f) ==> if sort_refused(t.len() as int, old(sa).len() as int, fs as int, freq) || unclosed(t@) {
            final(f)@ == f@
        } else {
            frequencies(t@, f@, final(f)@)
        },
        rest_kept(old(sa)@, final(sa)@, t.len() as int, fs as int),
{
    let n: usize = t.len();
    if fs < 0 || !holds(sa.len(), t.len(), fs) || table_too_short(&freq) {
        return -1;
    }
    if n > 0 && t[n - 1] != 0 {
        return -1;
    }
    if n <= 1 {
        fill_table(t, freq);
        if n == 1 {
            sa[0] = 0;
        }
        assert(sorts(separated_text(t@), sa@));
        return 0;
    }
    proof {
        lemma_flags();
    }
    fill_table(t, freq);
    libsais_main(t, sa, LIBSAIS_FLAGS_GSA, fs, 1)
}

/// Does what [`libsais`] does, in the storage of `ctx`.
///
/// Returns `-2` where the context has no buckets of the right size.
pub fn libsais_ctx(
    ctx: &mut Context,
    t: &[u8],
    sa: &mut [SaSint],
    fs: SaSint,
    freq: Option<&mut [SaSint]>,
) -> (r: SaSint)
    requires
        !sort_refused(t.len() as int, old(sa).len() as int, fs as int, freq) ==> t.len() <= i32::MAX,
    ensures
        r == (if sort_refused(t.len() as int, old(sa).len() as int, fs as int, freq) {
            -1int
        } else if t.len() >= 2 && !old(ctx).has_buckets() {
            -2
        } else {
            0
        }),
        r == 0 ==> sorts(text8(t@), final(sa)@),
        r != 0 ==> final(sa)@ == old(sa)@,
        freq matches Some(f) ==> if r != 0 {
            final(f)@ == f@
        } else {
            frequencies(t@, f@, final(f)@)
        },
        rest_kept(old(sa)@, final(sa)@, t.len() as int, fs as int),
        r != 0 || t.len() <= 1 ==> *final(ctx) == *old(ctx),
        old(ctx).same_shape(final(ctx), t.len() as int),
{
    let n: usize = t.len();
    if fs < 0 || !holds(sa.len(), t.len(), fs) || table_too_short(&freq) {
        return -1;
    }
    if n <= 1 {
        fill_table(t, freq);
        if n == 1 {
            sa[0] = 0;
        }
        assert(sorts(text8(t@), sa@));
        return 0;
    }
    if ctx.buckets.len() != 8 * ALPHABET_SIZE {
        return -2;
    }
    proof {
        lemma_flags();
    }
    fill_table(t, freq);
    libsais_main_ctx(ctx, t, sa, LIBSAIS_FLAGS_NONE, fs)
}

/// Does what [`libsais_gsa`] does, in the storage of `ctx`.
///
/// Returns `-2` where the context has no buckets of the right size.
pub fn libsais_gsa_ctx(
    ctx: &mut Context,
    t: &[u8],
    sa: &mut [SaSint],
    fs: SaSint,
    freq: Option<&mut [SaSint]>,
) -> (r: SaSint)
    requires
        !(sort_refused(t.len() as int, old(sa).len() as int, fs as int, freq) || unclosed(t@)) ==> t.len() <= i32::MAX,
    ensures
        r == (if sort_refused(t.len() as int, old(sa).len() as int, fs as int, freq) || unclosed(t@) {
            -1int
        } else if t.len() >= 2 && !old(ctx).has_buckets() {
            -2
        } else if t.len() >= 2 && !well_separated(t@) {
            -1
        } else {
            0
        }),
        r == 0 ==> sorts(separated_text(t@), final(sa)@),
        (sort_refused(t.len() as int, old(sa).len() as int, fs as int, freq) || unclosed(t@)) || r == -2 ==> final(sa)@ == old(sa)@,
        !(sort_refused(t.len() as int, old(sa).len() as int, fs as int, freq) || unclosed(t@)) && r == -1
            && old(ctx).can_share(t.len() as int) ==> refused_in(t@, old(sa)@, final(sa)@, old(ctx), final(ctx)),
        freq matches Some(f) ==> if (sort_refused(t.len() as int, old(sa).len() as int, fs as int, freq) || unclosed(t@)) || r == -2 {
            final(f)@ == f@
        } else {
            frequencies(t@, f@, final(f)@)
        },
        rest_kept(old(sa)@, final(sa)@, t.len() as int, fs as int),
        sort_refused(t.len() as int, old(sa).len() as int, fs as int, freq) || unclosed(t@) || r == -2 || t.len() <= 1 ==> *final(ctx) == *old(ctx),
        old(ctx).same_shape(final(ctx), t.len() as int),
{
    let n: usize = t.len();
    if fs < 0 || !holds(sa.len(), t.len(), fs) || table_too_short(&freq) {
        return -1;
    }
    if n > 0 && t[n - 1] != 0 {
        return -1;
    }
    if n <= 1 {
        fill_table(t, freq);
        if n == 1 {
            sa[0] = 0;
        }
        assert(sorts(separated_text(t@), sa@));
        return 0;
    }
    if ctx.buckets.len() != 8 * ALPHABET_SIZE {
        return -2;
    }
    proof {
        lemma_flags();
    }
    fill_table(t, freq);
    libsais_main_ctx(ctx, t, sa, LIBSAIS_FLAGS_GSA, fs)
}

/// Writes the suffix array of `t` into the first slots of `sa`, and how often each byte
/// occurs into `freq` where it is given. The result does not depend on `threads`.
///
/// Returns `0`, or `-1` where an argument does not fit.
pub fn libsais_omp(
    t: &[u8],
    sa: &mut [SaSint],
    fs: SaSint,
    freq: Option<&mut [SaSint]>,
    threads: SaSint,
) -> (r: SaSint)
    requires
        !(threads < 0 || short_table(freq)) ==> t.len() <= i32::MAX && t.len() <= old(sa).len(),
    ensures
        r == (if threads < 0 || short_table(freq) {
            -1int
        } else {
            0
        }),
        r == 0 ==> sorts(text8(t@), final(sa)@),
        r != 0 ==> final(sa)@ == old(sa)@,
        freq matches Some(f) ==> if r != 0 {
            final(f)@ == f@
        } else {
            frequencies(t@, f@, final(f)@)
        },
        rest_kept(old(sa)@, final(sa)@, t.len() as int, fs as int),
{
    let n: usize = t.len();
    if threads < 0 || table_too_short(&freq) {
        return -1;
    }
    if n <= 1 {
        fill_table(t, freq);
        if n == 1 {
            sa[0] = 0;
        }
        assert(sorts(text8(t@), sa@));
        return 0;
    }
    proof {
        lemma_flags();
    }
    fill_table(t, freq);
    libsais_main(t, sa, LIBSAIS_FLAGS_NONE, fs, threads)
}

/// Writes the suffix array of separated texts into the first slots of `sa`, and how often
/// each byte occurs into `freq` where it is given. The result does not depend on `threads`.
///
/// Returns `0`, or `-1` where an argument does not fit or `t` is not made of texts, none of
/// them empty, that are closed by a zero byte each.
pub fn libsais_gsa_omp(
    t: &[u8],
    sa: &mut [SaSint],
    fs: SaSint,
    freq: Option<&mut [SaSint]>,
    threads: SaSint,
) -> (r: SaSint)
    requires
        !(threads < 0 || short_table(freq) || unclosed(t@)) ==> t.len() <= i32::MAX && t.len() <= old(sa).len(),
    ensures
        r == (if threads < 0 || short_table(freq) || unclosed(t@) {
            -1int
        } else if t.len() >= 2 && !well_separated(t@) {
            -1
        } else {
            0
        }),
        r == 0 ==> sorts(separated_text(t@), final(sa)@),
        (threads < 0 || short_table(freq) || unclosed(t@)) ==> final(sa)@ == old(sa)@,
        !(threads < 0 || short_table(freq) || unclosed(t@)) && r == -1 && (threads > 0 || t.len() < 65536)
            ==> final(sa)@ == refused_by(t@, old(sa)@, workers(threads as int, t.len() >= 65536, threads as int)),
        freq matches Some(f) ==> if threads < 0 || short_table(freq) || unclosed(t@) {
            final(f)@ == f@
        } else {
            frequencies(t@, f@, final(f)@)
        },
        rest_kept(old(sa)@, final(sa)@, t.len() as int, fs as int),
{
    let n: usize = t.len();
    if threads < 0 || table_too_short(&freq) {
        return -1;
    }
    if n > 0 && t[n - 1] != 0 {
        return -1;
    }
    if n <= 1 {
        fill_table(t, freq);
        if n == 1 {
            sa[0] = 0;
        }
        assert(sorts(separated_text(t@), sa@));
        return 0;
    }
    proof {
        lemma_flags();
    }
    fill_table(t, freq);
    libsais_main(t, sa, LIBSAIS_FLAGS_GSA, fs, threads)
}

/// Writes the suffix array of `t`, a text over the symbols below `k`, into the first slots of
/// `sa`. The text is left as it was; the `fs` slots behind are scratch.
///
/// Returns `0`, or `-1` where an argument does not fit.
pub fn libsais_int(t: &mut [SaSint], sa: &mut [SaSint], k: SaSint, fs: SaSint) -> (r: SaSint)
    requires
        !(fs < 0 || old(sa).len() < old(t).len() + fs) ==> old(t).len() <= i32::MAX,
    ensures
        r == (if fs < 0 || old(sa).len() < old(t).len() + fs { -1int } else { 0 }),
        r == -1 ==> final(sa)@ == old(sa)@,
        r == 0 ==> sorts(text32(old(t)@), final(sa)@),
        final(t)@ == old(t)@,
        rest_kept(old(sa)@, final(sa)@, old(t).len() as int, fs as int),
{
    if fs < 0 || !holds(sa.len(), t.len(), fs) {
        return -1;
    }
    if t.len() <= 1 {
        if t.len() == 1 {
            sa[0] = 0;
        }
        assert(sorts(text32(t@), sa@));
        return 0;
    }
    libsais_main_int(t, sa, k, fs)
}

/// Writes the suffix array of `t`, a text over the symbols below `k`, into the first slots of
/// `sa`. The text is left as it was. The result does not depend on `threads`.
///
/// Returns `0`, or `-1` where `threads` is negative.
pub fn libsais_int_omp(t: &mut [SaSint], sa: &mut [SaSint], k: SaSint, fs: SaSint, threads: SaSint) -> (r: SaSint)
    requires
        !(threads < 0) ==> old(t).len() <= i32::MAX && old(t).len() <= old(sa).len(),
    ensures
        r == (if threads < 0 { -1int } else { 0 }),
        r == -1 ==> final(sa)@ == old(sa)@,
        r == 0 ==> sorts(text32(old(t)@), final(sa)@),
        final(t)@ == old(t)@,
        rest_kept(old(sa)@, final(sa)@, old(t).len() as int, fs as int),
{
    if threads < 0 {
        return -1;
    }
    if t.len() <= 1 {
        if t.len() == 1 {
            sa[0] = 0;
        }
        assert(sorts(text32(t@), sa@));
        return 0;
    }
    libsais_main_int(t, sa, k, fs)
}

/// Copies the low byte of each of the first `n` entries of `a`.
pub fn bwt_copy_8u(u: &mut [u8], a: &[SaSint], n: SaSint)
    requires
        n <= old(u).len(),
        n <= a.len(),
    ensures
        final(u).len() == old(u).len(),
        forall|i: int| 0 <= i < n ==> #[trigger] final(u)@[i] == a@[i] as u8,
        forall|i: int| (if n > 0 { n as int } else { 0 }) <= i < old(u).len() ==> #[trigger] final(u)@[i] == old(u)@[i],
{
    if n <= 0 {
        return;
    }
    let mut i: usize = 0;
    while i < n as usize
        invariant
            0 < n <= u.len(),
            i <= n <= a.len(),
            u.len() == old(u).len(),
            forall|x: int| 0 <= x < i ==> #[trigger] u@[x] == a@[x] as u8,
            forall|x: int| i <= x < u.len() ==> #[trigger] u@[x] == old(u)@[x],
        decreases n - i,
    {
        u[i] = a[i] as u8;
        i += 1;
    }
}

/// Copies the low byte of each of the first `n` entries of `a`.
pub fn bwt_copy_8u_omp(u: &mut [u8], a: &[SaSint], n: SaSint, _threads: SaSint)
    requires
        n <= old(u).len(),
        n <= a.len(),
    ensures
        final(u).len() == old(u).len(),
        forall|i: int| 0 <= i < n ==> #[trigger] final(u)@[i] == a@[i] as u8,
        forall|i: int| (if n > 0 { n as int } else { 0 }) <= i < old(u).len() ==> #[trigger] final(u)@[i] == old(u)@[i],
{
    bwt_copy_8u(u, a, n);
}

/// What a transform leaves of the bytes behind the first `n`.
pub open spec fn tail_kept(before: Seq<u8>, after: Seq<u8>, n: int) -> bool {
    &&& after.len() == before.len()
    &&& forall|i: int| n <= i < before.len() ==> #[trigger] after[i] == before[i]
}

/// Writes the transformed text of `t` from the bytes in front of its sorted suffixes, which `a`
/// starts with, and the rank `zero` of the whole text. Returns its primary index.
fn copy_transform(t: &[u8], u: &mut [u8], a: &[SaSint], zero: SaSint, Ghost(order): Ghost<Seq<i32>>) -> (r: SaSint)
    requires
        1 <= t.len() <= i32::MAX,
        t.len() <= old(u).len(),
        fronts(t@, order, a@),
        0 <= zero < t.len(),
        order[zero as int] == 0,
    ensures
        r == zero + 1,
        bwt_from(t@, order, final(u)@, r as int),
        tail_kept(old(u)@, final(u)@, t.len() as int),
{
    let n: usize = t.len();
    let split: usize = zero as usize + 1;
    u[0] = t[n - 1];
    let (head, rest) = u.split_at_mut(split);
    let (_first, low) = head.split_at_mut(1);
    bwt_copy_8u_omp(low, a, zero, 1);
    let behind: &[SaSint] = slice_subrange(a, split, n);
    bwt_copy_8u_omp(rest, behind, (n - split) as SaSint, 1);
    proof {
        assert forall|j: int| 0 <= j < n implies #[trigger] u@[j] == bwt_byte(t@, order, zero as int, j) by {
            let row = if j <= zero { j - 1 } else { j };
            if j > 0 {
                assert(0 <= order[row] < n);
                if order[row] == 0 {
                    lemma_suffix_array_distinct(text8(t@), order, row, zero as int);
                }
                assert(a@[row] == t@[order[row] - 1]);
            }
        }
    }
    zero + 1
}

/// Writes the Burrows-Wheeler transform of `t` into the first bytes of `u`, and how often each
/// byte occurs into `freq` where it is given. The first `n + fs` slots of `a` are scratch.
///
/// Returns the primary index, or `-1` where an argument does not fit.
pub fn libsais_bwt(
    t: &[u8],
    u: &mut [u8],
    a: &mut [SaSint],
    fs: SaSint,
    freq: Option<&mut [SaSint]>,
) -> (r: SaSint)
    requires
        !bwt_refused(t.len() as int, old(u).len() as int, old(a).len() as int, fs as int, freq) ==> t.len() <= i32::MAX,
    ensures
        bwt_refused(t.len() as int, old(u).len() as int, old(a).len() as int, fs as int, freq) ==> r == -1,
        !bwt_refused(t.len() as int, old(u).len() as int, old(a).len() as int, fs as int, freq) ==> r >= 0 && is_bwt(t@, final(u)@, r as int),
        r < 0 ==> final(u)@ == old(u)@ && final(a)@ == old(a)@,
        freq matches Some(f) ==> if r < 0 {
            final(f)@ == f@
        } else {
            frequencies(t@, f@, final(f)@)
        },
        tail_kept(old(u)@, final(u)@, t.len() as int),
        rest_kept(old(a)@, final(a)@, t.len() as int, fs as int),
{
    let n: usize = t.len();
    if fs < 0 || u.len() < n || !holds(a.len(), n, fs) || table_too_short(&freq) {
        return -1;
    }
    if n <= 1 {
        fill_table(t, freq);
        if n == 1 {
            u[0] = t[0];
        }
        proof {
            lemma_short_bwt(t@, u@);
        }
        return n as SaSint;
    }
    fill_table(t, freq);
    let mut buckets: Vec<SaSint> = vec![0; 8 * ALPHABET_SIZE];
    let zero: SaSint = transform_8u(t, a, buckets.as_mut_slice(), 0, None, fs);
    let ghost order = choose|order: Seq<i32>| #[trigger] fronts(t@, order, a@) && 0 <= zero < n && order[zero as int] == 0;
    copy_transform(t, u, a, zero, Ghost(order))
}

/// Does what [`libsais_bwt`] does, in the storage of `ctx`.
///
/// Returns `-2` where the context has no buckets of the right size.
pub fn libsais_bwt_ctx(
    ctx: &mut Context,
    t: &[u8],
    u: &mut [u8],
    a: &mut [SaSint],
    fs: SaSint,
    freq: Option<&mut [SaSint]>,
) -> (r: SaSint)
    requires
        !bwt_refused(t.len() as int, old(u).len() as int, old(a).len() as int, fs as int, freq) ==> t.len() <= i32::MAX,
    ensures
        bwt_refused(t.len() as int, old(u).len() as int, old(a).len() as int, fs as int, freq) ==> r == -1,
        !bwt_refused(t.len() as int, old(u).len() as int, old(a).len() as int, fs as int, freq) && t.len() >= 2 && !old(ctx).has_buckets() ==> r == -2,
        !bwt_refused(t.len() as int, old(u).len() as int, old(a).len() as int, fs as int, freq) && (t.len() <= 1 || old(ctx).has_buckets()) ==> r >= 0 && is_bwt(t@, final(u)@, r as int),
        r < 0 ==> final(u)@ == old(u)@ && final(a)@ == old(a)@,
        freq matches Some(f) ==> if r < 0 {
            final(f)@ == f@
        } else {
            frequencies(t@, f@, final(f)@)
        },
        tail_kept(old(u)@, final(u)@, t.len() as int),
        rest_kept(old(a)@, final(a)@, t.len() as int, fs as int),
        r < 0 || t.len() <= 1 ==> *final(ctx) == *old(ctx),
        old(ctx).same_shape(final(ctx), t.len() as int),
{
    let n: usize = t.len();
    if fs < 0 || u.len() < n || !holds(a.len(), n, fs) || table_too_short(&freq) {
        return -1;
    }
    if n <= 1 {
        fill_table(t, freq);
        if n == 1 {
            u[0] = t[0];
        }
        proof {
            lemma_short_bwt(t@, u@);
        }
        return n as SaSint;
    }
    if ctx.buckets.len() != 8 * ALPHABET_SIZE {
        return -2;
    }
    fill_table(t, freq);
    let zero: SaSint = transform_8u(t, a, ctx.buckets.as_mut_slice(), 0, None, fs);
    let ghost order = choose|order: Seq<i32>| #[trigger] fronts(t@, order, a@) && 0 <= zero < n && order[zero as int] == 0;
    copy_transform(t, u, a, zero, Ghost(order))
}

/// Does what [`libsais_bwt`] does. The result does not depend on `threads`.
pub fn libsais_bwt_omp(
    t: &[u8],
    u: &mut [u8],
    a: &mut [SaSint],
    fs: SaSint,
    freq: Option<&mut [SaSint]>,
    threads: SaSint,
) -> (r: SaSint)
    requires
        !(threads < 0 || bwt_refused(t.len() as int, old(u).len() as int, old(a).len() as int, fs as int, freq)) ==> t.len() <= i32::MAX,
    ensures
        (threads < 0 || bwt_refused(t.len() as int, old(u).len() as int, old(a).len() as int, fs as int, freq)) ==> r == -1,
        !(threads < 0 || bwt_refused(t.len() as int, old(u).len() as int, old(a).len() as int, fs as int, freq)) ==> r >= 0 && is_bwt(t@, final(u)@, r as int),
        r < 0 ==> final(u)@ == old(u)@ && final(a)@ == old(a)@,
        freq matches Some(f) ==> if r < 0 {
            final(f)@ == f@
        } else {
            frequencies(t@, f@, final(f)@)
        },
        tail_kept(old(u)@, final(u)@, t.len() as int),
        rest_kept(old(a)@, final(a)@, t.len() as int, fs as int),
{
    if threads < 0 {
        return -1;
    }
    libsais_bwt(t, u, a, fs, freq)
}

/// Writes the Burrows-Wheeler transform of `t` into the first bytes of `u`, one more than the
/// rank of every `r`-th suffix into `i`, and how often each byte occurs into `freq` where it
/// is given. The first `n + fs` slots of `a` are scratch.
///
/// Returns `0`, or `-1` where an argument does not fit.
pub fn libsais_bwt_aux(
    t: &[u8],
    u: &mut [u8],
    a: &mut [SaSint],
    fs: SaSint,
    freq: Option<&mut [SaSint]>,
    r: SaSint,
    i: &mut [SaSint],
) -> (res: SaSint)
    requires
        t.len() > 0 ==> t.len() <= i32::MAX && r != 0 && (r < 0 ==> t.len() - 1 < -r),
    ensures
        res == (if bwt_refused(t.len() as int, old(u).len() as int, old(a).len() as int, fs as int, freq)
            || samples_refused(t.len() as int, r, old(i).len() as int) {
            -1int
        } else {
            0
        }),
        res == 0 ==> is_bwt_aux(t@, final(u)@, r as int, final(i)@),
        res != 0 ==> final(u)@ == old(u)@ && final(a)@ == old(a)@ && final(i)@ == old(i)@,
        freq matches Some(f) ==> if res != 0 {
            final(f)@ == f@
        } else {
            frequencies(t@, f@, final(f)@)
        },
        tail_kept(old(u)@, final(u)@, t.len() as int),
        rest_kept(old(a)@, final(a)@, t.len() as int, fs as int),
        res == 0 ==> rest_kept(old(i)@, final(i)@, sample_count(t.len() as int, r as int), 0),
{
    let n: usize = t.len();
    if fs < 0 || u.len() < n || !holds(a.len(), n, fs) || table_too_short(&freq) {
        return -1;
    }
    if !is_rate(r) {
        return -1;
    }
    let count: usize = if n == 0 { 1 } else { (n - 1) / (r as usize) + 1 };
    if i.len() < count {
        return -1;
    }
    if n <= 1 {
        fill_table(t, freq);
        if n == 1 {
            u[0] = t[0];
        }
        i[0] = n as SaSint;
        proof {
            lemma_short_bwt(t@, u@);
            lemma_short_samples(t@, u@, r as int, i@);
        }
        return 0;
    }
    fill_table(t, freq);
    let mut buckets: Vec<SaSint> = vec![0; 8 * ALPHABET_SIZE];
    let _done: SaSint = transform_8u(t, a, buckets.as_mut_slice(), r, Some(&mut *i), fs);
    let ghost order = choose|order: Seq<i32>| #[trigger] fronts(t@, order, a@)
        && samples_from(order, n as int, r as int, i@) && samples_kept(n as int, (r - 1) as i32, old(i)@, i@);
    assert(0 * r == 0);
    let _index: SaSint = copy_transform(t, u, a, i[0] - 1, Ghost(order));
    0
}

/// Does what [`libsais_bwt_aux`] does, in the storage of `ctx`.
///
/// Returns `-2` where the context has no buckets of the right size.
pub fn libsais_bwt_aux_ctx(
    ctx: &mut Context,
    t: &[u8],
    u: &mut [u8],
    a: &mut [SaSint],
    fs: SaSint,
    freq: Option<&mut [SaSint]>,
    r: SaSint,
    i: &mut [SaSint],
) -> (res: SaSint)
    requires
        !(bwt_refused(t.len() as int, old(u).len() as int, old(a).len() as int, fs as int, freq) || !valid_rate(r)) ==> t.len() <= i32::MAX,
    ensures
        res == (if bwt_refused(t.len() as int, old(u).len() as int, old(a).len() as int, fs as int, freq)
            || samples_refused(t.len() as int, r, old(i).len() as int) {
            -1int
        } else if t.len() >= 2 && !old(ctx).has_buckets() {
            -2
        } else {
            0
        }),
        res == 0 ==> is_bwt_aux(t@, final(u)@, r as int, final(i)@),
        res != 0 ==> final(u)@ == old(u)@ && final(a)@ == old(a)@ && final(i)@ == old(i)@,
        freq matches Some(f) ==> if res != 0 {
            final(f)@ == f@
        } else {
            frequencies(t@, f@, final(f)@)
        },
        tail_kept(old(u)@, final(u)@, t.len() as int),
        rest_kept(old(a)@, final(a)@, t.len() as int, fs as int),
        res == 0 ==> rest_kept(old(i)@, final(i)@, sample_count(t.len() as int, r as int), 0),
        res != 0 || t.len() <= 1 ==> *final(ctx) == *old(ctx),
        old(ctx).same_shape(final(ctx), t.len() as int),
{
    let n: usize = t.len();
    if fs < 0 || u.len() < n || !holds(a.len(), n, fs) || table_too_short(&freq) {
        return -1;
    }
    if !is_rate(r) {
        return -1;
    }
    let count: usize = if n == 0 { 1 } else { (n - 1) / (r as usize) + 1 };
    if i.len() < count {
        return -1;
    }
    if n <= 1 {
        fill_table(t, freq);
        if n == 1 {
            u[0] = t[0];
        }
        i[0] = n as SaSint;
        proof {
            lemma_short_bwt(t@, u@);
            lemma_short_samples(t@, u@, r as int, i@);
        }
        return 0;
    }
    if ctx.buckets.len() != 8 * ALPHABET_SIZE {
        return -2;
    }
    fill_table(t, freq);
    let _done: SaSint = transform_8u(t, a, ctx.buckets.as_mut_slice(), r, Some(&mut *i), fs);
    let ghost order = choose|order: Seq<i32>| #[trigger] fronts(t@, order, a@)
        && samples_from(order, n as int, r as int, i@) && samples_kept(n as int, (r - 1) as i32, old(i)@, i@);
    assert(0 * r == 0);
    let _index: SaSint = copy_transform(t, u, a, i[0] - 1, Ghost(order));
    0
}

/// Does what [`libsais_bwt_aux`] does. The result does not depend on `threads`.
pub fn libsais_bwt_aux_omp(
    t: &[u8],
    u: &mut [u8],
    a: &mut [SaSint],
    fs: SaSint,
    freq: Option<&mut [SaSint]>,
    r: SaSint,
    i: &mut [SaSint],
    threads: SaSint,
) -> (res: SaSint)
    requires
        !(threads < 0 || bwt_refused(t.len() as int, old(u).len() as int, old(a).len() as int, fs as int, freq) || !valid_rate(r)) ==> t.len() <= i32::MAX,
    ensures
        res == (if threads < 0 || bwt_refused(t.len() as int, old(u).len() as int, old(a).len() as int, fs as int, freq)
            || samples_refused(t.len() as int, r, old(i).len() as int) {
            -1int
        } else {
            0
        }),
        res == 0 ==> is_bwt_aux(t@, final(u)@, r as int, final(i)@),
        res != 0 ==> final(u)@ == old(u)@ && final(a)@ == old(a)@ && final(i)@ == old(i)@,
        freq matches Some(f) ==> if res != 0 {
            final(f)@ == f@
        } else {
            frequencies(t@, f@, final(f)@)
        },
        tail_kept(old(u)@, final(u)@, t.len() as int),
        rest_kept(old(a)@, final(a)@, t.len() as int, fs as int),
        res == 0 ==> rest_kept(old(i)@, final(i)@, sample_count(t.len() as int, r as int), 0),
{
    if threads < 0 {
        return -1;
    }
    if fs < 0 || u.len() < t.len() || !holds(a.len(), t.len(), fs) || table_too_short(&freq) || !is_rate(r) {
        return -1;
    }
    libsais_bwt_aux(t, u, a, fs, freq, r, i)
}

/// A context for one worker stays one through any number of calls.
pub proof fn law_context_stays_plain(before: &Context, after: &Context, n: int)
    requires
        before.is_plain(),
        before.same_shape(after, n),
    ensures
        after.is_plain(),
{
}

/// Two tables of the frequencies of a text that were the same before are the same.
pub proof fn law_frequencies_unique(t: Seq<u8>, before: Seq<i32>, f: Seq<i32>, g: Seq<i32>)
    requires
        frequencies(t, before, f),
        frequencies(t, before, g),
    ensures
        f == g,
{
    assert forall|c: int| 0 <= c < f.len() implies f[c] == g[c] by {
        if c < ALPHABET_SIZE {
            assert(f[c] == occurrences(t, c, t.len() as int));
        } else {
            assert(f[c] == before[c]);
        }
    }
    assert(f =~= g);
}

/// Sorting in a context does what sorting without one does, whatever the context has served for
/// before: given the same text, slots and table, the result, the suffix array and the
/// frequencies are the same, and the context is fit for the next call.
pub proof fn law_context_sorts_alike(
    ctx: &Context,
    after: &Context,
    t: Seq<u8>,
    fs: int,
    freq: Option<&mut [SaSint]>,
    table: Option<&mut [SaSint]>,
    before: Seq<i32>,
    r: int,
    sa: Seq<i32>,
    f: Seq<i32>,
    s: int,
    slots: Seq<i32>,
    g: Seq<i32>,
)
    requires
        ctx.is_plain(),
        ctx.same_shape(after, t.len() as int),
        (table is Some) == (freq is Some),
        freq is Some ==> table->0@ == freq->0@,
        r == (if sort_refused(t.len() as int, before.len() as int, fs, freq) { -1int } else { 0 }),
        r == 0 ==> sorts(text8(t), sa),
        r != 0 ==> sa == before,
        freq matches Some(o) ==> if r != 0 { f == o@ } else { frequencies(t, o@, f) },
        s == (if sort_refused(t.len() as int, before.len() as int, fs, table) {
            -1int
        } else if t.len() >= 2 && !ctx.has_buckets() {
            -2
        } else {
            0
        }),
        s == 0 ==> sorts(text8(t), slots),
        s != 0 ==> slots == before,
        table matches Some(o) ==> if s != 0 { g == o@ } else { frequencies(t, o@, g) },
    ensures
        s == r,
        r == 0 ==> slots.subrange(0, t.len() as int) == sa.subrange(0, t.len() as int),
        r != 0 ==> slots == sa,
        freq is Some ==> g == f,
        after.is_plain(),
{
    if r == 0 {
        law_suffix_array_unique(text8(t), sa.subrange(0, t.len() as int), slots.subrange(0, t.len() as int));
        if freq is Some {
            law_frequencies_unique(t, freq->0@, f, g);
        }
    }
}

} // verus!
