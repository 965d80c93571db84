//! Inverting the Burrows-Wheeler transform: what callers use.

use vstd::prelude::*;
use crate::bytes::{bwt_from, is_bwt, is_bwt_aux, occurrences, sample_count, samples_from, valid_rate};
use crate::laws::law_transform_permutes;
use crate::types::{SaSint, SaUint, UnbwtContext, ALPHABET_SIZE};
use crate::unbwt::{
    as_rows, fresh_index, inverted, law_round_trip, lemma_decodable, lemma_last_block, lemma_shift_fits,
    lemma_whole_text_sampled, refused, rows_written, samples_valid, unbwt_main, unbwt_main_ctx,
    zero_rows,
};
use crate::unbwt_tables::{bounded, fast_shift, frequencies_given, high, prefix, BIGRAMS};

verus! {

/// What the check of the arguments found.
enum Verdict {
    Refused,
    Short,
    Ready,
}

/// Checks the arguments.
fn check(n: usize, u: usize, a: usize, freq: Option<&[SaSint]>, r: SaSint, i: &[SaSint]) -> (v: Verdict)
    requires
        n <= i32::MAX,
        n > 0 ==> r != 0,
    ensures
        (v is Refused) == refused(n as int, u as int, a as int, freq, r, i@),
        v is Short ==> n <= 1,
        v is Ready ==> n >= 2,
{
    if u < n || a < n {
        return Verdict::Refused;
    }
    match freq {
        Some(f) => {
            if f.len() < ALPHABET_SIZE {
                return Verdict::Refused;
            }
        },
        None => {},
    }
    if r != n as SaSint && (r < 2 || (r & (r - 1)) != 0) {
        return Verdict::Refused;
    }
    let count: usize = if n == 0 { 1 } else { (n - 1) / r as usize + 1 };
    if i.len() < count {
        return Verdict::Refused;
    }
    if n <= 1 {
        proof {
            if n == 1 {
                lemma_last_block(1, r as int);
            }
        }
        return if i[0] != n as SaSint { Verdict::Refused } else { Verdict::Short };
    }
    let mut k: usize = 0;
    while k < count
        invariant
            k <= count <= i.len(),
            2 <= n <= i32::MAX,
            count == sample_count(n as int, r as int),
            forall|x: int| 0 <= x < k ==> 1 <= #[trigger] i@[x] <= n,
        decreases count - k,
    {
        if i[k] <= 0 || i[k] > n as SaSint {
            assert(!(1 <= i@[k as int] <= n));
            assert(!samples_valid(n as int, r as int, i@));
            return Verdict::Refused;
        }
        k += 1;
    }
    Verdict::Ready
}

/// Reads the samples as rows.
fn rows_of(i: &[SaSint], count: usize) -> (rows: Vec<SaUint>)
    requires
        count <= i.len(),
        forall|k: int| 0 <= k < count ==> 0 <= #[trigger] i@[k],
    ensures
        rows@ == as_rows(i@, count as int),
{
    let mut rows: Vec<SaUint> = Vec::new();
    let mut k: usize = 0;
    while k < count
        invariant
            k <= count <= i.len(),
            rows@ =~= as_rows(i@, k as int),
            forall|x: int| 0 <= x < count ==> 0 <= #[trigger] i@[x],
        decreases count - k,
    {
        rows.push(i[k] as SaUint);
        k += 1;
    }
    rows
}

/// Hands out the rows.
fn write_rows(a: &mut [SaSint], next: &Vec<SaUint>, n: usize)
    requires
        n <= old(a).len(),
        n <= next.len(),
        n <= i32::MAX,
        bounded(next@, n as int),
    ensures
        final(a)@ == rows_written(old(a)@, next@, n as int),
{
    let mut k: usize = 0;
    while k < n
        invariant
            k <= n <= a.len(),
            n <= next.len(),
            n <= i32::MAX,
            bounded(next@, n as int),
            a@ =~= rows_written(old(a)@, next@, k as int),
        decreases n - k,
    {
        assert(next@[k as int] <= n);
        a[k] = next[k] as SaSint;
        k += 1;
    }
    assert(a@ =~= rows_written(old(a)@, next@, n as int));
}

/// Inverting the transform of `x` gives `x`.
proof fn lemma_all_texts(t: Seq<u8>, r: i32, i: Seq<i32>, f: Seq<u16>, u0: Seq<u8>, a0: Seq<i32>, u: Seq<u8>, a: Seq<i32>)
    requires
        t.len() <= i32::MAX,
        t.len() > 0 ==> r == t.len() || valid_rate(r),
        u0.len() >= t.len(),
        f.len() > high(t.len() as int, fast_shift(t.len() as int)),
        inverted(t, r as int, i, f, u0, a0, u, a),
    ensures
        forall|x: Seq<u8>| x.len() == t.len() && #[trigger] is_bwt_aux(x, t, r as int, i) ==> u.subrange(0, x.len() as int) == x,
{
    assert forall|x: Seq<u8>| x.len() == t.len() && #[trigger] is_bwt_aux(x, t, r as int, i) implies u.subrange(0, x.len() as int) == x by {
        if t.len() == 0 {
            assert(u.subrange(0, 0) =~= x);
        } else {
            law_round_trip(x, t, r, i, f, u0, a0, u, a);
        }
    }
}

/// Inverts the transformed text `t` with samples `i` at rate `r` into `u`; `a` is left with
/// the rows that were followed.
/// Where `freq` is given, it holds how often each byte occurs in `t`.
///
/// Returns `0`, or `-1` where an argument does not fit.
pub fn libsais_unbwt_aux(
    t: &[u8],
    u: &mut [u8],
    a: &mut [SaSint],
    freq: Option<&[SaSint]>,
    r: SaSint,
    i: &[SaSint],
) -> (result: SaSint)
    requires
        t.len() <= i32::MAX,
        t.len() > 0 ==> r != 0,
        refused(t.len() as int, old(u).len() as int, old(a).len() as int, freq, r, i@)
            || t.len() <= 1 || frequencies_given(t@, freq),
    ensures
        result == (if refused(t.len() as int, old(u).len() as int, old(a).len() as int, freq, r, i@) { -1int } else { 0 }),
        result == -1 ==> final(u)@ == old(u)@ && final(a)@ == old(a)@,
        result == 0 ==> inverted(t@, r as int, i@, fresh_index(t.len() as int), old(u)@, old(a)@, final(u)@, final(a)@),
        result == 0 ==> forall|x: Seq<u8>| x.len() == t.len() && #[trigger] is_bwt_aux(x, t@, r as int, i@)
            ==> final(u)@.subrange(0, x.len() as int) == x,
        final(u).len() == old(u).len(),
        final(a).len() == old(a).len(),
{
    let n: usize = t.len();
    let ghost f = fresh_index(t.len() as int);
    proof {
        lemma_shift_fits(n as int);
    }
    match check(n, u.len(), a.len(), freq, r, i) {
        Verdict::Refused => -1,
        Verdict::Short => {
            if n == 1 {
                u[0] = t[0];
            }
            proof {
                lemma_all_texts(t@, r, i@, f, old(u)@, old(a)@, u@, a@);
            }
            0
        },
        Verdict::Ready => {
            let count: usize = (n - 1) / r as usize + 1;
            let rows: Vec<SaUint> = rows_of(i, count);
            let mut p: Vec<SaUint> = vec![0; n + 1];
            proof {
                assert(p@ =~= zero_rows((n + 1) as nat));
                lemma_decodable(t@, r as int, rows@, f, u@);
                assert(prefix(t@, n as int) =~= t@);
            }
            let result: SaSint = unbwt_main(t, u, p.as_mut_slice(), n as SaSint, freq, r, rows.as_slice(), 1);
            write_rows(a, &p, n);
            proof {
                lemma_all_texts(t@, r, i@, f, old(u)@, old(a)@, u@, a@);
            }
            result
        },
    }
}

/// Inverts the transformed text `t` with samples `i` at rate `r` into `u`, with the tables of
/// `ctx`; `a` is left with the rows that were followed.
/// Where `freq` is given, it holds how often each byte occurs in `t`.
///
/// Returns `0`, or `-1` where an argument does not fit.
pub fn libsais_unbwt_aux_ctx(
    ctx: &mut UnbwtContext,
    t: &[u8],
    u: &mut [u8],
    a: &mut [SaSint],
    freq: Option<&[SaSint]>,
    r: SaSint,
    i: &[SaSint],
) -> (result: SaSint)
    requires
        t.len() <= i32::MAX,
        t.len() > 0 ==> r != 0,
        old(ctx).wf(),
        refused(t.len() as int, old(u).len() as int, old(a).len() as int, freq, r, i@)
            || t.len() <= 1 || (old(ctx).threads > 1 && t.len() >= 262144) || frequencies_given(t@, freq),
    ensures
        result == (if refused(t.len() as int, old(u).len() as int, old(a).len() as int, freq, r, i@) { -1int } else { 0 }),
        result == -1 ==> final(u)@ == old(u)@ && final(a)@ == old(a)@,
        result == 0 ==> inverted(t@, r as int, i@, old(ctx).fastbits@, old(u)@, old(a)@, final(u)@, final(a)@),
        result == 0 ==> forall|x: Seq<u8>| x.len() == t.len() && #[trigger] is_bwt_aux(x, t@, r as int, i@)
            ==> final(u)@.subrange(0, x.len() as int) == x,
        final(u).len() == old(u).len(),
        final(a).len() == old(a).len(),
        result == -1 || t.len() <= 1 ==> *final(ctx) == *old(ctx),
        old(ctx).same_tables(final(ctx)),
{
    let n: usize = t.len();
    let ghost f = old(ctx).fastbits@;
    proof {
        lemma_shift_fits(n as int);
    }
    match check(n, u.len(), a.len(), freq, r, i) {
        Verdict::Refused => -1,
        Verdict::Short => {
            if n == 1 {
                u[0] = t[0];
            }
            proof {
                lemma_all_texts(t@, r, i@, f, old(u)@, old(a)@, u@, a@);
            }
            0
        },
        Verdict::Ready => {
            let count: usize = (n - 1) / r as usize + 1;
            let rows: Vec<SaUint> = rows_of(i, count);
            let mut p: Vec<SaUint> = vec![0; n + 1];
            proof {
                assert(p@ =~= zero_rows((n + 1) as nat));
                lemma_decodable(t@, r as int, rows@, f, u@);
                assert(prefix(t@, n as int) =~= t@);
            }
            let result: SaSint = unbwt_main_ctx(ctx, t, u, p.as_mut_slice(), n as SaSint, freq, r, rows.as_slice());
            write_rows(a, &p, n);
            proof {
                lemma_all_texts(t@, r, i@, f, old(u)@, old(a)@, u@, a@);
            }
            result
        },
    }
}

/// Inverts the transformed text `t` with samples `i` at rate `r` into `u`; `a` is left with
/// the rows that were followed. The result does not depend on `threads`.
/// Where `freq` is given, it holds how often each byte occurs in `t`.
///
/// Returns `0`, or `-1` where an argument does not fit.
pub fn libsais_unbwt_aux_omp(
    t: &[u8],
    u: &mut [u8],
    a: &mut [SaSint],
    freq: Option<&[SaSint]>,
    r: SaSint,
    i: &[SaSint],
    threads: SaSint,
) -> (result: SaSint)
    requires
        t.len() <= i32::MAX,
        t.len() > 0 ==> r != 0,
        threads > 1 && t.len() >= 262144 ==> threads * (ALPHABET_SIZE + BIGRAMS) <= usize::MAX,
        threads < 0 || refused(t.len() as int, old(u).len() as int, old(a).len() as int, freq, r, i@)
            || t.len() <= 1 || (threads > 1 && t.len() >= 262144) || frequencies_given(t@, freq),
    ensures
        result == (if (threads < 0 || refused(t.len() as int, old(u).len() as int, old(a).len() as int, freq, r, i@)) { -1int } else { 0 }),
        result == -1 ==> final(u)@ == old(u)@ && final(a)@ == old(a)@,
        result == 0 ==> inverted(t@, r as int, i@, fresh_index(t.len() as int), old(u)@, old(a)@, final(u)@, final(a)@),
        result == 0 ==> forall|x: Seq<u8>| x.len() == t.len() && #[trigger] is_bwt_aux(x, t@, r as int, i@)
            ==> final(u)@.subrange(0, x.len() as int) == x,
        final(u).len() == old(u).len(),
        final(a).len() == old(a).len(),
{
    let n: usize = t.len();
    if threads < 0 {
        return -1;
    }
    let ghost f = fresh_index(t.len() as int);
    proof {
        lemma_shift_fits(n as int);
    }
    match check(n, u.len(), a.len(), freq, r, i) {
        Verdict::Refused => -1,
        Verdict::Short => {
            if n == 1 {
                u[0] = t[0];
            }
            proof {
                lemma_all_texts(t@, r, i@, f, old(u)@, old(a)@, u@, a@);
            }
            0
        },
        Verdict::Ready => {
            let count: usize = (n - 1) / r as usize + 1;
            let rows: Vec<SaUint> = rows_of(i, count);
            let mut p: Vec<SaUint> = vec![0; n + 1];
            proof {
                assert(p@ =~= zero_rows((n + 1) as nat));
                lemma_decodable(t@, r as int, rows@, f, u@);
                assert(prefix(t@, n as int) =~= t@);
            }
            let result: SaSint = unbwt_main(t, u, p.as_mut_slice(), n as SaSint, freq, r, rows.as_slice(), if threads > 0 { threads } else { 1 });
            write_rows(a, &p, n);
            proof {
                lemma_all_texts(t@, r, i@, f, old(u)@, old(a)@, u@, a@);
            }
            result
        },
    }
}

/// Where the transform with its primary index as only sample is inverted, the transform is.
proof fn lemma_index_suffices(t: Seq<u8>, i: i32, u: Seq<u8>)
    requires
        t.len() <= i32::MAX,
        forall|x: Seq<u8>| x.len() == t.len() && #[trigger] is_bwt_aux(x, t, t.len() as int, seq![i]) ==> u.subrange(0, x.len() as int) == x,
    ensures
        forall|x: Seq<u8>| x.len() == t.len() && #[trigger] is_bwt(x, t, i as int) ==> u.subrange(0, x.len() as int) == x,
{
    assert forall|x: Seq<u8>| x.len() == t.len() && #[trigger] is_bwt(x, t, i as int) implies u.subrange(0, x.len() as int) == x by {
        if t.len() > 0 {
            let sa = choose|sa: Seq<i32>| bwt_from(x, sa, t, i as int);
            lemma_whole_text_sampled(x, sa, t, i as int);
        }
        assert(is_bwt_aux(x, t, t.len() as int, seq![i]));
    }
}

/// Inverts the transformed text `t` with primary index `i` into `u`; `a` is left with the
/// rows that were followed.
/// Where `freq` is given, it holds how often each byte occurs in `t`.
///
/// Returns `0`, or `-1` where an argument does not fit.
pub fn libsais_unbwt(
    t: &[u8],
    u: &mut [u8],
    a: &mut [SaSint],
    freq: Option<&[SaSint]>,
    i: SaSint,
) -> (result: SaSint)
    requires
        t.len() <= i32::MAX,
        refused(t.len() as int, old(u).len() as int, old(a).len() as int, freq, t.len() as i32, seq![i])
            || t.len() <= 1 || frequencies_given(t@, freq),
    ensures
        result == (if refused(t.len() as int, old(u).len() as int, old(a).len() as int, freq, t.len() as i32, seq![i]) { -1int } else { 0 }),
        result == -1 ==> final(u)@ == old(u)@ && final(a)@ == old(a)@,
        result == 0 ==> inverted(t@, t.len() as int, seq![i], fresh_index(t.len() as int), old(u)@, old(a)@, final(u)@, final(a)@),
        result == 0 ==> forall|x: Seq<u8>| x.len() == t.len() && #[trigger] is_bwt(x, t@, i as int)
            ==> final(u)@.subrange(0, x.len() as int) == x,
        final(u).len() == old(u).len(),
        final(a).len() == old(a).len(),
{
    let samples: Vec<SaSint> = vec![i];
    assert(samples@ =~= seq![i]);
    let result: SaSint = libsais_unbwt_aux(t, u, a, freq, t.len() as SaSint, samples.as_slice());
    proof {
        if result == 0 {
            lemma_index_suffices(t@, i, u@);
        }
    }
    result
}

/// Inverts the transformed text `t` with primary index `i` into `u`, with the tables of
/// `ctx`; `a` is left with the rows that were followed.
/// Where `freq` is given, it holds how often each byte occurs in `t`.
///
/// Returns `0`, or `-1` where an argument does not fit.
pub fn libsais_unbwt_ctx(
    ctx: &mut UnbwtContext,
    t: &[u8],
    u: &mut [u8],
    a: &mut [SaSint],
    freq: Option<&[SaSint]>,
    i: SaSint,
) -> (result: SaSint)
    requires
        t.len() <= i32::MAX,
        old(ctx).wf(),
        refused(t.len() as int, old(u).len() as int, old(a).len() as int, freq, t.len() as i32, seq![i])
            || t.len() <= 1 || (old(ctx).threads > 1 && t.len() >= 262144) || frequencies_given(t@, freq),
    ensures
        result == (if refused(t.len() as int, old(u).len() as int, old(a).len() as int, freq, t.len() as i32, seq![i]) { -1int } else { 0 }),
        result == -1 ==> final(u)@ == old(u)@ && final(a)@ == old(a)@,
        result == 0 ==> inverted(t@, t.len() as int, seq![i], old(ctx).fastbits@, old(u)@, old(a)@, final(u)@, final(a)@),
        result == 0 ==> forall|x: Seq<u8>| x.len() == t.len() && #[trigger] is_bwt(x, t@, i as int)
            ==> final(u)@.subrange(0, x.len() as int) == x,
        final(u).len() == old(u).len(),
        final(a).len() == old(a).len(),
        result == -1 || t.len() <= 1 ==> *final(ctx) == *old(ctx),
        old(ctx).same_tables(final(ctx)),
{
    let samples: Vec<SaSint> = vec![i];
    assert(samples@ =~= seq![i]);
    let result: SaSint = libsais_unbwt_aux_ctx(ctx, t, u, a, freq, t.len() as SaSint, samples.as_slice());
    proof {
        if result == 0 {
            lemma_index_suffices(t@, i, u@);
        }
    }
    result
}

/// Inverts the transformed text `t` with primary index `i` into `u`; `a` is left with the
/// rows that were followed. The result does not depend on `threads`.
/// Where `freq` is given, it holds how often each byte occurs in `t`.
///
/// Returns `0`, or `-1` where an argument does not fit.
pub fn libsais_unbwt_omp(
    t: &[u8],
    u: &mut [u8],
    a: &mut [SaSint],
    freq: Option<&[SaSint]>,
    i: SaSint,
    threads: SaSint,
) -> (result: SaSint)
    requires
        t.len() <= i32::MAX,
        threads > 1 && t.len() >= 262144 ==> threads * (ALPHABET_SIZE + BIGRAMS) <= usize::MAX,
        threads < 0 || refused(t.len() as int, old(u).len() as int, old(a).len() as int, freq, t.len() as i32, seq![i])
            || t.len() <= 1 || (threads > 1 && t.len() >= 262144) || frequencies_given(t@, freq),
    ensures
        result == (if (threads < 0 || refused(t.len() as int, old(u).len() as int, old(a).len() as int, freq, t.len() as i32, seq![i])) { -1int } else { 0 }),
        result == -1 ==> final(u)@ == old(u)@ && final(a)@ == old(a)@,
        result == 0 ==> inverted(t@, t.len() as int, seq![i], fresh_index(t.len() as int), old(u)@, old(a)@, final(u)@, final(a)@),
        result == 0 ==> forall|x: Seq<u8>| x.len() == t.len() && #[trigger] is_bwt(x, t@, i as int)
            ==> final(u)@.subrange(0, x.len() as int) == x,
        final(u).len() == old(u).len(),
        final(a).len() == old(a).len(),
{
    let samples: Vec<SaSint> = vec![i];
    assert(samples@ =~= seq![i]);
    let result: SaSint = libsais_unbwt_aux_omp(t, u, a, freq, t.len() as SaSint, samples.as_slice(), threads);
    proof {
        if result == 0 {
            lemma_index_suffices(t@, i, u@);
        }
    }
    result
}

/// A transform without what stands behind it is still the transform.
proof fn lemma_sampled_prefix(x: Seq<u8>, u: Seq<u8>, r: int, i: Seq<i32>)
    requires
        x.len() <= u.len(),
        is_bwt_aux(x, u, r, i),
    ensures
        is_bwt_aux(x, u.subrange(0, x.len() as int), r, i),
{
    if x.len() > 0 {
        let sa = choose|sa: Seq<i32>| bwt_from(x, sa, u, i[0] as int) && samples_from(sa, x.len() as int, r, i);
        assert(bwt_from(x, sa, u.subrange(0, x.len() as int), i[0] as int));
    }
}

/// Transforming and inverting gives back every text: where `u` starts with the transform of `x`
/// and `i` with its samples at rate `r`, inverting the first bytes of `u` is not refused, the
/// frequencies of `x` are those of `u`, and what is left is `x`.
pub proof fn law_sampled_text_comes_back(
    x: Seq<u8>,
    u: Seq<u8>,
    r: i32,
    i: Seq<i32>,
    freq: Option<&[i32]>,
    v0: Seq<u8>,
    b0: Seq<i32>,
    v: Seq<u8>,
    b: Seq<i32>,
)
    requires
        x.len() <= i32::MAX,
        r == x.len() || valid_rate(r),
        x.len() <= u.len(),
        is_bwt_aux(x, u, r as int, i),
        frequencies_given(x, freq),
        x.len() <= v0.len(),
        x.len() <= b0.len(),
    ensures
        !refused(x.len() as int, v0.len() as int, b0.len() as int, freq, r, i),
        frequencies_given(u.subrange(0, x.len() as int), freq),
        inverted(u.subrange(0, x.len() as int), r as int, i, fresh_index(x.len() as int), v0, b0, v, b)
            ==> v.subrange(0, x.len() as int) == x,
{
    let n = x.len() as int;
    let t = u.subrange(0, n);
    lemma_sampled_prefix(x, u, r as int, i);
    lemma_shift_fits(n);
    if n == 0 {
        assert(t =~= x);
        if inverted(t, r as int, i, fresh_index(n), v0, b0, v, b) {
            assert(v.subrange(0, 0) =~= x);
        }
    } else {
        let sa = choose|sa: Seq<i32>| bwt_from(x, sa, t, i[0] as int) && samples_from(sa, n, r as int, i);
        lemma_last_block(n, r as int);
        assert forall|k: int| 0 <= k < sample_count(n, r as int) implies 1 <= #[trigger] i[k] <= n by {
            assert(k * r < n) by (nonlinear_arith)
                requires
                    0 <= k <= sample_count(n, r as int) - 1,
                    r * (sample_count(n, r as int) - 1) < n,
                    r > 0,
            ;
        }
        assert(is_bwt(x, t, i[0] as int));
        if freq is Some {
            let f = freq->0;
            assert forall|c: int| 0 <= c < ALPHABET_SIZE implies #[trigger] f@[c] == occurrences(t, c, t.len() as int) by {
                law_transform_permutes(x, t, i[0] as int, c);
                assert(f@[c] == occurrences(x, c, n));
            }
        }
        if inverted(t, r as int, i, fresh_index(n), v0, b0, v, b) {
            law_round_trip(x, t, r, i, fresh_index(n), v0, b0, v, b);
        }
    }
}

/// Transforming and inverting gives back every text: where `u` starts with the transform of `x`,
/// inverting the first bytes of `u` with the primary index is not refused, the frequencies of
/// `x` are those of `u`, and what is left is `x`.
pub proof fn law_text_comes_back(
    x: Seq<u8>,
    u: Seq<u8>,
    i: i32,
    freq: Option<&[i32]>,
    v0: Seq<u8>,
    b0: Seq<i32>,
    v: Seq<u8>,
    b: Seq<i32>,
)
    requires
        x.len() <= i32::MAX,
        x.len() <= u.len(),
        is_bwt(x, u, i as int),
        frequencies_given(x, freq),
        x.len() <= v0.len(),
        x.len() <= b0.len(),
    ensures
        !refused(x.len() as int, v0.len() as int, b0.len() as int, freq, x.len() as i32, seq![i]),
        frequencies_given(u.subrange(0, x.len() as int), freq),
        inverted(u.subrange(0, x.len() as int), x.len() as int, seq![i], fresh_index(x.len() as int), v0, b0, v, b)
            ==> v.subrange(0, x.len() as int) == x,
{
    if x.len() > 0 {
        let sa = choose|sa: Seq<i32>| bwt_from(x, sa, u, i as int);
        lemma_whole_text_sampled(x, sa, u, i as int);
    }
    law_sampled_text_comes_back(x, u, x.len() as i32, seq![i], freq, v0, b0, v, b);
}

} // verus!
