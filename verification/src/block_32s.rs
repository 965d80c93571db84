//! Scans over integer texts, block by block: what a block induces is gathered into a cache,
//! sorted there, and only then written.

use vstd::prelude::*;
use crate::final_scan::before32;
use crate::fold::{fold_down, fold_up, lemma_fold_down_prefix, lemma_fold_up_prefix};
use crate::marks::{
    bit, clear_group, clear_mark, flip_mark, flipped, marked, set_group, set_mark, ungrouped, unmarked, with_group, within,
    word_within,
};
use crate::partial_32s::{
    partial_sorting_scan_left_to_right_32s_1k, partial_sorting_scan_left_to_right_32s_1k_run,
    partial_sorting_scan_left_to_right_32s_4k, partial_sorting_scan_left_to_right_32s_4k_run,
    partial_sorting_scan_left_to_right_32s_6k, partial_sorting_scan_left_to_right_32s_6k_run,
    partial_sorting_scan_right_to_left_32s_1k, partial_sorting_scan_right_to_left_32s_1k_run,
    partial_sorting_scan_right_to_left_32s_4k, partial_sorting_scan_right_to_left_32s_4k_run,
    partial_sorting_scan_right_to_left_32s_6k, partial_sorting_scan_right_to_left_32s_6k_run,
};
use crate::radix::{
    compact_and_place_cached_suffixes, compact_and_place_run, place_cached_run, place_cached_suffixes,
};
use crate::types::{FastSint, SaSint, ThreadCache, SAINT_MAX, SAINT_MIN};

verus! {

/// How the symbol before a suffix compares with the one before that.
#[derive(Clone, Copy, PartialEq, Eq, Structural)]
pub enum Side {
    NotBelow,
    Above,
    Below,
}

/// Whether the symbol two before position `q` compares with the one before `q` as `side`
/// says.
pub open spec fn compares(t: Seq<i32>, q: int, side: Side) -> bool {
    match side {
        Side::NotBelow => t[q - 2] >= t[q - 1],
        Side::Above => t[q - 2] > t[q - 1],
        Side::Below => t[q - 2] < t[q - 1],
    }
}

/// Computes [`compares`].
fn comparison(t: &[SaSint], q: usize, side: Side) -> (r: bool)
    requires
        2 <= q <= t.len(),
    ensures
        r == compares(t@, q as int, side),
{
    match side {
        Side::NotBelow => t[q - 2] >= t[q - 1],
        Side::Above => t[q - 2] > t[q - 1],
        Side::Below => t[q - 2] < t[q - 1],
    }
}

/// The bucket of the suffix before position `q`, where a symbol has `factor` buckets.
pub open spec fn bucket_symbol(t: Seq<i32>, q: int, side: Side, factor: int) -> Option<i32> {
    if 2 <= q <= t.len() && 0 <= t[q - 1] && factor * t[q - 1] + 1 <= i32::MAX {
        Some((factor * t[q - 1] + bit(compares(t, q, side))) as i32)
    } else {
        None
    }
}

/// Computes [`bucket_symbol`].
fn find_bucket(t: &[SaSint], q: SaSint, side: Side, factor: SaSint) -> (r: Option<SaSint>)
    requires
        factor == 2 || factor == 4,
    ensures
        r == bucket_symbol(t@, q as int, side, factor as int),
{
    if q < 2 || q as u64 > t.len() as u64 {
        return None;
    }
    let c: SaSint = t[q as usize - 1];
    if c < 0 || factor as i64 * c as i64 + 1 > 0x7fff_ffff {
        return None;
    }
    Some(factor * c + (if comparison(t, q as usize, side) { 1 } else { 0 }))
}

/// What the suffix at `p` induces: the one before it, under its symbol, and marked where the
/// chain ends.
pub open spec fn induced(t: Seq<i32>, p: int, side: Side) -> Option<ThreadCache> {
    if 2 <= p <= t.len() && p <= i32::MAX {
        Some(ThreadCache { symbol: t[p - 1], index: marked((p - 1) as i32, compares(t, p, side)) })
    } else {
        None
    }
}

/// Computes [`induced`].
fn induce(t: &[SaSint], p: SaSint, side: Side) -> (r: Option<ThreadCache>)
    ensures
        r == induced(t@, p as int, side),
{
    if p < 2 || p as u64 > t.len() as u64 {
        return None;
    }
    Some(ThreadCache { symbol: t[p as usize - 1], index: set_mark(p - 1, comparison(t, p as usize, side)) })
}

/// What the suffix at `p` induces in a final scan; `above` is the side on which the chain
/// ends.
pub open spec fn finally_induced(t: Seq<i32>, p: int, above: bool) -> Option<ThreadCache> {
    let q = p - 1;
    if 0 <= q < t.len() && p <= i32::MAX {
        Some(ThreadCache {
            symbol: t[q],
            index: marked(q as i32, if above { before32(t, q) > t[q] } else { before32(t, q) < t[q] }),
        })
    } else {
        None
    }
}

/// Computes [`finally_induced`].
fn finally_induce(t: &[SaSint], p: SaSint, above: bool) -> (r: Option<ThreadCache>)
    ensures
        r == finally_induced(t@, p as int, above),
{
    if p < 1 || p as u64 > t.len() as u64 {
        return None;
    }
    let q: usize = p as usize - 1;
    let before: SaSint = t[if q > 0 { q - 1 } else { q }];
    Some(ThreadCache { symbol: t[q], index: set_mark(p - 1, if above { before > t[q] } else { before < t[q] }) })
}

/// The number of the group bits and the sign above them: `p` shifted down by thirty places.
pub open spec fn upper_bits(p: i32) -> int {
    if p >= 0x4000_0000 {
        1
    } else if p >= 0 {
        0
    } else if p >= -0x4000_0000 {
        -1
    } else {
        -2
    }
}

/// Computes [`upper_bits`].
fn take_upper_bits(p: SaSint) -> (r: SaSint)
    ensures
        r == upper_bits(p),
{
    if p >= 0x4000_0000 {
        1
    } else if p >= 0 {
        0
    } else if p >= -0x4000_0000 {
        -1
    } else {
        -2
    }
}

/// Records the suffix at slot `i` with the bucket of what it induces; an empty slot is recorded
/// with bucket zero. The cache starts with the entry of slot `base`.
pub open spec fn gather_left_6k_step(t: Seq<i32>, sa: Seq<i32>, base: int) -> spec_fn(Seq<ThreadCache>, int) -> Option<Seq<ThreadCache>> {
    |s: Seq<ThreadCache>, i: int|
        {
            let cache = s;
            let x = i - base;
            let p = sa[i];
            if !(0 <= i < sa.len() && 0 <= x < cache.len()) {
                None
            } else if unmarked(p) == 0 {
                Some(cache.update(x, ThreadCache { symbol: 0, index: p }))
            } else {
                match bucket_symbol(t, unmarked(p) as int, Side::NotBelow, 4) {
                    Some(symbol) => Some(cache.update(x, ThreadCache { symbol, index: p })),
                    None => None,
                }
            }
        }
}

/// [`gather_left_6k_step`] over the positions from `lo` to `hi`, upward.
pub open spec fn gather_left_6k_run(t: Seq<i32>, sa: Seq<i32>, base: int, s: Seq<ThreadCache>, lo: int, hi: int) -> Option<Seq<ThreadCache>> {
    fold_up(gather_left_6k_step(t, sa, base), s, lo, hi)
}

/// Performs one step, or returns `false` where the step is outside its domain.
fn gather_left_6k_at(
    t: &[SaSint],
    sa: &[SaSint],
    base: FastSint,
    cache: &mut [ThreadCache],
    i: FastSint,
) -> (ok: bool)
    ensures
        ok == (gather_left_6k_step(t@, sa@, base as int)(old(cache)@, i as int) is Some),
        ok ==> gather_left_6k_step(t@, sa@, base as int)(old(cache)@, i as int) == Some(final(cache)@),
        final(cache).len() == old(cache).len(),
{
    if !word_within(i, sa.len()) {
        return false;
    }
    let at: i128 = i as i128 - base as i128;
    if at < 0 || at >= cache.len() as i128 {
        return false;
    }
    let x: usize = at as usize;
    let p: SaSint = sa[i as usize];
    let q: SaSint = clear_mark(p);
    if q == 0 {
        cache[x] = ThreadCache { symbol: 0, index: p };
        return true;
    }
    match find_bucket(t, q, Side::NotBelow, 4) {
        Some(symbol) => {
            cache[x] = ThreadCache { symbol, index: p };
            true
        },
        None => false,
    }
}

/// Runs the steps as far as they are defined; `false` where one is not.
pub(crate) fn try_gather_left_6k(
    t: &[SaSint],
    sa: &[SaSint],
    base: FastSint,
    cache: &mut [ThreadCache],
    lo: FastSint,
    hi: FastSint,
) -> (ok: bool)
    ensures
        ok == (gather_left_6k_run(t@, sa@, base as int, old(cache)@, lo as int, hi as int) is Some),
        ok ==> gather_left_6k_run(t@, sa@, base as int, old(cache)@, lo as int, hi as int) == Some(final(cache)@),
        final(cache).len() == old(cache).len(),
{
    let mut i: FastSint = lo;
    let ghost step = gather_left_6k_step(t@, sa@, base as int);
    let ghost s0 = cache@;
    while i < hi
        invariant
            lo <= i,
            i <= hi || hi < lo,
            hi < lo ==> i == lo,
            step == gather_left_6k_step(t@, sa@, base as int),
            s0 == old(cache)@,
            fold_up(step, s0, lo as int, i as int) == Some(cache@),
            cache.len() == old(cache).len(),
        decreases hi - i,
    {
        proof {
            lemma_fold_up_prefix(step, s0, lo as int, i + 1, hi as int);
        }
        if !gather_left_6k_at(t, sa, base, cache, i) {
            return false;
        }
        i += 1;
    }
    true
}

/// Records the suffix at slot `i` with the bucket of what it induces; an empty slot is recorded
/// with bucket zero. The cache starts with the entry of slot `base`.
pub open spec fn gather_right_6k_step(t: Seq<i32>, sa: Seq<i32>, base: int) -> spec_fn(Seq<ThreadCache>, int) -> Option<Seq<ThreadCache>> {
    |s: Seq<ThreadCache>, i: int|
        {
            let cache = s;
            let x = i - base;
            let p = sa[i];
            if !(0 <= i < sa.len() && 0 <= x < cache.len()) {
                None
            } else if unmarked(p) == 0 {
                Some(cache.update(x, ThreadCache { symbol: 0, index: p }))
            } else {
                match bucket_symbol(t, unmarked(p) as int, Side::Above, 4) {
                    Some(symbol) => Some(cache.update(x, ThreadCache { symbol, index: p })),
                    None => None,
                }
            }
        }
}

/// [`gather_right_6k_step`] over the positions from `lo` to `hi`, upward.
pub open spec fn gather_right_6k_run(t: Seq<i32>, sa: Seq<i32>, base: int, s: Seq<ThreadCache>, lo: int, hi: int) -> Option<Seq<ThreadCache>> {
    fold_up(gather_right_6k_step(t, sa, base), s, lo, hi)
}

/// Performs one step, or returns `false` where the step is outside its domain.
fn gather_right_6k_at(
    t: &[SaSint],
    sa: &[SaSint],
    base: FastSint,
    cache: &mut [ThreadCache],
    i: FastSint,
) -> (ok: bool)
    ensures
        ok == (gather_right_6k_step(t@, sa@, base as int)(old(cache)@, i as int) is Some),
        ok ==> gather_right_6k_step(t@, sa@, base as int)(old(cache)@, i as int) == Some(final(cache)@),
        final(cache).len() == old(cache).len(),
{
    if !word_within(i, sa.len()) {
        return false;
    }
    let at: i128 = i as i128 - base as i128;
    if at < 0 || at >= cache.len() as i128 {
        return false;
    }
    let x: usize = at as usize;
    let p: SaSint = sa[i as usize];
    let q: SaSint = clear_mark(p);
    if q == 0 {
        cache[x] = ThreadCache { symbol: 0, index: p };
        return true;
    }
    match find_bucket(t, q, Side::Above, 4) {
        Some(symbol) => {
            cache[x] = ThreadCache { symbol, index: p };
            true
        },
        None => false,
    }
}

/// Runs the steps as far as they are defined; `false` where one is not.
pub(crate) fn try_gather_right_6k(
    t: &[SaSint],
    sa: &[SaSint],
    base: FastSint,
    cache: &mut [ThreadCache],
    lo: FastSint,
    hi: FastSint,
) -> (ok: bool)
    ensures
        ok == (gather_right_6k_run(t@, sa@, base as int, old(cache)@, lo as int, hi as int) is Some),
        ok ==> gather_right_6k_run(t@, sa@, base as int, old(cache)@, lo as int, hi as int) == Some(final(cache)@),
        final(cache).len() == old(cache).len(),
{
    let mut i: FastSint = lo;
    let ghost step = gather_right_6k_step(t@, sa@, base as int);
    let ghost s0 = cache@;
    while i < hi
        invariant
            lo <= i,
            i <= hi || hi < lo,
            hi < lo ==> i == lo,
            step == gather_right_6k_step(t@, sa@, base as int),
            s0 == old(cache)@,
            fold_up(step, s0, lo as int, i as int) == Some(cache@),
            cache.len() == old(cache).len(),
        decreases hi - i,
    {
        proof {
            lemma_fold_up_prefix(step, s0, lo as int, i + 1, hi as int);
        }
        if !gather_right_6k_at(t, sa, base, cache, i) {
            return false;
        }
        i += 1;
    }
    true
}

/// Moves a plain suffix at slot `i` into the cache, with the bucket of what it induces; without
/// one the entry is left without a bucket. The cache starts with the entry of slot `base`.
pub open spec fn gather_left_4k_step(t: Seq<i32>, base: int) -> spec_fn((Seq<i32>, Seq<ThreadCache>), int) -> Option<(Seq<i32>, Seq<ThreadCache>)> {
    |s: (Seq<i32>, Seq<ThreadCache>), i: int|
        {
            let (sa, cache) = s;
            let x = i - base;
            let p = sa[i];
            if !(0 <= i < sa.len() && 0 <= x < cache.len()) {
                None
            } else if p <= 0 {
                Some((sa.update(i, unmarked(p)), cache.update(x, ThreadCache { symbol: SAINT_MIN, index: cache[x].index })))
            } else {
                match bucket_symbol(t, ungrouped(p) as int, Side::Below, 2) {
                    Some(symbol) => Some((sa.update(i, 0), cache.update(x, ThreadCache { symbol, index: p }))),
                    None => None,
                }
            }
        }
}

/// [`gather_left_4k_step`] over the positions from `lo` to `hi`, upward.
pub open spec fn gather_left_4k_run(t: Seq<i32>, base: int, s: (Seq<i32>, Seq<ThreadCache>), lo: int, hi: int) -> Option<(Seq<i32>, Seq<ThreadCache>)> {
    fold_up(gather_left_4k_step(t, base), s, lo, hi)
}

/// Performs one step, or returns `false` where the step is outside its domain.
fn gather_left_4k_at(
    t: &[SaSint],
    base: FastSint,
    sa: &mut [SaSint],
    cache: &mut [ThreadCache],
    i: FastSint,
) -> (ok: bool)
    ensures
        ok == (gather_left_4k_step(t@, base as int)((old(sa)@, old(cache)@), i as int) is Some),
        ok ==> gather_left_4k_step(t@, base as int)((old(sa)@, old(cache)@), i as int) == Some((final(sa)@, final(cache)@)),
        final(sa).len() == old(sa).len(),
        final(cache).len() == old(cache).len(),
{
    if !word_within(i, sa.len()) {
        return false;
    }
    let at: i128 = i as i128 - base as i128;
    if at < 0 || at >= cache.len() as i128 {
        return false;
    }
    let x: usize = at as usize;
    let p: SaSint = sa[i as usize];
    let s: usize = i as usize;
    if p <= 0 {
        sa[s] = clear_mark(p);
        cache[x] = ThreadCache { symbol: SAINT_MIN, index: cache[x].index };
        return true;
    }
    match find_bucket(t, clear_group(p), Side::Below, 2) {
        Some(symbol) => {
            sa[s] = 0;
            cache[x] = ThreadCache { symbol, index: p };
            true
        },
        None => false,
    }
}

/// Runs the steps as far as they are defined; `false` where one is not.
pub(crate) fn try_gather_left_4k(
    t: &[SaSint],
    base: FastSint,
    sa: &mut [SaSint],
    cache: &mut [ThreadCache],
    lo: FastSint,
    hi: FastSint,
) -> (ok: bool)
    ensures
        ok == (gather_left_4k_run(t@, base as int, (old(sa)@, old(cache)@), lo as int, hi as int) is Some),
        ok ==> gather_left_4k_run(t@, base as int, (old(sa)@, old(cache)@), lo as int, hi as int) == Some((final(sa)@, final(cache)@)),
        final(sa).len() == old(sa).len(),
        final(cache).len() == old(cache).len(),
{
    let mut i: FastSint = lo;
    let ghost step = gather_left_4k_step(t@, base as int);
    let ghost s0 = (sa@, cache@);
    while i < hi
        invariant
            lo <= i,
            i <= hi || hi < lo,
            hi < lo ==> i == lo,
            step == gather_left_4k_step(t@, base as int),
            s0 == (old(sa)@, old(cache)@),
            fold_up(step, s0, lo as int, i as int) == Some((sa@, cache@)),
            sa.len() == old(sa).len(),
            cache.len() == old(cache).len(),
        decreases hi - i,
    {
        proof {
            lemma_fold_up_prefix(step, s0, lo as int, i + 1, hi as int);
        }
        if !gather_left_4k_at(t, base, sa, cache, i) {
            return false;
        }
        i += 1;
    }
    true
}

/// Moves a plain suffix at slot `i` into the cache, with the bucket of what it induces; without
/// one the entry is left without a bucket. The cache starts with the entry of slot `base`.
pub open spec fn gather_right_4k_step(t: Seq<i32>, base: int) -> spec_fn((Seq<i32>, Seq<ThreadCache>), int) -> Option<(Seq<i32>, Seq<ThreadCache>)> {
    |s: (Seq<i32>, Seq<ThreadCache>), i: int|
        {
            let (sa, cache) = s;
            let x = i - base;
            let p = sa[i];
            if !(0 <= i < sa.len() && 0 <= x < cache.len()) {
                None
            } else if p <= 0 {
                Some((sa.update(i, p), cache.update(x, ThreadCache { symbol: SAINT_MIN, index: cache[x].index })))
            } else {
                match bucket_symbol(t, ungrouped(p) as int, Side::Above, 2) {
                    Some(symbol) => Some((sa.update(i, 0), cache.update(x, ThreadCache { symbol, index: p }))),
                    None => None,
                }
            }
        }
}

/// [`gather_right_4k_step`] over the positions from `lo` to `hi`, upward.
pub open spec fn gather_right_4k_run(t: Seq<i32>, base: int, s: (Seq<i32>, Seq<ThreadCache>), lo: int, hi: int) -> Option<(Seq<i32>, Seq<ThreadCache>)> {
    fold_up(gather_right_4k_step(t, base), s, lo, hi)
}

/// Performs one step, or returns `false` where the step is outside its domain.
fn gather_right_4k_at(
    t: &[SaSint],
    base: FastSint,
    sa: &mut [SaSint],
    cache: &mut [ThreadCache],
    i: FastSint,
) -> (ok: bool)
    ensures
        ok == (gather_right_4k_step(t@, base as int)((old(sa)@, old(cache)@), i as int) is Some),
        ok ==> gather_right_4k_step(t@, base as int)((old(sa)@, old(cache)@), i as int) == Some((final(sa)@, final(cache)@)),
        final(sa).len() == old(sa).len(),
        final(cache).len() == old(cache).len(),
{
    if !word_within(i, sa.len()) {
        return false;
    }
    let at: i128 = i as i128 - base as i128;
    if at < 0 || at >= cache.len() as i128 {
        return false;
    }
    let x: usize = at as usize;
    let p: SaSint = sa[i as usize];
    let s: usize = i as usize;
    if p <= 0 {
        sa[s] = p;
        cache[x] = ThreadCache { symbol: SAINT_MIN, index: cache[x].index };
        return true;
    }
    match find_bucket(t, clear_group(p), Side::Above, 2) {
        Some(symbol) => {
            sa[s] = 0;
            cache[x] = ThreadCache { symbol, index: p };
            true
        },
        None => false,
    }
}

/// Runs the steps as far as they are defined; `false` where one is not.
pub(crate) fn try_gather_right_4k(
    t: &[SaSint],
    base: FastSint,
    sa: &mut [SaSint],
    cache: &mut [ThreadCache],
    lo: FastSint,
    hi: FastSint,
) -> (ok: bool)
    ensures
        ok == (gather_right_4k_run(t@, base as int, (old(sa)@, old(cache)@), lo as int, hi as int) is Some),
        ok ==> gather_right_4k_run(t@, base as int, (old(sa)@, old(cache)@), lo as int, hi as int) == Some((final(sa)@, final(cache)@)),
        final(sa).len() == old(sa).len(),
        final(cache).len() == old(cache).len(),
{
    let mut i: FastSint = lo;
    let ghost step = gather_right_4k_step(t@, base as int);
    let ghost s0 = (sa@, cache@);
    while i < hi
        invariant
            lo <= i,
            i <= hi || hi < lo,
            hi < lo ==> i == lo,
            step == gather_right_4k_step(t@, base as int),
            s0 == (old(sa)@, old(cache)@),
            fold_up(step, s0, lo as int, i as int) == Some((sa@, cache@)),
            sa.len() == old(sa).len(),
            cache.len() == old(cache).len(),
        decreases hi - i,
    {
        proof {
            lemma_fold_up_prefix(step, s0, lo as int, i + 1, hi as int);
        }
        if !gather_right_4k_at(t, base, sa, cache, i) {
            return false;
        }
        i += 1;
    }
    true
}

/// Takes a plain suffix from slot `i` and records what it induces; without one the entry is
/// left without a symbol. The cache starts with the entry of slot `base`.
pub open spec fn gather_left_1k_step(t: Seq<i32>, base: int) -> spec_fn((Seq<i32>, Seq<ThreadCache>), int) -> Option<(Seq<i32>, Seq<ThreadCache>)> {
    |s: (Seq<i32>, Seq<ThreadCache>), i: int|
        {
            let (sa, cache) = s;
            let x = i - base;
            let p = sa[i];
            if !(0 <= i < sa.len() && 0 <= x < cache.len()) {
                None
            } else if p <= 0 {
                Some((sa.update(i, unmarked(p)), cache.update(x, ThreadCache { symbol: SAINT_MIN, index: cache[x].index })))
            } else {
                match induced(t, p as int, Side::Below) {
                    Some(entry) => Some((sa.update(i, 0), cache.update(x, entry))),
                    None => None,
                }
            }
        }
}

/// [`gather_left_1k_step`] over the positions from `lo` to `hi`, upward.
pub open spec fn gather_left_1k_run(t: Seq<i32>, base: int, s: (Seq<i32>, Seq<ThreadCache>), lo: int, hi: int) -> Option<(Seq<i32>, Seq<ThreadCache>)> {
    fold_up(gather_left_1k_step(t, base), s, lo, hi)
}

/// Performs one step, or returns `false` where the step is outside its domain.
fn gather_left_1k_at(
    t: &[SaSint],
    base: FastSint,
    sa: &mut [SaSint],
    cache: &mut [ThreadCache],
    i: FastSint,
) -> (ok: bool)
    ensures
        ok == (gather_left_1k_step(t@, base as int)((old(sa)@, old(cache)@), i as int) is Some),
        ok ==> gather_left_1k_step(t@, base as int)((old(sa)@, old(cache)@), i as int) == Some((final(sa)@, final(cache)@)),
        final(sa).len() == old(sa).len(),
        final(cache).len() == old(cache).len(),
{
    if !word_within(i, sa.len()) {
        return false;
    }
    let at: i128 = i as i128 - base as i128;
    if at < 0 || at >= cache.len() as i128 {
        return false;
    }
    let x: usize = at as usize;
    let p: SaSint = sa[i as usize];
    let s: usize = i as usize;
    if p <= 0 {
        sa[s] = clear_mark(p);
        cache[x] = ThreadCache { symbol: SAINT_MIN, index: cache[x].index };
        return true;
    }
    match induce(t, p, Side::Below) {
        Some(entry) => {
            sa[s] = 0;
            cache[x] = entry;
            true
        },
        None => false,
    }
}

/// Runs the steps as far as they are defined; `false` where one is not.
pub(crate) fn try_gather_left_1k(
    t: &[SaSint],
    base: FastSint,
    sa: &mut [SaSint],
    cache: &mut [ThreadCache],
    lo: FastSint,
    hi: FastSint,
) -> (ok: bool)
    ensures
        ok == (gather_left_1k_run(t@, base as int, (old(sa)@, old(cache)@), lo as int, hi as int) is Some),
        ok ==> gather_left_1k_run(t@, base as int, (old(sa)@, old(cache)@), lo as int, hi as int) == Some((final(sa)@, final(cache)@)),
        final(sa).len() == old(sa).len(),
        final(cache).len() == old(cache).len(),
{
    let mut i: FastSint = lo;
    let ghost step = gather_left_1k_step(t@, base as int);
    let ghost s0 = (sa@, cache@);
    while i < hi
        invariant
            lo <= i,
            i <= hi || hi < lo,
            hi < lo ==> i == lo,
            step == gather_left_1k_step(t@, base as int),
            s0 == (old(sa)@, old(cache)@),
            fold_up(step, s0, lo as int, i as int) == Some((sa@, cache@)),
            sa.len() == old(sa).len(),
            cache.len() == old(cache).len(),
        decreases hi - i,
    {
        proof {
            lemma_fold_up_prefix(step, s0, lo as int, i + 1, hi as int);
        }
        if !gather_left_1k_at(t, base, sa, cache, i) {
            return false;
        }
        i += 1;
    }
    true
}

/// Takes a plain suffix from slot `i` and records what it induces; without one the entry is
/// left without a symbol. The cache starts with the entry of slot `base`.
pub open spec fn gather_right_1k_step(t: Seq<i32>, base: int) -> spec_fn((Seq<i32>, Seq<ThreadCache>), int) -> Option<(Seq<i32>, Seq<ThreadCache>)> {
    |s: (Seq<i32>, Seq<ThreadCache>), i: int|
        {
            let (sa, cache) = s;
            let x = i - base;
            let p = sa[i];
            if !(0 <= i < sa.len() && 0 <= x < cache.len()) {
                None
            } else if p <= 0 {
                Some((sa.update(i, p), cache.update(x, ThreadCache { symbol: SAINT_MIN, index: cache[x].index })))
            } else {
                match induced(t, p as int, Side::Above) {
                    Some(entry) => Some((sa.update(i, 0), cache.update(x, entry))),
                    None => None,
                }
            }
        }
}

/// [`gather_right_1k_step`] over the positions from `lo` to `hi`, upward.
pub open spec fn gather_right_1k_run(t: Seq<i32>, base: int, s: (Seq<i32>, Seq<ThreadCache>), lo: int, hi: int) -> Option<(Seq<i32>, Seq<ThreadCache>)> {
    fold_up(gather_right_1k_step(t, base), s, lo, hi)
}

/// Performs one step, or returns `false` where the step is outside its domain.
fn gather_right_1k_at(
    t: &[SaSint],
    base: FastSint,
    sa: &mut [SaSint],
    cache: &mut [ThreadCache],
    i: FastSint,
) -> (ok: bool)
    ensures
        ok == (gather_right_1k_step(t@, base as int)((old(sa)@, old(cache)@), i as int) is Some),
        ok ==> gather_right_1k_step(t@, base as int)((old(sa)@, old(cache)@), i as int) == Some((final(sa)@, final(cache)@)),
        final(sa).len() == old(sa).len(),
        final(cache).len() == old(cache).len(),
{
    if !word_within(i, sa.len()) {
        return false;
    }
    let at: i128 = i as i128 - base as i128;
    if at < 0 || at >= cache.len() as i128 {
        return false;
    }
    let x: usize = at as usize;
    let p: SaSint = sa[i as usize];
    let s: usize = i as usize;
    if p <= 0 {
        sa[s] = p;
        cache[x] = ThreadCache { symbol: SAINT_MIN, index: cache[x].index };
        return true;
    }
    match induce(t, p, Side::Above) {
        Some(entry) => {
            sa[s] = 0;
            cache[x] = entry;
            true
        },
        None => false,
    }
}

/// Runs the steps as far as they are defined; `false` where one is not.
pub(crate) fn try_gather_right_1k(
    t: &[SaSint],
    base: FastSint,
    sa: &mut [SaSint],
    cache: &mut [ThreadCache],
    lo: FastSint,
    hi: FastSint,
) -> (ok: bool)
    ensures
        ok == (gather_right_1k_run(t@, base as int, (old(sa)@, old(cache)@), lo as int, hi as int) is Some),
        ok ==> gather_right_1k_run(t@, base as int, (old(sa)@, old(cache)@), lo as int, hi as int) == Some((final(sa)@, final(cache)@)),
        final(sa).len() == old(sa).len(),
        final(cache).len() == old(cache).len(),
{
    let mut i: FastSint = lo;
    let ghost step = gather_right_1k_step(t@, base as int);
    let ghost s0 = (sa@, cache@);
    while i < hi
        invariant
            lo <= i,
            i <= hi || hi < lo,
            hi < lo ==> i == lo,
            step == gather_right_1k_step(t@, base as int),
            s0 == (old(sa)@, old(cache)@),
            fold_up(step, s0, lo as int, i as int) == Some((sa@, cache@)),
            sa.len() == old(sa).len(),
            cache.len() == old(cache).len(),
        decreases hi - i,
    {
        proof {
            lemma_fold_up_prefix(step, s0, lo as int, i + 1, hi as int);
        }
        if !gather_right_1k_at(t, base, sa, cache, i) {
            return false;
        }
        i += 1;
    }
    true
}

/// Inverts the mark at slot `i` and records what a plain suffix there induces; without one the
/// entry is left without a symbol. The cache starts with the entry of slot `base`.
pub open spec fn gather_final_left_step(t: Seq<i32>, base: int) -> spec_fn((Seq<i32>, Seq<ThreadCache>), int) -> Option<(Seq<i32>, Seq<ThreadCache>)> {
    |s: (Seq<i32>, Seq<ThreadCache>), i: int|
        {
            let (sa, cache) = s;
            let x = i - base;
            let p = sa[i];
            if !(0 <= i < sa.len() && 0 <= x < cache.len()) {
                None
            } else if p <= 0 {
                Some((sa.update(i, flipped(p)), cache.update(x, ThreadCache { symbol: SAINT_MIN, index: cache[x].index })))
            } else {
                match finally_induced(t, p as int, false) {
                    Some(entry) => Some((sa.update(i, flipped(p)), cache.update(x, entry))),
                    None => None,
                }
            }
        }
}

/// [`gather_final_left_step`] over the positions from `lo` to `hi`, upward.
pub open spec fn gather_final_left_run(t: Seq<i32>, base: int, s: (Seq<i32>, Seq<ThreadCache>), lo: int, hi: int) -> Option<(Seq<i32>, Seq<ThreadCache>)> {
    fold_up(gather_final_left_step(t, base), s, lo, hi)
}

/// Performs one step, or returns `false` where the step is outside its domain.
fn gather_final_left_at(
    t: &[SaSint],
    base: FastSint,
    sa: &mut [SaSint],
    cache: &mut [ThreadCache],
    i: FastSint,
) -> (ok: bool)
    ensures
        ok == (gather_final_left_step(t@, base as int)((old(sa)@, old(cache)@), i as int) is Some),
        ok ==> gather_final_left_step(t@, base as int)((old(sa)@, old(cache)@), i as int) == Some((final(sa)@, final(cache)@)),
        final(sa).len() == old(sa).len(),
        final(cache).len() == old(cache).len(),
{
    if !word_within(i, sa.len()) {
        return false;
    }
    let at: i128 = i as i128 - base as i128;
    if at < 0 || at >= cache.len() as i128 {
        return false;
    }
    let x: usize = at as usize;
    let p: SaSint = sa[i as usize];
    let s: usize = i as usize;
    if p <= 0 {
        sa[s] = flip_mark(p);
        cache[x] = ThreadCache { symbol: SAINT_MIN, index: cache[x].index };
        return true;
    }
    match finally_induce(t, p, false) {
        Some(entry) => {
            sa[s] = flip_mark(p);
            cache[x] = entry;
            true
        },
        None => false,
    }
}

/// Runs the steps as far as they are defined; `false` where one is not.
pub(crate) fn try_gather_final_left(
    t: &[SaSint],
    base: FastSint,
    sa: &mut [SaSint],
    cache: &mut [ThreadCache],
    lo: FastSint,
    hi: FastSint,
) -> (ok: bool)
    ensures
        ok == (gather_final_left_run(t@, base as int, (old(sa)@, old(cache)@), lo as int, hi as int) is Some),
        ok ==> gather_final_left_run(t@, base as int, (old(sa)@, old(cache)@), lo as int, hi as int) == Some((final(sa)@, final(cache)@)),
        final(sa).len() == old(sa).len(),
        final(cache).len() == old(cache).len(),
{
    let mut i: FastSint = lo;
    let ghost step = gather_final_left_step(t@, base as int);
    let ghost s0 = (sa@, cache@);
    while i < hi
        invariant
            lo <= i,
            i <= hi || hi < lo,
            hi < lo ==> i == lo,
            step == gather_final_left_step(t@, base as int),
            s0 == (old(sa)@, old(cache)@),
            fold_up(step, s0, lo as int, i as int) == Some((sa@, cache@)),
            sa.len() == old(sa).len(),
            cache.len() == old(cache).len(),
        decreases hi - i,
    {
        proof {
            lemma_fold_up_prefix(step, s0, lo as int, i + 1, hi as int);
        }
        if !gather_final_left_at(t, base, sa, cache, i) {
            return false;
        }
        i += 1;
    }
    true
}

/// Clears the mark at slot `i` and records what a plain suffix there induces; without one the
/// entry is left without a symbol. The cache starts with the entry of slot `base`.
pub open spec fn gather_final_right_step(t: Seq<i32>, base: int) -> spec_fn((Seq<i32>, Seq<ThreadCache>), int) -> Option<(Seq<i32>, Seq<ThreadCache>)> {
    |s: (Seq<i32>, Seq<ThreadCache>), i: int|
        {
            let (sa, cache) = s;
            let x = i - base;
            let p = sa[i];
            if !(0 <= i < sa.len() && 0 <= x < cache.len()) {
                None
            } else if p <= 0 {
                Some((sa.update(i, unmarked(p)), cache.update(x, ThreadCache { symbol: SAINT_MIN, index: cache[x].index })))
            } else {
                match finally_induced(t, p as int, true) {
                    Some(entry) => Some((sa.update(i, unmarked(p)), cache.update(x, entry))),
                    None => None,
                }
            }
        }
}

/// [`gather_final_right_step`] over the positions from `lo` to `hi`, upward.
pub open spec fn gather_final_right_run(t: Seq<i32>, base: int, s: (Seq<i32>, Seq<ThreadCache>), lo: int, hi: int) -> Option<(Seq<i32>, Seq<ThreadCache>)> {
    fold_up(gather_final_right_step(t, base), s, lo, hi)
}

/// Performs one step, or returns `false` where the step is outside its domain.
fn gather_final_right_at(
    t: &[SaSint],
    base: FastSint,
    sa: &mut [SaSint],
    cache: &mut [ThreadCache],
    i: FastSint,
) -> (ok: bool)
    ensures
        ok == (gather_final_right_step(t@, base as int)((old(sa)@, old(cache)@), i as int) is Some),
        ok ==> gather_final_right_step(t@, base as int)((old(sa)@, old(cache)@), i as int) == Some((final(sa)@, final(cache)@)),
        final(sa).len() == old(sa).len(),
        final(cache).len() == old(cache).len(),
{
    if !word_within(i, sa.len()) {
        return false;
    }
    let at: i128 = i as i128 - base as i128;
    if at < 0 || at >= cache.len() as i128 {
        return false;
    }
    let x: usize = at as usize;
    let p: SaSint = sa[i as usize];
    let s: usize = i as usize;
    if p <= 0 {
        sa[s] = clear_mark(p);
        cache[x] = ThreadCache { symbol: SAINT_MIN, index: cache[x].index };
        return true;
    }
    match finally_induce(t, p, true) {
        Some(entry) => {
            sa[s] = clear_mark(p);
            cache[x] = entry;
            true
        },
        None => false,
    }
}

/// Runs the steps as far as they are defined; `false` where one is not.
pub(crate) fn try_gather_final_right(
    t: &[SaSint],
    base: FastSint,
    sa: &mut [SaSint],
    cache: &mut [ThreadCache],
    lo: FastSint,
    hi: FastSint,
) -> (ok: bool)
    ensures
        ok == (gather_final_right_run(t@, base as int, (old(sa)@, old(cache)@), lo as int, hi as int) is Some),
        ok ==> gather_final_right_run(t@, base as int, (old(sa)@, old(cache)@), lo as int, hi as int) == Some((final(sa)@, final(cache)@)),
        final(sa).len() == old(sa).len(),
        final(cache).len() == old(cache).len(),
{
    let mut i: FastSint = lo;
    let ghost step = gather_final_right_step(t@, base as int);
    let ghost s0 = (sa@, cache@);
    while i < hi
        invariant
            lo <= i,
            i <= hi || hi < lo,
            hi < lo ==> i == lo,
            step == gather_final_right_step(t@, base as int),
            s0 == (old(sa)@, old(cache)@),
            fold_up(step, s0, lo as int, i as int) == Some((sa@, cache@)),
            sa.len() == old(sa).len(),
            cache.len() == old(cache).len(),
        decreases hi - i,
    {
        proof {
            lemma_fold_up_prefix(step, s0, lo as int, i + 1, hi as int);
        }
        if !gather_final_right_at(t, base, sa, cache, i) {
            return false;
        }
        i += 1;
    }
    true
}

/// Gives cache entry `i` its slot and its name, from the front of its bucket. Where the slot is itself in
/// the block, what is written there is to induce in turn. The cache starts with the entry of
/// slot `base`; `edge` is where the block ends, and `first` where it starts.
pub open spec fn sort_left_6k_step(t: Seq<i32>, base: int, first: int, edge: int) -> spec_fn((Seq<i32>, i32, Seq<ThreadCache>), int) -> Option<(Seq<i32>, i32, Seq<ThreadCache>)> {
    |s: (Seq<i32>, i32, Seq<ThreadCache>), i: int|
        {
            let (buckets, d, cache) = s;
            let x = i - base;
            let b = buckets;
            let v = cache[x].symbol;
            let p = cache[x].index;
            let e = d + bit(p < 0);
            let target = b[v as int] as int;
            let y = marked((p - 1) as i32, b[v + 2] != e);
            let c = cache.update(x, ThreadCache { symbol: target as i32, index: y });
            let w = b.update(v as int, (target + 1) as i32).update(v + 2, e as i32);
            if !(0 <= x < cache.len() && 0 <= v && v + 2 < b.len() && p > i32::MIN && e <= i32::MAX && target < i32::MAX) {
                None
            } else if target < edge {
                match bucket_symbol(t, unmarked(y) as int, Side::NotBelow, 4) {
                    Some(symbol) => if 0 <= target - first < cache.len() {
                        Some((w, e as i32, c.update(target - first, ThreadCache { symbol, index: y })))
                    } else {
                        None
                    },
                    None => None,
                }
            } else {
                Some((w, e as i32, c))
            }
        }
}

/// [`sort_left_6k_step`] over the positions from `lo` to `hi`, upward.
pub open spec fn sort_left_6k_run(t: Seq<i32>, base: int, first: int, edge: int, s: (Seq<i32>, i32, Seq<ThreadCache>), lo: int, hi: int) -> Option<(Seq<i32>, i32, Seq<ThreadCache>)> {
    fold_up(sort_left_6k_step(t, base, first, edge), s, lo, hi)
}

/// Performs one step, or returns `false` where the step is outside its domain.
fn sort_left_6k_at(
    t: &[SaSint],
    base: FastSint,
    first: SaSint,
    edge: SaSint,
    buckets: &mut [SaSint],
    d: &mut SaSint,
    cache: &mut [ThreadCache],
    i: FastSint,
) -> (ok: bool)
    ensures
        ok == (sort_left_6k_step(t@, base as int, first as int, edge as int)((old(buckets)@, *old(d), old(cache)@), i as int) is Some),
        ok ==> sort_left_6k_step(t@, base as int, first as int, edge as int)((old(buckets)@, *old(d), old(cache)@), i as int) == Some((final(buckets)@, *final(d), final(cache)@)),
        final(buckets).len() == old(buckets).len(),
        final(cache).len() == old(cache).len(),
{
    let at: i128 = i as i128 - base as i128;
    if at < 0 || at >= cache.len() as i128 {
        return false;
    }
    let x: usize = at as usize;
    let v: SaSint = cache[x].symbol;
    let p: SaSint = cache[x].index;
    if v < 0 || v as u64 + 2 >= buckets.len() as u64 || p == SAINT_MIN || (p < 0 && *d == SAINT_MAX) {
        return false;
    }
    let e: SaSint = if p < 0 { *d + 1 } else { *d };
    let z: usize = v as usize;
    let target: SaSint = buckets[z];
    if target == SAINT_MAX {
        return false;
    }
    buckets[z] = target + 1;
    let y: SaSint = set_mark(p - 1, buckets[z + 2] != e);
    cache[x] = ThreadCache { symbol: target, index: y };
    buckets[z + 2] = e;
    *d = e;
    if target < edge {
        match find_bucket(t, clear_mark(y), Side::NotBelow, 4) {
            Some(symbol) => {
                let to: i64 = target as i64 - first as i64;
                if to < 0 || to as u64 >= cache.len() as u64 {
                    return false;
                }
                cache[to as usize] = ThreadCache { symbol, index: y };
            },
            None => return false,
        }
    }
    true
}

/// Runs the steps as far as they are defined; `false` where one is not.
pub(crate) fn try_sort_left_6k(
    t: &[SaSint],
    base: FastSint,
    first: SaSint,
    edge: SaSint,
    buckets: &mut [SaSint],
    d: &mut SaSint,
    cache: &mut [ThreadCache],
    lo: FastSint,
    hi: FastSint,
) -> (ok: bool)
    ensures
        ok == (sort_left_6k_run(t@, base as int, first as int, edge as int, (old(buckets)@, *old(d), old(cache)@), lo as int, hi as int) is Some),
        ok ==> sort_left_6k_run(t@, base as int, first as int, edge as int, (old(buckets)@, *old(d), old(cache)@), lo as int, hi as int) == Some((final(buckets)@, *final(d), final(cache)@)),
        final(buckets).len() == old(buckets).len(),
        final(cache).len() == old(cache).len(),
{
    let mut i: FastSint = lo;
    let ghost step = sort_left_6k_step(t@, base as int, first as int, edge as int);
    let ghost s0 = (buckets@, *d, cache@);
    while i < hi
        invariant
            lo <= i,
            i <= hi || hi < lo,
            hi < lo ==> i == lo,
            step == sort_left_6k_step(t@, base as int, first as int, edge as int),
            s0 == (old(buckets)@, *old(d), old(cache)@),
            fold_up(step, s0, lo as int, i as int) == Some((buckets@, *d, cache@)),
            buckets.len() == old(buckets).len(),
            cache.len() == old(cache).len(),
        decreases hi - i,
    {
        proof {
            lemma_fold_up_prefix(step, s0, lo as int, i + 1, hi as int);
        }
        if !sort_left_6k_at(t, base, first, edge, buckets, d, cache, i) {
            return false;
        }
        i += 1;
    }
    true
}

/// Gives cache entry `i` its slot and its name, from the end of its bucket. Where the slot is itself in
/// the block, what is written there is to induce in turn. The cache starts with the entry of
/// slot `base`; `edge` is where the block starts, and `first` where it starts.
pub open spec fn sort_right_6k_step(t: Seq<i32>, base: int, first: int, edge: int) -> spec_fn((Seq<i32>, i32, Seq<ThreadCache>), int) -> Option<(Seq<i32>, i32, Seq<ThreadCache>)> {
    |s: (Seq<i32>, i32, Seq<ThreadCache>), i: int|
        {
            let (buckets, d, cache) = s;
            let x = i - base;
            let b = buckets;
            let v = cache[x].symbol;
            let p = cache[x].index;
            let e = d + bit(p < 0);
            let target = b[v as int] - 1;
            let y = marked((p - 1) as i32, b[v + 2] != e);
            let c = cache.update(x, ThreadCache { symbol: target as i32, index: y });
            let w = b.update(v as int, target as i32).update(v + 2, e as i32);
            if !(0 <= x < cache.len() && 0 <= v && v + 2 < b.len() && p > i32::MIN && e <= i32::MAX && target >= i32::MIN) {
                None
            } else if target >= edge {
                match bucket_symbol(t, unmarked(y) as int, Side::Above, 4) {
                    Some(symbol) => if 0 <= target - first < cache.len() {
                        Some((w, e as i32, c.update(target - first, ThreadCache { symbol, index: y })))
                    } else {
                        None
                    },
                    None => None,
                }
            } else {
                Some((w, e as i32, c))
            }
        }
}

/// [`sort_right_6k_step`] over the positions from `lo` to `hi`, downward.
pub open spec fn sort_right_6k_run(t: Seq<i32>, base: int, first: int, edge: int, s: (Seq<i32>, i32, Seq<ThreadCache>), lo: int, hi: int) -> Option<(Seq<i32>, i32, Seq<ThreadCache>)> {
    fold_down(sort_right_6k_step(t, base, first, edge), s, lo, hi)
}

/// Performs one step, or returns `false` where the step is outside its domain.
fn sort_right_6k_at(
    t: &[SaSint],
    base: FastSint,
    first: SaSint,
    edge: SaSint,
    buckets: &mut [SaSint],
    d: &mut SaSint,
    cache: &mut [ThreadCache],
    i: FastSint,
) -> (ok: bool)
    ensures
        ok == (sort_right_6k_step(t@, base as int, first as int, edge as int)((old(buckets)@, *old(d), old(cache)@), i as int) is Some),
        ok ==> sort_right_6k_step(t@, base as int, first as int, edge as int)((old(buckets)@, *old(d), old(cache)@), i as int) == Some((final(buckets)@, *final(d), final(cache)@)),
        final(buckets).len() == old(buckets).len(),
        final(cache).len() == old(cache).len(),
{
    let at: i128 = i as i128 - base as i128;
    if at < 0 || at >= cache.len() as i128 {
        return false;
    }
    let x: usize = at as usize;
    let v: SaSint = cache[x].symbol;
    let p: SaSint = cache[x].index;
    if v < 0 || v as u64 + 2 >= buckets.len() as u64 || p == SAINT_MIN || (p < 0 && *d == SAINT_MAX) {
        return false;
    }
    let e: SaSint = if p < 0 { *d + 1 } else { *d };
    let z: usize = v as usize;
    if buckets[z] == SAINT_MIN {
        return false;
    }
    let target: SaSint = buckets[z] - 1;
    buckets[z] = target;
    let y: SaSint = set_mark(p - 1, buckets[z + 2] != e);
    cache[x] = ThreadCache { symbol: target, index: y };
    buckets[z + 2] = e;
    *d = e;
    if target >= edge {
        match find_bucket(t, clear_mark(y), Side::Above, 4) {
            Some(symbol) => {
                let to: i64 = target as i64 - first as i64;
                if to < 0 || to as u64 >= cache.len() as u64 {
                    return false;
                }
                cache[to as usize] = ThreadCache { symbol, index: y };
            },
            None => return false,
        }
    }
    true
}

/// Runs the steps as far as they are defined; `false` where one is not.
pub(crate) fn try_sort_right_6k(
    t: &[SaSint],
    base: FastSint,
    first: SaSint,
    edge: SaSint,
    buckets: &mut [SaSint],
    d: &mut SaSint,
    cache: &mut [ThreadCache],
    lo: FastSint,
    hi: FastSint,
) -> (ok: bool)
    ensures
        ok == (sort_right_6k_run(t@, base as int, first as int, edge as int, (old(buckets)@, *old(d), old(cache)@), lo as int, hi as int) is Some),
        ok ==> sort_right_6k_run(t@, base as int, first as int, edge as int, (old(buckets)@, *old(d), old(cache)@), lo as int, hi as int) == Some((final(buckets)@, *final(d), final(cache)@)),
        final(buckets).len() == old(buckets).len(),
        final(cache).len() == old(cache).len(),
{
    if hi <= lo {
        return true;
    }
    let mut i: FastSint = hi;
    let ghost step = sort_right_6k_step(t@, base as int, first as int, edge as int);
    let ghost s0 = (buckets@, *d, cache@);
    while i > lo
        invariant
            lo <= i <= hi,
            step == sort_right_6k_step(t@, base as int, first as int, edge as int),
            s0 == (old(buckets)@, *old(d), old(cache)@),
            fold_down(step, s0, i as int, hi as int) == Some((buckets@, *d, cache@)),
            buckets.len() == old(buckets).len(),
            cache.len() == old(cache).len(),
        decreases i - lo,
    {
        proof {
            lemma_fold_down_prefix(step, s0, lo as int, i - 1, hi as int);
        }
        i -= 1;
        if !sort_right_6k_at(t, base, first, edge, buckets, d, cache, i) {
            return false;
        }
    }
    true
}

/// Gives cache entry `i`, where it has a bucket, its slot and its name, from the front of its
/// bucket. Where the slot is itself in the block, what is written there leaves it to induce in
/// turn. The cache starts with the entry of slot `base`; `edge` is where the block ends,
/// and `first` where it starts.
pub open spec fn sort_left_4k_step(t: Seq<i32>, k: int, base: int, first: int, edge: int) -> spec_fn((Seq<i32>, i32, Seq<ThreadCache>), int) -> Option<(Seq<i32>, i32, Seq<ThreadCache>)> {
    |s: (Seq<i32>, i32, Seq<ThreadCache>), i: int|
        {
            let (buckets, d, cache) = s;
            let x = i - base;
            let b = buckets;
            let v = cache[x].symbol as int;
            let p = cache[x].index;
            let e = d + upper_bits(p);
            let u = 2 * k + v / 2;
            let target = b[u] as int;
            let y = with_group(marked((p - 1) as i32, v % 2 == 1), b[v] != e);
            let c = cache.update(x, ThreadCache { symbol: target as i32, index: y });
            let w = b.update(u, (target + 1) as i32).update(v, e as i32);
            if !(0 <= x < cache.len()) {
                None
            } else if v < 0 {
                Some((b, d, cache))
            } else if !(0 <= k && v < 2 * k && u < b.len() && p > i32::MIN && i32::MIN <= e <= i32::MAX && target < i32::MAX) {
                None
            } else if !(target < edge) {
                Some((w, e as i32, c))
            } else if y <= 0 {
                if 0 <= target - first {
                    Some((w, e as i32, c.update(x, ThreadCache { symbol: target as i32, index: unmarked(y) })))
                } else {
                    None
                }
            } else {
                match bucket_symbol(t, ungrouped(y) as int, Side::Below, 2) {
                    Some(symbol) => {
                        if 0 <= target - first < cache.len() {
                            let z = c.update(target - first, ThreadCache { symbol, index: y });
                            Some((w, e as i32, z.update(x, ThreadCache { symbol: z[x].symbol, index: 0 })))
                        } else {
                            None
                        }
                    },
                    None => None,
                }
            }
        }
}

/// [`sort_left_4k_step`] over the positions from `lo` to `hi`, upward.
pub open spec fn sort_left_4k_run(t: Seq<i32>, k: int, base: int, first: int, edge: int, s: (Seq<i32>, i32, Seq<ThreadCache>), lo: int, hi: int) -> Option<(Seq<i32>, i32, Seq<ThreadCache>)> {
    fold_up(sort_left_4k_step(t, k, base, first, edge), s, lo, hi)
}

/// Performs one step, or returns `false` where the step is outside its domain.
fn sort_left_4k_at(
    t: &[SaSint],
    k: SaSint,
    base: FastSint,
    first: SaSint,
    edge: SaSint,
    buckets: &mut [SaSint],
    d: &mut SaSint,
    cache: &mut [ThreadCache],
    i: FastSint,
) -> (ok: bool)
    ensures
        ok == (sort_left_4k_step(t@, k as int, base as int, first as int, edge as int)((old(buckets)@, *old(d), old(cache)@), i as int) is Some),
        ok ==> sort_left_4k_step(t@, k as int, base as int, first as int, edge as int)((old(buckets)@, *old(d), old(cache)@), i as int) == Some((final(buckets)@, *final(d), final(cache)@)),
        final(buckets).len() == old(buckets).len(),
        final(cache).len() == old(cache).len(),
{
    let at: i128 = i as i128 - base as i128;
    if at < 0 || at >= cache.len() as i128 {
        return false;
    }
    let x: usize = at as usize;
    let v: SaSint = cache[x].symbol;
    if v < 0 {
        return true;
    }
    let p: SaSint = cache[x].index;
    if k < 0 || v as i64 >= 2 * (k as i64) || 2 * (k as u64) + v as u64 / 2 >= buckets.len() as u64 || p == SAINT_MIN {
        return false;
    }
    let upper: SaSint = take_upper_bits(p);
    let sum: i64 = *d as i64 + upper as i64;
    if sum > 0x7fff_ffff || sum < -0x8000_0000 {
        return false;
    }
    let e: SaSint = sum as SaSint;
    let z: usize = v as usize;
    let u: usize = (2 * (k as u64) + v as u64 / 2) as usize;
    let target: SaSint = buckets[u];
    if target == SAINT_MAX {
        return false;
    }
    buckets[u] = target + 1;
    let y: SaSint = set_group(set_mark(p - 1, v % 2 == 1), buckets[z] != e);
    cache[x] = ThreadCache { symbol: target, index: y };
    buckets[z] = e;
    *d = e;
    if target < edge {
        if y <= 0 {
            if target < first {
                return false;
            }
            cache[x] = ThreadCache { symbol: target, index: clear_mark(y) };
            return true;
        }
        match find_bucket(t, clear_group(y), Side::Below, 2) {
            Some(symbol) => {
                let to: i64 = target as i64 - first as i64;
                if to < 0 || to as u64 >= cache.len() as u64 {
                    return false;
                }
                cache[to as usize] = ThreadCache { symbol, index: y };
                cache[x] = ThreadCache { symbol: cache[x].symbol, index: 0 };
            },
            None => return false,
        }
    }
    true
}

/// Runs the steps as far as they are defined; `false` where one is not.
pub(crate) fn try_sort_left_4k(
    t: &[SaSint],
    k: SaSint,
    base: FastSint,
    first: SaSint,
    edge: SaSint,
    buckets: &mut [SaSint],
    d: &mut SaSint,
    cache: &mut [ThreadCache],
    lo: FastSint,
    hi: FastSint,
) -> (ok: bool)
    ensures
        ok == (sort_left_4k_run(t@, k as int, base as int, first as int, edge as int, (old(buckets)@, *old(d), old(cache)@), lo as int, hi as int) is Some),
        ok ==> sort_left_4k_run(t@, k as int, base as int, first as int, edge as int, (old(buckets)@, *old(d), old(cache)@), lo as int, hi as int) == Some((final(buckets)@, *final(d), final(cache)@)),
        final(buckets).len() == old(buckets).len(),
        final(cache).len() == old(cache).len(),
{
    let mut i: FastSint = lo;
    let ghost step = sort_left_4k_step(t@, k as int, base as int, first as int, edge as int);
    let ghost s0 = (buckets@, *d, cache@);
    while i < hi
        invariant
            lo <= i,
            i <= hi || hi < lo,
            hi < lo ==> i == lo,
            step == sort_left_4k_step(t@, k as int, base as int, first as int, edge as int),
            s0 == (old(buckets)@, *old(d), old(cache)@),
            fold_up(step, s0, lo as int, i as int) == Some((buckets@, *d, cache@)),
            buckets.len() == old(buckets).len(),
            cache.len() == old(cache).len(),
        decreases hi - i,
    {
        proof {
            lemma_fold_up_prefix(step, s0, lo as int, i + 1, hi as int);
        }
        if !sort_left_4k_at(t, k, base, first, edge, buckets, d, cache, i) {
            return false;
        }
        i += 1;
    }
    true
}

/// Gives cache entry `i`, where it has a bucket, its slot and its name, from the end of its
/// bucket. Where the slot is itself in the block, what is written there leaves it to induce in
/// turn. The cache starts with the entry of slot `base`; `edge` is where the block starts,
/// and `first` where it starts.
pub open spec fn sort_right_4k_step(t: Seq<i32>, k: int, base: int, first: int, edge: int) -> spec_fn((Seq<i32>, i32, Seq<ThreadCache>), int) -> Option<(Seq<i32>, i32, Seq<ThreadCache>)> {
    |s: (Seq<i32>, i32, Seq<ThreadCache>), i: int|
        {
            let (buckets, d, cache) = s;
            let x = i - base;
            let b = buckets;
            let v = cache[x].symbol as int;
            let p = cache[x].index;
            let e = d + upper_bits(p);
            let u = 3 * k + v / 2;
            let target = b[u] - 1;
            let y = with_group(marked((p - 1) as i32, v % 2 == 1), b[v] != e);
            let c = cache.update(x, ThreadCache { symbol: target as i32, index: y });
            let w = b.update(u, target as i32).update(v, e as i32);
            if !(0 <= x < cache.len()) {
                None
            } else if v < 0 {
                Some((b, d, cache))
            } else if !(0 <= k && v < 2 * k && u < b.len() && p > i32::MIN && i32::MIN <= e <= i32::MAX && target >= i32::MIN) {
                None
            } else if !(target >= edge) {
                Some((w, e as i32, c))
            } else if y <= 0 {
                if 0 <= target - first {
                    Some((w, e as i32, c))
                } else {
                    None
                }
            } else {
                match bucket_symbol(t, ungrouped(y) as int, Side::Above, 2) {
                    Some(symbol) => {
                        if 0 <= target - first < cache.len() {
                            Some((
                                w,
                                e as i32,
                                c.update(x, ThreadCache { symbol: target as i32, index: 0 }).update(target - first, ThreadCache { symbol, index: y }),
                            ))
                        } else {
                            None
                        }
                    },
                    None => None,
                }
            }
        }
}

/// [`sort_right_4k_step`] over the positions from `lo` to `hi`, downward.
pub open spec fn sort_right_4k_run(t: Seq<i32>, k: int, base: int, first: int, edge: int, s: (Seq<i32>, i32, Seq<ThreadCache>), lo: int, hi: int) -> Option<(Seq<i32>, i32, Seq<ThreadCache>)> {
    fold_down(sort_right_4k_step(t, k, base, first, edge), s, lo, hi)
}

/// Performs one step, or returns `false` where the step is outside its domain.
fn sort_right_4k_at(
    t: &[SaSint],
    k: SaSint,
    base: FastSint,
    first: SaSint,
    edge: SaSint,
    buckets: &mut [SaSint],
    d: &mut SaSint,
    cache: &mut [ThreadCache],
    i: FastSint,
) -> (ok: bool)
    ensures
        ok == (sort_right_4k_step(t@, k as int, base as int, first as int, edge as int)((old(buckets)@, *old(d), old(cache)@), i as int) is Some),
        ok ==> sort_right_4k_step(t@, k as int, base as int, first as int, edge as int)((old(buckets)@, *old(d), old(cache)@), i as int) == Some((final(buckets)@, *final(d), final(cache)@)),
        final(buckets).len() == old(buckets).len(),
        final(cache).len() == old(cache).len(),
{
    let at: i128 = i as i128 - base as i128;
    if at < 0 || at >= cache.len() as i128 {
        return false;
    }
    let x: usize = at as usize;
    let v: SaSint = cache[x].symbol;
    if v < 0 {
        return true;
    }
    let p: SaSint = cache[x].index;
    if k < 0 || v as i64 >= 2 * (k as i64) || 3 * (k as u64) + v as u64 / 2 >= buckets.len() as u64 || p == SAINT_MIN {
        return false;
    }
    let upper: SaSint = take_upper_bits(p);
    let sum: i64 = *d as i64 + upper as i64;
    if sum > 0x7fff_ffff || sum < -0x8000_0000 {
        return false;
    }
    let e: SaSint = sum as SaSint;
    let z: usize = v as usize;
    let u: usize = (3 * (k as u64) + v as u64 / 2) as usize;
    if buckets[u] == SAINT_MIN {
        return false;
    }
    let target: SaSint = buckets[u] - 1;
    buckets[u] = target;
    let y: SaSint = set_group(set_mark(p - 1, v % 2 == 1), buckets[z] != e);
    cache[x] = ThreadCache { symbol: target, index: y };
    buckets[z] = e;
    *d = e;
    if target >= edge {
        if y <= 0 {
            if target < first {
                return false;
            }
            return true;
        }
        match find_bucket(t, clear_group(y), Side::Above, 2) {
            Some(symbol) => {
                let to: i64 = target as i64 - first as i64;
                if to < 0 || to as u64 >= cache.len() as u64 {
                    return false;
                }
                cache[x] = ThreadCache { symbol: target, index: 0 };
                cache[to as usize] = ThreadCache { symbol, index: y };
            },
            None => return false,
        }
    }
    true
}

/// Runs the steps as far as they are defined; `false` where one is not.
pub(crate) fn try_sort_right_4k(
    t: &[SaSint],
    k: SaSint,
    base: FastSint,
    first: SaSint,
    edge: SaSint,
    buckets: &mut [SaSint],
    d: &mut SaSint,
    cache: &mut [ThreadCache],
    lo: FastSint,
    hi: FastSint,
) -> (ok: bool)
    ensures
        ok == (sort_right_4k_run(t@, k as int, base as int, first as int, edge as int, (old(buckets)@, *old(d), old(cache)@), lo as int, hi as int) is Some),
        ok ==> sort_right_4k_run(t@, k as int, base as int, first as int, edge as int, (old(buckets)@, *old(d), old(cache)@), lo as int, hi as int) == Some((final(buckets)@, *final(d), final(cache)@)),
        final(buckets).len() == old(buckets).len(),
        final(cache).len() == old(cache).len(),
{
    if hi <= lo {
        return true;
    }
    let mut i: FastSint = hi;
    let ghost step = sort_right_4k_step(t@, k as int, base as int, first as int, edge as int);
    let ghost s0 = (buckets@, *d, cache@);
    while i > lo
        invariant
            lo <= i <= hi,
            step == sort_right_4k_step(t@, k as int, base as int, first as int, edge as int),
            s0 == (old(buckets)@, *old(d), old(cache)@),
            fold_down(step, s0, i as int, hi as int) == Some((buckets@, *d, cache@)),
            buckets.len() == old(buckets).len(),
            cache.len() == old(cache).len(),
        decreases i - lo,
    {
        proof {
            lemma_fold_down_prefix(step, s0, lo as int, i - 1, hi as int);
        }
        i -= 1;
        if !sort_right_4k_at(t, k, base, first, edge, buckets, d, cache, i) {
            return false;
        }
    }
    true
}

/// Gives cache entry `i`, where it has a symbol, its slot, from the front of its bucket. Where
/// the slot is itself in the block, what is written there is to induce in turn. The cache
/// starts with the entry of slot `base`; `edge` is where the block ends.
pub open spec fn sort_left_1k_step(t: Seq<i32>, base: int, edge: int) -> spec_fn((Seq<i32>, Seq<ThreadCache>), int) -> Option<(Seq<i32>, Seq<ThreadCache>)> {
    |s: (Seq<i32>, Seq<ThreadCache>), i: int|
        {
            let (buckets, cache) = s;
            let x = i - base;
            let b = buckets;
            let v = cache[x].symbol as int;
            let p = cache[x].index;
            let target = b[v] as int;
            let c = cache.update(x, ThreadCache { symbol: target as i32, index: p });
            let w = b.update(v, (target + 1) as i32);
            if !(0 <= x < cache.len()) {
                None
            } else if v < 0 {
                Some((b, cache))
            } else if !(v < b.len() && target < i32::MAX) {
                None
            } else if !(target < edge) {
                Some((w, c))
            } else {
                if !(0 <= target - base) {
                    None
                } else if p <= 0 {
                    Some((w, c.update(x, ThreadCache { symbol: target as i32, index: unmarked(p) })))
                } else {
                    match induced(t, p as int, Side::Below) {
                        Some(entry) => if target - base < cache.len() {
                            let z = c.update(target - base, entry);
                            Some((w, z.update(x, ThreadCache { symbol: z[x].symbol, index: 0 })))
                        } else {
                            None
                        },
                        None => None,
                    }
                }
            }
        }
}

/// [`sort_left_1k_step`] over the positions from `lo` to `hi`, upward.
pub open spec fn sort_left_1k_run(t: Seq<i32>, base: int, edge: int, s: (Seq<i32>, Seq<ThreadCache>), lo: int, hi: int) -> Option<(Seq<i32>, Seq<ThreadCache>)> {
    fold_up(sort_left_1k_step(t, base, edge), s, lo, hi)
}

/// Performs one step, or returns `false` where the step is outside its domain.
fn sort_left_1k_at(
    t: &[SaSint],
    base: FastSint,
    edge: SaSint,
    buckets: &mut [SaSint],
    cache: &mut [ThreadCache],
    i: FastSint,
) -> (ok: bool)
    ensures
        ok == (sort_left_1k_step(t@, base as int, edge as int)((old(buckets)@, old(cache)@), i as int) is Some),
        ok ==> sort_left_1k_step(t@, base as int, edge as int)((old(buckets)@, old(cache)@), i as int) == Some((final(buckets)@, final(cache)@)),
        final(buckets).len() == old(buckets).len(),
        final(cache).len() == old(cache).len(),
{
    let at: i128 = i as i128 - base as i128;
    if at < 0 || at >= cache.len() as i128 {
        return false;
    }
    let x: usize = at as usize;
    let v: SaSint = cache[x].symbol;
    if v < 0 {
        return true;
    }
    let p: SaSint = cache[x].index;
    if !within(v, buckets.len()) {
        return false;
    }
    let z: usize = v as usize;
    let target: SaSint = buckets[z];
    if target == SAINT_MAX {
        return false;
    }
    buckets[z] = target + 1;
    cache[x] = ThreadCache { symbol: target, index: p };
    if target < edge {
        let to: i128 = target as i128 - base as i128;
        if to < 0 {
            return false;
        }
        if p <= 0 {
            cache[x] = ThreadCache { symbol: target, index: clear_mark(p) };
            return true;
        }
        match induce(t, p, Side::Below) {
            Some(entry) => {
                if to >= cache.len() as i128 {
                    return false;
                }
                cache[to as usize] = entry;
                cache[x] = ThreadCache { symbol: cache[x].symbol, index: 0 };
            },
            None => return false,
        }
    }
    true
}

/// Runs the steps as far as they are defined; `false` where one is not.
pub(crate) fn try_sort_left_1k(
    t: &[SaSint],
    base: FastSint,
    edge: SaSint,
    buckets: &mut [SaSint],
    cache: &mut [ThreadCache],
    lo: FastSint,
    hi: FastSint,
) -> (ok: bool)
    ensures
        ok == (sort_left_1k_run(t@, base as int, edge as int, (old(buckets)@, old(cache)@), lo as int, hi as int) is Some),
        ok ==> sort_left_1k_run(t@, base as int, edge as int, (old(buckets)@, old(cache)@), lo as int, hi as int) == Some((final(buckets)@, final(cache)@)),
        final(buckets).len() == old(buckets).len(),
        final(cache).len() == old(cache).len(),
{
    let mut i: FastSint = lo;
    let ghost step = sort_left_1k_step(t@, base as int, edge as int);
    let ghost s0 = (buckets@, cache@);
    while i < hi
        invariant
            lo <= i,
            i <= hi || hi < lo,
            hi < lo ==> i == lo,
            step == sort_left_1k_step(t@, base as int, edge as int),
            s0 == (old(buckets)@, old(cache)@),
            fold_up(step, s0, lo as int, i as int) == Some((buckets@, cache@)),
            buckets.len() == old(buckets).len(),
            cache.len() == old(cache).len(),
        decreases hi - i,
    {
        proof {
            lemma_fold_up_prefix(step, s0, lo as int, i + 1, hi as int);
        }
        if !sort_left_1k_at(t, base, edge, buckets, cache, i) {
            return false;
        }
        i += 1;
    }
    true
}

/// Gives cache entry `i`, where it has a symbol, its slot, from the end of its bucket. Where
/// the slot is itself in the block, what is written there is to induce in turn. The cache
/// starts with the entry of slot `base`; `edge` is where the block starts.
pub open spec fn sort_right_1k_step(t: Seq<i32>, base: int, edge: int) -> spec_fn((Seq<i32>, Seq<ThreadCache>), int) -> Option<(Seq<i32>, Seq<ThreadCache>)> {
    |s: (Seq<i32>, Seq<ThreadCache>), i: int|
        {
            let (buckets, cache) = s;
            let x = i - base;
            let b = buckets;
            let v = cache[x].symbol as int;
            let p = cache[x].index;
            let target = b[v] - 1;
            let c = cache.update(x, ThreadCache { symbol: target as i32, index: p });
            let w = b.update(v, target as i32);
            if !(0 <= x < cache.len()) {
                None
            } else if v < 0 {
                Some((b, cache))
            } else if !(v < b.len() && target >= i32::MIN) {
                None
            } else if !(target >= edge) {
                Some((w, c))
            } else {
                if !(0 <= target - base) {
                    None
                } else if p <= 0 {
                    Some((w, c))
                } else {
                    match induced(t, p as int, Side::Above) {
                        Some(entry) => if target - base < cache.len() {
                            Some((w, c.update(x, ThreadCache { symbol: target as i32, index: 0 }).update(target - base, entry)))
                        } else {
                            None
                        },
                        None => None,
                    }
                }
            }
        }
}

/// [`sort_right_1k_step`] over the positions from `lo` to `hi`, downward.
pub open spec fn sort_right_1k_run(t: Seq<i32>, base: int, edge: int, s: (Seq<i32>, Seq<ThreadCache>), lo: int, hi: int) -> Option<(Seq<i32>, Seq<ThreadCache>)> {
    fold_down(sort_right_1k_step(t, base, edge), s, lo, hi)
}

/// Performs one step, or returns `false` where the step is outside its domain.
fn sort_right_1k_at(
    t: &[SaSint],
    base: FastSint,
    edge: SaSint,
    buckets: &mut [SaSint],
    cache: &mut [ThreadCache],
    i: FastSint,
) -> (ok: bool)
    ensures
        ok == (sort_right_1k_step(t@, base as int, edge as int)((old(buckets)@, old(cache)@), i as int) is Some),
        ok ==> sort_right_1k_step(t@, base as int, edge as int)((old(buckets)@, old(cache)@), i as int) == Some((final(buckets)@, final(cache)@)),
        final(buckets).len() == old(buckets).len(),
        final(cache).len() == old(cache).len(),
{
    let at: i128 = i as i128 - base as i128;
    if at < 0 || at >= cache.len() as i128 {
        return false;
    }
    let x: usize = at as usize;
    let v: SaSint = cache[x].symbol;
    if v < 0 {
        return true;
    }
    let p: SaSint = cache[x].index;
    if !within(v, buckets.len()) {
        return false;
    }
    let z: usize = v as usize;
    if buckets[z] == SAINT_MIN {
        return false;
    }
    let target: SaSint = buckets[z] - 1;
    buckets[z] = target;
    cache[x] = ThreadCache { symbol: target, index: p };
    if target >= edge {
        let to: i128 = target as i128 - base as i128;
        if to < 0 {
            return false;
        }
        if p <= 0 {
            return true;
        }
        match induce(t, p, Side::Above) {
            Some(entry) => {
                if to >= cache.len() as i128 {
                    return false;
                }
                cache[x] = ThreadCache { symbol: target, index: 0 };
                cache[to as usize] = entry;
            },
            None => return false,
        }
    }
    true
}

/// Runs the steps as far as they are defined; `false` where one is not.
pub(crate) fn try_sort_right_1k(
    t: &[SaSint],
    base: FastSint,
    edge: SaSint,
    buckets: &mut [SaSint],
    cache: &mut [ThreadCache],
    lo: FastSint,
    hi: FastSint,
) -> (ok: bool)
    ensures
        ok == (sort_right_1k_run(t@, base as int, edge as int, (old(buckets)@, old(cache)@), lo as int, hi as int) is Some),
        ok ==> sort_right_1k_run(t@, base as int, edge as int, (old(buckets)@, old(cache)@), lo as int, hi as int) == Some((final(buckets)@, final(cache)@)),
        final(buckets).len() == old(buckets).len(),
        final(cache).len() == old(cache).len(),
{
    if hi <= lo {
        return true;
    }
    let mut i: FastSint = hi;
    let ghost step = sort_right_1k_step(t@, base as int, edge as int);
    let ghost s0 = (buckets@, cache@);
    while i > lo
        invariant
            lo <= i <= hi,
            step == sort_right_1k_step(t@, base as int, edge as int),
            s0 == (old(buckets)@, old(cache)@),
            fold_down(step, s0, i as int, hi as int) == Some((buckets@, cache@)),
            buckets.len() == old(buckets).len(),
            cache.len() == old(cache).len(),
        decreases i - lo,
    {
        proof {
            lemma_fold_down_prefix(step, s0, lo as int, i - 1, hi as int);
        }
        i -= 1;
        if !sort_right_1k_at(t, base, edge, buckets, cache, i) {
            return false;
        }
    }
    true
}

/// Gives cache entry `i`, where it has a symbol, its slot, from the front of its bucket. Where
/// the slot is itself in the block, what is written there is to induce in turn. The cache
/// starts with the entry of slot `base`; `edge` is where the block ends.
pub open spec fn sort_final_left_step(t: Seq<i32>, base: int, edge: int) -> spec_fn((Seq<i32>, Seq<ThreadCache>), int) -> Option<(Seq<i32>, Seq<ThreadCache>)> {
    |s: (Seq<i32>, Seq<ThreadCache>), i: int|
        {
            let (buckets, cache) = s;
            let x = i - base;
            let b = buckets;
            let v = cache[x].symbol as int;
            let p = cache[x].index;
            let target = b[v] as int;
            let c = cache.update(x, ThreadCache { symbol: target as i32, index: p });
            let w = b.update(v, (target + 1) as i32);
            if !(0 <= x < cache.len()) {
                None
            } else if v < 0 {
                Some((b, cache))
            } else if !(v < b.len() && target < i32::MAX) {
                None
            } else if !(target < edge) {
                Some((w, c))
            } else {
                let z = c.update(x, ThreadCache { symbol: target as i32, index: flipped(p) });
                if !(0 <= target - base) {
                    None
                } else if p <= 0 {
                    Some((w, z))
                } else {
                    match finally_induced(t, p as int, false) {
                        Some(entry) => if target - base < cache.len() {
                            Some((w, z.update(target - base, entry)))
                        } else {
                            None
                        },
                        None => None,
                    }
                }
            }
        }
}

/// [`sort_final_left_step`] over the positions from `lo` to `hi`, upward.
pub open spec fn sort_final_left_run(t: Seq<i32>, base: int, edge: int, s: (Seq<i32>, Seq<ThreadCache>), lo: int, hi: int) -> Option<(Seq<i32>, Seq<ThreadCache>)> {
    fold_up(sort_final_left_step(t, base, edge), s, lo, hi)
}

/// Performs one step, or returns `false` where the step is outside its domain.
fn sort_final_left_at(
    t: &[SaSint],
    base: FastSint,
    edge: SaSint,
    buckets: &mut [SaSint],
    cache: &mut [ThreadCache],
    i: FastSint,
) -> (ok: bool)
    ensures
        ok == (sort_final_left_step(t@, base as int, edge as int)((old(buckets)@, old(cache)@), i as int) is Some),
        ok ==> sort_final_left_step(t@, base as int, edge as int)((old(buckets)@, old(cache)@), i as int) == Some((final(buckets)@, final(cache)@)),
        final(buckets).len() == old(buckets).len(),
        final(cache).len() == old(cache).len(),
{
    let at: i128 = i as i128 - base as i128;
    if at < 0 || at >= cache.len() as i128 {
        return false;
    }
    let x: usize = at as usize;
    let v: SaSint = cache[x].symbol;
    if v < 0 {
        return true;
    }
    let p: SaSint = cache[x].index;
    if !within(v, buckets.len()) {
        return false;
    }
    let z: usize = v as usize;
    let target: SaSint = buckets[z];
    if target == SAINT_MAX {
        return false;
    }
    buckets[z] = target + 1;
    cache[x] = ThreadCache { symbol: target, index: p };
    if target < edge {
        cache[x] = ThreadCache { symbol: target, index: flip_mark(p) };
        let to: i128 = target as i128 - base as i128;
        if to < 0 {
            return false;
        }
        if p > 0 {
            match finally_induce(t, p, false) {
                Some(entry) => {
                    if to >= cache.len() as i128 {
                        return false;
                    }
                    cache[to as usize] = entry;
                },
                None => return false,
            }
        }
    }
    true
}

/// Runs the steps as far as they are defined; `false` where one is not.
pub(crate) fn try_sort_final_left(
    t: &[SaSint],
    base: FastSint,
    edge: SaSint,
    buckets: &mut [SaSint],
    cache: &mut [ThreadCache],
    lo: FastSint,
    hi: FastSint,
) -> (ok: bool)
    ensures
        ok == (sort_final_left_run(t@, base as int, edge as int, (old(buckets)@, old(cache)@), lo as int, hi as int) is Some),
        ok ==> sort_final_left_run(t@, base as int, edge as int, (old(buckets)@, old(cache)@), lo as int, hi as int) == Some((final(buckets)@, final(cache)@)),
        final(buckets).len() == old(buckets).len(),
        final(cache).len() == old(cache).len(),
{
    let mut i: FastSint = lo;
    let ghost step = sort_final_left_step(t@, base as int, edge as int);
    let ghost s0 = (buckets@, cache@);
    while i < hi
        invariant
            lo <= i,
            i <= hi || hi < lo,
            hi < lo ==> i == lo,
            step == sort_final_left_step(t@, base as int, edge as int),
            s0 == (old(buckets)@, old(cache)@),
            fold_up(step, s0, lo as int, i as int) == Some((buckets@, cache@)),
            buckets.len() == old(buckets).len(),
            cache.len() == old(cache).len(),
        decreases hi - i,
    {
        proof {
            lemma_fold_up_prefix(step, s0, lo as int, i + 1, hi as int);
        }
        if !sort_final_left_at(t, base, edge, buckets, cache, i) {
            return false;
        }
        i += 1;
    }
    true
}

/// Gives cache entry `i`, where it has a symbol, its slot, from the end of its bucket. Where
/// the slot is itself in the block, what is written there is to induce in turn. The cache
/// starts with the entry of slot `base`; `edge` is where the block starts.
pub open spec fn sort_final_right_step(t: Seq<i32>, base: int, edge: int) -> spec_fn((Seq<i32>, Seq<ThreadCache>), int) -> Option<(Seq<i32>, Seq<ThreadCache>)> {
    |s: (Seq<i32>, Seq<ThreadCache>), i: int|
        {
            let (buckets, cache) = s;
            let x = i - base;
            let b = buckets;
            let v = cache[x].symbol as int;
            let p = cache[x].index;
            let target = b[v] - 1;
            let c = cache.update(x, ThreadCache { symbol: target as i32, index: p });
            let w = b.update(v, target as i32);
            if !(0 <= x < cache.len()) {
                None
            } else if v < 0 {
                Some((b, cache))
            } else if !(v < b.len() && target >= i32::MIN) {
                None
            } else if !(target >= edge) {
                Some((w, c))
            } else {
                let z = c.update(x, ThreadCache { symbol: target as i32, index: unmarked(p) });
                if !(0 <= target - base) {
                    None
                } else if p <= 0 {
                    Some((w, z))
                } else {
                    match finally_induced(t, p as int, true) {
                        Some(entry) => if target - base < cache.len() {
                            Some((w, z.update(target - base, entry)))
                        } else {
                            None
                        },
                        None => None,
                    }
                }
            }
        }
}

/// [`sort_final_right_step`] over the positions from `lo` to `hi`, downward.
pub open spec fn sort_final_right_run(t: Seq<i32>, base: int, edge: int, s: (Seq<i32>, Seq<ThreadCache>), lo: int, hi: int) -> Option<(Seq<i32>, Seq<ThreadCache>)> {
    fold_down(sort_final_right_step(t, base, edge), s, lo, hi)
}

/// Performs one step, or returns `false` where the step is outside its domain.
fn sort_final_right_at(
    t: &[SaSint],
    base: FastSint,
    edge: SaSint,
    buckets: &mut [SaSint],
    cache: &mut [ThreadCache],
    i: FastSint,
) -> (ok: bool)
    ensures
        ok == (sort_final_right_step(t@, base as int, edge as int)((old(buckets)@, old(cache)@), i as int) is Some),
        ok ==> sort_final_right_step(t@, base as int, edge as int)((old(buckets)@, old(cache)@), i as int) == Some((final(buckets)@, final(cache)@)),
        final(buckets).len() == old(buckets).len(),
        final(cache).len() == old(cache).len(),
{
    let at: i128 = i as i128 - base as i128;
    if at < 0 || at >= cache.len() as i128 {
        return false;
    }
    let x: usize = at as usize;
    let v: SaSint = cache[x].symbol;
    if v < 0 {
        return true;
    }
    let p: SaSint = cache[x].index;
    if !within(v, buckets.len()) {
        return false;
    }
    let z: usize = v as usize;
    if buckets[z] == SAINT_MIN {
        return false;
    }
    let target: SaSint = buckets[z] - 1;
    buckets[z] = target;
    cache[x] = ThreadCache { symbol: target, index: p };
    if target >= edge {
        cache[x] = ThreadCache { symbol: target, index: clear_mark(p) };
        let to: i128 = target as i128 - base as i128;
        if to < 0 {
            return false;
        }
        if p > 0 {
            match finally_induce(t, p, true) {
                Some(entry) => {
                    if to >= cache.len() as i128 {
                        return false;
                    }
                    cache[to as usize] = entry;
                },
                None => return false,
            }
        }
    }
    true
}

/// Runs the steps as far as they are defined; `false` where one is not.
pub(crate) fn try_sort_final_right(
    t: &[SaSint],
    base: FastSint,
    edge: SaSint,
    buckets: &mut [SaSint],
    cache: &mut [ThreadCache],
    lo: FastSint,
    hi: FastSint,
) -> (ok: bool)
    ensures
        ok == (sort_final_right_run(t@, base as int, edge as int, (old(buckets)@, old(cache)@), lo as int, hi as int) is Some),
        ok ==> sort_final_right_run(t@, base as int, edge as int, (old(buckets)@, old(cache)@), lo as int, hi as int) == Some((final(buckets)@, final(cache)@)),
        final(buckets).len() == old(buckets).len(),
        final(cache).len() == old(cache).len(),
{
    if hi <= lo {
        return true;
    }
    let mut i: FastSint = hi;
    let ghost step = sort_final_right_step(t@, base as int, edge as int);
    let ghost s0 = (buckets@, cache@);
    while i > lo
        invariant
            lo <= i <= hi,
            step == sort_final_right_step(t@, base as int, edge as int),
            s0 == (old(buckets)@, old(cache)@),
            fold_down(step, s0, i as int, hi as int) == Some((buckets@, cache@)),
            buckets.len() == old(buckets).len(),
            cache.len() == old(cache).len(),
        decreases i - lo,
    {
        proof {
            lemma_fold_down_prefix(step, s0, lo as int, i - 1, hi as int);
        }
        i -= 1;
        if !sort_final_right_at(t, base, edge, buckets, cache, i) {
            return false;
        }
    }
    true
}

/// Writes the index of cache entry `i` to the slot that its symbol names, where it names one.
pub open spec fn place_chosen_step(cache: Seq<ThreadCache>) -> spec_fn(Seq<i32>, int) -> Option<Seq<i32>> {
    |s: Seq<i32>, i: int|
        {
            let sa = s;
            if !(0 <= i < cache.len()) {
                None
            } else if cache[i].symbol < 0 {
                Some(sa)
            } else if cache[i].symbol < sa.len() {
                Some(sa.update(cache[i].symbol as int, cache[i].index))
            } else {
                None
            }
        }
}

/// [`place_chosen_step`] over the positions from `lo` to `hi`, upward.
pub open spec fn place_chosen_run(cache: Seq<ThreadCache>, s: Seq<i32>, lo: int, hi: int) -> Option<Seq<i32>> {
    fold_up(place_chosen_step(cache), s, lo, hi)
}

/// Performs one step, or returns `false` where the step is outside its domain.
fn place_chosen_at(
    cache: &[ThreadCache],
    sa: &mut [SaSint],
    i: FastSint,
) -> (ok: bool)
    ensures
        ok == (place_chosen_step(cache@)(old(sa)@, i as int) is Some),
        ok ==> place_chosen_step(cache@)(old(sa)@, i as int) == Some(final(sa)@),
        final(sa).len() == old(sa).len(),
{
    if !word_within(i, cache.len()) {
        return false;
    }
    let entry: ThreadCache = cache[i as usize];
    if entry.symbol < 0 {
        return true;
    }
    if !within(entry.symbol, sa.len()) {
        return false;
    }
    sa[entry.symbol as usize] = entry.index;
    true
}

/// Runs the steps as far as they are defined; `false` where one is not.
pub(crate) fn try_place_chosen(
    cache: &[ThreadCache],
    sa: &mut [SaSint],
    lo: FastSint,
    hi: FastSint,
) -> (ok: bool)
    ensures
        ok == (place_chosen_run(cache@, old(sa)@, lo as int, hi as int) is Some),
        ok ==> place_chosen_run(cache@, old(sa)@, lo as int, hi as int) == Some(final(sa)@),
        final(sa).len() == old(sa).len(),
{
    let mut i: FastSint = lo;
    let ghost step = place_chosen_step(cache@);
    let ghost s0 = sa@;
    while i < hi
        invariant
            lo <= i,
            i <= hi || hi < lo,
            hi < lo ==> i == lo,
            step == place_chosen_step(cache@),
            s0 == old(sa)@,
            fold_up(step, s0, lo as int, i as int) == Some(sa@),
            sa.len() == old(sa).len(),
        decreases hi - i,
    {
        proof {
            lemma_fold_up_prefix(step, s0, lo as int, i + 1, hi as int);
        }
        if !place_chosen_at(cache, sa, i) {
            return false;
        }
        i += 1;
    }
    true
}

/// Records the suffixes of a block with the buckets of what they induce, from the first cache
/// entry on.
pub fn partial_sorting_scan_left_to_right_32s_6k_block_gather(
    t: &[SaSint],
    sa: &mut [SaSint],
    cache: &mut [ThreadCache],
    omp_block_start: FastSint,
    omp_block_size: FastSint,
)
    requires
        omp_block_start + omp_block_size <= isize::MAX,
        omp_block_size > 0 ==> gather_left_6k_run(t@, old(sa)@, omp_block_start as int, old(cache)@, omp_block_start as int, omp_block_start + omp_block_size) is Some,
    ensures
        final(sa)@ == old(sa)@,
        omp_block_size <= 0 ==> final(cache)@ == old(cache)@,
        omp_block_size > 0 ==> gather_left_6k_run(t@, old(sa)@, omp_block_start as int, old(cache)@, omp_block_start as int, omp_block_start + omp_block_size)
            == Some(final(cache)@),
        final(cache).len() == old(cache).len(),
{
    if omp_block_size <= 0 {
        return;
    }
    let _ok: bool = try_gather_left_6k(t, sa, omp_block_start, cache, omp_block_start, omp_block_start + omp_block_size);
}

/// Records the suffixes of a block with the buckets of what they induce, from the first cache
/// entry on.
pub fn partial_sorting_scan_right_to_left_32s_6k_block_gather(
    t: &[SaSint],
    sa: &[SaSint],
    cache: &mut [ThreadCache],
    omp_block_start: FastSint,
    omp_block_size: FastSint,
)
    requires
        omp_block_start + omp_block_size <= isize::MAX,
        omp_block_size > 0 ==> gather_right_6k_run(t@, sa@, omp_block_start as int, old(cache)@, omp_block_start as int, omp_block_start + omp_block_size) is Some,
    ensures
        omp_block_size <= 0 ==> final(cache)@ == old(cache)@,
        omp_block_size > 0 ==> gather_right_6k_run(t@, sa@, omp_block_start as int, old(cache)@, omp_block_start as int, omp_block_start + omp_block_size)
            == Some(final(cache)@),
        final(cache).len() == old(cache).len(),
{
    if omp_block_size <= 0 {
        return;
    }
    let _ok: bool = try_gather_right_6k(t, sa, omp_block_start, cache, omp_block_start, omp_block_start + omp_block_size);
}

/// Moves the plain suffixes of a block into the cache, with the buckets of what they induce,
/// from the first cache entry on.
pub fn partial_sorting_scan_left_to_right_32s_4k_block_gather(
    t: &[SaSint],
    sa: &mut [SaSint],
    cache: &mut [ThreadCache],
    omp_block_start: FastSint,
    omp_block_size: FastSint,
)
    requires
        omp_block_start + omp_block_size <= isize::MAX,
        omp_block_size > 0 ==> gather_left_4k_run(t@, omp_block_start as int, (old(sa)@, old(cache)@), omp_block_start as int, omp_block_start + omp_block_size) is Some,
    ensures
        omp_block_size <= 0 ==> final(sa)@ == old(sa)@ && final(cache)@ == old(cache)@,
        omp_block_size > 0 ==> gather_left_4k_run(t@, omp_block_start as int, (old(sa)@, old(cache)@), omp_block_start as int, omp_block_start + omp_block_size)
            == Some((final(sa)@, final(cache)@)),
        final(sa).len() == old(sa).len(),
        final(cache).len() == old(cache).len(),
{
    if omp_block_size <= 0 {
        return;
    }
    let _ok: bool = try_gather_left_4k(t, omp_block_start, sa, cache, omp_block_start, omp_block_start + omp_block_size);
}

/// Moves the plain suffixes of a block into the cache, with the buckets of what they induce,
/// from the first cache entry on.
pub fn partial_sorting_scan_right_to_left_32s_4k_block_gather(
    t: &[SaSint],
    sa: &mut [SaSint],
    cache: &mut [ThreadCache],
    omp_block_start: FastSint,
    omp_block_size: FastSint,
)
    requires
        omp_block_start + omp_block_size <= isize::MAX,
        omp_block_size > 0 ==> gather_right_4k_run(t@, omp_block_start as int, (old(sa)@, old(cache)@), omp_block_start as int, omp_block_start + omp_block_size) is Some,
    ensures
        omp_block_size <= 0 ==> final(sa)@ == old(sa)@ && final(cache)@ == old(cache)@,
        omp_block_size > 0 ==> gather_right_4k_run(t@, omp_block_start as int, (old(sa)@, old(cache)@), omp_block_start as int, omp_block_start + omp_block_size)
            == Some((final(sa)@, final(cache)@)),
        final(sa).len() == old(sa).len(),
        final(cache).len() == old(cache).len(),
{
    if omp_block_size <= 0 {
        return;
    }
    let _ok: bool = try_gather_right_4k(t, omp_block_start, sa, cache, omp_block_start, omp_block_start + omp_block_size);
}

/// Takes the plain suffixes from a block and records what they induce, in the cache entries
/// of the same positions.
pub fn partial_sorting_scan_left_to_right_32s_1k_block_gather(
    t: &[SaSint],
    sa: &mut [SaSint],
    cache: &mut [ThreadCache],
    omp_block_start: FastSint,
    omp_block_size: FastSint,
)
    requires
        omp_block_start + omp_block_size <= isize::MAX,
        omp_block_size > 0 ==> gather_left_1k_run(t@, 0, (old(sa)@, old(cache)@), omp_block_start as int, omp_block_start + omp_block_size) is Some,
    ensures
        omp_block_size <= 0 ==> final(sa)@ == old(sa)@ && final(cache)@ == old(cache)@,
        omp_block_size > 0 ==> gather_left_1k_run(t@, 0, (old(sa)@, old(cache)@), omp_block_start as int, omp_block_start + omp_block_size)
            == Some((final(sa)@, final(cache)@)),
        final(sa).len() == old(sa).len(),
        final(cache).len() == old(cache).len(),
{
    if omp_block_size <= 0 {
        return;
    }
    let _ok: bool = try_gather_left_1k(t, 0, sa, cache, omp_block_start, omp_block_start + omp_block_size);
}

/// Takes the plain suffixes from a block and records what they induce, from the first cache
/// entry on.
pub fn partial_sorting_scan_right_to_left_32s_1k_block_gather(
    t: &[SaSint],
    sa: &mut [SaSint],
    cache: &mut [ThreadCache],
    omp_block_start: FastSint,
    omp_block_size: FastSint,
)
    requires
        omp_block_start + omp_block_size <= isize::MAX,
        omp_block_size > 0 ==> gather_right_1k_run(t@, omp_block_start as int, (old(sa)@, old(cache)@), omp_block_start as int, omp_block_start + omp_block_size) is Some,
    ensures
        omp_block_size <= 0 ==> final(sa)@ == old(sa)@ && final(cache)@ == old(cache)@,
        omp_block_size > 0 ==> gather_right_1k_run(t@, omp_block_start as int, (old(sa)@, old(cache)@), omp_block_start as int, omp_block_start + omp_block_size)
            == Some((final(sa)@, final(cache)@)),
        final(sa).len() == old(sa).len(),
        final(cache).len() == old(cache).len(),
{
    if omp_block_size <= 0 {
        return;
    }
    let _ok: bool = try_gather_right_1k(t, omp_block_start, sa, cache, omp_block_start, omp_block_start + omp_block_size);
}

/// Settles the marks of a block and records what its plain suffixes induce, in the cache
/// entries of the same positions.
pub fn final_sorting_scan_left_to_right_32s_block_gather(
    t: &[SaSint],
    sa: &mut [SaSint],
    cache: &mut [ThreadCache],
    omp_block_start: FastSint,
    omp_block_size: FastSint,
)
    requires
        omp_block_start + omp_block_size <= isize::MAX,
        omp_block_size > 0 ==> gather_final_left_run(t@, 0, (old(sa)@, old(cache)@), omp_block_start as int, omp_block_start + omp_block_size) is Some,
    ensures
        omp_block_size <= 0 ==> final(sa)@ == old(sa)@ && final(cache)@ == old(cache)@,
        omp_block_size > 0 ==> gather_final_left_run(t@, 0, (old(sa)@, old(cache)@), omp_block_start as int, omp_block_start + omp_block_size)
            == Some((final(sa)@, final(cache)@)),
        final(sa).len() == old(sa).len(),
        final(cache).len() == old(cache).len(),
{
    if omp_block_size <= 0 {
        return;
    }
    let _ok: bool = try_gather_final_left(t, 0, sa, cache, omp_block_start, omp_block_start + omp_block_size);
}

/// Settles the marks of a block and records what its plain suffixes induce, in the cache
/// entries of the same positions.
pub fn final_sorting_scan_right_to_left_32s_block_gather(
    t: &[SaSint],
    sa: &mut [SaSint],
    cache: &mut [ThreadCache],
    omp_block_start: FastSint,
    omp_block_size: FastSint,
)
    requires
        omp_block_start + omp_block_size <= isize::MAX,
        omp_block_size > 0 ==> gather_final_right_run(t@, 0, (old(sa)@, old(cache)@), omp_block_start as int, omp_block_start + omp_block_size) is Some,
    ensures
        omp_block_size <= 0 ==> final(sa)@ == old(sa)@ && final(cache)@ == old(cache)@,
        omp_block_size > 0 ==> gather_final_right_run(t@, 0, (old(sa)@, old(cache)@), omp_block_start as int, omp_block_start + omp_block_size)
            == Some((final(sa)@, final(cache)@)),
        final(sa).len() == old(sa).len(),
        final(cache).len() == old(cache).len(),
{
    if omp_block_size <= 0 {
        return;
    }
    let _ok: bool = try_gather_final_right(t, 0, sa, cache, omp_block_start, omp_block_start + omp_block_size);
}

/// Gives the cached suffixes of a block their slots and names, and lets those that stay in the
/// block induce in turn.
pub fn partial_sorting_scan_left_to_right_32s_6k_block_sort(
    t: &[SaSint],
    buckets: &mut [SaSint],
    d: SaSint,
    cache: &mut [ThreadCache],
    omp_block_start: FastSint,
    omp_block_size: FastSint,
) -> (r: SaSint)
    requires
        omp_block_size > 0 ==> 0 <= omp_block_start && omp_block_start + omp_block_size <= i32::MAX && sort_left_6k_run(t@, omp_block_start as int, omp_block_start as int, omp_block_start + omp_block_size, (old(buckets)@, d, old(cache)@), omp_block_start as int, omp_block_start + omp_block_size) is Some,
    ensures
        omp_block_size <= 0 ==> r == d && final(buckets)@ == old(buckets)@ && final(cache)@ == old(cache)@,
        omp_block_size > 0 ==> sort_left_6k_run(t@, omp_block_start as int, omp_block_start as int, omp_block_start + omp_block_size, (old(buckets)@, d, old(cache)@), omp_block_start as int, omp_block_start + omp_block_size) == Some((final(buckets)@, r, final(cache)@)),
        final(buckets).len() == old(buckets).len(),
        final(cache).len() == old(cache).len(),
{
    if omp_block_size <= 0 {
        return d;
    }
    let mut names: SaSint = d;
    let _ok: bool = try_sort_left_6k(t, omp_block_start, omp_block_start as SaSint, (omp_block_start + omp_block_size) as SaSint, buckets, &mut names, cache, omp_block_start,
        omp_block_start + omp_block_size);
    names
}

/// Gives the cached suffixes of a block their slots and names, and lets those that stay in the
/// block induce in turn.
pub fn partial_sorting_scan_right_to_left_32s_6k_block_sort(
    t: &[SaSint],
    buckets: &mut [SaSint],
    d: SaSint,
    cache: &mut [ThreadCache],
    omp_block_start: FastSint,
    omp_block_size: FastSint,
) -> (r: SaSint)
    requires
        omp_block_size > 0 ==> 0 <= omp_block_start && omp_block_start + omp_block_size <= i32::MAX && sort_right_6k_run(t@, omp_block_start as int, omp_block_start as int, omp_block_start as int, (old(buckets)@, d, old(cache)@), omp_block_start as int, omp_block_start + omp_block_size) is Some,
    ensures
        omp_block_size <= 0 ==> r == d && final(buckets)@ == old(buckets)@ && final(cache)@ == old(cache)@,
        omp_block_size > 0 ==> sort_right_6k_run(t@, omp_block_start as int, omp_block_start as int, omp_block_start as int, (old(buckets)@, d, old(cache)@), omp_block_start as int, omp_block_start + omp_block_size) == Some((final(buckets)@, r, final(cache)@)),
        final(buckets).len() == old(buckets).len(),
        final(cache).len() == old(cache).len(),
{
    if omp_block_size <= 0 {
        return d;
    }
    let mut names: SaSint = d;
    let _ok: bool = try_sort_right_6k(t, omp_block_start, omp_block_start as SaSint, omp_block_start as SaSint, buckets, &mut names, cache, omp_block_start,
        omp_block_start + omp_block_size);
    names
}

/// Gives the cached suffixes of a block their slots and names, and lets those that stay in the
/// block induce in turn.
pub fn partial_sorting_scan_left_to_right_32s_4k_block_sort(
    t: &[SaSint],
    k: SaSint,
    buckets: &mut [SaSint],
    d: SaSint,
    cache: &mut [ThreadCache],
    omp_block_start: FastSint,
    omp_block_size: FastSint,
) -> (r: SaSint)
    requires
        omp_block_size > 0 ==> 0 <= omp_block_start && omp_block_start + omp_block_size <= i32::MAX && sort_left_4k_run(t@, k as int, omp_block_start as int, omp_block_start as int, omp_block_start + omp_block_size, (old(buckets)@, d, old(cache)@), omp_block_start as int, omp_block_start + omp_block_size) is Some,
    ensures
        omp_block_size <= 0 ==> r == d && final(buckets)@ == old(buckets)@ && final(cache)@ == old(cache)@,
        omp_block_size > 0 ==> sort_left_4k_run(t@, k as int, omp_block_start as int, omp_block_start as int, omp_block_start + omp_block_size, (old(buckets)@, d, old(cache)@), omp_block_start as int, omp_block_start + omp_block_size) == Some((final(buckets)@, r, final(cache)@)),
        final(buckets).len() == old(buckets).len(),
        final(cache).len() == old(cache).len(),
{
    if omp_block_size <= 0 {
        return d;
    }
    let mut names: SaSint = d;
    let _ok: bool = try_sort_left_4k(t, k, omp_block_start, omp_block_start as SaSint, (omp_block_start + omp_block_size) as SaSint, buckets, &mut names, cache, omp_block_start,
        omp_block_start + omp_block_size);
    names
}

/// Gives the cached suffixes of a block their slots and names, and lets those that stay in the
/// block induce in turn.
pub fn partial_sorting_scan_right_to_left_32s_4k_block_sort(
    t: &[SaSint],
    k: SaSint,
    buckets: &mut [SaSint],
    d: SaSint,
    cache: &mut [ThreadCache],
    omp_block_start: FastSint,
    omp_block_size: FastSint,
) -> (r: SaSint)
    requires
        omp_block_size > 0 ==> 0 <= omp_block_start && omp_block_start + omp_block_size <= i32::MAX && sort_right_4k_run(t@, k as int, omp_block_start as int, omp_block_start as int, omp_block_start as int, (old(buckets)@, d, old(cache)@), omp_block_start as int, omp_block_start + omp_block_size) is Some,
    ensures
        omp_block_size <= 0 ==> r == d && final(buckets)@ == old(buckets)@ && final(cache)@ == old(cache)@,
        omp_block_size > 0 ==> sort_right_4k_run(t@, k as int, omp_block_start as int, omp_block_start as int, omp_block_start as int, (old(buckets)@, d, old(cache)@), omp_block_start as int, omp_block_start + omp_block_size) == Some((final(buckets)@, r, final(cache)@)),
        final(buckets).len() == old(buckets).len(),
        final(cache).len() == old(cache).len(),
{
    if omp_block_size <= 0 {
        return d;
    }
    let mut names: SaSint = d;
    let _ok: bool = try_sort_right_4k(t, k, omp_block_start, omp_block_start as SaSint, omp_block_start as SaSint, buckets, &mut names, cache, omp_block_start,
        omp_block_start + omp_block_size);
    names
}

/// Gives the cached suffixes of a block their slots, and lets those that stay in the block
/// induce in turn.
pub fn partial_sorting_scan_left_to_right_32s_1k_block_sort(
    t: &[SaSint],
    induction_bucket: &mut [SaSint],
    cache: &mut [ThreadCache],
    omp_block_start: FastSint,
    omp_block_size: FastSint,
)
    requires
        omp_block_size > 0 ==> 0 <= omp_block_start && omp_block_start + omp_block_size <= i32::MAX && sort_left_1k_run(t@, 0, omp_block_start + omp_block_size, (old(induction_bucket)@, old(cache)@), omp_block_start as int, omp_block_start + omp_block_size) is Some,
    ensures
        omp_block_size <= 0 ==> final(induction_bucket)@ == old(induction_bucket)@ && final(cache)@ == old(cache)@,
        omp_block_size > 0 ==> sort_left_1k_run(t@, 0, omp_block_start + omp_block_size, (old(induction_bucket)@, old(cache)@), omp_block_start as int, omp_block_start + omp_block_size) == Some((final(induction_bucket)@, final(cache)@)),
        final(induction_bucket).len() == old(induction_bucket).len(),
        final(cache).len() == old(cache).len(),
{
    if omp_block_size <= 0 {
        return;
    }
    let _ok: bool = try_sort_left_1k(t, 0, (omp_block_start + omp_block_size) as SaSint, induction_bucket, cache, omp_block_start, omp_block_start + omp_block_size);
}

/// Gives the cached suffixes of a block their slots, and lets those that stay in the block
/// induce in turn.
pub fn partial_sorting_scan_right_to_left_32s_1k_block_sort(
    t: &[SaSint],
    induction_bucket: &mut [SaSint],
    cache: &mut [ThreadCache],
    omp_block_start: FastSint,
    omp_block_size: FastSint,
)
    requires
        omp_block_size > 0 ==> 0 <= omp_block_start && omp_block_start + omp_block_size <= i32::MAX && sort_right_1k_run(t@, omp_block_start as int, omp_block_start as int, (old(induction_bucket)@, old(cache)@), omp_block_start as int, omp_block_start + omp_block_size) is Some,
    ensures
        omp_block_size <= 0 ==> final(induction_bucket)@ == old(induction_bucket)@ && final(cache)@ == old(cache)@,
        omp_block_size > 0 ==> sort_right_1k_run(t@, omp_block_start as int, omp_block_start as int, (old(induction_bucket)@, old(cache)@), omp_block_start as int, omp_block_start + omp_block_size) == Some((final(induction_bucket)@, final(cache)@)),
        final(induction_bucket).len() == old(induction_bucket).len(),
        final(cache).len() == old(cache).len(),
{
    if omp_block_size <= 0 {
        return;
    }
    let _ok: bool = try_sort_right_1k(t, omp_block_start, omp_block_start as SaSint, induction_bucket, cache, omp_block_start, omp_block_start + omp_block_size);
}

/// Gives the cached suffixes of a block their slots, and lets those that stay in the block
/// induce in turn.
pub fn final_sorting_scan_left_to_right_32s_block_sort(
    t: &[SaSint],
    induction_bucket: &mut [SaSint],
    cache: &mut [ThreadCache],
    omp_block_start: FastSint,
    omp_block_size: FastSint,
)
    requires
        omp_block_size > 0 ==> 0 <= omp_block_start && omp_block_start + omp_block_size <= i32::MAX && sort_final_left_run(t@, 0, omp_block_start + omp_block_size, (old(induction_bucket)@, old(cache)@), omp_block_start as int, omp_block_start + omp_block_size) is Some,
    ensures
        omp_block_size <= 0 ==> final(induction_bucket)@ == old(induction_bucket)@ && final(cache)@ == old(cache)@,
        omp_block_size > 0 ==> sort_final_left_run(t@, 0, omp_block_start + omp_block_size, (old(induction_bucket)@, old(cache)@), omp_block_start as int, omp_block_start + omp_block_size) == Some((final(induction_bucket)@, final(cache)@)),
        final(induction_bucket).len() == old(induction_bucket).len(),
        final(cache).len() == old(cache).len(),
{
    if omp_block_size <= 0 {
        return;
    }
    let _ok: bool = try_sort_final_left(t, 0, (omp_block_start + omp_block_size) as SaSint, induction_bucket, cache, omp_block_start, omp_block_start + omp_block_size);
}

/// Gives the cached suffixes of a block their slots, and lets those that stay in the block
/// induce in turn.
pub fn final_sorting_scan_right_to_left_32s_block_sort(
    t: &[SaSint],
    induction_bucket: &mut [SaSint],
    cache: &mut [ThreadCache],
    omp_block_start: FastSint,
    omp_block_size: FastSint,
)
    requires
        omp_block_size > 0 ==> 0 <= omp_block_start && omp_block_start + omp_block_size <= i32::MAX && sort_final_right_run(t@, 0, omp_block_start as int, (old(induction_bucket)@, old(cache)@), omp_block_start as int, omp_block_start + omp_block_size) is Some,
    ensures
        omp_block_size <= 0 ==> final(induction_bucket)@ == old(induction_bucket)@ && final(cache)@ == old(cache)@,
        omp_block_size > 0 ==> sort_final_right_run(t@, 0, omp_block_start as int, (old(induction_bucket)@, old(cache)@), omp_block_start as int, omp_block_start + omp_block_size) == Some((final(induction_bucket)@, final(cache)@)),
        final(induction_bucket).len() == old(induction_bucket).len(),
        final(cache).len() == old(cache).len(),
{
    if omp_block_size <= 0 {
        return;
    }
    let _ok: bool = try_sort_final_right(t, 0, omp_block_start as SaSint, induction_bucket, cache, omp_block_start, omp_block_start + omp_block_size);
}

/// Packing and writing keeps the lengths.
proof fn lemma_compact_and_place_len(sa: Seq<i32>, cache: Seq<ThreadCache>, start: int, size: int)
    requires
        compact_and_place_run(sa, cache, start, size) is Some,
        cache.len() <= usize::MAX,
    ensures
        compact_and_place_run(sa, cache, start, size).unwrap().0.len() == sa.len(),
        compact_and_place_run(sa, cache, start, size).unwrap().1.len() == cache.len(),
{
    crate::radix::lemma_compact_cached(cache, start, start + size);
    let x = crate::radix::compact_cached_run((cache, start as usize), start, start + size)->0;
    lemma_place_cached_len(x.0, sa, start, x.1 as int);
}

/// Writing keeps the length.
proof fn lemma_place_cached_len(cache: Seq<ThreadCache>, sa: Seq<i32>, lo: int, hi: int)
    requires
        place_cached_run(cache, sa, lo, hi) is Some,
    ensures
        place_cached_run(cache, sa, lo, hi)->0.len() == sa.len(),
    decreases hi - lo,
{
    if lo < hi {
        lemma_place_cached_len(cache, sa, lo, hi - 1);
    }
}

/// What the block leaves when it is gathered, sorted and written.
pub open spec fn cached_left_6k(t: Seq<i32>, sa: Seq<i32>, b: Seq<i32>, d: i32, cache: Seq<ThreadCache>, start: int, size: int) -> Option<(Seq<i32>, Seq<i32>, i32, Seq<ThreadCache>)> {
    if !(0 <= start && 0 <= size <= cache.len() && start + size <= i32::MAX) {
        None
    } else {
        match gather_left_6k_run(t, sa, start, cache.subrange(0, size), start, start + size) {
            Some(c) => match sort_left_6k_run(t, start, start, start + size, (b, d, c), start, start + size) {
                Some(x) => match place_cached_run(x.2, sa, 0, size) {
                    Some(y) => Some((y, x.0, x.1, x.2 + cache.subrange(size, cache.len() as int))),
                    None => None,
                },
                None => None,
            },
            None => None,
        }
    }
}

/// Scans a block. A large block is gathered, sorted and written as a whole where there is more
/// than one worker.
pub fn partial_sorting_scan_left_to_right_32s_6k_block_omp(
    t: &[SaSint],
    sa: &mut [SaSint],
    buckets: &mut [SaSint],
    d: SaSint,
    cache: &mut [ThreadCache],
    block_start: FastSint,
    block_size: FastSint,
    threads: SaSint,
) -> (r: SaSint)
    requires
        old(cache).len() <= isize::MAX,
        block_size > 0 ==> if threads == 1 || block_size < 16384 {
            block_start + block_size <= isize::MAX && partial_sorting_scan_left_to_right_32s_6k_run(t@, (old(sa)@, old(buckets)@, d), block_start as int, block_size as int) is Some
        } else {
            threads >= 0 && cached_left_6k(t@, old(sa)@, old(buckets)@, d, old(cache)@, block_start as int, block_size as int) is Some
        },
    ensures
        block_size <= 0 ==> r == d && final(sa)@ == old(sa)@ && final(buckets)@ == old(buckets)@ && final(cache)@ == old(cache)@,
        block_size > 0 && (threads == 1 || block_size < 16384) ==> partial_sorting_scan_left_to_right_32s_6k_run(t@, (old(sa)@, old(buckets)@, d), block_start as int, block_size as int) == Some((final(sa)@, final(buckets)@, r))
            && final(cache)@ == old(cache)@,
        block_size > 0 && !(threads == 1 || block_size < 16384) ==> cached_left_6k(t@, old(sa)@, old(buckets)@, d, old(cache)@, block_start as int, block_size as int)
            == Some((final(sa)@, final(buckets)@, r, final(cache)@)),
        final(sa).len() == old(sa).len(),
        final(buckets).len() == old(buckets).len(),
        final(cache).len() == old(cache).len(),
{
    if block_size <= 0 {
        return d;
    }
    if threads == 1 || block_size < 16384 {
        return partial_sorting_scan_left_to_right_32s_6k(t, sa, buckets, d, block_start, block_size);
    }
    let (head, _tail) = cache.split_at_mut(block_size as usize);
    partial_sorting_scan_left_to_right_32s_6k_block_gather(t, sa, head, block_start, block_size);
    let names: SaSint = partial_sorting_scan_left_to_right_32s_6k_block_sort(t, buckets, d, head, block_start, block_size);
    place_cached_suffixes(sa, head, 0, block_size);
    names
}

/// What the block leaves when it is gathered, sorted and written.
pub open spec fn cached_left_4k(t: Seq<i32>, k: int, sa: Seq<i32>, b: Seq<i32>, d: i32, cache: Seq<ThreadCache>, start: int, size: int) -> Option<(Seq<i32>, Seq<i32>, i32, Seq<ThreadCache>)> {
    if !(0 <= start && 0 <= size <= cache.len() && start + size <= i32::MAX) {
        None
    } else {
        match gather_left_4k_run(t, start, (sa, cache.subrange(0, size)), start, start + size) {
            Some(g) => match sort_left_4k_run(t, k, start, start, start + size, (b, d, g.1), start, start + size) {
                Some(x) => match place_chosen_run(x.2, g.0, 0, size) {
                    Some(y) => Some((y, x.0, x.1, x.2 + cache.subrange(size, cache.len() as int))),
                    None => None,
                },
                None => None,
            },
            None => None,
        }
    }
}

/// Scans a block. A large block is gathered, sorted and written as a whole where there is more
/// than one worker.
pub fn partial_sorting_scan_left_to_right_32s_4k_block_omp(
    t: &[SaSint],
    sa: &mut [SaSint],
    k: SaSint,
    buckets: &mut [SaSint],
    d: SaSint,
    cache: &mut [ThreadCache],
    block_start: FastSint,
    block_size: FastSint,
    threads: SaSint,
) -> (r: SaSint)
    requires
        old(cache).len() <= isize::MAX,
        block_size > 0 ==> if threads == 1 || block_size < 16384 {
            block_start + block_size <= isize::MAX && partial_sorting_scan_left_to_right_32s_4k_run(t@, k as int, (old(sa)@, old(buckets)@, d), block_start as int, block_size as int) is Some
        } else {
            threads >= 0 && cached_left_4k(t@, k as int, old(sa)@, old(buckets)@, d, old(cache)@, block_start as int, block_size as int) is Some
        },
    ensures
        block_size <= 0 ==> r == d && final(sa)@ == old(sa)@ && final(buckets)@ == old(buckets)@ && final(cache)@ == old(cache)@,
        block_size > 0 && (threads == 1 || block_size < 16384) ==> partial_sorting_scan_left_to_right_32s_4k_run(t@, k as int, (old(sa)@, old(buckets)@, d), block_start as int, block_size as int) == Some((final(sa)@, final(buckets)@, r))
            && final(cache)@ == old(cache)@,
        block_size > 0 && !(threads == 1 || block_size < 16384) ==> cached_left_4k(t@, k as int, old(sa)@, old(buckets)@, d, old(cache)@, block_start as int, block_size as int)
            == Some((final(sa)@, final(buckets)@, r, final(cache)@)),
        final(sa).len() == old(sa).len(),
        final(buckets).len() == old(buckets).len(),
        final(cache).len() == old(cache).len(),
{
    if block_size <= 0 {
        return d;
    }
    if threads == 1 || block_size < 16384 {
        return partial_sorting_scan_left_to_right_32s_4k(t, sa, k, buckets, d, block_start, block_size);
    }
    let (head, _tail) = cache.split_at_mut(block_size as usize);
    partial_sorting_scan_left_to_right_32s_4k_block_gather(t, sa, head, block_start, block_size);
    let names: SaSint = partial_sorting_scan_left_to_right_32s_4k_block_sort(t, k, buckets, d, head, block_start, block_size);
    let _ok: bool = try_place_chosen(head, sa, 0, block_size);
    names
}

/// What the block leaves when it is gathered, sorted and written.
pub open spec fn cached_left_1k(t: Seq<i32>, sa: Seq<i32>, b: Seq<i32>, cache: Seq<ThreadCache>, start: int, size: int) -> Option<(Seq<i32>, Seq<i32>, Seq<ThreadCache>)> {
    if !(0 <= start && 0 <= size && start + size <= i32::MAX) {
        None
    } else {
        match gather_left_1k_run(t, 0, (sa, cache), start, start + size) {
            Some(g) => match sort_left_1k_run(t, 0, start + size, (b, g.1), start, start + size) {
                Some(x) => match compact_and_place_run(g.0, x.1, start, size) {
                    Some(y) => Some((y.0, x.0, y.1)),
                    None => None,
                },
                None => None,
            },
            None => None,
        }
    }
}

/// Scans a block. A large block is gathered, sorted and written as a whole where there is more
/// than one worker.
pub fn partial_sorting_scan_left_to_right_32s_1k_block_omp(
    t: &[SaSint],
    sa: &mut [SaSint],
    buckets: &mut [SaSint],
    cache: &mut [ThreadCache],
    block_start: FastSint,
    block_size: FastSint,
    threads: SaSint,
)
    requires
        old(cache).len() <= isize::MAX,
        block_size > 0 ==> if threads == 1 || block_size < 16384 {
            block_start + block_size <= isize::MAX && partial_sorting_scan_left_to_right_32s_1k_run(t@, (old(sa)@, old(buckets)@), block_start as int, block_size as int) is Some
        } else {
            threads >= 0 && cached_left_1k(t@, old(sa)@, old(buckets)@, old(cache)@, block_start as int, block_size as int) is Some
        },
    ensures
        block_size <= 0 ==> final(sa)@ == old(sa)@ && final(buckets)@ == old(buckets)@ && final(cache)@ == old(cache)@,
        block_size > 0 && (threads == 1 || block_size < 16384) ==> partial_sorting_scan_left_to_right_32s_1k_run(t@, (old(sa)@, old(buckets)@), block_start as int, block_size as int) == Some((final(sa)@, final(buckets)@))
            && final(cache)@ == old(cache)@,
        block_size > 0 && !(threads == 1 || block_size < 16384) ==> cached_left_1k(t@, old(sa)@, old(buckets)@, old(cache)@, block_start as int, block_size as int)
            == Some((final(sa)@, final(buckets)@, final(cache)@)),
        final(sa).len() == old(sa).len(),
        final(buckets).len() == old(buckets).len(),
        final(cache).len() == old(cache).len(),
{
    if block_size <= 0 {
        return;
    }
    if threads == 1 || block_size < 16384 {
        partial_sorting_scan_left_to_right_32s_1k(t, sa, buckets, block_start, block_size);
        return;
    }
    partial_sorting_scan_left_to_right_32s_1k_block_gather(t, sa, cache, block_start, block_size);
    partial_sorting_scan_left_to_right_32s_1k_block_sort(t, buckets, cache, block_start, block_size);
    proof {
        lemma_compact_and_place_len(sa@, cache@, block_start as int, block_size as int);
    }
    compact_and_place_cached_suffixes(sa, cache, block_start, block_size);
}

/// What the block leaves when it is gathered, sorted and written.
pub open spec fn cached_final_left(t: Seq<i32>, sa: Seq<i32>, b: Seq<i32>, cache: Seq<ThreadCache>, start: int, size: int) -> Option<(Seq<i32>, Seq<i32>, Seq<ThreadCache>)> {
    if !(0 <= start && 0 <= size && start + size <= i32::MAX) {
        None
    } else {
        match gather_final_left_run(t, 0, (sa, cache), start, start + size) {
            Some(g) => match sort_final_left_run(t, 0, start + size, (b, g.1), start, start + size) {
                Some(x) => match compact_and_place_run(g.0, x.1, start, size) {
                    Some(y) => Some((y.0, x.0, y.1)),
                    None => None,
                },
                None => None,
            },
            None => None,
        }
    }
}

/// Scans a block, which is gathered, sorted and written as a whole.
pub fn final_sorting_scan_left_to_right_32s_block_omp(
    t: &[SaSint],
    sa: &mut [SaSint],
    buckets: &mut [SaSint],
    cache: &mut [ThreadCache],
    block_start: FastSint,
    block_size: FastSint,
    _threads: SaSint,
)
    requires
        old(cache).len() <= isize::MAX,
        cached_final_left(t@, old(sa)@, old(buckets)@, old(cache)@, block_start as int, block_size as int) is Some,
    ensures
        cached_final_left(t@, old(sa)@, old(buckets)@, old(cache)@, block_start as int, block_size as int) == Some((final(sa)@, final(buckets)@, final(cache)@)),
        final(sa).len() == old(sa).len(),
        final(buckets).len() == old(buckets).len(),
        final(cache).len() == old(cache).len(),
{
    final_sorting_scan_left_to_right_32s_block_gather(t, sa, cache, block_start, block_size);
    final_sorting_scan_left_to_right_32s_block_sort(t, buckets, cache, block_start, block_size);
    proof {
        lemma_compact_and_place_len(sa@, cache@, block_start as int, block_size as int);
    }
    compact_and_place_cached_suffixes(sa, cache, block_start, block_size);
}

/// What the block leaves when it is gathered, sorted and written.
pub open spec fn cached_right_6k(t: Seq<i32>, sa: Seq<i32>, b: Seq<i32>, d: i32, cache: Seq<ThreadCache>, start: int, size: int) -> Option<(Seq<i32>, Seq<i32>, i32, Seq<ThreadCache>)> {
    if !(0 <= start && 0 <= size <= cache.len() && start + size <= i32::MAX) {
        None
    } else {
        match gather_right_6k_run(t, sa, start, cache.subrange(0, size), start, start + size) {
            Some(c) => match sort_right_6k_run(t, start, start, start, (b, d, c), start, start + size) {
                Some(x) => match place_cached_run(x.2, sa, 0, size) {
                    Some(y) => Some((y, x.0, x.1, x.2 + cache.subrange(size, cache.len() as int))),
                    None => None,
                },
                None => None,
            },
            None => None,
        }
    }
}

/// Scans a block. A large block is gathered, sorted and written as a whole where there is more
/// than one worker.
pub fn partial_sorting_scan_right_to_left_32s_6k_block_omp(
    t: &[SaSint],
    sa: &mut [SaSint],
    buckets: &mut [SaSint],
    d: SaSint,
    cache: &mut [ThreadCache],
    block_start: FastSint,
    block_size: FastSint,
    threads: SaSint,
) -> (r: SaSint)
    requires
        old(cache).len() <= isize::MAX,
        block_size > 0 ==> if threads == 1 || block_size < 16384 {
            block_start + block_size <= isize::MAX && partial_sorting_scan_right_to_left_32s_6k_run(t@, (old(sa)@, old(buckets)@, d), block_start as int, block_size as int) is Some
        } else {
            threads >= 0 && cached_right_6k(t@, old(sa)@, old(buckets)@, d, old(cache)@, block_start as int, block_size as int) is Some
        },
    ensures
        block_size <= 0 ==> r == d && final(sa)@ == old(sa)@ && final(buckets)@ == old(buckets)@ && final(cache)@ == old(cache)@,
        block_size > 0 && (threads == 1 || block_size < 16384) ==> partial_sorting_scan_right_to_left_32s_6k_run(t@, (old(sa)@, old(buckets)@, d), block_start as int, block_size as int) == Some((final(sa)@, final(buckets)@, r))
            && final(cache)@ == old(cache)@,
        block_size > 0 && !(threads == 1 || block_size < 16384) ==> cached_right_6k(t@, old(sa)@, old(buckets)@, d, old(cache)@, block_start as int, block_size as int)
            == Some((final(sa)@, final(buckets)@, r, final(cache)@)),
        final(sa).len() == old(sa).len(),
        final(buckets).len() == old(buckets).len(),
        final(cache).len() == old(cache).len(),
{
    if block_size <= 0 {
        return d;
    }
    if threads == 1 || block_size < 16384 {
        return partial_sorting_scan_right_to_left_32s_6k(t, sa, buckets, d, block_start, block_size);
    }
    let (head, _tail) = cache.split_at_mut(block_size as usize);
    partial_sorting_scan_right_to_left_32s_6k_block_gather(t, sa, head, block_start, block_size);
    let names: SaSint = partial_sorting_scan_right_to_left_32s_6k_block_sort(t, buckets, d, head, block_start, block_size);
    place_cached_suffixes(sa, head, 0, block_size);
    names
}

/// What the block leaves when it is gathered, sorted and written.
pub open spec fn cached_right_4k(t: Seq<i32>, k: int, sa: Seq<i32>, b: Seq<i32>, d: i32, cache: Seq<ThreadCache>, start: int, size: int) -> Option<(Seq<i32>, Seq<i32>, i32, Seq<ThreadCache>)> {
    if !(0 <= start && 0 <= size <= cache.len() && start + size <= i32::MAX) {
        None
    } else {
        match gather_right_4k_run(t, start, (sa, cache.subrange(0, size)), start, start + size) {
            Some(g) => match sort_right_4k_run(t, k, start, start, start, (b, d, g.1), start, start + size) {
                Some(x) => match compact_and_place_run(g.0, x.2 + cache.subrange(size, cache.len() as int), 0, size) {
                    Some(y) => Some((y.0, x.0, x.1, y.1)),
                    None => None,
                },
                None => None,
            },
            None => None,
        }
    }
}

/// Scans a block. A large block is gathered, sorted and written as a whole where there is more
/// than one worker.
pub fn partial_sorting_scan_right_to_left_32s_4k_block_omp(
    t: &[SaSint],
    sa: &mut [SaSint],
    k: SaSint,
    buckets: &mut [SaSint],
    d: SaSint,
    cache: &mut [ThreadCache],
    block_start: FastSint,
    block_size: FastSint,
    threads: SaSint,
) -> (r: SaSint)
    requires
        old(cache).len() <= isize::MAX,
        block_size > 0 ==> if threads == 1 || block_size < 16384 {
            block_start + block_size <= isize::MAX && partial_sorting_scan_right_to_left_32s_4k_run(t@, k as int, (old(sa)@, old(buckets)@, d), block_start as int, block_size as int) is Some
        } else {
            threads >= 0 && cached_right_4k(t@, k as int, old(sa)@, old(buckets)@, d, old(cache)@, block_start as int, block_size as int) is Some
        },
    ensures
        block_size <= 0 ==> r == d && final(sa)@ == old(sa)@ && final(buckets)@ == old(buckets)@ && final(cache)@ == old(cache)@,
        block_size > 0 && (threads == 1 || block_size < 16384) ==> partial_sorting_scan_right_to_left_32s_4k_run(t@, k as int, (old(sa)@, old(buckets)@, d), block_start as int, block_size as int) == Some((final(sa)@, final(buckets)@, r))
            && final(cache)@ == old(cache)@,
        block_size > 0 && !(threads == 1 || block_size < 16384) ==> cached_right_4k(t@, k as int, old(sa)@, old(buckets)@, d, old(cache)@, block_start as int, block_size as int)
            == Some((final(sa)@, final(buckets)@, r, final(cache)@)),
        final(sa).len() == old(sa).len(),
        final(buckets).len() == old(buckets).len(),
        final(cache).len() == old(cache).len(),
{
    if block_size <= 0 {
        return d;
    }
    if threads == 1 || block_size < 16384 {
        return partial_sorting_scan_right_to_left_32s_4k(t, sa, k, buckets, d, block_start, block_size);
    }
    let names: SaSint = {
        let (head, _tail) = cache.split_at_mut(block_size as usize);
        partial_sorting_scan_right_to_left_32s_4k_block_gather(t, sa, head, block_start, block_size);
        partial_sorting_scan_right_to_left_32s_4k_block_sort(t, k, buckets, d, head, block_start, block_size)
    };
    proof {
        lemma_compact_and_place_len(sa@, cache@, 0, block_size as int);
    }
    compact_and_place_cached_suffixes(sa, cache, 0, block_size);
    names
}

/// What the block leaves when it is gathered, sorted and written.
pub open spec fn cached_right_1k(t: Seq<i32>, sa: Seq<i32>, b: Seq<i32>, cache: Seq<ThreadCache>, start: int, size: int) -> Option<(Seq<i32>, Seq<i32>, Seq<ThreadCache>)> {
    if !(0 <= start && 0 <= size && start + size <= i32::MAX) {
        None
    } else {
        match gather_right_1k_run(t, start, (sa, cache), start, start + size) {
            Some(g) => match sort_right_1k_run(t, start, start, (b, g.1), start, start + size) {
                Some(x) => match compact_and_place_run(g.0, x.1, 0, size) {
                    Some(y) => Some((y.0, x.0, y.1)),
                    None => None,
                },
                None => None,
            },
            None => None,
        }
    }
}

/// Scans a block. A large block is gathered, sorted and written as a whole where there is more
/// than one worker.
pub fn partial_sorting_scan_right_to_left_32s_1k_block_omp(
    t: &[SaSint],
    sa: &mut [SaSint],
    buckets: &mut [SaSint],
    cache: &mut [ThreadCache],
    block_start: FastSint,
    block_size: FastSint,
    threads: SaSint,
)
    requires
        old(cache).len() <= isize::MAX,
        block_size > 0 ==> if threads == 1 || block_size < 16384 {
            block_start + block_size <= isize::MAX && partial_sorting_scan_right_to_left_32s_1k_run(t@, (old(sa)@, old(buckets)@), block_start as int, block_size as int) is Some
        } else {
            threads >= 0 && cached_right_1k(t@, old(sa)@, old(buckets)@, old(cache)@, block_start as int, block_size as int) is Some
        },
    ensures
        block_size <= 0 ==> final(sa)@ == old(sa)@ && final(buckets)@ == old(buckets)@ && final(cache)@ == old(cache)@,
        block_size > 0 && (threads == 1 || block_size < 16384) ==> partial_sorting_scan_right_to_left_32s_1k_run(t@, (old(sa)@, old(buckets)@), block_start as int, block_size as int) == Some((final(sa)@, final(buckets)@))
            && final(cache)@ == old(cache)@,
        block_size > 0 && !(threads == 1 || block_size < 16384) ==> cached_right_1k(t@, old(sa)@, old(buckets)@, old(cache)@, block_start as int, block_size as int)
            == Some((final(sa)@, final(buckets)@, final(cache)@)),
        final(sa).len() == old(sa).len(),
        final(buckets).len() == old(buckets).len(),
        final(cache).len() == old(cache).len(),
{
    if block_size <= 0 {
        return;
    }
    if threads == 1 || block_size < 16384 {
        partial_sorting_scan_right_to_left_32s_1k(t, sa, buckets, block_start, block_size);
        return;
    }
    partial_sorting_scan_right_to_left_32s_1k_block_gather(t, sa, cache, block_start, block_size);
    partial_sorting_scan_right_to_left_32s_1k_block_sort(t, buckets, cache, block_start, block_size);
    proof {
        lemma_compact_and_place_len(sa@, cache@, 0, block_size as int);
    }
    compact_and_place_cached_suffixes(sa, cache, 0, block_size);
}

/// What the block leaves when it is gathered, sorted and written.
pub open spec fn cached_final_right(t: Seq<i32>, sa: Seq<i32>, b: Seq<i32>, cache: Seq<ThreadCache>, start: int, size: int) -> Option<(Seq<i32>, Seq<i32>, Seq<ThreadCache>)> {
    if !(0 <= start && 0 <= size && start + size <= i32::MAX) {
        None
    } else {
        match gather_final_right_run(t, 0, (sa, cache), start, start + size) {
            Some(g) => match sort_final_right_run(t, 0, start, (b, g.1), start, start + size) {
                Some(x) => match compact_and_place_run(g.0, x.1, start, size) {
                    Some(y) => Some((y.0, x.0, y.1)),
                    None => None,
                },
                None => None,
            },
            None => None,
        }
    }
}

/// Scans a block, which is gathered, sorted and written as a whole.
pub fn final_sorting_scan_right_to_left_32s_block_omp(
    t: &[SaSint],
    sa: &mut [SaSint],
    buckets: &mut [SaSint],
    cache: &mut [ThreadCache],
    block_start: FastSint,
    block_size: FastSint,
    _threads: SaSint,
)
    requires
        old(cache).len() <= isize::MAX,
        cached_final_right(t@, old(sa)@, old(buckets)@, old(cache)@, block_start as int, block_size as int) is Some,
    ensures
        cached_final_right(t@, old(sa)@, old(buckets)@, old(cache)@, block_start as int, block_size as int) == Some((final(sa)@, final(buckets)@, final(cache)@)),
        final(sa).len() == old(sa).len(),
        final(buckets).len() == old(buckets).len(),
        final(cache).len() == old(cache).len(),
{
    final_sorting_scan_right_to_left_32s_block_gather(t, sa, cache, block_start, block_size);
    final_sorting_scan_right_to_left_32s_block_sort(t, buckets, cache, block_start, block_size);
    proof {
        lemma_compact_and_place_len(sa@, cache@, block_start as int, block_size as int);
    }
    compact_and_place_cached_suffixes(sa, cache, block_start, block_size);
}

} // verus!
