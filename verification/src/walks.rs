//! How a scan with several workers walks over the array: empty slots are passed over, and runs
//! of filled slots are taken in blocks of limited length.

use vstd::prelude::*;
use crate::types::{SaSint, LIBSAIS_PER_THREAD_CACHE_SIZE};

verus! {

/// The first slot from `i` on that is empty, or `max`.
pub open spec fn filled_up(sa: Seq<i32>, i: int, max: int) -> int
    decreases max - i,
{
    if i < max && sa[i] != 0 {
        filled_up(sa, i + 1, max)
    } else {
        i
    }
}

/// The first of the filled slots right in front of slot `i`, from `min` on.
pub open spec fn filled_down(sa: Seq<i32>, i: int, min: int) -> int
    decreases i - min,
{
    if i > min && sa[i - 1] != 0 {
        filled_down(sa, i - 1, min)
    } else {
        i
    }
}

/// Computes [`filled_up`].
pub(crate) fn find_up(sa: &[SaSint], i: usize, max: usize) -> (r: usize)
    requires
        max <= sa.len(),
    ensures
        r == filled_up(sa@, i as int, max as int),
        i <= r,
        r <= max || r == i,
{
    let mut j: usize = i;
    while j < max && sa[j] != 0
        invariant
            i <= j,
            j <= max || j == i,
            max <= sa.len(),
            filled_up(sa@, i as int, max as int) == filled_up(sa@, j as int, max as int),
        decreases max - j,
    {
        j += 1;
    }
    j
}

/// Computes [`filled_down`].
pub(crate) fn find_down(sa: &[SaSint], i: usize, min: usize) -> (r: usize)
    requires
        min <= i <= sa.len(),
    ensures
        r == filled_down(sa@, i as int, min as int),
        min <= r <= i,
{
    let mut j: usize = i;
    while j > min && sa[j - 1] != 0
        invariant
            min <= j <= i <= sa.len(),
            filled_down(sa@, i as int, min as int) == filled_down(sa@, j as int, min as int),
        decreases j,
    {
        j -= 1;
    }
    j
}

/// A walk upward from slot `lo` to slot `hi`: a run of filled slots, of at most `span`, is
/// scanned by `short` where it is short and by `long` where it is not. A negative `span` allows
/// none.
pub open spec fn walk_up<S>(
    array: spec_fn(S) -> Seq<i32>,
    short: spec_fn(S, int, int) -> Option<S>,
    long: spec_fn(S, int, int) -> Option<S>,
    span: int,
    s: S,
    lo: int,
    hi: int,
) -> Option<S>
    decreases hi - lo,
{
    let a = array(s);
    let end = filled_up(a, lo + 1, if lo + span < hi { lo + span } else { hi });
    if lo >= hi {
        Some(s)
    } else if !(0 <= lo && hi <= a.len()) {
        None
    } else if a[lo] == 0 {
        walk_up(array, short, long, span, s, lo + 1, hi)
    } else if !(0 <= span && lo < end <= hi) {
        None
    } else {
        match (if end - lo < 32 { short(s, lo, end - lo) } else { long(s, lo, end - lo) }) {
            Some(x) => walk_up(array, short, long, span, x, end, hi),
            None => None,
        }
    }
}

/// A walk downward from slot `hi - 1` to slot `lo`: a run of filled slots, which reaches at most
/// `back` slots back, is scanned by `short` where it is short and by `long` where it is not, and
/// `empty` notes an empty slot. A negative `back` allows no run.
pub open spec fn walk_down<S>(
    array: spec_fn(S) -> Seq<i32>,
    empty: spec_fn(S, int) -> S,
    short: spec_fn(S, int, int) -> Option<S>,
    long: spec_fn(S, int, int) -> Option<S>,
    back: int,
    s: S,
    lo: int,
    hi: int,
) -> Option<S>
    decreases hi - lo,
{
    let a = array(s);
    let p = hi - 1;
    let end = filled_down(a, p, if p - back > lo { p - back } else { lo });
    if lo >= hi {
        Some(s)
    } else if !(0 <= lo && hi <= a.len()) {
        None
    } else if a[p] == 0 {
        walk_down(array, empty, short, long, back, empty(s, p), lo, p)
    } else if !(0 <= back && lo <= end < hi) {
        None
    } else {
        match (if hi - end < 32 { short(s, end, hi - end) } else { long(s, end, hi - end) }) {
            Some(x) => walk_down(array, empty, short, long, back, x, lo, end),
            None => None,
        }
    }
}

/// A pass upward from slot `lo` to slot `hi` in parts of `span` slots.
pub open spec fn chunks_up<S>(step: spec_fn(S, int, int) -> Option<S>, span: int, s: S, lo: int, hi: int) -> Option<S>
    decreases hi - lo,
{
    let end = if lo + span < hi { lo + span } else { hi };
    if lo >= hi {
        Some(s)
    } else if span < 1 {
        None
    } else {
        match step(s, lo, end - lo) {
            Some(x) => chunks_up(step, span, x, end, hi),
            None => None,
        }
    }
}

/// A pass downward from slot `hi - 1` to slot `lo` in parts of `span` slots.
pub open spec fn chunks_down<S>(step: spec_fn(S, int, int) -> Option<S>, span: int, s: S, lo: int, hi: int) -> Option<S>
    decreases hi - lo,
{
    let start = if hi - span > lo { hi - span } else { lo };
    if lo >= hi {
        Some(s)
    } else if span < 1 {
        None
    } else {
        match step(s, start, hi - start) {
            Some(x) => chunks_down(step, span, x, lo, start),
            None => None,
        }
    }
}

/// How many filled slots `w` workers take at once, or `-1` where they cannot.
pub open spec fn worker_span(w: int) -> int {
    if 0 <= w <= 1536 {
        w * (LIBSAIS_PER_THREAD_CACHE_SIZE - 16 * w)
    } else {
        -1
    }
}

/// How many filled slots `w` workers take at once where each fills two entries of a cache, or
/// `-1` where they cannot.
pub open spec fn half_span(w: int) -> int {
    if 0 <= w <= 1536 {
        w * ((LIBSAIS_PER_THREAD_CACHE_SIZE - 16 * w) / 2)
    } else {
        -1
    }
}

/// Computes [`worker_span`], or [`half_span`] where `halved`, for a number of workers that can.
pub(crate) fn span_for(w: usize, halved: bool) -> (r: usize)
    requires
        w <= 1536,
    ensures
        !halved ==> r == worker_span(w as int),
        halved ==> r == half_span(w as int),
        r <= 0x4000_0000,
{
    let one: usize = LIBSAIS_PER_THREAD_CACHE_SIZE - 16 * w;
    let share: usize = if halved { one / 2 } else { one };
    assert(0 <= w * share <= 1536 * 24576) by (nonlinear_arith)
        requires
            w <= 1536,
            share <= 24576,
    ;
    w * share
}

} // verus!
