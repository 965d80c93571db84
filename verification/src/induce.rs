//! Whole scans with one worker: the last suffix is placed first, then everything it
//! and the LMS suffixes induce.

use vstd::prelude::*;
use crate::final_scan::{
    final_sorting_scan_left_to_right_32s_run, final_sorting_scan_left_to_right_8u_run,
    try_final_sorting_scan_left_to_right_32s, try_final_sorting_scan_left_to_right_8u,
};
use crate::marks::{bit, marked, set_group, set_mark, with_group, within};
use crate::partial_32s::{
    partial_sorting_scan_left_to_right_32s_1k_run, partial_sorting_scan_left_to_right_32s_4k_run,
    partial_sorting_scan_left_to_right_32s_6k_run, try_partial_sorting_scan_left_to_right_32s_1k,
    try_partial_sorting_scan_left_to_right_32s_4k, try_partial_sorting_scan_left_to_right_32s_6k,
};
use crate::partial_8u::{
    partial_sorting_scan_left_to_right_8u_run, try_partial_sorting_scan_left_to_right_8u, INDUCTION_8U, NAMES_8U,
};
use crate::types::{FastSint, InduceState, PlaceState, SaSint, SAINT_MAX};

verus! {

/// The state with the last suffix of a byte text placed under a new name.
pub open spec fn seeded_8u(t: Seq<u8>, n: int, s: InduceState) -> Option<InduceState> {
    let (sa, b, d) = s;
    let v = 2 * t[n - 1] + bit(t[n - 2] >= t[n - 1]);
    let x = b[INDUCTION_8U + v];
    if 2 <= n <= t.len() && INDUCTION_8U + v < b.len() && 0 <= x < sa.len() && x < i32::MAX && d < i32::MAX
        && n <= i32::MAX {
        Some((
            sa.update(x as int, marked((n - 1) as i32, true)),
            b.update(INDUCTION_8U + v, (x + 1) as i32).update(NAMES_8U + v, (d + 1) as i32),
            (d + 1) as i32,
        ))
    } else {
        None
    }
}

/// Places the last suffix of a byte text under a new name.
pub(crate) fn try_seed_8u(t: &[u8], n: SaSint, sa: &mut [SaSint], buckets: &mut [SaSint], d: &mut SaSint) -> (ok: bool)
    ensures
        ok == (seeded_8u(t@, n as int, (old(sa)@, old(buckets)@, *old(d))) is Some),
        ok ==> seeded_8u(t@, n as int, (old(sa)@, old(buckets)@, *old(d)))
            == Some((final(sa)@, final(buckets)@, *final(d))),
        final(sa).len() == old(sa).len(),
        final(buckets).len() == old(buckets).len(),
{
    if n < 2 || n as u64 > t.len() as u64 || *d == SAINT_MAX {
        return false;
    }
    let last: usize = n as usize - 1;
    let v: usize = 2 * (t[last] as usize) + (if t[last - 1] >= t[last] { 1 } else { 0 });
    if INDUCTION_8U + v >= buckets.len() {
        return false;
    }
    let x: SaSint = buckets[INDUCTION_8U + v];
    if !within(x, sa.len()) || x == SAINT_MAX {
        return false;
    }
    sa[x as usize] = set_mark(n - 1, true);
    buckets[INDUCTION_8U + v] = x + 1;
    *d = *d + 1;
    buckets[NAMES_8U + v] = *d;
    true
}

/// The state with the last suffix of an integer text placed under a new name, with six
/// buckets for each symbol.
pub open spec fn seeded_32s_6k(t: Seq<i32>, n: int, s: InduceState) -> Option<InduceState> {
    let (sa, b, d) = s;
    let v = 4 * t[n - 1] + bit(t[n - 2] >= t[n - 1]);
    let x = b[v];
    if 2 <= n <= t.len() && 0 <= t[n - 1] && v + 2 < b.len() && 0 <= x < sa.len() && x < i32::MAX && d < i32::MAX
        && n <= i32::MAX {
        Some((
            sa.update(x as int, marked((n - 1) as i32, true)),
            b.update(v, (x + 1) as i32).update(v + 2, (d + 1) as i32),
            (d + 1) as i32,
        ))
    } else {
        None
    }
}

/// Places the last suffix of an integer text under a new name.
pub(crate) fn try_seed_32s_6k(t: &[SaSint], n: SaSint, sa: &mut [SaSint], buckets: &mut [SaSint], d: &mut SaSint) -> (ok: bool)
    ensures
        ok == (seeded_32s_6k(t@, n as int, (old(sa)@, old(buckets)@, *old(d))) is Some),
        ok ==> seeded_32s_6k(t@, n as int, (old(sa)@, old(buckets)@, *old(d)))
            == Some((final(sa)@, final(buckets)@, *final(d))),
        final(sa).len() == old(sa).len(),
        final(buckets).len() == old(buckets).len(),
{
    if n < 2 || n as u64 > t.len() as u64 || *d == SAINT_MAX {
        return false;
    }
    let last: usize = n as usize - 1;
    let c: SaSint = t[last];
    let s: bool = t[last - 1] >= c;
    if c < 0 || 4 * (c as u64) + (if s { 3 } else { 2 }) >= buckets.len() as u64 {
        return false;
    }
    let v: usize = 4 * (c as usize) + (if s { 1 } else { 0 });
    let x: SaSint = buckets[v];
    if !within(x, sa.len()) || x == SAINT_MAX {
        return false;
    }
    sa[x as usize] = set_mark(n - 1, true);
    buckets[v] = x + 1;
    *d = *d + 1;
    buckets[v + 2] = *d;
    true
}

/// The state with the last suffix of an integer text placed under a new name, with four
/// buckets for each symbol.
pub open spec fn seeded_32s_4k(t: Seq<i32>, n: int, k: int, s: InduceState) -> Option<InduceState> {
    let (sa, b, d) = s;
    let c = t[n - 1];
    let f = t[n - 2] < c;
    let u = 2 * k + c;
    let v = 2 * c + bit(f);
    let x = b[u];
    if 2 <= n <= t.len() && 0 <= k && 0 <= c && u < b.len() && v < b.len() && 0 <= x < sa.len() && x < i32::MAX
        && d < i32::MAX && n <= i32::MAX {
        Some((
            sa.update(x as int, with_group(marked((n - 1) as i32, f), true)),
            b.update(u, (x + 1) as i32).update(v, (d + 1) as i32),
            (d + 1) as i32,
        ))
    } else {
        None
    }
}

/// Places the last suffix of an integer text under a new name.
pub(crate) fn try_seed_32s_4k(
    t: &[SaSint],
    n: SaSint,
    k: SaSint,
    sa: &mut [SaSint],
    buckets: &mut [SaSint],
    d: &mut SaSint,
) -> (ok: bool)
    ensures
        ok == (seeded_32s_4k(t@, n as int, k as int, (old(sa)@, old(buckets)@, *old(d))) is Some),
        ok ==> seeded_32s_4k(t@, n as int, k as int, (old(sa)@, old(buckets)@, *old(d)))
            == Some((final(sa)@, final(buckets)@, *final(d))),
        final(sa).len() == old(sa).len(),
        final(buckets).len() == old(buckets).len(),
{
    if n < 2 || n as u64 > t.len() as u64 || *d == SAINT_MAX || k < 0 {
        return false;
    }
    let last: usize = n as usize - 1;
    let c: SaSint = t[last];
    let f: bool = t[last - 1] < c;
    if c < 0 || 2 * (k as u64) + c as u64 >= buckets.len() as u64
        || 2 * (c as u64) + (if f { 1 } else { 0 }) >= buckets.len() as u64 {
        return false;
    }
    let u: usize = (2 * (k as u64) + c as u64) as usize;
    let v: usize = 2 * (c as usize) + (if f { 1 } else { 0 });
    let x: SaSint = buckets[u];
    if !within(x, sa.len()) || x == SAINT_MAX {
        return false;
    }
    sa[x as usize] = set_group(set_mark(n - 1, f), true);
    buckets[u] = x + 1;
    *d = *d + 1;
    buckets[v] = *d;
    true
}

/// The state with the last suffix of a byte text placed, with one bucket for each symbol.
pub open spec fn seeded_8u_1k(t: Seq<u8>, n: int, s: PlaceState) -> Option<PlaceState> {
    let (sa, b) = s;
    let c = t[n - 1];
    let x = b[c as int];
    if 2 <= n <= t.len() && c < b.len() && 0 <= x < sa.len() && x < i32::MAX && n <= i32::MAX {
        Some((
            sa.update(x as int, marked((n - 1) as i32, t[n - 2] < c)),
            b.update(c as int, (x + 1) as i32),
        ))
    } else {
        None
    }
}

/// Places the last suffix of a byte text.
pub(crate) fn try_seed_8u_1k(t: &[u8], n: SaSint, sa: &mut [SaSint], buckets: &mut [SaSint]) -> (ok: bool)
    ensures
        ok == (seeded_8u_1k(t@, n as int, (old(sa)@, old(buckets)@)) is Some),
        ok ==> seeded_8u_1k(t@, n as int, (old(sa)@, old(buckets)@)) == Some((final(sa)@, final(buckets)@)),
        final(sa).len() == old(sa).len(),
        final(buckets).len() == old(buckets).len(),
{
    if n < 2 || n as u64 > t.len() as u64 {
        return false;
    }
    let last: usize = n as usize - 1;
    let c: u8 = t[last];
    if c as usize >= buckets.len() {
        return false;
    }
    let x: SaSint = buckets[c as usize];
    if !within(x, sa.len()) || x == SAINT_MAX {
        return false;
    }
    sa[x as usize] = set_mark(n - 1, t[last - 1] < c);
    buckets[c as usize] = x + 1;
    true
}

/// The state with the last suffix of an integer text placed, with one bucket for each symbol.
pub open spec fn seeded_32s_1k(t: Seq<i32>, n: int, s: PlaceState) -> Option<PlaceState> {
    let (sa, b) = s;
    let c = t[n - 1];
    let x = b[c as int];
    if 2 <= n <= t.len() && 0 <= c && c < b.len() && 0 <= x < sa.len() && x < i32::MAX && n <= i32::MAX {
        Some((
            sa.update(x as int, marked((n - 1) as i32, t[n - 2] < c)),
            b.update(c as int, (x + 1) as i32),
        ))
    } else {
        None
    }
}

/// Places the last suffix of an integer text.
pub(crate) fn try_seed_32s_1k(t: &[SaSint], n: SaSint, sa: &mut [SaSint], buckets: &mut [SaSint]) -> (ok: bool)
    ensures
        ok == (seeded_32s_1k(t@, n as int, (old(sa)@, old(buckets)@)) is Some),
        ok ==> seeded_32s_1k(t@, n as int, (old(sa)@, old(buckets)@)) == Some((final(sa)@, final(buckets)@)),
        final(sa).len() == old(sa).len(),
        final(buckets).len() == old(buckets).len(),
{
    if n < 2 || n as u64 > t.len() as u64 {
        return false;
    }
    let last: usize = n as usize - 1;
    let c: SaSint = t[last];
    if !within(c, buckets.len()) {
        return false;
    }
    let x: SaSint = buckets[c as usize];
    if !within(x, sa.len()) || x == SAINT_MAX {
        return false;
    }
    sa[x as usize] = set_mark(n - 1, t[last - 1] < c);
    buckets[c as usize] = x + 1;
    true
}

/// The whole left-to-right scan over the LMS substrings of a byte text.
pub open spec fn partial_left_8u(t: Seq<u8>, n: int, count: int, s: InduceState) -> Option<InduceState> {
    match seeded_8u(t, n, s) {
        Some(x) => partial_sorting_scan_left_to_right_8u_run(t, x, 0, count),
        None => None,
    }
}

/// The whole left-to-right scan over the LMS substrings of a byte text. `false` where a slot is out of range.
pub(crate) fn try_partial_left_8u(
    t: &[u8],
    n: SaSint,
    count: SaSint,
    sa: &mut [SaSint],
    buckets: &mut [SaSint],
    d: &mut SaSint,
) -> (ok: bool)
    ensures
        ok == (partial_left_8u(t@, n as int, count as int, (old(sa)@, old(buckets)@, *old(d))) is Some),
        ok ==> partial_left_8u(t@, n as int, count as int, (old(sa)@, old(buckets)@, *old(d))) == Some((final(sa)@, final(buckets)@, *final(d))),
        final(sa).len() == old(sa).len(),
        final(buckets).len() == old(buckets).len(),
{
    try_seed_8u(t, n, sa, buckets, d)
        && try_partial_sorting_scan_left_to_right_8u(t, sa, buckets, d, 0, count as FastSint)
}

/// The whole left-to-right scan over the LMS substrings, with six buckets for each symbol.
pub open spec fn partial_left_32s_6k(t: Seq<i32>, n: int, count: int, s: InduceState) -> Option<InduceState> {
    match seeded_32s_6k(t, n, s) {
        Some(x) => partial_sorting_scan_left_to_right_32s_6k_run(t, x, 0, count),
        None => None,
    }
}

/// The whole left-to-right scan over the LMS substrings, with six buckets for each symbol. `false` where a slot is out of range.
pub(crate) fn try_partial_left_32s_6k(
    t: &[SaSint],
    n: SaSint,
    count: SaSint,
    sa: &mut [SaSint],
    buckets: &mut [SaSint],
    d: &mut SaSint,
) -> (ok: bool)
    ensures
        ok == (partial_left_32s_6k(t@, n as int, count as int, (old(sa)@, old(buckets)@, *old(d))) is Some),
        ok ==> partial_left_32s_6k(t@, n as int, count as int, (old(sa)@, old(buckets)@, *old(d))) == Some((final(sa)@, final(buckets)@, *final(d))),
        final(sa).len() == old(sa).len(),
        final(buckets).len() == old(buckets).len(),
{
    try_seed_32s_6k(t, n, sa, buckets, d)
        && try_partial_sorting_scan_left_to_right_32s_6k(t, sa, buckets, d, 0, count as FastSint)
}

/// The whole left-to-right scan over the LMS substrings, with four buckets for each symbol.
pub open spec fn partial_left_32s_4k(t: Seq<i32>, n: int, k: int, s: InduceState) -> Option<InduceState> {
    match seeded_32s_4k(t, n, k, s) {
        Some(x) => partial_sorting_scan_left_to_right_32s_4k_run(t, k, x, 0, n),
        None => None,
    }
}

/// The whole left-to-right scan over the LMS substrings, with four buckets for each symbol. `false` where a slot is out of range.
pub(crate) fn try_partial_left_32s_4k(
    t: &[SaSint],
    n: SaSint,
    k: SaSint,
    sa: &mut [SaSint],
    buckets: &mut [SaSint],
    d: &mut SaSint,
) -> (ok: bool)
    ensures
        ok == (partial_left_32s_4k(t@, n as int, k as int, (old(sa)@, old(buckets)@, *old(d))) is Some),
        ok ==> partial_left_32s_4k(t@, n as int, k as int, (old(sa)@, old(buckets)@, *old(d))) == Some((final(sa)@, final(buckets)@, *final(d))),
        final(sa).len() == old(sa).len(),
        final(buckets).len() == old(buckets).len(),
{
    try_seed_32s_4k(t, n, k, sa, buckets, d)
        && try_partial_sorting_scan_left_to_right_32s_4k(t, sa, k, buckets, d, 0, n as FastSint)
}

/// The whole left-to-right scan over the LMS substrings, with one bucket for each symbol.
pub open spec fn partial_left_32s_1k(t: Seq<i32>, n: int, s: PlaceState) -> Option<PlaceState> {
    match seeded_32s_1k(t, n, s) {
        Some(x) => partial_sorting_scan_left_to_right_32s_1k_run(t, x, 0, n),
        None => None,
    }
}

/// The whole left-to-right scan over the LMS substrings, with one bucket for each symbol. `false` where a slot is out of range.
pub(crate) fn try_partial_left_32s_1k(
    t: &[SaSint],
    n: SaSint,
    sa: &mut [SaSint],
    buckets: &mut [SaSint],
) -> (ok: bool)
    ensures
        ok == (partial_left_32s_1k(t@, n as int, (old(sa)@, old(buckets)@)) is Some),
        ok ==> partial_left_32s_1k(t@, n as int, (old(sa)@, old(buckets)@)) == Some((final(sa)@, final(buckets)@)),
        final(sa).len() == old(sa).len(),
        final(buckets).len() == old(buckets).len(),
{
    try_seed_32s_1k(t, n, sa, buckets)
        && try_partial_sorting_scan_left_to_right_32s_1k(t, sa, buckets, 0, n as FastSint)
}

/// The whole left-to-right scan for the final order of a byte text.
pub open spec fn final_left_8u(t: Seq<u8>, n: int, s: PlaceState) -> Option<PlaceState> {
    match seeded_8u_1k(t, n, s) {
        Some(x) => final_sorting_scan_left_to_right_8u_run(t, x, 0, n),
        None => None,
    }
}

/// The whole left-to-right scan for the final order of a byte text. `false` where a slot is out of range.
pub(crate) fn try_final_left_8u(
    t: &[u8],
    n: SaSint,
    sa: &mut [SaSint],
    buckets: &mut [SaSint],
) -> (ok: bool)
    ensures
        ok == (final_left_8u(t@, n as int, (old(sa)@, old(buckets)@)) is Some),
        ok ==> final_left_8u(t@, n as int, (old(sa)@, old(buckets)@)) == Some((final(sa)@, final(buckets)@)),
        final(sa).len() == old(sa).len(),
        final(buckets).len() == old(buckets).len(),
{
    try_seed_8u_1k(t, n, sa, buckets)
        && try_final_sorting_scan_left_to_right_8u(t, sa, buckets, 0, n as FastSint)
}

/// The whole left-to-right scan for the final order of an integer text.
pub open spec fn final_left_32s(t: Seq<i32>, n: int, s: PlaceState) -> Option<PlaceState> {
    match seeded_32s_1k(t, n, s) {
        Some(x) => final_sorting_scan_left_to_right_32s_run(t, x, 0, n),
        None => None,
    }
}

/// The whole left-to-right scan for the final order of an integer text. `false` where a slot is out of range.
pub(crate) fn try_final_left_32s(
    t: &[SaSint],
    n: SaSint,
    sa: &mut [SaSint],
    buckets: &mut [SaSint],
) -> (ok: bool)
    ensures
        ok == (final_left_32s(t@, n as int, (old(sa)@, old(buckets)@)) is Some),
        ok ==> final_left_32s(t@, n as int, (old(sa)@, old(buckets)@)) == Some((final(sa)@, final(buckets)@)),
        final(sa).len() == old(sa).len(),
        final(buckets).len() == old(buckets).len(),
{
    try_seed_32s_1k(t, n, sa, buckets)
        && try_final_sorting_scan_left_to_right_32s(t, sa, buckets, 0, n as FastSint)
}

} // verus!
