//! The two marker bits that the sorting passes keep in suffix array entries:
//! the sign bit and the group bit just below it.

use vstd::prelude::*;
use crate::types::{SaSint, SAINT_MAX, SAINT_MIN, SUFFIX_GROUP_MARKER};

verus! {

/// The entry without its sign mark.
pub open spec fn unmarked(p: i32) -> i32 {
    if p < 0 {
        (p + 0x8000_0000) as i32
    } else {
        p
    }
}

/// The entry with its sign mark set where `b` holds.
pub open spec fn marked(p: i32, b: bool) -> i32 {
    if b && p >= 0 {
        (p - 0x8000_0000) as i32
    } else {
        p
    }
}

/// The entry with its sign mark inverted.
pub open spec fn flipped(p: i32) -> i32 {
    if p < 0 {
        (p + 0x8000_0000) as i32
    } else {
        (p - 0x8000_0000) as i32
    }
}

/// Whether the group bit is set.
pub open spec fn grouped(p: i32) -> bool {
    p >= 0x4000_0000 || -0x4000_0000 <= p < 0
}

/// The entry without its group bit.
pub open spec fn ungrouped(p: i32) -> i32 {
    if grouped(p) {
        (p - 0x4000_0000) as i32
    } else {
        p
    }
}

/// The entry with its group bit set where `b` holds.
pub open spec fn with_group(p: i32, b: bool) -> i32 {
    if b && !grouped(p) {
        (p + 0x4000_0000) as i32
    } else {
        p
    }
}

/// One where `b` holds, zero elsewhere.
pub open spec fn bit(b: bool) -> int {
    if b {
        1
    } else {
        0
    }
}

/// Whether `x` fits a signed index.
pub open spec fn fits(x: int) -> bool {
    i32::MIN <= x <= i32::MAX
}

/// The sum where it fits a signed index.
#[inline]
pub fn fits_sum(x: SaSint, y: SaSint) -> (r: Option<SaSint>)
    ensures
        r is Some == fits(x + y),
        r is Some ==> r->0 == x + y,
{
    x.checked_add(y)
}

/// The difference where it fits a signed index.
#[inline]
pub fn fits_difference(x: SaSint, y: SaSint) -> (r: Option<SaSint>)
    ensures
        r is Some == fits(x - y),
        r is Some ==> r->0 == x - y,
{
    x.checked_sub(y)
}

/// Clears the sign mark.
#[inline]
pub fn clear_mark(p: SaSint) -> (r: SaSint)
    ensures
        r == unmarked(p),
{
    assert((p & 0x7fff_ffffi32) == (if p < 0 { p + 0x8000_0000 } else { p as int })) by (bit_vector);
    p & SAINT_MAX
}

/// Sets the sign mark where `b` holds.
#[inline]
pub fn set_mark(p: SaSint, b: bool) -> (r: SaSint)
    ensures
        r == marked(p, b),
{
    if b {
        assert((p | (-0x8000_0000i32)) == (if p >= 0 { p - 0x8000_0000 } else { p as int })) by (bit_vector);
        p | SAINT_MIN
    } else {
        p
    }
}

/// Inverts the sign mark.
#[inline]
pub fn flip_mark(p: SaSint) -> (r: SaSint)
    ensures
        r == flipped(p),
{
    assert((p ^ (-0x8000_0000i32)) == (if p < 0 { p + 0x8000_0000 } else { p - 0x8000_0000 })) by (bit_vector);
    p ^ SAINT_MIN
}

/// Tests the group bit.
#[inline]
pub fn has_group(p: SaSint) -> (r: bool)
    ensures
        r == grouped(p),
{
    assert(((p & 0x4000_0000i32) != 0) == (p >= 0x4000_0000 || (-0x4000_0000 <= p && p < 0))) by (bit_vector);
    (p & SUFFIX_GROUP_MARKER) != 0
}

/// Clears the group bit.
#[inline]
pub fn clear_group(p: SaSint) -> (r: SaSint)
    ensures
        r == ungrouped(p),
{
    assert((p & !0x4000_0000i32) == (if p >= 0x4000_0000 || (-0x4000_0000 <= p && p < 0) {
        p - 0x4000_0000
    } else {
        p as int
    })) by (bit_vector);
    p & !SUFFIX_GROUP_MARKER
}

/// Sets the group bit where `b` holds.
#[inline]
pub fn set_group(p: SaSint, b: bool) -> (r: SaSint)
    ensures
        r == with_group(p, b),
{
    if b {
        assert((p | 0x4000_0000i32) == (if p >= 0x4000_0000 || (-0x4000_0000 <= p && p < 0) {
            p as int
        } else {
            p + 0x4000_0000
        })) by (bit_vector);
        p | SUFFIX_GROUP_MARKER
    } else {
        p
    }
}

/// Whether `i` is a position of a sequence of length `len`.
#[inline]
pub fn within(i: SaSint, len: usize) -> (r: bool)
    ensures
        r == (0 <= i < len),
{
    i >= 0 && (i as u64) < len as u64
}

/// Whether the machine word `i` is a position of a sequence of length `len`.
#[inline]
pub fn word_within(i: isize, len: usize) -> (r: bool)
    ensures
        r == (0 <= i < len),
{
    i >= 0 && (i as usize) < len
}

} // verus!
