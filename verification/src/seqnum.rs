//! Sequence-number arithmetic in Z/2^32.
//!
//! TCP sequence numbers are points on a circle of size 2^32. A value `a` is
//! "before" `b` when the wrapping distance from `b` back to `a` is more than
//! half the circle (RFC 1323): that way fresh data is never mistaken for old
//! as long as windows stay under 2^31 bytes.

use vstd::prelude::*;

verus! {

/// Wrapping addition of sequence numbers, as a spec-level shorthand.
pub open spec fn wadd(a: u32, b: u32) -> u32 {
    vstd::wrapping::u32_specs::wrapping_add(a, b)
}

/// Wrapping subtraction of sequence numbers, as a spec-level shorthand.
pub open spec fn wsub(a: u32, b: u32) -> u32 {
    vstd::wrapping::u32_specs::wrapping_sub(a, b)
}

/// The wrapping distance from `b` forward to `a`: how many sequence numbers
/// lie in the half-open interval `[b, a)` on the circle.
pub open spec fn wdist(a: u32, b: u32) -> int {
    wsub(a, b) as int
}

/// `a` is strictly before `b` on the sequence circle: the backward distance
/// `a - b (mod 2^32)` exceeds half the circle.
pub open spec fn spec_wrapping_lt(a: u32, b: u32) -> bool {
    wsub(a, b) > 0x8000_0000u32
}

/// `x` lies strictly inside the open wrapping interval `(s, e)`.
pub open spec fn spec_is_between_wrapping(s: u32, x: u32, e: u32) -> bool {
    spec_wrapping_lt(s, x) && spec_wrapping_lt(x, e)
}

/// `x` lies in the half-open window `[base, base + span)` of the circle,
/// where `span` is measured as a wrapping distance from `base`.
pub open spec fn in_window(base: u32, x: u32, span: int) -> bool {
    wdist(x, base) < span
}

/// Wrapping comparison of sequence numbers (RFC 1323 half-space test).
pub fn wrapping_lt(lhs: u32, rhs: u32) -> (r: bool)
    ensures
        r == spec_wrapping_lt(lhs, rhs),
{
    lhs.wrapping_sub(rhs) > 0x8000_0000u32
}

/// Strict open-interval membership on the sequence circle.
pub fn is_between_wrapping(start: u32, x: u32, end: u32) -> (r: bool)
    ensures
        r == spec_is_between_wrapping(start, x, end),
{
    wrapping_lt(start, x) && wrapping_lt(x, end)
}

/// On the circle, `x` sits strictly between `s` and `e` exactly when the
/// distance from `s` to `x` is positive and less than the distance from
/// `s` to `e`, provided that distance keeps to the lower half-circle.
pub proof fn lemma_between_is_distance(s: u32, x: u32, e: u32)
    requires
        0 < wsub(e, s) <= 0x8000_0000u32,
    ensures
        spec_is_between_wrapping(s, x, e) <==> 0 < wsub(x, s) < wsub(e, s),
{
    assert(spec_is_between_wrapping(s, x, e) <==> 0 < wsub(x, s) < wsub(e, s)) by (bit_vector)
        requires
            0 < wsub(e, s) <= 0x8000_0000u32,
    ;
}

} // verus!
