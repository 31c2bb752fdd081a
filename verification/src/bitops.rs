//! Expansion of 6-bit and 4-bit samples to full 8-bit values.

use vstd::prelude::*;

verus! {

/// Mathematical form of the 6-to-8-bit expansion: only the low 6 bits of
/// the input matter; the 6-bit value is stretched so that 0 maps to 0 and
/// 63 maps to 255.
pub open spec fn expand6(v: int) -> int {
    let w = v % 64;
    4 * w + w / 16
}

/// Mathematical form of the 4-to-8-bit expansion: only the low 4 bits of
/// the input matter; the 4-bit value is repeated in both nibbles.
pub open spec fn expand4(v: int) -> int {
    let w = v % 16;
    17 * w
}

/// Expand a 6-bit value (stored in the low bits) to 8 bits.
pub fn u6_to_u8(val: u8) -> (r: u8)
    ensures
        r == expand6(val as int),
{
    let w = val % 64;
    w * 4 + w / 16
}

/// Expand a 4-bit value (stored in the low bits) to 8 bits.
pub fn u4_to_u8(val: u8) -> (r: u8)
    ensures
        r == expand4(val as int),
{
    let w = val % 16;
    w * 17
}

/// The 6-to-8-bit expansion is strictly monotonic on 6-bit values, and it
/// preserves the endpoints: 0 maps to 0 and 63 maps to 255.
pub proof fn lemma_expand6_monotonic(a: int, b: int)
    requires
        0 <= a < b <= 63,
    ensures
        expand6(a) < expand6(b),
        expand6(0) == 0,
        expand6(63) == 255,
{
}

} // verus!
