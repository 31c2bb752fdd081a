//! Color transforms between 24-bit RGB and the 6-bits-per-channel YUV
//! representation used by the file format.
//!
//! The forward transform uses BT.601-style integer coefficients followed by
//! a shift down to 6 bits per channel; the inverse expands each channel back
//! to 8 bits, applies the inverse coefficients, and clamps to the 6-bit
//! range.  Both directions are exact integer arithmetic.

use vstd::prelude::*;
use crate::bitops::{expand6, u6_to_u8};

verus! {

/// A 24-bit RGB pixel, 8 bits per channel.
#[derive(Debug, Copy, Clone, PartialEq, Eq, Structural)]
pub struct MpicRgb888 {
    pub r: u8,
    pub g: u8,
    pub b: u8,
}

/// An RGB pixel with 6 significant bits per channel, stored in the low bits.
#[derive(Debug, Copy, Clone, PartialEq, Eq, Structural)]
pub struct MpicRgb666 {
    pub r: u8,
    pub g: u8,
    pub b: u8,
}

/// A YUV pixel with 6 significant bits per channel, stored in the low bits.
#[derive(Debug, Copy, Clone, PartialEq, Eq, Structural)]
pub struct MpicYuv666 {
    pub y: u8,
    pub u: u8,
    pub v: u8,
}

/// 6-bit luma of an RGB pixel: ((66 R + 129 G + 25 B + 128) >> 8 + 16) >> 2,
/// written as a single floor division.
pub open spec fn yuv_y6(r: int, g: int, b: int) -> int {
    (66 * r + 129 * g + 25 * b + 4224) / 1024
}

/// 6-bit U chroma of an RGB pixel: ((-38 R - 74 G + 112 B + 128) >> 8 + 128) >> 2,
/// written as a single floor division with the bias folded in.
pub open spec fn yuv_u6(r: int, g: int, b: int) -> int {
    (112 * b + 32896 - 38 * r - 74 * g) / 1024
}

/// 6-bit V chroma of an RGB pixel: ((112 R - 94 G - 18 B + 128) >> 8 + 128) >> 2,
/// written as a single floor division with the bias folded in.
pub open spec fn yuv_v6(r: int, g: int, b: int) -> int {
    (112 * r + 32896 - 94 * g - 18 * b) / 1024
}

/// Scale an inverse-transform term down by 1024 and clamp it to the 6-bit
/// range.  The term may be negative; anything below zero clamps to zero.
pub open spec fn clamp6(t: int) -> int {
    if t < 0 {
        0
    } else if t / 1024 > 63 {
        63
    } else {
        t / 1024
    }
}

/// Signed luma term recovered from a stored 6-bit Y sample.
pub open spec fn luma_of(y: int) -> int {
    expand6(y) - 16
}

/// Signed chroma term recovered from a stored 6-bit U or V sample.
pub open spec fn chroma_of(c: int) -> int {
    expand6(c) - 128
}

/// 6-bit red channel reconstructed from YUV.
pub open spec fn inv_r6(y: int, u: int, v: int) -> int {
    clamp6(298 * luma_of(y) + 409 * chroma_of(v) + 128)
}

/// 6-bit green channel reconstructed from YUV.
pub open spec fn inv_g6(y: int, u: int, v: int) -> int {
    clamp6(298 * luma_of(y) - 100 * chroma_of(u) - 208 * chroma_of(v) + 128)
}

/// 6-bit blue channel reconstructed from YUV.
pub open spec fn inv_b6(y: int, u: int, v: int) -> int {
    clamp6(298 * luma_of(y) + 516 * chroma_of(u) + 128)
}

impl MpicRgb888 {
    pub fn new(r: u8, g: u8, b: u8) -> (p: Self)
        ensures
            p == (MpicRgb888 { r, g, b }),
    {
        Self { r, g, b }
    }

    /// Reconstruct an 8-bit RGB pixel from a YUV pixel.
    pub fn from_yuv(yuv: MpicYuv666) -> (p: Self)
        ensures
            p.r == expand6(inv_r6(yuv.y as int, yuv.u as int, yuv.v as int)),
            p.g == expand6(inv_g6(yuv.y as int, yuv.u as int, yuv.v as int)),
            p.b == expand6(inv_b6(yuv.y as int, yuv.u as int, yuv.v as int)),
    {
        MpicRgb666::from_yuv(yuv).into_rgb888()
    }
}

impl MpicRgb666 {
    pub fn new(r: u8, g: u8, b: u8) -> (p: Self)
        ensures
            p == (MpicRgb666 { r, g, b }),
    {
        Self { r, g, b }
    }

    /// Reconstruct a 6-bit RGB pixel from a YUV pixel.
    pub fn from_yuv(yuv: MpicYuv666) -> (p: Self)
        ensures
            p.r == inv_r6(yuv.y as int, yuv.u as int, yuv.v as int),
            p.g == inv_g6(yuv.y as int, yuv.u as int, yuv.v as int),
            p.b == inv_b6(yuv.y as int, yuv.u as int, yuv.v as int),
            p.r <= 63 && p.g <= 63 && p.b <= 63,
    {
        let y: i32 = u6_to_u8(yuv.y) as i32 - 16;
        let u: i32 = u6_to_u8(yuv.u) as i32 - 128;
        let v: i32 = u6_to_u8(yuv.v) as i32 - 128;

        let r = clamp_term(298 * y + 409 * v + 128);
        let g = clamp_term(298 * y - 100 * u - 208 * v + 128);
        let b = clamp_term(298 * y + 516 * u + 128);

        Self { r, g, b }
    }

    /// Expand all three channels back to 8 bits.
    pub fn into_rgb888(self) -> (p: MpicRgb888)
        ensures
            p.r == expand6(self.r as int),
            p.g == expand6(self.g as int),
            p.b == expand6(self.b as int),
    {
        MpicRgb888 { r: self.r8(), g: self.g8(), b: self.b8() }
    }

    /// 8-bit red channel.
    pub fn r8(&self) -> (r: u8)
        ensures
            r == expand6(self.r as int),
    {
        u6_to_u8(self.r)
    }

    /// 8-bit green channel.
    pub fn g8(&self) -> (r: u8)
        ensures
            r == expand6(self.g as int),
    {
        u6_to_u8(self.g)
    }

    /// 8-bit blue channel.
    pub fn b8(&self) -> (r: u8)
        ensures
            r == expand6(self.b as int),
    {
        u6_to_u8(self.b)
    }
}

/// Scale an inverse-transform term down by 1024 and clamp it to 0..=63.
fn clamp_term(t: i32) -> (r: u8)
    requires
        -16777216 <= t <= 16777216,
    ensures
        r == clamp6(t as int),
        r <= 63,
{
    if t < 0 {
        0
    } else {
        let q = t / 1024;
        if q > 63 {
            63
        } else {
            q as u8
        }
    }
}

impl MpicYuv666 {
    pub fn new(y: u8, u: u8, v: u8) -> (p: Self)
        ensures
            p == (MpicYuv666 { y, u, v }),
    {
        Self { y, u, v }
    }

    /// Convert an 8-bit RGB pixel to 6-bit YUV.  The coefficients keep every
    /// channel inside a narrow band of the 6-bit range for any RGB input.
    pub fn from_rgb(rgb: MpicRgb888) -> (p: Self)
        ensures
            p.y == yuv_y6(rgb.r as int, rgb.g as int, rgb.b as int),
            p.u == yuv_u6(rgb.r as int, rgb.g as int, rgb.b as int),
            p.v == yuv_v6(rgb.r as int, rgb.g as int, rgb.b as int),
            4 <= p.y <= 58,
            4 <= p.u <= 60,
            4 <= p.v <= 60,
    {
        let r = rgb.r as u32;
        let g = rgb.g as u32;
        let b = rgb.b as u32;

        let y = (66 * r + 129 * g + 25 * b + 4224) / 1024;
        let u = (112 * b + 32896 - 38 * r - 74 * g) / 1024;
        let v = (112 * r + 32896 - 94 * g - 18 * b) / 1024;

        Self { y: y as u8, u: u as u8, v: v as u8 }
    }
}

/// Every YUV triple produced from an RGB pixel lies in the band
/// Y in 4..=58 and U, V in 4..=60; the stored samples are always 6-bit.
pub proof fn lemma_yuv_range(r: int, g: int, b: int)
    requires
        0 <= r <= 255,
        0 <= g <= 255,
        0 <= b <= 255,
    ensures
        4 <= yuv_y6(r, g, b) <= 58,
        4 <= yuv_u6(r, g, b) <= 60,
        4 <= yuv_v6(r, g, b) <= 60,
{
}

} // verus!
