//! Conversion between 8-bit-per-channel RGB and the packed 16-bit
//! 5/6/5 color format used by the display and the image codec.
//!
//! A packed color is held as a plain `u16`: the red channel in the top
//! 5 bits, green in the middle 6, blue in the low 5. Packing is done
//! with multiplications by 2048 and 32, which is equivalent to the
//! usual shifts and keeps the arithmetic linear.
//!
//! Each channel is rescaled to the nearest value of the narrower
//! range: `round(v * 31 / 255)` down, `round(v * 255 / 31)` back up
//! (and the same with 63 for green). The divisors are odd, so no
//! half-way tie can occur, and rounding in both directions makes the
//! expand-then-pack detour the identity on packed colors.

use vstd::prelude::*;

verus! {

/// 8-bit channel scaled to the nearest 5-bit value (0..=31).
pub open spec fn spec_chan8_to_5(v: u8) -> int {
    (v * 31 + 127) / 255
}

/// 8-bit channel scaled to the nearest 6-bit value (0..=63).
pub open spec fn spec_chan8_to_6(v: u8) -> int {
    (v * 63 + 127) / 255
}

/// 5-bit channel scaled to the nearest 8-bit value (0..=255).
pub open spec fn spec_chan5_to_8(v: int) -> int {
    (v * 255 + 15) / 31
}

/// 6-bit channel scaled to the nearest 8-bit value (0..=255).
pub open spec fn spec_chan6_to_8(v: int) -> int {
    (v * 255 + 31) / 63
}

/// The packed 5/6/5 layout: red in the top 5 bits, green in the middle
/// 6, blue in the low 5.
pub open spec fn spec_pack565(r5: int, g6: int, b5: int) -> int {
    r5 * 2048 + g6 * 32 + b5
}

pub open spec fn spec_red5(c: u16) -> int {
    c as int / 2048
}

pub open spec fn spec_green6(c: u16) -> int {
    (c as int / 32) % 64
}

pub open spec fn spec_blue5(c: u16) -> int {
    c as int % 32
}

/// Packed color of an 8-bit RGB triple.
pub open spec fn spec_rgb888_to_rgb565(r: u8, g: u8, b: u8) -> u16 {
    spec_pack565(spec_chan8_to_5(r), spec_chan8_to_6(g), spec_chan8_to_5(b)) as u16
}

/// Convert an 8-bit RGB triple to a packed 16-bit 5/6/5 color.
pub fn rgb888_to_rgb565(r: u8, g: u8, b: u8) -> (c: u16)
    ensures
        c == spec_rgb888_to_rgb565(r, g, b),
{
    let r5 = (r as u16 * 31 + 127) / 255;
    let g6 = (g as u16 * 63 + 127) / 255;
    let b5 = (b as u16 * 31 + 127) / 255;
    r5 * 2048 + g6 * 32 + b5
}

/// Convert a packed 16-bit 5/6/5 color back to an 8-bit RGB triple.
pub fn rgb565_to_rgb888(c: u16) -> (rgb: (u8, u8, u8))
    ensures
        rgb.0 == spec_chan5_to_8(spec_red5(c)),
        rgb.1 == spec_chan6_to_8(spec_green6(c)),
        rgb.2 == spec_chan5_to_8(spec_blue5(c)),
{
    let r5 = c / 2048;
    let g6 = (c / 32) % 64;
    let b5 = c % 32;
    let r8 = (r5 * 255 + 15) / 31;
    let g8 = (g6 * 255 + 31) / 63;
    let b8 = (b5 * 255 + 15) / 31;
    (r8 as u8, g8 as u8, b8 as u8)
}

/// Packing is monotonic: raising any 8-bit channel never lowers the
/// packed value. With determinism (packing is a pure function), this
/// is the round-trip invariant of the color model.
pub proof fn lemma_pack_monotonic(r1: u8, g1: u8, b1: u8, r2: u8, g2: u8, b2: u8)
    requires
        r1 <= r2,
        g1 <= g2,
        b1 <= b2,
    ensures
        spec_rgb888_to_rgb565(r1, g1, b1) <= spec_rgb888_to_rgb565(r2, g2, b2),
{
    vstd::arithmetic::div_mod::lemma_div_is_ordered(r1 * 31 + 127, r2 * 31 + 127, 255);
    vstd::arithmetic::div_mod::lemma_div_is_ordered(g1 * 63 + 127, g2 * 63 + 127, 255);
    vstd::arithmetic::div_mod::lemma_div_is_ordered(b1 * 31 + 127, b2 * 31 + 127, 255);
    vstd::arithmetic::div_mod::lemma_div_is_ordered(r2 * 31 + 127, 255int * 31 + 127, 255);
    vstd::arithmetic::div_mod::lemma_div_is_ordered(g2 * 63 + 127, 255int * 63 + 127, 255);
    vstd::arithmetic::div_mod::lemma_div_is_ordered(b2 * 31 + 127, 255int * 31 + 127, 255);
}

} // verus!
