//! The pixel value type and the per-pixel color computations:
//! saturation and brightness rescaling.

use vstd::prelude::*;

verus! {

/// One image pixel: three 8-bit channels, red, green and blue.
#[derive(Clone, Copy, PartialEq, Eq, Structural, Debug)]
pub struct Pixel {
    pub r: u8,
    pub g: u8,
    pub b: u8,
}

/// The channel of `p` selected by index `c`: red is 0, green is 1,
/// every other index is blue (callers only use 0, 1 and 2).
pub open spec fn channel(p: Pixel, c: int) -> u8 {
    if c == 0 {
        p.r
    } else if c == 1 {
        p.g
    } else {
        p.b
    }
}

/// The largest of the three channel values.
pub open spec fn max_channel(p: Pixel) -> u8 {
    if p.r >= p.g && p.r >= p.b {
        p.r
    } else if p.g >= p.b {
        p.g
    } else {
        p.b
    }
}

/// The smallest of the three channel values.
pub open spec fn min_channel(p: Pixel) -> u8 {
    if p.r <= p.g && p.r <= p.b {
        p.r
    } else if p.g <= p.b {
        p.g
    } else {
        p.b
    }
}

/// Saturation as the extractor measures it: the channel spread scaled to
/// 0..=255, `255 * (1 - min/max)` with truncating division. An all-zero
/// pixel has no defined hue; its saturation is fixed at 0.
pub open spec fn saturation_spec(p: Pixel) -> int {
    if max_channel(p) == 0 {
        0
    } else {
        255 * (max_channel(p) - min_channel(p)) / (max_channel(p) as int)
    }
}

/// One channel rescaled by `target / m` with truncating division,
/// clamped to 255.
pub open spec fn scaled_channel(c: u8, target: u8, m: u8) -> u8
    recommends
        m > 0,
{
    let v = c * target / (m as int);
    if v > 255 {
        255
    } else {
        v as u8
    }
}

/// `p` rescaled so that its peak channel becomes `target`. A pixel whose
/// peak channel is 0 carries no color to scale; it is returned unchanged.
pub open spec fn brightness_spec(p: Pixel, target: u8) -> Pixel {
    if max_channel(p) == 0 {
        p
    } else {
        Pixel {
            r: scaled_channel(p.r, target, max_channel(p)),
            g: scaled_channel(p.g, target, max_channel(p)),
            b: scaled_channel(p.b, target, max_channel(p)),
        }
    }
}

impl Pixel {
    /// Builds a pixel from its three channel values.
    pub fn new(r: u8, g: u8, b: u8) -> (p: Pixel)
        ensures
            p == (Pixel { r, g, b }),
    {
        Pixel { r, g, b }
    }

    /// The largest of the three channel values.
    pub fn max_channel(&self) -> (m: u8)
        ensures
            m == max_channel(*self),
    {
        if self.r >= self.g && self.r >= self.b {
            self.r
        } else if self.g >= self.b {
            self.g
        } else {
            self.b
        }
    }

    /// The smallest of the three channel values.
    pub fn min_channel(&self) -> (m: u8)
        ensures
            m == min_channel(*self),
    {
        if self.r <= self.g && self.r <= self.b {
            self.r
        } else if self.g <= self.b {
            self.g
        } else {
            self.b
        }
    }
}

/// The saturation of `p`: 0 for a gray pixel, 255 for one with a zero
/// channel, in between for the rest.
pub fn calculate_saturation(pixel: Pixel) -> (s: u8)
    ensures
        s == saturation_spec(pixel),
{
    let max = pixel.max_channel();
    let min = pixel.min_channel();
    if max == 0 {
        0
    } else {
        let spread: u32 = 255 * ((max - min) as u32);
        proof {
            assert(spread / (max as u32) <= 255) by (nonlinear_arith)
                requires
                    spread == 255 * (max - min),
                    0 < max <= 255,
                    min <= max,
            ;
        }
        (spread / (max as u32)) as u8
    }
}

/// `pixel` rescaled so that its peak channel becomes `target_brightness`,
/// each channel multiplied by `target_brightness / max_channel` with
/// truncating division and clamped to 255. A pixel whose peak channel is
/// 0 is returned unchanged.
pub fn change_brightness(pixel: Pixel, target_brightness: u8) -> (p: Pixel)
    ensures
        p == brightness_spec(pixel, target_brightness),
{
    let max = pixel.max_channel();
    if max == 0 {
        pixel
    } else {
        Pixel {
            r: scale_channel(pixel.r, target_brightness, max),
            g: scale_channel(pixel.g, target_brightness, max),
            b: scale_channel(pixel.b, target_brightness, max),
        }
    }
}

/// Law: rescaling a pixel whose peak channel is nonzero makes that peak
/// exactly the target brightness. The truncating division is exact on the
/// peak channel, and every other channel lands at or below the target.
pub proof fn lemma_rescale_peak(p: Pixel, target: u8)
    requires
        max_channel(p) > 0,
    ensures
        max_channel(brightness_spec(p, target)) == target,
{
    let m = max_channel(p);
    assert(scaled_channel(m, target, m) == target) by {
        lemma_scaled_channel(m, target, m);
        assert(m * target / (m as int) == target) by (nonlinear_arith)
            requires
                m > 0,
        ;
    }
    lemma_scaled_channel(p.r, target, m);
    lemma_scaled_channel(p.g, target, m);
    lemma_scaled_channel(p.b, target, m);
}

/// A channel at or below the peak rescales to at or below the target.
proof fn lemma_scaled_channel(c: u8, target: u8, m: u8)
    requires
        0 < m,
        c <= m,
    ensures
        scaled_channel(c, target, m) <= target,
        c == m ==> scaled_channel(c, target, m) == target,
{
    assert(c * target / (m as int) <= target) by (nonlinear_arith)
        requires
            0 < m,
            c <= m,
            target >= 0,
    ;
    if c == m {
        assert(m * target / (m as int) == target) by (nonlinear_arith)
            requires
                m > 0,
        ;
    }
}

/// One channel rescaled by `target / m`, truncating and clamping to 255.
fn scale_channel(c: u8, target: u8, m: u8) -> (v: u8)
    requires
        m > 0,
    ensures
        v == scaled_channel(c, target, m),
{
    proof {
        assert(c * target <= 255 * 255) by (nonlinear_arith)
            requires
                c <= 255,
                target <= 255,
        ;
    }
    let scaled: u32 = (c as u32) * (target as u32) / (m as u32);
    if scaled > 255 {
        255
    } else {
        scaled as u8
    }
}

} // verus!
