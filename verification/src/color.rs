//! Colours, and the colouring of one pixel from what its iteration found.

use vstd::prelude::*;

verus! {

/// An RGBA colour. Every colour that this crate makes is opaque.
#[derive(Clone, Copy, Debug, PartialEq, Eq, Structural)]
pub struct Color {
    pub r: u8,
    pub g: u8,
    pub b: u8,
    pub a: u8,
}

/// What the escape-time iteration of one pixel found, as far as the
/// colouring reads it.
///
/// `hue` and `ramp` are read only for a pixel that escaped.
#[derive(Clone, Copy, Debug, PartialEq, Eq, Structural)]
pub struct PixelSample {
    /// How many iterations ran before the point escaped or the budget ended.
    pub iterations: u32,
    /// The hue angle in degrees, rounded down to a whole number.
    pub hue: i64,
    /// The channel that rises and falls within a sextant of the hue circle,
    /// already scaled to a byte.
    pub ramp: u8,
}

/// The colour of every point that stays bounded.
pub open spec fn black() -> Color {
    Color { r: 0, g: 0, b: 0, a: 255 }
}

/// The red, green and blue of a fully saturated, fully bright colour:
/// one channel is full, one is empty, and `ramp` is the third. Which is
/// which goes by the sextant of sixty degrees that `hue` lies in. A hue
/// outside the circle gives black.
pub open spec fn spec_hsv_to_rgb(hue: int, ramp: u8) -> (u8, u8, u8) {
    if hue < 0 || hue >= 360 {
        (0u8, 0u8, 0u8)
    } else if hue / 60 == 0 {
        (255u8, ramp, 0u8)
    } else if hue / 60 == 1 {
        (ramp, 255u8, 0u8)
    } else if hue / 60 == 2 {
        (0u8, 255u8, ramp)
    } else if hue / 60 == 3 {
        (0u8, ramp, 255u8)
    } else if hue / 60 == 4 {
        (ramp, 0u8, 255u8)
    } else {
        (255u8, 0u8, ramp)
    }
}

/// The colour of a pixel: black where the iteration used up its budget,
/// else the colour of the sample's hue.
pub open spec fn spec_color_for_pixel(max_iterations: u32, sample: PixelSample) -> Color {
    if sample.iterations == max_iterations {
        black()
    } else {
        let rgb = spec_hsv_to_rgb(sample.hue as int, sample.ramp);
        Color { r: rgb.0, g: rgb.1, b: rgb.2, a: 255 }
    }
}

/// Channel `k` of a colour, in the order red, green, blue, alpha.
pub open spec fn channel(color: Color, k: int) -> u8 {
    if k == 0 {
        color.r
    } else if k == 1 {
        color.g
    } else if k == 2 {
        color.b
    } else {
        color.a
    }
}

/// Whether `color` is a colour that the pixel in column `x` of row `y` can
/// get: the colour of a sample that `sampler` can return for that pixel.
pub open spec fn evaluates_to<F: Fn(u32, u32, u32, u32, u32) -> PixelSample>(
    sampler: &F,
    x: u32,
    y: u32,
    width: u32,
    height: u32,
    max_iterations: u32,
    color: Color,
) -> bool {
    exists|sample: PixelSample|
        #[trigger] sampler.ensures((x, y, width, height, max_iterations), sample) && color
            == spec_color_for_pixel(max_iterations, sample)
}

/// Converts a hue at full saturation and value to red, green and blue.
pub fn hsv_to_rgb(hue: i64, ramp: u8) -> (rgb: (u8, u8, u8))
    ensures
        rgb == spec_hsv_to_rgb(hue as int, ramp),
        !(0 <= hue < 360) ==> rgb == (0u8, 0u8, 0u8),
{
    if hue < 0 {
        (0, 0, 0)
    } else if hue < 60 {
        (255, ramp, 0)
    } else if hue < 120 {
        (ramp, 255, 0)
    } else if hue < 180 {
        (0, 255, ramp)
    } else if hue < 240 {
        (0, ramp, 255)
    } else if hue < 300 {
        (ramp, 0, 255)
    } else if hue < 360 {
        (255, 0, ramp)
    } else {
        (0, 0, 0)
    }
}

/// Colours one pixel.
pub fn color_for_pixel(max_iterations: u32, sample: PixelSample) -> (color: Color)
    ensures
        color == spec_color_for_pixel(max_iterations, sample),
        color.a == 255,
        sample.iterations == max_iterations ==> color == black(),
{
    if sample.iterations == max_iterations {
        Color { r: 0, g: 0, b: 0, a: 255 }
    } else {
        let (r, g, b) = hsv_to_rgb(sample.hue, sample.ramp);
        Color { r, g, b, a: 255 }
    }
}

/// Evaluates the pixel in column `x` of row `y`: asks `sampler` what the
/// iteration of that pixel finds, and colours it.
pub fn evaluate<F: Fn(u32, u32, u32, u32, u32) -> PixelSample>(
    x: u32,
    y: u32,
    width: u32,
    height: u32,
    max_iterations: u32,
    sampler: &F,
) -> (color: Color)
    requires
        sampler.requires((x, y, width, height, max_iterations)),
    ensures
        evaluates_to(sampler, x, y, width, height, max_iterations, color),
        color.a == 255,
{
    let sample = sampler(x, y, width, height, max_iterations);
    color_for_pixel(max_iterations, sample)
}

} // verus!
