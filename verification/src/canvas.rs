//! The canvas: one finished frame as a row-major RGBA pixel buffer.

use vstd::prelude::*;
use crate::color::Color;

verus! {

/// One frame: its size and its pixels, row after row from the top, four
/// bytes for each pixel in the order red, green, blue, alpha.
#[derive(Clone, Debug, PartialEq, Eq)]
pub struct Canvas {
    pub width: u32,
    pub height: u32,
    pub pixels: Vec<u8>,
}

/// What a canvas stands for.
pub struct Picture {
    pub width: nat,
    pub height: nat,
    pub pixels: Seq<u8>,
}

impl Picture {
    /// Whether the buffer has exactly four bytes for each pixel.
    pub open spec fn well_formed(self) -> bool {
        self.pixels.len() == self.width * self.height * 4
    }

    /// The colour of the pixel in column `x` of row `y`.
    pub open spec fn pixel(self, x: int, y: int) -> Color {
        pixel_at(self.pixels, self.width as int, x, y)
    }
}

impl View for Canvas {
    type V = Picture;

    open spec fn view(&self) -> Picture {
        Picture {
            width: self.width as nat,
            height: self.height as nat,
            pixels: self.pixels@,
        }
    }
}

/// The colour that the four bytes at offset `(y * width + x) * 4` of a
/// pixel buffer spell.
pub open spec fn pixel_at(pixels: Seq<u8>, width: int, x: int, y: int) -> Color {
    let offset = (y * width + x) * 4;
    Color {
        r: pixels[offset],
        g: pixels[offset + 1],
        b: pixels[offset + 2],
        a: pixels[offset + 3],
    }
}

} // verus!
