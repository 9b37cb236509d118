//! The boundary to the `image` crate: a canvas becomes an RGBA image that
//! the crate can encode and write.

use vstd::prelude::*;
use crate::canvas::Canvas;

verus! {

/// An RGBA image of the `image` crate. Verus does not look inside, so the
/// library speaks of it through `frame_bytes` and `frame_size`.
#[verifier::external_body]
pub struct RgbaFrame {
    pub image: image::RgbaImage,
}

/// The bytes that a frame holds, row after row, four for each pixel.
pub uninterp spec fn frame_bytes(frame: RgbaFrame) -> Seq<u8>;

/// The width and the height of a frame, in pixels.
pub uninterp spec fn frame_size(frame: RgbaFrame) -> (u32, u32);

/// Why a canvas cannot become an image.
#[derive(Clone, Copy, Debug, PartialEq, Eq, Structural)]
pub enum EncodeError {
    /// The buffer is not big enough: it has fewer than four bytes for each
    /// pixel, or one row alone has more bytes than the machine can count.
    BufferTooSmall,
    /// The buffer has more than four bytes for each pixel.
    BufferTooLarge,
}

/// Calls `image::RgbaImage::from_vec`, which makes an image of the given
/// size that owns `pixels` as its buffer. It multiplies four by the width
/// and then by the height, and makes the image exactly when neither
/// product overflows `usize` and the buffer holds at least that many
/// bytes. It neither copies nor changes the buffer.
#[verifier::external_body]
fn frame_from_vec(width: u32, height: u32, pixels: Vec<u8>) -> (frame: Option<RgbaFrame>)
    ensures
        frame is Some <==> (4 * width <= usize::MAX && width * height * 4 <= pixels@.len()),
        frame matches Some(made) ==> frame_bytes(made) == pixels@ && frame_size(made) == (
            width,
            height,
        ),
{
    match image::RgbaImage::from_vec(width, height, pixels) {
        Some(image) => Some(RgbaFrame { image }),
        None => None,
    }
}

impl Canvas {
    /// Makes an image of the canvas, with a copy of its pixels. A buffer
    /// that does not have exactly four bytes for each pixel is refused.
    ///
    /// On a machine whose `usize` has 64 bits every other canvas becomes an
    /// image. Where four times the width does not fit in `usize`, none
    /// does.
    pub fn to_image(&self) -> (result: Result<RgbaFrame, EncodeError>)
        ensures
            result is Ok <==> self@.well_formed() && 4 * self.width <= usize::MAX,
            result matches Ok(frame) ==> frame_bytes(frame) == self@.pixels && frame_size(frame)
                == (self.width, self.height),
            result matches Err(error) ==> error == if self@.pixels.len() > self@.width
                * self@.height * 4 {
                EncodeError::BufferTooLarge
            } else {
                EncodeError::BufferTooSmall
            },
    {
        assert(self.width * self.height * 4 <= u128::MAX) by (nonlinear_arith)
            requires
                self.width <= u32::MAX,
                self.height <= u32::MAX,
        ;
        let expected: u128 = self.width as u128 * self.height as u128 * 4;
        if self.pixels.len() as u128 > expected {
            return Err(EncodeError::BufferTooLarge);
        }
        let pixels = self.pixels.clone();
        assert(pixels@ =~= self.pixels@);
        match frame_from_vec(self.width, self.height, pixels) {
            Some(frame) => Ok(frame),
            None => Err(EncodeError::BufferTooSmall),
        }
    }
}

} // verus!
