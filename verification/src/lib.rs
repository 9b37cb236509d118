//! Rendering of the Mandelbrot set into a row-major RGBA pixel buffer.
//!
//! A frame is split into a fixed number of horizontal chunks. Each chunk is
//! sampled and coloured on its own, and the finished chunks are put together
//! by chunk index, so that the order in which they were finished does not
//! show in the picture.
//!
//! The escape-time iteration itself runs in floating point and is no part
//! of this crate. A caller hands in a sampler, which the crate calls once
//! for each pixel, and the crate decides the colour from what the sampler
//! found. `Mandelbrot::generate` draws the chunks one after the other; a
//! caller that has workers gives each a call of `draw_chunk` and hands what
//! they report to `Mandelbrot::collect`.

pub mod aggregate;
pub mod canvas;
pub mod chunk;
pub mod color;
pub mod encode;
pub mod mandelbrot;
pub mod partition;
pub mod rendering;
