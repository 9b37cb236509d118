//! The generator: it renders a frame chunk by chunk and keeps the canvas
//! of the frame it rendered last.

use vstd::prelude::*;
use crate::aggregate::{assemble, merged};
use crate::canvas::{Canvas, Picture};
use crate::chunk::{draw_chunk, Chunk};
use crate::color::PixelSample;
use crate::partition::{chunk_end, chunk_start, lemma_chunks_tile, CHUNK_COUNT};
use crate::rendering::{depicts, is_drawing, is_drawn, lemma_drawing_depicts_frame, reported};

verus! {

/// A generator of frames. It holds one canvas, which every call of
/// `generate` replaces.
pub struct Mandelbrot {
    canvas: Canvas,
}

impl View for Mandelbrot {
    type V = Picture;

    closed spec fn view(&self) -> Picture {
        self.canvas@
    }
}

impl Default for Mandelbrot {
    /// A generator that has not rendered yet: its canvas has no pixels.
    fn default() -> (generator: Self)
        ensures
            generator@ == (Picture { width: 0, height: 0, pixels: Seq::empty() }),
    {
        Mandelbrot { canvas: Canvas { width: 0, height: 0, pixels: Vec::new() } }
    }
}

impl Mandelbrot {
    #[verifier::type_invariant]
    spec fn holds_whole_frame(&self) -> bool {
        self.canvas@.well_formed()
    }

    /// The canvas of the frame rendered last.
    pub fn canvas(&self) -> (canvas: &Canvas)
        ensures
            canvas@ == self@,
            canvas@.well_formed(),
    {
        proof {
            use_type_invariant(self);
        }
        &self.canvas
    }

    /// Puts finished chunks together by chunk index and keeps the result
    /// as the canvas of a frame of `width` by `height` pixels, in place of
    /// the one held before. Where the chunks do not hold four bytes for
    /// each pixel of such a frame, the canvas stays as it was.
    ///
    /// The chunks of a drawing (`is_drawing`) always fit, in whatever
    /// order they are handed in, and give a picture of the frame
    /// (`lemma_drawing_depicts_frame`).
    pub fn collect(&mut self, width: u32, height: u32, chunks: Vec<Chunk>) -> (kept: bool)
        ensures
            kept <==> merged(chunks@).len() == width * height * 4,
            kept ==> final(self)@ == (Picture {
                width: width as nat,
                height: height as nat,
                pixels: merged(chunks@),
            }),
            !kept ==> final(self)@ == old(self)@,
    {
        let pixels = assemble(chunks);
        assert(width * height * 4 <= u128::MAX) by (nonlinear_arith)
            requires
                width <= u32::MAX,
                height <= u32::MAX,
        ;
        let expected: u128 = width as u128 * height as u128 * 4;
        if pixels.len() as u128 == expected {
            self.canvas = Canvas { width, height, pixels };
            true
        } else {
            false
        }
    }

    /// Renders a frame of `width` by `height` pixels and keeps it as the
    /// canvas, in place of the one held before.
    ///
    /// The rows are split into chunks. Each chunk that has rows is sampled
    /// with `sampler` and coloured, one chunk after the other, and the
    /// finished chunks are put together by chunk index. Each pixel gets
    /// the colour that `color_for_pixel` gives to what `sampler` returned
    /// for it, and lies at its place in row order.
    ///
    /// The bytes of the frame must be countable in `usize`.
    pub fn generate<F: Fn(u32, u32, u32, u32, u32) -> PixelSample>(
        &mut self,
        width: u32,
        height: u32,
        max_iterations: u32,
        sampler: &F,
    )
        requires
            width * height * 4 <= usize::MAX,
            forall|x: u32, y: u32|
                x < width && y < height ==> sampler.requires(
                    (x, y, width, height, max_iterations),
                ),
        ensures
            depicts(sampler, width, height, max_iterations, final(self)@),
    {
        let mut chunks: Vec<Chunk> = Vec::with_capacity(CHUNK_COUNT);
        let mut index: usize = 0;
        while index < CHUNK_COUNT
            invariant
                index <= CHUNK_COUNT,
                forall|i: int, j: int|
                    0 <= i < j < chunks@.len() ==> (#[trigger] chunks@[i]).index
                        < (#[trigger] chunks@[j]).index,
                forall|i: int|
                    0 <= i < chunks@.len() ==> (#[trigger] chunks@[i]).index < index && is_drawn(
                        sampler,
                        chunks@[i],
                        width,
                        height,
                        max_iterations,
                    ),
                forall|k: nat|
                    k < index && chunk_start(k, height as nat) < #[trigger] chunk_end(
                        k,
                        height as nat,
                    ) ==> reported(chunks@, k),
                forall|x: u32, y: u32|
                    x < width && y < height ==> sampler.requires(
                        (x, y, width, height, max_iterations),
                    ),
            decreases CHUNK_COUNT - index,
        {
            let chunk = draw_chunk(index, width, height, max_iterations, sampler);
            let ghost before = chunks@;
            match chunk {
                Some(drawn) => {
                    chunks.push(drawn);
                    assert(chunks@[before.len() as int].index == index);
                    assert forall|k: nat|
                        k < index + 1 && chunk_start(k, height as nat) < #[trigger] chunk_end(
                            k,
                            height as nat,
                        ) implies reported(chunks@, k) by {
                        if k < index {
                            assert(reported(before, k));
                            let i = choose|i: int|
                                0 <= i < before.len() && (#[trigger] before[i]).index == k;
                            assert(chunks@[i].index == k);
                        }
                    }
                },
                None => {},
            }
            index += 1;
        }
        proof {
            lemma_chunks_tile(height as nat);
            assert(is_drawing(sampler, chunks@, width, height, max_iterations));
            lemma_drawing_depicts_frame(sampler, chunks@, width, height, max_iterations);
            assert(merged(chunks@).len() == width * height * 4);
        }
        self.collect(width, height, chunks);
    }
}

} // verus!
