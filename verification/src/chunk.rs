//! One chunk of a frame: the work of one worker.

use vstd::prelude::*;
use vstd::arithmetic::div_mod::lemma_fundamental_div_mod_converse;
use crate::color::{channel, evaluate, spec_color_for_pixel, PixelSample};
use crate::partition::{chunk_end, chunk_rows, chunk_start, lemma_chunks_tile};

verus! {

/// The finished pixels of one chunk of rows.
#[derive(Clone, Debug, PartialEq, Eq)]
pub struct Chunk {
    /// Which chunk of the frame this is, counted from 0.
    pub index: usize,
    /// The first row of the chunk.
    pub start_row: usize,
    /// The row after the last row of the chunk.
    pub end_row: usize,
    /// The chunk's pixels, row after row, four bytes for each.
    pub buffer: Vec<u8>,
}

/// The bytes of the pixels that `samples` colour: four for each sample, in
/// the order red, green, blue, alpha.
pub open spec fn pixel_bytes(max_iterations: u32, samples: Seq<PixelSample>) -> Seq<u8> {
    Seq::new(
        4 * samples.len(),
        |i: int| channel(spec_color_for_pixel(max_iterations, samples[i / 4]), i % 4),
    )
}

/// Whether `samples` are what `sampler` returned for the pixels of some
/// rows of a frame, row after row from `first_row` on, each row from the
/// left to the right.
pub open spec fn sampled_by<F: Fn(u32, u32, u32, u32, u32) -> PixelSample>(
    sampler: &F,
    first_row: int,
    width: u32,
    height: u32,
    max_iterations: u32,
    samples: Seq<PixelSample>,
) -> bool {
    forall|i: int|
        0 <= i < samples.len() ==> sampler.ensures(
            (
                (i % (width as int)) as u32,
                (first_row + i / (width as int)) as u32,
                width,
                height,
                max_iterations,
            ),
            #[trigger] samples[i],
        )
}

/// Whether `chunk` is chunk `index` of a frame with the pixels that
/// `samples` colour, and `samples` are what `sampler` returned for the
/// pixels of that chunk.
pub open spec fn drawn_from<F: Fn(u32, u32, u32, u32, u32) -> PixelSample>(
    sampler: &F,
    chunk: Chunk,
    samples: Seq<PixelSample>,
    index: nat,
    width: u32,
    height: u32,
    max_iterations: u32,
) -> bool {
    &&& samples.len() == (chunk_end(index, height as nat) - chunk_start(index, height as nat))
        * width
    &&& sampled_by(
        sampler,
        chunk_start(index, height as nat) as int,
        width,
        height,
        max_iterations,
        samples,
    )
    &&& chunk.index == index
    &&& chunk.start_row == chunk_start(index, height as nat)
    &&& chunk.end_row == chunk_end(index, height as nat)
    &&& chunk.buffer@ == pixel_bytes(max_iterations, samples)
}

/// Whether `chunk` is chunk `index` of a frame as `sampler` gives it.
pub open spec fn drawn_by<F: Fn(u32, u32, u32, u32, u32) -> PixelSample>(
    sampler: &F,
    chunk: Chunk,
    index: nat,
    width: u32,
    height: u32,
    max_iterations: u32,
) -> bool {
    exists|samples: Seq<PixelSample>|
        drawn_from(sampler, chunk, samples, index, width, height, max_iterations)
}

/// Colouring is done sample by sample: the bytes of two runs of samples,
/// one behind the other, are the bytes of the first and then those of the
/// second.
pub proof fn lemma_pixel_bytes_concat(
    max_iterations: u32,
    first: Seq<PixelSample>,
    second: Seq<PixelSample>,
)
    ensures
        pixel_bytes(max_iterations, first + second) == pixel_bytes(max_iterations, first)
            + pixel_bytes(max_iterations, second),
{
    let whole = pixel_bytes(max_iterations, first + second);
    let parts = pixel_bytes(max_iterations, first) + pixel_bytes(max_iterations, second);
    assert(whole.len() == parts.len());
    assert forall|i: int| 0 <= i < whole.len() implies whole[i] == parts[i] by {
        if i >= 4 * first.len() {
            assert((i - 4 * first.len()) / 4 == i / 4 - first.len());
            assert((i - 4 * first.len()) % 4 == i % 4);
        }
    }
    assert(whole =~= parts);
}

/// Draws chunk `index` of a frame: evaluates each pixel of its rows, row
/// after row and each row from the left to the right, and puts the four
/// bytes of its colour behind those of the pixel before. A chunk without
/// rows gives nothing.
pub fn draw_chunk<F: Fn(u32, u32, u32, u32, u32) -> PixelSample>(
    index: usize,
    width: u32,
    height: u32,
    max_iterations: u32,
    sampler: &F,
) -> (chunk: Option<Chunk>)
    requires
        forall|x: u32, y: u32|
            x < width && y < height ==> sampler.requires((x, y, width, height, max_iterations)),
    ensures
        chunk is Some <==> chunk_start(index as nat, height as nat) < chunk_end(
            index as nat,
            height as nat,
        ),
        chunk matches Some(c) ==> drawn_by(
            sampler,
            c,
            index as nat,
            width,
            height,
            max_iterations,
        ),
{
    let (start_row, end_row) = chunk_rows(index, height);
    proof {
        lemma_chunks_tile(height as nat);
    }
    if end_row <= start_row {
        return None;
    }
    let mut buffer: Vec<u8> = Vec::new();
    let ghost mut samples: Seq<PixelSample> = Seq::empty();
    let mut y: usize = start_row;
    while y < end_row
        invariant
            start_row <= y <= end_row <= height,
            samples.len() == (y - start_row) * width,
            sampled_by(sampler, start_row as int, width, height, max_iterations, samples),
            buffer@ == pixel_bytes(max_iterations, samples),
            forall|x: u32, y: u32|
                x < width && y < height ==> sampler.requires(
                    (x, y, width, height, max_iterations),
                ),
        decreases end_row - y,
    {
        let mut x: u32 = 0;
        while x < width
            invariant
                start_row <= y < end_row <= height,
                x <= width,
                samples.len() == (y - start_row) * width + x,
                sampled_by(sampler, start_row as int, width, height, max_iterations, samples),
                buffer@ == pixel_bytes(max_iterations, samples),
                forall|x: u32, y: u32|
                    x < width && y < height ==> sampler.requires(
                        (x, y, width, height, max_iterations),
                    ),
            decreases width - x,
        {
            let color = evaluate(x, y as u32, width, height, max_iterations, sampler);
            let ghost before = buffer@;
            buffer.push(color.r);
            buffer.push(color.g);
            buffer.push(color.b);
            buffer.push(color.a);
            proof {
                let sample = choose|sample: PixelSample|
                    #[trigger] sampler.ensures(
                        (x, y as u32, width, height, max_iterations),
                        sample,
                    ) && color == spec_color_for_pixel(max_iterations, sample);
                lemma_fundamental_div_mod_converse(
                    samples.len() as int,
                    width as int,
                    y - start_row,
                    x as int,
                );
                lemma_pixel_bytes_concat(max_iterations, samples, seq![sample]);
                assert(pixel_bytes(max_iterations, seq![sample]) =~= seq![
                    color.r,
                    color.g,
                    color.b,
                    color.a,
                ]);
                assert(buffer@ =~= before + seq![color.r, color.g, color.b, color.a]);
                samples = samples + seq![sample];
            }
            x += 1;
        }
        assert((y - start_row) * width + width == (y + 1 - start_row) * width)
            by (nonlinear_arith);
        y += 1;
    }
    let chunk = Chunk { index, start_row, end_row, buffer };
    assert(drawn_from(sampler, chunk, samples, index as nat, width, height, max_iterations));
    Some(chunk)
}

} // verus!
