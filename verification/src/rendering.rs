//! What it is for chunks to render a frame and for a picture to show it,
//! and why putting the chunks of a frame together gives its pixels in row
//! order, whatever the order in which the chunks came in.

use vstd::prelude::*;
use vstd::arithmetic::div_mod::{lemma_fundamental_div_mod, lemma_fundamental_div_mod_converse};
use crate::aggregate::{
    buffers_in_order, index_order, lemma_index_order_arranges, merged, precedes,
};
use crate::canvas::Picture;
use crate::chunk::{
    drawn_by, drawn_from, lemma_pixel_bytes_concat, pixel_bytes, sampled_by, Chunk,
};
use crate::color::{evaluates_to, spec_color_for_pixel, PixelSample};
use crate::partition::{
    chunk_end, chunk_start, lemma_chunks_ascend, lemma_chunks_tile, spec_chunk_size, CHUNK_COUNT,
};

verus! {

/// The samples of chunk `index` among the samples of a whole frame, which
/// hold one sample for each pixel, row after row.
pub open spec fn chunk_samples(
    samples: Seq<PixelSample>,
    index: nat,
    width: nat,
    height: nat,
) -> Seq<PixelSample> {
    samples.subrange(
        (chunk_start(index, height) * width) as int,
        (chunk_end(index, height) * width) as int,
    )
}

/// Whether `chunk` is one of the frame's chunks that have rows, with the
/// pixels that its part of `samples` colours.
pub open spec fn renders(
    chunk: Chunk,
    width: nat,
    height: nat,
    max_iterations: u32,
    samples: Seq<PixelSample>,
) -> bool {
    &&& chunk_start(chunk.index as nat, height) < chunk_end(chunk.index as nat, height)
    &&& chunk.start_row == chunk_start(chunk.index as nat, height)
    &&& chunk.end_row == chunk_end(chunk.index as nat, height)
    &&& chunk.buffer@ == pixel_bytes(
        max_iterations,
        chunk_samples(samples, chunk.index as nat, width, height),
    )
}

/// Whether some chunk of `chunks` has the index `index`.
pub open spec fn reported(chunks: Seq<Chunk>, index: nat) -> bool {
    exists|i: int| 0 <= i < chunks.len() && (#[trigger] chunks[i]).index == index
}

/// Whether `chunks` are the finished chunks of the frame that `samples`
/// colour, in any order: each chunk that has rows is there, none is there
/// twice, and nothing else is.
pub open spec fn is_rendering(
    chunks: Seq<Chunk>,
    width: nat,
    height: nat,
    max_iterations: u32,
    samples: Seq<PixelSample>,
) -> bool {
    &&& samples.len() == width * height
    &&& forall|i: int, j: int|
        0 <= i < j < chunks.len() ==> (#[trigger] chunks[i]).index != (#[trigger] chunks[j]).index
    &&& forall|i: int|
        0 <= i < chunks.len() ==> renders(
            #[trigger] chunks[i],
            width,
            height,
            max_iterations,
            samples,
        )
    &&& forall|index: nat|
        chunk_start(index, height) < #[trigger] chunk_end(index, height) ==> reported(
            chunks,
            index,
        )
}

/// Whether `chunk` is one of the frame's chunks that have rows, as
/// `sampler` gives it.
pub open spec fn is_drawn<F: Fn(u32, u32, u32, u32, u32) -> PixelSample>(
    sampler: &F,
    chunk: Chunk,
    width: u32,
    height: u32,
    max_iterations: u32,
) -> bool {
    &&& chunk_start(chunk.index as nat, height as nat) < chunk_end(
        chunk.index as nat,
        height as nat,
    )
    &&& drawn_by(sampler, chunk, chunk.index as nat, width, height, max_iterations)
}

/// Whether `chunks` are the finished chunks of one frame as `sampler`
/// gives it, in any order: each chunk that has rows is there, none is
/// there twice, and nothing else is.
pub open spec fn is_drawing<F: Fn(u32, u32, u32, u32, u32) -> PixelSample>(
    sampler: &F,
    chunks: Seq<Chunk>,
    width: u32,
    height: u32,
    max_iterations: u32,
) -> bool {
    &&& forall|i: int, j: int|
        0 <= i < j < chunks.len() ==> (#[trigger] chunks[i]).index != (#[trigger] chunks[j]).index
    &&& forall|i: int|
        0 <= i < chunks.len() ==> is_drawn(
            sampler,
            #[trigger] chunks[i],
            width,
            height,
            max_iterations,
        )
    &&& forall|index: nat|
        chunk_start(index, height as nat) < #[trigger] chunk_end(index, height as nat)
            ==> reported(chunks, index)
}

/// Whether `picture` is a frame of the given size that `sampler` gives:
/// the buffer has four bytes for each pixel, and the four bytes at offset
/// `(y * width + x) * 4` are a colour that the pixel in column `x` of row
/// `y` can get.
pub open spec fn depicts<F: Fn(u32, u32, u32, u32, u32) -> PixelSample>(
    sampler: &F,
    width: u32,
    height: u32,
    max_iterations: u32,
    picture: Picture,
) -> bool {
    &&& picture.width == width
    &&& picture.height == height
    &&& picture.well_formed()
    &&& forall|x: u32, y: u32|
        x < width && y < height ==> #[trigger] evaluates_to(
            sampler,
            x,
            y,
            width,
            height,
            max_iterations,
            picture.pixel(x as int, y as int),
        )
}

/// Whether `sampler` can return only one sample for each pixel of a frame.
pub open spec fn is_deterministic<F: Fn(u32, u32, u32, u32, u32) -> PixelSample>(
    sampler: &F,
    width: u32,
    height: u32,
    max_iterations: u32,
) -> bool {
    forall|x: u32, y: u32, one: PixelSample, other: PixelSample|
        x < width && y < height && #[trigger] sampler.ensures(
            (x, y, width, height, max_iterations),
            one,
        ) && #[trigger] sampler.ensures((x, y, width, height, max_iterations), other) ==> one
            == other
}

/// If a chunk has rows, so has every chunk before it.
proof fn lemma_earlier_chunks_have_rows(height: nat, earlier: nat, later: nat)
    requires
        earlier <= later,
        chunk_start(later, height) < chunk_end(later, height),
    ensures
        chunk_start(earlier, height) < chunk_end(earlier, height),
{
    let size = spec_chunk_size(height);
    assert(earlier * size <= later * size) by (nonlinear_arith)
        requires
            earlier <= later,
    ;
    assert((earlier + 1) * size == earlier * size + size) by (nonlinear_arith);
    assert((later + 1) * size == later * size + size) by (nonlinear_arith);
}

/// In a rendering sorted by index, the chunk in place `i` is chunk `i`.
proof fn lemma_sorted_rendering_counts_up(
    chunks: Seq<Chunk>,
    width: nat,
    height: nat,
    max_iterations: u32,
    samples: Seq<PixelSample>,
    upto: int,
)
    requires
        is_rendering(chunks, width, height, max_iterations, samples),
        0 <= upto <= chunks.len(),
    ensures
        forall|i: int| 0 <= i < upto ==> chunks[#[trigger] index_order(chunks)[i]].index == i,
    decreases upto,
{
    if upto > 0 {
        lemma_sorted_rendering_counts_up(chunks, width, height, max_iterations, samples, upto - 1);
        lemma_index_order_arranges(chunks);
        let order = index_order(chunks);
        let i = upto - 1;
        let found = chunks[order[i]].index as nat;
        assert(renders(chunks[order[i]], width, height, max_iterations, samples));
        if i > 0 {
            assert(precedes(chunks, order[i - 1], order[i]));
            assert(order[i - 1] != order[i]);
        }
        assert(found >= i);
        if found > i {
            lemma_earlier_chunks_have_rows(height, i as nat, found);
            assert(chunk_start(i as nat, height) < chunk_end(i as nat, height));
            assert(reported(chunks, i as nat));
            let p = choose|p: int| 0 <= p < chunks.len() && (#[trigger] chunks[p]).index == i;
            assert(order.contains(p));
            let t = choose|t: int| 0 <= t < order.len() && order[t] == p;
            if t > i {
                assert(precedes(chunks, order[i], order[t]));
            }
            assert(false);
        }
    }
}

/// Putting together the first chunks of a sorted rendering gives the
/// pixels of the rows that these chunks cover.
proof fn lemma_merge_covers_rows(
    chunks: Seq<Chunk>,
    width: nat,
    height: nat,
    max_iterations: u32,
    samples: Seq<PixelSample>,
    upto: int,
)
    requires
        is_rendering(chunks, width, height, max_iterations, samples),
        0 <= upto <= chunks.len(),
    ensures
        buffers_in_order(chunks, index_order(chunks).take(upto)) == pixel_bytes(
            max_iterations,
            samples.take((chunk_start(upto as nat, height) * width) as int),
        ),
    decreases upto,
{
    lemma_chunks_tile(height);
    let order = index_order(chunks);
    lemma_index_order_arranges(chunks);
    if upto == 0 {
        assert(samples.take(0) =~= Seq::<PixelSample>::empty());
        assert(pixel_bytes(max_iterations, Seq::<PixelSample>::empty()) =~= Seq::<u8>::empty());
        assert(order.take(0) =~= Seq::<int>::empty());
    } else {
        let i = upto - 1;
        lemma_merge_covers_rows(chunks, width, height, max_iterations, samples, i);
        lemma_sorted_rendering_counts_up(chunks, width, height, max_iterations, samples, upto);
        let chunk = chunks[order[i]];
        assert(chunk.index == i);
        assert(renders(chunk, width, height, max_iterations, samples));
        let from = chunk_start(i as nat, height) * width;
        let to = chunk_end(i as nat, height) * width;
        assert(from <= to <= samples.len()) by (nonlinear_arith)
            requires
                from == chunk_start(i as nat, height) * width,
                to == chunk_end(i as nat, height) * width,
                chunk_start(i as nat, height) <= chunk_end(i as nat, height) <= height,
                samples.len() == width * height,
        ;
        assert(order.take(upto).drop_last() =~= order.take(i));
        assert(order.take(upto).last() == order[i]);
        assert(samples.take(to as int) =~= samples.take(from as int) + samples.subrange(
            from as int,
            to as int,
        ));
        lemma_pixel_bytes_concat(
            max_iterations,
            samples.take(from as int),
            samples.subrange(from as int, to as int),
        );
    }
}

/// Putting the chunks of a rendering together gives the frame's pixels
/// row after row, in whatever order the chunks came in.
pub proof fn lemma_rendering_merges_to_frame(
    chunks: Seq<Chunk>,
    width: nat,
    height: nat,
    max_iterations: u32,
    samples: Seq<PixelSample>,
)
    requires
        is_rendering(chunks, width, height, max_iterations, samples),
    ensures
        merged(chunks) == pixel_bytes(max_iterations, samples),
{
    let count = chunks.len();
    let order = index_order(chunks);
    lemma_index_order_arranges(chunks);
    lemma_chunks_tile(height);
    lemma_merge_covers_rows(chunks, width, height, max_iterations, samples, count as int);
    lemma_sorted_rendering_counts_up(chunks, width, height, max_iterations, samples, count as int);
    assert(order.take(count as int) =~= order);
    // The chunk after the last one that came in has no rows, so the rows end there.
    if chunk_start(count, height) < chunk_end(count, height) {
        assert(reported(chunks, count));
        let p = choose|p: int| 0 <= p < chunks.len() && (#[trigger] chunks[p]).index == count;
        assert(order.contains(p));
        let t = choose|t: int| 0 <= t < order.len() && order[t] == p;
        assert(chunks[order[t]].index == t);
        assert(false);
    }
    let size = spec_chunk_size(height);
    assert((count + 1) * size == count * size + size) by (nonlinear_arith);
    assert(chunk_start(count, height) == height);
    assert(samples.take((height * width) as int) =~= samples) by {
        assert(height * width == width * height) by (nonlinear_arith);
    }
}

/// Samples of the first rows of a frame, with the samples of the rows
/// below them put behind, are samples of all these rows.
proof fn lemma_extend_samples<F: Fn(u32, u32, u32, u32, u32) -> PixelSample>(
    sampler: &F,
    width: u32,
    height: u32,
    max_iterations: u32,
    rows: nat,
    above: Seq<PixelSample>,
    more_rows: nat,
    below: Seq<PixelSample>,
)
    requires
        above.len() == rows * width,
        below.len() == more_rows * width,
        sampled_by(sampler, 0, width, height, max_iterations, above),
        sampled_by(sampler, rows as int, width, height, max_iterations, below),
    ensures
        sampled_by(sampler, 0, width, height, max_iterations, above + below),
{
    let all = above + below;
    assert forall|i: int| 0 <= i < all.len() implies sampler.ensures(
        (
            (i % (width as int)) as u32,
            (0 + i / (width as int)) as u32,
            width,
            height,
            max_iterations,
        ),
        #[trigger] all[i],
    ) by {
        if i < above.len() {
            assert(all[i] == above[i]);
        } else {
            let j = i - above.len();
            assert(all[i] == below[j]);
            assert(width > 0) by (nonlinear_arith)
                requires
                    below.len() == more_rows * width,
                    0 <= j < below.len(),
            ;
            let q = j / (width as int);
            let r = j % (width as int);
            lemma_fundamental_div_mod(j, width as int);
            assert(i == (rows + q) * width + r) by (nonlinear_arith)
                requires
                    i == j + rows * width,
                    j == (width as int) * q + r,
            ;
            lemma_fundamental_div_mod_converse(i, width as int, rows + q, r);
        }
    }
}

/// Puts the samples behind the chunks of a drawing together, chunk by
/// chunk up to chunk `upto`: samples of the rows above that chunk, from
/// which the chunks above it are coloured.
proof fn gathered_samples<F: Fn(u32, u32, u32, u32, u32) -> PixelSample>(
    sampler: &F,
    chunks: Seq<Chunk>,
    width: u32,
    height: u32,
    max_iterations: u32,
    upto: nat,
) -> (grid: Seq<PixelSample>)
    requires
        is_drawing(sampler, chunks, width, height, max_iterations),
    ensures
        grid.len() == chunk_start(upto, height as nat) * width,
        sampled_by(sampler, 0, width, height, max_iterations, grid),
        forall|i: int|
            0 <= i < chunks.len() && (#[trigger] chunks[i]).index < upto ==> renders(
                chunks[i],
                width as nat,
                height as nat,
                max_iterations,
                grid,
            ),
    decreases upto,
{
    lemma_chunks_tile(height as nat);
    if upto == 0 {
        Seq::empty()
    } else {
        let k = (upto - 1) as nat;
        let above = gathered_samples(sampler, chunks, width, height, max_iterations, k);
        let start = chunk_start(k, height as nat);
        let end = chunk_end(k, height as nat);
        if start < end {
            assert(reported(chunks, k));
            let p = choose|p: int| 0 <= p < chunks.len() && (#[trigger] chunks[p]).index == k;
            assert(is_drawn(sampler, chunks[p], width, height, max_iterations));
            let samples = choose|samples: Seq<PixelSample>|
                drawn_from(sampler, chunks[p], samples, k, width, height, max_iterations);
            lemma_extend_samples(
                sampler,
                width,
                height,
                max_iterations,
                start,
                above,
                (end - start) as nat,
                samples,
            );
            let grid = above + samples;
            assert(grid.len() == end * width) by (nonlinear_arith)
                requires
                    grid.len() == start * width + (end - start) * width,
            ;
            assert forall|i: int|
                0 <= i < chunks.len() && (#[trigger] chunks[i]).index < upto implies renders(
                chunks[i],
                width as nat,
                height as nat,
                max_iterations,
                grid,
            ) by {
                assert(is_drawn(sampler, chunks[i], width, height, max_iterations));
                if chunks[i].index == k {
                    assert(i == p);
                    assert(chunk_samples(grid, k, width as nat, height as nat) =~= samples);
                } else {
                    let earlier = chunks[i].index as nat;
                    lemma_chunks_ascend(height as nat, earlier, k);
                    assert(chunk_start(earlier, height as nat) * width <= chunk_end(
                        earlier,
                        height as nat,
                    ) * width <= start * width) by (nonlinear_arith)
                        requires
                            chunk_start(earlier, height as nat) <= chunk_end(
                                earlier,
                                height as nat,
                            ) <= start,
                    ;
                    assert(chunk_samples(grid, earlier, width as nat, height as nat)
                        =~= chunk_samples(above, earlier, width as nat, height as nat));
                }
            }
            grid
        } else {
            assert forall|i: int|
                0 <= i < chunks.len() && (#[trigger] chunks[i]).index < upto implies renders(
                chunks[i],
                width as nat,
                height as nat,
                max_iterations,
                above,
            ) by {
                assert(is_drawn(sampler, chunks[i], width, height, max_iterations));
            }
            above
        }
    }
}

/// Putting the chunks of a drawing together gives a picture of the frame,
/// in whatever order the chunks came in: it has four bytes for each
/// pixel, and each pixel lies at its offset with a colour that `sampler`
/// and the colouring give it.
pub proof fn lemma_drawing_depicts_frame<F: Fn(u32, u32, u32, u32, u32) -> PixelSample>(
    sampler: &F,
    chunks: Seq<Chunk>,
    width: u32,
    height: u32,
    max_iterations: u32,
)
    requires
        is_drawing(sampler, chunks, width, height, max_iterations),
    ensures
        depicts(
            sampler,
            width,
            height,
            max_iterations,
            (Picture { width: width as nat, height: height as nat, pixels: merged(chunks) }),
        ),
{
    lemma_chunks_tile(height as nat);
    let grid = gathered_samples(
        sampler,
        chunks,
        width,
        height,
        max_iterations,
        CHUNK_COUNT as nat,
    );
    assert(grid.len() == width * height) by (nonlinear_arith)
        requires
            grid.len() == height * width,
    ;
    assert forall|i: int| 0 <= i < chunks.len() implies renders(
        #[trigger] chunks[i],
        width as nat,
        height as nat,
        max_iterations,
        grid,
    ) by {
        assert(is_drawn(sampler, chunks[i], width, height, max_iterations));
    }
    assert(is_rendering(chunks, width as nat, height as nat, max_iterations, grid));
    lemma_rendering_merges_to_frame(chunks, width as nat, height as nat, max_iterations, grid);
    lemma_samples_depict(sampler, width, height, max_iterations, grid);
}

/// The offset of a pixel in a row-major buffer splits back into the
/// pixel's column and row.
proof fn lemma_offset_splits(width: int, x: int, y: int)
    requires
        0 <= x < width,
        0 <= y,
    ensures
        (y * width + x) % width == x,
        (y * width + x) / width == y,
{
    lemma_fundamental_div_mod_converse(y * width + x, width, y, x);
}

/// The pixels that the samples of a whole frame colour show that frame.
pub proof fn lemma_samples_depict<F: Fn(u32, u32, u32, u32, u32) -> PixelSample>(
    sampler: &F,
    width: u32,
    height: u32,
    max_iterations: u32,
    samples: Seq<PixelSample>,
)
    requires
        samples.len() == width * height,
        sampled_by(sampler, 0, width, height, max_iterations, samples),
    ensures
        depicts(
            sampler,
            width,
            height,
            max_iterations,
            (Picture {
                width: width as nat,
                height: height as nat,
                pixels: pixel_bytes(max_iterations, samples),
            }),
        ),
{
    let pixels = pixel_bytes(max_iterations, samples);
    let picture = Picture { width: width as nat, height: height as nat, pixels };
    assert(picture.well_formed()) by {
        assert(4 * (width * height) == width * height * 4);
    }
    assert forall|x: u32, y: u32| x < width && y < height implies #[trigger] evaluates_to(
        sampler,
        x,
        y,
        width,
        height,
        max_iterations,
        picture.pixel(x as int, y as int),
    ) by {
        let i = y * width + x;
        lemma_offset_splits(width as int, x as int, y as int);
        assert(0 <= i < width * height) by (nonlinear_arith)
            requires
                i == y * width + x,
                0 <= x < width,
                0 <= y < height,
        ;
        let sample = samples[i];
        assert(sampler.ensures((x, y, width, height, max_iterations), sample));
        let color = spec_color_for_pixel(max_iterations, sample);
        assert(picture.pixel(x as int, y as int) == color);
    }
}

/// A frame is determined by what the sampler returns: where the sampler
/// can return only one sample for each pixel, two pictures of one frame
/// are equal byte for byte.
pub proof fn lemma_frame_is_determined<F: Fn(u32, u32, u32, u32, u32) -> PixelSample>(
    sampler: &F,
    width: u32,
    height: u32,
    max_iterations: u32,
    one: Picture,
    other: Picture,
)
    requires
        depicts(sampler, width, height, max_iterations, one),
        depicts(sampler, width, height, max_iterations, other),
        is_deterministic(sampler, width, height, max_iterations),
    ensures
        one == other,
{
    assert(one.pixels.len() == other.pixels.len());
    assert forall|k: int| 0 <= k < one.pixels.len() implies one.pixels[k] == other.pixels[k] by {
        let i = k / 4;
        assert(0 <= i < width * height);
        assert(width > 0) by (nonlinear_arith)
            requires
                0 <= i < width * height,
        ;
        let column = i % (width as int);
        let row = i / (width as int);
        lemma_fundamental_div_mod(i, width as int);
        assert(0 <= row < height) by (nonlinear_arith)
            requires
                i == (width as int) * row + column,
                0 <= i < width * height,
                0 <= column < width,
        ;
        let x = column as u32;
        let y = row as u32;
        assert((y * width + x) * 4 == 4 * i) by (nonlinear_arith)
            requires
                i == (width as int) * (y as int) + (x as int),
        ;
        assert(evaluates_to(
            sampler,
            x,
            y,
            width,
            height,
            max_iterations,
            one.pixel(x as int, y as int),
        ));
        assert(evaluates_to(
            sampler,
            x,
            y,
            width,
            height,
            max_iterations,
            other.pixel(x as int, y as int),
        ));
        assert(one.pixel(x as int, y as int) == other.pixel(x as int, y as int));
    }
    assert(one.pixels =~= other.pixels);
}

} // verus!
