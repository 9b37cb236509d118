//! The split of a frame's rows into a fixed number of chunks.

use vstd::prelude::*;

verus! {

/// Into how many chunks every frame is split, whatever its size.
pub const CHUNK_COUNT: usize = 16;

/// How many rows a full chunk has: the height divided by the chunk count,
/// rounded up.
pub open spec fn spec_chunk_size(height: nat) -> nat {
    (height + CHUNK_COUNT - 1) as nat / (CHUNK_COUNT as nat)
}

/// The first row of chunk `index`. Past the last row it is the height, so
/// that a chunk which has no rows left starts where it ends.
pub open spec fn chunk_start(index: nat, height: nat) -> nat {
    if index * spec_chunk_size(height) <= height {
        index * spec_chunk_size(height)
    } else {
        height
    }
}

/// The row after the last row of chunk `index`, which is the first row of
/// the next chunk.
pub open spec fn chunk_end(index: nat, height: nat) -> nat {
    chunk_start(index + 1, height)
}

/// Whether `row` belongs to chunk `index`.
pub open spec fn chunk_holds(index: nat, height: nat, row: nat) -> bool {
    chunk_start(index, height) <= row < chunk_end(index, height)
}

/// The chunks lie one behind the other and cover the rows exactly: the
/// first starts at row 0, none ends before it starts, and the last ends
/// at the height. A chunk past the count is empty.
pub proof fn lemma_chunks_tile(height: nat)
    ensures
        chunk_start(0, height) == 0,
        chunk_start(CHUNK_COUNT as nat, height) == height,
        forall|index: nat|
            chunk_start(index, height) <= #[trigger] chunk_end(index, height) <= height,
        forall|index: nat|
            index >= CHUNK_COUNT ==> #[trigger] chunk_start(index, height) == height,
{
    let size = spec_chunk_size(height);
    assert(CHUNK_COUNT * size >= height);
    assert forall|index: nat|
        chunk_start(index, height) <= #[trigger] chunk_end(index, height) <= height by {
        assert(index * size <= (index + 1) * size) by (nonlinear_arith);
    }
    assert forall|index: nat| index >= CHUNK_COUNT implies #[trigger] chunk_start(index, height)
        == height by {
        assert(index * size >= CHUNK_COUNT * size) by (nonlinear_arith)
            requires
                index >= CHUNK_COUNT,
        ;
    }
}

/// A later chunk starts no earlier than an earlier chunk ends.
pub proof fn lemma_chunks_ascend(height: nat, earlier: nat, later: nat)
    requires
        earlier < later,
    ensures
        chunk_end(earlier, height) <= chunk_start(later, height),
{
    let size = spec_chunk_size(height);
    assert((earlier + 1) * size <= later * size) by (nonlinear_arith)
        requires
            earlier < later,
    ;
}

/// A chunk that has rows starts at its index times the chunk size and
/// ends one chunk size later, or at the height where that comes first.
pub proof fn lemma_chunk_bounds(index: nat, height: nat)
    requires
        chunk_start(index, height) < chunk_end(index, height),
    ensures
        index < CHUNK_COUNT,
        chunk_start(index, height) == index * spec_chunk_size(height),
        chunk_end(index, height) == if (index + 1) * spec_chunk_size(height) <= height {
            (index + 1) * spec_chunk_size(height)
        } else {
            height
        },
{
    lemma_chunks_tile(height);
}

/// Every row of the frame belongs to exactly one chunk: the one whose
/// index is the row divided by the chunk size.
pub proof fn lemma_row_in_one_chunk(height: nat, row: nat)
    requires
        row < height,
    ensures
        row / spec_chunk_size(height) < CHUNK_COUNT,
        chunk_holds(row / spec_chunk_size(height), height, row),
        forall|index: nat|
            #[trigger] chunk_holds(index, height, row) ==> index == row / spec_chunk_size(height),
{
    let size = spec_chunk_size(height);
    let k = row / size;
    assert(size > 0);
    assert(k * size <= row < (k + 1) * size) by (nonlinear_arith)
        requires
            k == row / size,
            size > 0,
    ;
    assert(k < CHUNK_COUNT) by (nonlinear_arith)
        requires
            k * size <= row,
            row < height,
            height <= CHUNK_COUNT * size,
            size > 0,
    ;
    assert forall|index: nat| #[trigger] chunk_holds(index, height, row) implies index == k by {
        assert(index * size <= row < (index + 1) * size);
        assert(index == k) by (nonlinear_arith)
            requires
                index * size <= row < (index + 1) * size,
                k * size <= row < (k + 1) * size,
                size > 0,
        ;
    }
}

/// Computes the chunk size of a frame.
pub fn chunk_size(height: u32) -> (size: u32)
    ensures
        size == spec_chunk_size(height as nat),
{
    let count: u32 = CHUNK_COUNT as u32;
    if height % count == 0 {
        height / count
    } else {
        height / count + 1
    }
}

/// Computes the rows of chunk `index`: the first, and the one after the
/// last.
pub fn chunk_rows(index: usize, height: u32) -> (rows: (usize, usize))
    ensures
        rows.0 == chunk_start(index as nat, height as nat),
        rows.1 == chunk_end(index as nat, height as nat),
{
    proof {
        lemma_chunks_tile(height as nat);
    }
    if index >= CHUNK_COUNT {
        return (height as usize, height as usize);
    }
    // In 64 bits the products cannot overflow, whatever the width of `usize`.
    let size: u64 = chunk_size(height) as u64;
    let limit: u64 = height as u64;
    let position: u64 = index as u64;
    assert(position * size <= CHUNK_COUNT * size && (position + 1) * size <= CHUNK_COUNT * size)
        by (nonlinear_arith)
        requires
            position < CHUNK_COUNT,
    ;
    let start: u64 = if position * size <= limit {
        position * size
    } else {
        limit
    };
    let end: u64 = if (position + 1) * size <= limit {
        (position + 1) * size
    } else {
        limit
    };
    (start as usize, end as usize)
}

} // verus!
