use mandelbrot::partition::{chunk_rows, chunk_size, CHUNK_COUNT};

#[test]
fn the_chunk_size_is_the_height_over_sixteen_rounded_up() {
    assert_eq!(CHUNK_COUNT, 16);
    assert_eq!(chunk_size(0), 0);
    assert_eq!(chunk_size(1), 1);
    assert_eq!(chunk_size(15), 1);
    assert_eq!(chunk_size(16), 1);
    assert_eq!(chunk_size(17), 2);
    assert_eq!(chunk_size(100), 7);
    assert_eq!(chunk_size(6000), 375);
    assert_eq!(chunk_size(u32::MAX), 268_435_456);
}

#[test]
fn the_chunks_of_a_hundred_rows() {
    assert_eq!(chunk_rows(0, 100), (0, 7));
    assert_eq!(chunk_rows(1, 100), (7, 14));
    assert_eq!(chunk_rows(13, 100), (91, 98));
    assert_eq!(chunk_rows(14, 100), (98, 100));
    assert_eq!(chunk_rows(15, 100), (100, 100));
}

#[test]
fn a_low_frame_leaves_later_chunks_without_rows() {
    assert_eq!(chunk_rows(0, 3), (0, 1));
    assert_eq!(chunk_rows(1, 3), (1, 2));
    assert_eq!(chunk_rows(2, 3), (2, 3));
    for index in 3..CHUNK_COUNT {
        assert_eq!(chunk_rows(index, 3), (3, 3));
    }
}

#[test]
fn a_frame_without_rows_has_no_chunk_with_rows() {
    for index in 0..CHUNK_COUNT {
        assert_eq!(chunk_rows(index, 0), (0, 0));
    }
}

#[test]
fn a_chunk_past_the_count_has_no_rows() {
    assert_eq!(chunk_rows(16, 100), (100, 100));
    assert_eq!(chunk_rows(usize::MAX, 100), (100, 100));
}

#[test]
fn the_chunks_tile_the_rows() {
    for height in [0u32, 1, 2, 15, 16, 17, 31, 32, 33, 100, 6000, 65_537] {
        let mut next = 0usize;
        for index in 0..CHUNK_COUNT {
            let (start, end) = chunk_rows(index, height);
            assert_eq!(start, next);
            assert!(start <= end);
            next = end;
        }
        assert_eq!(next, height as usize);
    }
}

#[test]
fn the_tallest_frame_is_split_without_overflow() {
    let height = u32::MAX;
    assert_eq!(chunk_rows(0, height), (0, 268_435_456));
    assert_eq!(chunk_rows(15, height), (15 * 268_435_456, height as usize));
}
