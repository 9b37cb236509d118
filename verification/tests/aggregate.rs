use mandelbrot::aggregate::assemble;
use mandelbrot::chunk::Chunk;

fn chunk(index: usize, buffer: &[u8]) -> Chunk {
    Chunk { index, start_row: index, end_row: index + 1, buffer: buffer.to_vec() }
}

#[test]
fn chunks_are_put_together_by_index() {
    let chunks = vec![chunk(2, &[5, 6]), chunk(0, &[1, 2]), chunk(3, &[7]), chunk(1, &[3, 4])];
    assert_eq!(assemble(chunks), vec![1, 2, 3, 4, 5, 6, 7]);
}

#[test]
fn chunks_in_order_stay_in_order() {
    let chunks = vec![chunk(0, &[9]), chunk(1, &[8]), chunk(2, &[7])];
    assert_eq!(assemble(chunks), vec![9, 8, 7]);
}

#[test]
fn chunks_in_reverse_are_turned_round() {
    let chunks: Vec<Chunk> = (0..16usize).rev().map(|k| chunk(k, &[k as u8, 100])).collect();
    let mut expected = Vec::new();
    for k in 0..16u8 {
        expected.push(k);
        expected.push(100);
    }
    assert_eq!(assemble(chunks), expected);
}

#[test]
fn chunks_with_one_index_keep_the_order_they_came_in() {
    let chunks = vec![chunk(1, &[10]), chunk(0, &[20]), chunk(1, &[30]), chunk(0, &[40])];
    assert_eq!(assemble(chunks), vec![20, 40, 10, 30]);
}

#[test]
fn an_index_may_be_missing_or_large() {
    let chunks = vec![chunk(usize::MAX, &[3]), chunk(7, &[2]), chunk(4, &[1])];
    assert_eq!(assemble(chunks), vec![1, 2, 3]);
}

#[test]
fn no_chunks_give_no_pixels() {
    assert_eq!(assemble(Vec::new()), Vec::<u8>::new());
}

#[test]
fn empty_buffers_add_nothing() {
    let chunks = vec![chunk(1, &[]), chunk(0, &[1]), chunk(2, &[])];
    assert_eq!(assemble(chunks), vec![1]);
}
