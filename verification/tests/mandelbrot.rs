use mandelbrot::canvas::Canvas;
use mandelbrot::chunk::{draw_chunk, Chunk};
use mandelbrot::color::{evaluate, Color, PixelSample};
use mandelbrot::mandelbrot::Mandelbrot;
use mandelbrot::partition::CHUNK_COUNT;

const BLACK: Color = Color { r: 0, g: 0, b: 0, a: 255 };

/// The escape-time iteration over the window from -2 to 1 and from -1 to 1,
/// with the smooth hue of a point that escapes.
fn escape_time(x: u32, y: u32, width: u32, height: u32, max_iterations: u32) -> PixelSample {
    let c_x = (x as f64 / width as f64) * 3.0 - 2.0;
    let c_y = (y as f64 / height as f64) * 2.0 - 1.0;
    let mut zx = 0.0f64;
    let mut zy = 0.0f64;
    let mut iterations = 0u32;
    while zx * zx + zy * zy < 4.0 && iterations < max_iterations {
        let next = zx * zx - zy * zy + c_x;
        zy = 2.0 * zx * zy + c_y;
        zx = next;
        iterations += 1;
    }
    let zn = (zx * zx + zy * zy).sqrt();
    let nu = (zn.ln() / 2.0f64.ln()).ln() / 2.0f64.ln();
    let smooth = iterations as f64 + 1.0 - nu;
    let hue = 360.0 * (smooth / max_iterations as f64);
    let ramp = 1.0 - ((hue / 60.0) % 2.0 - 1.0).abs();
    PixelSample { iterations, hue: hue.floor() as i64, ramp: (ramp * 255.0) as u8 }
}

/// A sampler whose samples tell the pixels apart.
fn patchwork(x: u32, y: u32, width: u32, _height: u32, max_iterations: u32) -> PixelSample {
    PixelSample {
        iterations: if (x + y) % 5 == 0 { max_iterations } else { (x + y) % 5 },
        hue: ((y * width + x) % 400) as i64 - 20,
        ramp: ((x * 31 + y * 17) % 256) as u8,
    }
}

fn pixel(canvas: &Canvas, x: u32, y: u32) -> Color {
    let offset = ((y as usize) * (canvas.width as usize) + x as usize) * 4;
    Color {
        r: canvas.pixels[offset],
        g: canvas.pixels[offset + 1],
        b: canvas.pixels[offset + 2],
        a: canvas.pixels[offset + 3],
    }
}

#[test]
fn a_new_generator_holds_no_pixels() {
    let generator = Mandelbrot::default();
    assert_eq!(generator.canvas(), &Canvas { width: 0, height: 0, pixels: Vec::new() });
}

#[test]
fn the_buffer_has_four_bytes_for_each_pixel() {
    let mut generator = Mandelbrot::default();
    for (width, height) in [(1u32, 1u32), (1, 40), (40, 1), (3, 5), (16, 16), (17, 33), (64, 48)] {
        generator.generate(width, height, 20, &escape_time);
        let canvas = generator.canvas();
        assert_eq!(canvas.width, width);
        assert_eq!(canvas.height, height);
        assert_eq!(canvas.pixels.len(), (width * height * 4) as usize);
    }
}

#[test]
fn a_frame_without_columns_or_rows_has_no_pixels() {
    let mut generator = Mandelbrot::default();
    generator.generate(8, 8, 10, &escape_time);
    generator.generate(0, 25, 10, &escape_time);
    assert_eq!(generator.canvas(), &Canvas { width: 0, height: 25, pixels: Vec::new() });
    generator.generate(25, 0, 10, &escape_time);
    assert_eq!(generator.canvas(), &Canvas { width: 25, height: 0, pixels: Vec::new() });
    generator.generate(0, 0, 10, &escape_time);
    assert_eq!(generator.canvas(), &Canvas { width: 0, height: 0, pixels: Vec::new() });
}

#[test]
fn the_same_arguments_give_the_same_bytes() {
    let mut first = Mandelbrot::default();
    let mut second = Mandelbrot::default();
    first.generate(60, 40, 50, &escape_time);
    second.generate(60, 40, 50, &escape_time);
    assert_eq!(first.canvas(), second.canvas());
    second.generate(3, 3, 1, &escape_time);
    second.generate(60, 40, 50, &escape_time);
    assert_eq!(first.canvas(), second.canvas());
}

#[test]
fn every_pixel_lies_at_its_offset() {
    let mut generator = Mandelbrot::default();
    for (width, height) in [(1u32, 1u32), (7, 3), (5, 15), (4, 16), (3, 17), (9, 33), (8, 100)] {
        generator.generate(width, height, 5, &patchwork);
        let canvas = generator.canvas();
        for y in 0..height {
            for x in 0..width {
                let expected = evaluate(x, y, width, height, 5, &patchwork);
                assert_eq!(pixel(canvas, x, y), expected);
            }
        }
    }
}

#[test]
fn the_sampler_is_asked_the_frame_size_and_the_budget() {
    let mut generator = Mandelbrot::default();
    generator.generate(2, 2, 77, &|_x, _y, width, height, max_iterations| PixelSample {
        iterations: 0,
        hue: if width == 2 && height == 2 && max_iterations == 77 { 100 } else { 200 },
        ramp: 5,
    });
    assert_eq!(generator.canvas().pixels, [5u8, 255, 0, 255].repeat(4));
}

#[test]
fn the_centre_of_the_set_is_black() {
    let mut generator = Mandelbrot::default();
    for max_iterations in [1u32, 2, 10, 100, 1000] {
        generator.generate(30, 20, max_iterations, &escape_time);
        // Column 20 of 30 and row 10 of 20 map to the point 0.
        assert_eq!(escape_time(20, 10, 30, 20, max_iterations).iterations, max_iterations);
        assert_eq!(pixel(generator.canvas(), 20, 10), BLACK);
    }
}

#[test]
fn the_left_edge_escapes_and_is_coloured() {
    let mut generator = Mandelbrot::default();
    generator.generate(30, 20, 100, &escape_time);
    // The corner maps to -2 - i, which leaves the disc at the first step.
    let sample = escape_time(0, 0, 30, 20, 100);
    assert_eq!(sample.iterations, 1);
    assert_eq!(sample.hue, 6);
    assert_eq!(sample.ramp, 27);
    assert_eq!(pixel(generator.canvas(), 0, 0), Color { r: 255, g: 27, b: 0, a: 255 });
}

#[test]
fn collecting_takes_the_chunks_in_any_order() {
    let (width, height, max_iterations) = (6u32, 50u32, 9u32);
    let mut expected = Mandelbrot::default();
    expected.generate(width, height, max_iterations, &patchwork);

    let mut chunks: Vec<Chunk> = Vec::new();
    for index in (0..CHUNK_COUNT).rev() {
        if let Some(chunk) = draw_chunk(index, width, height, max_iterations, &patchwork) {
            chunks.push(chunk);
        }
    }
    chunks.swap(0, 7);
    chunks.swap(3, 11);
    let mut generator = Mandelbrot::default();
    assert!(generator.collect(width, height, chunks));
    assert_eq!(generator.canvas(), expected.canvas());
}

#[test]
fn collecting_refuses_chunks_that_do_not_fill_the_frame() {
    let mut generator = Mandelbrot::default();
    generator.generate(2, 2, 5, &patchwork);
    let before = generator.canvas().clone();
    let chunk = Chunk { index: 0, start_row: 0, end_row: 1, buffer: vec![1, 2, 3, 4] };
    assert!(!generator.collect(2, 1, vec![chunk.clone()]));
    assert_eq!(generator.canvas(), &before);
    assert!(!generator.collect(1, 1, vec![chunk.clone(), chunk.clone()]));
    assert_eq!(generator.canvas(), &before);
    assert!(generator.collect(1, 1, vec![chunk]));
    assert_eq!(generator.canvas(), &Canvas { width: 1, height: 1, pixels: vec![1, 2, 3, 4] });
}

#[test]
fn test_mandelbrot() {
    let mut mandelbrot = Mandelbrot::default();
    mandelbrot.generate(9000, 6000, 100, &escape_time);
    let canvas = mandelbrot.canvas();
    assert_eq!(canvas.pixels.len(), 9000 * 6000 * 4);
    assert_eq!(pixel(canvas, 6000, 3000), BLACK);
    let frame = canvas.to_image().unwrap();
    assert_eq!(frame.image.dimensions(), (9000, 6000));
}
