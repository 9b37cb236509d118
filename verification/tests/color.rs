use mandelbrot::color::{color_for_pixel, evaluate, hsv_to_rgb, Color, PixelSample};

const BLACK: Color = Color { r: 0, g: 0, b: 0, a: 255 };

#[test]
fn each_sextant_places_the_ramp() {
    assert_eq!(hsv_to_rgb(0, 7), (255, 7, 0));
    assert_eq!(hsv_to_rgb(59, 7), (255, 7, 0));
    assert_eq!(hsv_to_rgb(60, 7), (7, 255, 0));
    assert_eq!(hsv_to_rgb(119, 7), (7, 255, 0));
    assert_eq!(hsv_to_rgb(120, 7), (0, 255, 7));
    assert_eq!(hsv_to_rgb(179, 7), (0, 255, 7));
    assert_eq!(hsv_to_rgb(180, 7), (0, 7, 255));
    assert_eq!(hsv_to_rgb(239, 7), (0, 7, 255));
    assert_eq!(hsv_to_rgb(240, 7), (7, 0, 255));
    assert_eq!(hsv_to_rgb(299, 7), (7, 0, 255));
    assert_eq!(hsv_to_rgb(300, 7), (255, 0, 7));
    assert_eq!(hsv_to_rgb(359, 7), (255, 0, 7));
}

#[test]
fn a_hue_outside_the_circle_is_black() {
    assert_eq!(hsv_to_rgb(360, 200), (0, 0, 0));
    assert_eq!(hsv_to_rgb(361, 200), (0, 0, 0));
    assert_eq!(hsv_to_rgb(-1, 200), (0, 0, 0));
    assert_eq!(hsv_to_rgb(i64::MAX, 200), (0, 0, 0));
    assert_eq!(hsv_to_rgb(i64::MIN, 200), (0, 0, 0));
}

#[test]
fn a_point_that_stays_bounded_is_black() {
    for max_iterations in [0u32, 1, 100, u32::MAX] {
        for hue in [-5i64, 0, 30, 200, 359, 360] {
            for ramp in [0u8, 1, 128, 255] {
                let sample = PixelSample { iterations: max_iterations, hue, ramp };
                assert_eq!(color_for_pixel(max_iterations, sample), BLACK);
            }
        }
    }
}

#[test]
fn a_point_that_escapes_gets_the_colour_of_its_hue() {
    let sample = PixelSample { iterations: 3, hue: 130, ramp: 42 };
    assert_eq!(color_for_pixel(100, sample), Color { r: 0, g: 255, b: 42, a: 255 });
    let sample = PixelSample { iterations: 99, hue: 301, ramp: 250 };
    assert_eq!(color_for_pixel(100, sample), Color { r: 255, g: 0, b: 250, a: 255 });
    // One iteration more than the budget is no budget used up.
    let sample = PixelSample { iterations: 101, hue: 10, ramp: 9 };
    assert_eq!(color_for_pixel(100, sample), Color { r: 255, g: 9, b: 0, a: 255 });
}

#[test]
fn an_escaped_point_with_a_hue_outside_the_circle_is_black() {
    let sample = PixelSample { iterations: 5, hue: 360, ramp: 77 };
    assert_eq!(color_for_pixel(100, sample), BLACK);
    let sample = PixelSample { iterations: 5, hue: -1, ramp: 77 };
    assert_eq!(color_for_pixel(100, sample), BLACK);
}

#[test]
fn a_pixel_is_evaluated_from_its_own_sample() {
    let sampler = |x: u32, y: u32, width: u32, height: u32, max_iterations: u32| PixelSample {
        iterations: if x == y { max_iterations } else { 1 },
        hue: (60 * x) as i64,
        ramp: (width + 10 * height + y) as u8,
    };
    assert_eq!(evaluate(2, 2, 7, 9, 50, &sampler), BLACK);
    assert_eq!(evaluate(2, 3, 7, 9, 50, &sampler), Color { r: 0, g: 255, b: 100, a: 255 });
    assert_eq!(evaluate(5, 0, 7, 9, 50, &sampler), Color { r: 255, g: 0, b: 97, a: 255 });
    assert_eq!(evaluate(6, 0, 7, 9, 50, &sampler), BLACK);
}

#[test]
fn every_colour_is_opaque() {
    for iterations in [0u32, 1, 50, 100] {
        for hue in [-1i64, 0, 59, 60, 180, 359, 360, 1000] {
            let sample = PixelSample { iterations, hue, ramp: 33 };
            assert_eq!(color_for_pixel(100, sample).a, 255);
        }
    }
}

/// The ramp of a hue: it rises from 0 to 1 in the even sextants and falls
/// back in the odd ones.
fn ramp_of(hue: f64) -> u8 {
    ((1.0 - ((hue / 60.0) % 2.0 - 1.0).abs()) * 255.0) as u8
}

#[test]
fn the_hue_circle_has_no_jumps() {
    let mut last = hsv_to_rgb(0, ramp_of(0.0));
    assert_eq!(last, (255, 0, 0));
    for tenth in 1..3600u32 {
        let hue = tenth as f64 / 10.0;
        let next = hsv_to_rgb(hue.floor() as i64, ramp_of(hue));
        assert!(last.0.abs_diff(next.0) <= 1, "red jumps at {hue}");
        assert!(last.1.abs_diff(next.1) <= 1, "green jumps at {hue}");
        assert!(last.2.abs_diff(next.2) <= 1, "blue jumps at {hue}");
        last = next;
    }
    assert_eq!(last, (255, 0, 0));
}

#[test]
fn a_larger_budget_moves_the_colour_of_an_escaped_point_without_a_jump() {
    // A point that escapes after 12 iterations, with a smooth count of 12.5:
    // its hue is that count as a fraction of the budget.
    let mut last: Option<(f64, Color)> = None;
    for max_iterations in 13..400u32 {
        let hue = 360.0 * (12.5 / max_iterations as f64);
        let sample = PixelSample { iterations: 12, hue: hue.floor() as i64, ramp: ramp_of(hue) };
        let color = color_for_pixel(max_iterations, sample);
        assert_eq!(color.a, 255);
        if let Some((last_hue, last_color)) = last {
            assert!(hue < last_hue);
            // A channel changes by 255 over 60 degrees, and no faster.
            let bound = ((last_hue - hue) * 255.0 / 60.0).ceil() as u8 + 1;
            assert!(last_color.r.abs_diff(color.r) <= bound);
            assert!(last_color.g.abs_diff(color.g) <= bound);
            assert!(last_color.b.abs_diff(color.b) <= bound);
        }
        last = Some((hue, color));
    }
}
