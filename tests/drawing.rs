use note_rain::canvas::{BlendMode, Canvas, BUFFER_LEN, HEIGHT, WIDTH};
use note_rain::geometry::Point;
use note_rain::palette::hex_to_rgb;

fn black_canvas() -> Canvas {
    let mut c = Canvas::new(vec![[10, 20, 30, 255], [1, 2, 3, 4]]);
    c.clear();
    c
}

#[test]
fn map_sends_ends_to_ends() {
    assert_eq!(note_rain::geometry::map(3, 3, 7, -10, 50), -10);
    assert_eq!(note_rain::geometry::map(7, 3, 7, -10, 50), 50);
    assert_eq!(note_rain::geometry::map(7, 7, 3, -10, 50), -10);
}

#[test]
fn map_extrapolates() {
    assert_eq!(note_rain::geometry::map(20, 0, 10, 0, 100), 200);
    assert_eq!(note_rain::geometry::map(-5, 0, 10, 0, 100), -50);
}

#[test]
fn map_rounds_down() {
    assert_eq!(note_rain::geometry::map(1, 0, 3, 0, 10), 3);
    assert_eq!(note_rain::geometry::map(-1, 0, 3, 0, 10), -4);
    assert_eq!(note_rain::geometry::map(5, 10, 0, 0, 100), 50);
}

#[test]
fn new_canvas_is_white() {
    let c = Canvas::new(vec![[1, 2, 3, 4]]);
    assert_eq!(c.buffer.len(), BUFFER_LEN);
    assert_eq!(BUFFER_LEN, WIDTH * HEIGHT * 4);
    assert!(c.buffer.iter().all(|b| *b == 255));
    assert_eq!(c.pen_color, [255, 255, 255, 255]);
    assert_eq!(c.blend_mode, BlendMode::Replace);
}

#[test]
fn select_color_wraps_around_palette() {
    let mut c = black_canvas();
    c.select_color(3);
    assert_eq!(c.pen_color, [1, 2, 3, 4]);
    c.select_color(4);
    assert_eq!(c.pen_color, [10, 20, 30, 255]);
}

#[test]
fn dim_clamps() {
    let mut c = Canvas::new(vec![[0, 0, 0, 0]]);
    c.buffer[0] = 250;
    c.buffer[1] = 5;
    c.dim(10);
    assert_eq!(c.buffer[0], 255);
    assert_eq!(c.buffer[1], 15);
    c.dim(-20);
    assert_eq!(c.buffer[1], 0);
    assert_eq!(c.buffer[0], 235);
}

#[test]
fn idx_is_row_major() {
    let c = black_canvas();
    assert_eq!(c.idx(0, 0), 0);
    assert_eq!(c.idx(3, 2), (3 + 2 * 640) * 4);
    assert_eq!(c.idx(639, 479), BUFFER_LEN - 4);
}

#[test]
fn point_replace_overwrites() {
    let mut c = black_canvas();
    c.pen_color = [9, 8, 7, 6];
    c.draw_point(Point::new(2, 1));
    let i = c.idx(2, 1);
    assert_eq!(&c.buffer[i..i + 4], &[9, 8, 7, 6]);
    assert_eq!(c.buffer.iter().filter(|b| **b != 0).count(), 4);
}

#[test]
fn point_outside_leaves_buffer() {
    let mut c = black_canvas();
    c.pen_color = [9, 8, 7, 6];
    let before = c.buffer.clone();
    for p in [
        Point::new(-1, 0),
        Point::new(0, -1),
        Point::new(640, 0),
        Point::new(0, 480),
        Point::new(10_000, -10_000),
    ] {
        c.draw_point(p);
    }
    assert!(c.buffer == before);
}

#[test]
fn blend_half_alpha_over_black() {
    let mut c = black_canvas();
    c.blend_mode = BlendMode::Blend;
    c.pen_color = [200, 100, 50, 128];
    c.draw_point(Point::new(5, 5));
    let i = c.idx(5, 5);
    assert_eq!(&c.buffer[i..i + 4], &[100, 50, 25, 64]);
}

#[test]
fn blend_alpha_zero_keeps_pixel() {
    let mut c = black_canvas();
    c.buffer[0..4].copy_from_slice(&[11, 22, 33, 44]);
    c.blend_mode = BlendMode::Blend;
    c.pen_color = [200, 100, 50, 0];
    c.draw_point(Point::new(0, 0));
    assert_eq!(&c.buffer[0..4], &[11, 22, 33, 44]);
}

#[test]
fn blend_alpha_full_replaces_pixel() {
    let mut c = black_canvas();
    c.buffer[0..4].copy_from_slice(&[11, 22, 33, 44]);
    c.pen_color = [200, 100, 50, 255];
    c.point_blend(0);
    assert_eq!(&c.buffer[0..4], &[200, 100, 50, 255]);
}

#[test]
fn zero_length_line_draws_nothing() {
    let mut c = black_canvas();
    let before = c.buffer.clone();
    c.draw_line(Point::new(100, 100), Point::new(100, 100));
    assert!(c.buffer == before);
}

#[test]
fn horizontal_line_draws_its_samples() {
    let mut c = black_canvas();
    c.pen_color = [1, 1, 1, 1];
    c.draw_line(Point::new(10, 20), Point::new(14, 20));
    for x in 10..14 {
        let i = c.idx(x, 20);
        assert_eq!(c.buffer[i], 1);
    }
    let end = c.idx(14, 20);
    assert_eq!(c.buffer[end], 0);
    assert_eq!(c.buffer.iter().filter(|b| **b != 0).count(), 16);
}

#[test]
fn diagonal_line_steps_on_both_axes() {
    let mut c = black_canvas();
    c.pen_color = [1, 1, 1, 1];
    c.draw_line(Point::new(0, 0), Point::new(4, 2));
    let expected = [(0, 0), (1, 0), (2, 1), (3, 1)];
    for (x, y) in expected {
        let i = c.idx(x, y);
        assert_eq!(c.buffer[i], 1);
    }
    assert_eq!(c.buffer.iter().filter(|b| **b != 0).count(), 16);
}

#[test]
fn curve_of_one_point_draws_nothing() {
    let mut c = black_canvas();
    c.pen_color = [1, 1, 1, 1];
    let p = Point::new(50, 50);
    c.draw_curve(p, p, p);
    assert!(c.buffer.iter().all(|b| *b == 0));
}

#[test]
fn straight_curve_follows_its_chord() {
    let mut c = black_canvas();
    c.pen_color = [1, 1, 1, 1];
    c.draw_curve(Point::new(0, 0), Point::new(2, 0), Point::new(4, 0));
    // samples 1..8 of a curve of eight steps; each interpolation rounds down
    for (x, lit) in [(0, 1), (1, 0), (2, 1), (3, 0), (4, 0)] {
        let i = c.idx(x, 0);
        assert_eq!(c.buffer[i], lit);
    }
    for y in 1..480 {
        let i = c.idx(0, y);
        assert_eq!(c.buffer[i], 0);
    }
}

#[test]
fn hex_colour_is_read() {
    assert_eq!(hex_to_rgb("#160729"), [0x16, 0x07, 0x29, 255]);
    assert_eq!(hex_to_rgb("#dbf3f1"), [0xdb, 0xf3, 0xf1, 255]);
    assert_eq!(hex_to_rgb("#ABCDEF"), [0xab, 0xcd, 0xef, 255]);
}

#[test]
fn hex_colour_without_hash_or_with_tail() {
    assert_eq!(hex_to_rgb("416e8f"), [0x41, 0x6e, 0x8f, 255]);
    assert_eq!(hex_to_rgb("##416e8f#"), [0x41, 0x6e, 0x8f, 255]);
    assert_eq!(hex_to_rgb("#416e8f00"), [0x41, 0x6e, 0x8f, 255]);
}

#[test]
fn diagonal_line_takes_unit_steps() {
    let mut c = black_canvas();
    c.pen_color = [1, 1, 1, 1];
    // three samples, at distances 0, 1 and 2 along the diagonal
    c.draw_line(Point::new(0, 0), Point::new(3, 3));
    for (x, y, lit) in [(0, 0, 1), (1, 1, 1), (2, 2, 0), (1, 0, 0)] {
        let i = c.idx(x, y);
        assert_eq!(c.buffer[i], lit, "pixel ({x}, {y})");
    }
    assert_eq!(c.buffer.iter().filter(|b| **b != 0).count(), 2 * 4);
}

#[test]
fn curve_steps_follow_euclidean_distances() {
    let mut c = black_canvas();
    c.pen_color = [1, 1, 1, 1];
    // distances 5, 5 and 6: samples 1..16; sample 8 is the middle, where
    // both interpolations round down to (1, 2) and (4, 2), giving (2, 2)
    c.draw_curve(Point::new(0, 0), Point::new(3, 4), Point::new(6, 0));
    let top = c.idx(2, 2);
    assert_eq!(c.buffer[top], 1);
    let control = c.idx(3, 4);
    assert_eq!(c.buffer[control], 0);
}

#[test]
fn circle_fills_strictly_inside() {
    let mut c = black_canvas();
    c.pen_color = [1, 1, 1, 1];
    c.draw_circle(Point::new(10, 10), 2);
    for (x, y, lit) in [(10, 10, 1), (11, 11, 1), (9, 10, 1), (12, 10, 0), (10, 8, 0), (12, 12, 0)] {
        let i = c.idx(x, y);
        assert_eq!(c.buffer[i], lit, "pixel ({x}, {y})");
    }
    // 1 + 4 + 4 pixels lie at squared distance 0, 1 or 2
    assert_eq!(c.buffer.iter().filter(|b| **b != 0).count(), 9 * 4);
}

#[test]
fn circle_is_clipped_at_edges() {
    let mut c = black_canvas();
    c.pen_color = [1, 1, 1, 1];
    c.draw_circle(Point::new(0, 0), 2);
    assert_eq!(c.buffer.iter().filter(|b| **b != 0).count(), 4 * 4);
    let mut d = black_canvas();
    d.draw_circle(Point::new(-100, -100), 5);
    assert!(d.buffer.iter().all(|b| *b == 0));
}

#[test]
fn square_includes_both_corners() {
    let mut c = black_canvas();
    c.pen_color = [1, 1, 1, 1];
    c.draw_square(Point::new(2, 3), Point::new(4, 5));
    assert_eq!(c.buffer.iter().filter(|b| **b != 0).count(), 9 * 4);
    let i = c.idx(4, 5);
    assert_eq!(c.buffer[i], 1);
    let j = c.idx(5, 5);
    assert_eq!(c.buffer[j], 0);
}

#[test]
fn square_is_clipped_at_edges() {
    let mut c = black_canvas();
    c.pen_color = [1, 1, 1, 1];
    c.draw_square(Point::new(-5, -5), Point::new(0, 1));
    assert_eq!(c.buffer.iter().filter(|b| **b != 0).count(), 2 * 4);
}

#[test]
fn noise_blends_faint_palette_colours() {
    let mut c = Canvas::new(vec![[200, 100, 0, 255], [0, 0, 0, 0]]);
    c.clear();
    let mut picks = vec![1usize; WIDTH * HEIGHT];
    picks[0] = 0;
    c.blend_noise(&picks);
    // alpha 255 / 20 = 12: each channel becomes value * 12 / 255
    assert_eq!(&c.buffer[0..4], &[9, 4, 0, 0]);
    assert!(c.buffer[4..].iter().all(|b| *b == 0));
}

#[test]
fn random_noise_uses_palette_colours() {
    let mut c = Canvas::new(vec![[255, 0, 0, 255], [0, 255, 0, 255]]);
    c.clear();
    c.random();
    for px in c.buffer.chunks(4) {
        assert!(px == [12, 0, 0, 0] || px == [0, 12, 0, 0]);
    }
}

#[test]
fn circle_of_no_radius_draws_nothing() {
    let mut c = black_canvas();
    c.pen_color = [1, 1, 1, 1];
    c.draw_circle(Point::new(10, 10), 0);
    c.draw_circle(Point::new(10, 10), -3);
    assert!(c.buffer.iter().all(|b| *b == 0));
}

#[test]
fn zero_length_line_far_away_draws_nothing() {
    let mut c = black_canvas();
    let p = Point::new(i64::MAX, i64::MIN);
    c.draw_line(p, p);
    assert!(c.buffer.iter().all(|b| *b == 0));
}
