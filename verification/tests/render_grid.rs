use mandelbrot::color::map_z;
use mandelbrot::escape::calc_z;
use mandelbrot::raster::{corner_from_center, project, render};

fn rgb(r: u8, g: u8, b: u8) -> (u8, u8, u8) {
    (r, g, b)
}

#[test]
fn test_coordinate_mapping_round_trip() {
    // The reference viewport: 500 x 400 grid, step 1/160, corner origin
    // (-340, -200).  Pixel 0 maps to (-340/160, -200/160) =
    // (-2.125, -1.25) exactly: both values are representable.
    let px0 = project(160, -340, 0);
    let py0 = project(160, -200, 0);
    assert_eq!(px0.bits, -(17i128 << 120)); // -2.125
    assert_eq!(py0.bits, -(5i128 << 121)); // -1.25

    // The opposite corner maps to ((-340+499)/160, (-200+399)/160) =
    // (159/160, 199/160), each exact up to the one final rounding:
    // floor(k * 2^123 / 160), computed here without the wide product.
    let q = (1i128 << 123) / 160;
    let r = (1i128 << 123) % 160;
    let px1 = project(160, -340, 499);
    let py1 = project(160, -200, 399);
    assert_eq!(px1.bits, 159 * q + 159 * r / 160);
    assert_eq!(py1.bits, 199 * q + 199 * r / 160);

    // A negative coordinate that needs the final rounding: -1/3 rounds
    // toward negative infinity, one below the truncated quotient.
    let p3 = project(3, -1, 0);
    assert_eq!(p3.bits, -((1i128 << 123) / 3) - 1);
}

#[test]
fn test_center_origin_convention() {
    // The center convention derives the top-left corner as the center
    // minus half the dimension.
    assert_eq!(corner_from_center(-90, 500), -340);
    assert_eq!(corner_from_center(0, 400), -200);
    assert_eq!(corner_from_center(3, 5), 1);
    assert_eq!(corner_from_center(-3, 5), -5);
}

#[test]
fn test_render_matches_componentwise() {
    // A small grid rendered through the entry point must agree pixel by
    // pixel with the mapper, evaluator and color table called directly.
    let cols = 4usize;
    let rows = 3usize;
    let step_size = 1i128;
    let start_x = -2i128;
    let start_y = -1i128;
    let mut pixels: Vec<(u8, u8, u8)> = vec![(0, 0, 0); cols * rows];
    render(&mut pixels, rgb, step_size, start_x, cols, start_y, rows);

    for index in 0..cols * rows {
        let x = index % cols;
        let y = index / cols;
        let px = project(step_size, start_x, x);
        let py = project(step_size, start_y, y);
        let expected = map_z(calc_z(px, py));
        assert_eq!(pixels[index], expected, "pixel {index}");
    }
    // The pixel at grid offset (2, 1) of this viewport is c = 0 + 0i: it
    // is in the set, so its count is the bound and its color black.
    let inside = project(step_size, start_x, 2);
    assert_eq!(inside.bits, 0);
    assert_eq!(pixels[cols + 2], (0, 0, 0));
}

#[test]
fn test_render_stops_at_grid_size() {
    // A buffer longer than rows * cols: rendering stops exactly at the
    // grid size and the tail keeps its old entries.
    let cols = 4usize;
    let rows = 3usize;
    let sentinel = (9, 9, 9);
    let mut pixels: Vec<(u8, u8, u8)> = vec![sentinel; cols * rows + 5];
    render(&mut pixels, rgb, 1, -2, cols, -1, rows);
    for index in cols * rows..pixels.len() {
        assert_eq!(pixels[index], sentinel, "tail entry {index}");
    }
    // Every in-grid pixel of this viewport was stored: each equals the
    // componentwise expectation, never the sentinel.
    for index in 0..cols * rows {
        let x = index % cols;
        let y = index / cols;
        let expected = map_z(calc_z(project(1, -2, x), project(1, -1, y)));
        assert_eq!(pixels[index], expected, "pixel {index}");
    }
}

#[test]
fn test_render_shorter_buffer() {
    // A buffer shorter than the grid: rendering fills it and stops at its
    // end without complaint.
    let cols = 4usize;
    let rows = 3usize;
    let mut pixels: Vec<(u8, u8, u8)> = vec![(7, 7, 7); 5];
    render(&mut pixels, rgb, 1, -2, cols, -1, rows);
    for index in 0..5 {
        let x = index % cols;
        let y = index / cols;
        let expected = map_z(calc_z(project(1, -2, x), project(1, -1, y)));
        assert_eq!(pixels[index], expected, "pixel {index}");
    }
}

#[test]
fn test_render_fine_step() {
    // A step that does not divide the fixed-point scale exactly:
    // rendering is deterministic and matches the componentwise path.
    let cols = 3usize;
    let rows = 2usize;
    let mut a: Vec<(u8, u8, u8)> = vec![(0, 0, 0); cols * rows];
    let mut b: Vec<(u8, u8, u8)> = vec![(1, 1, 1); cols * rows];
    render(&mut a, rgb, 160, -340, cols, -200, rows);
    render(&mut b, rgb, 160, -340, cols, -200, rows);
    assert_eq!(a, b);
    for index in 0..cols * rows {
        let x = index % cols;
        let y = index / cols;
        let expected = map_z(calc_z(project(160, -340, x), project(160, -200, y)));
        assert_eq!(a[index], expected, "pixel {index}");
    }
}
