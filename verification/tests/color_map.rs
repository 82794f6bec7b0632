use mandelbrot::color::{map_color, map_z, ColorFn};
use mandelbrot::MAX_ITER;

#[test]
fn test_render_map() {
    for z in (5..MAX_ITER).step_by(25) {
        let (r, g, b) = map_z(z);
        println!("{}: ({},{}, {})", z, r, g, b)
    }
}

#[test]
fn test_map_z_band_values() {
    // First band: blue ramps from 0 to 250 over counts 0..=10.
    assert_eq!(map_z(0), (0, 0, 0));
    assert_eq!(map_z(5), (0, 0, 125));
    assert_eq!(map_z(10), (0, 0, 250));
    // Second band: red and green ramp up over 190 steps, blue constant.
    assert_eq!(map_z(11), (1, 1, 255));
    assert_eq!(map_z(200), (255, 255, 255));
    // Third band: red and blue ramp down over 150 steps, green constant.
    assert_eq!(map_z(201), (253, 255, 253));
    assert_eq!(map_z(350), (0, 255, 0));
    // Last band: green ramps down to black at the iteration bound.
    assert_eq!(map_z(351), (0, 253, 0));
    assert_eq!(map_z(MAX_ITER), (0, 0, 0));
}

#[test]
fn test_map_z_deterministic() {
    for z in 0..=MAX_ITER {
        assert_eq!(map_z(z), map_z(z));
    }
}

#[test]
fn test_map_color_direct() {
    assert_eq!(map_color((3, 7), ColorFn::Const(9)), 9);
    assert_eq!(map_color((5, 10), ColorFn::Range(0, 250)), 125);
    assert_eq!(map_color((1, 150), ColorFn::Range(255, 0)), 253);
    assert_eq!(map_color((150, 150), ColorFn::Range(255, 0)), 0);
    // A zero-width band keeps the starting endpoint.
    assert_eq!(map_color((0, 0), ColorFn::Range(7, 250)), 7);
    assert_eq!(map_color((0, 0), ColorFn::Const(42)), 42);
}

#[test]
fn test_ramp_monotone_in_band() {
    // Rising ramps of the second band: red and green never decrease.
    for z in 12..=200 {
        let (r0, g0, _) = map_z(z - 1);
        let (r1, g1, _) = map_z(z);
        assert!(r0 <= r1);
        assert!(g0 <= g1);
    }
    // Falling ramps of the third band: red and blue never increase.
    for z in 202..=350 {
        let (r0, _, b0) = map_z(z - 1);
        let (r1, _, b1) = map_z(z);
        assert!(r0 >= r1);
        assert!(b0 >= b1);
    }
}

#[test]
fn test_channels_in_byte_range() {
    // Exhaustive over the whole count range: every channel is a byte,
    // and no count ever reaches the defensive black fallback except the
    // counts the table really maps to black.
    for z in 0..=MAX_ITER {
        let (_r, _g, _b) = map_z(z);
        if z > 10 && z < 500 {
            assert_ne!(map_z(z), (0, 0, 0));
        }
    }
}
