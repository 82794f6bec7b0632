use mandelbrot::escape::calc_z;
use mandelbrot::fixpoint::{Fix, FRAC_ONE, FRAC_TWO};
use mandelbrot::MAX_ITER;

fn fix(bits: i128) -> Fix {
    Fix { bits }
}

#[test]
fn test_origin_is_bounded() {
    // c = 0 + 0i stays at the origin forever: the full budget is spent.
    assert_eq!(calc_z(fix(0), fix(0)), MAX_ITER);
}

#[test]
fn test_real_axis_escapes_immediately() {
    // c = 2 + 0i: the first step reaches 6, whose squared norm already
    // overflows the clamp test, so the count is zero.
    assert_eq!(calc_z(fix(FRAC_TWO), fix(0)), 0);
    // The mirrored point c = -2 + 0i escapes just as fast.
    assert_eq!(calc_z(fix(-FRAC_TWO), fix(0)), 0);
    // Further out on the axis.
    assert_eq!(calc_z(fix(3 * FRAC_ONE), fix(0)), 0);
}

#[test]
fn test_extreme_coordinates_do_not_panic() {
    // The largest magnitude the viewport can ask for: the evaluator must
    // terminate through the overflow-as-escape path, never panic.
    let four = 4 * FRAC_ONE;
    assert_eq!(calc_z(fix(four), fix(four)), 0);
    assert_eq!(calc_z(fix(-four), fix(four)), 0);
    assert_eq!(calc_z(fix(i128::MAX), fix(i128::MIN)), 0);
}

#[test]
fn test_interior_and_exterior_counts() {
    // c = -1 + 0i cycles between -1 and 0: bounded, full budget.
    assert_eq!(calc_z(fix(-FRAC_ONE), fix(0)), MAX_ITER);
    // c = 0.5 + 0.5i escapes after a handful of iterations.
    let half = FRAC_ONE / 2;
    let count = calc_z(fix(half), fix(half));
    assert!(0 < count && count < 20, "count was {count}");
}
