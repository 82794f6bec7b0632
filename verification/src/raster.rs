//! The render loop: each pixel index of a row-major grid is mapped to a
//! plane point, its escape time is evaluated, the count is colored, and
//! the caller's callback turns the RGB triple into the stored pixel.
//!
//! The plane coordinate of a pixel is the exact rational
//! `(origin + offset) / step_size`, converted to fixed point in one final
//! rounding: no reciprocal is stored, so no rounding drift accumulates
//! across the image.  The loop stops at the end of the buffer or,
//! earlier, at the end of the logical grid: a buffer longer than
//! `rows * cols` keeps its tail.

use vstd::arithmetic::div_mod::{
    lemma_div_is_ordered, lemma_div_nonincreasing, lemma_div_of0, lemma_div_pos_is_pos,
    lemma_fundamental_div_mod, lemma_hoist_over_denominator, lemma_mod_bound,
};
use vstd::arithmetic::mul::{lemma_mul_inequality, lemma_mul_is_commutative, lemma_mul_upper_bound};
use vstd::prelude::*;

use crate::color::{map_z, spec_color};
use crate::escape::{calc_z, spec_calc_z};
use crate::fixpoint::{in_range, lemma_neg_div_ceil, Fix, FRAC_ONE};

verus! {

/// Bit pattern of the exact rational `k / step_size` in fixed point:
/// the scaled numerator divided once, rounded toward negative infinity.
pub open spec fn spec_scale(step_size: int, k: int) -> int {
    ((FRAC_ONE as int) * k) / step_size
}

/// Plane coordinate of grid offset `offset` from origin `origin`: the
/// exact rational `(origin + offset) / step_size` in fixed-point bits.
pub open spec fn spec_project(step_size: int, origin: int, offset: int) -> int {
    spec_scale(step_size, origin + offset)
}

/// The RGB triple of pixel index `i` of a viewport: the color of the
/// escape time at the plane point of that pixel.
pub open spec fn spec_pixel_rgb(step_size: int, start_x: int, cols: int, start_y: int, i: int) -> (
    u8,
    u8,
    u8,
) {
    let x = i % cols;
    let y = i / cols;
    spec_color(
        spec_calc_z(
            spec_project(step_size, start_x, x),
            spec_project(step_size, start_y, y),
        ) as int,
    )
}

/// Splitting the exact scaled coordinate over quotient and remainder of
/// the fixed-point unit: with `q = unit / n` and `r = unit % n`,
/// `floor(unit * k / n) == k * q + floor(k * r / n)`.
proof fn lemma_scale_split(n: int, k: int)
    requires
        1 <= n,
    ensures
        spec_scale(n, k) == k * ((FRAC_ONE as int) / n) + (k * ((FRAC_ONE as int) % n)) / n,
{
    let f = FRAC_ONE as int;
    let q = f / n;
    let r = f % n;
    lemma_fundamental_div_mod(f, n);
    lemma_mod_bound(f, n);
    assert(f * k == (k * r) + (k * q) * n) by (nonlinear_arith)
        requires
            f == n * q + r,
    ;
    lemma_hoist_over_denominator(k * r, k * q, n as nat);
}

/// The exact scaled coordinate is monotone in the grid position.
proof fn lemma_scale_monotone(n: int, k1: int, k2: int)
    requires
        1 <= n,
        k1 <= k2,
    ensures
        spec_scale(n, k1) <= spec_scale(n, k2),
{
    let f = FRAC_ONE as int;
    assert(f * k1 <= f * k2) by (nonlinear_arith)
        requires
            k1 <= k2,
            f >= 0,
    ;
    lemma_div_is_ordered(f * k1, f * k2, n);
}

/// Maps grid offset `offset` from origin `origin` to its plane
/// coordinate: the exact rational `(origin + offset) / step_size`,
/// rounded toward negative infinity once.  The numerator and denominator
/// must each fit a 64-bit signed word, the machine limit of the split
/// multiplication, and the scaled result must be representable.
pub fn project(step_size: i128, origin: i128, offset: usize) -> (p: Fix)
    requires
        1 <= step_size as int <= i64::MAX as int,
        -(i64::MAX as int) <= origin as int + offset as int <= i64::MAX as int,
        in_range(spec_project(step_size as int, origin as int, offset as int)),
    ensures
        p.bits as int == spec_project(step_size as int, origin as int, offset as int),
{
    let k: i128 = origin + (offset as i128);
    let n: u128 = step_size as u128;
    let q: u128 = (FRAC_ONE as u128) / n;
    let r: u128 = (FRAC_ONE as u128) % n;
    let ghost scaled = spec_scale(step_size as int, k as int);
    proof {
        lemma_scale_split(step_size as int, k as int);
        lemma_mod_bound(FRAC_ONE as int, step_size as int);
    }
    if k >= 0 {
        let ku: u128 = k as u128;
        proof {
            lemma_mul_upper_bound(ku as int, i64::MAX as int, r as int, i64::MAX as int);
            lemma_div_pos_is_pos((ku as int) * (r as int), n as int);
            lemma_div_pos_is_pos((FRAC_ONE as int) * (k as int), step_size as int);
        }
        let frac: u128 = ku * r / n;
        proof {
            // The two summands rebuild the scaled value, so neither can
            // pass the representable range the result is known to keep.
            assert(scaled == (ku as int) * (q as int) + frac);
        }
        let total: u128 = ku * q + frac;
        Fix { bits: total as i128 }
    } else {
        let m: u128 = (-k) as u128;
        proof {
            lemma_mul_upper_bound(m as int, i64::MAX as int, r as int, i64::MAX as int);
            assert((k as int) * (r as int) == -((m as int) * (r as int))) by (nonlinear_arith)
                requires
                    k as int == -(m as int),
            ;
            lemma_neg_div_ceil((m as int) * (r as int), n as int);
            lemma_div_pos_is_pos((m as int) * (r as int) + n as int - 1, n as int);
            assert((k as int) * (q as int) == -((m as int) * (q as int))) by (nonlinear_arith)
                requires
                    k as int == -(m as int),
            ;
            // The fractional part is never positive, so the product part
            // stays at or above the representable scaled result.
            lemma_div_of0(n as int);
            lemma_div_is_ordered((k as int) * (r as int), 0, n as int);
            assert((k as int) * (q as int) <= 0) by (nonlinear_arith)
                requires
                    k as int <= 0,
                    q as int >= 0,
            ;
        }
        let frac: u128 = (m * r + (n - 1)) / n;
        proof {
            assert(scaled == -((m as int) * (q as int) + frac as int));
        }
        let mag: u128 = m * q + frac;
        if mag > i128::MAX as u128 {
            proof {
                assert(scaled == i128::MIN as int);
            }
            Fix { bits: i128::MIN }
        } else {
            Fix { bits: -(mag as i128) }
        }
    }
}

/// Top-left origin of one grid axis from a center origin: half the axis,
/// rounded down, is taken off the center.  The subtraction itself is
/// exact; only the halving of the (nonnegative) dimension rounds.
pub fn corner_from_center(center: i128, dimension: usize) -> (corner: i128)
    requires
        in_range(center as int - (dimension as int) / 2),
    ensures
        corner as int == center as int - (dimension as int) / 2,
{
    let half = (dimension / 2) as i128;
    center - half
}

/// Renders the viewport into `pixels`: for every index below both the
/// buffer length and the grid size `rows * cols`, the stored entry is an
/// output of `store_pixel` on the RGB triple of that pixel; every entry
/// at or past the grid size keeps its old value, so rendering stops
/// exactly at index `rows * cols` when the buffer is longer.
pub fn render<T, F: Fn(u8, u8, u8) -> T>(
    pixels: &mut Vec<T>,
    store_pixel: F,
    step_size: i128,
    start_x: i128,
    cols: usize,
    start_y: i128,
    rows: usize,
)
    requires
        1 <= step_size as int <= i64::MAX as int,
        cols >= 1,
        rows >= 1,
        -(i64::MAX as int) <= start_x as int,
        start_x as int + cols as int - 1 <= i64::MAX as int,
        -(i64::MAX as int) <= start_y as int,
        start_y as int + rows as int - 1 <= i64::MAX as int,
        in_range(spec_project(step_size as int, start_x as int, 0)),
        in_range(spec_project(step_size as int, start_x as int, cols as int - 1)),
        in_range(spec_project(step_size as int, start_y as int, 0)),
        in_range(spec_project(step_size as int, start_y as int, rows as int - 1)),
        forall|r: u8, g: u8, b: u8| call_requires(store_pixel, (r, g, b)),
    ensures
        final(pixels)@.len() == old(pixels)@.len(),
        forall|i: int|
            0 <= i < old(pixels)@.len() && i < cols as int * rows as int ==> call_ensures(
                store_pixel,
                spec_pixel_rgb(step_size as int, start_x as int, cols as int, start_y as int, i),
                #[trigger] final(pixels)@[i],
            ),
        forall|i: int|
            cols as int * rows as int <= i < old(pixels)@.len() ==> #[trigger] final(pixels)@[i]
                == old(pixels)@[i],
{
    let n = pixels.len();
    let mut index: usize = 0;
    while index < n
        invariant_except_break
            1 <= step_size as int <= i64::MAX as int,
            cols >= 1,
            rows >= 1,
            -(i64::MAX as int) <= start_x as int,
            start_x as int + cols as int - 1 <= i64::MAX as int,
            -(i64::MAX as int) <= start_y as int,
            start_y as int + rows as int - 1 <= i64::MAX as int,
            in_range(spec_project(step_size as int, start_x as int, 0)),
            in_range(spec_project(step_size as int, start_x as int, cols as int - 1)),
            in_range(spec_project(step_size as int, start_y as int, 0)),
            in_range(spec_project(step_size as int, start_y as int, rows as int - 1)),
            forall|r: u8, g: u8, b: u8| call_requires(store_pixel, (r, g, b)),
            n == pixels@.len(),
            pixels@.len() == old(pixels)@.len(),
            index <= n,
            index as int <= cols as int * rows as int,
            forall|i: int|
                0 <= i < index as int ==> i < cols as int * rows as int && call_ensures(
                    store_pixel,
                    spec_pixel_rgb(
                        step_size as int,
                        start_x as int,
                        cols as int,
                        start_y as int,
                        i,
                    ),
                    #[trigger] pixels@[i],
                ),
            forall|i: int| index as int <= i < n ==> #[trigger] pixels@[i] == old(pixels)@[i],
        ensures
            pixels@.len() == old(pixels)@.len(),
            forall|i: int|
                0 <= i < old(pixels)@.len() && i < cols as int * rows as int ==> call_ensures(
                    store_pixel,
                    spec_pixel_rgb(
                        step_size as int,
                        start_x as int,
                        cols as int,
                        start_y as int,
                        i,
                    ),
                    #[trigger] pixels@[i],
                ),
            forall|i: int|
                cols as int * rows as int <= i < old(pixels)@.len() ==> #[trigger] pixels@[i]
                    == old(pixels)@[i],
        decreases n - index,
    {
        let x = index % cols;
        let y = index / cols;
        proof {
            lemma_fundamental_div_mod(index as int, cols as int);
            lemma_mod_bound(index as int, cols as int);
        }
        if y >= rows {
            proof {
                lemma_mul_inequality(rows as int, y as int, cols as int);
                lemma_mul_is_commutative(cols as int, y as int);
                lemma_mul_is_commutative(cols as int, rows as int);
            }
            break ;
        }
        proof {
            lemma_scale_monotone(step_size as int, start_x as int, start_x as int + x as int);
            lemma_scale_monotone(
                step_size as int,
                start_x as int + x as int,
                start_x as int + cols as int - 1,
            );
            lemma_scale_monotone(step_size as int, start_y as int, start_y as int + y as int);
            lemma_scale_monotone(
                step_size as int,
                start_y as int + y as int,
                start_y as int + rows as int - 1,
            );
        }
        let px = project(step_size, start_x, x);
        let py = project(step_size, start_y, y);
        let z = calc_z(px, py);
        let (r, g, b) = map_z(z);
        proof {
            assert((index as int) < (cols as int) * (rows as int)) by (nonlinear_arith)
                requires
                    index as int == (cols as int) * (y as int) + (x as int),
                    0 <= (x as int) < (cols as int),
                    0 <= (y as int) < (rows as int),
            ;
        }
        let stored = store_pixel(r, g, b);
        pixels.set(index, stored);
        index += 1;
    }
}

} // verus!
