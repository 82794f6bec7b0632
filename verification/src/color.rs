//! Mapping of iteration counts to RGB triples through a table of bands.
//!
//! The table is an ordered partition of `[0, MAX_ITER]` into contiguous
//! ranges; each range carries one function per channel, either a constant
//! or a linear ramp between two endpoint values.  The ramp value is the
//! exact rational interpolation rounded toward negative infinity and
//! clamped to the 8-bit channel range; inside a well-formed band the
//! clamp never fires.

use vstd::arithmetic::div_mod::{lemma_div_is_ordered, lemma_div_pos_is_pos};
use vstd::arithmetic::mul::lemma_mul_upper_bound;
use vstd::prelude::*;

use crate::fixpoint::lemma_neg_div_ceil;
use crate::MAX_ITER;

verus! {

/// One channel of a band: a constant value, or a linear ramp between two
/// endpoint values proportional to the position within the band.
#[derive(Clone, Copy, PartialEq, Eq, Structural, Debug)]
pub enum ColorFn {
    Const(u8),
    Range(u8, u8),
}

/// One band of the color table: it covers the counts from the previous
/// band's `high` (exclusive; zero-inclusive for the first band) up to its
/// own `high` (inclusive), with one channel function for red, green, blue.
#[derive(Clone, Copy, PartialEq, Eq, Structural, Debug)]
pub struct Band {
    pub high: usize,
    pub r: ColorFn,
    pub g: ColorFn,
    pub b: ColorFn,
}

/// A channel value forced into the 8-bit range.
pub open spec fn clamp_channel(v: int) -> int {
    if v < 0 {
        0
    } else if v > 255 {
        255
    } else {
        v
    }
}

/// Value of a linear ramp from `c0` to `c1` at position `pos` of `steps`:
/// the exact interpolation rounded toward negative infinity and clamped.
/// A zero-width band keeps the starting endpoint on every channel.
pub open spec fn ramp(c0: int, c1: int, pos: int, steps: int) -> int {
    if steps == 0 {
        c0
    } else {
        clamp_channel(c0 + ((c1 - c0) * pos) / steps)
    }
}

/// Value of one channel function at position `pos` of `steps`.
pub open spec fn apply_color(cf: ColorFn, pos: int, steps: int) -> int {
    match cf {
        ColorFn::Const(c) => c as int,
        ColorFn::Range(c0, c1) => ramp(c0 as int, c1 as int, pos, steps),
    }
}

/// Index of the first band at or after `i` whose upper bound reaches `z`,
/// or `-1` when every remaining upper bound lies below `z`.
pub open spec fn find_band(bands: Seq<Band>, z: int, i: int) -> int
    decreases bands.len() - i,
{
    if i < 0 || i >= bands.len() {
        -1
    } else if z <= bands[i].high as int {
        i
    } else {
        find_band(bands, z, i + 1)
    }
}

/// Lower bound of band `i`: the previous band's upper bound, zero for the
/// first band.
pub open spec fn band_low(bands: Seq<Band>, i: int) -> int {
    if i <= 0 {
        0
    } else {
        bands[i - 1].high as int
    }
}

/// First count that band `i` covers: its lower bound is exclusive except
/// for the first band, which also covers zero.
pub open spec fn band_start(bands: Seq<Band>, i: int) -> int {
    if i <= 0 {
        0
    } else {
        bands[i - 1].high as int + 1
    }
}

/// Whether count `z` belongs to band `i` of the table.
pub open spec fn in_band(bands: Seq<Band>, i: int, z: int) -> bool {
    &&& 0 <= i < bands.len()
    &&& band_start(bands, i) <= z
    &&& z <= bands[i].high as int
}

/// The RGB triple of count `z` under a band table: the channels of the
/// first band whose upper bound reaches `z`, each evaluated at the
/// position of `z` within that band; black when no band reaches `z`.
pub open spec fn spec_map_z(bands: Seq<Band>, z: int) -> (int, int, int) {
    let i = find_band(bands, z, 0);
    if i < 0 {
        (0, 0, 0)
    } else {
        let low = band_low(bands, i);
        let steps = bands[i].high as int - low;
        let pos = z - low;
        (
            apply_color(bands[i].r, pos, steps),
            apply_color(bands[i].g, pos, steps),
            apply_color(bands[i].b, pos, steps),
        )
    }
}

/// The band table used for rendering: four bands covering `[0, MAX_ITER]`.
pub open spec fn spec_bands() -> Seq<Band> {
    seq![
        Band { high: 10, r: ColorFn::Const(0), g: ColorFn::Const(0), b: ColorFn::Range(0, 250) },
        Band {
            high: 200,
            r: ColorFn::Range(0, 255),
            g: ColorFn::Range(0, 255),
            b: ColorFn::Const(255),
        },
        Band {
            high: 350,
            r: ColorFn::Range(255, 0),
            g: ColorFn::Const(255),
            b: ColorFn::Range(255, 0),
        },
        Band { high: MAX_ITER, r: ColorFn::Const(0), g: ColorFn::Range(255, 0), b: ColorFn::Const(0) },
    ]
}

/// The RGB triple of count `z` under the rendering table, as channel bytes.
pub open spec fn spec_color(z: int) -> (u8, u8, u8) {
    let rgb = spec_map_z(spec_bands(), z);
    (rgb.0 as u8, rgb.1 as u8, rgb.2 as u8)
}

/// The rendering band table as a vector.
pub fn color_bands() -> (bands: Vec<Band>)
    ensures
        bands@ == spec_bands(),
{
    let mut v: Vec<Band> = Vec::new();
    v.push(Band { high: 10, r: ColorFn::Const(0), g: ColorFn::Const(0), b: ColorFn::Range(0, 250) });
    v.push(
        Band {
            high: 200,
            r: ColorFn::Range(0, 255),
            g: ColorFn::Range(0, 255),
            b: ColorFn::Const(255),
        },
    );
    v.push(
        Band {
            high: 350,
            r: ColorFn::Range(255, 0),
            g: ColorFn::Const(255),
            b: ColorFn::Range(255, 0),
        },
    );
    v.push(
        Band { high: MAX_ITER, r: ColorFn::Const(0), g: ColorFn::Range(255, 0), b: ColorFn::Const(0) },
    );
    proof {
        assert(v@ =~= spec_bands());
    }
    v
}

/// The product of a band position and a channel difference stays far
/// below the 128-bit unsigned range.
proof fn lemma_pos_byte_product_small(pos: int, d: int)
    requires
        0 <= pos <= usize::MAX as int,
        0 <= d <= 255,
    ensures
        0 <= d * pos <= 255 * (usize::MAX as int),
        255 * (usize::MAX as int) + (usize::MAX as int) < u128::MAX as int,
{
    lemma_mul_upper_bound(d, 255, pos, usize::MAX as int);
    vstd::arithmetic::mul::lemma_mul_nonnegative(d, pos);
    assert(usize::MAX as int <= u64::MAX as int);
}

/// Evaluates one channel function at a position within a band, exactly as
/// `apply_color` states it.  Total: a position beyond the band width only
/// drives the ramp into its clamp.
pub fn map_color(range_info: (usize, usize), color_fn: ColorFn) -> (c: u8)
    ensures
        c as int == apply_color(color_fn, range_info.0 as int, range_info.1 as int),
{
    match color_fn {
        ColorFn::Const(c0) => c0,
        ColorFn::Range(c0, c1) => {
            let (pos, steps) = range_info;
            if steps == 0 {
                return c0;
            }
            if c1 >= c0 {
                proof {
                    lemma_pos_byte_product_small(pos as int, (c1 - c0) as int);
                }
                let num: u128 = ((c1 - c0) as u128) * (pos as u128);
                let d: u128 = num / (steps as u128);
                proof {
                    lemma_div_pos_is_pos(num as int, steps as int);
                }
                let sum: u128 = if d > 255 {
                    256
                } else {
                    (c0 as u128) + d
                };
                if sum > 255 {
                    255
                } else {
                    sum as u8
                }
            } else {
                proof {
                    lemma_pos_byte_product_small(pos as int, (c0 - c1) as int);
                }
                let num: u128 = ((c0 - c1) as u128) * (pos as u128);
                let s: u128 = steps as u128;
                let d: u128 = (num + s - 1) / s;
                proof {
                    lemma_neg_div_ceil(num as int, s as int);
                    lemma_div_pos_is_pos((num + s - 1) as int, s as int);
                    assert((c1 as int - c0 as int) * (pos as int) == -(num as int))
                        by (nonlinear_arith)
                        requires
                            num as int == (c0 as int - c1 as int) * (pos as int),
                    ;
                }
                if d >= c0 as u128 {
                    0
                } else {
                    c0 - (d as u8)
                }
            }
        },
    }
}

/// Maps an iteration count to its RGB triple under the rendering table.
pub fn map_z(z: usize) -> (rgb: (u8, u8, u8))
    ensures
        rgb == spec_color(z as int),
{
    let bands = color_bands();
    let mut low: usize = 0;
    let mut i: usize = 0;
    while i < bands.len()
        invariant
            bands@ == spec_bands(),
            i <= bands.len(),
            low == band_low(bands@, i as int),
            low <= z,
            find_band(bands@, z as int, 0) == find_band(bands@, z as int, i as int),
        decreases bands.len() - i,
    {
        let band = bands[i];
        if z <= band.high {
            let steps = band.high - low;
            let pos = z - low;
            let r = map_color((pos, steps), band.r);
            let g = map_color((pos, steps), band.g);
            let b = map_color((pos, steps), band.b);
            proof {
                lemma_channel_byte(band.r, pos as int, steps as int);
                lemma_channel_byte(band.g, pos as int, steps as int);
                lemma_channel_byte(band.b, pos as int, steps as int);
            }
            return (r, g, b);
        }
        low = band.high;
        i += 1;
    }
    (0, 0, 0)
}

/// Every channel function yields a value in the 8-bit range.
proof fn lemma_channel_byte(cf: ColorFn, pos: int, steps: int)
    ensures
        0 <= apply_color(cf, pos, steps) <= 255,
{
}

/// A band table is well formed when it is nonempty and its upper bounds
/// rise strictly, so the bands are sorted, non-overlapping, and together
/// cover `[0, last.high]` exactly once.
pub open spec fn bands_wf(bands: Seq<Band>) -> bool {
    &&& bands.len() > 0
    &&& forall|i: int, j: int|
        0 <= i < j < bands.len() ==> (#[trigger] bands[i].high) < (#[trigger] bands[j].high)
}

/// The scan from `k` lands on a band that contains `z`, provided `z` lies
/// at or after the start of band `k` and within the table's overall range.
proof fn lemma_find_band_from(bands: Seq<Band>, z: int, k: int)
    requires
        bands_wf(bands),
        0 <= k < bands.len(),
        band_start(bands, k) <= z,
        z <= bands.last().high as int,
    ensures
        in_band(bands, find_band(bands, z, k), z),
        find_band(bands, z, k) >= k,
    decreases bands.len() - k,
{
    if z <= bands[k].high as int {
    } else {
        assert(k < bands.len() - 1) by {
            if k == bands.len() - 1 {
                assert(bands.last() == bands[k]);
            }
        }
        lemma_find_band_from(bands, z, k + 1);
    }
}

/// Every count in the covered range selects exactly one band, and the
/// selection never falls through to the defensive fallback.
pub proof fn lemma_band_coverage(bands: Seq<Band>, z: int)
    requires
        bands_wf(bands),
        0 <= z,
        z <= bands.last().high as int,
    ensures
        in_band(bands, find_band(bands, z, 0), z),
        forall|j: int| in_band(bands, j, z) ==> j == find_band(bands, z, 0),
{
    lemma_find_band_from(bands, z, 0);
    let i = find_band(bands, z, 0);
    assert forall|j: int| in_band(bands, j, z) implies j == i by {
        if j < i {
            assert(bands[j].high <= bands[i - 1].high);
            assert(z >= band_start(bands, i));
        }
        if j > i {
            assert(bands[i].high <= bands[j - 1].high);
            assert(z >= band_start(bands, j));
        }
    }
}

/// The rendering table is well formed and its last bound is the iteration
/// maximum, so the fallback is unreachable for counts the evaluator emits.
pub proof fn lemma_default_bands_wf()
    ensures
        bands_wf(spec_bands()),
        spec_bands().last().high == MAX_ITER,
{
    let bands = spec_bands();
    assert forall|i: int, j: int|
        0 <= i < j < bands.len() implies (#[trigger] bands[i].high) < (#[trigger] bands[j].high) by {
        assert(bands[0].high == 10);
        assert(bands[1].high == 200);
        assert(bands[2].high == 350);
        assert(bands[3].high == MAX_ITER);
    }
}

/// Every count the evaluator can emit selects exactly one band of the
/// rendering table; the defensive fallback is out of reach for them.
pub proof fn lemma_default_coverage(z: int)
    requires
        0 <= z <= MAX_ITER,
    ensures
        in_band(spec_bands(), find_band(spec_bands(), z, 0), z),
        forall|j: int| in_band(spec_bands(), j, z) ==> j == find_band(spec_bands(), z, 0),
{
    lemma_default_bands_wf();
    lemma_band_coverage(spec_bands(), z);
}

/// Every color the table yields keeps each channel inside `[0, 255]`, for
/// every table and every count; the result depends on nothing but them.
pub proof fn lemma_color_in_range(bands: Seq<Band>, z: int)
    ensures
        0 <= spec_map_z(bands, z).0 <= 255,
        0 <= spec_map_z(bands, z).1 <= 255,
        0 <= spec_map_z(bands, z).2 <= 255,
{
    let i = find_band(bands, z, 0);
    if i >= 0 {
        let low = band_low(bands, i);
        let steps = bands[i].high as int - low;
        lemma_channel_byte(bands[i].r, z - low, steps);
        lemma_channel_byte(bands[i].g, z - low, steps);
        lemma_channel_byte(bands[i].b, z - low, steps);
    }
}

/// A ramp moves monotonically with the position inside its band: upward
/// when its endpoints rise, downward when they fall.
pub proof fn lemma_ramp_monotone(c0: int, c1: int, steps: int, p1: int, p2: int)
    requires
        0 <= p1 <= p2 <= steps,
    ensures
        c0 <= c1 ==> ramp(c0, c1, p1, steps) <= ramp(c0, c1, p2, steps),
        c1 <= c0 ==> ramp(c0, c1, p2, steps) <= ramp(c0, c1, p1, steps),
{
    if steps != 0 {
        if c0 <= c1 {
            assert((c1 - c0) * p1 <= (c1 - c0) * p2) by (nonlinear_arith)
                requires
                    p1 <= p2,
                    c0 <= c1,
            ;
            lemma_div_is_ordered((c1 - c0) * p1, (c1 - c0) * p2, steps);
        }
        if c1 <= c0 {
            assert((c1 - c0) * p2 <= (c1 - c0) * p1) by (nonlinear_arith)
                requires
                    p1 <= p2,
                    c1 <= c0,
            ;
            lemma_div_is_ordered((c1 - c0) * p2, (c1 - c0) * p1, steps);
        }
    }
}

/// Within one band, the color of a larger count never moves a ramped
/// channel against the direction of its endpoints.
pub proof fn lemma_color_monotone_in_band(bands: Seq<Band>, z1: int, z2: int)
    requires
        bands_wf(bands),
        0 <= z1 <= z2,
        z2 <= bands.last().high as int,
        find_band(bands, z1, 0) == find_band(bands, z2, 0),
    ensures
        ({
            let i = find_band(bands, z1, 0);
            &&& (bands[i].r matches ColorFn::Range(c0, c1) && c0 <= c1 ==> spec_map_z(bands, z1).0
                <= spec_map_z(bands, z2).0)
            &&& (bands[i].r matches ColorFn::Range(c0, c1) && c1 <= c0 ==> spec_map_z(bands, z2).0
                <= spec_map_z(bands, z1).0)
            &&& (bands[i].g matches ColorFn::Range(c0, c1) && c0 <= c1 ==> spec_map_z(bands, z1).1
                <= spec_map_z(bands, z2).1)
            &&& (bands[i].g matches ColorFn::Range(c0, c1) && c1 <= c0 ==> spec_map_z(bands, z2).1
                <= spec_map_z(bands, z1).1)
            &&& (bands[i].b matches ColorFn::Range(c0, c1) && c0 <= c1 ==> spec_map_z(bands, z1).2
                <= spec_map_z(bands, z2).2)
            &&& (bands[i].b matches ColorFn::Range(c0, c1) && c1 <= c0 ==> spec_map_z(bands, z2).2
                <= spec_map_z(bands, z1).2)
        }),
{
    lemma_band_coverage(bands, z1);
    lemma_band_coverage(bands, z2);
    let i = find_band(bands, z1, 0);
    let low = band_low(bands, i);
    let steps = bands[i].high as int - low;
    match bands[i].r {
        ColorFn::Const(_) => {},
        ColorFn::Range(c0, c1) => {
            lemma_ramp_monotone(c0 as int, c1 as int, steps, z1 - low, z2 - low);
        },
    }
    match bands[i].g {
        ColorFn::Const(_) => {},
        ColorFn::Range(c0, c1) => {
            lemma_ramp_monotone(c0 as int, c1 as int, steps, z1 - low, z2 - low);
        },
    }
    match bands[i].b {
        ColorFn::Const(_) => {},
        ColorFn::Range(c0, c1) => {
            lemma_ramp_monotone(c0 as int, c1 as int, steps, z1 - low, z2 - low);
        },
    }
}

} // verus!
