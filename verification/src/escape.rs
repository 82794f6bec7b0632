//! The escape-time evaluator: iterates `z <- z * z + c` from `z = c` and
//! counts the steps until the squared magnitude leaves the clamp or the
//! iteration bound is reached.
//!
//! Every multiplication, addition and subtraction of the recurrence is
//! checked; an overflow is classified as an escape at the current count,
//! never surfaced as an error and never a panic.

use vstd::arithmetic::div_mod::{lemma_div_is_ordered, lemma_div_multiples_vanish};
use vstd::arithmetic::mul::{lemma_mul_by_zero_is_zero, lemma_mul_inequality};
use vstd::prelude::*;

use crate::fixpoint::{
    add_ok, add_safe, fmul, in_range, mul_ok, mul_safe, sq_safe, sub_ok, sub_safe, Fix, FRAC_ONE,
    FRAC_TWO,
};
use crate::MAX_ITER;

verus! {

/// A sample of the complex plane, both parts fixed-point coordinates.
#[derive(Clone, Copy, PartialEq, Eq, Structural, Debug)]
pub struct Complex {
    pub re: Fix,
    pub im: Fix,
}

/// The pair of bit patterns of a sample.
pub open spec fn complex_bits(w: Complex) -> (int, int) {
    (w.re.bits as int, w.im.bits as int)
}

/// The bit patterns of a sample that may already have overflowed.
pub open spec fn opt_bits(z: Option<Complex>) -> Option<(int, int)> {
    match z {
        Some(w) => Some(complex_bits(w)),
        None => None,
    }
}

/// One step of the recurrence on bit patterns: `z * z + c` with every
/// operation checked, `None` as soon as one of them overflows.  The cross
/// term is `re * (im * 2)`, exactly as the evaluator computes it.
pub open spec fn spec_iter_z(z: (int, int), c: (int, int)) -> Option<(int, int)> {
    if !mul_ok(z.0, z.0) {
        None
    } else if !mul_ok(z.1, z.1) {
        None
    } else if !sub_ok(fmul(z.0, z.0), fmul(z.1, z.1)) {
        None
    } else if !mul_ok(z.1, FRAC_TWO as int) {
        None
    } else if !mul_ok(z.0, fmul(z.1, FRAC_TWO as int)) {
        None
    } else {
        let sre = fmul(z.0, z.0) - fmul(z.1, z.1);
        let sim = fmul(z.0, fmul(z.1, FRAC_TWO as int));
        if !add_ok(sre, c.0) {
            None
        } else if !add_ok(sim, c.1) {
            None
        } else {
            Some((sre + c.0, sim + c.1))
        }
    }
}

/// One step of the recurrence from a state that may have overflowed.
pub open spec fn spec_step(z: Option<(int, int)>, c: (int, int)) -> Option<(int, int)> {
    match z {
        Some(p) => spec_iter_z(p, c),
        None => None,
    }
}

/// Squared magnitude of a sample in bit patterns, `None` on overflow.
pub open spec fn spec_norm_square(z: (int, int)) -> Option<int> {
    if !mul_ok(z.1, z.1) {
        None
    } else if !mul_ok(z.0, z.0) {
        None
    } else if !add_ok(fmul(z.0, z.0), fmul(z.1, z.1)) {
        None
    } else {
        Some(fmul(z.0, z.0) + fmul(z.1, z.1))
    }
}

/// Whether a state is still bounded: its squared magnitude exists and
/// stays at or below the clamp.  An overflowed state never is.
pub open spec fn spec_clamp_norm(z: Option<(int, int)>, clamp: int) -> bool {
    match z {
        None => false,
        Some(p) => match spec_norm_square(p) {
            None => false,
            Some(n) => n <= clamp,
        },
    }
}

/// The count the evaluator reports from state `z` after `i` completed
/// steps with `fuel` steps left: it steps, stops at the current count as
/// soon as the stepped state is no longer bounded, and otherwise goes on.
pub open spec fn spec_escape_from(z: Option<(int, int)>, c: (int, int), i: nat, fuel: nat) -> nat
    decreases fuel,
{
    if fuel == 0 {
        i
    } else {
        let z1 = spec_step(z, c);
        if !spec_clamp_norm(z1, FRAC_TWO as int) {
            i
        } else {
            spec_escape_from(z1, c, (i + 1) as nat, (fuel - 1) as nat)
        }
    }
}

/// The escape time of the plane point with bit patterns `(re, im)`.
pub open spec fn spec_calc_z(re: int, im: int) -> nat {
    spec_escape_from(Some((re, im)), (re, im), 0, MAX_ITER as nat)
}

/// One checked step of the recurrence.
pub fn iter_z(opt_lz: Option<Complex>, c: Complex) -> (r: Option<Complex>)
    ensures
        opt_bits(r) == spec_step(opt_bits(opt_lz), complex_bits(c)),
{
    let lz = opt_lz?;
    let sre = sub_safe(sq_safe(lz.re)?, sq_safe(lz.im)?)?;
    let sim = mul_safe(lz.re, mul_safe(lz.im, Fix { bits: FRAC_TWO })?)?;
    Some(Complex { re: add_safe(sre, c.re)?, im: add_safe(sim, c.im)? })
}

/// Checked squared magnitude of a sample that may have overflowed.
pub fn norm_square(o: Option<Complex>) -> (r: Option<Fix>)
    ensures
        ({
            let n = match opt_bits(o) {
                Some(p) => spec_norm_square(p),
                None => None,
            };
            match n {
                None => r is None,
                Some(v) => r == Some((Fix { bits: v as i128 })),
            }
        }),
{
    let lz = o?;
    let im = mul_safe(lz.im, lz.im)?;
    add_safe(sq_safe(lz.re)?, im)
}

/// Whether a stepped sample is still bounded by the clamp.
pub fn clamp_norm(opt_lz: Option<Complex>, clamp: Fix) -> (ok: bool)
    ensures
        ok == spec_clamp_norm(opt_bits(opt_lz), clamp.bits as int),
{
    match norm_square(opt_lz) {
        Some(n) => n.bits <= clamp.bits,
        None => false,
    }
}

/// The escape time of the plane point `(re, im)`: the number of checked
/// recurrence steps before the squared magnitude passes the clamp of two
/// or an operation overflows, at most `MAX_ITER`.  Total: no input can
/// make it panic.
pub fn calc_z(re: Fix, im: Fix) -> (count: usize)
    ensures
        count as nat == spec_calc_z(re.bits as int, im.bits as int),
        count <= MAX_ITER,
{
    let clamp = Fix { bits: FRAC_TWO };
    let c = Complex { re, im };
    let ghost cc = complex_bits(c);
    let mut i: usize = 0;
    let mut z: Option<Complex> = Some(c);
    while i < MAX_ITER
        invariant_except_break
            cc == complex_bits(c),
            c == (Complex { re, im }),
            clamp.bits == FRAC_TWO,
            i <= MAX_ITER,
            spec_calc_z(re.bits as int, im.bits as int) == spec_escape_from(
                opt_bits(z),
                cc,
                i as nat,
                (MAX_ITER - i) as nat,
            ),
        ensures
            spec_calc_z(re.bits as int, im.bits as int) == i as nat,
            i <= MAX_ITER,
        decreases MAX_ITER - i,
    {
        let ghost z0 = opt_bits(z);
        z = iter_z(z, c);
        if !clamp_norm(z, clamp) {
            proof {
                assert(spec_escape_from(z0, cc, i as nat, (MAX_ITER - i) as nat) == i as nat);
            }
            break ;
        }
        proof {
            assert(spec_escape_from(z0, cc, i as nat, (MAX_ITER - i) as nat) == spec_escape_from(
                opt_bits(z),
                cc,
                (i + 1) as nat,
                (MAX_ITER - i - 1) as nat,
            ));
        }
        i += 1;
    }
    i
}

/// A square grows at least linearly past the clamp: once `|a|` reaches
/// the fixed-point two, the fixed-point square of `a` is at least twice
/// `a` and at least twice `-a`.
proof fn lemma_fmul_square_large(a: int)
    requires
        FRAC_TWO as int <= a || a <= -(FRAC_TWO as int),
    ensures
        fmul(a, a) >= 2 * a,
        fmul(a, a) >= -2 * a,
{
    let f = FRAC_ONE as int;
    let t = FRAC_TWO as int;
    if a >= t {
        lemma_mul_inequality(t, a, a);
        assert(t * a == f * (2 * a)) by (nonlinear_arith)
            requires
                t == 2 * f,
        ;
        lemma_div_is_ordered(f * (2 * a), a * a, f);
        lemma_div_multiples_vanish(2 * a, f);
    } else {
        let b = -a;
        lemma_mul_inequality(t, b, b);
        assert(b * b == a * a) by (nonlinear_arith)
            requires
                b == -a,
        ;
        assert(t * b == f * (2 * b)) by (nonlinear_arith)
            requires
                t == 2 * f,
        ;
        lemma_div_is_ordered(f * (2 * b), a * a, f);
        lemma_div_multiples_vanish(2 * b, f);
    }
}

/// The origin never escapes: the recurrence is stationary at zero, so the
/// evaluator runs out its whole budget.
proof fn lemma_zero_escape_from(i: nat, fuel: nat)
    ensures
        spec_escape_from(Some((0, 0)), (0, 0), i, fuel) == i + fuel,
    decreases fuel,
{
    if fuel != 0 {
        lemma_mul_by_zero_is_zero(0);
        assert(fmul(0, 0) == 0) by {
            lemma_div_multiples_vanish(0, FRAC_ONE as int);
        }
        assert(fmul(0, FRAC_TWO as int) == 0) by {
            lemma_mul_by_zero_is_zero(FRAC_TWO as int);
            lemma_div_multiples_vanish(0, FRAC_ONE as int);
        }
        assert(spec_iter_z((0, 0), (0, 0)) == Some((0int, 0int)));
        lemma_zero_escape_from((i + 1) as nat, (fuel - 1) as nat);
    }
}

/// A point strictly inside the set, the origin itself, reports the full
/// iteration bound: it is classified as bounded.
pub proof fn lemma_origin_in_set()
    ensures
        spec_calc_z(0, 0) == MAX_ITER,
{
    lemma_zero_escape_from(0, MAX_ITER as nat);
}

/// The point minus one cycles between minus one and zero: every step of
/// its orbit stays well under the clamp, so each unit of fuel turns into
/// one more counted iteration, from either state of the cycle.
proof fn lemma_minus_one_cycle(i: nat, fuel: nat)
    ensures
        spec_escape_from(Some((-(FRAC_ONE as int), 0)), (-(FRAC_ONE as int), 0), i, fuel) == i
            + fuel,
        spec_escape_from(Some((0, 0)), (-(FRAC_ONE as int), 0), i, fuel) == i + fuel,
    decreases fuel,
{
    let f = FRAC_ONE as int;
    if fuel != 0 {
        assert(fmul(0, 0) == 0) by {
            lemma_mul_by_zero_is_zero(0);
            lemma_div_multiples_vanish(0, f);
        }
        assert(fmul(0, FRAC_TWO as int) == 0) by {
            lemma_mul_by_zero_is_zero(FRAC_TWO as int);
            lemma_div_multiples_vanish(0, f);
        }
        assert(fmul(-f, 0) == 0) by {
            lemma_mul_by_zero_is_zero(-f);
            lemma_div_multiples_vanish(0, f);
        }
        assert(fmul(-f, -f) == f) by {
            assert((-f) * (-f) == f * f) by (nonlinear_arith);
            lemma_div_multiples_vanish(f, f);
        }
        assert(spec_iter_z((-f, 0), (-f, 0)) == Some((0int, 0int)));
        assert(spec_iter_z((0, 0), (-f, 0)) == Some((-f, 0int)));
        lemma_minus_one_cycle((i + 1) as nat, (fuel - 1) as nat);
    }
}

/// A second point strictly inside the set, minus one on the real axis,
/// also reports the full iteration bound.
pub proof fn lemma_minus_one_in_set()
    ensures
        spec_calc_z(-(FRAC_ONE as int), 0) == MAX_ITER,
{
    lemma_minus_one_cycle(0, MAX_ITER as nat);
}

/// A point of the real axis whose magnitude is at least two escapes with
/// count zero: the very first step drives the squared magnitude past the
/// clamp, or past the representable range, which counts as an escape too.
pub proof fn lemma_real_axis_escapes(re: int)
    requires
        in_range(re),
        FRAC_TWO as int <= re || re <= -(FRAC_TWO as int),
    ensures
        spec_calc_z(re, 0) == 0,
{
    let f = FRAC_ONE as int;
    let t = FRAC_TWO as int;
    assert(fmul(0, 0) == 0) by {
        lemma_mul_by_zero_is_zero(0);
        lemma_div_multiples_vanish(0, f);
    }
    assert(fmul(0, t) == 0) by {
        lemma_mul_by_zero_is_zero(t);
        lemma_div_multiples_vanish(0, f);
    }
    if mul_ok(re, re) {
        let s = fmul(re, re);
        lemma_fmul_square_large(re);
        assert(fmul(re, fmul(0, t)) == 0) by {
            lemma_mul_by_zero_is_zero(re);
            lemma_div_multiples_vanish(0, f);
        }
        if add_ok(s, re) {
            let z1re = s + re;
            assert(z1re >= t);
            lemma_fmul_square_large(z1re);
            if mul_ok(z1re, z1re) {
                assert(fmul(z1re, z1re) > t);
                assert(!spec_clamp_norm(spec_iter_z((re, 0), (re, 0)), t));
            }
        }
    }
}

} // verus!
