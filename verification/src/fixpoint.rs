//! Signed fixed-point samples with 123 fractional bits in a 128-bit word.
//!
//! A plane coordinate is carried as its raw bit pattern: the real value of
//! a sample is `bits / 2^123`.  All arithmetic on samples is checked:
//! every operation reports overflow instead of wrapping or panicking.

use vstd::arithmetic::div_mod::{
    lemma_div_multiples_vanish_fancy, lemma_fundamental_div_mod, lemma_mod_bound,
};
use vstd::prelude::*;

verus! {

/// Bit pattern of the sample of value one: `2^123`.
pub const FRAC_ONE: i128 = 0x0800_0000_0000_0000_0000_0000_0000_0000;

/// Bit pattern of the sample of value two: `2^124`.
pub const FRAC_TWO: i128 = 0x1000_0000_0000_0000_0000_0000_0000_0000;

/// A fixed-point plane coordinate; its real value is `bits / 2^123`.
#[derive(Clone, Copy, PartialEq, Eq, Structural, Debug)]
pub struct Fix {
    pub bits: i128,
}

/// Whether a mathematical integer fits the 128-bit signed bit pattern.
pub open spec fn in_range(x: int) -> bool {
    i128::MIN as int <= x <= i128::MAX as int
}

/// Bit pattern of the fixed-point product of two bit patterns: the exact
/// integer product scaled back down, rounded toward negative infinity.
pub open spec fn fmul(a: int, b: int) -> int {
    (a * b) / (FRAC_ONE as int)
}

/// Whether the fixed-point product of two bit patterns is representable.
pub open spec fn mul_ok(a: int, b: int) -> bool {
    in_range(fmul(a, b))
}

/// Whether the sum of two bit patterns is representable.
pub open spec fn add_ok(a: int, b: int) -> bool {
    in_range(a + b)
}

/// Whether the difference of two bit patterns is representable.
pub open spec fn sub_ok(a: int, b: int) -> bool {
    in_range(a - b)
}

/// Relies on `fixed::FixedI128::<U123>::checked_mul`: it forms the exact
/// 256-bit product of the two bit patterns, shifts it right arithmetically
/// by the 123 fractional bits (so rounding toward negative infinity), and
/// returns `None` exactly when that shifted product does not fit the
/// 128-bit signed range.
#[verifier::external_body]
pub(crate) fn mul_safe(a: Fix, b: Fix) -> (r: Option<Fix>)
    ensures
        mul_ok(a.bits as int, b.bits as int) ==> r == Some(
            (Fix { bits: fmul(a.bits as int, b.bits as int) as i128 }),
        ),
        !mul_ok(a.bits as int, b.bits as int) ==> r is None,
{
    let x = fixed::FixedI128::<fixed::types::extra::U123>::from_bits(a.bits);
    let y = fixed::FixedI128::<fixed::types::extra::U123>::from_bits(b.bits);
    match x.checked_mul(y) {
        Some(p) => Some(Fix { bits: p.to_bits() }),
        None => None,
    }
}

/// Checked squaring; sign never matters for a square, and overflow is
/// reported as `None` like in every other checked operation.
pub fn sq_safe(a: Fix) -> (r: Option<Fix>)
    ensures
        mul_ok(a.bits as int, a.bits as int) ==> r == Some(
            (Fix { bits: fmul(a.bits as int, a.bits as int) as i128 }),
        ),
        !mul_ok(a.bits as int, a.bits as int) ==> r is None,
{
    mul_safe(a, a)
}

/// Checked addition of two samples: bit patterns add directly.
pub fn add_safe(a: Fix, b: Fix) -> (r: Option<Fix>)
    ensures
        add_ok(a.bits as int, b.bits as int) ==> r == Some(
            (Fix { bits: (a.bits + b.bits) as i128 }),
        ),
        !add_ok(a.bits as int, b.bits as int) ==> r is None,
{
    if b.bits >= 0 {
        if a.bits <= i128::MAX - b.bits {
            Some(Fix { bits: a.bits + b.bits })
        } else {
            None
        }
    } else {
        if a.bits >= i128::MIN - b.bits {
            Some(Fix { bits: a.bits + b.bits })
        } else {
            None
        }
    }
}

/// Rounding toward negative infinity turns a nonnegative numerator with a
/// negated sign into a negated ceiling.
pub(crate) proof fn lemma_neg_div_ceil(num: int, steps: int)
    requires
        num >= 0,
        steps > 0,
    ensures
        (-num) / steps == -((num + steps - 1) / steps),
{
    let q = num / steps;
    let r = num % steps;
    lemma_fundamental_div_mod(num, steps);
    lemma_mod_bound(num, steps);
    if r == 0 {
        assert(num + steps - 1 == steps * q + (steps - 1));
        lemma_div_multiples_vanish_fancy(q, steps - 1, steps);
        assert(-num == steps * (-q) + 0) by (nonlinear_arith)
            requires
                num == steps * q,
        ;
        lemma_div_multiples_vanish_fancy(-q, 0, steps);
    } else {
        assert(num + steps - 1 == steps * (q + 1) + (r - 1)) by (nonlinear_arith)
            requires
                num == steps * q + r,
        ;
        lemma_div_multiples_vanish_fancy(q + 1, r - 1, steps);
        assert(-num == steps * (-q - 1) + (steps - r)) by (nonlinear_arith)
            requires
                num == steps * q + r,
        ;
        lemma_div_multiples_vanish_fancy(-q - 1, steps - r, steps);
    }
}

/// Checked subtraction of two samples: bit patterns subtract directly.
pub fn sub_safe(a: Fix, b: Fix) -> (r: Option<Fix>)
    ensures
        sub_ok(a.bits as int, b.bits as int) ==> r == Some(
            (Fix { bits: (a.bits - b.bits) as i128 }),
        ),
        !sub_ok(a.bits as int, b.bits as int) ==> r is None,
{
    if b.bits <= 0 {
        if a.bits <= i128::MAX + b.bits {
            Some(Fix { bits: a.bits - b.bits })
        } else {
            None
        }
    } else {
        if a.bits >= i128::MIN + b.bits {
            Some(Fix { bits: a.bits - b.bits })
        } else {
            None
        }
    }
}

} // verus!
