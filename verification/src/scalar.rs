//! The numbers of the engine: single precision for everything a particle
//! has, double precision for the clock. A number is held as its bit pattern.

use crate::arith::{divide, from_integer, is_less, minus, plus, times};
use crate::format::lemma_scaled_order;
use crate::arith::lemma_scaled_zero;
use crate::rounding::{lemma_nearest_bounds, lemma_nearest_zero, nearest};
use crate::format::{double, single, Format};
use vstd::arithmetic::power2::*;
use vstd::prelude::*;

verus! {

/// 0.0
pub const ZERO: u32 = 0;

/// 0.5
pub const HALF: u32 = 0x3f00_0000;

/// 1.0
pub const ONE: u32 = 0x3f80_0000;

/// The single-precision format.
pub open spec fn binary32() -> Format {
    Format { frac_bits: 23, exp_bits: 8 }
}

/// The double-precision format.
pub open spec fn binary64() -> Format {
    Format { frac_bits: 52, exp_bits: 11 }
}

/// `a + b` in single precision.
pub open spec fn sum(a: u32, b: u32) -> u32 {
    binary32().sum(a as u64, b as u64) as u32
}

/// `a - b` in single precision.
pub open spec fn difference(a: u32, b: u32) -> u32 {
    binary32().difference(a as u64, b as u64) as u32
}

/// `a * b` in single precision.
pub open spec fn product(a: u32, b: u32) -> u32 {
    binary32().product(a as u64, b as u64) as u32
}

/// `a / b` in single precision.
pub open spec fn quotient(a: u32, b: u32) -> u32 {
    binary32().quotient(a as u64, b as u64) as u32
}

/// `a < b` in single precision.
pub open spec fn less(a: u32, b: u32) -> bool {
    binary32().less(a as u64, b as u64)
}

/// `a + b` in double precision.
pub open spec fn sum64(a: u64, b: u64) -> u64 {
    binary64().sum(a, b) as u64
}

/// Every 32-bit pattern is one of the single-precision format, and every
/// 64-bit pattern one of the double-precision format.
pub proof fn lemma_patterns(a: u32, b: u64)
    ensures
        binary32().valid(),
        binary64().valid(),
        binary32().encodes(a as u64),
        binary64().encodes(b),
        binary32().sign_unit() == 0x8000_0000,
        binary64().sign_unit() == 0x8000_0000_0000_0000,
{
    lemma2_to64();
    lemma2_to64_rest();
}

/// `a + b` in single precision.
pub fn add32(a: u32, b: u32) -> (r: u32)
    ensures
        r == sum(a, b),
{
    proof {
        lemma_patterns(a, 0);
        lemma_patterns(b, 0);
    }
    plus(single(), a as u64, b as u64) as u32
}

/// `a - b` in single precision.
pub fn sub32(a: u32, b: u32) -> (r: u32)
    ensures
        r == difference(a, b),
{
    proof {
        lemma_patterns(a, 0);
        lemma_patterns(b, 0);
    }
    minus(single(), a as u64, b as u64) as u32
}

/// `a * b` in single precision.
pub fn mul32(a: u32, b: u32) -> (r: u32)
    ensures
        r == product(a, b),
{
    proof {
        lemma_patterns(a, 0);
        lemma_patterns(b, 0);
    }
    times(single(), a as u64, b as u64) as u32
}

/// `a / b` in single precision.
pub fn div32(a: u32, b: u32) -> (r: u32)
    ensures
        r == quotient(a, b),
{
    proof {
        lemma_patterns(a, 0);
        lemma_patterns(b, 0);
    }
    divide(single(), a as u64, b as u64) as u32
}

/// `a < b` in single precision.
pub fn lt32(a: u32, b: u32) -> (r: bool)
    ensures
        r == less(a, b),
{
    proof {
        lemma_patterns(a, 0);
        lemma_patterns(b, 0);
    }
    is_less(single(), a as u64, b as u64)
}

/// `a + b` in double precision.
pub fn add64(a: u64, b: u64) -> (r: u64)
    ensures
        r == sum64(a, b),
{
    proof {
        lemma_patterns(0, a);
        lemma_patterns(0, b);
    }
    plus(double(), a, b)
}


/// The single-precision number nearest to a non-negative integer.
pub open spec fn of_integer(n: u64) -> u32 {
    nearest(binary32(), n as nat * pow2(149), 1) as u32
}

/// The single-precision number nearest to a non-negative integer.
pub fn single_from(n: u64) -> (r: u32)
    ensures
        r == of_integer(n),
{
    proof {
        lemma_patterns(0, 0);
        lemma2_to64();
        assert(binary32().scale() == 149);
    }
    from_integer(single(), n) as u32
}


/// Positive infinity in single precision. The patterns below it are the
/// finite numbers that are not negative.
pub const INFINITY: u32 = 0x7f80_0000;

/// The number that a single-precision pattern without a sign stands for, in
/// units of `2^-149`.
pub open spec fn size(a: u32) -> nat {
    binary32().scaled(a as nat)
}

/// `low <= v < high` as numbers.
pub open spec fn within(v: u32, low: u32, high: u32) -> bool {
    &&& !binary32().is_nan(v as u64)
    &&& binary32().value(low as u64) <= binary32().value(v as u64) < binary32().value(high as u64)
}

/// The constants of the single-precision format.
pub proof fn lemma_binary32()
    ensures
        binary32().valid(),
        binary32().hidden() == 0x80_0000,
        binary32().inf() == 0x7f80_0000,
        binary32().sign_unit() == 0x8000_0000,
        binary32().scale() == 149,
        size(0) == 0,
{
    lemma2_to64();
    lemma_scaled_zero(binary32());
}

/// The sum of two finite numbers that are not negative is their exact sum,
/// rounded.
pub proof fn lemma_sum_positive(a: u32, b: u32)
    requires
        a < INFINITY,
        b < INFINITY,
    ensures
        sum(a, b) == nearest(binary32(), size(a) + size(b), 1),
        sum(a, b) <= INFINITY,
{
    lemma_binary32();
    lemma_nearest_zero(binary32(), 1);
    lemma_nearest_bounds(binary32(), size(a) + size(b), 1);
}

/// The difference of two finite numbers that are not negative, the first
/// not below the second, is their exact difference, rounded.
pub proof fn lemma_difference_positive(a: u32, b: u32)
    requires
        b <= a < INFINITY,
    ensures
        size(b) <= size(a),
        difference(a, b) == nearest(binary32(), (size(a) - size(b)) as nat, 1),
        difference(a, b) <= INFINITY,
{
    lemma_binary32();
    lemma_scaled_order(binary32(), b as nat, a as nat);
    lemma_nearest_zero(binary32(), 1);
    lemma_nearest_bounds(binary32(), (size(a) - size(b)) as nat, 1);
    let nb = binary32().negated(b as u64);
    assert(nb == 0x8000_0000 + b);
}

/// The difference of two finite numbers that are not negative, the first
/// below the second, is their exact difference, rounded, with a sign.
pub proof fn lemma_difference_negative(a: u32, b: u32)
    requires
        a < b < INFINITY,
    ensures
        size(a) < size(b),
        difference(a, b) == 0x8000_0000 + nearest(binary32(), (size(b) - size(a)) as nat, 1),
        nearest(binary32(), (size(b) - size(a)) as nat, 1) <= INFINITY,
{
    lemma_binary32();
    lemma_scaled_order(binary32(), a as nat, b as nat);
    lemma_nearest_bounds(binary32(), (size(b) - size(a)) as nat, 1);
    let nb = binary32().negated(b as u64);
    assert(nb == 0x8000_0000 + b);
}

/// The product of two finite numbers that are not negative is their exact
/// product, rounded.
pub proof fn lemma_product_positive(a: u32, b: u32)
    requires
        a < INFINITY,
        b < INFINITY,
    ensures
        product(a, b) == nearest(binary32(), size(a) * size(b), pow2(149)),
        product(a, b) <= INFINITY,
{
    lemma_binary32();
    lemma_pow2_pos(149);
    lemma_nearest_bounds(binary32(), size(a) * size(b), pow2(149));
}


/// Positive infinity in double precision.
pub const INFINITY_WIDE: u64 = 0x7ff0_0000_0000_0000;

/// The number that a double-precision pattern without a sign stands for, in
/// units of `2^-1074`.
pub open spec fn size64(a: u64) -> nat {
    binary64().scaled(a as nat)
}

/// `a < b` in double precision.
pub open spec fn less64(a: u64, b: u64) -> bool {
    binary64().less(a, b)
}

/// The constants of the double-precision format.
pub proof fn lemma_binary64()
    ensures
        binary64().valid(),
        binary64().hidden() == 0x10_0000_0000_0000,
        binary64().inf() == 0x7ff0_0000_0000_0000,
        binary64().sign_unit() == 0x8000_0000_0000_0000,
        binary64().scale() == 1074,
        size64(0) == 0,
{
    lemma2_to64();
    lemma2_to64_rest();
    lemma_scaled_zero(binary64());
}

/// The sum of two finite double-precision numbers that are not negative is
/// their exact sum, rounded.
pub proof fn lemma_sum64_positive(a: u64, b: u64)
    requires
        a < INFINITY_WIDE,
        b < INFINITY_WIDE,
    ensures
        sum64(a, b) == nearest(binary64(), size64(a) + size64(b), 1),
        sum64(a, b) <= INFINITY_WIDE,
{
    lemma_binary64();
    lemma_nearest_zero(binary64(), 1);
    lemma_nearest_bounds(binary64(), size64(a) + size64(b), 1);
}

} // verus!
