//! Binary floating-point formats and the numbers their bit patterns stand for.
//!
//! A bit pattern is a sign bit above a magnitude; the magnitude is an exponent
//! field above a fraction field. Magnitudes are ordered as the numbers they
//! stand for, which is what makes the statements below short.

use vstd::arithmetic::div_mod::*;
use vstd::arithmetic::power2::*;
use vstd::prelude::*;

verus! {

/// The widths of the fraction and exponent fields of a binary format.
#[derive(Clone, Copy, Debug)]
pub struct Format {
    pub frac_bits: u32,
    pub exp_bits: u32,
}

impl Format {
    /// The formats this library computes in: up to 52 fraction bits and 11
    /// exponent bits, so that a pattern fits in 64 bits.
    pub open spec fn valid(self) -> bool {
        1 <= self.frac_bits <= 52 && 2 <= self.exp_bits <= 11
    }

    /// Weight of the hidden bit, `2^frac_bits`.
    pub open spec fn hidden(self) -> nat {
        pow2(self.frac_bits as nat)
    }

    /// Magnitude of the pattern of infinity: exponent field all ones,
    /// fraction zero.
    pub open spec fn inf(self) -> nat {
        ((pow2(self.exp_bits as nat) - 1) * pow2(self.frac_bits as nat)) as nat
    }

    /// Weight of the sign bit.
    pub open spec fn sign_unit(self) -> nat {
        pow2((self.frac_bits + self.exp_bits) as nat)
    }

    /// The number a magnitude stands for is `scaled(..) / 2^scale`.
    pub open spec fn scale(self) -> nat {
        (self.frac_bits + pow2((self.exp_bits - 1) as nat) - 2) as nat
    }

    /// Power of two by which the significand of a magnitude is multiplied.
    pub open spec fn exponent(self, mag: nat) -> nat {
        let field = mag / self.hidden();
        if field == 0 {
            0
        } else {
            (field - 1) as nat
        }
    }

    /// Significand of a magnitude, with the hidden bit where the exponent
    /// field is not zero.
    pub open spec fn significand(self, mag: nat) -> nat {
        let field = mag / self.hidden();
        let frac = mag % self.hidden();
        if field == 0 {
            frac
        } else {
            self.hidden() + frac
        }
    }

    /// The number a magnitude stands for, in units of `2^-scale`. It is
    /// defined on the magnitude of infinity too, as the power of two that
    /// follows the largest finite number.
    pub open spec fn scaled(self, mag: nat) -> nat {
        self.significand(mag) * pow2(self.exponent(mag))
    }
}

/// Single precision: 23 fraction bits, 8 exponent bits.
pub fn single() -> (fmt: Format)
    ensures
        fmt == (Format { frac_bits: 23, exp_bits: 8 }),
        fmt.valid(),
{
    Format { frac_bits: 23, exp_bits: 8 }
}

/// Double precision: 52 fraction bits, 11 exponent bits.
pub fn double() -> (fmt: Format)
    ensures
        fmt == (Format { frac_bits: 52, exp_bits: 11 }),
        fmt.valid(),
{
    Format { frac_bits: 52, exp_bits: 11 }
}

/// A magnitude is its exponent times the hidden bit's weight plus its
/// significand.
pub proof fn lemma_decompose(fmt: Format, mag: nat)
    ensures
        mag == fmt.exponent(mag) * fmt.hidden() + fmt.significand(mag),
        fmt.significand(mag) < 2 * fmt.hidden(),
        fmt.exponent(mag) >= 1 ==> fmt.significand(mag) >= fmt.hidden(),
        fmt.exponent(mag) <= mag / fmt.hidden(),
{
    let h = fmt.hidden();
    lemma_pow2_pos(fmt.frac_bits as nat);
    lemma_fundamental_div_mod(mag as int, h as int);
    lemma_mod_bound(mag as int, h as int);
    let field = mag / h;
    let frac = mag % h;
    assert(mag == h * field + frac);
    if field != 0 {
        assert(h * field == (field - 1) * h + h) by (nonlinear_arith);
    } else {
        assert(h * field == 0) by (nonlinear_arith)
            requires
                field == 0,
        ;
        assert(0 * h == 0);
    }
}

/// The magnitude made of exponent `e` and significand `m` stands for
/// `m * 2^e`. The significand may be a full `2 * hidden`, which carries into
/// the exponent.
pub proof fn lemma_compose(fmt: Format, e: nat, m: nat)
    requires
        m <= 2 * fmt.hidden(),
        e >= 1 ==> m >= fmt.hidden(),
    ensures
        fmt.scaled(e * fmt.hidden() + m) == m * pow2(e),
        m < 2 * fmt.hidden() ==> fmt.exponent(e * fmt.hidden() + m) == e && fmt.significand(
            e * fmt.hidden() + m,
        ) == m,
{
    let h = fmt.hidden();
    lemma_pow2_pos(fmt.frac_bits as nat);
    let b = e * h + m;
    if m < h {
        assert(e == 0);
        assert(0 * h == 0);
        lemma_fundamental_div_mod_converse(b as int, h as int, 0, m as int);
    } else if m < 2 * h {
        assert(b == (e + 1) * h + (m - h)) by (nonlinear_arith)
            requires
                b == e * h + m,
        ;
        lemma_fundamental_div_mod_converse(b as int, h as int, (e + 1) as int, (m - h) as int);
    } else {
        assert(b == (e + 2) * h + 0) by (nonlinear_arith)
            requires
                b == e * h + m,
                m == 2 * h,
        ;
        lemma_fundamental_div_mod_converse(b as int, h as int, (e + 2) as int, 0);
        lemma_pow2_unfold((e + 1) as nat);
        assert(h * (2 * pow2(e)) == (2 * h) * pow2(e)) by (nonlinear_arith);
    }
}

/// The next magnitude stands for a number one step larger, the step being
/// the weight of the last place.
pub proof fn lemma_scaled_succ(fmt: Format, mag: nat)
    ensures
        fmt.scaled(mag + 1) == fmt.scaled(mag) + pow2(fmt.exponent(mag)),
{
    let e = fmt.exponent(mag);
    let m = fmt.significand(mag);
    lemma_decompose(fmt, mag);
    lemma_compose(fmt, e, m);
    lemma_compose(fmt, e, m + 1);
    assert((m + 1) * pow2(e) == m * pow2(e) + pow2(e)) by (nonlinear_arith);
}

/// Larger magnitudes stand for larger numbers.
pub proof fn lemma_scaled_increasing(fmt: Format, a: nat, b: nat)
    requires
        a < b,
    ensures
        fmt.scaled(a) < fmt.scaled(b),
    decreases b - a,
{
    lemma_scaled_succ(fmt, (b - 1) as nat);
    lemma_pow2_pos(fmt.exponent((b - 1) as nat));
    if a < b - 1 {
        lemma_scaled_increasing(fmt, a, (b - 1) as nat);
    }
}

/// Magnitudes are ordered exactly as the numbers they stand for.
pub proof fn lemma_scaled_order(fmt: Format, a: nat, b: nat)
    ensures
        a < b <==> fmt.scaled(a) < fmt.scaled(b),
        a == b <==> fmt.scaled(a) == fmt.scaled(b),
{
    if a < b {
        lemma_scaled_increasing(fmt, a, b);
    } else if b < a {
        lemma_scaled_increasing(fmt, b, a);
    }
}

} // verus!
