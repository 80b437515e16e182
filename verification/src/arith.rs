//! Addition, subtraction, multiplication, division and comparison of
//! floating-point bit patterns, each rounded to nearest, ties to even.
//!
//! A result that is not a number is always the same pattern: positive, with
//! the highest fraction bit alone.

use crate::format::{lemma_compose, lemma_decompose, lemma_scaled_order, Format};
use crate::pow::{bit_length, lemma_bit_len, two_pow};
use crate::rounding::{
    grow, lemma_balance, lemma_cancel_eq, lemma_cancel_lt, lemma_inf, lemma_nearest_zero,
    lemma_pow2_le, lemma_pack_nearest, nearest, represents, round_pack,
    shrink,
};
use vstd::arithmetic::div_mod::*;
use vstd::arithmetic::mul::*;
use vstd::arithmetic::power2::*;
use vstd::prelude::*;

verus! {

impl Format {
    /// The patterns of the format: a magnitude and a sign bit.
    pub open spec fn encodes(self, bits: u64) -> bool {
        bits < 2 * self.sign_unit()
    }

    /// Whether the sign bit is set.
    pub open spec fn negative(self, bits: u64) -> bool {
        bits >= self.sign_unit()
    }

    /// The pattern without its sign bit.
    pub open spec fn magnitude(self, bits: u64) -> nat {
        if bits >= self.sign_unit() {
            (bits - self.sign_unit()) as nat
        } else {
            bits as nat
        }
    }

    /// Not a number: exponent field all ones, fraction not zero.
    pub open spec fn is_nan(self, bits: u64) -> bool {
        self.magnitude(bits) > self.inf()
    }

    /// Neither infinite nor not a number.
    pub open spec fn is_finite(self, bits: u64) -> bool {
        self.magnitude(bits) < self.inf()
    }

    /// The pattern of a magnitude under a sign.
    pub open spec fn signed(self, negative: bool, mag: nat) -> nat {
        if negative {
            self.sign_unit() + mag
        } else {
            mag
        }
    }

    /// The one pattern that operations return for "not a number".
    pub open spec fn quiet_nan(self) -> nat {
        self.inf() + pow2((self.frac_bits - 1) as nat)
    }

    /// The number a pattern stands for, in units of `2^-scale`; for an
    /// infinity, the power of two beyond the largest finite number.
    pub open spec fn value(self, bits: u64) -> int {
        if self.negative(bits) {
            -(self.scaled(self.magnitude(bits)) as int)
        } else {
            self.scaled(self.magnitude(bits)) as int
        }
    }

    /// The pattern with the other sign.
    pub open spec fn negated(self, bits: u64) -> nat {
        self.signed(!self.negative(bits), self.magnitude(bits))
    }

    /// `a + b`: the exact sum, rounded. A sum that is exactly zero is
    /// negative only where both terms are.
    pub open spec fn sum(self, a: u64, b: u64) -> nat {
        let v = self.value(a) + self.value(b);
        if self.is_nan(a) || self.is_nan(b) {
            self.quiet_nan()
        } else if !self.is_finite(a) {
            if !self.is_finite(b) && self.negative(a) != self.negative(b) {
                self.quiet_nan()
            } else {
                a as nat
            }
        } else if !self.is_finite(b) {
            b as nat
        } else if v == 0 {
            self.signed(self.negative(a) && self.negative(b), 0)
        } else if v > 0 {
            nearest(self, v as nat, 1)
        } else {
            self.signed(true, nearest(self, (-v) as nat, 1))
        }
    }

    /// `a - b`, which is `a + (-b)`.
    pub open spec fn difference(self, a: u64, b: u64) -> nat {
        self.sum(a, self.negated(b) as u64)
    }

    /// `a * b`: the exact product, rounded, under the product of the signs.
    pub open spec fn product(self, a: u64, b: u64) -> nat {
        let ma = self.magnitude(a);
        let mb = self.magnitude(b);
        let neg = self.negative(a) != self.negative(b);
        if self.is_nan(a) || self.is_nan(b) {
            self.quiet_nan()
        } else if ma == self.inf() || mb == self.inf() {
            if ma == 0 || mb == 0 {
                self.quiet_nan()
            } else {
                self.signed(neg, self.inf())
            }
        } else {
            self.signed(neg, nearest(self, self.scaled(ma) * self.scaled(mb), pow2(self.scale())))
        }
    }

    /// `a / b`: the exact quotient, rounded, under the product of the signs.
    pub open spec fn quotient(self, a: u64, b: u64) -> nat {
        let ma = self.magnitude(a);
        let mb = self.magnitude(b);
        let neg = self.negative(a) != self.negative(b);
        if self.is_nan(a) || self.is_nan(b) {
            self.quiet_nan()
        } else if ma == self.inf() {
            if mb == self.inf() {
                self.quiet_nan()
            } else {
                self.signed(neg, self.inf())
            }
        } else if mb == self.inf() {
            self.signed(neg, 0)
        } else if mb == 0 {
            if ma == 0 {
                self.quiet_nan()
            } else {
                self.signed(neg, self.inf())
            }
        } else {
            self.signed(neg, nearest(self, self.scaled(ma) * pow2(self.scale()), self.scaled(mb)))
        }
    }

    /// `a < b` as numbers: false where either is not a number, and between
    /// the two zeros.
    pub open spec fn less(self, a: u64, b: u64) -> bool {
        !self.is_nan(a) && !self.is_nan(b) && self.value(a) < self.value(b)
    }
}

/// Facts about the sizes of a format's constants.
pub proof fn lemma_format_sizes(fmt: Format)
    requires
        fmt.valid(),
    ensures
        2 <= fmt.hidden() <= 0x10_0000_0000_0000,
        4 <= pow2(fmt.exp_bits as nat) <= 2048,
        fmt.sign_unit() == pow2(fmt.exp_bits as nat) * fmt.hidden(),
        fmt.sign_unit() <= 0x8000_0000_0000_0000,
        fmt.inf() + fmt.hidden() == fmt.sign_unit(),
        fmt.quiet_nan() < fmt.sign_unit(),
        fmt.inf() < fmt.quiet_nan(),
        2 <= pow2((fmt.exp_bits - 1) as nat) <= 1024,
        fmt.scale() <= 1074,
{
    let p = fmt.frac_bits as nat;
    let w = fmt.exp_bits as nat;
    lemma2_to64();
    lemma2_to64_rest();
    lemma_inf(fmt);
    if p < 52 {
        lemma_pow2_strictly_increases(p, 52);
    }
    if w < 11 {
        lemma_pow2_strictly_increases(w, 11);
    }
    if w - 1 < 10 {
        lemma_pow2_strictly_increases((w - 1) as nat, 10);
    }
    if 1 < w - 1 {
        lemma_pow2_strictly_increases(1, (w - 1) as nat);
    }
    lemma_pow2_adds(w, p);
    assert(p + w == w + p);
    if p + w < 63 {
        lemma_pow2_strictly_increases(p + w, 63);
    }
    lemma_pow2_unfold(p);
    lemma_pow2_pos((p - 1) as nat);
    assert((pow2(w) - 1) * fmt.hidden() + fmt.hidden() == pow2(w) * fmt.hidden())
        by (nonlinear_arith);
}

/// Sign and magnitude of a pattern.
pub fn split(fmt: Format, bits: u64) -> (r: (bool, u64))
    requires
        fmt.valid(),
        fmt.encodes(bits),
    ensures
        r.0 == fmt.negative(bits),
        r.1 == fmt.magnitude(bits),
        r.1 < fmt.sign_unit(),
{
    proof {
        lemma_format_sizes(fmt);
    }
    let unit: u64 = two_pow(fmt.frac_bits + fmt.exp_bits) as u64;
    if bits >= unit {
        (true, bits - unit)
    } else {
        (false, bits)
    }
}

/// The pattern of a magnitude under a sign.
pub fn join(fmt: Format, negative: bool, mag: u64) -> (r: u64)
    requires
        fmt.valid(),
        mag < fmt.sign_unit(),
    ensures
        r == fmt.signed(negative, mag as nat),
        fmt.encodes(r),
        fmt.negative(r) == negative,
        fmt.magnitude(r) == mag,
{
    proof {
        lemma_format_sizes(fmt);
    }
    let unit: u64 = two_pow(fmt.frac_bits + fmt.exp_bits) as u64;
    if negative {
        unit + mag
    } else {
        mag
    }
}

/// Exponent and significand of a magnitude.
pub fn parts(fmt: Format, mag: u64) -> (r: (i32, u64))
    requires
        fmt.valid(),
        mag < fmt.sign_unit(),
    ensures
        r.0 == fmt.exponent(mag as nat),
        r.1 == fmt.significand(mag as nat),
        0 <= r.0 <= pow2(fmt.exp_bits as nat) - 2,
        r.1 < 2 * fmt.hidden(),
        r.0 >= 1 ==> r.1 >= fmt.hidden(),
        mag > 0 ==> r.1 > 0,
{
    proof {
        lemma_format_sizes(fmt);
        lemma_decompose(fmt, mag as nat);
        let h = fmt.hidden();
        lemma_fundamental_div_mod(mag as int, h as int);
        lemma_mod_bound(mag as int, h as int);
        lemma_div_pos_is_pos(mag as int, h as int);
        let field = mag as nat / h;
        assert(field < pow2(fmt.exp_bits as nat)) by (nonlinear_arith)
            requires
                mag == h * field + mag as nat % h,
                mag as nat % h >= 0,
                mag < pow2(fmt.exp_bits as nat) * h,
                h > 0,
        ;
        assert(h * 0 == 0);
    }
    let h: u64 = two_pow(fmt.frac_bits) as u64;
    let field: u64 = mag / h;
    let frac: u64 = mag % h;
    if field == 0 {
        (0, frac)
    } else {
        ((field - 1) as i32, h + frac)
    }
}

/// The magnitude of infinity.
pub fn infinity(fmt: Format) -> (r: u64)
    requires
        fmt.valid(),
    ensures
        r == fmt.inf(),
        r < fmt.sign_unit(),
{
    proof {
        lemma_format_sizes(fmt);
        assert((pow2(fmt.exp_bits as nat) - 1) * fmt.hidden() <= 2047 * 0x10_0000_0000_0000)
            by (nonlinear_arith)
            requires
                0 <= pow2(fmt.exp_bits as nat) - 1 <= 2047,
                0 <= fmt.hidden() <= 0x10_0000_0000_0000,
        ;
    }
    let h: u64 = two_pow(fmt.frac_bits) as u64;
    let w: u64 = two_pow(fmt.exp_bits) as u64;
    (w - 1) * h
}

/// The pattern returned for "not a number".
pub fn not_a_number(fmt: Format) -> (r: u64)
    requires
        fmt.valid(),
    ensures
        r == fmt.quiet_nan(),
        fmt.encodes(r),
        fmt.is_nan(r),
{
    proof {
        lemma_format_sizes(fmt);
    }
    let quiet: u64 = two_pow(fmt.frac_bits - 1) as u64;
    infinity(fmt) + quiet
}

/// The pattern with the other sign.
pub fn neg(fmt: Format, a: u64) -> (r: u64)
    requires
        fmt.valid(),
        fmt.encodes(a),
    ensures
        r == fmt.negated(a),
        fmt.encodes(r),
{
    let (sa, ma) = split(fmt, a);
    join(fmt, !sa, ma)
}


/// Larger magnitudes have larger exponents.
proof fn lemma_exponent_ordered(fmt: Format, x: nat, y: nat)
    requires
        y <= x,
    ensures
        fmt.exponent(y) <= fmt.exponent(x),
{
    lemma_pow2_pos(fmt.frac_bits as nat);
    lemma_div_is_ordered(y as int, x as int, fmt.hidden() as int);
}

/// Zero is the magnitude of zero.
pub proof fn lemma_scaled_zero(fmt: Format)
    ensures
        fmt.scaled(0) == 0,
        forall|x: nat| x > 0 ==> #[trigger] fmt.scaled(x) > 0,
{
    lemma_compose(fmt, 0, 0);
    assert(0 * fmt.hidden() + 0 == 0);
    assert forall|x: nat| x > 0 implies #[trigger] fmt.scaled(x) > 0 by {
        lemma_scaled_order(fmt, 0, x);
    }
}

/// With the larger term shifted to the exponent of the smaller, sum and
/// difference of two numbers are those of their significands.
proof fn lemma_aligned(mx: nat, ex: nat, my: nat, ey: nat, d: nat)
    requires
        ex == ey + d,
        my * pow2(ey) <= mx * pow2(ex),
    ensures
        my <= mx * pow2(d),
        (mx * pow2(d) + my) * pow2(ey) == mx * pow2(ex) + my * pow2(ey),
        (mx * pow2(d) - my) * pow2(ey) == mx * pow2(ex) - my * pow2(ey),
{
    lemma_pow2_adds(d, ey);
    lemma_pow2_pos(ey);
    let hi = mx * pow2(d);
    assert(hi * pow2(ey) == mx * pow2(ex)) by (nonlinear_arith)
        requires
            hi == mx * pow2(d),
            pow2(ex) == pow2(d) * pow2(ey),
    ;
    assert(my <= hi) by (nonlinear_arith)
        requires
            my * pow2(ey) <= hi * pow2(ey),
            pow2(ey) > 0,
    ;
    assert((hi + my) * pow2(ey) == hi * pow2(ey) + my * pow2(ey)) by (nonlinear_arith);
    assert((hi - my) * pow2(ey) == hi * pow2(ey) - my * pow2(ey)) by (nonlinear_arith);
}

/// A term whose exponent is smaller by more than the significand's width
/// plus two is less than a quarter of the other's last place.
proof fn lemma_far(fmt: Format, mx: nat, ex: nat, my: nat, ey: nat)
    requires
        fmt.valid(),
        ex >= ey + fmt.frac_bits + 3,
        my < 2 * fmt.hidden(),
    ensures
        my * pow2(ey) < pow2((ex - 2) as nat),
        (4 * mx) * pow2((ex - 2) as nat) == mx * pow2(ex),
        (4 * mx - 1) * pow2((ex - 2) as nat) == mx * pow2(ex) - pow2((ex - 2) as nat),
        (4 * mx + 1) * pow2((ex - 2) as nat) == mx * pow2(ex) + pow2((ex - 2) as nat),
{
    let p = fmt.frac_bits as nat;
    let q = pow2((ex - 2) as nat);
    lemma2_to64();
    lemma_pow2_adds(2, (ex - 2) as nat);
    lemma_pow2_adds(p + 1, ey);
    lemma_pow2_unfold(p + 1);
    if p + 1 + ey < ex - 2 {
        lemma_pow2_strictly_increases(p + 1 + ey, (ex - 2) as nat);
    }
    lemma_pow2_pos(ey);
    assert(my * pow2(ey) < (2 * fmt.hidden()) * pow2(ey)) by (nonlinear_arith)
        requires
            my < 2 * fmt.hidden(),
            pow2(ey) > 0,
    ;
    assert((4 * mx) * q == mx * (4 * q)) by (nonlinear_arith);
    assert((4 * mx - 1) * q == mx * (4 * q) - q) by (nonlinear_arith);
    assert((4 * mx + 1) * q == mx * (4 * q) + q) by (nonlinear_arith);
}

/// Rounded sum (`same`) or difference of the numbers of two finite
/// magnitudes, the first not below the second.
fn combine(fmt: Format, x: u64, y: u64, same: bool) -> (r: u64)
    requires
        fmt.valid(),
        y <= x < fmt.inf(),
    ensures
        same ==> r == nearest(fmt, fmt.scaled(x as nat) + fmt.scaled(y as nat), 1),
        !same ==> r == nearest(fmt, (fmt.scaled(x as nat) - fmt.scaled(y as nat)) as nat, 1),
        r <= fmt.inf(),
{
    proof {
        lemma_format_sizes(fmt);
        lemma_exponent_ordered(fmt, x as nat, y as nat);
        lemma_scaled_order(fmt, y as nat, x as nat);
        lemma_scaled_zero(fmt);
        lemma2_to64();
        lemma2_to64_rest();
    }
    let (ex, mx) = parts(fmt, x);
    let (ey, my) = parts(fmt, y);
    let d: i32 = ex - ey;
    let wide: i32 = fmt.frac_bits as i32 + 2;
    let ghost vx = fmt.scaled(x as nat);
    let ghost vy = fmt.scaled(y as nat);
    let ghost num: nat = if same {
        vx + vy
    } else {
        (vx - vy) as nat
    };
    if d <= wide {
        proof {
            lemma_pow2_le(d as nat, 54);
            lemma_aligned(mx as nat, ex as nat, my as nat, ey as nat, d as nat);
            assert(mx * pow2(d as nat) <= 0x20_0000_0000_0000 * 0x40_0000_0000_0000)
                by (nonlinear_arith)
                requires
                    mx <= 0x20_0000_0000_0000,
                    pow2(d as nat) <= 0x40_0000_0000_0000,
            ;
        }
        let hi: u128 = (mx as u128) * two_pow(d as u32);
        let m: u128 = if same {
            hi + my as u128
        } else {
            hi - my as u128
        };
        proof {
            assert(grow(ey as int) == pow2(ey as nat));
            assert(shrink(ey as int) == 1);
            assert(m * pow2(ey as nat) * 1 == num * 1) by (nonlinear_arith)
                requires
                    m * pow2(ey as nat) == num,
            ;
            assert(represents(m as nat, ey as int, false, num, 1));
            lemma_pack_nearest(fmt, m as nat, ey as int, false, num, 1);
        }
        round_pack(fmt, m, ey, false)
    } else if my == 0 {
        proof {
            assert(0 * pow2(ey as nat) == 0);
            assert(grow(ex as int) == pow2(ex as nat));
            assert(mx * pow2(ex as nat) * 1 == num * 1) by (nonlinear_arith)
                requires
                    mx * pow2(ex as nat) == num,
            ;
            assert(represents(mx as nat, ex as int, false, num, 1));
            lemma_pack_nearest(fmt, mx as nat, ex as int, false, num, 1);
        }
        round_pack(fmt, mx as u128, ex, false)
    } else {
        let m: u128 = if same {
            4 * (mx as u128)
        } else {
            4 * (mx as u128) - 1
        };
        proof {
            let k = (ex - 2) as nat;
            let q = pow2(k);
            lemma_far(fmt, mx as nat, ex as nat, my as nat, ey as nat);
            lemma_pow2_pos(ey as nat);
            lemma_pow2_pos(k);
            assert(my * pow2(ey as nat) > 0) by (nonlinear_arith)
                requires
                    my > 0,
                    pow2(ey as nat) > 0,
            ;
            assert(grow(k as int) == q);
            assert(shrink(k as int) == 1);
            assert(m * q * 1 == m * q) by (nonlinear_arith);
            assert((m + 1) * q * 1 == (m + 1) * q) by (nonlinear_arith);
            assert(num * 1 == num);
            if same {
                assert((m + 1) * q == (4 * mx + 1) * q);
            } else {
                assert((m + 1) * q == (4 * mx) * q);
            }
            assert(represents(m as nat, k as int, true, num, 1));
            lemma_pack_nearest(fmt, m as nat, k as int, true, num, 1);
        }
        round_pack(fmt, m, ex - 2, true)
    }
}

/// `a + b`.
pub fn plus(fmt: Format, a: u64, b: u64) -> (r: u64)
    requires
        fmt.valid(),
        fmt.encodes(a),
        fmt.encodes(b),
    ensures
        r == fmt.sum(a, b),
        fmt.encodes(r),
{
    let (sa, ma) = split(fmt, a);
    let (sb, mb) = split(fmt, b);
    let inf = infinity(fmt);
    if ma > inf || mb > inf {
        return not_a_number(fmt);
    }
    if ma == inf {
        if mb == inf && sa != sb {
            return not_a_number(fmt);
        }
        return a;
    }
    if mb == inf {
        return b;
    }
    let same = sa == sb;
    let (sx, x, y) = if ma >= mb {
        (sa, ma, mb)
    } else {
        (sb, mb, ma)
    };
    proof {
        lemma_scaled_order(fmt, x as nat, y as nat);
        lemma_scaled_order(fmt, x as nat, 0);
        lemma_scaled_order(fmt, y as nat, 0);
        lemma_scaled_zero(fmt);
    }
    let cancels = if same {
        x == 0
    } else {
        x == y
    };
    if cancels {
        return join(fmt, sa && sb, 0);
    }
    let mag = combine(fmt, x, y, same);
    join(fmt, sx, mag)
}

/// `a - b`.
pub fn minus(fmt: Format, a: u64, b: u64) -> (r: u64)
    requires
        fmt.valid(),
        fmt.encodes(a),
        fmt.encodes(b),
    ensures
        r == fmt.difference(a, b),
        fmt.encodes(r),
{
    let nb = neg(fmt, b);
    plus(fmt, a, nb)
}


/// The product of two numbers given by significand and exponent, in the
/// form that rounding takes.
proof fn lemma_product_represents(xa: nat, ea: nat, xb: nat, eb: nat, scale: nat, k: int)
    requires
        k == ea + eb - scale,
    ensures
        represents(xa * xb, k, false, (xa * pow2(ea)) * (xb * pow2(eb)), pow2(scale)),
{
    let g = grow(k);
    let d = shrink(k);
    let a = pow2(ea);
    let b = pow2(eb);
    let pk = pow2(scale);
    lemma_balance(scale, k, ea + eb);
    lemma_pow2_adds(ea, eb);
    assert((xa * xb) * g * pk == ((xa * a) * (xb * b)) * d) by (nonlinear_arith)
        requires
            pk * g == (a * b) * d,
    ;
}

/// The quotient of two numbers given by significand and exponent, in the
/// form that rounding takes, from an integer division with remainder.
proof fn lemma_quotient_represents(
    xa: nat,
    ea: nat,
    xb: nat,
    eb: nat,
    sh: nat,
    scale: nat,
    k: int,
    q: nat,
    rem: nat,
)
    requires
        xb > 0,
        xa * pow2(sh) == q * xb + rem,
        rem < xb,
        k + eb + sh == ea + scale,
    ensures
        represents(q, k, rem != 0, (xa * pow2(ea)) * pow2(scale), xb * pow2(eb)),
{
    let g = grow(k);
    let d = shrink(k);
    let a = pow2(ea);
    let b = pow2(eb);
    let s = pow2(sh);
    let pk = pow2(scale);
    let num = (xa * a) * pk;
    let den = xb * b;
    lemma_balance(eb + sh, k, ea + scale);
    lemma_pow2_adds(eb, sh);
    lemma_pow2_adds(ea, scale);
    lemma_pow2_pos(sh);
    lemma_pow2_pos(ea);
    lemma_pow2_pos(scale);
    let z = (a * pk) * d;
    assert(z > 0) by (nonlinear_arith)
        requires
            z == (a * pk) * d,
            a > 0,
            pk > 0,
            d > 0,
    ;
    assert((q * g * den) * s == (q * xb) * z) by (nonlinear_arith)
        requires
            den == xb * b,
            (b * s) * g == (a * pk) * d,
            z == (a * pk) * d,
    ;
    assert(((q + 1) * g * den) * s == (q * xb + xb) * z) by (nonlinear_arith)
        requires
            den == xb * b,
            (b * s) * g == (a * pk) * d,
            z == (a * pk) * d,
    ;
    assert((num * d) * s == (q * xb + rem) * z) by (nonlinear_arith)
        requires
            num == (xa * a) * pk,
            xa * s == q * xb + rem,
            z == (a * pk) * d,
    ;
    if rem == 0 {
        lemma_cancel_eq((q * g * den) as int, (num * d) as int, s as int);
    } else {
        assert((q * xb) * z < (q * xb + rem) * z) by (nonlinear_arith)
            requires
                rem > 0,
                z > 0,
        ;
        assert((q * xb + rem) * z < (q * xb + xb) * z) by (nonlinear_arith)
            requires
                rem < xb,
                z > 0,
        ;
        lemma_cancel_lt((q * g * den) as int, (num * d) as int, s as int);
        lemma_cancel_lt((num * d) as int, ((q + 1) * g * den) as int, s as int);
    }
}

/// A numerator of twice the significand's width and three bits, divided by
/// a significand, leaves a quotient wider than a significand.
proof fn lemma_quotient_wide(fmt: Format, numer: nat, xb: nat, q: nat, rem: nat)
    requires
        numer == q * xb + rem,
        rem < xb,
        xb < 2 * fmt.hidden(),
        numer >= (2 * fmt.hidden()) * (2 * fmt.hidden()),
    ensures
        q >= 2 * fmt.hidden(),
        q <= numer,
{
    let h2 = 2 * fmt.hidden();
    if q < h2 {
        assert(q * xb + rem < h2 * h2) by (nonlinear_arith)
            requires
                q + 1 <= h2,
                rem < xb,
                xb < h2,
                0 <= q,
                0 <= rem,
        ;
    }
    assert(q <= q * xb) by (nonlinear_arith)
        requires
            xb >= 1,
            q >= 0,
    ;
}

/// `a * b`.
pub fn times(fmt: Format, a: u64, b: u64) -> (r: u64)
    requires
        fmt.valid(),
        fmt.encodes(a),
        fmt.encodes(b),
    ensures
        r == fmt.product(a, b),
        fmt.encodes(r),
{
    let (sa, ma) = split(fmt, a);
    let (sb, mb) = split(fmt, b);
    let inf = infinity(fmt);
    let neg = sa != sb;
    if ma > inf || mb > inf {
        return not_a_number(fmt);
    }
    if ma == inf || mb == inf {
        if ma == 0 || mb == 0 {
            return not_a_number(fmt);
        }
        return join(fmt, neg, inf);
    }
    proof {
        lemma_format_sizes(fmt);
    }
    let (ea, xa) = parts(fmt, ma);
    let (eb, xb) = parts(fmt, mb);
    proof {
        assert(xa * xb <= 0x20_0000_0000_0000 * 0x20_0000_0000_0000) by (nonlinear_arith)
            requires
                xa <= 0x20_0000_0000_0000,
                xb <= 0x20_0000_0000_0000,
        ;
    }
    let m: u128 = (xa as u128) * (xb as u128);
    let scale: i32 = fmt.frac_bits as i32 + (two_pow(fmt.exp_bits - 1) as i32) - 2;
    let k: i32 = ea + eb - scale;
    proof {
        lemma_product_represents(
            xa as nat,
            ea as nat,
            xb as nat,
            eb as nat,
            scale as nat,
            k as int,
        );
        lemma_pow2_pos(fmt.scale());
        lemma_pack_nearest(
            fmt,
            m as nat,
            k as int,
            false,
            fmt.scaled(ma as nat) * fmt.scaled(mb as nat),
            pow2(fmt.scale()),
        );
    }
    let mag = round_pack(fmt, m, k, false);
    join(fmt, neg, mag)
}

/// `a / b`.
pub fn divide(fmt: Format, a: u64, b: u64) -> (r: u64)
    requires
        fmt.valid(),
        fmt.encodes(a),
        fmt.encodes(b),
    ensures
        r == fmt.quotient(a, b),
        fmt.encodes(r),
{
    let (sa, ma) = split(fmt, a);
    let (sb, mb) = split(fmt, b);
    let inf = infinity(fmt);
    let neg = sa != sb;
    if ma > inf || mb > inf {
        return not_a_number(fmt);
    }
    if ma == inf {
        if mb == inf {
            return not_a_number(fmt);
        }
        return join(fmt, neg, inf);
    }
    if mb == inf {
        return join(fmt, neg, 0);
    }
    if mb == 0 {
        if ma == 0 {
            return not_a_number(fmt);
        }
        return join(fmt, neg, inf);
    }
    proof {
        lemma_format_sizes(fmt);
        lemma_scaled_zero(fmt);
        lemma_pow2_pos(fmt.scale());
    }
    if ma == 0 {
        proof {
            assert(0 * pow2(fmt.scale()) == 0);
            lemma_nearest_zero(fmt, fmt.scaled(mb as nat));
        }
        return join(fmt, neg, 0);
    }
    let (ea, xa) = parts(fmt, ma);
    let (eb, xb) = parts(fmt, mb);
    let la: i32 = bit_length(xa as u128) as i32;
    let p: i32 = fmt.frac_bits as i32;
    proof {
        lemma_bit_len(xa as nat);
        lemma_pow2_unfold((p + 1) as nat);
        if la > p + 1 {
            lemma_pow2_le((p + 1) as nat, (la - 1) as nat);
        }
    }
    let sh: i32 = (p + 1 - la) + p + 3;
    proof {
        let h2 = 2 * fmt.hidden();
        lemma2_to64();
        lemma2_to64_rest();
        lemma_pow2_adds(la as nat, sh as nat);
        lemma_pow2_adds((la - 1) as nat, sh as nat);
        lemma_pow2_adds((p + 1) as nat, (p + 1) as nat);
        lemma_pow2_adds((2 * p + 2) as nat, 2);
        lemma_pow2_unfold((2 * p + 3) as nat);
        lemma_pow2_le((2 * p + 4) as nat, 108);
        lemma_pow2_adds(54, 54);
        lemma_pow2_pos(sh as nat);
        assert(xa * pow2(sh as nat) < pow2(la as nat) * pow2(sh as nat)) by (nonlinear_arith)
            requires
                xa < pow2(la as nat),
                pow2(sh as nat) > 0,
        ;
        assert(pow2((la - 1) as nat) * pow2(sh as nat) <= xa * pow2(sh as nat))
            by (nonlinear_arith)
            requires
                pow2((la - 1) as nat) <= xa,
                pow2(sh as nat) > 0,
        ;
    }
    let numer: u128 = (xa as u128) * two_pow(sh as u32);
    let q: u128 = numer / (xb as u128);
    let rem: u128 = numer % (xb as u128);
    let scale: i32 = p + (two_pow(fmt.exp_bits - 1) as i32) - 2;
    let k: i32 = ea - eb - sh + scale;
    proof {
        lemma_fundamental_div_mod(numer as int, xb as int);
        lemma_mod_bound(numer as int, xb as int);
        lemma_div_pos_is_pos(numer as int, xb as int);
        assert(numer == q * xb + rem) by (nonlinear_arith)
            requires
                numer == xb * q + rem,
        ;
        lemma_quotient_wide(fmt, numer as nat, xb as nat, q as nat, rem as nat);
        lemma_quotient_represents(
            xa as nat,
            ea as nat,
            xb as nat,
            eb as nat,
            sh as nat,
            scale as nat,
            k as int,
            q as nat,
            rem as nat,
        );
        lemma_mul_strictly_positive(xb as int, pow2(eb as nat) as int);
        lemma_pow2_pos(eb as nat);
        lemma_pack_nearest(
            fmt,
            q as nat,
            k as int,
            rem != 0,
            fmt.scaled(ma as nat) * pow2(fmt.scale()),
            fmt.scaled(mb as nat),
        );
    }
    let mag = round_pack(fmt, q, k, rem != 0);
    join(fmt, neg, mag)
}

/// `a < b`.
pub fn is_less(fmt: Format, a: u64, b: u64) -> (r: bool)
    requires
        fmt.valid(),
        fmt.encodes(a),
        fmt.encodes(b),
    ensures
        r == fmt.less(a, b),
{
    let (sa, ma) = split(fmt, a);
    let (sb, mb) = split(fmt, b);
    let inf = infinity(fmt);
    if ma > inf || mb > inf {
        return false;
    }
    proof {
        lemma_scaled_order(fmt, ma as nat, mb as nat);
        lemma_scaled_zero(fmt);
    }
    if sa {
        if sb {
            ma > mb
        } else {
            ma != 0 || mb != 0
        }
    } else {
        if sb {
            false
        } else {
            ma < mb
        }
    }
}


/// The pattern of a non-negative integer: the integer itself where the
/// format has it, else the nearest number it has.
pub fn from_integer(fmt: Format, n: u64) -> (r: u64)
    requires
        fmt.valid(),
    ensures
        r == nearest(fmt, n as nat * pow2(fmt.scale()), 1),
        r <= fmt.inf(),
        fmt.encodes(r),
{
    proof {
        lemma_format_sizes(fmt);
    }
    let scale: i32 = fmt.frac_bits as i32 + (two_pow(fmt.exp_bits - 1) as i32) - 2;
    proof {
        let num = n as nat * pow2(fmt.scale());
        assert(grow(scale as int) == pow2(fmt.scale()));
        assert(shrink(scale as int) == 1);
        assert(n * pow2(fmt.scale()) * 1 == num * 1) by (nonlinear_arith)
            requires
                num == n * pow2(fmt.scale()),
        ;
        lemma_pack_nearest(fmt, n as nat, scale as int, false, num, 1);
    }
    round_pack(fmt, n as u128, scale, false)
}

} // verus!
