//! Rounding to nearest, ties to even.
//!
//! `nearest` says which magnitude a non-negative rational rounds to.
//! `round_pack` computes it from an integer, a binary exponent and a flag for
//! a discarded remainder, and `lemma_pack_nearest` ties the two together.

use crate::format::{lemma_compose, lemma_scaled_increasing, lemma_scaled_succ, Format};
use crate::pow::{bit_len, bit_length, lemma_bit_len, two_pow};
use vstd::arithmetic::div_mod::*;
use vstd::arithmetic::mul::*;
use vstd::arithmetic::power2::*;
use vstd::prelude::*;

verus! {

/// `b` is the largest magnitude, infinity included, that stands for a number
/// not above `num / den` (in units of `2^-scale`).
pub open spec fn is_floor(fmt: Format, b: nat, num: nat, den: nat) -> bool {
    &&& b <= fmt.inf()
    &&& fmt.scaled(b) * den <= num
    &&& b < fmt.inf() ==> num < fmt.scaled(b + 1) * den
}

/// The largest magnitude not above `num / den`.
pub open spec fn floor(fmt: Format, num: nat, den: nat) -> nat {
    choose|b: nat| is_floor(fmt, b, num, den)
}

/// Of `b` and its successor, the one nearer to `num / den`; half way
/// between them, the even one.
pub open spec fn nearer(fmt: Format, b: nat, num: nat, den: nat) -> nat {
    let lo = fmt.scaled(b) * den;
    let hi = fmt.scaled(b + 1) * den;
    if b >= fmt.inf() {
        fmt.inf()
    } else if 2 * num < lo + hi {
        b
    } else if 2 * num > lo + hi {
        b + 1
    } else if b % 2 == 0 {
        b
    } else {
        b + 1
    }
}

/// The magnitude that the non-negative rational `num / den`, in units of
/// `2^-scale`, rounds to: the nearest one, the even one of two equally near,
/// infinity from half a step above the largest finite number on.
pub open spec fn nearest(fmt: Format, num: nat, den: nat) -> nat {
    nearer(fmt, floor(fmt, num, den), num, den)
}

proof fn lemma_floor_unique(fmt: Format, b1: nat, b2: nat, num: nat, den: nat)
    requires
        den > 0,
        is_floor(fmt, b1, num, den),
        is_floor(fmt, b2, num, den),
    ensures
        b1 == b2,
{
    if b1 < b2 {
        if b1 + 1 < b2 {
            lemma_scaled_increasing(fmt, b1 + 1, b2);
        }
        lemma_mul_inequality(fmt.scaled(b1 + 1) as int, fmt.scaled(b2) as int, den as int);
    } else if b2 < b1 {
        if b2 + 1 < b1 {
            lemma_scaled_increasing(fmt, b2 + 1, b1);
        }
        lemma_mul_inequality(fmt.scaled(b2 + 1) as int, fmt.scaled(b1) as int, den as int);
    }
}

proof fn lemma_floor_search(fmt: Format, num: nat, den: nat, b: nat)
    requires
        den > 0,
        b <= fmt.inf(),
        fmt.scaled(b) * den <= num,
    ensures
        exists|c: nat| is_floor(fmt, c, num, den),
    decreases fmt.inf() - b,
{
    if b == fmt.inf() || num < fmt.scaled(b + 1) * den {
        assert(is_floor(fmt, b, num, den));
    } else {
        lemma_floor_search(fmt, num, den, b + 1);
    }
}

/// Every non-negative rational has a floor, and only one.
pub proof fn lemma_floor(fmt: Format, num: nat, den: nat)
    requires
        den > 0,
    ensures
        is_floor(fmt, floor(fmt, num, den), num, den),
        forall|b: nat| is_floor(fmt, b, num, den) ==> b == floor(fmt, num, den),
{
    lemma_pow2_pos(fmt.frac_bits as nat);
    lemma_compose(fmt, 0, 0);
    assert(0 * fmt.hidden() + 0 == 0);
    assert(fmt.scaled(0) == 0);
    lemma_floor_search(fmt, num, den, 0);
    assert forall|b: nat| is_floor(fmt, b, num, den) implies b == floor(fmt, num, den) by {
        lemma_floor_unique(fmt, b, floor(fmt, num, den), num, den);
    }
}

/// Factor by which a non-negative binary exponent multiplies.
pub open spec fn grow(k: int) -> nat {
    if k >= 0 {
        pow2(k as nat)
    } else {
        1
    }
}

/// Factor by which a negative binary exponent divides.
pub open spec fn shrink(k: int) -> nat {
    if k < 0 {
        pow2((-k) as nat)
    } else {
        1
    }
}

/// `num / den` is `m * 2^k` where nothing was discarded, and lies strictly
/// between `m * 2^k` and `(m + 1) * 2^k` where something was.
pub open spec fn represents(m: nat, k: int, sticky: bool, num: nat, den: nat) -> bool {
    if sticky {
        m * grow(k) * den < num * shrink(k) < (m + 1) * grow(k) * den
    } else {
        m * grow(k) * den == num * shrink(k)
    }
}

/// Number of low bits of `m` that do not fit: what exceeds the significand's
/// width, and at least what lies below the smallest step.
pub open spec fn excess(fmt: Format, m: nat, k: int) -> int {
    let a = bit_len(m) - (fmt.frac_bits + 1);
    if a >= -k {
        a
    } else {
        -k
    }
}

/// The magnitude computed from `m * 2^k` and the flag `sticky`.
pub open spec fn pack(fmt: Format, m: nat, k: int, sticky: bool) -> nat {
    let s = excess(fmt, m, k);
    let e = k + s;
    if m == 0 {
        0
    } else if e >= pow2(fmt.exp_bits as nat) - 2 {
        fmt.inf()
    } else if s <= 0 {
        (e * fmt.hidden() + m * pow2((-s) as nat)) as nat
    } else {
        let q = m / pow2(s as nat);
        let rem = m % pow2(s as nat);
        let half = pow2((s - 1) as nat);
        let up = rem > half || (rem == half && (sticky || q % 2 == 1));
        (e * fmt.hidden() + q + if up {
            1nat
        } else {
            0nat
        }) as nat
    }
}

pub proof fn lemma_pow2_le(a: nat, b: nat)
    requires
        a <= b,
    ensures
        pow2(a) <= pow2(b),
{
    if a < b {
        lemma_pow2_strictly_increases(a, b);
    }
}

pub proof fn lemma_balance(a: nat, k: int, b: nat)
    requires
        a + k == b,
    ensures
        pow2(a) * grow(k) == pow2(b) * shrink(k),
        grow(k) > 0,
        shrink(k) > 0,
{
    if k >= 0 {
        lemma_pow2_adds(a, k as nat);
        lemma_pow2_pos(k as nat);
        assert(a + k as nat == b);
        assert(pow2(b) * 1 == pow2(b));
    } else {
        lemma_pow2_adds(b, (-k) as nat);
        lemma_pow2_pos((-k) as nat);
        assert(b + (-k) as nat == a);
        assert(pow2(a) * 1 == pow2(a));
    }
}

pub proof fn lemma_cancel_le(a: int, b: int, u: int)
    by (nonlinear_arith)
    requires
        u > 0,
        a * u <= b * u,
    ensures
        a <= b,
{
}

pub proof fn lemma_cancel_eq(a: int, b: int, u: int)
    by (nonlinear_arith)
    requires
        u > 0,
        a * u == b * u,
    ensures
        a == b,
{
}

pub proof fn lemma_cancel_lt(a: int, b: int, u: int)
    by (nonlinear_arith)
    requires
        u > 0,
        a * u < b * u,
    ensures
        a < b,
{
}

/// From bounds on `m = q * s + rem` to bounds on `q`, after a change of unit.
proof fn lemma_quotient_bounds(q: int, rem: int, s: int, x: int, y: int, u: int, nu: int, m: int)
    requires
        m == q * s + rem,
        0 <= rem < s,
        0 <= q,
        x > 0,
        s * x == y * u,
        m * x <= nu < (m + 1) * x,
    ensures
        q * y * u <= nu < (q + 1) * y * u,
{
    assert(q * y * u == (q * s) * x) by (nonlinear_arith)
        requires
            s * x == y * u,
    ;
    assert((q + 1) * y * u == (q * s + s) * x) by (nonlinear_arith)
        requires
            s * x == y * u,
    ;
    assert((q * s) * x <= m * x) by (nonlinear_arith)
        requires
            q * s <= m,
            x > 0,
    ;
    assert((m + 1) * x <= (q * s + s) * x) by (nonlinear_arith)
        requires
            m + 1 <= q * s + s,
            x > 0,
    ;
}

/// Which side of the midpoint between `q` and `q + 1` the value lies on.
proof fn lemma_midpoint(
    q: int,
    rem: int,
    half: int,
    x: int,
    y: int,
    u: int,
    nu: int,
    m: int,
    sticky: bool,
)
    requires
        m == q * (2 * half) + rem,
        0 <= rem < 2 * half,
        0 <= q,
        x > 0,
        (2 * half) * x == y * u,
        if sticky {
            m * x < nu < (m + 1) * x
        } else {
            m * x == nu
        },
    ensures
        rem > half || (rem == half && sticky) ==> 2 * nu > (2 * q + 1) * y * u,
        rem < half ==> 2 * nu < (2 * q + 1) * y * u,
        rem == half && !sticky ==> 2 * nu == (2 * q + 1) * y * u,
{
    let s = 2 * half;
    assert((2 * q + 1) * y * u == (2 * (q * s) + s) * x) by (nonlinear_arith)
        requires
            s * x == y * u,
    ;
    assert(2 * (m * x) == (2 * (q * s) + 2 * rem) * x) by (nonlinear_arith)
        requires
            m == q * s + rem,
    ;
    assert(2 * ((m + 1) * x) == (2 * (q * s) + 2 * rem + 2) * x) by (nonlinear_arith)
        requires
            m == q * s + rem,
    ;
    let base = 2 * (q * s);
    if rem >= half {
        assert((base + s) * x <= (base + 2 * rem) * x) by (nonlinear_arith)
            requires
                s <= 2 * rem,
                x > 0,
        ;
        if rem > half {
            assert((base + s) * x < (base + 2 * rem) * x) by (nonlinear_arith)
                requires
                    s < 2 * rem,
                    x > 0,
            ;
        }
    }
    if rem <= half {
        assert((base + 2 * rem) * x <= (base + s) * x) by (nonlinear_arith)
            requires
                2 * rem <= s,
                x > 0,
        ;
    }
    if rem < half {
        assert((base + 2 * rem + 2) * x <= (base + s) * x) by (nonlinear_arith)
            requires
                2 * rem + 2 <= s,
                x > 0,
        ;
        assert((base + 2 * rem) * x < (base + s) * x) by (nonlinear_arith)
            requires
                2 * rem < s,
                x > 0,
        ;
    }
}


/// Infinity follows on the largest exponent that a finite number has.
pub proof fn lemma_inf(fmt: Format)
    requires
        fmt.valid(),
    ensures
        pow2(fmt.exp_bits as nat) >= 4,
        fmt.inf() == (pow2(fmt.exp_bits as nat) - 2) * fmt.hidden() + fmt.hidden(),
        fmt.scaled(fmt.inf()) == fmt.hidden() * pow2((pow2(fmt.exp_bits as nat) - 2) as nat),
        fmt.hidden() >= 2,
{
    let h = fmt.hidden();
    let w = pow2(fmt.exp_bits as nat);
    lemma2_to64();
    lemma_pow2_le(2, fmt.exp_bits as nat);
    lemma_pow2_le(1, fmt.frac_bits as nat);
    assert((w - 1) * h == (w - 2) * h + h) by (nonlinear_arith);
    lemma_compose(fmt, (w - 2) as nat, h);
}

proof fn lemma_below_inf(fmt: Format, e: int, q: nat)
    requires
        fmt.valid(),
        0 <= e < pow2(fmt.exp_bits as nat) - 2,
        q < 2 * fmt.hidden(),
    ensures
        e * fmt.hidden() + q < fmt.inf(),
        e * fmt.hidden() >= 0,
{
    let h = fmt.hidden();
    let top = pow2(fmt.exp_bits as nat) - 2;
    lemma_inf(fmt);
    assert(e * h <= (top - 1) * h) by (nonlinear_arith)
        requires
            e <= top - 1,
            h > 0,
    ;
    assert((top - 1) * h + 2 * h == top * h + h) by (nonlinear_arith);
    assert(e * h >= 0) by (nonlinear_arith)
        requires
            e >= 0,
            h > 0,
    ;
}

/// Zero rounds to zero.
pub proof fn lemma_nearest_zero(fmt: Format, den: nat)
    requires
        fmt.valid(),
        den > 0,
    ensures
        nearest(fmt, 0, den) == 0,
{
    lemma_floor(fmt, 0, den);
    lemma_inf(fmt);
    lemma_compose(fmt, 0, 0);
    assert(0 * fmt.hidden() + 0 == 0);
    lemma_scaled_succ(fmt, 0);
    lemma_pow2_pos(fmt.exponent(0));
    lemma_mul_strictly_positive(fmt.scaled(1) as int, den as int);
    assert(fmt.scaled(0) * den == 0);
    assert(is_floor(fmt, 0, 0, den));
}

/// A magnitude rounds to itself.
pub proof fn lemma_nearest_exact(fmt: Format, b: nat, num: nat, den: nat)
    requires
        den > 0,
        b <= fmt.inf(),
        num == fmt.scaled(b) * den,
    ensures
        nearest(fmt, num, den) == b,
{
    lemma_floor(fmt, num, den);
    lemma_scaled_succ(fmt, b);
    lemma_pow2_pos(fmt.exponent(b));
    lemma_mul_strict_inequality(fmt.scaled(b) as int, fmt.scaled(b + 1) as int, den as int);
    assert(is_floor(fmt, b, num, den));
}

proof fn lemma_pack_overflow(fmt: Format, m: nat, k: int, sticky: bool, num: nat, den: nat)
    requires
        fmt.valid(),
        den > 0,
        represents(m, k, sticky, num, den),
        m > 0,
        k + excess(fmt, m, k) >= pow2(fmt.exp_bits as nat) - 2,
    ensures
        pack(fmt, m, k, sticky) == nearest(fmt, num, den),
{
    let h = fmt.hidden();
    let p = fmt.frac_bits as nat;
    let l = bit_len(m);
    let s = excess(fmt, m, k);
    let e = (k + s) as nat;
    let top = (pow2(fmt.exp_bits as nat) - 2) as nat;
    let g = grow(k);
    let d = shrink(k);
    lemma_bit_len(m);
    lemma_inf(fmt);
    lemma_floor(fmt, num, den);
    assert(s == l - (p + 1));
    lemma_balance((l - 1) as nat, k, p + e);
    lemma_pow2_adds(p, e);
    lemma_pow2_le(top, e);
    let big = pow2(p + e);
    assert(big * d * den <= m * g * den) by (nonlinear_arith)
        requires
            pow2((l - 1) as nat) * g == big * d,
            pow2((l - 1) as nat) <= m,
            g > 0,
            den > 0,
    ;
    assert(m * g * den <= num * d);
    assert((big * den) * d == big * d * den) by (nonlinear_arith);
    lemma_cancel_le((big * den) as int, num as int, d as int);
    assert(h * pow2(top) * den <= big * den) by (nonlinear_arith)
        requires
            big == h * pow2(e),
            pow2(top) <= pow2(e),
            h > 0,
            den > 0,
    ;
    assert(is_floor(fmt, fmt.inf(), num, den));
}

proof fn lemma_pack_exact(fmt: Format, m: nat, k: int, num: nat, den: nat)
    requires
        fmt.valid(),
        den > 0,
        represents(m, k, false, num, den),
        m > 0,
        k + excess(fmt, m, k) < pow2(fmt.exp_bits as nat) - 2,
        excess(fmt, m, k) <= 0,
    ensures
        pack(fmt, m, k, false) == nearest(fmt, num, den),
{
    let h = fmt.hidden();
    let p = fmt.frac_bits as nat;
    let l = bit_len(m);
    let s = excess(fmt, m, k);
    let e = (k + s) as nat;
    let n = (-s) as nat;
    lemma_bit_len(m);
    lemma_inf(fmt);
    lemma_pow2_pos(n);
    lemma_pow2_pos(e);
    let big = m * pow2(n);
    // the significand fits
    lemma_pow2_adds(l, n);
    lemma_pow2_le(l + n, p + 1);
    lemma_pow2_unfold(p + 1);
    assert(big < pow2(l) * pow2(n)) by (nonlinear_arith)
        requires
            m < pow2(l),
            pow2(n) > 0,
            big == m * pow2(n),
    ;
    if e >= 1 {
        assert(s == l - (p + 1));
        lemma_pow2_adds((l - 1) as nat, n);
        assert(pow2((l - 1) as nat) * pow2(n) <= big) by (nonlinear_arith)
            requires
                pow2((l - 1) as nat) <= m,
                pow2(n) > 0,
                big == m * pow2(n),
        ;
    }
    lemma_compose(fmt, e, big);
    lemma_below_inf(fmt, e as int, big);
    let b = e * h + big;
    // its value is the number itself
    lemma_pow2_adds(n, e);
    assert(k == n + e);
    assert(grow(k) == pow2(n) * pow2(e));
    assert(shrink(k) == 1);
    assert(m * grow(k) * den == (big * pow2(e)) * den) by (nonlinear_arith)
        requires
            grow(k) == pow2(n) * pow2(e),
            big == m * pow2(n),
    ;
    assert(num * 1 == num);
    lemma_nearest_exact(fmt, b, num, den);
}

proof fn lemma_pack_round(fmt: Format, m: nat, k: int, sticky: bool, num: nat, den: nat)
    requires
        fmt.valid(),
        den > 0,
        represents(m, k, sticky, num, den),
        m > 0,
        k + excess(fmt, m, k) < pow2(fmt.exp_bits as nat) - 2,
        excess(fmt, m, k) >= 1,
    ensures
        pack(fmt, m, k, sticky) == nearest(fmt, num, den),
{
    let h = fmt.hidden();
    let p = fmt.frac_bits as nat;
    let l = bit_len(m);
    let s = excess(fmt, m, k) as nat;
    let e = (k + s) as nat;
    let g = grow(k);
    let d = shrink(k);
    let unit = pow2(s);
    let half = pow2((s - 1) as nat);
    let q = m / unit;
    let rem = m % unit;
    lemma_bit_len(m);
    lemma_inf(fmt);
    lemma_floor(fmt, num, den);
    lemma_pow2_pos(s);
    lemma_pow2_pos(e);
    lemma_pow2_unfold(s);
    lemma_fundamental_div_mod(m as int, unit as int);
    lemma_mod_bound(m as int, unit as int);
    lemma_div_pos_is_pos(m as int, unit as int);
    assert(m == q * unit + rem) by (nonlinear_arith)
        requires
            m == unit * q + rem,
    ;
    // the quotient is a significand
    lemma_pow2_adds(p + 1, s);
    lemma_pow2_le(l, p + 1 + s);
    lemma_pow2_unfold(p + 1);
    assert(q < 2 * h) by (nonlinear_arith)
        requires
            m == q * unit + rem,
            rem >= 0,
            m < (2 * h) * unit,
            unit > 0,
    ;
    if e >= 1 {
        assert(s == l - (p + 1));
        lemma_pow2_adds(p, s);
        assert(q >= h) by (nonlinear_arith)
            requires
                m == q * unit + rem,
                rem < unit,
                m >= h * unit,
                unit > 0,
        ;
    }
    lemma_compose(fmt, e, q);
    lemma_compose(fmt, e, q + 1);
    lemma_below_inf(fmt, e as int, q);
    let b = e * h + q;
    assert(b + 1 == e * h + (q + 1));
    // the number lies between the quotient and its successor
    lemma_balance(s, k, e);
    let x = g * den;
    let y = pow2(e) * den;
    let nu = num * d;
    lemma_mul_strictly_positive(g as int, den as int);
    assert(unit * x == y * d) by (nonlinear_arith)
        requires
            unit * g == pow2(e) * d,
            x == g * den,
            y == pow2(e) * den,
    ;
    assert(m * g * den == m * x) by (nonlinear_arith)
        requires
            x == g * den,
    ;
    assert((m + 1) * g * den == (m + 1) * x) by (nonlinear_arith)
        requires
            x == g * den,
    ;
    assert((m + 1) * x == m * x + x) by (nonlinear_arith);
    lemma_quotient_bounds(
        q as int,
        rem as int,
        unit as int,
        x as int,
        y as int,
        d as int,
        nu as int,
        m as int,
    );
    lemma_midpoint(
        q as int,
        rem as int,
        half as int,
        x as int,
        y as int,
        d as int,
        nu as int,
        m as int,
        sticky,
    );
    let lo = fmt.scaled(b) * den;
    let hi = fmt.scaled(b + 1) * den;
    assert(lo == q * y) by (nonlinear_arith)
        requires
            lo == (q * pow2(e)) * den,
            y == pow2(e) * den,
    ;
    assert(hi == (q + 1) * y) by (nonlinear_arith)
        requires
            hi == ((q + 1) * pow2(e)) * den,
            y == pow2(e) * den,
    ;
    lemma_cancel_le(lo as int, num as int, d as int);
    lemma_cancel_lt(num as int, hi as int, d as int);
    assert(is_floor(fmt, b, num, den));
    assert((lo + hi) * d == (2 * q + 1) * y * d) by (nonlinear_arith)
        requires
            lo == q * y,
            hi == (q + 1) * y,
    ;
    assert((2 * num) * d == 2 * nu) by (nonlinear_arith)
        requires
            nu == num * d,
    ;
    if 2 * nu > (2 * q + 1) * y * d {
        lemma_cancel_lt((lo + hi) as int, (2 * num) as int, d as int);
    } else if 2 * nu < (2 * q + 1) * y * d {
        lemma_cancel_lt((2 * num) as int, (lo + hi) as int, d as int);
    } else {
        lemma_cancel_le((lo + hi) as int, (2 * num) as int, d as int);
        lemma_cancel_le((2 * num) as int, (lo + hi) as int, d as int);
    }
    assert(b % 2 == q % 2) by {
        assert(h == 2 * pow2((p - 1) as nat)) by {
            lemma_pow2_unfold(p);
        }
        assert(e * h == (e * pow2((p - 1) as nat)) * 2) by (nonlinear_arith)
            requires
                h == 2 * pow2((p - 1) as nat),
        ;
        lemma_mod_multiples_vanish((e * pow2((p - 1) as nat)) as int, q as int, 2);
    }
}

/// What `pack` computes from a number given as `m * 2^k`, with a flag for a
/// discarded remainder, is the magnitude that the number rounds to. Where
/// something was discarded, `m` must reach beyond the significand's width.
pub proof fn lemma_pack_nearest(fmt: Format, m: nat, k: int, sticky: bool, num: nat, den: nat)
    requires
        fmt.valid(),
        den > 0,
        represents(m, k, sticky, num, den),
        sticky ==> m >= 2 * fmt.hidden(),
    ensures
        pack(fmt, m, k, sticky) == nearest(fmt, num, den),
{
    let p = fmt.frac_bits as nat;
    let l = bit_len(m);
    let s = excess(fmt, m, k);
    lemma_bit_len(m);
    lemma_pow2_pos(p);
    if m == 0 {
        lemma_balance((if k < 0 { -k } else { 0 }) as nat, k, (if k < 0 { 0 } else { k }) as nat);
        assert(m * grow(k) * den == 0) by (nonlinear_arith)
            requires
                m == 0,
        ;
        assert(num == 0) by (nonlinear_arith)
            requires
                num * shrink(k) == 0,
                shrink(k) > 0,
        ;
        lemma_nearest_zero(fmt, den);
    } else if k + s >= pow2(fmt.exp_bits as nat) - 2 {
        lemma_pack_overflow(fmt, m, k, sticky, num, den);
    } else if s <= 0 {
        if sticky {
            lemma_pow2_unfold(p + 1);
            lemma_pow2_le(l, p + 1);
        }
        lemma_pack_exact(fmt, m, k, num, den);
    } else {
        lemma_pack_round(fmt, m, k, sticky, num, den);
    }
}


/// The sizes of what `pack` puts together.
proof fn lemma_pack_parts(fmt: Format, m: nat, k: int)
    requires
        fmt.valid(),
        m > 0,
    ensures
        excess(fmt, m, k) <= 0 ==> m * pow2((-excess(fmt, m, k)) as nat) < 2 * fmt.hidden(),
        excess(fmt, m, k) >= 1 ==> m / pow2(excess(fmt, m, k) as nat) < 2 * fmt.hidden(),
        excess(fmt, m, k) > bit_len(m) ==> m / pow2(excess(fmt, m, k) as nat) == 0 && m % pow2(
            excess(fmt, m, k) as nat,
        ) == m && m < pow2((excess(fmt, m, k) - 1) as nat),
{
    let h = fmt.hidden();
    let p = fmt.frac_bits as nat;
    let l = bit_len(m);
    let s = excess(fmt, m, k);
    lemma_bit_len(m);
    lemma_pow2_unfold(p + 1);
    if s <= 0 {
        let n = (-s) as nat;
        lemma_pow2_pos(n);
        lemma_pow2_adds(l, n);
        lemma_pow2_le(l + n, p + 1);
        assert(m * pow2(n) < pow2(l) * pow2(n)) by (nonlinear_arith)
            requires
                m < pow2(l),
                pow2(n) > 0,
        ;
    } else {
        let unit = pow2(s as nat);
        let q = m / unit;
        let rem = m % unit;
        lemma_pow2_pos(s as nat);
        lemma_fundamental_div_mod(m as int, unit as int);
        lemma_mod_bound(m as int, unit as int);
        lemma_pow2_adds(p + 1, s as nat);
        lemma_pow2_le(l, p + 1 + s as nat);
        assert(q < 2 * h) by (nonlinear_arith)
            requires
                m == unit * q + rem,
                rem >= 0,
                m < (2 * h) * unit,
                unit > 0,
        ;
        if s > l {
            lemma_pow2_le(l, (s - 1) as nat);
            lemma_pow2_unfold(s as nat);
            lemma_basic_div(m as int, unit as int);
            lemma_small_mod(m, unit);
        }
    }
}

/// Rounds `m * 2^k`, or with `sticky` a number strictly between that and
/// `(m + 1) * 2^k`, to a magnitude of the format.
pub fn round_pack(fmt: Format, m: u128, k: i32, sticky: bool) -> (r: u64)
    requires
        fmt.valid(),
        m < 0x100_0000_0000_0000_0000_0000_0000_0000,
        -8192 <= k <= 8192,
    ensures
        r == pack(fmt, m as nat, k as int, sticky),
        r <= fmt.inf(),
        fmt.inf() < 0x8000_0000_0000_0000,
{
    proof {
        lemma_inf(fmt);
        lemma2_to64();
        lemma2_to64_rest();
        lemma_pow2_adds(60, 60);
        assert(pow2(120) == 0x1000_0000_0000_0000 * 0x1000_0000_0000_0000);
        lemma_pow2_le(fmt.frac_bits as nat, 52);
        lemma_pow2_le(fmt.exp_bits as nat, 11);
    }
    let h: u64 = two_pow(fmt.frac_bits) as u64;
    let top: i32 = (two_pow(fmt.exp_bits) - 2) as i32;
    proof {
        assert(top * h + h <= 2046 * 0x10_0000_0000_0000 + 0x10_0000_0000_0000) by (nonlinear_arith)
            requires
                0 <= top <= 2046,
                0 <= h <= 0x10_0000_0000_0000,
        ;
    }
    if m == 0 {
        return 0;
    }
    let l: i32 = bit_length(m) as i32;
    proof {
        lemma_bit_len(m as nat);
        if l > 120 {
            lemma_pow2_le(120, (l - 1) as nat);
        }
        lemma_pack_parts(fmt, m as nat, k as int);
    }
    let a: i32 = l - (fmt.frac_bits as i32 + 1);
    let s: i32 = if a >= -k {
        a
    } else {
        -k
    };
    let e: i32 = k + s;
    assert(s == excess(fmt, m as nat, k as int));
    if e >= top {
        return (top as u64 + 1) * h;
    }
    proof {
        assert(e * h <= 2046 * 0x10_0000_0000_0000) by (nonlinear_arith)
            requires
                0 <= e <= 2046,
                0 <= h <= 0x10_0000_0000_0000,
        ;
    }
    if s <= 0 {
        let n: u32 = (-s) as u32;
        let big: u128 = m * two_pow(n);
        proof {
            lemma_below_inf(fmt, e as int, big as nat);
        }
        return (e as u64) * h + (big as u64);
    }
    if s > l {
        proof {
            assert(e == 0);
            assert(0 * fmt.hidden() == 0);
        }
        return 0;
    }
    let unit: u128 = two_pow(s as u32);
    proof {
        lemma_pow2_pos(s as nat);
    }
    let q: u128 = m / unit;
    let rem: u128 = m % unit;
    let half: u128 = unit / 2;
    let up: bool = rem > half || (rem == half && (sticky || q % 2 == 1));
    proof {
        lemma_pow2_unfold(s as nat);
        lemma_below_inf(fmt, e as int, q as nat);
    }
    (e as u64) * h + (q as u64) + if up {
        1u64
    } else {
        0u64
    }
}


/// A rational rounds to its floor or to the magnitude after it.
pub proof fn lemma_nearest_bounds(fmt: Format, num: nat, den: nat)
    requires
        den > 0,
    ensures
        floor(fmt, num, den) <= nearest(fmt, num, den) <= floor(fmt, num, den) + 1,
        nearest(fmt, num, den) <= fmt.inf(),
{
    lemma_floor(fmt, num, den);
}

proof fn lemma_scaled_le(fmt: Format, a: nat, b: nat)
    requires
        a <= b,
    ensures
        fmt.scaled(a) <= fmt.scaled(b),
{
    if a < b {
        lemma_scaled_increasing(fmt, a, b);
    }
}

/// The floor of a smaller rational is not above that of a larger one.
proof fn lemma_floor_ordered(fmt: Format, n1: nat, d1: nat, n2: nat, d2: nat)
    requires
        d1 > 0,
        d2 > 0,
        n1 * d2 <= n2 * d1,
    ensures
        floor(fmt, n1, d1) <= floor(fmt, n2, d2),
{
    let f1 = floor(fmt, n1, d1);
    let f2 = floor(fmt, n2, d2);
    lemma_floor(fmt, n1, d1);
    lemma_floor(fmt, n2, d2);
    if f1 > f2 {
        let v1 = fmt.scaled(f1);
        let v2 = fmt.scaled(f2 + 1);
        lemma_scaled_le(fmt, f2 + 1, f1);
        assert(n2 * d1 < (v2 * d2) * d1) by (nonlinear_arith)
            requires
                n2 < v2 * d2,
                d1 > 0,
        ;
        assert((v2 * d2) * d1 <= (v1 * d1) * d2) by (nonlinear_arith)
            requires
                v2 <= v1,
                d1 > 0,
                d2 > 0,
        ;
        assert((v1 * d1) * d2 <= n1 * d2) by (nonlinear_arith)
            requires
                v1 * d1 <= n1,
                d2 > 0,
        ;
    }
}

/// Rounding keeps the order: of two rationals, the smaller does not round
/// to the larger magnitude.
pub proof fn lemma_nearest_monotonic(fmt: Format, n1: nat, d1: nat, n2: nat, d2: nat)
    requires
        d1 > 0,
        d2 > 0,
        n1 * d2 <= n2 * d1,
    ensures
        nearest(fmt, n1, d1) <= nearest(fmt, n2, d2),
{
    let f1 = floor(fmt, n1, d1);
    let f2 = floor(fmt, n2, d2);
    lemma_floor(fmt, n1, d1);
    lemma_floor(fmt, n2, d2);
    lemma_floor_ordered(fmt, n1, d1, n2, d2);
    if f1 == f2 && f1 < fmt.inf() && nearest(fmt, n1, d1) == f1 + 1 {
        let mid = fmt.scaled(f1) + fmt.scaled(f1 + 1);
        assert(fmt.scaled(f1) * d1 + fmt.scaled(f1 + 1) * d1 == mid * d1) by (nonlinear_arith)
            requires
                mid == fmt.scaled(f1) + fmt.scaled(f1 + 1),
        ;
        assert(fmt.scaled(f1) * d2 + fmt.scaled(f1 + 1) * d2 == mid * d2) by (nonlinear_arith)
            requires
                mid == fmt.scaled(f1) + fmt.scaled(f1 + 1),
        ;
        assert(2 * n1 >= mid * d1);
        assert((mid * d1) * d2 <= (2 * n1) * d2) by (nonlinear_arith)
            requires
                mid * d1 <= 2 * n1,
                d2 > 0,
        ;
        assert((2 * n1) * d2 <= (2 * n2) * d1) by (nonlinear_arith)
            requires
                n1 * d2 <= n2 * d1,
        ;
        assert((mid * d1) * d2 == (mid * d2) * d1) by (nonlinear_arith);
        lemma_cancel_le((mid * d2) as int, (2 * n2) as int, d1 as int);
        if 2 * n2 == mid * d2 {
            assert((2 * n1) * d2 == (mid * d1) * d2);
            lemma_cancel_eq((2 * n1) as int, (mid * d1) as int, d2 as int);
        }
    }
}

/// A rational below the midpoint between a magnitude and the next does not
/// round above that magnitude.
pub proof fn lemma_nearest_at_most(fmt: Format, b: nat, num: nat, den: nat)
    requires
        den > 0,
        b < fmt.inf(),
        2 * num < (fmt.scaled(b) + fmt.scaled(b + 1)) * den,
    ensures
        nearest(fmt, num, den) <= b,
{
    let f = floor(fmt, num, den);
    let lo = fmt.scaled(b);
    let hi = fmt.scaled(b + 1);
    lemma_floor(fmt, num, den);
    lemma_scaled_le(fmt, b, b + 1);
    assert((lo + hi) * den == lo * den + hi * den) by (nonlinear_arith);
    if f > b {
        let v = fmt.scaled(f);
        lemma_scaled_le(fmt, b + 1, f);
        assert((lo + hi) * den <= 2 * (v * den)) by (nonlinear_arith)
            requires
                lo <= hi,
                hi <= v,
                den > 0,
        ;
    }
}


/// Rounding moves a number by at most half the weight of the last place of
/// its floor.
pub proof fn lemma_nearest_error(fmt: Format, num: nat, den: nat)
    requires
        den > 0,
        floor(fmt, num, den) < fmt.inf(),
    ensures
        2 * (fmt.scaled(nearest(fmt, num, den)) * den - num) <= pow2(
            fmt.exponent(floor(fmt, num, den)),
        ) * den,
        2 * (num - fmt.scaled(nearest(fmt, num, den)) * den) <= pow2(
            fmt.exponent(floor(fmt, num, den)),
        ) * den,
{
    let f = floor(fmt, num, den);
    let step = pow2(fmt.exponent(f));
    lemma_floor(fmt, num, den);
    lemma_scaled_succ(fmt, f);
    assert(fmt.scaled(f + 1) * den == fmt.scaled(f) * den + step * den) by (nonlinear_arith)
        requires
            fmt.scaled(f + 1) == fmt.scaled(f) + step,
    ;
}

} // verus!
