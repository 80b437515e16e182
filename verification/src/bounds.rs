//! Where the initial positions and velocities lie.

use crate::format::{lemma_compose, lemma_scaled_order};
use crate::rounding::{
    lemma_nearest_at_most, lemma_nearest_exact, lemma_nearest_monotonic, nearest,
};
use crate::scalar::{
    binary32, difference, lemma_binary32, lemma_difference_negative, lemma_difference_positive,
    lemma_product_positive, lemma_sum_positive, product, size, sum, within, INFINITY, ONE,
};
use crate::universe::{
    initial, uniform, unit_interval, N, POSITION_LOW, VELOCITY_HIGH, VELOCITY_LOW, X_HIGH, Y_HIGH,
};
use vstd::arithmetic::power2::*;
use vstd::prelude::*;

verus! {

/// The size of the pattern with exponent `e` and significand `m`, in units
/// of `2^-149`, as a multiple of `2^125`.
proof fn lemma_size(bits: u32, e: nat, m: nat, shift: nat, coef: nat)
    requires
        125 <= e <= 135,
        0x80_0000 <= m < 0x100_0000,
        bits == e * 0x80_0000 + m,
        shift == pow2((e - 125) as nat),
        coef == m * shift,
    ensures
        size(bits) == coef * pow2(125),
        bits < INFINITY,
{
    lemma_binary32();
    lemma_compose(binary32(), e, m);
    lemma_pow2_adds((e - 125) as nat, 125);
    assert(m * (shift * pow2(125)) == (m * shift) * pow2(125)) by (nonlinear_arith);
    assert(e * 0x80_0000 <= 135 * 0x80_0000);
}

/// The largest number that 23 bits of a word give in `[0, 1)`: one less
/// `2^-23`.
pub const LARGEST_FRACTION: u32 = 0x3f7f_fffe;

/// A word's number in `[0, 1)` is not negative and at most the largest
/// fraction.
pub proof fn lemma_unit_interval(word: u32)
    ensures
        unit_interval(word) <= LARGEST_FRACTION,
{
    let f = binary32();
    let unit = pow2(125);
    let a = (ONE + word / 512) as u32;
    lemma2_to64();
    lemma_size(ONE, 126, 0x80_0000, 2, 0x100_0000);
    lemma_size(0x3fff_ffff, 126, 0xff_ffff, 2, 0x1ff_fffe);
    lemma_size(LARGEST_FRACTION, 125, 0xff_fffe, 1, 0xff_fffe);
    lemma_scaled_order(f, a as nat, 0x3fff_ffff);
    lemma_difference_positive(a, ONE);
    let v = (size(a) - size(ONE)) as nat;
    assert(v * 1 <= size(LARGEST_FRACTION) * 1);
    lemma_nearest_monotonic(f, v, 1, size(LARGEST_FRACTION), 1);
    lemma_nearest_exact(f, LARGEST_FRACTION as nat, size(LARGEST_FRACTION), 1);
}

/// An initial coordinate lies in `[0.2 * WIDTH, 0.8 * WIDTH)`, whichever
/// word picks it.
pub proof fn lemma_position_bounds(word: u32)
    ensures
        within(uniform(word, POSITION_LOW, X_HIGH), POSITION_LOW, X_HIGH),
{
    let f = binary32();
    let unit = pow2(125);
    let u = unit_interval(word);
    lemma2_to64();
    lemma_binary32();
    lemma_pow2_pos(125);
    lemma_pow2_pos(149);
    lemma_pow2_adds(24, 125);
    lemma_unit_interval(word);
    lemma_size(LARGEST_FRACTION, 125, 0xff_fffe, 1, 0xff_fffe);
    lemma_size(POSITION_LOW, 133, 0xcc_cccd, 256, 0xcccc_cd00);
    lemma_size(X_HIGH, 135, 0xcc_cccd, 1024, 0x3_3333_3400);
    lemma_size(0x4419_999a, 135, 0x99_999a, 1024, 0x2_6666_6800);
    lemma_size(0x4419_9999, 135, 0x99_9999, 1024, 0x2_6666_6400);
    lemma_size(0x444c_cccc, 135, 0xcc_cccc, 1024, 0x3_3333_3000);
    // the width of the interval
    let scale = difference(X_HIGH, POSITION_LOW);
    lemma_difference_positive(X_HIGH, POSITION_LOW);
    let gap = (size(X_HIGH) - size(POSITION_LOW)) as nat;
    assert(gap * 1 <= size(0x4419_999a) * 1);
    lemma_nearest_monotonic(f, gap, 1, size(0x4419_999a), 1);
    lemma_nearest_exact(f, 0x4419_999a, size(0x4419_999a), 1);
    assert(scale <= 0x4419_999a);
    // the word's share of it
    let share = product(u, scale);
    lemma_product_positive(u, scale);
    lemma_scaled_order(f, u as nat, LARGEST_FRACTION as nat);
    lemma_scaled_order(f, scale as nat, 0x4419_999a);
    let most = size(0x4419_9999) * pow2(149);
    assert(size(u) * size(scale) <= size(LARGEST_FRACTION) * size(0x4419_999a)) by (nonlinear_arith)
        requires
            size(u) <= size(LARGEST_FRACTION),
            size(scale) <= size(0x4419_999a),
    ;
    assert(size(LARGEST_FRACTION) * size(0x4419_999a) <= most) by (nonlinear_arith)
        requires
            size(LARGEST_FRACTION) == 0xff_fffe * unit,
            size(0x4419_999a) == 0x2_6666_6800 * unit,
            most == (0x2_6666_6400 * unit) * pow2(149),
            pow2(149) == 0x100_0000 * unit,
            unit > 0,
    ;
    assert((size(u) * size(scale)) * pow2(149) <= most * pow2(149)) by (nonlinear_arith)
        requires
            size(u) * size(scale) <= most,
    ;
    lemma_nearest_monotonic(f, size(u) * size(scale), pow2(149), most, pow2(149));
    lemma_nearest_exact(f, 0x4419_9999, most, pow2(149));
    assert(share <= 0x4419_9999);
    // set off from the lower bound
    let at = sum(share, POSITION_LOW);
    lemma_sum_positive(share, POSITION_LOW);
    lemma_scaled_order(f, share as nat, 0x4419_9999);
    let exact = size(share) + size(POSITION_LOW);
    let top = size(0x4419_9999) + size(POSITION_LOW);
    assert(size(POSITION_LOW) * 1 <= exact * 1);
    lemma_nearest_monotonic(f, size(POSITION_LOW), 1, exact, 1);
    lemma_nearest_exact(f, POSITION_LOW as nat, size(POSITION_LOW), 1);
    assert(exact * 1 <= top * 1);
    lemma_nearest_monotonic(f, exact, 1, top, 1);
    assert((size(0x444c_cccc) + size(X_HIGH)) * 1 == 0x6_6666_6400 * unit);
    lemma_nearest_at_most(f, 0x444c_cccc, top, 1);
    assert(POSITION_LOW <= at <= 0x444c_cccc);
    lemma_scaled_order(f, POSITION_LOW as nat, at as nat);
    lemma_scaled_order(f, at as nat, X_HIGH as nat);
}

/// An initial velocity component lies in `[-1, 1)`, whichever word picks it.
pub proof fn lemma_velocity_bounds(word: u32)
    ensures
        within(uniform(word, VELOCITY_LOW, VELOCITY_HIGH), VELOCITY_LOW, VELOCITY_HIGH),
{
    let f = binary32();
    let unit = pow2(125);
    let u = unit_interval(word);
    lemma2_to64();
    lemma_binary32();
    lemma_pow2_pos(125);
    lemma_pow2_pos(149);
    lemma_pow2_adds(24, 125);
    lemma_unit_interval(word);
    lemma_size(LARGEST_FRACTION, 125, 0xff_fffe, 1, 0xff_fffe);
    lemma_size(ONE, 126, 0x80_0000, 2, 0x100_0000);
    lemma_size(0x4000_0000, 127, 0x80_0000, 4, 0x200_0000);
    lemma_size(0x3fff_fffe, 126, 0xff_fffe, 2, 0x1ff_fffc);
    lemma_size(0x3f7f_fffc, 125, 0xff_fffc, 1, 0xff_fffc);
    // the width of the interval is two
    let scale = difference(VELOCITY_HIGH, VELOCITY_LOW);
    assert(f.negated(VELOCITY_LOW as u64) == ONE);
    assert(scale == sum(ONE, ONE));
    lemma_sum_positive(ONE, ONE);
    assert(size(ONE) + size(ONE) == size(0x4000_0000) * 1);
    lemma_nearest_exact(f, 0x4000_0000, size(ONE) + size(ONE), 1);
    assert(scale == 0x4000_0000);
    // the word's share of it
    let share = product(u, scale);
    lemma_product_positive(u, scale);
    lemma_scaled_order(f, u as nat, LARGEST_FRACTION as nat);
    let most = size(0x3fff_fffe) * pow2(149);
    assert(size(u) * size(scale) <= size(LARGEST_FRACTION) * size(scale)) by (nonlinear_arith)
        requires
            size(u) <= size(LARGEST_FRACTION),
    ;
    assert(size(LARGEST_FRACTION) * size(scale) <= most) by (nonlinear_arith)
        requires
            size(LARGEST_FRACTION) == 0xff_fffe * unit,
            size(scale) == 0x200_0000 * unit,
            most == (0x1ff_fffc * unit) * pow2(149),
            pow2(149) == 0x100_0000 * unit,
            unit > 0,
    ;
    assert((size(u) * size(scale)) * pow2(149) <= most * pow2(149)) by (nonlinear_arith)
        requires
            size(u) * size(scale) <= most,
    ;
    lemma_nearest_monotonic(f, size(u) * size(scale), pow2(149), most, pow2(149));
    lemma_nearest_exact(f, 0x3fff_fffe, most, pow2(149));
    assert(share <= 0x3fff_fffe);
    // set off from minus one
    let at = sum(share, VELOCITY_LOW);
    assert(f.negated(ONE as u64) == VELOCITY_LOW);
    assert(at == difference(share, ONE));
    lemma_scaled_order(f, share as nat, 0x3fff_fffe);
    if share >= ONE {
        lemma_difference_positive(share, ONE);
        let exact = (size(share) - size(ONE)) as nat;
        assert(exact * 1 <= size(0x3f7f_fffc) * 1);
        lemma_nearest_monotonic(f, exact, 1, size(0x3f7f_fffc), 1);
        lemma_nearest_exact(f, 0x3f7f_fffc, size(0x3f7f_fffc), 1);
        assert(at <= 0x3f7f_fffc);
        lemma_scaled_order(f, at as nat, ONE as nat);
    } else {
        lemma_difference_negative(share, ONE);
        let exact = (size(ONE) - size(share)) as nat;
        let mag = nearest(f, exact, 1);
        assert(exact * 1 <= size(ONE) * 1);
        lemma_nearest_monotonic(f, exact, 1, size(ONE), 1);
        lemma_nearest_exact(f, ONE as nat, size(ONE), 1);
        assert(at == 0x8000_0000 + mag);
        lemma_scaled_order(f, mag, ONE as nat);
    }
}

/// Initial distribution bounds: every abscissa of a new universe lies in
/// `[0.2 * WIDTH, 0.8 * WIDTH)`, every ordinate in `[0.2 * WIDTH, 0.8 *
/// HEIGHT)`, and every velocity component in `[-1, 1)`.
pub proof fn lemma_initial_bounds()
    ensures
        forall|i: int| 0 <= i < N ==> within(#[trigger] initial().x[i], POSITION_LOW, X_HIGH),
        forall|i: int| 0 <= i < N ==> within(#[trigger] initial().y[i], POSITION_LOW, Y_HIGH),
        forall|i: int|
            0 <= i < N ==> within(#[trigger] initial().vx[i], VELOCITY_LOW, VELOCITY_HIGH),
        forall|i: int|
            0 <= i < N ==> within(#[trigger] initial().vy[i], VELOCITY_LOW, VELOCITY_HIGH),
{
    assert forall|i: int| 0 <= i < N implies within(
        #[trigger] initial().x[i],
        POSITION_LOW,
        X_HIGH,
    ) by {
        lemma_position_bounds(crate::generator::nth_word(crate::universe::SEED, (4 * i) as nat));
    }
    assert forall|i: int| 0 <= i < N implies within(
        #[trigger] initial().y[i],
        POSITION_LOW,
        Y_HIGH,
    ) by {
        lemma_position_bounds(
            crate::generator::nth_word(crate::universe::SEED, (4 * i + 1) as nat),
        );
    }
    assert forall|i: int| 0 <= i < N implies within(
        #[trigger] initial().vx[i],
        VELOCITY_LOW,
        VELOCITY_HIGH,
    ) by {
        lemma_velocity_bounds(
            crate::generator::nth_word(crate::universe::SEED, (4 * i + 2) as nat),
        );
    }
    assert forall|i: int| 0 <= i < N implies within(
        #[trigger] initial().vy[i],
        VELOCITY_LOW,
        VELOCITY_HIGH,
    ) by {
        lemma_velocity_bounds(
            crate::generator::nth_word(crate::universe::SEED, (4 * i + 3) as nat),
        );
    }
}

} // verus!
