//! What holds of every universe.

use crate::format::{lemma_compose, lemma_decompose, lemma_scaled_order, lemma_scaled_succ};
use crate::rounding::{
    floor, lemma_floor, lemma_nearest_error, lemma_nearest_exact, lemma_nearest_monotonic,
    lemma_pow2_le,
};
use crate::scalar::{
    binary32, binary64, lemma_binary32, lemma_binary64, lemma_product_positive,
    lemma_sum64_positive, less64, of_integer, product, quotient, size, size64, sum, sum64, ONE,
    ZERO,
};
use vstd::arithmetic::power2::*;
use crate::universe::{
    initial, lemma_stepped_upto_keeps, pull, pulled, stepped_one, stepped_upto, ticked,
    ticked_times, State, DT, DT_WIDE, HEIGHT, MASS, N, POSITION_LOW, VELOCITY_HIGH,
    VELOCITY_LOW, WIDTH, X_HIGH, Y_HIGH,
};
use vstd::prelude::*;

verus! {

/// A time step keeps the number of particles and the masses, and leaves the
/// arrays aligned.
pub proof fn lemma_tick_keeps(s: State)
    requires
        s.aligned(),
    ensures
        ticked(s).aligned(),
        ticked(s).count() == s.count(),
        ticked(s).m == s.m,
        ticked(s).t == sum64(s.t, DT_WIDE),
{
    lemma_stepped_upto_keeps(s, s.count());
}

/// Any number of time steps keeps the number of particles and the masses,
/// and leaves the arrays aligned.
pub proof fn lemma_ticks_keep(s: State, k: nat)
    requires
        s.aligned(),
    ensures
        ticked_times(s, k).aligned(),
        ticked_times(s, k).count() == s.count(),
        ticked_times(s, k).m == s.m,
    decreases k,
{
    if k > 0 {
        lemma_ticks_keep(s, (k - 1) as nat);
        lemma_tick_keeps(ticked_times(s, (k - 1) as nat));
    }
}

/// Determinism: two universes that start as `Universe::new` makes them are
/// the same, and are the same after any equal number of time steps.
pub proof fn lemma_determinism(a: State, b: State, k: nat)
    requires
        a == initial(),
        b == initial(),
    ensures
        a.x == b.x && a.y == b.y && a.vx == b.vx && a.vy == b.vy,
        ticked_times(a, k) == ticked_times(b, k),
{
}

/// A new universe has `N` particles in each of its arrays, no acceleration
/// anywhere, and its clock at zero.
pub proof fn lemma_initial_shape()
    ensures
        initial().aligned(),
        initial().count() == N,
        initial().t == 0,
        forall|i: int| 0 <= i < N ==> initial().ax[i] == ZERO && initial().ay[i] == ZERO,
{
}

/// 0.2 in single precision.
pub const ONE_FIFTH: u32 = 0x3e4c_cccd;

/// 0.8 in single precision.
pub const FOUR_FIFTHS: u32 = 0x3f4c_cccd;

/// The box of the initial positions: width and height are 1024, both
/// coordinates start at 0.2 times the width, the abscissa ends at 0.8 times
/// the width and the ordinate at 0.8 times the height.
pub proof fn lemma_box()
    ensures
        of_integer(WIDTH) == 0x4480_0000,
        of_integer(HEIGHT) == 0x4480_0000,
        POSITION_LOW == product(ONE_FIFTH, of_integer(WIDTH)),
        X_HIGH == product(FOUR_FIFTHS, of_integer(WIDTH)),
        Y_HIGH == product(FOUR_FIFTHS, of_integer(HEIGHT)),
{
    let f = binary32();
    let h = f.hidden();
    let side: u32 = 0x4480_0000;
    lemma_binary32();
    lemma2_to64();
    lemma_pow2_pos(149);
    // 1024 is 2^23 * 2^136 in units of 2^-149
    lemma_compose(f, 136, h);
    assert(side == 136 * h + h);
    lemma_pow2_adds(23, 136);
    lemma_pow2_adds(10, 149);
    assert(1024 * pow2(149) == size(side) * 1);
    lemma_nearest_exact(f, side as nat, 1024 * pow2(149), 1);
    // a product with it moves the exponent by ten
    lemma_compose(f, 123, 0xcc_cccd);
    assert(ONE_FIFTH == 123 * h + 0xcc_cccd);
    lemma_compose(f, 125, 0xcc_cccd);
    assert(FOUR_FIFTHS == 125 * h + 0xcc_cccd);
    lemma_compose(f, 133, 0xcc_cccd);
    assert(POSITION_LOW == 133 * h + 0xcc_cccd);
    lemma_compose(f, 135, 0xcc_cccd);
    assert(X_HIGH == 135 * h + 0xcc_cccd);
    lemma_pow2_adds(123, 10);
    lemma_pow2_adds(125, 10);
    let m: nat = 0xcc_cccd;
    assert((m * pow2(123)) * (1024 * pow2(149)) == (m * pow2(133)) * pow2(149))
        by (nonlinear_arith)
        requires
            pow2(133) == pow2(123) * 1024,
    ;
    assert((m * pow2(125)) * (1024 * pow2(149)) == (m * pow2(135)) * pow2(149))
        by (nonlinear_arith)
        requires
            pow2(135) == pow2(125) * 1024,
    ;
    lemma_product_positive(ONE_FIFTH, side);
    lemma_product_positive(FOUR_FIFTHS, side);
    lemma_nearest_exact(f, POSITION_LOW as nat, size(ONE_FIFTH) * size(side), pow2(149));
    lemma_nearest_exact(f, X_HIGH as nat, size(FOUR_FIFTHS) * size(side), pow2(149));
}

/// The constants are the numbers they are named for: one, the mass three,
/// the velocity bounds minus one and one, and the clock's time step, which
/// is the particles' time step written in double precision.
pub proof fn lemma_constants()
    ensures
        ONE == of_integer(1),
        MASS == of_integer(3),
        VELOCITY_HIGH == ONE,
        VELOCITY_LOW == binary32().negated(ONE as u64),
        size64(DT_WIDE) == size(DT) * pow2(925),
{
    let f = binary32();
    let h = f.hidden();
    lemma_binary32();
    lemma_binary64();
    lemma2_to64();
    lemma_compose(f, 126, h);
    assert(ONE == 126 * h + h);
    lemma_pow2_adds(23, 126);
    assert(1 * pow2(149) == size(ONE) * 1);
    lemma_nearest_exact(f, ONE as nat, 1 * pow2(149), 1);
    lemma_compose(f, 127, 0xc0_0000);
    assert(MASS == 127 * h + 0xc0_0000);
    lemma_pow2_adds(22, 127);
    assert(0xc0_0000 * pow2(127) == 3 * pow2(149)) by (nonlinear_arith)
        requires
            pow2(149) == 0x40_0000 * pow2(127),
    ;
    assert(3 * pow2(149) == size(MASS) * 1);
    lemma_nearest_exact(f, MASS as nat, 3 * pow2(149), 1);
    lemma_compose(f, 119, 0xa3_d70a);
    assert(DT == 119 * h + 0xa3_d70a);
    lemma_compose(binary64(), 1015, 0x14_7ae1_4000_0000);
    assert(DT_WIDE == 1015 * binary64().hidden() + 0x14_7ae1_4000_0000);
    lemma_pow2_adds(119, 925);
    lemma_pow2_adds(29, 1015);
    assert(0x14_7ae1_4000_0000 * pow2(1015) == (0xa3_d70a * pow2(119)) * pow2(925))
        by (nonlinear_arith)
        requires
            pow2(1044) == pow2(119) * pow2(925),
            pow2(1044) == 0x2000_0000 * pow2(1015),
    ;
}

/// The clock after `k` time steps from `t`: the time step added `k` times,
/// each sum rounded to double precision.
pub open spec fn clock_after(t: u64, k: nat) -> u64
    decreases k,
{
    if k == 0 {
        t
    } else {
        sum64(clock_after(t, (k - 1) as nat), DT_WIDE)
    }
}

/// After `k` time steps the clock holds the time step added `k` times to
/// what it held, whatever the particles do.
pub proof fn lemma_clock(s: State, k: nat)
    requires
        s.aligned(),
    ensures
        ticked_times(s, k).t == clock_after(s.t, k),
    decreases k,
{
    if k > 0 {
        lemma_clock(s, (k - 1) as nat);
        lemma_ticks_keep(s, (k - 1) as nat);
        lemma_tick_keeps(ticked_times(s, (k - 1) as nat));
    }
}

/// The clock value up to which every time step is seen to advance the clock:
/// `2^46`, some two million years of steps.
pub const CLOCK_HORIZON: u64 = 0x42d0_0000_0000_0000;

/// Clock monotonicity: a time step makes a clock that is not negative and
/// below the horizon strictly larger.
pub proof fn lemma_clock_advances(t: u64)
    requires
        t < CLOCK_HORIZON,
    ensures
        less64(t, sum64(t, DT_WIDE)),
        t < sum64(t, DT_WIDE),
{
    let f = binary64();
    let h = f.hidden();
    let step: nat = 0x14_7ae1_4000_0000;
    lemma_binary64();
    lemma_sum64_positive(t, DT_WIDE);
    let next = sum64(t, DT_WIDE);
    // the time step is at least the weight of the clock's last place
    lemma_compose(f, 1015, step);
    assert(DT_WIDE == 1015 * h + step);
    lemma_decompose(f, t as nat);
    let e = f.exponent(t as nat);
    assert(e <= 1067);
    lemma_pow2_le(e, 1067);
    lemma_pow2_adds(52, 1015);
    assert(pow2(52) * pow2(1015) <= step * pow2(1015)) by (nonlinear_arith)
        requires
            pow2(52) <= step,
    ;
    // so the sum reaches the next pattern
    lemma_scaled_succ(f, t as nat);
    let exact = size64(t) + size64(DT_WIDE);
    assert(size64((t + 1) as u64) * 1 <= exact * 1);
    lemma_nearest_monotonic(f, size64((t + 1) as u64), 1, exact, 1);
    lemma_nearest_exact(f, (t + 1) as nat, size64((t + 1) as u64), 1);
    lemma_scaled_order(f, t as nat, next as nat);
}

/// Clock monotonicity: while the clock stays below the horizon, every one
/// of `k` time steps from a clock that is not negative makes it larger.
pub proof fn lemma_clock_increases(t: u64, k: nat)
    requires
        forall|j: nat| j < k ==> #[trigger] clock_after(t, j) < CLOCK_HORIZON,
    ensures
        forall|j: nat| j < k ==> less64(#[trigger] clock_after(t, j), clock_after(t, j + 1)),
{
    assert forall|j: nat| j < k implies less64(
        #[trigger] clock_after(t, j),
        clock_after(t, j + 1),
    ) by {
        lemma_clock_advances(clock_after(t, j));
        assert(clock_after(t, j + 1) == sum64(clock_after(t, ((j + 1) - 1) as nat), DT_WIDE));
    }
}

/// Number of time steps over which the clock's drift is bounded below.
pub const TOLERANCE_STEPS: u64 = 8192;

/// Clock tolerance: after `k` time steps from zero, for the first 8192 of
/// them, the clock is below 128 and differs from `k` times the time step by
/// at most `k * 2^-47`. Numbers are in units of `2^-1074`.
pub proof fn lemma_clock_tolerance(k: nat)
    requires
        k <= TOLERANCE_STEPS,
    ensures
        clock_after(0, k) < 0x4060_0000_0000_0000,
        size64(clock_after(0, k)) - k * size64(DT_WIDE) <= k * pow2(1027),
        k * size64(DT_WIDE) - size64(clock_after(0, k)) <= k * pow2(1027),
    decreases k,
{
    let f = binary64();
    let h = f.hidden();
    let step: nat = 0x14_7ae1_4000_0000;
    let unit = pow2(1015);
    let d = size64(DT_WIDE);
    lemma_binary64();
    lemma2_to64();
    lemma_pow2_pos(1015);
    lemma_compose(f, 1015, step);
    assert(DT_WIDE == 1015 * h + step);
    assert(d == step * unit);
    lemma_pow2_adds(12, 1015);
    assert(pow2(1027) == 4096 * unit);
    if k == 0 {
        assert(0 * d == 0);
        assert(0 * pow2(1027) == 0);
    } else {
        let j = (k - 1) as nat;
        let t = clock_after(0, j);
        let next = clock_after(0, k);
        lemma_clock_tolerance(j);
        lemma_sum64_positive(t, DT_WIDE);
        let exact = size64(t) + d;
        // products with the number of steps, in the unit of the time step
        let ju = j * unit;
        assert(j * d == step * ju) by (nonlinear_arith)
            requires
                d == step * unit,
                ju == j * unit,
        ;
        assert(j * pow2(1027) == 4096 * ju) by (nonlinear_arith)
            requires
                pow2(1027) == 4096 * unit,
                ju == j * unit,
        ;
        assert(k * d == step * ju + step * unit) by (nonlinear_arith)
            requires
                d == step * unit,
                ju == j * unit,
                k == j + 1,
        ;
        assert(k * pow2(1027) == 4096 * ju + 4096 * unit) by (nonlinear_arith)
            requires
                pow2(1027) == 4096 * unit,
                ju == j * unit,
                k == j + 1,
        ;
        assert(0 <= ju <= 8191 * unit) by (nonlinear_arith)
            requires
                ju == j * unit,
                j <= 8191,
                unit > 0,
        ;
        // the exact sum is below 128, so its floor has the exponent of 64 at most
        let cap: nat = 0x4060_0000_0000_0000;
        lemma_compose(f, 1029, h);
        assert(cap == 1029 * h + h);
        lemma_pow2_adds(14, 1015);
        lemma_pow2_adds(52, 14);
        lemma_pow2_adds(66, 1015);
        assert(pow2(66) == 0x10_0000_0000_0000 * 16384);
        assert(f.scaled(cap) == h * (16384 * unit));
        assert(f.scaled(cap) == 0x4_0000_0000_0000_0000 * unit) by (nonlinear_arith)
            requires
                f.scaled(cap) == h * (16384 * unit),
                h == 0x10_0000_0000_0000,
        ;
        let fl = floor(f, exact, 1);
        lemma_floor(f, exact, 1);
        lemma_scaled_order(f, fl, cap);
        assert(fl < cap);
        lemma_decompose(f, fl);
        assert(f.exponent(fl) <= 1028);
        lemma_pow2_le(f.exponent(fl), 1028);
        lemma_pow2_adds(13, 1015);
        lemma_nearest_error(f, exact, 1);
        lemma_scaled_order(f, next as nat, cap);
    }
}

/// Softening floor: where the squared distance of two particles is below
/// one, the pull between them is the product of their masses over one, never
/// over the squared distance.
pub proof fn lemma_softening_floor(mi: u32, mj: u32, dx: u32, dy: u32)
    requires
        crate::scalar::less(sum(product(dx, dx), product(dy, dy)), ONE),
    ensures
        pull(mi, mj, dx, dy) == quotient(product(mi, mj), ONE),
{
}

/// No self-interaction: the sum over the particles up to and including `i`
/// is the sum over those before it.
pub proof fn lemma_skips_itself(x: Seq<u32>, y: Seq<u32>, m: Seq<u32>, i: nat)
    ensures
        pulled(x, y, m, i as int, i + 1) == pulled(x, y, m, i as int, i),
{
}

/// No self-interaction: a particle that is alone has no acceleration after
/// any number of time steps.
pub proof fn lemma_alone(s: State, k: nat)
    requires
        s.aligned(),
        s.count() == 1,
        k >= 1,
    ensures
        ticked_times(s, k).ax[0] == ZERO,
        ticked_times(s, k).ay[0] == ZERO,
{
    let before = ticked_times(s, (k - 1) as nat);
    lemma_ticks_keep(s, (k - 1) as nat);
    assert(stepped_upto(before, 1) == stepped_one(stepped_upto(before, 0), 0));
    let after = stepped_one(before, 0);
    assert(pulled(after.x, after.y, after.m, 0, 1) == pulled(after.x, after.y, after.m, 0, 0));
}

/// Reproducibility: stopping after `j` time steps and going on for `k` more
/// from the state as it was read gives what `j + k` uninterrupted steps give.
pub proof fn lemma_resumed(s: State, j: nat, k: nat)
    ensures
        ticked_times(ticked_times(s, j), k) == ticked_times(s, j + k),
    decreases k,
{
    if k > 0 {
        lemma_resumed(s, j, (k - 1) as nat);
        assert(j + k - 1 == j + (k - 1) as nat);
    }
}

} // verus!
