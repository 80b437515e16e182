//! The particle ensemble and its time step.

use crate::bounds::lemma_initial_bounds;
use crate::generator::{first_words, nth_word};
use crate::laws::lemma_box;
use crate::scalar::{
    add32, add64, difference, div32, less, lt32, mul32, of_integer, product, quotient,
    single_from, sub32, sum, sum64, within, HALF, ONE, ZERO,
};
use vstd::prelude::*;

verus! {

/// Number of particles of a universe made by `Universe::new`.
pub const N: usize = 2500;

/// Width of the box that the initial positions are drawn in.
pub const WIDTH: u64 = 1024;

/// Height of the box that the initial positions are drawn in.
pub const HEIGHT: u64 = 1024;

/// The time step, 0.01 in single precision.
pub const DT: u32 = 0x3c23_d70a;

/// The time step as the clock adds it: `DT` widened to double precision.
pub const DT_WIDE: u64 = 0x3f84_7ae1_4000_0000;

/// The mass that `Universe::new` gives every particle, 3.0.
pub const MASS: u32 = 0x4040_0000;

/// The seed that `Universe::new` draws from.
pub const SEED: u64 = 0;

/// Lower bound of both initial coordinates, 0.2 times `WIDTH`.
pub const POSITION_LOW: u32 = 0x434c_cccd;

/// Upper bound of the initial abscissa, 0.8 times `WIDTH`.
pub const X_HIGH: u32 = 0x444c_cccd;

/// Upper bound of the initial ordinate, 0.8 times `HEIGHT`.
pub const Y_HIGH: u32 = 0x444c_cccd;

/// Lower bound of both initial velocity components, -1.0.
pub const VELOCITY_LOW: u32 = 0xbf80_0000;

/// Upper bound of both initial velocity components, 1.0.
pub const VELOCITY_HIGH: u32 = 0x3f80_0000;

/// What a universe is: a clock and seven index-aligned arrays.
pub struct State {
    pub t: u64,
    pub x: Seq<u32>,
    pub y: Seq<u32>,
    pub vx: Seq<u32>,
    pub vy: Seq<u32>,
    pub ax: Seq<u32>,
    pub ay: Seq<u32>,
    pub m: Seq<u32>,
}

impl State {
    /// Number of particles.
    pub open spec fn count(self) -> nat {
        self.x.len()
    }

    /// All seven arrays have one length.
    pub open spec fn aligned(self) -> bool {
        &&& self.y.len() == self.x.len()
        &&& self.vx.len() == self.x.len()
        &&& self.vy.len() == self.x.len()
        &&& self.ax.len() == self.x.len()
        &&& self.ay.len() == self.x.len()
        &&& self.m.len() == self.x.len()
    }
}

/// The number in `[0, 1)` made of the 23 highest bits of a word: the word's
/// quotient by 512 as the fraction of a number in `[1, 2)`, less one.
pub open spec fn unit_interval(word: u32) -> u32 {
    difference((ONE + word / 512) as u32, ONE)
}

/// The number that a word picks in `[low, high)`: the word's number in
/// `[0, 1)` times `high - low`, plus `low`. This is how `rand` draws a
/// single-precision number between two bounds from one word of a generator;
/// it takes a further word only where rounding lets the result reach `high`,
/// which the bounds of a new universe never do.
pub open spec fn uniform(word: u32, low: u32, high: u32) -> u32 {
    sum(product(unit_interval(word), difference(high, low)), low)
}

/// A coordinate after the move of one step: `p + (v * dt + a * dt * dt * 0.5)`.
pub open spec fn moved(p: u32, v: u32, a: u32) -> u32 {
    sum(p, sum(product(v, DT), product(product(product(a, DT), DT), HALF)))
}

/// A velocity component after one step: `v + (a0 + a1) * 0.5 * dt`, with the
/// acceleration before and after the move.
pub open spec fn kicked(v: u32, a0: u32, a1: u32) -> u32 {
    sum(v, product(product(sum(a0, a1), HALF), DT))
}

/// The squared distance as the force law divides by it: itself, or one where
/// it is below one.
pub open spec fn softened(d2: u32) -> u32 {
    if less(d2, ONE) {
        ONE
    } else {
        d2
    }
}

/// The factor of the pull between two particles with masses `mi` and `mj`
/// that `(dx, dy)` apart: the product of the masses over the softened squared
/// distance.
pub open spec fn pull(mi: u32, mj: u32, dx: u32, dy: u32) -> u32 {
    quotient(product(mi, mj), softened(sum(product(dx, dx), product(dy, dy))))
}

/// The acceleration of particle `i` summed over the particles below `n`,
/// itself left out, in the order of their indices.
pub open spec fn pulled(x: Seq<u32>, y: Seq<u32>, m: Seq<u32>, i: int, n: nat) -> (u32, u32)
    decreases n,
{
    if n == 0 {
        (ZERO, ZERO)
    } else {
        let j = n - 1;
        let before = pulled(x, y, m, i, j as nat);
        if j == i {
            before
        } else {
            let dx = difference(x[j], x[i]);
            let dy = difference(y[j], y[i]);
            let f = pull(m[i], m[j], dx, dy);
            (sum(before.0, product(f, dx)), sum(before.1, product(f, dy)))
        }
    }
}

/// The state after particle `i` has moved, its acceleration has been summed
/// anew at the positions as they then are, and its velocity has followed.
pub open spec fn stepped_one(s: State, i: int) -> State {
    let x = s.x.update(i, moved(s.x[i], s.vx[i], s.ax[i]));
    let y = s.y.update(i, moved(s.y[i], s.vy[i], s.ay[i]));
    let a = pulled(x, y, s.m, i, s.count());
    State {
        t: s.t,
        x: x,
        y: y,
        vx: s.vx.update(i, kicked(s.vx[i], s.ax[i], a.0)),
        vy: s.vy.update(i, kicked(s.vy[i], s.ay[i], a.1)),
        ax: s.ax.update(i, a.0),
        ay: s.ay.update(i, a.1),
        m: s.m,
    }
}

/// The state after the particles below `n` have been stepped, one after the
/// other in the order of their indices.
pub open spec fn stepped_upto(s: State, n: nat) -> State
    decreases n,
{
    if n == 0 {
        s
    } else {
        stepped_one(stepped_upto(s, (n - 1) as nat), n - 1)
    }
}

/// Stepping particles changes neither the clock, nor the masses, nor the
/// number of particles, and keeps the arrays aligned.
pub proof fn lemma_stepped_upto_keeps(s: State, n: nat)
    requires
        s.aligned(),
        n <= s.count(),
    ensures
        stepped_upto(s, n).t == s.t,
        stepped_upto(s, n).m == s.m,
        stepped_upto(s, n).count() == s.count(),
        stepped_upto(s, n).aligned(),
    decreases n,
{
    if n > 0 {
        lemma_stepped_upto_keeps(s, (n - 1) as nat);
    }
}

/// The state after one time step: every particle stepped, the clock
/// advanced by the time step.
pub open spec fn ticked(s: State) -> State {
    let after = stepped_upto(s, s.count());
    State { t: sum64(s.t, DT_WIDE), ..after }
}

/// The state after `k` time steps.
pub open spec fn ticked_times(s: State, k: nat) -> State
    decreases k,
{
    if k == 0 {
        s
    } else {
        ticked(ticked_times(s, (k - 1) as nat))
    }
}

/// The state that `Universe::new` makes: positions and velocities picked by
/// the first `4 * N` words of the generator, particle by particle in the
/// order abscissa, ordinate, and the two velocity components; no
/// acceleration; the same mass everywhere; the clock at zero.
pub open spec fn initial() -> State {
    State {
        t: 0,
        x: Seq::new(N as nat, |i: int| uniform(nth_word(SEED, (4 * i) as nat), POSITION_LOW, X_HIGH)),
        y: Seq::new(
            N as nat,
            |i: int| uniform(nth_word(SEED, (4 * i + 1) as nat), POSITION_LOW, Y_HIGH),
        ),
        vx: Seq::new(
            N as nat,
            |i: int| uniform(nth_word(SEED, (4 * i + 2) as nat), VELOCITY_LOW, VELOCITY_HIGH),
        ),
        vy: Seq::new(
            N as nat,
            |i: int| uniform(nth_word(SEED, (4 * i + 3) as nat), VELOCITY_LOW, VELOCITY_HIGH),
        ),
        ax: Seq::new(N as nat, |i: int| ZERO),
        ay: Seq::new(N as nat, |i: int| ZERO),
        m: Seq::new(N as nat, |i: int| MASS),
    }
}

/// A population of point masses that pull at one another.
pub struct Universe {
    t: u64,
    x: Vec<u32>,
    y: Vec<u32>,
    vx: Vec<u32>,
    vy: Vec<u32>,
    ax: Vec<u32>,
    ay: Vec<u32>,
    m: Vec<u32>,
}

impl View for Universe {
    type V = State;

    closed spec fn view(&self) -> State {
        State {
            t: self.t,
            x: self.x@,
            y: self.y@,
            vx: self.vx@,
            vy: self.vy@,
            ax: self.ax@,
            ay: self.ay@,
            m: self.m@,
        }
    }
}

/// The number that a word picks in `[low, high)`.
pub fn pick(word: u32, low: u32, high: u32) -> (r: u32)
    ensures
        r == uniform(word, low, high),
{
    let fraction = sub32(ONE + word / 512, ONE);
    add32(mul32(fraction, sub32(high, low)), low)
}

/// The acceleration of particle `i` at the positions given.
pub fn acceleration(x: &Vec<u32>, y: &Vec<u32>, m: &Vec<u32>, i: usize) -> (a: (u32, u32))
    requires
        y.len() == x.len(),
        m.len() == x.len(),
        i < x.len(),
    ensures
        a == pulled(x@, y@, m@, i as int, x.len() as nat),
{
    let n = x.len();
    let mi = m[i];
    let x1 = x[i];
    let y1 = y[i];
    let mut ax = ZERO;
    let mut ay = ZERO;
    let mut j: usize = 0;
    while j < n
        invariant
            j <= n,
            n == x.len(),
            y.len() == n,
            m.len() == n,
            i < n,
            mi == m[i as int],
            x1 == x[i as int],
            y1 == y[i as int],
            (ax, ay) == pulled(x@, y@, m@, i as int, j as nat),
        decreases n - j,
    {
        if j != i {
            let dx = sub32(x[j], x1);
            let dy = sub32(y[j], y1);
            let mut d2 = add32(mul32(dx, dx), mul32(dy, dy));
            if lt32(d2, ONE) {
                d2 = ONE;
            }
            let f = div32(mul32(mi, m[j]), d2);
            ax = add32(ax, mul32(f, dx));
            ay = add32(ay, mul32(f, dy));
        }
        j += 1;
    }
    (ax, ay)
}

impl Universe {
    #[verifier::type_invariant]
    spec fn aligned(self) -> bool {
        &&& self.y.len() == self.x.len()
        &&& self.vx.len() == self.x.len()
        &&& self.vy.len() == self.x.len()
        &&& self.ax.len() == self.x.len()
        &&& self.ay.len() == self.x.len()
        &&& self.m.len() == self.x.len()
    }

    /// The universe of `N` particles drawn from the generator seeded with
    /// `SEED`. Every call gives the same universe.
    pub fn new() -> (u: Universe)
        ensures
            u@ == initial(),
            u@.aligned(),
            u@.count() == N,
            u@.t == 0,
            forall|i: int|
                0 <= i < N ==> u@.ax[i] == ZERO && u@.ay[i] == ZERO && u@.m[i] == MASS,
            forall|i: int| 0 <= i < N ==> within(#[trigger] u@.x[i], POSITION_LOW, X_HIGH),
            forall|i: int| 0 <= i < N ==> within(#[trigger] u@.y[i], POSITION_LOW, Y_HIGH),
            forall|i: int|
                0 <= i < N ==> within(#[trigger] u@.vx[i], VELOCITY_LOW, VELOCITY_HIGH),
            forall|i: int|
                0 <= i < N ==> within(#[trigger] u@.vy[i], VELOCITY_LOW, VELOCITY_HIGH),
    {
        let words = first_words(SEED, 4 * N);
        let mut x: Vec<u32> = Vec::new();
        let mut y: Vec<u32> = Vec::new();
        let mut vx: Vec<u32> = Vec::new();
        let mut vy: Vec<u32> = Vec::new();
        let mut ax: Vec<u32> = Vec::new();
        let mut ay: Vec<u32> = Vec::new();
        let mut m: Vec<u32> = Vec::new();
        let mut i: usize = 0;
        while i < N
            invariant
                i <= N,
                words.len() == 4 * N,
                forall|k: int| 0 <= k < 4 * N ==> words[k] == nth_word(SEED, k as nat),
                x.len() == i && y.len() == i && vx.len() == i && vy.len() == i,
                ax.len() == i && ay.len() == i && m.len() == i,
                forall|j: int| 0 <= j < i ==> x[j] == initial().x[j],
                forall|j: int| 0 <= j < i ==> y[j] == initial().y[j],
                forall|j: int| 0 <= j < i ==> vx[j] == initial().vx[j],
                forall|j: int| 0 <= j < i ==> vy[j] == initial().vy[j],
                forall|j: int| 0 <= j < i ==> ax[j] == ZERO && ay[j] == ZERO && m[j] == MASS,
            decreases N - i,
        {
            x.push(pick(words[4 * i], POSITION_LOW, X_HIGH));
            y.push(pick(words[4 * i + 1], POSITION_LOW, Y_HIGH));
            vx.push(pick(words[4 * i + 2], VELOCITY_LOW, VELOCITY_HIGH));
            vy.push(pick(words[4 * i + 3], VELOCITY_LOW, VELOCITY_HIGH));
            ax.push(ZERO);
            ay.push(ZERO);
            m.push(MASS);
            i += 1;
        }
        proof {
            let s = initial();
            assert(x@ =~= s.x);
            assert(y@ =~= s.y);
            assert(vx@ =~= s.vx);
            assert(vy@ =~= s.vy);
            assert(ax@ =~= s.ax);
            assert(ay@ =~= s.ay);
            assert(m@ =~= s.m);
            lemma_initial_bounds();
        }
        Universe { t: 0, x, y, vx, vy, ax, ay, m }
    }

    /// The universe with the clock and the arrays given, where the arrays
    /// have one length; nothing where they have not.
    pub fn from_parts(
        t: u64,
        x: Vec<u32>,
        y: Vec<u32>,
        vx: Vec<u32>,
        vy: Vec<u32>,
        ax: Vec<u32>,
        ay: Vec<u32>,
        m: Vec<u32>,
    ) -> (made: Option<Universe>)
        ensures
            made is Some <==> (State {
                t: t,
                x: x@,
                y: y@,
                vx: vx@,
                vy: vy@,
                ax: ax@,
                ay: ay@,
                m: m@,
            }).aligned(),
            made is Some ==> made->0@ == (State {
                t: t,
                x: x@,
                y: y@,
                vx: vx@,
                vy: vy@,
                ax: ax@,
                ay: ay@,
                m: m@,
            }),
    {
        let n = x.len();
        if y.len() == n && vx.len() == n && vy.len() == n && ax.len() == n && ay.len() == n
            && m.len() == n {
            Some(Universe { t, x, y, vx, vy, ax, ay, m })
        } else {
            None
        }
    }

    /// Width of the box of the initial positions, in single precision.
    pub fn width(&self) -> (w: u32)
        ensures
            w == of_integer(WIDTH),
            w == 0x4480_0000,
    {
        proof {
            lemma_box();
        }
        single_from(WIDTH)
    }

    /// Height of the box of the initial positions, in single precision.
    pub fn height(&self) -> (h: u32)
        ensures
            h == of_integer(HEIGHT),
            h == 0x4480_0000,
    {
        proof {
            lemma_box();
        }
        single_from(HEIGHT)
    }

    /// Number of particles, which is the length of each of the arrays.
    pub fn num_particles(&self) -> (n: usize)
        ensures
            n == self@.count(),
            self@.aligned(),
    {
        proof {
            use_type_invariant(self);
        }
        self.x.len()
    }

    /// The clock, in double precision.
    pub fn time(&self) -> (t: u64)
        ensures
            t == self@.t,
    {
        self.t
    }

    /// The abscissas. The borrow ends before the next `tick` can begin.
    pub fn px(&self) -> (view: &Vec<u32>)
        ensures
            view@ == self@.x,
    {
        &self.x
    }

    /// The ordinates. The borrow ends before the next `tick` can begin.
    pub fn py(&self) -> (view: &Vec<u32>)
        ensures
            view@ == self@.y,
    {
        &self.y
    }

    /// The velocities along the abscissa.
    pub fn vx(&self) -> (view: &Vec<u32>)
        ensures
            view@ == self@.vx,
    {
        &self.vx
    }

    /// The velocities along the ordinate.
    pub fn vy(&self) -> (view: &Vec<u32>)
        ensures
            view@ == self@.vy,
    {
        &self.vy
    }

    /// The accelerations along the abscissa, as the last step left them.
    pub fn ax(&self) -> (view: &Vec<u32>)
        ensures
            view@ == self@.ax,
    {
        &self.ax
    }

    /// The accelerations along the ordinate, as the last step left them.
    pub fn ay(&self) -> (view: &Vec<u32>)
        ensures
            view@ == self@.ay,
    {
        &self.ay
    }

    /// The masses.
    pub fn masses(&self) -> (view: &Vec<u32>)
        ensures
            view@ == self@.m,
    {
        &self.m
    }

    /// Advances the universe by one time step.
    pub fn tick(&mut self)
        ensures
            final(self)@ == ticked(old(self)@),
            final(self)@.aligned(),
            final(self)@.count() == old(self)@.count(),
    {
        proof {
            use_type_invariant(&*self);
        }
        let n = self.x.len();
        let mut i: usize = 0;
        while i < n
            invariant
                i <= n,
                n == old(self)@.count(),
                self.aligned(),
                self@ == stepped_upto(old(self)@, i as nat),
                self@.count() == n,
            decreases n - i,
        {
            let x1 = add32(
                self.x[i],
                add32(mul32(self.vx[i], DT), mul32(mul32(mul32(self.ax[i], DT), DT), HALF)),
            );
            let y1 = add32(
                self.y[i],
                add32(mul32(self.vy[i], DT), mul32(mul32(mul32(self.ay[i], DT), DT), HALF)),
            );
            let acc_x = self.ax[i];
            let acc_y = self.ay[i];
            self.x[i] = x1;
            self.y[i] = y1;
            let (ax1, ay1) = acceleration(&self.x, &self.y, &self.m, i);
            let vx1 = add32(self.vx[i], mul32(mul32(add32(acc_x, ax1), HALF), DT));
            let vy1 = add32(self.vy[i], mul32(mul32(add32(acc_y, ay1), HALF), DT));
            self.ax[i] = ax1;
            self.ay[i] = ay1;
            self.vx[i] = vx1;
            self.vy[i] = vy1;
            i += 1;
        }
        proof {
            lemma_stepped_upto_keeps(old(self)@, n as nat);
        }
        self.t = add64(self.t, DT_WIDE);
    }
}

} // verus!
