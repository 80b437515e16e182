use nbody::universe::{
    acceleration, pick, Universe, DT, DT_WIDE, HEIGHT, MASS, N, POSITION_LOW, SEED, VELOCITY_HIGH,
    VELOCITY_LOW, WIDTH, X_HIGH, Y_HIGH,
};
use nbody::bounds::LARGEST_FRACTION;
use nbody::laws::{CLOCK_HORIZON, FOUR_FIFTHS, ONE_FIFTH, TOLERANCE_STEPS};
use nbody::scalar::{mul32, INFINITY, INFINITY_WIDE};
use rand::Rng;
use rand::RngCore;
use rand::SeedableRng;
use rand::XorShiftRng;

/// The same engine in the machine's own arithmetic.
struct Native {
    t: f64,
    x: Vec<f32>,
    y: Vec<f32>,
    vx: Vec<f32>,
    vy: Vec<f32>,
    ax: Vec<f32>,
    ay: Vec<f32>,
    m: Vec<f32>,
}

impl Native {
    fn new(n: usize) -> Native {
        let mut random = XorShiftRng::seed_from_u64(0);
        let mut u = Native {
            t: 0.0,
            x: vec![0.0; n],
            y: vec![0.0; n],
            vx: vec![0.0; n],
            vy: vec![0.0; n],
            ax: vec![0.0; n],
            ay: vec![0.0; n],
            m: vec![3.0; n],
        };
        for i in 0..n {
            u.x[i] = random.gen_range(0.2f32 * WIDTH as f32, 0.8f32 * WIDTH as f32);
            u.y[i] = random.gen_range(0.2f32 * WIDTH as f32, 0.8f32 * HEIGHT as f32);
            u.vx[i] = random.gen_range(-1f32, 1f32);
            u.vy[i] = random.gen_range(-1f32, 1f32);
        }
        u
    }

    fn tick(&mut self) {
        let dt = 0.01f32;
        self.t += dt as f64;
        let n = self.x.len();
        for i in 0..n {
            self.x[i] += self.vx[i] * dt + self.ax[i] * dt * dt * 0.5;
            self.y[i] += self.vy[i] * dt + self.ay[i] * dt * dt * 0.5;
            let acc_x = self.ax[i];
            let acc_y = self.ay[i];
            let mi = self.m[i];
            let x1 = self.x[i];
            let y1 = self.y[i];
            self.ax[i] = 0.0;
            self.ay[i] = 0.0;
            for j in 0..n {
                if i == j {
                    continue;
                }
                let dx = self.x[j] - x1;
                let dy = self.y[j] - y1;
                let mut d2 = dx * dx + dy * dy;
                if d2 < 1.0 {
                    d2 = 1.0
                }
                let f = mi * self.m[j] / d2;
                self.ax[i] += f * dx;
                self.ay[i] += f * dy;
            }
            self.vx[i] += (acc_x + self.ax[i]) * 0.5f32 * dt;
            self.vy[i] += (acc_y + self.ay[i]) * 0.5f32 * dt;
        }
    }

    fn engine(&self) -> Universe {
        Universe::from_parts(
            self.t.to_bits(),
            bits(&self.x),
            bits(&self.y),
            bits(&self.vx),
            bits(&self.vy),
            bits(&self.ax),
            bits(&self.ay),
            bits(&self.m),
        )
        .unwrap()
    }
}

fn bits(v: &[f32]) -> Vec<u32> {
    v.iter().map(|f| f.to_bits()).collect()
}

fn floats(v: &[u32]) -> Vec<f32> {
    v.iter().map(|&b| f32::from_bits(b)).collect()
}

fn same(u: &Universe, n: &Native) {
    assert_eq!(u.time(), n.t.to_bits());
    assert_eq!(u.px(), &bits(&n.x));
    assert_eq!(u.py(), &bits(&n.y));
    assert_eq!(u.vx(), &bits(&n.vx));
    assert_eq!(u.vy(), &bits(&n.vy));
    assert_eq!(u.ax(), &bits(&n.ax));
    assert_eq!(u.ay(), &bits(&n.ay));
    assert_eq!(u.masses(), &bits(&n.m));
}

fn two_body(x0: f32, y0: f32, x1: f32, y1: f32, mass: f32) -> Universe {
    Universe::from_parts(
        0,
        bits(&[x0, x1]),
        bits(&[y0, y1]),
        vec![0, 0],
        vec![0, 0],
        vec![0, 0],
        vec![0, 0],
        bits(&[mass, mass]),
    )
    .unwrap()
}

#[test]
fn the_constants_are_the_numbers_they_are_named_for() {
    assert_eq!(N, 2500);
    assert_eq!(SEED, 0);
    assert_eq!(DT, 0.01f32.to_bits());
    assert_eq!(DT_WIDE, (0.01f32 as f64).to_bits());
    assert_eq!(MASS, 3.0f32.to_bits());
    assert_eq!(POSITION_LOW, (0.2f32 * WIDTH as f32).to_bits());
    assert_eq!(X_HIGH, (0.8f32 * WIDTH as f32).to_bits());
    assert_eq!(Y_HIGH, (0.8f32 * HEIGHT as f32).to_bits());
    assert_eq!(VELOCITY_LOW, (-1.0f32).to_bits());
    assert_eq!(VELOCITY_HIGH, 1.0f32.to_bits());
    assert_eq!(ONE_FIFTH, 0.2f32.to_bits());
    assert_eq!(FOUR_FIFTHS, 0.8f32.to_bits());
    assert_eq!(mul32(ONE_FIFTH, 1024.0f32.to_bits()), POSITION_LOW);
    assert_eq!(mul32(FOUR_FIFTHS, 1024.0f32.to_bits()), X_HIGH);
    assert_eq!(LARGEST_FRACTION, (1.0f32 - f32::EPSILON).to_bits());
    assert_eq!(INFINITY, f32::INFINITY.to_bits());
    assert_eq!(INFINITY_WIDE, f64::INFINITY.to_bits());
    assert_eq!(f64::from_bits(CLOCK_HORIZON), 70368744177664.0);
    assert_eq!(TOLERANCE_STEPS, 8192);
}

#[test]
fn the_clock_keeps_within_its_tolerance() {
    let mut u = Universe::from_parts(0, vec![], vec![], vec![], vec![], vec![], vec![], vec![])
        .unwrap();
    let dt = 0.01f32 as f64;
    for k in 1..=TOLERANCE_STEPS {
        u.tick();
        let t = f64::from_bits(u.time());
        assert!(t < 128.0);
        assert!((t - k as f64 * dt).abs() <= k as f64 / 140737488355328.0);
    }
}

#[test]
fn width_height_and_count() {
    let u = Universe::new();
    assert_eq!(u.width(), 1024.0f32.to_bits());
    assert_eq!(u.height(), 1024.0f32.to_bits());
    assert_eq!(u.num_particles(), 2500);
}

#[test]
fn a_new_universe_starts_as_the_generator_draws_it() {
    let u = Universe::new();
    let n = Native::new(N);
    same(&u, &n);
}

#[test]
fn a_word_picks_what_the_generator_would_draw() {
    let mut words = XorShiftRng::seed_from_u64(42);
    let mut draws = XorShiftRng::seed_from_u64(42);
    for _ in 0..10_000 {
        let word = words.next_u32();
        let drawn: f32 = draws.gen_range(-1f32, 1f32);
        assert_eq!(pick(word, VELOCITY_LOW, VELOCITY_HIGH), drawn.to_bits());
    }
    assert_eq!(pick(0, POSITION_LOW, X_HIGH), POSITION_LOW);
    assert_eq!(pick(u32::MAX, POSITION_LOW, X_HIGH), 0x444c_cccc);
    assert_eq!(pick(u32::MAX, VELOCITY_LOW, VELOCITY_HIGH), 0x3f7f_fffc);
    assert_eq!(pick(0x8000_0000, VELOCITY_LOW, VELOCITY_HIGH), 0);
}

#[test]
fn array_invariants_after_construction() {
    let u = Universe::new();
    for v in [u.px(), u.py(), u.vx(), u.vy(), u.ax(), u.ay(), u.masses()] {
        assert_eq!(v.len(), N);
    }
    assert!(u.ax().iter().all(|&a| a == 0));
    assert!(u.ay().iter().all(|&a| a == 0));
    assert!(u.masses().iter().all(|&m| m == MASS));
    assert_eq!(u.time(), 0);
}

#[test]
fn initial_distribution_bounds() {
    let u = Universe::new();
    let low = 0.2f32 * WIDTH as f32;
    for x in floats(u.px()) {
        assert!(low <= x && x < 0.8f32 * WIDTH as f32);
    }
    // the lower bound of the ordinate is scaled by the width, not the height
    for y in floats(u.py()) {
        assert!(low <= y && y < 0.8f32 * HEIGHT as f32);
    }
    for v in floats(u.vx()).into_iter().chain(floats(u.vy())) {
        assert!(-1.0 <= v && v < 1.0);
    }
}

#[test]
fn determinism() {
    let mut a = Universe::from_parts(
        0,
        Universe::new().px()[..60].to_vec(),
        Universe::new().py()[..60].to_vec(),
        Universe::new().vx()[..60].to_vec(),
        Universe::new().vy()[..60].to_vec(),
        vec![0; 60],
        vec![0; 60],
        vec![MASS; 60],
    )
    .unwrap();
    let mut b = Native::new(60).engine();
    let (p, q) = (Universe::new(), Universe::new());
    assert_eq!(p.px(), q.px());
    assert_eq!(p.py(), q.py());
    assert_eq!(p.vx(), q.vx());
    assert_eq!(p.vy(), q.vy());
    for _ in 0..5 {
        a.tick();
        b.tick();
        assert_eq!(a.px(), b.px());
        assert_eq!(a.py(), b.py());
        assert_eq!(a.vx(), b.vx());
        assert_eq!(a.vy(), b.vy());
        assert_eq!(a.time(), b.time());
    }
}

#[test]
fn ticks_agree_with_the_machines_arithmetic() {
    let mut n = Native::new(120);
    let mut u = n.engine();
    for _ in 0..20 {
        n.tick();
        u.tick();
        same(&u, &n);
    }
}

#[test]
fn a_full_universe_ticks_as_in_the_machines_arithmetic() {
    let mut n = Native::new(N);
    let mut u = Universe::new();
    n.tick();
    u.tick();
    same(&u, &n);
}

#[test]
fn clock_monotonicity() {
    let mut u = two_body(0.0, 0.0, 10.0, 0.0, 3.0);
    let mut last = f64::from_bits(u.time());
    assert_eq!(last, 0.0);
    for k in 1..=1000u32 {
        u.tick();
        let t = f64::from_bits(u.time());
        assert!(t > last);
        assert!((t - k as f64 * (0.01f32 as f64)).abs() < 1e-9);
        last = t;
    }
    let mut one = two_body(0.0, 0.0, 10.0, 0.0, 3.0);
    one.tick();
    assert_eq!(one.time(), DT_WIDE);
}

#[test]
fn softening_floor() {
    // 0.25 apart: the squared distance 0.0625 is replaced by one
    let mut u = two_body(0.0, 0.0, 0.25, 0.0, 3.0);
    u.tick();
    assert_eq!(f32::from_bits(u.ax()[0]), 3.0 * 3.0 / 1.0 * 0.25);
    assert_eq!(f32::from_bits(u.ay()[0]), 0.0);
    let a = acceleration(&bits(&[0.0, 0.25]), &bits(&[0.0, 0.0]), &bits(&[3.0, 3.0]), 0);
    assert_eq!(f32::from_bits(a.0), 2.25);
    // coincident particles: no force, and no division by zero
    let a = acceleration(&bits(&[5.0, 5.0]), &bits(&[5.0, 5.0]), &bits(&[3.0, 3.0]), 0);
    assert_eq!((a.0, a.1), (0, 0));
    // two apart: the squared distance itself
    let a = acceleration(&bits(&[0.0, 2.0]), &bits(&[0.0, 0.0]), &bits(&[3.0, 3.0]), 0);
    assert_eq!(f32::from_bits(a.0), 9.0f32 / 4.0 * 2.0);
}

#[test]
fn symmetry_scenario() {
    let mut u = two_body(0.0, 0.0, 10.0, 0.0, 3.0);
    u.tick();
    let ax = floats(u.ax());
    let ay = floats(u.ay());
    assert_eq!(ax[0], -ax[1]);
    assert_eq!(ay[0], -ay[1]);
    assert_eq!(ay[0], 0.0);
    assert_eq!(ax[0], 3.0f32 * 3.0 / 100.0 * 10.0);
}

#[test]
fn no_self_interaction() {
    let mut u = Universe::from_parts(
        0,
        bits(&[7.5]),
        bits(&[-2.0]),
        bits(&[1.0]),
        bits(&[0.5]),
        vec![0],
        vec![0],
        bits(&[3.0]),
    )
    .unwrap();
    for _ in 0..50 {
        u.tick();
        assert_eq!(u.ax()[0], 0);
        assert_eq!(u.ay()[0], 0);
    }
    assert_eq!(f32::from_bits(u.vx()[0]), 1.0);
    let mut x = 7.5f32;
    for _ in 0..50 {
        x += 1.0f32 * 0.01f32 + 0.0f32 * 0.01 * 0.01 * 0.5;
    }
    assert_eq!(f32::from_bits(u.px()[0]), x);
}

#[test]
fn reproducibility_round_trip() {
    let mut straight = Native::new(40).engine();
    let mut paused = Native::new(40).engine();
    for _ in 0..3 {
        straight.tick();
        paused.tick();
    }
    let mut restored = Universe::from_parts(
        paused.time(),
        paused.px().clone(),
        paused.py().clone(),
        paused.vx().clone(),
        paused.vy().clone(),
        paused.ax().clone(),
        paused.ay().clone(),
        paused.masses().clone(),
    )
    .unwrap();
    for _ in 0..3 {
        straight.tick();
        restored.tick();
    }
    assert_eq!(straight.px(), restored.px());
    assert_eq!(straight.py(), restored.py());
    assert_eq!(straight.vx(), restored.vx());
    assert_eq!(straight.vy(), restored.vy());
    assert_eq!(straight.ax(), restored.ax());
    assert_eq!(straight.ay(), restored.ay());
    assert_eq!(straight.time(), restored.time());
}

#[test]
fn arrays_of_different_lengths_make_no_universe() {
    assert!(Universe::from_parts(0, vec![0, 0], vec![0], vec![0, 0], vec![0, 0], vec![0, 0], vec![0, 0], vec![0, 0]).is_none());
    assert!(Universe::from_parts(0, vec![0], vec![0], vec![0], vec![0], vec![0], vec![0], vec![]).is_none());
    let empty = Universe::from_parts(7, vec![], vec![], vec![], vec![], vec![], vec![], vec![]);
    let mut empty = empty.unwrap();
    assert_eq!(empty.num_particles(), 0);
    empty.tick();
    assert_eq!(f64::from_bits(empty.time()), f64::from_bits(7) + 0.01f32 as f64);
}

#[test]
fn unequal_masses_enter_as_their_product() {
    let u = Universe::from_parts(
        0,
        bits(&[0.0, 3.0]),
        bits(&[0.0, 4.0]),
        vec![0, 0],
        vec![0, 0],
        vec![0, 0],
        vec![0, 0],
        bits(&[2.0, 5.0]),
    )
    .unwrap();
    let a = acceleration(u.px(), u.py(), u.masses(), 1);
    let f = 2.0f32 * 5.0 / 25.0;
    assert_eq!(f32::from_bits(a.0), f * -3.0);
    assert_eq!(f32::from_bits(a.1), f * -4.0);
}
