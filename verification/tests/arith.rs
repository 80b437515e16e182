use nbody::arith::{divide, from_integer, is_less, minus, neg, plus, times};
use nbody::rounding::round_pack;
use nbody::scalar::{add32, add64, div32, lt32, mul32, single_from, sub32};
use nbody::format::{double, single};

fn next(state: &mut u64) -> u64 {
    *state ^= *state << 13;
    *state ^= *state >> 7;
    *state ^= *state << 17;
    *state
}

fn same32(ours: u64, theirs: f32) -> bool {
    if theirs.is_nan() {
        ours == 0x7fc0_0000
    } else {
        ours == theirs.to_bits() as u64
    }
}

fn same64(ours: u64, theirs: f64) -> bool {
    if theirs.is_nan() {
        ours == 0x7ff8_0000_0000_0000
    } else {
        ours == theirs.to_bits()
    }
}

fn check32(a: u32, b: u32) {
    let fmt = single();
    let (x, y) = (f32::from_bits(a), f32::from_bits(b));
    let (a, b) = (a as u64, b as u64);
    assert!(same32(plus(fmt, a, b), x + y), "{:#x} + {:#x}", a, b);
    assert!(same32(minus(fmt, a, b), x - y), "{:#x} - {:#x}", a, b);
    assert!(same32(times(fmt, a, b), x * y), "{:#x} * {:#x}", a, b);
    assert!(same32(divide(fmt, a, b), x / y), "{:#x} / {:#x}", a, b);
    assert_eq!(is_less(fmt, a, b), x < y, "{:#x} < {:#x}", a, b);
}

fn check64(a: u64, b: u64) {
    let fmt = double();
    let (x, y) = (f64::from_bits(a), f64::from_bits(b));
    assert!(same64(plus(fmt, a, b), x + y), "{:#x} + {:#x}", a, b);
    assert!(same64(minus(fmt, a, b), x - y), "{:#x} - {:#x}", a, b);
    assert!(same64(times(fmt, a, b), x * y), "{:#x} * {:#x}", a, b);
    assert!(same64(divide(fmt, a, b), x / y), "{:#x} / {:#x}", a, b);
    assert_eq!(is_less(fmt, a, b), x < y, "{:#x} < {:#x}", a, b);
}

const EDGES32: [u32; 24] = [
    0x0000_0000, 0x8000_0000, 0x0000_0001, 0x8000_0001, 0x0000_0002, 0x007f_ffff, 0x0080_0000,
    0x0080_0001, 0x00ff_ffff, 0x3f00_0000, 0x3f7f_ffff, 0x3f80_0000, 0x3f80_0001, 0xbf80_0000,
    0x4000_0000, 0x4040_0000, 0x4b00_0000, 0x4b80_0000, 0x7f00_0000, 0x7f7f_ffff, 0xff7f_ffff,
    0x7f80_0000, 0xff80_0000, 0x7fc0_0000,
];

#[test]
fn single_precision_agrees_with_the_machine_on_edge_values() {
    for &a in EDGES32.iter() {
        for &b in EDGES32.iter() {
            check32(a, b);
        }
    }
}

#[test]
fn single_precision_agrees_with_the_machine_on_scattered_values() {
    let mut state: u64 = 0x9e37_79b9_7f4a_7c15;
    for _ in 0..200_000 {
        let r = next(&mut state);
        check32(r as u32, (r >> 32) as u32);
    }
}

#[test]
fn single_precision_agrees_with_the_machine_on_close_values() {
    let mut state: u64 = 0x1234_5678_9abc_def1;
    for _ in 0..200_000 {
        let r = next(&mut state);
        let a = r as u32;
        let near = (a & 0xff80_0000).wrapping_add(((r >> 32) as u32) & 0x07ff_ffff);
        check32(a, near);
        check32(a, near ^ 0x8000_0000);
        check32(a & 0x80ff_ffff, near & 0x80ff_ffff);
    }
}

#[test]
fn double_precision_agrees_with_the_machine_on_edge_values() {
    let edges: Vec<u64> = EDGES32.iter().map(|&b| (f32::from_bits(b) as f64).to_bits()).chain(
        [
            0x0000_0000_0000_0001u64,
            0x000f_ffff_ffff_ffff,
            0x0010_0000_0000_0000,
            0x7fef_ffff_ffff_ffff,
            0xffef_ffff_ffff_ffff,
            0x3ff0_0000_0000_0001,
            0x4340_0000_0000_0000,
        ],
    ).collect();
    for &a in edges.iter() {
        for &b in edges.iter() {
            check64(a, b);
        }
    }
}

#[test]
fn double_precision_agrees_with_the_machine_on_scattered_values() {
    let mut state: u64 = 0x0123_4567_89ab_cdef;
    for _ in 0..100_000 {
        let a = next(&mut state);
        let b = next(&mut state);
        check64(a, b);
        let near = (a & 0xfff0_0000_0000_0000).wrapping_add(b & 0x00ff_ffff_ffff_ffff);
        check64(a, near);
        check64(a, near ^ 0x8000_0000_0000_0000);
        check64(a & 0x801f_ffff_ffff_ffff, near & 0x801f_ffff_ffff_ffff);
    }
}

#[test]
fn a_tie_goes_to_the_even_neighbour() {
    let fmt = single();
    // 1 + 2^-24 lies half way between 1 and the next number: it rounds to 1.
    assert_eq!(plus(fmt, 0x3f80_0000, 0x3380_0000), 0x3f80_0000);
    // 1 + 2^-23 + 2^-24 lies half way between two numbers: it rounds up, to the even one.
    assert_eq!(plus(fmt, 0x3f80_0001, 0x3380_0000), 0x3f80_0002);
    // the largest finite number plus half a step overflows to infinity
    assert_eq!(plus(fmt, 0x7f7f_ffff, 0x7300_0000), 0x7f80_0000);
    // one third
    assert_eq!(divide(fmt, 0x3f80_0000, 0x4040_0000), 0x3eaa_aaab);
}

#[test]
fn integers_convert_as_the_machine_converts_them() {
    let mut state: u64 = 0x0f0f_1234_5678_9abc;
    for n in [0u64, 1, 2, 3, 1024, 2500, 0xff_ffff, 0x100_0000, 0x100_0001, 0x100_0003, u64::MAX] {
        assert_eq!(single_from(n), (n as f32).to_bits(), "{}", n);
        assert_eq!(from_integer(double(), n), (n as f64).to_bits(), "{}", n);
    }
    for _ in 0..100_000 {
        let r = next(&mut state);
        let n = r >> (r & 63);
        assert_eq!(single_from(n), (n as f32).to_bits(), "{}", n);
        assert_eq!(from_integer(single(), n), (n as f32).to_bits() as u64, "{}", n);
        assert_eq!(from_integer(double(), n), (n as f64).to_bits(), "{}", n);
    }
}

#[test]
fn negation_flips_the_sign_alone() {
    assert_eq!(neg(single(), 0x3f80_0000), 0xbf80_0000);
    assert_eq!(neg(single(), 0xbf80_0000), 0x3f80_0000);
    assert_eq!(neg(single(), 0), 0x8000_0000);
    assert_eq!(neg(double(), 0x8000_0000_0000_0000), 0);
    assert_eq!(neg(single(), 0x7fc0_0000), 0xffc0_0000);
}

#[test]
fn rounding_packs_a_number_given_by_integer_and_exponent() {
    let fmt = single();
    // 3 * 2^149 units of 2^-149 is three
    assert_eq!(round_pack(fmt, 3, 149, false), 3.0f32.to_bits() as u64);
    // one unit is the smallest number; half of it is a tie and goes to zero
    assert_eq!(round_pack(fmt, 1, 0, false), 1);
    assert_eq!(round_pack(fmt, 1, -1, false), 0);
    // three halves of it are a tie too, and go to the even two
    assert_eq!(round_pack(fmt, 3, -1, false), 2);
    // anything discarded breaks the tie upwards
    assert_eq!(round_pack(fmt, 0x200_0001, -26, true), 1);
    assert_eq!(round_pack(fmt, 0x200_0000, -26, false), 0);
    // beyond the largest finite number lies infinity
    assert_eq!(round_pack(fmt, 1, 149 + 128, false), 0x7f80_0000);
    assert_eq!(round_pack(fmt, 0xff_ffff, 149 + 104, false), 0x7f7f_ffff);
    assert_eq!(round_pack(fmt, 0, 5, false), 0);
}

#[test]
fn the_short_forms_compute_in_their_precision() {
    let (a, b) = (1.5f32, -0.3f32);
    assert_eq!(add32(a.to_bits(), b.to_bits()), (a + b).to_bits());
    assert_eq!(sub32(a.to_bits(), b.to_bits()), (a - b).to_bits());
    assert_eq!(mul32(a.to_bits(), b.to_bits()), (a * b).to_bits());
    assert_eq!(div32(a.to_bits(), b.to_bits()), (a / b).to_bits());
    assert!(lt32(b.to_bits(), a.to_bits()));
    assert!(!lt32(a.to_bits(), b.to_bits()));
    assert!(!lt32(0x8000_0000, 0));
    assert!(!lt32(0x7fc0_0000, a.to_bits()));
    assert_eq!(add64(0.1f64.to_bits(), 0.2f64.to_bits()), (0.1f64 + 0.2f64).to_bits());
}
