use water_app::arithmetic::{divided, floor_to_u32, from_u32, minus, negate, plus, sqrt, times, NAN};
use water_app::scalar::{abs, clamp, le, lt, max, min, not_a_number};

/// Patterns where the rules of binary32 arithmetic change.
const CORNERS: [u32; 24] = [
    0x0000_0000, 0x8000_0000, 0x0000_0001, 0x8000_0001, 0x007F_FFFF, 0x0080_0000, 0x0080_0001,
    0x3F80_0000, 0xBF80_0000, 0x3F80_0001, 0x3F7F_FFFF, 0x4000_0000, 0x3F00_0000, 0x7F7F_FFFF,
    0xFF7F_FFFF, 0x7F80_0000, 0xFF80_0000, 0x7FC0_0000, 0xFFC0_0001, 0x7F80_0001, 0x4B80_0000,
    0x4F80_0000, 0x3DCC_CCCD, 0xC2F6_E979,
];

fn next(state: &mut u64) -> u32 {
    *state = state.wrapping_mul(6364136223846793005).wrapping_add(1442695040888963407);
    (*state >> 32) as u32
}

/// The patterns to try: every pair of corners, and many pairs without a plan.
fn pairs() -> Vec<(u32, u32)> {
    let mut list = Vec::new();
    for a in CORNERS {
        for b in CORNERS {
            list.push((a, b));
        }
    }
    let mut state: u64 = 7;
    for _ in 0..20000 {
        let a = next(&mut state);
        let b = next(&mut state);
        list.push((a, b));
        // Nearby exponents, so that sums cancel and quotients stay in range.
        list.push((a, (b & 0x807F_FFFF) | (a & 0x7F80_0000)));
        list.push((a & 0x807F_FFFF | 0x3F80_0000, b & 0x81FF_FFFF | 0x3E00_0000));
    }
    list
}

fn same(got: u32, wanted: f32, what: &str, a: u32, b: u32) {
    if wanted.is_nan() {
        assert_eq!(got, NAN, "{} of {:08x} and {:08x}", what, a, b);
    } else {
        assert_eq!(got, wanted.to_bits(), "{} of {:08x} and {:08x}", what, a, b);
    }
}

#[test]
fn sums_are_those_of_the_machine() {
    for (a, b) in pairs() {
        same(plus(a, b), f32::from_bits(a) + f32::from_bits(b), "sum", a, b);
        same(minus(a, b), f32::from_bits(a) - f32::from_bits(b), "difference", a, b);
    }
}

#[test]
fn products_are_those_of_the_machine() {
    for (a, b) in pairs() {
        same(times(a, b), f32::from_bits(a) * f32::from_bits(b), "product", a, b);
    }
}

#[test]
fn quotients_are_those_of_the_machine() {
    for (a, b) in pairs() {
        same(divided(a, b), f32::from_bits(a) / f32::from_bits(b), "quotient", a, b);
    }
}

#[test]
fn roots_are_those_of_the_machine() {
    for (a, b) in pairs() {
        same(sqrt(a), f32::from_bits(a).sqrt(), "root", a, b);
        same(sqrt(abs(b)), f32::from_bits(b).abs().sqrt(), "root", abs(b), b);
    }
}

#[test]
fn whole_numbers_are_those_of_the_machine() {
    for (a, b) in pairs() {
        assert_eq!(floor_to_u32(a), f32::from_bits(a).floor() as u32);
        assert_eq!(from_u32(b), (b as f32).to_bits());
        assert_eq!(floor_to_u32(from_u32(b & 0xFF_FFFF)), b & 0xFF_FFFF);
    }
}

#[test]
fn the_order_is_that_of_the_machine() {
    for (a, b) in pairs() {
        let (x, y) = (f32::from_bits(a), f32::from_bits(b));
        assert_eq!(lt(a, b), x < y);
        assert_eq!(le(a, b), x <= y);
        assert_eq!(not_a_number(a), x.is_nan());
        assert_eq!(abs(a), x.abs().to_bits());
        assert_eq!(negate(a), (-x).to_bits());
        if x != y && !(x.is_nan() && y.is_nan()) {
            assert_eq!(min(a, b), x.min(y).to_bits());
            assert_eq!(max(a, b), x.max(y).to_bits());
        }
        if x <= y {
            for c in CORNERS {
                assert_eq!(clamp(c, a, b), f32::from_bits(c).clamp(x, y).to_bits());
            }
        }
    }
}
