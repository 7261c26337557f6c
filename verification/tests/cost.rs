use khmer_segmenter::cost::{cost_add, cost_lt, FIFTY, INFINITY, NAN, ONE, SIGN, TEN, TENTH, ZERO};

fn is_nan_bits(x: u32) -> bool {
    (x & 0x7FFF_FFFF) > 0x7F80_0000
}

fn check_add(a: u32, b: u32) {
    let want = f32::from_bits(a) + f32::from_bits(b);
    let got = cost_add(a, b);
    if want.is_nan() {
        assert!(is_nan_bits(got), "{:08x} + {:08x}: want NaN, got {:08x}", a, b, got);
    } else {
        assert_eq!(got, want.to_bits(), "{:08x} + {:08x}", a, b);
    }
}

fn check_lt(a: u32, b: u32) {
    assert_eq!(cost_lt(a, b), f32::from_bits(a) < f32::from_bits(b), "{:08x} < {:08x}", a, b);
}

struct Lcg(u64);

impl Lcg {
    fn next(&mut self) -> u32 {
        self.0 = self.0.wrapping_mul(6364136223846793005).wrapping_add(1442695040888963407);
        (self.0 >> 32) as u32
    }
}

#[test]
fn constants_are_the_bit_patterns_of_their_numbers() {
    assert_eq!(ZERO, 0.0f32.to_bits());
    assert_eq!(ONE, 1.0f32.to_bits());
    assert_eq!(TENTH, 0.1f32.to_bits());
    assert_eq!(TEN, 10.0f32.to_bits());
    assert_eq!(FIFTY, 50.0f32.to_bits());
    assert_eq!(INFINITY, f32::INFINITY.to_bits());
    assert_eq!(SIGN, (-0.0f32).to_bits());
    assert!(f32::from_bits(NAN).is_nan());
}

#[test]
fn add_small_exact_values() {
    assert_eq!(cost_add(ONE, ONE), 2.0f32.to_bits());
    assert_eq!(cost_add(TEN, FIFTY), 60.0f32.to_bits());
    assert_eq!(cost_add(ZERO, TENTH), TENTH);
    assert_eq!(cost_add(1.5f32.to_bits(), 2.25f32.to_bits()), 3.75f32.to_bits());
}

#[test]
fn add_rounds_like_the_hardware_on_tenths() {
    let mut sum = ZERO;
    let mut want = 0.0f32;
    for _ in 0..1000 {
        sum = cost_add(sum, TENTH);
        want += 0.1f32;
        assert_eq!(sum, want.to_bits());
    }
}

#[test]
fn add_special_values() {
    let specials: [u32; 22] = [
        0x0000_0000, 0x8000_0000, 0x0000_0001, 0x8000_0001, 0x007F_FFFF, 0x807F_FFFF,
        0x0080_0000, 0x8080_0000, 0x0080_0001, 0x3F80_0000, 0xBF80_0000, 0x3F7F_FFFF,
        0x3F80_0001, 0x7F7F_FFFF, 0xFF7F_FFFF, 0x7F80_0000, 0xFF80_0000, 0x7FC0_0000,
        0xFFC0_0000, 0x7F80_0001, 0x4B80_0000, 0x4B00_0001,
    ];
    for &a in specials.iter() {
        for &b in specials.iter() {
            check_add(a, b);
            check_lt(a, b);
        }
    }
}

#[test]
fn add_random_bit_patterns() {
    let mut rng = Lcg(0x1234_5678_9ABC_DEF0);
    for _ in 0..400_000 {
        let a = rng.next();
        let b = rng.next();
        check_add(a, b);
        check_lt(a, b);
    }
}

#[test]
fn add_random_near_exponents() {
    let mut rng = Lcg(0x0F0F_F0F0_1234_4321);
    for _ in 0..400_000 {
        let a = rng.next();
        let shift = (rng.next() % 61) as i32 - 30;
        let ea = ((a >> 23) & 0xFF) as i32;
        let eb = (ea + shift).clamp(0, 254) as u32;
        let b = (rng.next() & 0x807F_FFFF) | (eb << 23);
        check_add(a, b);
        check_add(b, a);
    }
}

#[test]
fn add_random_ties_and_cancellations() {
    let mut rng = Lcg(0xDEAD_BEEF_0BAD_F00D);
    for _ in 0..200_000 {
        let a = rng.next() & 0x7FFF_FFFF;
        let ea = (a >> 23) & 0xFF;
        let down = rng.next() % 26;
        let eb = ea.saturating_sub(down);
        // few significant bits in b, so that halves occur
        let frac = (rng.next() & 0x3) << 21;
        let sign = rng.next() & 0x8000_0000;
        let b = sign | (eb << 23) | frac;
        check_add(a, b);
        check_add(a ^ 0x8000_0000, b);
        check_add(a, a ^ 0x8000_0000);
        check_add(a, (a + 1) ^ 0x8000_0000);
    }
}

#[test]
fn add_overflows_to_infinity() {
    let max = f32::MAX.to_bits();
    assert_eq!(cost_add(max, max), INFINITY);
    assert_eq!(cost_add(max | SIGN, max | SIGN), INFINITY | SIGN);
    assert!(is_nan_bits(cost_add(INFINITY, INFINITY | SIGN)));
}

#[test]
fn lt_orders_zeros_and_signs() {
    assert!(!cost_lt(ZERO, SIGN));
    assert!(!cost_lt(SIGN, ZERO));
    assert!(cost_lt(ONE | SIGN, ZERO));
    assert!(cost_lt(ZERO, ONE));
    assert!(cost_lt(TEN, INFINITY));
    assert!(!cost_lt(INFINITY, INFINITY));
    assert!(!cost_lt(NAN, ONE));
    assert!(!cost_lt(ONE, NAN));
}
