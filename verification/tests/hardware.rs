use fast_floats::double;
use fast_floats::single;

/// A small generator of patterns: every run tries the same ones.
struct Patterns(u64);

impl Patterns {
    fn next(&mut self) -> u64 {
        self.0 = self.0.wrapping_mul(6364136223846793005).wrapping_add(1442695040888963407);
        let mut z = self.0;
        z ^= z >> 33;
        z = z.wrapping_mul(0xff51_afd7_ed55_8ccd);
        z ^= z >> 33;
        z
    }

    /// A double whose exponent is near that of `near`, so that sums and
    /// differences have to round.
    fn double_near(&mut self, near: u64) -> u64 {
        let r = self.next();
        let exp = ((near >> 52) & 0x7ff) as i64 + (r % 120) as i64 - 60;
        let exp = exp.clamp(0, 0x7fe) as u64;
        (r & 0x800f_ffff_ffff_ffff) | (exp << 52)
    }

    fn single_near(&mut self, near: u32) -> u32 {
        let r = self.next() as u32;
        let exp = ((near >> 23) & 0xff) as i32 + (r % 60) as i32 - 30;
        let exp = exp.clamp(0, 0xfe) as u32;
        (r & 0x807f_ffff) | (exp << 23)
    }
}

fn same_double(got: u64, want: f64) -> bool {
    if want.is_nan() {
        f64::from_bits(got).is_nan()
    } else {
        got == want.to_bits()
    }
}

fn same_single(got: u32, want: f32) -> bool {
    if want.is_nan() {
        f32::from_bits(got).is_nan()
    } else {
        got == want.to_bits()
    }
}

fn doubles_of_note() -> Vec<u64> {
    let mut v = vec![
        0.0f64,
        -0.0,
        1.0,
        -1.0,
        2.0,
        0.5,
        1.5,
        3.0,
        0.1,
        0.2,
        0.3,
        1.0e-320,
        5.0e-324,
        -5.0e-324,
        f64::MIN_POSITIVE,
        f64::MAX,
        f64::MIN,
        f64::EPSILON,
        1.0 + f64::EPSILON,
        1.0 - f64::EPSILON / 2.0,
        9007199254740992.0,
        9007199254740993.0,
        1.0e308,
        1.0e-308,
        1.7976931348623155e308,
        f64::INFINITY,
        f64::NEG_INFINITY,
        f64::NAN,
    ]
    .into_iter()
    .map(f64::to_bits)
    .collect::<Vec<u64>>();
    v.extend([0x000f_ffff_ffff_ffff, 0x0010_0000_0000_0001, 0x7fef_ffff_ffff_fffe, 0xfff8_0000_0000_0001]);
    v
}

fn singles_of_note() -> Vec<u32> {
    let mut v = vec![
        0.0f32,
        -0.0,
        1.0,
        -1.0,
        2.0,
        0.5,
        1.5,
        3.0,
        0.1,
        0.2,
        1.0e-45,
        -1.0e-45,
        f32::MIN_POSITIVE,
        f32::MAX,
        f32::MIN,
        f32::EPSILON,
        1.0 + f32::EPSILON,
        16777216.0,
        16777217.0,
        3.0e38,
        1.0e-38,
        f32::INFINITY,
        f32::NEG_INFINITY,
        f32::NAN,
    ]
    .into_iter()
    .map(f32::to_bits)
    .collect::<Vec<u32>>();
    v.extend([0x007f_ffff, 0x0080_0001, 0x7f7f_fffe, 0xffc0_0001]);
    v
}

fn check_double_pair(x: u64, y: u64) {
    let (a, b) = (f64::from_bits(x), f64::from_bits(y));
    assert!(same_double(double::ordinary_add(x, y), a + b), "{a:e} + {b:e}");
    assert!(same_double(double::ordinary_sub(x, y), a - b), "{a:e} - {b:e}");
    assert!(same_double(double::ordinary_mul(x, y), a * b), "{a:e} * {b:e}");
    assert!(same_double(double::ordinary_div(x, y), a / b), "{a:e} / {b:e}");
    assert!(same_double(double::ordinary_rem(x, y), a % b), "{a:e} % {b:e}");
}

fn check_single_pair(x: u32, y: u32) {
    let (a, b) = (f32::from_bits(x), f32::from_bits(y));
    assert!(same_single(single::ordinary_add(x, y), a + b), "{a:e} + {b:e}");
    assert!(same_single(single::ordinary_sub(x, y), a - b), "{a:e} - {b:e}");
    assert!(same_single(single::ordinary_mul(x, y), a * b), "{a:e} * {b:e}");
    assert!(same_single(single::ordinary_div(x, y), a / b), "{a:e} / {b:e}");
    assert!(same_single(single::ordinary_rem(x, y), a % b), "{a:e} % {b:e}");
}

#[test]
fn doubles_of_note_agree_with_the_machine() {
    let v = doubles_of_note();
    for &x in &v {
        for &y in &v {
            check_double_pair(x, y);
        }
    }
}

#[test]
fn singles_of_note_agree_with_the_machine() {
    let v = singles_of_note();
    for &x in &v {
        for &y in &v {
            check_single_pair(x, y);
        }
    }
}

#[test]
fn any_doubles_agree_with_the_machine() {
    let mut p = Patterns(1);
    for _ in 0..3000 {
        let x = p.next();
        let y = p.next();
        check_double_pair(x, y);
    }
}

#[test]
fn near_doubles_agree_with_the_machine() {
    let mut p = Patterns(2);
    for _ in 0..6000 {
        let x = p.next();
        let y = p.double_near(x);
        check_double_pair(x, y);
    }
}

#[test]
fn any_singles_agree_with_the_machine() {
    let mut p = Patterns(3);
    for _ in 0..6000 {
        let x = p.next() as u32;
        let y = p.next() as u32;
        check_single_pair(x, y);
    }
}

#[test]
fn near_singles_agree_with_the_machine() {
    let mut p = Patterns(4);
    for _ in 0..12000 {
        let x = p.next() as u32;
        let y = p.single_near(x);
        check_single_pair(x, y);
    }
}

#[test]
fn products_and_quotients_in_the_subnormal_range() {
    let mut p = Patterns(5);
    for _ in 0..4000 {
        let x = (p.next() & 0x800f_ffff_ffff_ffff) | ((p.next() % 40) << 52);
        let y = (p.next() & 0x800f_ffff_ffff_ffff) | ((1003 + p.next() % 40) << 52);
        check_double_pair(x, y);
        check_double_pair(y, x);
    }
    for _ in 0..4000 {
        let x = (p.next() as u32 & 0x807f_ffff) | ((p.next() as u32 % 30) << 23);
        let y = (p.next() as u32 & 0x807f_ffff) | ((112 + p.next() as u32 % 30) << 23);
        check_single_pair(x, y);
        check_single_pair(y, x);
    }
}

#[test]
fn ties_go_to_the_even_significand() {
    // 2^53 + 1 is half way between two doubles.
    let big = 9007199254740992.0f64;
    assert_eq!(double::ordinary_add(big.to_bits(), 1.0f64.to_bits()), big.to_bits());
    assert_eq!(
        double::ordinary_add((big + 2.0).to_bits(), 1.0f64.to_bits()),
        (big + 4.0).to_bits()
    );
    assert_eq!(
        single::ordinary_add(16777216.0f32.to_bits(), 1.0f32.to_bits()),
        16777216.0f32.to_bits()
    );
    assert_eq!(
        single::ordinary_add(16777218.0f32.to_bits(), 1.0f32.to_bits()),
        16777220.0f32.to_bits()
    );
}

#[test]
fn overflow_goes_to_infinity() {
    let max = f64::MAX.to_bits();
    assert_eq!(double::ordinary_add(max, max), f64::INFINITY.to_bits());
    assert_eq!(double::ordinary_mul(max, 2.0f64.to_bits()), f64::INFINITY.to_bits());
    assert_eq!(double::ordinary_mul(max, (-2.0f64).to_bits()), f64::NEG_INFINITY.to_bits());
    assert_eq!(double::ordinary_div(max, 0.5f64.to_bits()), f64::INFINITY.to_bits());
    assert_eq!(double::ordinary_div(1.0f64.to_bits(), 0), f64::INFINITY.to_bits());
    let max = f32::MAX.to_bits();
    assert_eq!(single::ordinary_add(max, max), f32::INFINITY.to_bits());
    assert_eq!(single::ordinary_mul(max, 2.0f32.to_bits()), f32::INFINITY.to_bits());
}

#[test]
fn what_is_no_number_is_the_canonical_nan() {
    let inf = f64::INFINITY.to_bits();
    let neg_inf = f64::NEG_INFINITY.to_bits();
    assert_eq!(double::ordinary_add(inf, neg_inf), double::NAN);
    assert_eq!(double::ordinary_sub(inf, inf), double::NAN);
    assert_eq!(double::ordinary_mul(inf, 0), double::NAN);
    assert_eq!(double::ordinary_div(0, 0), double::NAN);
    assert_eq!(double::ordinary_div(inf, inf), double::NAN);
    assert_eq!(double::ordinary_rem(1.0f64.to_bits(), 0), double::NAN);
    assert_eq!(double::ordinary_rem(inf, 1.0f64.to_bits()), double::NAN);
    assert_eq!(double::ordinary_add(0xfff4_0000_0000_0001, 0), double::NAN);
    assert_eq!(double::NAN, f64::NAN.to_bits());
    assert_eq!(single::ordinary_div(0, 0), single::NAN);
    assert_eq!(single::NAN, f32::NAN.to_bits());
}

#[test]
fn the_sign_of_an_exact_zero() {
    let one = 1.0f64.to_bits();
    let neg_zero = (-0.0f64).to_bits();
    assert_eq!(double::ordinary_sub(one, one), 0);
    assert_eq!(double::ordinary_add(neg_zero, neg_zero), neg_zero);
    assert_eq!(double::ordinary_add(neg_zero, 0), 0);
    assert_eq!(double::ordinary_mul(neg_zero, one), neg_zero);
    assert_eq!(double::ordinary_rem((-4.0f64).to_bits(), 2.0f64.to_bits()), neg_zero);
}

#[test]
fn the_landmarks_are_those_of_the_machine() {
    assert_eq!(double::INFINITY, f64::INFINITY.to_bits());
    assert_eq!(double::NEG_INFINITY, f64::NEG_INFINITY.to_bits());
    assert_eq!(double::ONE, 1.0f64.to_bits());
    assert_eq!(double::SIGN_BIT, (-0.0f64).to_bits());
    assert_eq!(single::INFINITY, f32::INFINITY.to_bits());
    assert_eq!(single::NEG_INFINITY, f32::NEG_INFINITY.to_bits());
    assert_eq!(single::ONE, 1.0f32.to_bits());
    assert_eq!(single::SIGN_BIT, (-0.0f32).to_bits());
}

fn check_double_triple(x: u64, y: u64, z: u64) {
    let (a, b, c) = (f64::from_bits(x), f64::from_bits(y), f64::from_bits(z));
    assert!(
        same_double(double::ordinary_fma(x, y, z), a.mul_add(b, c)),
        "{a:e} * {b:e} + {c:e}: {:#x} {:#x}",
        double::ordinary_fma(x, y, z),
        a.mul_add(b, c).to_bits()
    );
}

fn check_single_triple(x: u32, y: u32, z: u32) {
    let (a, b, c) = (f32::from_bits(x), f32::from_bits(y), f32::from_bits(z));
    assert!(
        same_single(single::ordinary_fma(x, y, z), a.mul_add(b, c)),
        "{a:e} * {b:e} + {c:e}: {:#x} {:#x}",
        single::ordinary_fma(x, y, z),
        a.mul_add(b, c).to_bits()
    );
}

#[test]
fn fused_triples_of_note_agree_with_the_machine() {
    let v = doubles_of_note();
    for &x in &v {
        for &y in &v {
            for &z in &v {
                check_double_triple(x, y, z);
            }
        }
    }
    let v = singles_of_note();
    for &x in &v {
        for &y in &v {
            for &z in &v {
                check_single_triple(x, y, z);
            }
        }
    }
}

#[test]
fn any_fused_triples_agree_with_the_machine() {
    let mut p = Patterns(6);
    for _ in 0..4000 {
        check_double_triple(p.next(), p.next(), p.next());
        check_single_triple(p.next() as u32, p.next() as u32, p.next() as u32);
    }
}

#[test]
fn fused_sums_that_nearly_cancel() {
    let mut p = Patterns(7);
    for _ in 0..6000 {
        // The third operand is near the product, with the sign that
        // takes most of it away.
        let x = p.double_near(1.0f64.to_bits());
        let y = p.double_near(1.0f64.to_bits());
        let product = f64::from_bits(x) * f64::from_bits(y);
        let z = p.double_near(product.to_bits()) ^ 0x8000_0000_0000_0000;
        check_double_triple(x, y, z);
        let z = (-product).to_bits().wrapping_add(p.next() % 5).wrapping_sub(2);
        check_double_triple(x, y, z);
        let x = p.single_near(1.0f32.to_bits());
        let y = p.single_near(1.0f32.to_bits());
        let product = f32::from_bits(x) * f32::from_bits(y);
        let z = p.single_near(product.to_bits()) ^ 0x8000_0000;
        check_single_triple(x, y, z);
        let z = (-product).to_bits().wrapping_add(p.next() as u32 % 5).wrapping_sub(2);
        check_single_triple(x, y, z);
    }
}

#[test]
fn fused_sums_with_a_third_operand_at_any_distance() {
    let mut p = Patterns(8);
    for _ in 0..3000 {
        let x = p.double_near(1.0f64.to_bits());
        let y = p.double_near(1.0f64.to_bits());
        for shift in [0u64, 1, 3, 20, 50, 52, 53, 54, 55, 60, 100, 107, 110, 200] {
            let z = (p.next() & 0x800f_ffff_ffff_ffff) | ((1023 + shift).min(2046) << 52);
            check_double_triple(x, y, z);
            let z = (p.next() & 0x800f_ffff_ffff_ffff) | (1023u64.saturating_sub(shift) << 52);
            check_double_triple(x, y, z);
        }
        let x = p.single_near(1.0f32.to_bits());
        let y = p.single_near(1.0f32.to_bits());
        for shift in [0u32, 1, 3, 20, 23, 24, 25, 26, 30, 48, 50, 60] {
            let z = (p.next() as u32 & 0x807f_ffff) | ((127 + shift).min(254) << 23);
            check_single_triple(x, y, z);
            let z = (p.next() as u32 & 0x807f_ffff) | (127u32.saturating_sub(shift) << 23);
            check_single_triple(x, y, z);
        }
    }
}

#[test]
fn fused_is_rounded_once() {
    // (1 + e)(1 - e) - 1 is -e^2 exactly; a product rounded first gives 0.
    let e = f64::EPSILON;
    let got = double::ordinary_fma((1.0 + e).to_bits(), (1.0 - e).to_bits(), (-1.0f64).to_bits());
    assert_eq!(got, (-(e * e)).to_bits());
    let e = f32::EPSILON;
    let got = single::ordinary_fma((1.0 + e).to_bits(), (1.0 - e).to_bits(), (-1.0f32).to_bits());
    assert_eq!(got, (-(e * e)).to_bits());
}
