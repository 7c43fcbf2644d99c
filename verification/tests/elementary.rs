use fast_floats::Fast;

fn double(x: f64) -> Fast<u64> {
    Fast(x.to_bits())
}

fn single(x: f32) -> Fast<u32> {
    Fast(x.to_bits())
}

fn ln64(x: Fast<u64>) -> Fast<u64> {
    double(f64::from_bits(x.get()).ln())
}

fn ln32(x: Fast<u32>) -> Fast<u32> {
    single(f32::from_bits(x.get()).ln())
}

fn doubles() -> Vec<f64> {
    vec![
        0.0,
        -0.0,
        0.3,
        -0.3,
        0.5,
        -0.5,
        0.7,
        -0.7,
        1.0,
        -1.0,
        1.5,
        -1.5,
        2.5,
        -2.5,
        3.5,
        1234.5678,
        -1234.5678,
        0.49999999999999994,
        4503599627370495.5,
        4503599627370496.5,
        -4503599627370495.5,
        9007199254740991.0,
        9007199254740992.0,
        1.0e300,
        -1.0e300,
        5.0e-324,
        -5.0e-324,
        2.2250738585072014e-308,
        f64::MAX,
        f64::MIN,
        f64::INFINITY,
        f64::NEG_INFINITY,
    ]
}

fn singles() -> Vec<f32> {
    vec![
        0.0,
        -0.0,
        0.3,
        -0.3,
        0.5,
        -0.5,
        0.7,
        1.0,
        -1.0,
        1.5,
        -1.5,
        2.5,
        -2.5,
        1234.567,
        -1234.567,
        0.49999997,
        8388607.5,
        -8388607.5,
        16777216.0,
        1.0e30,
        1.0e-45,
        -1.0e-45,
        f32::MAX,
        f32::MIN,
        f32::INFINITY,
        f32::NEG_INFINITY,
    ]
}

#[test]
fn whole_numbers_agree_with_the_machine() {
    for x in doubles() {
        assert_eq!(double(x).floor().get(), x.floor().to_bits(), "floor {x:e}");
        assert_eq!(double(x).ceil().get(), x.ceil().to_bits(), "ceil {x:e}");
        assert_eq!(double(x).round().get(), x.round().to_bits(), "round {x:e}");
        assert_eq!(double(x).trunc().get(), x.trunc().to_bits(), "trunc {x:e}");
    }
    for x in singles() {
        assert_eq!(single(x).floor().get(), x.floor().to_bits(), "floor {x:e}");
        assert_eq!(single(x).ceil().get(), x.ceil().to_bits(), "ceil {x:e}");
        assert_eq!(single(x).round().get(), x.round().to_bits(), "round {x:e}");
        assert_eq!(single(x).trunc().get(), x.trunc().to_bits(), "trunc {x:e}");
    }
}

#[test]
fn whole_numbers_of_any_pattern() {
    let mut state: u64 = 99;
    for _ in 0..20000 {
        state = state.wrapping_mul(6364136223846793005).wrapping_add(1442695040888963407);
        // Exponents around those where the fraction ends.
        let exp = 1000 + (state >> 40) % 90;
        let bits = (state & 0x800f_ffff_ffff_ffff) | (exp << 52);
        let x = f64::from_bits(bits);
        assert_eq!(Fast(bits).floor().get(), x.floor().to_bits(), "floor {x:e}");
        assert_eq!(Fast(bits).ceil().get(), x.ceil().to_bits(), "ceil {x:e}");
        assert_eq!(Fast(bits).round().get(), x.round().to_bits(), "round {x:e}");
        assert_eq!(Fast(bits).trunc().get(), x.trunc().to_bits(), "trunc {x:e}");
        assert_eq!(Fast(bits).fract().get(), (x - x.trunc()).to_bits(), "fract {x:e}");
        let exp = (110 + (state >> 44) % 50) as u32;
        let bits = ((state >> 8) as u32 & 0x807f_ffff) | (exp << 23);
        let x = f32::from_bits(bits);
        assert_eq!(Fast(bits).floor().get(), x.floor().to_bits(), "floor {x:e}");
        assert_eq!(Fast(bits).ceil().get(), x.ceil().to_bits(), "ceil {x:e}");
        assert_eq!(Fast(bits).round().get(), x.round().to_bits(), "round {x:e}");
        assert_eq!(Fast(bits).trunc().get(), x.trunc().to_bits(), "trunc {x:e}");
        assert_eq!(Fast(bits).fract().get(), (x - x.trunc()).to_bits(), "fract {x:e}");
    }
}

#[test]
fn a_nan_stays_as_it_is_when_made_whole() {
    let nan: u64 = 0xfff8_0000_0000_1234;
    assert_eq!(Fast(nan).floor().get(), nan);
    assert_eq!(Fast(nan).ceil().get(), nan);
    assert_eq!(Fast(nan).round().get(), nan);
    assert_eq!(Fast(nan).trunc().get(), nan);
    assert!(Fast(nan).fract().is_nan());
    let nan: u32 = 0x7fc0_0042;
    assert_eq!(Fast(nan).floor().get(), nan);
    assert_eq!(Fast(nan).trunc().get(), nan);
    assert!(Fast(nan).fract().is_nan());
}

#[test]
fn floor_ceil_round_trunc_of_two_and_a_half() {
    assert_eq!(double(2.5).floor(), double(2.0));
    assert_eq!(double(2.5).ceil(), double(3.0));
    assert_eq!(double(2.5).round(), double(3.0));
    assert_eq!(double(2.5).trunc(), double(2.0));
    assert_eq!(double(-2.5).floor(), double(-3.0));
    assert_eq!(double(-2.5).ceil(), double(-2.0));
    assert_eq!(double(-2.5).round(), double(-3.0));
    assert_eq!(double(-2.5).trunc(), double(-2.0));
    assert_eq!(double(-0.25).ceil().get(), (-0.0f64).to_bits());
    assert_eq!(double(-0.25).floor().get(), (-1.0f64).to_bits());
}

#[test]
fn fract_is_the_value_less_its_whole_part() {
    assert_eq!(double(2.75).fract(), double(0.75));
    assert_eq!(double(-2.75).fract(), double(-0.75));
    assert_eq!(double(3.0).fract().get(), 0);
    assert_eq!(single(2.75).fract(), single(0.75));
    assert!(double(f64::INFINITY).fract().is_nan());
    for x in doubles() {
        let want = x - x.trunc();
        let got = double(x).fract();
        if want.is_nan() {
            assert!(got.is_nan());
        } else {
            assert_eq!(got.get(), want.to_bits(), "fract {x:e}");
        }
    }
}

#[test]
fn abs_clears_the_sign_bit_only() {
    for x in doubles() {
        assert_eq!(double(x).abs().get(), x.abs().to_bits());
    }
    for x in singles() {
        assert_eq!(single(x).abs().get(), x.abs().to_bits());
    }
    assert_eq!(Fast(0xfff4_0000_dead_beefu64).abs().get(), 0x7ff4_0000_dead_beef);
    assert_eq!(Fast(0xffc0_1234u32).abs().get(), 0x7fc0_1234);
}

#[test]
fn is_nan_tells_the_nans_from_the_infinities() {
    assert!(double(f64::NAN).is_nan());
    assert!(Fast(0x7ff0_0000_0000_0001u64).is_nan());
    assert!(Fast(0xffff_ffff_ffff_ffffu64).is_nan());
    assert!(!double(f64::INFINITY).is_nan());
    assert!(!double(f64::NEG_INFINITY).is_nan());
    assert!(!double(1.0).is_nan());
    assert!(single(f32::NAN).is_nan());
    assert!(Fast(0x7f80_0001u32).is_nan());
    assert!(!single(f32::INFINITY).is_nan());
    for x in doubles() {
        assert_eq!(double(x).is_nan(), x.is_nan());
        assert_eq!(double(x).is_finite(), x.is_finite());
    }
    for x in singles() {
        assert_eq!(single(x).is_nan(), x.is_nan());
        assert_eq!(single(x).is_finite(), x.is_finite());
    }
}

#[test]
fn signum_of_negative_zero_is_minus_one() {
    assert_eq!(double(-0.0).signum(), double(-1.0));
    assert_eq!(double(-0.0).signum().get(), (-1.0f64).to_bits());
    assert_eq!(double(0.0).signum().get(), 1.0f64.to_bits());
    assert_eq!(single(-0.0).signum().get(), (-1.0f32).to_bits());
    for x in doubles() {
        assert_eq!(double(x).signum().get(), x.signum().to_bits());
    }
    for x in singles() {
        assert_eq!(single(x).signum().get(), x.signum().to_bits());
    }
}

#[test]
fn signum_of_nan_is_nan() {
    assert!(double(f64::NAN).signum().is_nan());
    assert_eq!(Fast(0xfff4_0000_0000_0001u64).signum().get(), f64::NAN.to_bits());
    assert!(single(f32::NAN).signum().is_nan());
}

#[test]
fn copysign_takes_magnitude_and_sign_apart() {
    for x in doubles() {
        for y in doubles() {
            assert_eq!(double(x).copysign(double(y)).get(), x.copysign(y).to_bits());
        }
    }
    for x in singles() {
        for y in singles() {
            assert_eq!(single(x).copysign(single(y)).get(), x.copysign(y).to_bits());
        }
    }
    assert_eq!(double(3.0).copysign(double(-0.0)).get(), (-3.0f64).to_bits());
    assert_eq!(Fast(0x7ff8_0000_0000_0001u64).copysign(double(-1.0)).get(), 0xfff8_0000_0000_0001);
}

#[test]
fn acosh_of_one_is_zero() {
    assert_eq!(double(1.0).acosh(ln64), double(0.0));
    assert_eq!(double(1.0).acosh(ln64).get(), 0);
    assert_eq!(single(1.0).acosh(ln32).get(), 0);
}

#[test]
fn acosh_below_one_is_nan() {
    assert!(double(0.5).acosh(ln64).is_nan());
    assert!(double(-3.0).acosh(ln64).is_nan());
    assert!(double(f64::NEG_INFINITY).acosh(ln64).is_nan());
    assert_eq!(double(0.5).acosh(ln64).get(), f64::NAN.to_bits());
    assert!(single(0.5).acosh(ln32).is_nan());
    // The functions handed in are not even asked.
    let never = |_: Fast<u64>| -> Fast<u64> { panic!("asked below one") };
    assert!(double(0.999).acosh(never).is_nan());
}

#[test]
fn acosh_is_the_formula_from_one_on() {
    for x in [1.0f64, 1.5, 2.0, 10.0, 1.0e10, 1.0e200, f64::INFINITY] {
        let want = (x + (x * x - 1.0).sqrt()).ln();
        assert_eq!(double(x).acosh(ln64).get(), want.to_bits(), "acosh {x:e}");
    }
    assert!(double(f64::NAN).acosh(ln64).is_nan());
    for x in [1.0f32, 1.5, 2.0, 10.0, 1.0e10] {
        let want = (x + (x * x - 1.0).sqrt()).ln();
        assert_eq!(single(x).acosh(ln32).get(), want.to_bits(), "acosh {x:e}");
    }
}

#[test]
fn asinh_of_negative_infinity_is_itself() {
    assert_eq!(double(f64::NEG_INFINITY).asinh(ln64), double(f64::NEG_INFINITY));
    assert_eq!(
        double(f64::NEG_INFINITY).asinh(ln64).get(),
        f64::NEG_INFINITY.to_bits()
    );
    assert_eq!(
        single(f32::NEG_INFINITY).asinh(ln32).get(),
        f32::NEG_INFINITY.to_bits()
    );
    let never = |_: Fast<u64>| -> Fast<u64> { panic!("asked at negative infinity") };
    assert_eq!(double(f64::NEG_INFINITY).asinh(never).get(), f64::NEG_INFINITY.to_bits());
}

#[test]
fn asinh_is_the_formula_elsewhere() {
    for x in [0.0f64, 0.5, -0.5, 1.0, -1.0, 3.25, 1.0e10, -1.0e10, f64::INFINITY] {
        let want = (x + (x * x + 1.0).sqrt()).ln();
        let got = double(x).asinh(ln64);
        if want.is_nan() {
            assert!(got.is_nan());
        } else {
            assert_eq!(got.get(), want.to_bits(), "asinh {x:e}");
        }
    }
    assert!(double(f64::NAN).asinh(ln64).is_nan());
    for x in [0.0f32, 0.5, -0.5, 1.0, 3.25] {
        let want = (x + (x * x + 1.0).sqrt()).ln();
        assert_eq!(single(x).asinh(ln32).get(), want.to_bits(), "asinh {x:e}");
    }
}

#[test]
fn log_is_a_quotient_of_natural_logarithms() {
    for (x, base) in [(8.0f64, 2.0f64), (100.0, 10.0), (2.0, 8.0), (0.5, 3.0), (7.0, 7.0)] {
        let want = x.ln() / base.ln();
        assert_eq!(double(x).log(double(base), ln64).get(), want.to_bits());
    }
    assert_eq!(double(7.0).log(double(7.0), ln64), double(1.0));
    for (x, base) in [(8.0f32, 2.0f32), (100.0, 10.0), (0.5, 3.0)] {
        let want = x.ln() / base.ln();
        assert_eq!(single(x).log(single(base), ln32).get(), want.to_bits());
    }
}

#[test]
fn sin_cos_asks_each_function_once() {
    let sin = |x: Fast<u64>| double(f64::from_bits(x.get()).sin());
    let cos = |x: Fast<u64>| double(f64::from_bits(x.get()).cos());
    let (s, c) = double(0.0).sin_cos(sin, cos);
    assert_eq!(s.get(), 0.0f64.to_bits());
    assert_eq!(c.get(), 1.0f64.to_bits());
    let (s, c) = double(1.25).sin_cos(sin, cos);
    assert_eq!(s.get(), 1.25f64.sin().to_bits());
    assert_eq!(c.get(), 1.25f64.cos().to_bits());
    let sin = |x: Fast<u32>| single(f32::from_bits(x.get()).sin());
    let cos = |x: Fast<u32>| single(f32::from_bits(x.get()).cos());
    let (s, c) = single(0.75).sin_cos(sin, cos);
    assert_eq!(s.get(), 0.75f32.sin().to_bits());
    assert_eq!(c.get(), 0.75f32.cos().to_bits());
}

#[test]
fn square_roots_agree_with_the_machine() {
    for x in doubles() {
        let want = x.sqrt();
        let got = double(x).sqrt();
        if want.is_nan() {
            assert!(got.is_nan(), "sqrt {x:e}");
        } else {
            assert_eq!(got.get(), want.to_bits(), "sqrt {x:e}");
        }
    }
    for x in singles() {
        let want = x.sqrt();
        let got = single(x).sqrt();
        if want.is_nan() {
            assert!(got.is_nan(), "sqrt {x:e}");
        } else {
            assert_eq!(got.get(), want.to_bits(), "sqrt {x:e}");
        }
    }
    assert_eq!(double(4.0).sqrt(), double(2.0));
    assert_eq!(double(2.0).sqrt().get(), std::f64::consts::SQRT_2.to_bits());
    assert_eq!(double(-0.0).sqrt().get(), (-0.0f64).to_bits());
    assert_eq!(double(-1.0).sqrt().get(), f64::NAN.to_bits());
    assert_eq!(double(f64::INFINITY).sqrt().get(), f64::INFINITY.to_bits());
    assert_eq!(Fast(0x7ff8_0000_0000_0007u64).sqrt().get(), 0x7ff8_0000_0000_0007);
    assert_eq!(single(9.0).sqrt(), single(3.0));
}

#[test]
fn square_roots_of_any_pattern() {
    let mut state: u64 = 7;
    for _ in 0..20000 {
        state = state.wrapping_mul(6364136223846793005).wrapping_add(1442695040888963407);
        let mut z = state;
        z ^= z >> 29;
        z = z.wrapping_mul(0xbf58_476d_1ce4_e5b9);
        z ^= z >> 32;
        let bits = z & 0x7fff_ffff_ffff_ffff;
        let x = f64::from_bits(bits);
        if !x.is_nan() {
            assert_eq!(Fast(bits).sqrt().get(), x.sqrt().to_bits(), "sqrt {x:e}");
        }
        let bits = (z >> 16) as u32 & 0x7fff_ffff;
        let x = f32::from_bits(bits);
        if !x.is_nan() {
            assert_eq!(Fast(bits).sqrt().get(), x.sqrt().to_bits(), "sqrt {x:e}");
        }
        // Subnormal and nearly subnormal numbers.
        let bits = z & 0x001f_ffff_ffff_ffff;
        let x = f64::from_bits(bits);
        assert_eq!(Fast(bits).sqrt().get(), x.sqrt().to_bits(), "sqrt {x:e}");
        let bits = (z >> 20) as u32 & 0x00ff_ffff;
        let x = f32::from_bits(bits);
        assert_eq!(Fast(bits).sqrt().get(), x.sqrt().to_bits(), "sqrt {x:e}");
    }
}

#[test]
fn square_roots_of_squares_are_exact() {
    for n in 0u32..2000 {
        let x = n as f64;
        assert_eq!(double(x * x).sqrt().get(), x.to_bits());
        let x = n as f32;
        assert_eq!(single(x * x).sqrt().get(), x.to_bits());
    }
}

#[test]
fn mul_add_is_fused() {
    assert_eq!(double(2.0).mul_add(double(3.0), double(4.0)), double(10.0));
    assert_eq!(single(2.0).mul_add(single(3.0), single(4.0)), single(10.0));
    let e = f64::EPSILON;
    let got = double(1.0 + e).mul_add(double(1.0 - e), double(-1.0));
    assert_eq!(got.get(), (1.0 + e).mul_add(1.0 - e, -1.0).to_bits());
    assert_eq!(got.get(), (-(e * e)).to_bits());
    assert!(double(f64::INFINITY).mul_add(double(0.0), double(1.0)).is_nan());
    assert!(double(f64::INFINITY).mul_add(double(1.0), double(f64::NEG_INFINITY)).is_nan());
    assert_eq!(
        double(f64::INFINITY).mul_add(double(-1.0), double(1.0)).get(),
        f64::NEG_INFINITY.to_bits()
    );
    assert_eq!(double(0.0).mul_add(double(-1.0), double(0.0)).get(), 0);
    assert_eq!(double(0.0).mul_add(double(-1.0), double(-0.0)).get(), (-0.0f64).to_bits());
}
