use fast_floats::Fast;

fn double(x: f64) -> Fast<u64> {
    Fast(x.to_bits())
}

fn single(x: f32) -> Fast<u32> {
    Fast(x.to_bits())
}

#[test]
fn each_op() {
    assert_eq!(double(2.) + double(1.), double(2. + 1.));
    assert_eq!(double(2.) - double(1.), double(2. - 1.));
    assert_eq!(double(2.) * double(1.), double(2. * 1.));
    assert_eq!(double(2.) / double(1.), double(2. / 1.));
    assert_eq!(double(2.) % double(1.), double(2. % 1.));
}

#[test]
fn each_op_single() {
    assert_eq!(single(2.) + single(1.), single(2. + 1.));
    assert_eq!(single(2.) - single(1.), single(2. - 1.));
    assert_eq!(single(2.) * single(1.), single(2. * 1.));
    assert_eq!(single(2.) / single(1.), single(2. / 1.));
    assert_eq!(single(2.) % single(1.), single(2. % 1.));
}

#[test]
fn round_trip_keeps_every_bit() {
    let patterns: [u64; 7] = [
        0,
        0x8000_0000_0000_0000,
        0x7ff0_0000_0000_0000,
        0xfff0_0000_0000_0000,
        0x7ff8_0000_0000_0000,
        0xfff4_0000_dead_beef,
        0x3ff0_0000_0000_0001,
    ];
    for x in patterns {
        assert_eq!(Fast(x).get(), x);
        assert_eq!(Fast::from(x).get(), x);
    }
    let narrow: [u32; 5] = [0, 0x8000_0000, 0x7f80_0000, 0xffc0_1234, 0x3f80_0001];
    for x in narrow {
        assert_eq!(Fast(x).get(), x);
        assert_eq!(Fast::from(x).get(), x);
    }
}

#[test]
fn sum_of_two_and_one() {
    assert_eq!(double(2.0) + double(1.0), double(3.0));
    assert_eq!((double(2.0) + double(1.0)).get(), 3.0f64.to_bits());
    assert_eq!((single(2.0) + single(1.0)).get(), 3.0f32.to_bits());
}

#[test]
fn bare_operand_on_either_side() {
    assert_eq!(double(2.0) - 1.0f64.to_bits(), double(1.0));
    assert_eq!(2.0f64.to_bits() - double(1.0), double(1.0));
    assert_eq!(single(2.0) - 1.0f32.to_bits(), single(1.0));
    assert_eq!(2.0f32.to_bits() - single(1.0), single(1.0));
}

#[test]
fn remainder_of_seven_by_two() {
    assert_eq!(double(7.0) % double(2.0), double(1.0));
    assert_eq!((double(7.0) % double(2.0)).get(), 1.0f64.to_bits());
    assert_eq!((single(7.0) % single(2.0)).get(), 1.0f32.to_bits());
}

#[test]
fn the_three_shapes_agree() {
    let pairs: [(f64, f64); 5] =
        [(2.0, 1.0), (0.1, 0.2), (-7.5, 2.25), (1.0e300, 3.0e-5), (5.0e-324, 1.5)];
    for (a, b) in pairs {
        let (wa, wb) = (double(a), double(b));
        let (ba, bb) = (a.to_bits(), b.to_bits());
        assert_eq!((wa + wb).get(), (a + b).to_bits());
        assert_eq!((wa + bb).get(), (a + b).to_bits());
        assert_eq!((ba + wb).get(), (a + b).to_bits());
        assert_eq!((wa - wb).get(), (a - b).to_bits());
        assert_eq!((wa - bb).get(), (a - b).to_bits());
        assert_eq!((ba - wb).get(), (a - b).to_bits());
        assert_eq!((wa * wb).get(), (a * b).to_bits());
        assert_eq!((wa * bb).get(), (a * b).to_bits());
        assert_eq!((ba * wb).get(), (a * b).to_bits());
        assert_eq!((wa / wb).get(), (a / b).to_bits());
        assert_eq!((wa / bb).get(), (a / b).to_bits());
        assert_eq!((ba / wb).get(), (a / b).to_bits());
        assert_eq!((wa % wb).get(), (a % b).to_bits());
        assert_eq!((wa % bb).get(), (a % b).to_bits());
        assert_eq!((ba % wb).get(), (a % b).to_bits());
    }
}

#[test]
fn the_three_shapes_agree_single() {
    let pairs: [(f32, f32); 4] = [(2.0, 1.0), (0.1, 0.2), (-7.5, 2.25), (1.0e-45, 1.5)];
    for (a, b) in pairs {
        let (wa, wb) = (single(a), single(b));
        let (ba, bb) = (a.to_bits(), b.to_bits());
        assert_eq!((wa + wb).get(), (a + b).to_bits());
        assert_eq!((wa + bb).get(), (a + b).to_bits());
        assert_eq!((ba + wb).get(), (a + b).to_bits());
        assert_eq!((wa - bb).get(), (a - b).to_bits());
        assert_eq!((ba - wb).get(), (a - b).to_bits());
        assert_eq!((wa * bb).get(), (a * b).to_bits());
        assert_eq!((ba * wb).get(), (a * b).to_bits());
        assert_eq!((wa / bb).get(), (a / b).to_bits());
        assert_eq!((ba / wb).get(), (a / b).to_bits());
        assert_eq!((wa % bb).get(), (a % b).to_bits());
        assert_eq!((ba % wb).get(), (a % b).to_bits());
    }
}

#[test]
fn compound_assignment_is_the_operator() {
    let (a, b) = (10.5f64, 4.0f64);
    let mut v = double(a);
    v += double(b);
    assert_eq!(v.get(), (a + b).to_bits());
    let mut v = double(a);
    v -= double(b);
    assert_eq!(v.get(), (a - b).to_bits());
    let mut v = double(a);
    v *= double(b);
    assert_eq!(v.get(), (a * b).to_bits());
    let mut v = double(a);
    v /= double(b);
    assert_eq!(v.get(), (a / b).to_bits());
    let mut v = double(a);
    v %= double(b);
    assert_eq!(v.get(), (a % b).to_bits());
    assert_eq!(v.get(), 2.5f64.to_bits());
}

#[test]
fn compound_assignment_takes_a_bare_operand() {
    let (a, b) = (10.5f32, 4.0f32);
    let mut v = single(a);
    v += b.to_bits();
    assert_eq!(v.get(), 14.5f32.to_bits());
    v -= b.to_bits();
    assert_eq!(v.get(), 10.5f32.to_bits());
    v *= b.to_bits();
    assert_eq!(v.get(), 42.0f32.to_bits());
    v /= b.to_bits();
    assert_eq!(v.get(), 10.5f32.to_bits());
    v %= b.to_bits();
    assert_eq!(v.get(), 2.5f32.to_bits());
}

#[test]
fn negation_flips_the_sign_bit_only() {
    let patterns: [u64; 6] = [
        0,
        1.5f64.to_bits(),
        f64::INFINITY.to_bits(),
        f64::NEG_INFINITY.to_bits(),
        0x7ff8_0000_0000_0000,
        0xfff4_0000_dead_beef,
    ];
    for x in patterns {
        assert_eq!((-Fast(x)).get(), x ^ 0x8000_0000_0000_0000);
        assert_eq!((-Fast(x)).get(), (-f64::from_bits(x)).to_bits());
    }
    let narrow: [u32; 4] = [0, 1.5f32.to_bits(), f32::INFINITY.to_bits(), 0xffc0_1234];
    for x in narrow {
        assert_eq!((-Fast(x)).get(), x ^ 0x8000_0000);
        assert_eq!((-Fast(x)).get(), (-f32::from_bits(x)).to_bits());
    }
}

#[test]
fn comparison_is_by_value() {
    assert!(double(0.0) == double(-0.0));
    assert!(double(f64::NAN) != double(f64::NAN));
    assert!(double(1.0) < double(2.0));
    assert!(double(-2.0) < double(-1.0));
    assert!(double(-1.0) < double(0.5));
    assert!(double(f64::NEG_INFINITY) < double(f64::MIN));
    assert!(double(f64::MAX) < double(f64::INFINITY));
    assert!(!(double(0.0) < double(-0.0)));
    assert!(!(double(-0.0) < double(0.0)));
    assert!(double(-0.0) <= double(0.0));
    assert!(double(3.0) >= double(3.0));
    assert!(double(3.0) > double(-3.0));
    assert_eq!(double(f64::NAN).partial_cmp(&double(1.0)), None);
    assert_eq!(double(1.0).partial_cmp(&double(f64::NAN)), None);
    assert_eq!(double(1.0).partial_cmp(&double(1.0)), Some(std::cmp::Ordering::Equal));
    assert_eq!(double(1.0).partial_cmp(&double(2.0)), Some(std::cmp::Ordering::Less));
    assert_eq!(double(2.0).partial_cmp(&double(1.0)), Some(std::cmp::Ordering::Greater));
    assert!(single(0.0) == single(-0.0));
    assert!(single(f32::NAN) != single(f32::NAN));
    assert!(single(-2.0) < single(-1.0));
    assert_eq!(single(f32::NAN).partial_cmp(&single(1.0)), None);
}

#[test]
fn default_and_zero_are_positive_zero() {
    assert_eq!(Fast::<u64>::default().get(), 0);
    assert_eq!(Fast::<u32>::default().get(), 0);
    assert_eq!(Fast::<u64>::zero().get(), 0.0f64.to_bits());
    assert_eq!(Fast::<u32>::zero().get(), 0.0f32.to_bits());
    assert!(double(0.0).is_zero());
    assert!(double(-0.0).is_zero());
    assert!(!double(5.0e-324).is_zero());
    assert!(!double(f64::NAN).is_zero());
    assert!(single(-0.0).is_zero());
    assert!(!single(1.0).is_zero());
}

#[test]
fn copies_are_independent() {
    let a = double(1.0);
    let mut b = a;
    b += double(1.0);
    assert_eq!(a.get(), 1.0f64.to_bits());
    assert_eq!(b.get(), 2.0f64.to_bits());
    assert_eq!(a.clone().get(), a.get());
}
