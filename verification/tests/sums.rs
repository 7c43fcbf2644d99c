use fast_floats::sums::fast_dot;
use fast_floats::sums::fast_sum;
use fast_floats::sums::regular_sum;

fn bits(xs: &[f64]) -> Vec<u64> {
    xs.iter().map(|x| x.to_bits()).collect()
}

#[test]
fn sum_of_a_few_numbers() {
    assert_eq!(fast_sum(&bits(&[1.0, 2.0, 3.5])), 6.5f64.to_bits());
    assert_eq!(regular_sum(&bits(&[1.0, 2.0, 3.5])), 6.5f64.to_bits());
    assert_eq!(fast_sum(&[]), 0);
    assert_eq!(regular_sum(&[]), 0);
    assert_eq!(fast_sum(&bits(&[-0.0])), 0);
}

#[test]
fn sums_add_in_order() {
    let xs = [0.1f64, 0.2, 0.3, 1.0e16, -1.0e16, 0.7, 1.0e-300];
    let mut want = 0.0f64;
    for x in xs {
        want += x;
    }
    assert_eq!(fast_sum(&bits(&xs)), want.to_bits());
    assert_eq!(regular_sum(&bits(&xs)), want.to_bits());
}

#[test]
fn ordinary_sum_takes_everything() {
    let got = regular_sum(&bits(&[f64::MAX, f64::MAX, 1.0]));
    assert_eq!(got, f64::INFINITY.to_bits());
    let got = regular_sum(&bits(&[f64::INFINITY, f64::NEG_INFINITY]));
    assert!(f64::from_bits(got).is_nan());
}

#[test]
fn dot_product_of_a_few_numbers() {
    let xs = bits(&[1.0, 2.0, 3.0]);
    let ys = bits(&[4.0, 5.0, 6.0]);
    assert_eq!(fast_dot(&xs, &ys), 32.0f64.to_bits());
    assert_eq!(fast_dot(&xs, &ys[..2]), 14.0f64.to_bits());
    assert_eq!(fast_dot(&xs[..1], &ys), 4.0f64.to_bits());
    assert_eq!(fast_dot(&[], &ys), 0);
    let xs = [0.1f64, 0.7, -3.25, 1.0e10];
    let ys = [0.3f64, 1.0e-5, 8.0, 1.0e-10];
    let mut want = 0.0f64;
    for i in 0..4 {
        want += xs[i] * ys[i];
    }
    assert_eq!(fast_dot(&bits(&xs), &bits(&ys)), want.to_bits());
}
