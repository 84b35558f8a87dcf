use nnet::scalar::{gt, INFINITY, ONE, SIGN, ZERO};

fn samples() -> Vec<f64> {
    vec![
        0.0,
        -0.0,
        1.0,
        -1.0,
        0.5,
        -0.5,
        2.0,
        -300.0,
        -299.999,
        -1000.0,
        1e-310,
        -1e-310,
        5e-324,
        -5e-324,
        f64::MIN_POSITIVE,
        f64::MAX,
        f64::MIN,
        f64::EPSILON,
        f64::INFINITY,
        f64::NEG_INFINITY,
        f64::NAN,
        -f64::NAN,
        f64::from_bits(0x7ff0_0000_0000_0001),
        f64::from_bits(0xffff_ffff_ffff_ffff),
        123456.789,
        -123456.789,
    ]
}

#[test]
fn gt_agrees_with_the_order_of_doubles() {
    for a in samples() {
        for b in samples() {
            assert_eq!(gt(a.to_bits(), b.to_bits()), a > b, "{:?} > {:?}", a, b);
        }
    }
}

#[test]
fn gt_is_false_of_equal_values() {
    assert!(!gt(ONE, ONE));
    assert!(!gt(ZERO, SIGN));
    assert!(!gt(SIGN, ZERO));
    assert!(!gt(INFINITY, INFINITY));
}

#[test]
fn gt_is_false_where_one_is_not_a_number() {
    let nan = f64::NAN.to_bits();
    assert!(!gt(nan, ZERO));
    assert!(!gt(ZERO, nan));
    assert!(!gt(nan, nan));
    assert!(!gt(INFINITY + 1, ZERO));
    assert!(!gt(INFINITY, INFINITY + 1));
}

#[test]
fn constants_are_the_bits_of_their_values() {
    assert_eq!(ZERO, 0.0f64.to_bits());
    assert_eq!(ONE, 1.0f64.to_bits());
    assert_eq!(SIGN, (-0.0f64).to_bits());
    assert_eq!(INFINITY, f64::INFINITY.to_bits());
    assert_eq!(nnet::nnet::THRESHOLD, (-300.0f64).to_bits());
}

#[test]
fn gt_orders_across_the_signs() {
    assert!(gt(ONE, ZERO));
    assert!(gt(ZERO, (-1.0f64).to_bits()));
    assert!(gt(SIGN, (-1.0f64).to_bits()));
    assert!(gt((-1.0f64).to_bits(), (-2.0f64).to_bits()));
    assert!(!gt((-2.0f64).to_bits(), (-1.0f64).to_bits()));
    assert!(gt(INFINITY, f64::MAX.to_bits()));
    assert!(gt(f64::MIN.to_bits(), f64::NEG_INFINITY.to_bits()));
}
