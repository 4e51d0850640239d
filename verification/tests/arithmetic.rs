use rpn_calculator::binary64::{from_integer, is_below_smallest_positive};
use rpn_calculator::rpn_calc::RpnCalc;

fn entered(whole: &[i8], fraction: &[i8]) -> (RpnCalc, f64) {
    let mut calc = RpnCalc::new();
    let mut native = 0.0f64;
    for digit in whole {
        calc.update_current(*digit);
        native = native * 10.0 + *digit as f64;
    }
    if !fraction.is_empty() {
        calc.handle_decimal();
        let mut shift = 0.1f64;
        for digit in fraction {
            calc.update_current(*digit);
            native += *digit as f64 * shift;
            shift = shift * 0.1;
        }
    }
    assert_eq!(calc.current(), native.to_bits());
    (calc, native)
}

fn operands() -> Vec<(Vec<i8>, Vec<i8>)> {
    vec![
        (vec![0], vec![]),
        (vec![1], vec![]),
        (vec![3], vec![]),
        (vec![7], vec![1]),
        (vec![0], vec![3]),
        (vec![0], vec![0, 0, 7]),
        (vec![1, 2, 3, 4, 5, 6, 7, 8, 9], vec![9, 8, 7, 6, 5, 4, 3, 2, 1]),
        (vec![9, 9, 9, 9, 9, 9, 9, 9, 9, 9, 9, 9, 9, 9, 9, 9, 9, 9, 9, 9], vec![]),
        (vec![0], vec![0, 0, 0, 0, 0, 0, 0, 0, 0, 0, 0, 0, 0, 0, 0, 0, 0, 0, 0, 1]),
        (vec![2], vec![7, 1, 8, 2, 8, 1, 8, 2, 8, 4, 5, 9, 0, 4, 5]),
    ]
}

fn with_operands(left: &(Vec<i8>, Vec<i8>), right: &(Vec<i8>, Vec<i8>)) -> (RpnCalc, f64, f64) {
    let (mut calc, l) = entered(&left.0, &left.1);
    calc.enter_current();
    for digit in &right.0 {
        calc.update_current(*digit);
    }
    let (_, r) = entered(&right.0, &right.1);
    if !right.1.is_empty() {
        calc.handle_decimal();
        for digit in &right.1 {
            calc.update_current(*digit);
        }
    }
    assert_eq!(calc.current(), r.to_bits());
    (calc, l, r)
}

#[test]
fn sums_are_the_native_sums() {
    for left in operands() {
        for right in operands() {
            let (mut calc, l, r) = with_operands(&left, &right);
            assert!(calc.do_add());
            assert_eq!(calc.current(), (l + r).to_bits());
        }
    }
}

#[test]
fn differences_are_the_native_differences() {
    for left in operands() {
        for right in operands() {
            let (mut calc, l, r) = with_operands(&left, &right);
            assert!(calc.do_subtract());
            assert_eq!(calc.current(), (l - r).to_bits());
        }
    }
}

#[test]
fn products_are_the_native_products() {
    for left in operands() {
        for right in operands() {
            let (mut calc, l, r) = with_operands(&left, &right);
            assert!(calc.do_multiply());
            assert_eq!(calc.current(), (l * r).to_bits());
        }
    }
}

#[test]
fn quotients_are_the_native_quotients() {
    for left in operands() {
        for right in operands() {
            let (mut calc, l, r) = with_operands(&left, &right);
            if l == 0.0 {
                assert!(!calc.do_divide());
                assert_eq!(calc.current(), r.to_bits());
            } else {
                assert!(calc.do_divide());
                assert_eq!(calc.current(), (l / r).to_bits());
            }
        }
    }
}

#[test]
fn fraction_scales_underflow_as_native_products_do() {
    let mut calc = RpnCalc::new();
    calc.handle_decimal();
    let mut native = 0.0f64;
    let mut shift = 0.1f64;
    let mut count = 0;
    while count < 400 {
        calc.update_current(9);
        native += 9.0 * shift;
        shift = shift * 0.1;
        assert_eq!(calc.current(), native.to_bits());
        count += 1;
    }
    assert_eq!(shift, 0.0);
}

#[test]
fn small_integers_convert_exactly() {
    let mut n: i16 = -128;
    while n <= 127 {
        assert_eq!(from_integer(n as i8), (n as f64).to_bits(), "{}", n);
        n += 1;
    }
    assert_eq!(from_integer(0), 0);
    assert_eq!(from_integer(5), 0x4014_0000_0000_0000);
    assert_eq!(from_integer(-1), 0xBFF0_0000_0000_0000);
}

#[test]
fn negative_digits_are_taken_as_they_are() {
    let mut calc = RpnCalc::new();
    calc.update_current(4);
    calc.update_current(-3);
    assert_eq!(f64::from_bits(calc.current()), 37.0);
}

#[test]
fn only_zeros_are_below_the_smallest_positive_number() {
    let smallest = f64::from_bits(1);
    assert_eq!(smallest, 5e-324);
    for x in [0.0f64, -0.0] {
        assert!(x.abs() < smallest);
        assert!(is_below_smallest_positive(x.to_bits()), "{}", x);
    }
    let not_below = [
        smallest,
        -smallest,
        1e-310,
        -1e-310,
        2.225073858507201e-308,
        f64::MIN_POSITIVE,
        -f64::MIN_POSITIVE,
        1.0,
        -1.0,
        f64::MAX,
        f64::INFINITY,
        f64::NEG_INFINITY,
        f64::NAN,
    ];
    for x in not_below {
        assert!(!(x.abs() < smallest));
        assert!(!is_below_smallest_positive(x.to_bits()), "{}", x);
    }
    assert!(!is_below_smallest_positive(0xFFF8_0000_0000_0000));
    assert!(!is_below_smallest_positive(0x7FF0_0000_0000_0001));
}
