use rpn_calculator::rpn_calc::{EditMode, RpnCalc};

fn value(calc: &RpnCalc) -> f64 {
    f64::from_bits(calc.current())
}

fn stack(calc: &RpnCalc) -> Vec<f64> {
    calc.stack().iter().map(|bits| f64::from_bits(*bits)).collect()
}

fn key_in(calc: &mut RpnCalc, digits: &[i8]) {
    for digit in digits {
        assert!(calc.update_current(*digit));
    }
}

fn with_stack_top_and_current(top: &[i8], current: &[i8]) -> RpnCalc {
    let mut calc = RpnCalc::new();
    key_in(&mut calc, top);
    assert!(calc.enter_current());
    key_in(&mut calc, current);
    calc
}

#[test]
fn new_calculator_shows_zero() {
    let calc = RpnCalc::new();
    assert_eq!(calc.current(), 0);
    assert!(calc.stack().is_empty());
    assert_eq!(calc.edit_mode(), EditMode::AppendWhole);
    assert_eq!(calc.to_string(), "0");
}

#[test]
fn whole_digits_form_the_decimal_number() {
    let mut calc = RpnCalc::new();
    key_in(&mut calc, &[1, 2, 3]);
    assert_eq!(value(&calc), 123.0);
    assert!(stack(&calc).is_empty());
    assert_eq!(calc.edit_mode(), EditMode::AppendWhole);
}

#[test]
fn many_whole_digits_round_as_native_arithmetic_does() {
    let digits: [i8; 25] = [9, 8, 7, 6, 5, 4, 3, 2, 1, 0, 9, 8, 7, 6, 5, 4, 3, 2, 1, 0, 1, 2, 3, 4, 5];
    let mut calc = RpnCalc::new();
    let mut native = 0.0f64;
    for digit in digits {
        calc.update_current(digit);
        native = native * 10.0 + digit as f64;
        assert_eq!(calc.current(), native.to_bits());
    }
}

#[test]
fn fractional_digits_fill_the_decimal_places() {
    let mut calc = RpnCalc::new();
    key_in(&mut calc, &[4]);
    assert!(calc.handle_decimal());
    assert_eq!(calc.edit_mode(), EditMode::AppendFractional(0.1f64.to_bits()));
    key_in(&mut calc, &[1, 2, 3]);
    let expected = 4.0 + 1.0 * 0.1 + 2.0 * 0.01 + 3.0 * 0.001;
    assert!((value(&calc) - expected).abs() < 1e-12);
    let mut native = 4.0f64;
    let mut shift = 0.1f64;
    for digit in [1.0f64, 2.0, 3.0] {
        native += digit * shift;
        shift = shift * 0.1;
    }
    assert_eq!(calc.current(), native.to_bits());
    assert_eq!(calc.edit_mode(), EditMode::AppendFractional(shift.to_bits()));
    assert!(stack(&calc).is_empty());
}

#[test]
fn first_fractional_digit_is_worth_a_tenth() {
    let mut calc = RpnCalc::new();
    calc.handle_decimal();
    key_in(&mut calc, &[5]);
    assert_eq!(value(&calc), 0.5);
    assert_eq!(calc.to_string(), "0.5");
}

#[test]
fn second_decimal_point_is_ignored() {
    let mut calc = RpnCalc::new();
    key_in(&mut calc, &[7]);
    assert!(calc.handle_decimal());
    key_in(&mut calc, &[2]);
    let current = calc.current();
    let mode = calc.edit_mode();
    assert!(!calc.handle_decimal());
    assert_eq!(calc.current(), current);
    assert_eq!(calc.edit_mode(), mode);
    assert!(calc.stack().is_empty());
}

#[test]
fn enter_pushes_exactly_one_value() {
    let mut calc = RpnCalc::new();
    key_in(&mut calc, &[4, 2]);
    assert!(calc.enter_current());
    assert_eq!(stack(&calc), vec![42.0]);
    assert_eq!(calc.current(), 0);
    assert_eq!(calc.edit_mode(), EditMode::AppendWhole);
    assert!(calc.enter_current());
    assert_eq!(stack(&calc), vec![42.0, 0.0]);
}

#[test]
fn digit_after_enter_starts_a_whole_number() {
    let mut calc = with_stack_top_and_current(&[5], &[3]);
    calc.do_add();
    assert!(calc.enter_current());
    assert!(calc.update_current(4));
    assert_eq!(stack(&calc), vec![8.0]);
    assert_eq!(value(&calc), 4.0);
    assert_eq!(calc.edit_mode(), EditMode::AppendWhole);
}

#[test]
fn up_to_fifteen_whole_digits_are_exact() {
    let digits: [i8; 15] = [0, 0, 9, 8, 7, 6, 5, 4, 3, 2, 1, 0, 9, 9, 9];
    let mut calc = RpnCalc::new();
    let mut whole: u64 = 0;
    for digit in digits {
        assert!(calc.update_current(digit));
        whole = whole * 10 + digit as u64;
        assert_eq!(calc.current(), (whole as f64).to_bits());
        assert!(calc.stack().is_empty());
        assert_eq!(calc.edit_mode(), EditMode::AppendWhole);
    }
    assert_eq!(whole, 9876543210999);
    assert_eq!(calc.to_string(), "9876543210999");
}

#[test]
fn three_fractional_digits_stay_within_tolerance() {
    for whole in [0u32, 7, 42, 999999] {
        for (d1, d2, d3) in [(0i8, 0i8, 0i8), (1, 2, 3), (9, 9, 9), (5, 0, 5), (0, 0, 1)] {
            let mut calc = RpnCalc::new();
            let text = whole.to_string();
            for c in text.chars() {
                calc.update_current(c.to_digit(10).unwrap() as i8);
            }
            assert!(calc.handle_decimal());
            key_in(&mut calc, &[d1, d2, d3]);
            let expected = whole as f64 + d1 as f64 * 0.1 + d2 as f64 * 0.01 + d3 as f64 * 0.001;
            assert!((value(&calc) - expected).abs() <= 1e-9);
            assert!(calc.stack().is_empty());
            match calc.edit_mode() {
                EditMode::AppendFractional(scale) => {
                    assert!((f64::from_bits(scale) - 0.0001).abs() < 1e-12)
                }
                _ => panic!("digits after the point are fractional"),
            }
        }
    }
}

#[test]
fn enter_leaves_fractional_mode() {
    let mut calc = RpnCalc::new();
    calc.handle_decimal();
    key_in(&mut calc, &[2, 5]);
    assert!(calc.enter_current());
    assert_eq!(stack(&calc), vec![0.25]);
    assert_eq!(calc.edit_mode(), EditMode::AppendWhole);
    key_in(&mut calc, &[3]);
    assert_eq!(value(&calc), 3.0);
}

#[test]
fn add_takes_the_stack_top() {
    let mut calc = with_stack_top_and_current(&[1, 2], &[3, 0]);
    assert!(calc.do_add());
    assert_eq!(value(&calc), 42.0);
    assert!(stack(&calc).is_empty());
    assert_eq!(calc.edit_mode(), EditMode::PushNext);
}

#[test]
fn subtract_takes_the_stack_top_as_left_operand() {
    let mut calc = with_stack_top_and_current(&[5], &[3]);
    assert!(calc.do_subtract());
    assert_eq!(value(&calc), 2.0);
    assert!(stack(&calc).is_empty());
    assert_eq!(calc.edit_mode(), EditMode::PushNext);
}

#[test]
fn multiply_takes_the_stack_top() {
    let mut calc = with_stack_top_and_current(&[6], &[7]);
    assert!(calc.do_multiply());
    assert_eq!(value(&calc), 42.0);
    assert!(stack(&calc).is_empty());
    assert_eq!(calc.edit_mode(), EditMode::PushNext);
}

#[test]
fn divide_takes_the_stack_top_as_numerator() {
    let mut calc = with_stack_top_and_current(&[1, 0], &[2]);
    assert!(calc.do_divide());
    assert_eq!(value(&calc), 5.0);
    assert!(stack(&calc).is_empty());
    assert_eq!(calc.edit_mode(), EditMode::PushNext);
}

#[test]
fn divide_refuses_a_zero_on_the_stack() {
    let mut calc = with_stack_top_and_current(&[0], &[7]);
    assert!(!calc.do_divide());
    assert_eq!(stack(&calc), vec![0.0]);
    assert_eq!(value(&calc), 7.0);
    assert_eq!(calc.edit_mode(), EditMode::AppendWhole);
}

#[test]
fn divide_refuses_a_negative_zero_on_the_stack() {
    let mut calc = RpnCalc::new();
    key_in(&mut calc, &[0]);
    calc.enter_current();
    assert!(calc.update_current(-1));
    assert!(calc.do_multiply());
    assert_eq!(calc.current(), (-0.0f64).to_bits());
    calc.enter_current();
    key_in(&mut calc, &[7]);
    assert!(!calc.do_divide());
    assert_eq!(calc.stack(), &vec![(-0.0f64).to_bits()]);
    assert_eq!(value(&calc), 7.0);
    assert_eq!(calc.edit_mode(), EditMode::AppendWhole);
}

fn key_in_tiny(calc: &mut RpnCalc, zeros: usize) -> f64 {
    assert!(calc.handle_decimal());
    let mut native = f64::from_bits(calc.current());
    let mut shift = 0.1f64;
    let mut count = 0;
    while count < zeros {
        calc.update_current(0);
        native += 0.0 * shift;
        shift = shift * 0.1;
        count += 1;
    }
    calc.update_current(1);
    native += 1.0 * shift;
    assert_eq!(calc.current(), native.to_bits());
    native
}

#[test]
fn divide_takes_a_subnormal_number_from_the_stack() {
    let mut calc = RpnCalc::new();
    let tiny = key_in_tiny(&mut calc, 309);
    assert!(tiny > 0.0 && tiny < f64::MIN_POSITIVE);
    calc.enter_current();
    key_in(&mut calc, &[1]);
    assert!(calc.do_divide());
    assert_eq!(calc.current(), tiny.to_bits());
    assert_eq!(calc.current(), (tiny / 1.0).to_bits());
    assert!(calc.stack().is_empty());
    assert_eq!(calc.edit_mode(), EditMode::PushNext);
    assert_eq!(calc.to_string(), tiny.to_string());
}

#[test]
fn divide_takes_the_smallest_number_there_is() {
    let mut calc = RpnCalc::new();
    let tiny = key_in_tiny(&mut calc, 322);
    assert_eq!(tiny.to_bits(), 2);
    calc.enter_current();
    key_in(&mut calc, &[2]);
    assert!(calc.do_divide());
    assert_eq!(calc.current(), 1);
    assert_eq!(value(&calc), 5e-324);
    calc.enter_current();
    key_in(&mut calc, &[1]);
    assert!(calc.do_divide());
    assert_eq!(calc.current(), 1);
    assert!(calc.stack().is_empty());
    assert_eq!(calc.edit_mode(), EditMode::PushNext);
    assert_eq!(calc.to_string(), "0.".to_string() + &"0".repeat(323) + "5");
}

#[test]
fn divide_takes_an_infinity_or_a_nan_from_the_stack() {
    let mut calc = with_stack_top_and_current(&[7], &[0]);
    assert!(calc.do_divide());
    calc.enter_current();
    key_in(&mut calc, &[2]);
    assert!(calc.do_divide());
    assert_eq!(value(&calc), f64::INFINITY);
    calc.enter_current();
    assert!(calc.do_multiply());
    assert!(value(&calc).is_nan());
    calc.enter_current();
    key_in(&mut calc, &[3]);
    assert!(calc.do_divide());
    assert!(value(&calc).is_nan());
    assert!(calc.stack().is_empty());
    assert_eq!(calc.edit_mode(), EditMode::PushNext);
}

#[test]
fn divide_by_zero_is_not_guarded() {
    let mut calc = with_stack_top_and_current(&[7], &[0]);
    assert!(calc.do_divide());
    assert_eq!(value(&calc), f64::INFINITY);
    assert_eq!(calc.to_string(), "inf");
}

#[test]
fn operators_need_an_operand_on_the_stack() {
    let mut calc = RpnCalc::new();
    key_in(&mut calc, &[9]);
    assert!(!calc.do_add());
    assert!(!calc.do_subtract());
    assert!(!calc.do_multiply());
    assert!(!calc.do_divide());
    assert_eq!(value(&calc), 9.0);
    assert!(calc.stack().is_empty());
    assert_eq!(calc.edit_mode(), EditMode::AppendWhole);
}

#[test]
fn operators_take_only_the_top_of_a_deeper_stack() {
    let mut calc = RpnCalc::new();
    key_in(&mut calc, &[1]);
    calc.enter_current();
    key_in(&mut calc, &[2]);
    calc.enter_current();
    key_in(&mut calc, &[3]);
    assert!(calc.do_add());
    assert_eq!(stack(&calc), vec![1.0]);
    assert_eq!(value(&calc), 5.0);
    assert!(calc.do_multiply());
    assert!(stack(&calc).is_empty());
    assert_eq!(value(&calc), 5.0);
}

#[test]
fn digit_after_a_result_keeps_the_result() {
    let mut calc = with_stack_top_and_current(&[5], &[3]);
    assert!(calc.do_subtract());
    assert!(calc.update_current(8));
    assert_eq!(stack(&calc), vec![2.0]);
    assert_eq!(value(&calc), 8.0);
    assert_eq!(calc.edit_mode(), EditMode::AppendWhole);
    assert!(calc.update_current(1));
    assert_eq!(value(&calc), 81.0);
}

#[test]
fn decimal_point_after_a_result_keeps_the_result() {
    let mut calc = with_stack_top_and_current(&[5], &[3]);
    assert!(calc.do_add());
    assert!(calc.handle_decimal());
    assert_eq!(stack(&calc), vec![8.0]);
    assert_eq!(calc.current(), 0);
    assert_eq!(calc.edit_mode(), EditMode::AppendFractional(0.1f64.to_bits()));
    key_in(&mut calc, &[2, 5]);
    assert_eq!(value(&calc), 0.25);
}

#[test]
fn results_chain_through_the_stack() {
    let mut calc = with_stack_top_and_current(&[2], &[3]);
    assert!(calc.do_add());
    key_in(&mut calc, &[4]);
    assert!(calc.do_multiply());
    assert_eq!(value(&calc), 20.0);
    assert!(calc.stack().is_empty());
}

#[test]
fn clear_current_leaves_stack_and_mode() {
    let mut calc = with_stack_top_and_current(&[5], &[3]);
    calc.handle_decimal();
    key_in(&mut calc, &[7]);
    let mode = calc.edit_mode();
    assert!(calc.clear_current());
    assert_eq!(calc.current(), 0);
    assert_eq!(stack(&calc), vec![5.0]);
    assert_eq!(calc.edit_mode(), mode);
}

#[test]
fn clear_stack_empties_everything() {
    let mut calc = with_stack_top_and_current(&[5], &[3]);
    calc.enter_current();
    key_in(&mut calc, &[9]);
    assert!(calc.clear_stack());
    assert!(calc.stack().is_empty());
    assert_eq!(calc.current(), 0);
    assert_eq!(calc.to_string(), "0");
}

#[test]
fn clear_stack_works_in_every_mode() {
    let mut after_result = with_stack_top_and_current(&[5], &[3]);
    after_result.do_add();
    assert!(after_result.clear_stack());
    assert_eq!(after_result.to_string(), "0");
    assert_eq!(after_result.edit_mode(), EditMode::PushNext);

    let mut in_fraction = with_stack_top_and_current(&[5], &[3]);
    in_fraction.handle_decimal();
    in_fraction.update_current(1);
    let mode = in_fraction.edit_mode();
    assert!(in_fraction.clear_stack());
    assert_eq!(in_fraction.to_string(), "0");
    assert_eq!(in_fraction.edit_mode(), mode);
}

#[test]
fn backspace_changes_nothing() {
    let mut calc = with_stack_top_and_current(&[5], &[3]);
    calc.handle_decimal();
    key_in(&mut calc, &[1]);
    let before_stack = calc.stack().clone();
    let before_current = calc.current();
    let before_mode = calc.edit_mode();
    assert!(!calc.backspace());
    assert_eq!(calc.stack(), &before_stack);
    assert_eq!(calc.current(), before_current);
    assert_eq!(calc.edit_mode(), before_mode);

    let mut fresh = RpnCalc::new();
    assert!(!fresh.backspace());
    assert_eq!(fresh.to_string(), "0");

    let mut after_result = with_stack_top_and_current(&[5], &[3]);
    after_result.do_add();
    assert!(!after_result.backspace());
    assert_eq!(after_result.edit_mode(), EditMode::PushNext);
    assert_eq!(value(&after_result), 8.0);
}

#[test]
fn display_has_one_line_for_each_value() {
    let mut calc = RpnCalc::new();
    assert_eq!(calc.to_string().lines().count(), 1);
    let mut depth = 0;
    while depth < 5 {
        key_in(&mut calc, &[depth as i8, 1]);
        calc.enter_current();
        depth += 1;
        assert_eq!(calc.to_string().lines().count(), depth + 1);
        assert_eq!(calc.to_string().matches('\n').count(), depth);
    }
}

#[test]
fn display_lists_the_stack_from_the_bottom() {
    let mut calc = RpnCalc::new();
    key_in(&mut calc, &[1]);
    calc.handle_decimal();
    key_in(&mut calc, &[5]);
    calc.enter_current();
    key_in(&mut calc, &[2]);
    calc.enter_current();
    key_in(&mut calc, &[3]);
    assert_eq!(calc.to_string(), "1.5\n2\n3");
}

#[test]
fn display_shows_accumulated_rounding() {
    let mut calc = RpnCalc::new();
    calc.handle_decimal();
    key_in(&mut calc, &[1]);
    calc.enter_current();
    calc.handle_decimal();
    key_in(&mut calc, &[2]);
    assert!(calc.do_add());
    assert_eq!(calc.to_string(), (0.1f64 + 0.2f64).to_string());
    assert_eq!(calc.to_string(), "0.30000000000000004");
}

#[test]
fn display_shows_what_is_not_a_number() {
    let mut calc = with_stack_top_and_current(&[7], &[0]);
    assert!(calc.do_divide());
    calc.enter_current();
    assert!(calc.do_multiply());
    assert!(value(&calc).is_nan());
    assert_eq!(calc.to_string(), "NaN");
}

#[test]
fn negative_results_carry_a_sign() {
    let mut calc = with_stack_top_and_current(&[3], &[5]);
    assert!(calc.do_subtract());
    assert_eq!(value(&calc), -2.0);
    assert_eq!(calc.to_string(), "-2");
}
