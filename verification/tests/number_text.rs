use rpn_calculator::render::binary64_string;

fn shown(x: f64) -> String {
    binary64_string(x.to_bits())
}

fn same_as_native(x: f64) {
    assert_eq!(shown(x), x.to_string(), "bits {:#018x}", x.to_bits());
}

#[test]
fn zero_is_a_single_digit() {
    assert_eq!(shown(0.0), "0");
    assert_eq!(shown(-0.0), "-0");
}

#[test]
fn whole_numbers_have_no_point() {
    assert_eq!(shown(1.0), "1");
    assert_eq!(shown(123.0), "123");
    assert_eq!(shown(-42.0), "-42");
    assert_eq!(shown(1e21), "1000000000000000000000");
    assert_eq!(shown(9007199254740992.0), "9007199254740992");
}

#[test]
fn fractions_use_the_fewest_digits() {
    assert_eq!(shown(0.1), "0.1");
    assert_eq!(shown(0.5), "0.5");
    assert_eq!(shown(2.5), "2.5");
    assert_eq!(shown(0.1 + 0.2), "0.30000000000000004");
    assert_eq!(shown(1.0 / 3.0), "0.3333333333333333");
    assert_eq!(shown(1e-7), "0.0000001");
    assert_eq!(shown(-123.456), "-123.456");
}

#[test]
fn infinities_and_nan_have_names() {
    assert_eq!(shown(f64::INFINITY), "inf");
    assert_eq!(shown(f64::NEG_INFINITY), "-inf");
    assert_eq!(shown(f64::NAN), "NaN");
    assert_eq!(binary64_string(0xFFF8_0000_0000_0001), "NaN");
    assert_eq!(binary64_string(0x7FF0_0000_0000_0001), "NaN");
}

#[test]
fn extremes_match_the_native_text() {
    same_as_native(f64::MAX);
    same_as_native(f64::MIN);
    same_as_native(f64::MIN_POSITIVE);
    same_as_native(f64::EPSILON);
    same_as_native(f64::from_bits(1));
    same_as_native(f64::from_bits(2));
    same_as_native(f64::from_bits(0x000F_FFFF_FFFF_FFFF));
    same_as_native(f64::from_bits(0x0010_0000_0000_0001));
    same_as_native(f64::from_bits(0x7FEF_FFFF_FFFF_FFFE));
}

#[test]
fn numbers_next_to_powers_of_ten_match_the_native_text() {
    let mut exponent = -320;
    while exponent <= 308 {
        let x: f64 = format!("1e{}", exponent).parse().unwrap();
        same_as_native(x);
        same_as_native(f64::from_bits(x.to_bits() + 1));
        same_as_native(f64::from_bits(x.to_bits() - 1));
        exponent += 1;
    }
}

#[test]
fn powers_of_two_match_the_native_text() {
    let mut field: u64 = 1;
    while field < 2047 {
        let bits = field << 52;
        same_as_native(f64::from_bits(bits));
        same_as_native(f64::from_bits(bits + 1));
        same_as_native(f64::from_bits(bits - 1));
        same_as_native(f64::from_bits(bits | 0x8000_0000_0000_0000));
        field += 7;
    }
}

#[test]
fn midpoints_between_whole_numbers_match_the_native_text() {
    let mut n: u64 = 9007199254740992;
    while n < 9007199254741100 {
        same_as_native(n as f64);
        n += 1;
    }
    same_as_native(18014398509481984.0);
    same_as_native(18014398509481988.0);
    same_as_native(5e-324);
    same_as_native(1e23);
    same_as_native(9.5e22);
    same_as_native(8.41e21);
    same_as_native(2.0f64.powi(-1074) * 3.0);
}

#[test]
fn scattered_patterns_match_the_native_text() {
    let mut bits: u64 = 0x0123_4567_89AB_CDEF;
    let mut count = 0;
    while count < 3000 {
        bits = bits.wrapping_mul(6364136223846793005).wrapping_add(1442695040888963407);
        let x = f64::from_bits(bits);
        if x.is_finite() {
            same_as_native(x);
        }
        count += 1;
    }
}

#[test]
fn short_decimals_match_the_native_text() {
    let mut n: i64 = -2000;
    while n <= 2000 {
        same_as_native(n as f64 / 8.0);
        same_as_native(n as f64 / 10.0);
        same_as_native(n as f64 / 1000.0);
        same_as_native(n as f64 * 1.1);
        n += 1;
    }
}
