use rcalc::double::Double;
use rcalc::formatter::format_full_decimal;
use rcalc::formatter::format_large_number;
use rcalc::formatter::format_regular_number;
use rcalc::formatter::format_small_number;
use rcalc::formatter::format_with_bigint;
use rcalc::formatter::trim_trailing_zeros;
use rcalc::formatter::FloatText;
use rcalc::scientific::split_scientific;

fn float_text(num: f64) -> FloatText {
    let plain = format!("{}", num);
    let scientific = format!("{:e}", num);
    let (mantissa, exponent) = match split_scientific(&scientific) {
        Some((text, exponent)) => {
            let mantissa: f64 = text.parse().unwrap();
            (format!("{:.15}", mantissa.abs()), exponent)
        }
        None => (String::new(), 0),
    };
    FloatText {
        value: Double::from_bits(num.to_bits()),
        plain,
        mantissa,
        exponent,
    }
}

fn format(num: f64) -> String {
    let text = float_text(num);
    assert!(text.is_well_formed());
    format_full_decimal(&text)
}

fn trim(text: &str) -> String {
    let mut s = text.to_string();
    trim_trailing_zeros(&mut s);
    s
}

#[test]
fn trims_zeros_and_point() {
    assert_eq!(trim("2.000000"), "2");
    assert_eq!(trim("2.0"), "2");
    assert_eq!(trim("2."), "2");
    assert_eq!(trim("2.500"), "2.5");
    assert_eq!(trim("0.000100"), "0.0001");
    assert_eq!(trim("-10.0"), "-10");
}

#[test]
fn leaves_text_without_point() {
    assert_eq!(trim("100"), "100");
    assert_eq!(trim("0"), "0");
    assert_eq!(trim(""), "");
    assert_eq!(trim("1e100"), "1e100");
}

#[test]
fn trims_at_the_end_only() {
    assert_eq!(trim("100.001"), "100.001");
    assert_eq!(trim("0.0"), "0");
    assert_eq!(trim(".0"), "");
    assert_eq!(trim("1..0"), "1.");
    assert_eq!(trim("000.000"), "000");
}

#[test]
fn regular_number_is_its_conversion_trimmed() {
    assert_eq!(format_regular_number("2.0"), "2");
    assert_eq!(format_regular_number("1234.5"), "1234.5");
    assert_eq!(format_regular_number("1000"), "1000");
}

#[test]
fn large_number_is_multiplied_exactly() {
    assert_eq!(format_large_number("1", 20), "100000000000000000000");
    assert_eq!(format_large_number("123", 3), "123000");
    assert_eq!(format_large_number("123", 0), "123");
    assert_eq!(format_large_number("0", 5), "0");
    assert_eq!(format_large_number("00123", 1), "1230");
    assert_eq!(
        format_large_number("1797693134862316", 30),
        "1797693134862316000000000000000000000000000000"
    );
}

#[test]
fn small_number_gets_its_point() {
    assert_eq!(format_small_number("123", -2), "1.23");
    assert_eq!(format_small_number("123", -1), "12.3");
    assert_eq!(format_small_number("123", -3), "0.123");
    assert_eq!(format_small_number("123", -5), "0.00123");
    assert_eq!(format_small_number("1", -20), "0.00000000000000000001");
    assert_eq!(format_small_number("00123", -2), "1.23");
    assert_eq!(format_small_number("0", -1), "0.0");
    assert_eq!(format_small_number("120", -1), "12.0");
}

#[test]
fn mantissa_and_exponent_give_plain_text() {
    assert_eq!(format_with_bigint("1.000000000000000", 20), "100000000000000000000");
    assert_eq!(format_with_bigint("1.000000000000000", -20), "0.00000000000000000001");
    assert_eq!(format_with_bigint("1.500000000000000", -7), "0.00000015");
    assert_eq!(format_with_bigint("1.234567890123457", 20), "123456789012345700000");
    assert_eq!(format_with_bigint("1.234567890123457", 15), "1234567890123457");
    assert_eq!(format_with_bigint("1.234567890123457", 14), "123456789012345.7");
    assert_eq!(format_with_bigint("1.234567890123457", 0), "1.234567890123457");
    assert_eq!(format_with_bigint("9.999999000000001", -7), "0.0000009999999000000001");
    assert_eq!(format_with_bigint("10.000000000000000", 3), "10000");
    assert_eq!(format_with_bigint("0.000000000000000", 0), "0");
    assert_eq!(format_with_bigint("0.500000000000000", 3), "500");
    assert_eq!(format_with_bigint("12.5", -1), "1.25");
    assert_eq!(format_with_bigint("7.", 2), "700");
}

#[test]
fn exact_in_the_scientific_range() {
    assert_eq!(format(1e20), "100000000000000000000");
    assert_eq!(format(1e20).len(), 21);
    assert_eq!(format(1e-20), "0.00000000000000000001");
}

#[test]
fn whole_number_has_no_fraction() {
    assert_eq!(format(2.0), "2");
    assert_eq!(format(100.0), "100");
    assert_eq!(format(-3.0), "-3");
}

#[test]
fn not_a_number_and_infinities() {
    assert_eq!(format(f64::NAN), "NaN");
    assert_eq!(format(-f64::NAN), "NaN");
    assert_eq!(format(f64::INFINITY), "Infinity");
    assert_eq!(format(f64::NEG_INFINITY), "-Infinity");
}

#[test]
fn zeros() {
    assert_eq!(format(0.0), "0");
    assert_eq!(format(-0.0), "0");
}

#[test]
fn plain_band() {
    assert_eq!(format(0.1), "0.1");
    assert_eq!(format(1234.5), "1234.5");
    assert_eq!(format(-1234.5), "-1234.5");
    assert_eq!(format(1e15), "1000000000000000");
    assert_eq!(format(1e-6), "0.000001");
    assert_eq!(format(0.000001234), "0.000001234");
    assert_eq!(format(9999999999999998.0), "9999999999999998");
    assert_eq!(format(16.3), "16.3");
}

#[test]
fn outside_the_plain_band() {
    assert_eq!(format(1e16), "10000000000000000");
    assert_eq!(format(-1e16), "-10000000000000000");
    assert_eq!(format(1.5e-7), "0.00000015");
    assert_eq!(format(-1.5e-7), "-0.00000015");
    assert_eq!(format(1e-7), "0.0000001");
    assert_eq!(format(3e-10), "0.0000000003");
    assert_eq!(format(-2.5e17), "-250000000000000000");
    assert_eq!(format(6.02214076e23), "602214076000000000000000");
    assert_eq!(format(1e21), "1000000000000000000000");
    assert_eq!(format(1e22), "10000000000000000000000");
    assert_eq!(format(1e23), "100000000000000000000000");
}

#[test]
fn mantissa_keeps_fifteen_fraction_digits() {
    assert_eq!(format(123456789012345680000.0), "123456789012345700000");
    assert_eq!(format(1.2345678901234566e25), "12345678901234570000000000");
    assert_eq!(format(9.999999e-7), "0.0000009999999000000001");
    assert_eq!(
        format(f64::from_bits(0x3eb0_c6f7_a0b5_ed8c)),
        "0.0000009999999999999996"
    );
    assert_eq!(format(f64::from_bits(0x4341_c379_37e0_8001)), "10000000000000000");
}

#[test]
fn largest_and_smallest() {
    let mut largest = "1797693134862316".to_string();
    while largest.len() < 309 {
        largest.push('0');
    }
    assert_eq!(format(f64::MAX), largest);
    assert_eq!(format(f64::MIN), format!("-{}", largest));
    let mut smallest = "0.".to_string();
    while smallest.len() < 2 + 323 {
        smallest.push('0');
    }
    smallest.push('5');
    assert_eq!(format(5e-324), smallest);
    assert_eq!(format(-5e-324), format!("-{}", smallest));
}

#[test]
fn same_input_same_text() {
    let first = format(1.5e-7);
    let _ = format(7e30);
    let _ = format(f64::NAN);
    assert_eq!(format(1.5e-7), first);
    let text = float_text(2.5e20);
    assert_eq!(format_full_decimal(&text), format_full_decimal(&text.clone()));
}

#[test]
fn plain_band_text_parses_back_to_the_number() {
    let values = [
        1e-6, 0.000001234, 0.1, 0.5, 1.0, 2.0, 3.14159, 16.3, 1234.5, 65536.0, 1e15,
        9007199254740993.0, 9999999999999998.0, -0.25, -123456.789,
    ];
    for value in values {
        let text = format(value);
        assert!(!text.contains('e'));
        assert_eq!(text.parse::<f64>().unwrap(), value);
    }
}

#[test]
fn plain_conversion_with_an_exponent_marker_is_not_used() {
    let text = FloatText {
        value: Double::from_bits(2.0f64.to_bits()),
        plain: "2e0".to_string(),
        mantissa: "2.000000000000000".to_string(),
        exponent: 0,
    };
    assert!(text.is_well_formed());
    assert_eq!(format_full_decimal(&text), "2");
}

#[test]
fn well_formed_conversions() {
    let good = FloatText {
        value: Double::from_bits(1e20f64.to_bits()),
        plain: "100000000000000000000".to_string(),
        mantissa: "1.000000000000000".to_string(),
        exponent: 20,
    };
    assert!(good.is_well_formed());
    for mantissa in ["", "1", ".5", "1.5e3", "-1.5", "1.2.3", "1,5", "x"] {
        let bad = FloatText { mantissa: mantissa.to_string(), ..good.clone() };
        assert!(!bad.is_well_formed(), "{}", mantissa);
    }
    let low = FloatText {
        mantissa: "1.5".to_string(),
        exponent: i32::MIN,
        ..good.clone()
    };
    assert!(!low.is_well_formed());
    let lowest = FloatText {
        mantissa: "1.0".to_string(),
        exponent: i32::MIN,
        ..good.clone()
    };
    assert!(lowest.is_well_formed());
    // where the mantissa is not read, it may be anything
    let plain = FloatText {
        value: Double::from_bits(2.0f64.to_bits()),
        plain: "2".to_string(),
        mantissa: String::new(),
        exponent: 0,
    };
    assert!(plain.is_well_formed());
    let nan = FloatText { value: Double::from_bits(f64::NAN.to_bits()), ..plain.clone() };
    assert!(nan.is_well_formed());
}

fn samples() -> Vec<f64> {
    let mut values = Vec::new();
    let mut state: u64 = 0x2545_f491_4f6c_dd1d;
    while values.len() < 3000 {
        state ^= state << 13;
        state ^= state >> 7;
        state ^= state << 17;
        let value = f64::from_bits(state);
        if value.is_finite() {
            values.push(value);
        }
    }
    for exponent in -320..=308 {
        for mantissa in ["1", "-2.5", "9.87654321"] {
            let value: f64 = format!("{}e{}", mantissa, exponent).parse().unwrap();
            if value.is_finite() {
                values.push(value);
            }
        }
    }
    values
}

#[test]
fn text_is_digits_with_at_most_one_point_and_sign() {
    for value in samples() {
        let text = format(value);
        let body = text.strip_prefix('-').unwrap_or(&text);
        assert_eq!(text.starts_with('-'), value < 0.0, "{}", text);
        assert!(!body.is_empty(), "{:e}", value);
        assert!(body.chars().all(|c| c.is_ascii_digit() || c == '.'), "{}", text);
        assert!(body.chars().filter(|c| *c == '.').count() <= 1, "{}", text);
        assert!(!text.contains('e'), "{}", text);
        if body.contains('.') {
            assert!(!body.ends_with('0') && !body.ends_with('.'), "{}", text);
            assert!(!body.starts_with('.'), "{}", text);
        }
    }
}

#[test]
fn text_denotes_the_number_to_fifteen_places() {
    for value in samples() {
        let back: f64 = format(value).parse().unwrap();
        if value == 0.0 {
            assert_eq!(back, 0.0);
        } else {
            assert!(((back - value) / value).abs() < 1e-14, "{:e} {:e}", value, back);
        }
    }
}

#[test]
fn trimming_twice_changes_nothing() {
    for text in ["2.000", "0.0", "100", "1.2300", "0.000100", "12.", "5"] {
        assert_eq!(trim(&trim(text)), trim(text));
    }
}

#[test]
fn mantissa_times_power_of_ten_digit_for_digit() {
    // 1.25 × 10^e for every e: the digits 125, moved
    assert_eq!(format_with_bigint("1.250000000000000", 4), "12500");
    assert_eq!(format_with_bigint("1.250000000000000", 3), "1250");
    assert_eq!(format_with_bigint("1.250000000000000", 2), "125");
    assert_eq!(format_with_bigint("1.250000000000000", 1), "12.5");
    assert_eq!(format_with_bigint("1.250000000000000", 0), "1.25");
    assert_eq!(format_with_bigint("1.250000000000000", -1), "0.125");
    assert_eq!(format_with_bigint("1.250000000000000", -2), "0.0125");
}
