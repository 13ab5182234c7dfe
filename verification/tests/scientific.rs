use rcalc::scientific::split_scientific;

fn parts(text: &str) -> Option<(String, i32)> {
    split_scientific(text)
}

#[test]
fn mantissa_and_exponent() {
    assert_eq!(parts("1e20"), Some(("1".to_string(), 20)));
    assert_eq!(parts("1.5e-7"), Some(("1.5".to_string(), -7)));
    assert_eq!(parts("-2.25e3"), Some(("-2.25".to_string(), 3)));
    assert_eq!(parts("0e0"), Some(("0".to_string(), 0)));
    assert_eq!(parts("-0e0"), Some(("-0".to_string(), 0)));
    assert_eq!(parts("1.7976931348623157e308"), Some(("1.7976931348623157".to_string(), 308)));
    assert_eq!(parts("5e-324"), Some(("5".to_string(), -324)));
}

#[test]
fn exponent_with_sign_and_zeros() {
    assert_eq!(parts("1e+5"), Some(("1".to_string(), 5)));
    assert_eq!(parts("1e-0"), Some(("1".to_string(), 0)));
    assert_eq!(parts("1e007"), Some(("1".to_string(), 7)));
    assert_eq!(parts("e1"), Some((String::new(), 1)));
}

#[test]
fn exponent_ends_at_a_second_marker() {
    assert_eq!(parts("1e2e3"), Some(("1".to_string(), 2)));
    assert_eq!(parts("1e2ex"), Some(("1".to_string(), 2)));
}

#[test]
fn no_marker_no_parts() {
    assert_eq!(parts(""), None);
    assert_eq!(parts("15"), None);
    assert_eq!(parts("NaN"), None);
    assert_eq!(parts("inf"), None);
    assert_eq!(parts("-inf"), None);
    assert_eq!(parts("1E5"), None);
}

#[test]
fn exponent_must_be_an_integer() {
    assert_eq!(parts("1e"), None);
    assert_eq!(parts("1e+"), None);
    assert_eq!(parts("1e-"), None);
    assert_eq!(parts("1e1.5"), None);
    assert_eq!(parts("1e 5"), None);
    assert_eq!(parts("1e--5"), None);
    assert_eq!(parts("1ee5"), None);
}

#[test]
fn exponent_must_fit() {
    assert_eq!(parts("1e2147483647"), Some(("1".to_string(), i32::MAX)));
    assert_eq!(parts("1e-2147483648"), Some(("1".to_string(), i32::MIN)));
    assert_eq!(parts("1e2147483648"), None);
    assert_eq!(parts("1e-2147483649"), None);
    assert_eq!(parts("1e99999999999999999999999999"), None);
    assert_eq!(parts("1e000000000000000000000000012"), Some(("1".to_string(), 12)));
}

#[test]
fn exponent_reads_as_the_standard_parser_does() {
    for text in ["0", "7", "-7", "+7", "0012", "-0", "2147483647", "-2147483648", "2147483648", "", "+", "-", "1_0", "٣", "12a"] {
        let expected = text.parse::<i32>().ok();
        let got = parts(&format!("1e{}", text)).map(|(_, exponent)| exponent);
        assert_eq!(got, expected, "{}", text);
    }
}
