use hd_movies::binary64::{multiply_whole, parse_finite, Binary64};
use hd_movies::number::{parse_i32, parse_u64, write_decimal, write_signed_decimal};

fn chars(text: &str) -> Vec<char> {
    text.chars().collect()
}

fn text(chars: Vec<char>) -> String {
    chars.into_iter().collect()
}

#[test]
fn reads_decimal_notation_to_the_nearest_double() {
    for sample in [
        "0", "-0", "1", "6.1", "7.5", "9.999", "0.1", "0.2", "0.3", "1e23", "8.41e21",
        "9007199254740993", "9007199254740992.5", "4.9e-324", "2.4e-324", "2.5e-324",
        "2.2250738585072011e-308", "2.2250738585072014e-308", "1.7976931348623157e308",
        "123456789.123456789", ".5", "5.", "+3", "-12.75", "1E5", "1e+5", "1e-5", "000.10",
        "0.000000000000000000000000000001", "99999999999999999999999999999999",
    ] {
        let expected: f64 = sample.parse().unwrap();
        let found = parse_finite(&chars(sample)).unwrap();
        assert_eq!(found.bits, expected.to_bits(), "{sample}");
    }
}

#[test]
fn reads_nothing_else_as_a_finite_double() {
    for sample in [
        "", "+", "-", ".", "e5", "1e", "1e+", "1.2.3", "1,5", "0x10", "inf", "NaN", "infinity", "1e309",
        "-1e309", "1_000", " 1", "1 ", "--1", "1e5.0",
    ] {
        assert!(parse_finite(&chars(sample)).is_none(), "{sample}");
    }
}

#[test]
fn keeps_the_sign_that_stands_in_front() {
    assert_eq!(parse_finite(&chars("5")).unwrap().bits, 5.0f64.to_bits());
    assert_eq!(parse_finite(&chars("+5")).unwrap().bits, 5.0f64.to_bits());
    assert_eq!(parse_finite(&chars("-5")).unwrap().bits, (-5.0f64).to_bits());
    assert_eq!(parse_finite(&chars("-0")).unwrap().bits, (-0.0f64).to_bits());
}

#[test]
fn multiplies_and_cuts_as_doubles_do() {
    for value in [0.0, 0.1, 1.5, 2.3, 1e-310, 4096.75, 1e15, 123456.789, 1e19, 1.7e308] {
        for factor in [1u64, 1_000, 1_024, 1_073_741_824, 1_099_511_627_776] {
            let found = multiply_whole(Binary64 { bits: f64::to_bits(value) }, factor);
            assert_eq!(found, (value * factor as f64) as u64, "{value} {factor}");
        }
    }
}

#[test]
fn compares_doubles_by_value() {
    let double = |value: f64| Binary64 { bits: value.to_bits() };
    for left in [-2.5, -0.0, 0.0, 1e-320, 6.0, 6.1, 1e300] {
        for right in [-2.5, -0.0, 0.0, 1e-320, 6.0, 6.1, 1e300] {
            assert_eq!(double(left).greater(double(right)), left > right, "{left} {right}");
        }
    }
}

#[test]
fn reads_and_writes_whole_numbers() {
    assert_eq!(parse_u64(&chars("18446744073709551615")), Some(u64::MAX));
    assert_eq!(parse_u64(&chars("18446744073709551616")), None);
    assert_eq!(parse_u64(&chars("")), None);
    assert_eq!(parse_u64(&chars("+1")), None);
    assert_eq!(parse_i32(&chars("+2025")), Some(2025));
    assert_eq!(parse_i32(&chars("-2147483648")), Some(i32::MIN));
    assert_eq!(parse_i32(&chars("2147483648")), None);
    assert_eq!(parse_i32(&chars("20a5")), None);
    assert_eq!(text(write_decimal(0)), "0");
    assert_eq!(text(write_decimal(u64::MAX)), "18446744073709551615");
    assert_eq!(text(write_signed_decimal(-7)), "-7");
    assert_eq!(text(write_signed_decimal(i64::MIN)), "-9223372036854775808");
}
