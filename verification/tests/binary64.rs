use gml::binary64::{digit_of, parse_literal, read_digits, Real};

fn bits_of(value: f64) -> Real {
    Real::from_bits(value.to_bits())
}

fn float_of(value: Real) -> f64 {
    f64::from_bits(value.to_bits())
}

#[test]
fn decimal_literals_round_like_the_standard_library() {
    let literals = [
        "0", "1", "2", "3", "10", "255", "0.5", ".5", "5.", "0.1", "0.2", "0.3", "3.14159",
        "2.718281828459045", "123456789", "9007199254740992", "9007199254740993",
        "9007199254740995", "18014398509481985", "0.000001", "0.1234567890123456789",
        "340282366920938463463374607431768211455", "99999999999999999999999999999999999999",
        "1.7976931348623157", "4.9406564584124654", "0.00000000000000000000000000000000000001",
        "123456789012345678901234567890.12345678", "000123.4500", "0.0", "00", "1.5", "2.5",
        "4503599627370496.5", "4503599627370497.5", "9007199254740993.00000000000000000001",
    ];
    for literal in literals.iter() {
        let made = parse_literal(literal.as_bytes()).expect(literal);
        let wanted: f64 = literal.parse().unwrap();
        assert_eq!(made.to_bits(), wanted.to_bits(), "{}", literal);
    }
}

#[test]
fn hexadecimal_literals_are_integers() {
    assert_eq!(parse_literal(b"$ff"), Some(bits_of(255.0)));
    assert_eq!(parse_literal(b"$FF"), Some(bits_of(255.0)));
    assert_eq!(parse_literal(b"$0"), Some(bits_of(0.0)));
    assert_eq!(parse_literal(b"$10"), Some(bits_of(16.0)));
    assert_eq!(parse_literal(b"$aBcDeF"), Some(bits_of(11259375.0)));
    assert_eq!(
        parse_literal(b"$ffffffffffffffff"),
        Some(bits_of(18446744073709551615u64 as f64))
    );
    assert_eq!(
        parse_literal(b"$20000000000001"),
        Some(bits_of(0x20000000000001u64 as f64))
    );
    assert_eq!(
        parse_literal(b"$20000000000003"),
        Some(bits_of(0x20000000000003u64 as f64))
    );
}

#[test]
fn literals_without_a_value() {
    for literal in
        ["", ".", "$", "$g", "$ff.", "1.2.3", "1e5", "-1", "+1", " 1", "1 ", "0x10", "$-1", "a"]
    {
        assert_eq!(parse_literal(literal.as_bytes()), None, "{}", literal);
    }
    assert_eq!(parse_literal(b"$10000000000000000"), None);
    assert_eq!(parse_literal(b"340282366920938463463374607431768211456"), None);
    assert_eq!(parse_literal(format!("1.{}", "0".repeat(39)).as_bytes()), None);
    assert!(parse_literal(format!("1.{}", "0".repeat(38)).as_bytes()).is_some());
}

#[test]
fn ratios_round_to_nearest() {
    let cases: [(u128, u128); 12] = [
        (1, 3),
        (2, 3),
        (1, 10),
        (22, 7),
        (1, 1),
        (0, 5),
        (9007199254740993, 1),
        (9007199254740993, 2),
        (1, 9007199254740991),
        (123456789, 1000),
        (4503599627370497, 4503599627370496),
        (3, 4503599627370496),
    ];
    for (n, d) in cases.iter() {
        assert_eq!(
            float_of(Real::from_ratio(*n, *d)),
            (*n as f64) / (*d as f64),
            "{} / {}",
            n,
            d
        );
    }
}

#[test]
fn ties_go_to_the_even_significand() {
    // 2^53 + 1 lies halfway between 2^53 and 2^53 + 2.
    assert_eq!(float_of(Real::from_ratio((1 << 53) + 1, 1)), 9007199254740992.0);
    // 2^53 + 3 lies halfway between 2^53 + 2 and 2^53 + 4.
    assert_eq!(float_of(Real::from_ratio((1 << 53) + 3, 1)), 9007199254740996.0);
    // The same ties, one binary place lower.
    assert_eq!(float_of(Real::from_ratio((1 << 53) + 1, 2)), 4503599627370496.0);
    assert_eq!(float_of(Real::from_ratio((1 << 53) + 3, 2)), 4503599627370498.0);
    // Just above a tie rounds up.
    assert_eq!(float_of(Real::from_ratio(((1 << 53) + 1) * 4 + 1, 4)), 9007199254740994.0);
}

#[test]
fn the_largest_ratios() {
    assert_eq!(float_of(Real::from_ratio(u128::MAX, 1)), u128::MAX as f64);
    assert_eq!(float_of(Real::from_ratio(u128::MAX, (1 << 127) - 1)), 2.0);
    assert_eq!(
        float_of(Real::from_ratio(1, (1 << 127) - 1)),
        1.0 / 170141183460469231731687303715884105727.0
    );
}

#[test]
fn integers_become_reals() {
    for value in [0u32, 1, 2, 1000, u32::MAX] {
        assert_eq!(float_of(Real::from_u32(value)), value as f64);
    }
    for value in [0i32, 1, -1, 42, -42, i32::MAX, i32::MIN] {
        assert_eq!(float_of(Real::from_i32(value)), value as f64, "{}", value);
    }
    for value in [0u64, 1 << 53, (1 << 53) + 1, u64::MAX] {
        assert_eq!(float_of(Real::from_u64(value)), value as f64);
    }
    assert_eq!(float_of(Real::from_bool(true)), 1.0);
    assert_eq!(float_of(Real::from_bool(false)), 0.0);
    assert_eq!(Real::zero(), bits_of(0.0));
}

#[test]
fn reals_become_integers_by_dropping_the_fraction() {
    let values = [
        0.0,
        -0.0,
        0.4,
        0.5,
        0.9,
        1.0,
        1.9,
        -1.9,
        -0.9,
        2.5,
        -2.5,
        1e9,
        -1e9,
        2147483647.0,
        2147483647.9,
        2147483648.0,
        -2147483648.0,
        -2147483648.9,
        -2147483649.0,
        4294967295.0,
        4294967295.5,
        4294967296.0,
        1e300,
        -1e300,
        5e-324,
        f64::MAX,
        f64::MIN,
        f64::INFINITY,
        f64::NEG_INFINITY,
        f64::NAN,
        -f64::NAN,
    ];
    for value in values.iter() {
        assert_eq!(bits_of(*value).to_i32(), *value as i32, "{}", value);
        assert_eq!(bits_of(*value).to_u32(), *value as u32, "{}", value);
    }
}

#[test]
fn a_real_is_true_above_one_half() {
    let values = [
        0.0,
        -0.0,
        0.4,
        0.5,
        0.5000000000000001,
        0.51,
        1.0,
        -1.0,
        -0.6,
        1e300,
        f64::INFINITY,
        f64::NEG_INFINITY,
        f64::NAN,
        -f64::NAN,
        5e-324,
    ];
    for value in values.iter() {
        assert_eq!(bits_of(*value).to_bool(), *value > 0.5, "{}", value);
    }
}

#[test]
fn kinds_of_reals() {
    assert!(bits_of(f64::NAN).nan());
    assert!(bits_of(-f64::NAN).nan());
    assert!(!bits_of(f64::INFINITY).nan());
    assert!(!bits_of(1.0).nan());
    assert!(bits_of(1.0).finite());
    assert!(bits_of(5e-324).finite());
    assert!(!bits_of(f64::INFINITY).finite());
    assert!(!bits_of(f64::NEG_INFINITY).finite());
    assert!(!bits_of(f64::NAN).finite());
}

#[test]
fn digits_and_their_values() {
    assert_eq!(digit_of(b'0', 10), Some(0));
    assert_eq!(digit_of(b'9', 10), Some(9));
    assert_eq!(digit_of(b'a', 10), None);
    assert_eq!(digit_of(b'a', 16), Some(10));
    assert_eq!(digit_of(b'F', 16), Some(15));
    assert_eq!(digit_of(b'g', 16), None);
    assert_eq!(digit_of(b'/', 16), None);
    assert_eq!(read_digits(0, b"1234", 10, 9999), Some(1234));
    assert_eq!(read_digits(12, b"34", 10, 9999), Some(1234));
    assert_eq!(read_digits(0, b"10000", 10, 9999), None);
    assert_eq!(read_digits(0, b"12a", 10, 9999), None);
    assert_eq!(read_digits(7, b"", 10, 9999), Some(7));
    assert_eq!(read_digits(0, b"ff", 16, 255), Some(255));
}
