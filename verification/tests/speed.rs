use rget::speed::{parse_human_size, parse_speed, SizeError};

#[test]
fn test_basic_units() {
    assert_eq!(parse_speed("100").unwrap(), 100);
    assert_eq!(parse_speed("50K").unwrap(), 50 * 1024);
    assert_eq!(parse_speed("2M").unwrap(), 2 * 1024 * 1024);
    assert_eq!(parse_speed("1G").unwrap(), 1024 * 1024 * 1024);
}

#[test]
fn test_with_slash_s() {
    assert_eq!(parse_speed("100M/s").unwrap(), 100 * 1024 * 1024);
    assert_eq!(parse_speed("500K/s").unwrap(), 500 * 1024);
}

#[test]
fn test_case_insensitive() {
    assert_eq!(parse_speed("50m").unwrap(), 50 * 1024 * 1024);
    assert_eq!(parse_speed("2g").unwrap(), 2 * 1024 * 1024 * 1024);
}

#[test]
fn test_zero() {
    assert!(parse_speed("0").is_err());
    assert!(parse_speed("0M").is_err());
}

#[test]
fn test_invalid_unit() {
    assert!(parse_speed("50X").is_err());
}

#[test]
fn test_decimal() {
    let result = parse_speed("1.5M").unwrap();
    assert_eq!(result, (1.5 * 1024.0 * 1024.0) as u64);
}

#[test]
fn test_terabytes() {
    assert_eq!(parse_speed("2T").unwrap(), 2 * 1024 * 1024 * 1024 * 1024);
    assert_eq!(parse_speed("1.5TB").unwrap(), (1.5 * 1024.0 * 1024.0 * 1024.0 * 1024.0) as u64);
}

/// What floating-point arithmetic gives for a number times a power of two.
fn by_double(number: &str, multiplier: u64) -> u64 {
    let value: f64 = number.parse().unwrap();
    (value * multiplier as f64) as u64
}

#[test]
fn sizes_agree_with_floating_point() {
    let units: [(&str, u64); 5] = [("", 1), ("k", 1 << 10), ("MB", 1 << 20), (" g", 1 << 30), ("tb", 1 << 40)];
    let mut numbers: Vec<String> = vec![
        "0.1", ".5", "5.", "0.9999999999999999", "0.99999999999999999", "0.99999999999999994",
        "1.99999999999999999999", "4503599627370495.5", "4503599627370496.5", "4503599627370497.5",
        "9007199254740991", "9007199254740992", "9007199254740993", "9007199254740993.00000001",
        "9007199254740995", "18014398509481985", "18014398509481986", "18014398509481987",
        "18446744073709551615", "18446744073709550591", "18446744073709550592", "18446744073709549568",
        "99999999999999999999", "123456789012345678901234567890", "0.000000000000000000000001",
        "16777215.999999999", "16777216", "4194303.9999999997671693563", "0.5", "0.49999999999999999999",
        "0.00000000000090949470177292823791503906250", "0.0000000000009094947017729282",
    ]
    .into_iter()
    .map(|s| s.to_string())
    .collect();
    let mut x: u64 = 88172645463325252;
    for i in 0..3000u64 {
        x ^= x << 13;
        x ^= x >> 7;
        x ^= x << 17;
        let whole = x >> (i % 64);
        let digits = (x.rotate_left(17) % 1_000_000_007) as u64;
        numbers.push(format!("{}.{}", whole, digits));
        numbers.push(format!("{}", whole));
        numbers.push(format!("0.{:018}", x % 1_000_000_000_000_000_000));
    }
    for n in &numbers {
        for (unit, multiplier) in units {
            let expected = by_double(n, multiplier);
            let got = parse_human_size(&format!("{}{}", n, unit));
            if expected == 0 {
                assert_eq!(got, Err(SizeError::Zero), "{}{}", n, unit);
            } else {
                assert_eq!(got, Ok(expected), "{}{}", n, unit);
            }
        }
    }
}

#[test]
fn every_error_of_a_size() {
    assert_eq!(parse_human_size("abc"), Err(SizeError::InvalidNumber));
    assert_eq!(parse_human_size(""), Err(SizeError::InvalidNumber));
    assert_eq!(parse_human_size("."), Err(SizeError::InvalidNumber));
    assert_eq!(parse_human_size("1.2.3M"), Err(SizeError::InvalidNumber));
    assert_eq!(parse_human_size("50X"), Err(SizeError::UnknownUnit("x".to_string())));
    assert_eq!(parse_human_size("50m /s"), Err(SizeError::UnknownUnit("m ".to_string())));
    assert_eq!(parse_human_size("0.0001K"), Err(SizeError::Zero));
    assert_eq!(SizeError::InvalidNumber.message(), "Invalid number in size");
    assert_eq!(
        SizeError::UnknownUnit("x".to_string()).message(),
        "Unknown unit 'x' in size. Supported units: K, M, G, T (case insensitive)"
    );
    assert_eq!(SizeError::Zero.message(), "Size cannot be zero");
}

#[test]
fn spelling_of_a_size() {
    assert_eq!(parse_human_size("  1.5 GB "), Ok(1610612736));
    assert_eq!(parse_human_size("1.9"), Ok(1));
    assert_eq!(parse_human_size("7b"), Ok(7));
    assert_eq!(parse_human_size("3bk"), Ok(3072));
    assert_eq!(parse_human_size("\u{3000}2T\u{a0}"), Ok(2199023255552));
}

#[test]
fn whole_numbers_of_units_are_exact_and_saturate() {
    let most = 1u64 << 53;
    assert_eq!(parse_human_size(&most.to_string()), Ok(most));
    assert_eq!(parse_human_size(&format!("{}k", most)), Ok(most << 10));
    assert_eq!(parse_human_size(&format!("{}KB", most - 1)), Ok((most - 1) << 10));
    assert_eq!(parse_human_size(&format!("{}T", most)), Ok(u64::MAX));
}
