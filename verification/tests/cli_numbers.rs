use braid::cli::{parse_byte_size, parse_data_rate, parse_positive_usize, parse_usize};

#[test]
fn parses_byte_size_suffixes() {
    assert_eq!(parse_byte_size("64m").unwrap(), 64_000_000);
    assert_eq!(parse_byte_size("1G").unwrap(), 1_000_000_000);
    assert_eq!(parse_byte_size("65536").unwrap(), 65536);
    assert_eq!(parse_byte_size("125k").unwrap(), 125_000);
}

#[test]
fn parses_data_rate_suffixes() {
    assert_eq!(parse_data_rate("125m").unwrap(), 125_000_000);
    assert_eq!(parse_data_rate("1g").unwrap(), 1_000_000_000);
    assert_eq!(parse_data_rate("1000000").unwrap(), 1_000_000);
}

#[test]
fn numbers_at_the_limits() {
    assert_eq!(parse_data_rate("18446744073709551615"), Ok(u64::MAX));
    assert_eq!(
        parse_data_rate("18446744073709551616"),
        Err("invalid rate: 18446744073709551616".to_string())
    );
    assert_eq!(
        parse_data_rate("18446744073709552k"),
        Err("invalid rate: 18446744073709552k".to_string())
    );
    assert_eq!(parse_data_rate("18446744073709551k"), Ok(18_446_744_073_709_551_000));
    assert_eq!(parse_usize("+7"), Ok(7));
    assert_eq!(parse_usize("007"), Ok(7));
    assert_eq!(parse_usize("0"), Ok(0));
}

#[test]
fn refused_numbers() {
    for text in ["", "+", "-1", "1.5", " 1", "x"] {
        assert_eq!(parse_usize(text), Err(format!("invalid integer: {text}")));
        assert_eq!(
            parse_positive_usize(text),
            Err(format!("invalid positive integer: {text}"))
        );
    }
    assert_eq!(parse_positive_usize("0"), Err("value must be positive: 0".to_string()));
    assert_eq!(parse_positive_usize("1500"), Ok(1500));
    for text in ["", "k", "1kk", "m5", "é"] {
        assert_eq!(parse_byte_size(text), Err(format!("invalid size: {text}")));
    }
}
