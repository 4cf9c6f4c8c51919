use grid_stats::decimal::{parse_fixed, parse_integer, NumberError};
use grid_stats::grid::{parse_grid_size, ConfigurationError};

#[test]
fn fixed_reads_whole_and_fraction() {
    assert_eq!(parse_fixed(b"100.2"), Ok(100_200_000_000));
    assert_eq!(parse_fixed(b"35"), Ok(35_000_000_000));
    assert_eq!(parse_fixed(b"+0.25"), Ok(250_000_000));
    assert_eq!(parse_fixed(b".5"), Ok(500_000_000));
    assert_eq!(parse_fixed(b"7."), Ok(7_000_000_000));
    assert_eq!(parse_fixed(b"-0.5"), Ok(-500_000_000));
}

#[test]
fn fixed_rounds_extra_digits_down() {
    assert_eq!(parse_fixed(b"1.0000000019"), Ok(1_000_000_001));
    assert_eq!(parse_fixed(b"-1.0000000011"), Ok(-1_000_000_002));
    assert_eq!(parse_fixed(b"-1.0000000010"), Ok(-1_000_000_001));
    assert_eq!(parse_fixed(b"-2.5000000000"), Ok(-2_500_000_000));
}

#[test]
fn fixed_refuses_malformed_text() {
    assert_eq!(parse_fixed(b""), Err(NumberError::Malformed));
    assert_eq!(parse_fixed(b"-"), Err(NumberError::Malformed));
    assert_eq!(parse_fixed(b"."), Err(NumberError::Malformed));
    assert_eq!(parse_fixed(b"abc"), Err(NumberError::Malformed));
    assert_eq!(parse_fixed(b"1e5"), Err(NumberError::Malformed));
    assert_eq!(parse_fixed(b"1.2.3"), Err(NumberError::Malformed));
    assert_eq!(parse_fixed(b" 1.5"), Err(NumberError::Malformed));
}

#[test]
fn fixed_refuses_values_out_of_range() {
    assert_eq!(parse_fixed(b"9223372036.854775807"), Ok(i64::MAX));
    assert_eq!(parse_fixed(b"9223372036.8547758079"), Ok(i64::MAX));
    assert_eq!(parse_fixed(b"9223372036.854775808"), Err(NumberError::OutOfRange));
    assert_eq!(parse_fixed(b"9223372037"), Err(NumberError::OutOfRange));
    assert_eq!(parse_fixed(b"-9223372036.854775808"), Ok(i64::MIN));
    assert_eq!(parse_fixed(b"-9223372036.8547758081"), Err(NumberError::OutOfRange));
    assert_eq!(
        parse_fixed(b"123456789012345678901234567890"),
        Err(NumberError::OutOfRange)
    );
}

#[test]
fn integer_reads_signed_digits() {
    assert_eq!(parse_integer(b"500"), Ok(500));
    assert_eq!(parse_integer(b"-7"), Ok(-7));
    assert_eq!(parse_integer(b"+3"), Ok(3));
    assert_eq!(parse_integer(b"-9223372036854775808"), Ok(i64::MIN));
    assert_eq!(parse_integer(b"9223372036854775807"), Ok(i64::MAX));
}

#[test]
fn integer_refuses_bad_text() {
    assert_eq!(parse_integer(b"5.0"), Err(NumberError::Malformed));
    assert_eq!(parse_integer(b""), Err(NumberError::Malformed));
    assert_eq!(parse_integer(b"+"), Err(NumberError::Malformed));
    assert_eq!(parse_integer(b"12a"), Err(NumberError::Malformed));
    assert_eq!(parse_integer(b"9223372036854775808"), Err(NumberError::OutOfRange));
    assert_eq!(
        parse_integer(b"99999999999999999999999999x"),
        Err(NumberError::Malformed)
    );
}

#[test]
fn grid_size_must_be_positive() {
    assert_eq!(parse_grid_size("1.0"), Ok(1_000_000_000));
    assert_eq!(parse_grid_size("0.25"), Ok(250_000_000));
    assert_eq!(parse_grid_size("0"), Err(ConfigurationError::NonPositiveGridSize));
    assert_eq!(parse_grid_size("-1.0"), Err(ConfigurationError::NonPositiveGridSize));
    assert_eq!(parse_grid_size("0.0000000001"), Err(ConfigurationError::NonPositiveGridSize));
    assert_eq!(parse_grid_size("one"), Err(ConfigurationError::InvalidGridSize));
}
