use kave::error::Error;
use kave::proto::decimal::{parse_length, to_decimal};

#[test]
fn to_decimal_writes_digits_without_leading_zeros() {
    assert_eq!(to_decimal(0), b"0".to_vec());
    assert_eq!(to_decimal(7), b"7".to_vec());
    assert_eq!(to_decimal(10), b"10".to_vec());
    assert_eq!(to_decimal(256), b"256".to_vec());
    assert_eq!(to_decimal(1234567890), b"1234567890".to_vec());
    assert_eq!(to_decimal(usize::MAX), usize::MAX.to_string().into_bytes());
}

#[test]
fn parse_length_reads_digits() {
    assert_eq!(parse_length(b"0"), Ok(0));
    assert_eq!(parse_length(b"8"), Ok(8));
    assert_eq!(parse_length(b"11"), Ok(11));
    assert_eq!(parse_length(b"007"), Ok(7));
    assert_eq!(parse_length(usize::MAX.to_string().as_bytes()), Ok(usize::MAX));
}

#[test]
fn parse_length_refuses_what_is_no_number() {
    assert_eq!(parse_length(b""), Err(Error::InvalidLength));
    assert_eq!(parse_length(b"x"), Err(Error::InvalidLength));
    assert_eq!(parse_length(b"1x"), Err(Error::InvalidLength));
    assert_eq!(parse_length(b"+5"), Err(Error::InvalidLength));
    assert_eq!(parse_length(b"-1"), Err(Error::InvalidLength));
    assert_eq!(parse_length(b" 1"), Err(Error::InvalidLength));
    assert_eq!(parse_length(&[0xff, 0x31]), Err(Error::InvalidLength));
}

#[test]
fn parse_length_refuses_what_does_not_fit() {
    let mut digits = usize::MAX.to_string().into_bytes();
    digits.push(b'0');
    assert_eq!(parse_length(&digits), Err(Error::LengthTooLarge));
    assert_eq!(
        parse_length(b"99999999999999999999999999999999999999"),
        Err(Error::LengthTooLarge)
    );
    let next = (usize::MAX as u128 + 1).to_string();
    assert_eq!(parse_length(next.as_bytes()), Err(Error::LengthTooLarge));
}

#[test]
fn decimal_round_trips() {
    for n in [0usize, 1, 9, 10, 99, 100, 4096, 65535, 1 << 31] {
        assert_eq!(parse_length(&to_decimal(n)), Ok(n));
    }
}

#[test]
fn error_messages_are_distinct() {
    let all = [
        Error::ShortOp,
        Error::UnknownOp,
        Error::ExpectedColon,
        Error::InvalidLength,
        Error::LengthTooLarge,
        Error::InvalidKey,
        Error::KeyTooLong,
    ];
    for (i, a) in all.iter().enumerate() {
        assert!(!a.message().is_empty());
        for b in all.iter().skip(i + 1) {
            assert_ne!(a.message(), b.message());
        }
    }
    assert_eq!(Error::InvalidKey.message(), "key is invalid utf8");
}
