use izin::ascii::{parse_num_at, u64_to_dec};

#[test]
fn decimal_rendering() {
    assert_eq!(u64_to_dec(0), b"0");
    assert_eq!(u64_to_dec(7), b"7");
    assert_eq!(u64_to_dec(1700000000), b"1700000000");
    assert_eq!(u64_to_dec(u64::MAX), b"18446744073709551615");
}

#[test]
fn decimal_parsing() {
    assert_eq!(parse_num_at(b"0;", 0), Some((0, 1)));
    assert_eq!(parse_num_at(b"18446744073709551615x", 0), Some((u64::MAX, 20)));
    assert_eq!(parse_num_at(b"42", 0), Some((42, 2)));
    assert_eq!(parse_num_at(b"a42", 1), Some((42, 3)));
}

#[test]
fn decimal_parsing_rejects_overflow_and_non_digits() {
    assert_eq!(parse_num_at(b"18446744073709551616", 0), None);
    assert_eq!(parse_num_at(b"99999999999999999999999", 0), None);
    assert_eq!(parse_num_at(b"x1", 0), None);
    assert_eq!(parse_num_at(b"", 0), None);
}
