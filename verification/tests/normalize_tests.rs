use lif_rust::normalize::{
    is_address, is_hex_bytes32, parse_address, parse_b256_or_address, parse_bytes, parse_u256,
};
use lif_rust::types::ServiceError;

fn hex_str(bytes: &[u8]) -> String {
    bytes.iter().map(|b| format!("{:02x}", b)).collect()
}

#[test]
fn parse_address_accepts_prefixed_and_bare() {
    let a = parse_address(&format!("0x{}", "ab".repeat(20))).unwrap();
    assert_eq!(a, vec![0xabu8; 20]);
    let b = parse_address(&"ab".repeat(20)).unwrap();
    assert_eq!(b, vec![0xabu8; 20]);
}

#[test]
fn parse_address_is_case_insensitive() {
    let a = parse_address(&format!("0x{}", "AB".repeat(20))).unwrap();
    assert_eq!(a, vec![0xabu8; 20]);
}

#[test]
fn parse_address_rejects_bad_length_and_charset() {
    assert!(matches!(
        parse_address("0x1234"),
        Err(ServiceError::InvalidAddress(_))
    ));
    let bad = format!("0x{}", "zz".repeat(20));
    assert!(matches!(
        parse_address(&bad),
        Err(ServiceError::InvalidAddress(_))
    ));
}

#[test]
fn address_promotion_zero_extends() {
    let text = format!("0x{}", "ab".repeat(20));
    let h = parse_b256_or_address(&text).unwrap();
    assert_eq!(h.len(), 32);
    assert_eq!(&h[..12], &[0u8; 12]);
    assert_eq!(&h[12..], &vec![0xabu8; 20][..]);
}

#[test]
fn parse_b256_takes_raw_32_bytes_verbatim() {
    let text = format!("0x{}", "44".repeat(32));
    let h = parse_b256_or_address(&text).unwrap();
    assert_eq!(h, vec![0x44u8; 32]);
}

#[test]
fn parse_b256_rejects_other_lengths() {
    let text = format!("0x{}", "44".repeat(31));
    assert!(matches!(
        parse_b256_or_address(&text),
        Err(ServiceError::InvalidFixedHash(_))
    ));
}

#[test]
fn hex_and_decimal_number_forms_agree() {
    let h = parse_u256("0x3e8").unwrap();
    let d = parse_u256("1000").unwrap();
    assert_eq!(h, d);
    let mut expected = vec![0u8; 32];
    expected[30] = 0x03;
    expected[31] = 0xe8;
    assert_eq!(h, expected);
}

#[test]
fn parse_u256_handles_the_largest_value() {
    let max_dec =
        "115792089237316195423570985008687907853269984665640564039457584007913129639935";
    let d = parse_u256(max_dec).unwrap();
    assert_eq!(d, vec![0xffu8; 32]);
    let h = parse_u256(&format!("0x{}", "ff".repeat(32))).unwrap();
    assert_eq!(h, d);
}

#[test]
fn parse_u256_rejects_overflow_empty_and_junk() {
    let too_big =
        "115792089237316195423570985008687907853269984665640564039457584007913129639936";
    assert!(matches!(
        parse_u256(too_big),
        Err(ServiceError::InvalidNumber(_))
    ));
    assert!(matches!(parse_u256(""), Err(ServiceError::InvalidNumber(_))));
    assert!(matches!(
        parse_u256("0x"),
        Err(ServiceError::InvalidNumber(_))
    ));
    assert!(matches!(
        parse_u256("12x4"),
        Err(ServiceError::InvalidNumber(_))
    ));
    assert!(matches!(
        parse_u256("-5"),
        Err(ServiceError::InvalidNumber(_))
    ));
    let overlong = format!("0x1{}", "00".repeat(32));
    assert!(matches!(
        parse_u256(&overlong),
        Err(ServiceError::InvalidNumber(_))
    ));
}

#[test]
fn parse_u256_allows_leading_zero_hex_digits() {
    let h = parse_u256(&format!("0x{}01", "00".repeat(40))).unwrap();
    let mut expected = vec![0u8; 32];
    expected[31] = 1;
    assert_eq!(h, expected);
}

#[test]
fn parse_bytes_decodes_and_rejects() {
    assert_eq!(parse_bytes("0x").unwrap(), Vec::<u8>::new());
    assert_eq!(parse_bytes("0xdeadbeef").unwrap(), vec![0xde, 0xad, 0xbe, 0xef]);
    assert!(matches!(
        parse_bytes("0x123"),
        Err(ServiceError::InvalidBytes(_))
    ));
    assert!(matches!(
        parse_bytes("0xgg"),
        Err(ServiceError::InvalidBytes(_))
    ));
}

#[test]
fn format_hex_is_prefixed_lowercase() {
    let b = vec![0x00u8, 0x1f, 0xa0, 0xff];
    assert_eq!(lif_rust::hextext::format_hex(&b), "0x001fa0ff");
    assert_eq!(lif_rust::hextext::format_hex(&Vec::new()), "0x");
}

#[test]
fn format_hex_round_trips_parse_bytes() {
    let b = parse_bytes("0x0102030405f6").unwrap();
    assert_eq!(lif_rust::hextext::format_hex(&b), "0x0102030405f6");
    assert_eq!(hex_str(&b), "0102030405f6");
}

#[test]
fn length_probes_strip_the_prefix() {
    assert!(is_address(&format!("0x{}", "12".repeat(20))));
    assert!(is_address(&"12".repeat(20)));
    assert!(!is_address("0x1234"));
    assert!(is_hex_bytes32(&format!("0x{}", "12".repeat(32))));
    assert!(!is_hex_bytes32(&"12".repeat(20)));
}

#[test]
fn error_messages_name_the_offending_value() {
    let e = parse_address("zzz").unwrap_err();
    assert_eq!(e.message(), "invalid address: zzz");
    let e = parse_u256("abc").unwrap_err();
    assert_eq!(e.message(), "invalid uint256: abc");
    let e = parse_bytes("0x123").unwrap_err();
    assert_eq!(e.message(), "invalid bytes: 123");
}
