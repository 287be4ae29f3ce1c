use azure_data_cosmos::{parse_u32_from_slice, parse_u64_from_slice};

#[test]
fn parses_decimal_numbers() {
    assert_eq!(parse_u64_from_slice("0"), Ok(0));
    assert_eq!(parse_u64_from_slice("007"), Ok(7));
    assert_eq!(parse_u64_from_slice("18446744073709551615"), Ok(u64::MAX));
    assert_eq!(parse_u32_from_slice("4294967295"), Ok(u32::MAX));
}

#[test]
fn rejects_empty_signs_and_overflow() {
    assert_eq!(parse_u64_from_slice(""), Err(()));
    assert_eq!(parse_u64_from_slice("+1"), Err(()));
    assert_eq!(parse_u64_from_slice("1 "), Err(()));
    assert_eq!(parse_u64_from_slice("18446744073709551616"), Err(()));
    assert_eq!(parse_u32_from_slice("4294967296"), Err(()));
    assert_eq!(parse_u32_from_slice("99999999999x"), Err(()));
}
