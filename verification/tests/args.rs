use hash_hack_dbms::args::{format_hex_str, format_u32_str, parse_number, strip_underscores};

#[test]
fn decimal_numbers() {
    assert_eq!(parse_number("0", 10), Some(0));
    assert_eq!(parse_number("42", 10), Some(42));
    assert_eq!(parse_number("0042", 10), Some(42));
    assert_eq!(parse_number("+5", 10), Some(5));
    assert_eq!(parse_number("4294967295", 10), Some(u32::MAX));
    assert_eq!(parse_number("4294967296", 10), None);
    assert_eq!(parse_number("99999999999999999999", 10), None);
    assert_eq!(parse_number("", 10), None);
    assert_eq!(parse_number("+", 10), None);
    assert_eq!(parse_number("++5", 10), None);
    assert_eq!(parse_number("-5", 10), None);
    assert_eq!(parse_number("5a", 10), None);
    assert_eq!(parse_number("1_000", 10), None);
    assert_eq!(parse_number(" 5", 10), None);
    assert_eq!(parse_number("٣", 10), None);
}

#[test]
fn hexadecimal_numbers() {
    assert_eq!(parse_number("0", 16), Some(0));
    assert_eq!(parse_number("ff", 16), Some(255));
    assert_eq!(parse_number("FF", 16), Some(255));
    assert_eq!(parse_number("83DCEFB7", 16), Some(0x83DC_EFB7));
    assert_eq!(parse_number("83dcefb7", 16), Some(0x83DC_EFB7));
    assert_eq!(parse_number("ffffffff", 16), Some(u32::MAX));
    assert_eq!(parse_number("100000000", 16), None);
    assert_eq!(parse_number("0x10", 16), None);
    assert_eq!(parse_number("g", 16), None);
    assert_eq!(parse_number("", 16), None);
}

#[test]
fn parsing_agrees_with_std() {
    for text in ["0", "7", "+7", "-7", "", "+", "12ab", "AbCd", "4294967295", "4294967296", "zz"] {
        assert_eq!(parse_number(text, 10), u32::from_str_radix(text, 10).ok());
        assert_eq!(parse_number(text, 16), u32::from_str_radix(text, 16).ok());
    }
}

#[test]
fn underscores_are_dropped() {
    assert_eq!(strip_underscores("1_000_000"), "1000000");
    assert_eq!(strip_underscores("___"), "");
    assert_eq!(strip_underscores("abc"), "abc");
    assert_eq!(strip_underscores(""), "");
    assert_eq!(strip_underscores("é_ü"), "éü");
}

#[test]
fn bundle_numbers_may_be_grouped() {
    assert_eq!(format_u32_str("41"), Ok(41));
    assert_eq!(format_u32_str("1_024"), Ok(1024));
    assert_eq!(format_u32_str("4_294_967_295"), Ok(u32::MAX));
    assert_eq!(format_u32_str("4_294_967_296"), Err("4294967296".to_string()));
    assert_eq!(format_u32_str("1_x"), Err("1x".to_string()));
    assert_eq!(format_u32_str("_"), Err("".to_string()));
}

#[test]
fn probe_keys_are_hexadecimal() {
    assert_eq!(format_hex_str("83DCEFB7"), Ok(0x83DC_EFB7));
    assert_eq!(format_hex_str("0"), Ok(0));
    assert_eq!(format_hex_str("xyz"), Err("xyz".to_string()));
    assert_eq!(format_hex_str("1_0"), Err("1_0".to_string()));
    assert_eq!(format_hex_str(""), Err("".to_string()));
}
