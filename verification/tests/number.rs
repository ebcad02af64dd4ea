use blf_asc::number::{format_decimal, format_hex_lower, format_hex_upper, parse_signed, parse_unsigned};

fn unsigned(s: &str, base: u32, max: u64) -> Option<u64> {
    let chars: Vec<char> = s.chars().collect();
    parse_unsigned(&chars, base, max)
}

fn signed(s: &str) -> Option<i32> {
    let chars: Vec<char> = s.chars().collect();
    parse_signed(&chars)
}

#[test]
fn numbers_are_formatted() {
    assert_eq!(format_decimal(0), "0");
    assert_eq!(format_decimal(1234567890), "1234567890");
    assert_eq!(format_decimal(u64::MAX), "18446744073709551615");
    assert_eq!(format_hex_upper(0), "0");
    assert_eq!(format_hex_upper(0x18fe_f1aa), "18FEF1AA");
    assert_eq!(format_hex_lower(0xdead_beef), "deadbeef");
}

#[test]
fn unsigned_numbers_are_parsed_as_by_std() {
    for s in ["", "+", "-", "0", "+7", "-7", "007", "255", "256", "65535", "65536", "1 ", " 1", "1_0", "x", "ff", "FF", "0x1", "4294967295", "4294967296", "99999999999999999999999"] {
        assert_eq!(unsigned(s, 10, 255), s.parse::<u8>().ok().map(u64::from), "{s}");
        assert_eq!(unsigned(s, 10, 65_535), s.parse::<u16>().ok().map(u64::from), "{s}");
        assert_eq!(unsigned(s, 10, u32::MAX as u64), s.parse::<u32>().ok().map(u64::from), "{s}");
        assert_eq!(unsigned(s, 10, u64::MAX), s.parse::<u64>().ok(), "{s}");
        assert_eq!(unsigned(s, 16, 255), u8::from_str_radix(s, 16).ok().map(u64::from), "{s}");
        assert_eq!(
            unsigned(s, 16, u32::MAX as u64),
            u32::from_str_radix(s, 16).ok().map(u64::from),
            "{s}"
        );
    }
}

#[test]
fn signed_numbers_are_parsed_as_by_std() {
    for s in ["", "+", "-", "--1", "+-1", "0", "-0", "+2024", "2024", "-44", "2147483647", "2147483648", "-2147483648", "-2147483649", "1.0"] {
        assert_eq!(signed(s), s.parse::<i32>().ok(), "{s}");
    }
}

#[test]
fn formatted_numbers_are_parsed_back() {
    for n in [0u32, 1, 9, 10, 15, 16, 255, 4096, 0x1fff_ffff, u32::MAX] {
        assert_eq!(unsigned(&format_decimal(n as u64), 10, u32::MAX as u64), Some(n as u64));
        assert_eq!(unsigned(&format_hex_upper(n), 16, u32::MAX as u64), Some(n as u64));
        assert_eq!(unsigned(&format_hex_lower(n), 16, u32::MAX as u64), Some(n as u64));
    }
}
