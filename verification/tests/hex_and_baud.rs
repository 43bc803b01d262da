use cansend::baud::baud_rate_allowed;
use cansend::hex::{decode_hex_pairs, hex_char, hex_chars_vec, hex_digit_value, parse_hex_u32};

#[test]
fn digit_values() {
    assert_eq!(hex_digit_value('0'), Some(0));
    assert_eq!(hex_digit_value('9'), Some(9));
    assert_eq!(hex_digit_value('a'), Some(10));
    assert_eq!(hex_digit_value('f'), Some(15));
    assert_eq!(hex_digit_value('A'), Some(10));
    assert_eq!(hex_digit_value('F'), Some(15));
    assert_eq!(hex_digit_value('g'), None);
    assert_eq!(hex_digit_value('G'), None);
    assert_eq!(hex_digit_value('#'), None);
    assert_eq!(hex_digit_value(' '), None);
}

#[test]
fn digit_chars() {
    assert_eq!(hex_char(0), '0');
    assert_eq!(hex_char(9), '9');
    assert_eq!(hex_char(10), 'a');
    assert_eq!(hex_char(15), 'f');
}

#[test]
fn numerals() {
    let v: String = hex_chars_vec(0x3FF, 3).into_iter().collect();
    assert_eq!(v, "3ff");
    let v: String = hex_chars_vec(0, 8).into_iter().collect();
    assert_eq!(v, "00000000");
    let v: String = hex_chars_vec(0xDEADBEEF, 8).into_iter().collect();
    assert_eq!(v, "deadbeef");
}

#[test]
fn parse_numerals() {
    assert_eq!(parse_hex_u32("deadbeef", 0, 8), Some(0xDEAD_BEEF));
    assert_eq!(parse_hex_u32("7FF", 0, 3), Some(0x7FF));
    assert_eq!(parse_hex_u32("", 0, 0), Some(0));
    assert_eq!(parse_hex_u32("00g", 0, 3), None);
    assert_eq!(parse_hex_u32("abcdef", 2, 4), Some(0xCD));
}

#[test]
fn decode_pairs() {
    assert_eq!(decode_hex_pairs("0102ff", 0, 6), Some(vec![0x01, 0x02, 0xFF]));
    assert_eq!(decode_hex_pairs("", 0, 0), Some(Vec::new()));
    assert_eq!(decode_hex_pairs("0g", 0, 2), None);
}

#[test]
fn accepted_baud_rates() {
    for rate in [
        5000, 10000, 20000, 33000, 47000, 50000, 83000, 95000, 100000, 125000, 250000, 500000,
        800000, 1000000,
    ] {
        assert!(baud_rate_allowed(rate));
    }
    assert!(!baud_rate_allowed(0));
    assert!(!baud_rate_allowed(7));
    assert!(!baud_rate_allowed(115200));
    assert!(!baud_rate_allowed(2000000));
}
