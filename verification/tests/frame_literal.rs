use cansend::frame::{CanData, CanId};

#[test]
fn parse_standard_frame() {
    let f = CanData::from_str("123#DEADBEEF").unwrap();
    assert_eq!(f.can_id, CanId::Standard(0x123));
    assert_eq!(f.data, vec![0xDE, 0xAD, 0xBE, 0xEF]);
}

#[test]
fn parse_extended_frame() {
    let f = CanData::from_str("1FFFFFFF#00").unwrap();
    assert_eq!(f.can_id, CanId::Extended(0x1FFF_FFFF));
    assert_eq!(f.data, vec![0x00]);
}

#[test]
fn parse_empty_payload() {
    let f = CanData::from_str("7FF#").unwrap();
    assert_eq!(f.can_id, CanId::Standard(0x7FF));
    assert_eq!(f.data, Vec::<u8>::new());
}

#[test]
fn standard_id_zero() {
    let f = CanData::from_str("000#").unwrap();
    assert_eq!(f.can_id, CanId::Standard(0));
}

#[test]
fn standard_id_out_of_range() {
    assert!(CanData::from_str("800#").is_err());
    assert!(CanData::from_str("800#00").is_err());
    assert!(CanData::from_str("FFF#").is_err());
}

#[test]
fn extended_id_bounds() {
    let low = CanData::from_str("00000000#").unwrap();
    assert_eq!(low.can_id, CanId::Extended(0));
    let high = CanData::from_str("3FFFFFFF#").unwrap();
    assert_eq!(high.can_id, CanId::Extended(0x3FFF_FFFF));
    assert!(CanData::from_str("40000000#").is_err());
}

#[test]
fn identifier_wrong_lengths() {
    assert!(CanData::from_str("12#AA").is_err());
    assert!(CanData::from_str("1234#AA").is_err());
    assert!(CanData::from_str("1234567#AA").is_err());
    assert!(CanData::from_str("123456789#AA").is_err());
    assert!(CanData::from_str("#AA").is_err());
}

#[test]
fn identifier_not_hex() {
    assert!(CanData::from_str("12G#AA").is_err());
    assert!(CanData::from_str("xyz#AA").is_err());
    assert!(CanData::from_str("+12#AA").is_err());
}

#[test]
fn delimiter_count_must_be_one() {
    assert!(CanData::from_str("123##AA").is_err());
    assert!(CanData::from_str("123").is_err());
    assert!(CanData::from_str("").is_err());
    assert!(CanData::from_str("123#AA#").is_err());
    assert!(CanData::from_str("#123#AA").is_err());
}

#[test]
fn odd_payload_rejected() {
    assert!(CanData::from_str("123#A").is_err());
    assert!(CanData::from_str("123#1").is_err());
    assert!(CanData::from_str("123#123").is_err());
}

#[test]
fn non_hex_payload_rejected() {
    assert!(CanData::from_str("123#1G").is_err());
    assert!(CanData::from_str("123#  ").is_err());
    assert!(CanData::from_str("123#+1").is_err());
}

#[test]
fn mixed_case_accepted() {
    let f = CanData::from_str("1aB#dEadBeEf").unwrap();
    assert_eq!(f.can_id, CanId::Standard(0x1AB));
    assert_eq!(f.data, vec![0xDE, 0xAD, 0xBE, 0xEF]);
}

#[test]
fn non_ascii_input_rejected() {
    assert!(CanData::from_str("12é#AA").is_err());
    assert!(CanData::from_str("123#é0").is_err());
}

#[test]
fn round_trip_standard() {
    let f = CanData::from_str("123#DEADBEEF").unwrap();
    let lit = f.to_literal();
    assert_eq!(lit, "123#deadbeef");
    let g = CanData::from_str(&lit).unwrap();
    assert_eq!(f, g);
}

#[test]
fn round_trip_extended() {
    let f = CanData::from_str("1FFFFFFF#00").unwrap();
    let lit = f.to_literal();
    assert_eq!(lit, "1fffffff#00");
    let g = CanData::from_str(&lit).unwrap();
    assert_eq!(f, g);
}

#[test]
fn round_trip_empty_payload() {
    let f = CanData::from_str("7FF#").unwrap();
    let lit = f.to_literal();
    assert_eq!(lit, "7ff#");
    let g = CanData::from_str(&lit).unwrap();
    assert_eq!(f, g);
}

#[test]
fn reencode_is_stable() {
    let once = CanData::from_str("0a0#0102030405060708").unwrap();
    let twice = CanData::from_str(&once.to_literal()).unwrap();
    assert_eq!(once, twice);
    assert_eq!(once.to_literal(), twice.to_literal());
}

#[test]
fn error_message_rendering() {
    let e = CanData::from_str("oops").unwrap_err();
    assert_eq!(e.message(), "CanDataError()");
}
