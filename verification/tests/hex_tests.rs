use orderbook::hex::{decode_hex, hex_digit, hex_to_bytes, EncodingError};

#[test]
fn decodes_plain_digits() {
    assert_eq!(hex_to_bytes("00ff10"), Ok(vec![0x00, 0xff, 0x10]));
    assert_eq!(hex_to_bytes("1234567890"), Ok(vec![0x12, 0x34, 0x56, 0x78, 0x90]));
}

#[test]
fn decodes_both_letter_cases() {
    assert_eq!(hex_to_bytes("AbCdEf"), Ok(vec![0xab, 0xcd, 0xef]));
    assert_eq!(hex_to_bytes("aBcDeF"), Ok(vec![0xab, 0xcd, 0xef]));
}

#[test]
fn accepts_an_optional_prefix() {
    assert_eq!(hex_to_bytes("0x1234"), Ok(vec![0x12, 0x34]));
    assert_eq!(hex_to_bytes("1234"), Ok(vec![0x12, 0x34]));
    assert_eq!(hex_to_bytes("0x00"), Ok(vec![0x00]));
}

#[test]
fn decodes_a_twenty_byte_address() {
    assert_eq!(hex_to_bytes("1111111111111111111111111111111111111111"), Ok(vec![0x11u8; 20]));
}

#[test]
fn rejects_empty_text() {
    assert_eq!(hex_to_bytes(""), Err(EncodingError::Empty));
    assert_eq!(hex_to_bytes("0x"), Err(EncodingError::Empty));
}

#[test]
fn rejects_odd_length() {
    assert_eq!(hex_to_bytes("abc"), Err(EncodingError::OddLength));
    assert_eq!(hex_to_bytes("0x1"), Err(EncodingError::OddLength));
    assert_eq!(hex_to_bytes("g"), Err(EncodingError::OddLength));
}

#[test]
fn rejects_other_characters() {
    assert_eq!(hex_to_bytes("zz"), Err(EncodingError::InvalidCharacter));
    assert_eq!(hex_to_bytes("12g4"), Err(EncodingError::InvalidCharacter));
    assert_eq!(hex_to_bytes("123 "), Err(EncodingError::InvalidCharacter));
    assert_eq!(hex_to_bytes("0X12"), Err(EncodingError::InvalidCharacter));
    assert_eq!(hex_to_bytes("+f"), Err(EncodingError::InvalidCharacter));
    assert_eq!(hex_to_bytes("\u{e9}"), Err(EncodingError::InvalidCharacter));
}

#[test]
fn takes_the_prefix_off_once() {
    assert_eq!(hex_to_bytes("0x0x12"), Err(EncodingError::InvalidCharacter));
}

#[test]
fn decode_hex_works_on_bytes() {
    assert_eq!(decode_hex(b"0xdeadBEEF"), Ok(vec![0xde, 0xad, 0xbe, 0xef]));
    assert_eq!(decode_hex(b""), Err(EncodingError::Empty));
}

#[test]
fn hex_digit_values() {
    assert_eq!(hex_digit(b'0'), Some(0));
    assert_eq!(hex_digit(b'9'), Some(9));
    assert_eq!(hex_digit(b'a'), Some(10));
    assert_eq!(hex_digit(b'f'), Some(15));
    assert_eq!(hex_digit(b'A'), Some(10));
    assert_eq!(hex_digit(b'F'), Some(15));
    assert_eq!(hex_digit(b'g'), None);
    assert_eq!(hex_digit(b'G'), None);
    assert_eq!(hex_digit(b'/'), None);
    assert_eq!(hex_digit(b':'), None);
    assert_eq!(hex_digit(b'@'), None);
    assert_eq!(hex_digit(b'`'), None);
}

#[test]
fn error_messages() {
    assert_eq!(EncodingError::Empty.message(), "Empty hex string");
    assert_eq!(
        EncodingError::OddLength.message(),
        "Hex string must have an even number of characters"
    );
    assert_eq!(EncodingError::InvalidCharacter.message(), "Invalid hex character found");
}
