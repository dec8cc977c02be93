//! Hexadecimal text for addresses and keys.

use vstd::prelude::*;
use vstd::string::StringSliceAdditionalSpecFns;

verus! {

/// Why a text is not the hexadecimal form of a byte string.
#[derive(Debug, PartialEq, Eq, Clone, Copy, Structural)]
pub enum EncodingError {
    /// Nothing is left once the prefix is taken off.
    Empty,
    /// The number of digits is odd.
    OddLength,
    /// A character is not a hexadecimal digit.
    InvalidCharacter,
}

impl EncodingError {
    /// A short description of the error.
    pub fn message(&self) -> (text: String)
        ensures
            text@ == match *self {
                EncodingError::Empty => "Empty hex string"@,
                EncodingError::OddLength => "Hex string must have an even number of characters"@,
                EncodingError::InvalidCharacter => "Invalid hex character found"@,
            },
    {
        match self {
            EncodingError::Empty => "Empty hex string".to_owned(),
            EncodingError::OddLength => "Hex string must have an even number of characters".to_owned(),
            EncodingError::InvalidCharacter => "Invalid hex character found".to_owned(),
        }
    }
}

/// The text without its `0x` prefix, if it has one.
pub open spec fn strip_prefix(text: Seq<u8>) -> Seq<u8> {
    if text.len() >= 2 && text[0] == 0x30 && text[1] == 0x78 {
        text.skip(2)
    } else {
        text
    }
}

/// Whether `b` is one of `0`-`9`, `A`-`F`, `a`-`f`.
pub open spec fn is_hex_digit(b: u8) -> bool {
    (0x30 <= b <= 0x39) || (0x41 <= b <= 0x46) || (0x61 <= b <= 0x66)
}

/// The value of a hexadecimal digit.
pub open spec fn digit_value(b: u8) -> int {
    if b <= 0x39 {
        b - 0x30
    } else if b <= 0x46 {
        b - 0x41 + 10
    } else {
        b - 0x61 + 10
    }
}

/// The byte written by digits `2 * i` and `2 * i + 1`.
pub open spec fn byte_at(digits: Seq<u8>, i: int) -> u8 {
    (16 * digit_value(digits[2 * i]) + digit_value(digits[2 * i + 1])) as u8
}

/// What a text decodes to: after an optional `0x`, an even and positive
/// number of hexadecimal digits, two for each byte, the high digit first.
pub open spec fn decode_spec(text: Seq<u8>) -> Result<Seq<u8>, EncodingError> {
    let digits = strip_prefix(text);
    if digits.len() == 0 {
        Err(EncodingError::Empty)
    } else if digits.len() % 2 != 0 {
        Err(EncodingError::OddLength)
    } else if exists|i: int| 0 <= i < digits.len() && !is_hex_digit(#[trigger] digits[i]) {
        Err(EncodingError::InvalidCharacter)
    } else {
        Ok(Seq::new(digits.len() / 2, |i: int| byte_at(digits, i)))
    }
}

/// The value of a hexadecimal digit, or `None` for any other byte.
pub fn hex_digit(b: u8) -> (value: Option<u8>)
    ensures
        match value {
            Some(v) => is_hex_digit(b) && v == digit_value(b),
            None => !is_hex_digit(b),
        },
{
    if 0x30 <= b && b <= 0x39 {
        Some(b - 0x30)
    } else if 0x41 <= b && b <= 0x46 {
        Some(b - 0x41 + 10)
    } else if 0x61 <= b && b <= 0x66 {
        Some(b - 0x61 + 10)
    } else {
        None
    }
}

/// Decodes hexadecimal text given as bytes.
pub fn decode_hex(text: &[u8]) -> (res: Result<Vec<u8>, EncodingError>)
    ensures
        match res {
            Ok(bytes) => decode_spec(text@) == Ok::<Seq<u8>, EncodingError>(bytes@),
            Err(e) => decode_spec(text@) == Err::<Seq<u8>, EncodingError>(e),
        },
{
    let start: usize = if text.len() >= 2 && text[0] == 0x30 && text[1] == 0x78 {
        2
    } else {
        0
    };
    let ghost digits = strip_prefix(text@);
    assert(digits =~= text@.skip(start as int));
    let n: usize = text.len() - start;
    if n == 0 {
        return Err(EncodingError::Empty);
    }
    if n % 2 != 0 {
        return Err(EncodingError::OddLength);
    }
    let mut bytes: Vec<u8> = Vec::new();
    let mut i: usize = 0;
    while i < n
        invariant
            i <= n,
            i % 2 == 0,
            n % 2 == 0,
            n == text.len() - start,
            start <= text.len(),
            digits == text@.skip(start as int),
            digits == strip_prefix(text@),
            forall|j: int| 0 <= j < i ==> is_hex_digit(#[trigger] digits[j]),
            bytes@.len() == i / 2,
            forall|k: int| 0 <= k < i / 2 ==> bytes@[k] == byte_at(digits, k),
        decreases n - i,
    {
        let high = hex_digit(text[start + i]);
        let low = hex_digit(text[start + i + 1]);
        assert(digits[i as int] == text@[start + i]);
        assert(digits[i + 1] == text@[start + i + 1]);
        match (high, low) {
            (Some(h), Some(l)) => {
                bytes.push(16 * h + l);
            },
            _ => {
                assert(digits.len() == n);
                let ghost bad = if is_hex_digit(digits[i as int]) {
                    i + 1
                } else {
                    i as int
                };
                assert(0 <= bad < digits.len() && !is_hex_digit(digits[bad]));
                return Err(EncodingError::InvalidCharacter);
            },
        }
        i = i + 2;
    }
    assert(bytes@ =~= Seq::new(digits.len() / 2, |k: int| byte_at(digits, k)));
    Ok(bytes)
}

/// Decodes hexadecimal text, with or without a `0x` prefix, into bytes.
pub fn hex_to_bytes(hex: &str) -> (res: Result<Vec<u8>, EncodingError>)
    ensures
        match res {
            Ok(bytes) => decode_spec(hex.spec_bytes()) == Ok::<Seq<u8>, EncodingError>(bytes@),
            Err(e) => decode_spec(hex.spec_bytes()) == Err::<Seq<u8>, EncodingError>(e),
        },
{
    decode_hex(hex.as_bytes())
}

} // verus!
