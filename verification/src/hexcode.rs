//! Hexadecimal notation for byte strings.

use vstd::prelude::*;

verus! {

/// The lower-case hexadecimal digit for a value below sixteen.
pub open spec fn hex_digit(v: u8) -> char {
    if v < 10 {
        ((48 + v) as u8) as char
    } else {
        ((87 + v) as u8) as char
    }
}

/// The character for a value below sixteen.
pub fn digit_char(v: u8) -> (c: char)
    requires
        v < 16,
    ensures
        c == hex_digit(v),
{
    if v < 10 {
        (48 + v) as char
    } else {
        (87 + v) as char
    }
}

/// The lower-case hexadecimal form of `bytes`: two digits for each byte, the
/// high half first.
pub open spec fn hex_lower(bytes: Seq<u8>) -> Seq<char> {
    Seq::new(
        2 * bytes.len(),
        |i: int|
            if i % 2 == 0 {
                hex_digit(bytes[i / 2] / 16)
            } else {
                hex_digit(bytes[i / 2] % 16)
            },
    )
}

/// The value of an ASCII hexadecimal digit of either case.
pub open spec fn hex_value(c: u8) -> Option<u8> {
    if 48 <= c <= 57 {
        Some((c - 48) as u8)
    } else if 97 <= c <= 102 {
        Some((c - 87) as u8)
    } else if 65 <= c <= 70 {
        Some((c - 55) as u8)
    } else {
        None
    }
}

/// Whether every byte of `text` before `end` is a hexadecimal digit.
pub open spec fn all_hex_before(text: Seq<u8>, end: int) -> bool {
    forall|i: int| 0 <= i < end ==> (#[trigger] hex_value(text[i])).is_some()
}

/// The bytes that an even-length string of hexadecimal digits stands for.
pub open spec fn hex_bytes(text: Seq<u8>) -> Seq<u8> {
    Seq::new(
        text.len() / 2,
        |i: int| (16 * hex_value(text[2 * i]).unwrap() + hex_value(text[2 * i + 1]).unwrap()) as u8,
    )
}

/// The result of reading `text` as hexadecimal digits: the bytes, or the reason
/// why it cannot be read.  An odd length is reported before any bad digit, and
/// of several bad digits the first is reported.
pub open spec fn hex_decoded(text: Seq<u8>) -> core::result::Result<Seq<u8>, crate::error::HexError> {
    if text.len() % 2 != 0 {
        Err(crate::error::HexError::OddLength)
    } else if all_hex_before(text, text.len() as int) {
        Ok(hex_bytes(text))
    } else {
        let index = choose|i: int|
            0 <= i < text.len() && hex_value(text[i]).is_none() && all_hex_before(text, i);
        Err(crate::error::HexError::InvalidHexCharacter { c: text[index] as char, index: index as usize })
    }
}

} // verus!
