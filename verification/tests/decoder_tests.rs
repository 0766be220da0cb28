//! Runtime checks of the primitive decoders against hand-computed values.

use rpfm_core::decoder::{
    decode_bool, decode_bytes_checked, decode_integer_colour_rgb, decode_integer_i16,
    decode_integer_i24, decode_integer_i32, decode_integer_i64, decode_integer_i8,
    decode_integer_u16, decode_integer_u24, decode_integer_u32, decode_integer_u64,
    decode_integer_u8, decode_packedfile_bool, decode_packedfile_integer_cauleb128,
    decode_packedfile_integer_u32, decode_packedfile_optional_integer_i16,
    decode_packedfile_optional_string_u8, decode_packedfile_string_u16,
    decode_packedfile_string_u8, decode_packedfile_string_u8_0terminated, decode_string_colour_rgb,
    decode_string_u16, decode_string_u16_0padded, decode_string_u8, decode_string_u8_0padded,
    decode_string_u8_0terminated, decode_string_u8_iso_8859_1,
};
use rpfm_core::error::{DataKind, RLibError};

#[test]
fn u32_little_endian_exact() {
    let b = [0x01u8, 0x02, 0x03, 0x04, 0x05];
    assert_eq!(decode_integer_u32(&b, 0), Ok(0x04030201));
    assert_eq!(decode_integer_u32(&b, 1), Ok(0x05040302));
}

#[test]
fn u32_succeeds_iff_four_bytes_fit() {
    let b = [1u8, 2, 3, 4];
    assert!(decode_integer_u32(&b, 0).is_ok());
    assert_eq!(
        decode_integer_u32(&b, 1),
        Err(RLibError::NotEnoughBytes { kind: DataKind::U32, needed: 4, shortfall: None })
    );
    assert_eq!(
        decode_integer_u32(&b, 9),
        Err(RLibError::NotEnoughBytes { kind: DataKind::U32, needed: 4, shortfall: Some(5) })
    );
}

#[test]
fn bool_rejects_non_canonical_bytes() {
    let b = [0u8, 1, 7];
    assert_eq!(decode_bool(&b, 0), Ok(false));
    assert_eq!(decode_bool(&b, 1), Ok(true));
    assert_eq!(decode_bool(&b, 2), Err(RLibError::InvalidBoolValue(7)));
    assert_eq!(decode_bool(&b, 3), Err(RLibError::NoBytesLeft));
}

#[test]
fn integer_widths() {
    let b = [0xFFu8, 0x01, 0x02, 0x03, 0x04, 0x05, 0x06, 0x07, 0x08];
    assert_eq!(decode_integer_u8(&b, 0), Ok(0xFF));
    assert_eq!(decode_integer_u16(&b, 0), Ok(0x01FF));
    assert_eq!(decode_integer_u24(&b, 0), Ok(0x0201FF));
    assert_eq!(decode_integer_u64(&b, 1), Ok(0x0807060504030201));
    assert_eq!(decode_integer_i8(&b, 0), Ok(-1));
    assert_eq!(decode_integer_i16(&b, 0), Ok(0x01FF));
    assert_eq!(decode_integer_i16(&[0xFF, 0xFF], 0), Ok(-1));
    assert_eq!(decode_integer_i24(&[0xFF, 0xFF, 0xFF], 0), Ok(0x00FFFFFF));
    assert_eq!(decode_integer_i32(&[0xFE, 0xFF, 0xFF, 0xFF], 0), Ok(-2));
    assert_eq!(
        decode_integer_i64(&[0xFF, 0xFF, 0xFF, 0xFF, 0xFF, 0xFF, 0xFF, 0xFF], 0),
        Ok(-1)
    );
}

#[test]
fn bytes_checked_bounds() {
    let b = [9u8, 8, 7];
    assert_eq!(decode_bytes_checked(&b, 1, 2), Ok(vec![8, 7]));
    assert_eq!(decode_bytes_checked(&b, 9, 0), Ok(vec![]));
    assert_eq!(decode_bytes_checked(&b, 2, 2), Err(RLibError::NotMoreBytesToDecode));
}

#[test]
fn colour_word_and_text() {
    let b = [0x44u8, 0x33, 0x22, 0x00];
    assert_eq!(decode_integer_colour_rgb(&b, 0), Ok(0x00223344));
    assert_eq!(decode_string_colour_rgb(&b, 0), Ok("223344".to_string()));
    // The high byte is discarded: always exactly six digits.
    let c = [0x00u8, 0xFF, 0x00, 0xFF];
    assert_eq!(decode_integer_colour_rgb(&c, 0), Ok(0xFF00FF00));
    assert_eq!(decode_string_colour_rgb(&c, 0), Ok("00FF00".to_string()));
    // Small values pad with zeros on the left.
    let d = [0x0Au8, 0x00, 0x00, 0x00];
    assert_eq!(decode_string_colour_rgb(&d, 0), Ok("00000A".to_string()));
}

#[test]
fn utf8_strings_strict() {
    let b = b"hola";
    assert_eq!(decode_string_u8(b, 0, 4), Ok("hola".to_string()));
    assert_eq!(
        decode_string_u8(&[0xFF, 0xFF], 0, 2),
        Err(RLibError::InvalidUtf8(DataKind::StringU8))
    );
}

#[test]
fn iso_8859_1_never_fails_in_range() {
    let b = [0x68u8, 0x6F, 0x6C, 0x61, 0xE9];
    assert_eq!(decode_string_u8_iso_8859_1(&b, 0, 5), Ok("hola\u{e9}".to_string()));
}

#[test]
fn zero_padded_utf8_reports_full_size() {
    // The scenario: the text in a five-byte zero-padded field decodes back
    // with the full declared size as the cursor advance.
    let b = [0x41u8, 0x42, 0x00, 0x00, 0x00];
    assert_eq!(decode_string_u8_0padded(&b, 0, 5), Ok(("AB".to_string(), 5)));
    let c = [0x41u8, 0x42, 0x43];
    assert_eq!(decode_string_u8_0padded(&c, 0, 3), Ok(("ABC".to_string(), 3)));
}

#[test]
fn zero_terminated_utf8_is_lossy_and_counts_terminator() {
    let b = [0x41u8, 0x42, 0x00, 0x43];
    assert_eq!(decode_string_u8_0terminated(&b, 0), Ok(("AB".to_string(), 3)));
    let c = [0x41u8, 0x42];
    assert_eq!(decode_string_u8_0terminated(&c, 0), Ok(("AB".to_string(), 2)));
    let d = [0xFFu8, 0x41, 0x00];
    assert_eq!(decode_string_u8_0terminated(&d, 0), Ok(("\u{FFFD}A".to_string(), 3)));
}

#[test]
fn utf16_strings() {
    let b = [0x61u8, 0x00, 0x62, 0x00, 0x63, 0x00];
    assert_eq!(decode_string_u16(&b, 0, 6), Ok("abc".to_string()));
    let lone_surrogate = [0x00u8, 0xD8];
    assert_eq!(
        decode_string_u16(&lone_surrogate, 0, 2),
        Err(RLibError::InvalidUtf16(DataKind::StringU16))
    );
}

#[test]
fn utf16_zero_padded() {
    let b = [0x61u8, 0x00, 0x62, 0x00, 0x00, 0x00, 0x00, 0x00];
    assert_eq!(decode_string_u16_0padded(&b, 0, 8), Ok(("ab".to_string(), 8)));
}

#[test]
fn cursor_advances_only_on_success() {
    let b = [0x01u8, 0x02, 0x03, 0x04, 0x05];
    let mut index = 0usize;
    assert_eq!(decode_packedfile_integer_u32(&b, 0, &mut index), Ok(0x04030201));
    assert_eq!(index, 4);
    assert!(decode_packedfile_integer_u32(&b, 2, &mut index).is_err());
    assert_eq!(index, 4);
    let mut index = 0usize;
    assert_eq!(decode_packedfile_bool(&b, 0, &mut index), Ok(true));
    assert_eq!(index, 1);
}

#[test]
fn sized_utf8_string_with_rollback() {
    let b = [0x02u8, 0x00, 0x41, 0x42];
    let mut index = 0usize;
    assert_eq!(decode_packedfile_string_u8(&b, 0, &mut index), Ok("AB".to_string()));
    assert_eq!(index, 4);
    // Declared size runs past the end: the prefix bytes roll back.
    let c = [0x05u8, 0x00, 0x41];
    let mut index = 0usize;
    assert!(decode_packedfile_string_u8(&c, 0, &mut index).is_err());
    assert_eq!(index, 0);
}

#[test]
fn sized_utf16_string_advances_by_eight() {
    // The scenario: three characters, a two-byte prefix holding 3, six
    // bytes of text, and a cursor that lands on 8.
    let b = [0x03u8, 0x00, 0x61, 0x00, 0x62, 0x00, 0x63, 0x00];
    let mut index = 0usize;
    assert_eq!(decode_packedfile_string_u16(&b, 0, &mut index), Ok("abc".to_string()));
    assert_eq!(index, 8);
}

#[test]
fn zero_terminated_cursor_form() {
    let b = [0x41u8, 0x00, 0x42];
    let mut index = 0usize;
    assert_eq!(
        decode_packedfile_string_u8_0terminated(&b, 0, &mut index),
        Ok("A".to_string())
    );
    assert_eq!(index, 2);
}

#[test]
fn optional_string_gate() {
    let b = [0x00u8];
    let mut index = 0usize;
    assert_eq!(decode_packedfile_optional_string_u8(&b, 0, &mut index), Ok(String::new()));
    assert_eq!(index, 1);
    let c = [0x01u8, 0x01, 0x00, 0x41];
    let mut index = 0usize;
    assert_eq!(decode_packedfile_optional_string_u8(&c, 0, &mut index), Ok("A".to_string()));
    assert_eq!(index, 4);
    let d = [0x07u8];
    let mut index = 0usize;
    assert_eq!(
        decode_packedfile_optional_string_u8(&d, 0, &mut index),
        Err(RLibError::OptionalStringBoolNotDecoded(DataKind::OptionalStringU8))
    );
    assert_eq!(index, 0);
}

#[test]
fn optional_integer_reads_gate_and_value_at_one_offset() {
    // The historical reader checks a boolean at the offset and then reads
    // the integer at the same offset, advancing the cursor for each read
    // that parses.
    let b = [0x01u8, 0x02];
    let mut index = 0usize;
    assert_eq!(decode_packedfile_optional_integer_i16(&b, 0, &mut index), Ok(0x0201));
    assert_eq!(index, 3);
}

#[test]
fn variant_length_integer() {
    // The scenario pair: a continuation byte then zero decodes to 128, and
    // a single zero byte decodes to zero.
    let b = [0x81u8, 0x00];
    let mut index = 0usize;
    assert_eq!(decode_packedfile_integer_cauleb128(&b, &mut index), Ok(128));
    assert_eq!(index, 2);
    let c = [0x00u8];
    let mut index = 0usize;
    assert_eq!(decode_packedfile_integer_cauleb128(&c, &mut index), Ok(0));
    assert_eq!(index, 1);
    // On a stream exhausted mid-sequence the cursor stays where it was.
    let d = [0x00u8, 0x81];
    let mut index = 1usize;
    assert_eq!(
        decode_packedfile_integer_cauleb128(&d, &mut index),
        Err(RLibError::NotMoreBytesToDecode)
    );
    assert_eq!(index, 1);
}
