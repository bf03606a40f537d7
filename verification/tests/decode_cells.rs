use nesstar_core::decode::{integer_value, offset_value};
use nesstar_core::model::CellValue;

fn text_of(cell: &CellValue) -> Option<String> {
    match cell {
        CellValue::Missing => None,
        CellValue::Text(s) => Some(s.clone()),
    }
}

#[test]
fn test_checked_additions() {
    assert_eq!(text_of(&integer_value(10, 5, true)), Some("15".to_string()));
    assert_eq!(text_of(&integer_value(10, 5, false)), Some("10".to_string()));
    assert_eq!(text_of(&integer_value(i64::MAX, 1, true)), None);
    assert_eq!(text_of(&integer_value(i64::MIN, -1, true)), None);
    assert_eq!(text_of(&offset_value(&[1, 0, 0, 0, 0, 0, 0, 0], 10)), Some("11".to_string()));
    assert_eq!(text_of(&offset_value(&[255, 255, 255, 255], 10)), None);
    assert_eq!(text_of(&offset_value(&[0, 0, 0, 0, 0, 0, 0, 128], 10)), None);
    assert_eq!(text_of(&offset_value(&[255, 255, 255, 255, 255, 255, 255, 127], 1)), None);
}

use nesstar_core::decode::{
    compact_size, float_value, looks_like_raw_byte_numeric, range_minimum, text_value, unsigned_le,
    BatchCursor, DecodeError, DOUBLE_MISSING_SENTINEL_BITS,
};
use nesstar_core::model::NumericRange;
use nesstar_core::source::SourceError;

fn fixed(bits: u64, precision: usize) -> String {
    format!("{:.*}", precision, f64::from_bits(bits))
}

fn float_text(value: f64, decimals: u16) -> Option<String> {
    text_of(&float_value(value.to_bits(), decimals, &fixed))
}

#[test]
fn test_float_value() {
    assert_eq!(float_text(-12.34, 2), Some("-12.34".to_string()));
    assert_eq!(float_text(-5.0, 2), Some("-5".to_string()));
    assert_eq!(float_text(0.0, 2), Some("0".to_string()));
    assert_eq!(float_text(-0.0, 2), Some("0".to_string()));
    assert_eq!(float_text(0.1234567, 4), Some("0.123457".to_string()));
    assert_eq!(float_text(0.123456789, 8), Some("0.12345679".to_string()));
    assert_eq!(float_text(1.5, 0), Some("1.5".to_string()));
    assert_eq!(float_text(f64::NAN, 2), None);
    assert_eq!(float_text(f64::INFINITY, 2), None);
    assert_eq!(float_text(f64::NEG_INFINITY, 2), None);
    let sentinel = f64::MAX * 0.99;
    assert_eq!(sentinel.to_bits(), DOUBLE_MISSING_SENTINEL_BITS);
    assert_eq!(float_text(sentinel, 2), None);
    assert_eq!(float_text(sentinel + 1.0, 2), None);
    assert_eq!(float_text(1e20, 2), Some("100000000000000000000".to_string()));
    assert_eq!(float_text(1.23e20, 2), Some("123000000000000000000".to_string()));
    assert_eq!(float_text(9007199254740990.0, 2), Some("9007199254740990".to_string()));
    assert_eq!(float_text(-9007199254740990.0, 2), Some("-9007199254740990".to_string()));
    assert_eq!(float_text(9223372036854774784.0, 2), Some("9223372036854774784".to_string()));
    assert_eq!(float_text(-9223372036854774784.0, 2), Some("-9223372036854774784".to_string()));
}

#[test]
fn float_value_hands_the_formatter_its_precision() {
    let probe = |bits: u64, precision: usize| format!("{}/{}", f64::from_bits(bits), precision);
    assert_eq!(text_of(&float_value(0.25f64.to_bits(), 2, &probe)), Some("0.25/6".to_string()));
    assert_eq!(text_of(&float_value(0.25f64.to_bits(), 9, &probe)), Some("0.25/9".to_string()));
}

#[test]
fn text_cells_are_trimmed_and_lossy() {
    assert_eq!(text_of(&text_value(b"  abc \0\0", false)), Some("abc".to_string()));
    assert_eq!(text_of(&text_value(b"ab\0cd", true)), Some("ab".to_string()));
    assert_eq!(text_of(&text_value(b"ab\0cd", false)), Some("ab cd".to_string()));
    assert_eq!(text_of(&text_value(b"   ", false)), None);
    assert_eq!(text_of(&text_value(&[0x66, 0xFF, 0x67], false)), Some("f\u{FFFD}g".to_string()));
    assert_eq!(text_of(&text_value("café".as_bytes(), false)), Some("café".to_string()));
}

#[test]
fn little_endian_helpers() {
    assert_eq!(unsigned_le(&[0x01, 0x02]), 0x0201);
    assert_eq!(unsigned_le(&[]), 0);
    assert_eq!(unsigned_le(&[0xFF; 8]), u64::MAX);
    assert_eq!(range_minimum(&None), 0);
    let range = Some(NumericRange { minimum: Some((-2.7f64).to_bits()), maximum: None });
    assert_eq!(range_minimum(&range), -2);
    let huge = Some(NumericRange { minimum: Some(1e30f64.to_bits()), maximum: None });
    assert_eq!(range_minimum(&huge), i64::MAX);
}

#[test]
fn compact_payload_sizes() {
    assert_eq!(compact_size(2, 3), Some(2));
    assert_eq!(compact_size(3, 3), Some(3));
    assert_eq!(compact_size(5, 4), Some(12));
    assert_eq!(compact_size(1, 4), None);
    assert_eq!(compact_size(10, 2), Some(16));
    assert_eq!(compact_size(9, 2), None);
    assert!(looks_like_raw_byte_numeric(&[1, 2, 3, 4], 4, 1));
    assert!(!looks_like_raw_byte_numeric(b"abcd", 4, 1));
    assert!(!looks_like_raw_byte_numeric(&[1, 2, 3, 4], 4, 2));
}

#[test]
fn batch_cursor_covers_every_row_once() {
    let mut cursor = BatchCursor::new(7, 3);
    let mut batches = Vec::new();
    while cursor.has_next() {
        batches.push(cursor.next_batch());
    }
    assert_eq!(batches, [(0, 3), (3, 3), (6, 1)]);
    let mut single = BatchCursor::new(2, 0);
    assert_eq!(single.next_batch(), (0, 1));
    assert_eq!(single.next_batch(), (1, 1));
    assert!(!single.has_next());
}

#[test]
fn decode_errors_read_like_the_original_messages() {
    let error = DecodeError::InvalidPayload { variable: "X".to_string(), length: 7, rows: 3 };
    assert_eq!(error.message(), "decode `X`: invalid payload length 7 for 3 rows");
    assert_eq!(DecodeError::Cancelled.message(), "decode cancelled");
    let source = DecodeError::Source(SourceError::OutOfBounds {
        path: "a.Nesstar".to_string(),
        context: "resource payload",
        start: 10,
        end: 20,
        length: 12,
    });
    assert_eq!(source.message(), "source `a.Nesstar` resource payload: range 10..20 exceeds 12 bytes");
    let overflow = DecodeError::Overflow { context: "resource row count" };
    assert_eq!(overflow.message(), "decode arithmetic overflow while calculating resource row count");
}
