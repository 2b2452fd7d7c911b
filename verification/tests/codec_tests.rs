use flatdata::bits::{mask_to_width, read_bits, read_bits_signed, write_bits};
use flatdata::records::{IndexStruct, SortableStruct, Struct};
use flatdata::test_structs::{Gauge, Idx, IdxMut};

// Two sub-byte fields share bytes without an implicit gap: a 4-bit
// field at bit 0 and a 7-bit field at bit 4, packed into two bytes.
#[test]
fn test_sub_byte_fields_share_bytes() {
    let mut b: Vec<u8> = vec![0; 4];
    write_bits(&mut b, 0, 0, 4, 9);
    write_bits(&mut b, 0, 4, 7, 100);
    assert_eq!(read_bits(&b, 0, 0, 4), 9);
    assert_eq!(read_bits(&b, 0, 4, 7), 100);
    // rewriting the first field preserves the neighbouring bits
    write_bits(&mut b, 0, 0, 4, 5);
    assert_eq!(read_bits(&b, 0, 0, 4), 5);
    assert_eq!(read_bits(&b, 0, 4, 7), 100);
}

#[test]
fn test_field_crossing_byte_boundary() {
    let mut b: Vec<u8> = vec![0; 4];
    write_bits(&mut b, 0, 12, 16, 0xBEEF);
    assert_eq!(read_bits(&b, 0, 12, 16), 0xBEEF);
    assert_eq!(read_bits(&b, 0, 0, 12), 0);
}

#[test]
fn test_write_truncates_to_width() {
    let mut b: Vec<u8> = vec![0; 2];
    write_bits(&mut b, 0, 0, 8, 0x1FF);
    assert_eq!(read_bits(&b, 0, 0, 8), 0xFF);
    assert_eq!(read_bits(&b, 0, 8, 8), 0);
}

#[test]
fn test_signed_fields() {
    let mut b: Vec<u8> = vec![0; 2];
    write_bits(&mut b, 0, 0, 8, (-5i64) as u64);
    assert_eq!(read_bits_signed(&b, 0, 0, 8), -5);
    write_bits(&mut b, 0, 8, 8, 5);
    assert_eq!(read_bits_signed(&b, 0, 8, 8), 5);
}

#[test]
fn test_mask_to_width() {
    assert_eq!(mask_to_width(0xFFFF, 8), 0xFF);
    assert_eq!(mask_to_width(0x1234, 16), 0x1234);
    assert_eq!(mask_to_width(7, 0), 0);
    assert_eq!(mask_to_width(u64::MAX, 64), u64::MAX);
}

// An index record stores and returns its 32-bit offset.
#[test]
fn test_index_record_roundtrip() {
    let idx = Idx::with_value(77);
    assert_eq!(idx.value(), 77);
    let idx = Idx::with_value(0xFFFF_FFFF);
    assert_eq!(idx.value(), 0xFFFF_FFFF);
    let mut m = IdxMut::new();
    m.set_value(123456);
    assert_eq!(m.to_record().value(), 123456);
    assert_eq!(Idx::size_in_bytes(), 4);
}

// The partial order on gauge records: ordinary readings compare by
// value, the missing-measurement marker compares with nothing.
#[test]
fn test_gauge_order() {
    let three = Gauge::with_reading(3);
    let seven = Gauge::with_reading(7);
    let missing = Gauge::with_reading(255);
    assert_eq!(Gauge::le_bytes(three.as_bytes(), seven.as_bytes()), Some(true));
    assert_eq!(Gauge::le_bytes(seven.as_bytes(), three.as_bytes()), Some(false));
    assert_eq!(Gauge::le_bytes(three.as_bytes(), three.as_bytes()), Some(true));
    assert_eq!(Gauge::le_bytes(three.as_bytes(), missing.as_bytes()), None);
    assert_eq!(Gauge::le_bytes(missing.as_bytes(), missing.as_bytes()), None);
    assert_eq!(missing.reading(), 255);
}
