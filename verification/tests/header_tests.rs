use pagestore::errors::DbError;
use pagestore::header::{DbHeader, HEADER_SIZE, MAGIC_NUMBER};
use pagestore::addressing::offset_of;

#[test]
fn header_round_trip() {
    let h = DbHeader {
        magic: MAGIC_NUMBER,
        page_size: 4096,
        total_pages: 123_456,
        free_list_head: 7,
        free_list_tail: 99,
    };
    let buf = h.to_buf();
    assert_eq!(buf.len(), HEADER_SIZE);
    let back = DbHeader::from(&buf).unwrap();
    assert_eq!(back, h);
}

#[test]
fn header_round_trip_extreme_values() {
    let h = DbHeader {
        magic: 0,
        page_size: u32::MAX,
        total_pages: u32::MAX,
        free_list_head: 1,
        free_list_tail: u32::MAX,
    };
    let back = DbHeader::from(&h.to_buf()).unwrap();
    assert_eq!(back, h);
}

#[test]
fn header_encoding_is_little_endian_in_field_order() {
    let h = DbHeader {
        magic: 0x0403_0201,
        page_size: 0x0807_0605,
        total_pages: 0x0C0B_0A09,
        free_list_head: 0x100F_0E0D,
        free_list_tail: 0x1413_1211,
    };
    let buf = h.to_buf();
    let expected: Vec<u8> = (1u8..=20u8).collect();
    assert_eq!(buf, expected);
}

#[test]
fn decode_short_buffer_is_corrupt_header() {
    let buf = vec![0u8; HEADER_SIZE - 1];
    assert_eq!(DbHeader::from(&buf), Err(DbError::CorruptHeader));
}

#[test]
fn decode_takes_fields_as_they_stand() {
    let mut buf = vec![0u8; HEADER_SIZE];
    buf[0..4].copy_from_slice(&0xDEAD_BEEFu32.to_le_bytes());
    let h = DbHeader::from(&buf).unwrap();
    assert_eq!(h.magic, 0xDEAD_BEEF);
    assert_eq!(h.page_size, 0);
}

#[test]
fn fresh_header_fields() {
    let h = DbHeader::fresh(512);
    assert_eq!(h.magic, MAGIC_NUMBER);
    assert_eq!(h.page_size, 512);
    assert_eq!(h.total_pages, 0);
    assert_eq!(h.free_list_head, 0);
    assert_eq!(h.free_list_tail, 0);
}

#[test]
fn offset_of_page_zero_is_invalid() {
    assert_eq!(offset_of(0, 1024), Err(DbError::InvalidPageNumber));
}

#[test]
fn offset_of_first_page_is_header_size() {
    assert_eq!(offset_of(1, 1024), Ok(HEADER_SIZE as u64));
}

#[test]
fn offset_of_later_page() {
    assert_eq!(offset_of(3, 1024), Ok(HEADER_SIZE as u64 + 2 * 1024));
}

#[test]
fn offset_of_overflowing_offset_is_address_overflow() {
    assert_eq!(offset_of(u32::MAX, u32::MAX), Err(DbError::AddressOverflow));
}
