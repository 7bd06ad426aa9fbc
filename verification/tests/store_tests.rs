use pagestore::errors::DbError;
use pagestore::header::{HEADER_SIZE, MAGIC_NUMBER};
use pagestore::store::PageStore;

fn header_bytes(magic: u32, page_size: u32, total_pages: u32, head: u32, tail: u32) -> Vec<u8> {
    let mut buf = Vec::new();
    buf.extend_from_slice(&magic.to_le_bytes());
    buf.extend_from_slice(&page_size.to_le_bytes());
    buf.extend_from_slice(&total_pages.to_le_bytes());
    buf.extend_from_slice(&head.to_le_bytes());
    buf.extend_from_slice(&tail.to_le_bytes());
    buf
}

#[test]
fn open_empty_file_bootstraps() {
    let s = PageStore::open(Vec::new(), 1024).unwrap();
    assert_eq!(s.page_size(), 1024);
    assert_eq!(s.total_pages(), 0);
    assert_eq!(s.file_image().len(), HEADER_SIZE);
    assert_eq!(s.file_image(), &header_bytes(MAGIC_NUMBER, 1024, 0, 0, 0));
}

#[test]
fn open_partial_header_bootstraps() {
    let s = PageStore::open(vec![1, 2, 3], 64).unwrap();
    assert_eq!(s.page_size(), 64);
    assert_eq!(s.total_pages(), 0);
    assert_eq!(s.file_image(), &header_bytes(MAGIC_NUMBER, 64, 0, 0, 0));
}

#[test]
fn open_mismatched_magic_fails_and_leaves_file_alone() {
    let image = header_bytes(MAGIC_NUMBER ^ 1, 1024, 0, 0, 0);
    let kept = image.clone();
    let r = PageStore::open(image, 1024);
    assert!(matches!(r, Err(DbError::CorruptHeader)));
    assert_eq!(kept, header_bytes(MAGIC_NUMBER ^ 1, 1024, 0, 0, 0));
}

#[test]
fn open_existing_adopts_persisted_page_size() {
    let image = header_bytes(MAGIC_NUMBER, 64, 0, 0, 0);
    let s = PageStore::open(image, 4096).unwrap();
    assert_eq!(s.page_size(), 64);
}

#[test]
fn open_unusable_page_size_is_corrupt() {
    let image = header_bytes(MAGIC_NUMBER, 2, 0, 0, 0);
    assert!(matches!(PageStore::open(image, 1024), Err(DbError::CorruptHeader)));
}

#[test]
fn open_free_head_beyond_total_is_corrupt() {
    let mut image = header_bytes(MAGIC_NUMBER, 4, 3, 5, 5);
    image.resize(HEADER_SIZE + 3 * 4, 0);
    assert!(matches!(PageStore::open(image, 1024), Err(DbError::CorruptHeader)));
}

#[test]
fn open_cyclic_free_list_is_corrupt() {
    let mut image = header_bytes(MAGIC_NUMBER, 4, 1, 1, 1);
    image.extend_from_slice(&1u32.to_le_bytes());
    assert!(matches!(PageStore::open(image, 1024), Err(DbError::CorruptHeader)));
}

#[test]
fn open_free_tail_mismatch_is_corrupt() {
    let image = header_bytes(MAGIC_NUMBER, 4, 0, 0, 7);
    assert!(matches!(PageStore::open(image, 1024), Err(DbError::CorruptHeader)));
}

#[test]
fn allocate_mints_consecutive_page_numbers() {
    let mut s = PageStore::open(Vec::new(), 128).unwrap();
    assert_eq!(s.allocate_page(), Ok(1));
    assert_eq!(s.allocate_page(), Ok(2));
    assert_eq!(s.allocate_page(), Ok(3));
    assert_eq!(s.total_pages(), 3);
    assert_eq!(s.file_image().len(), HEADER_SIZE + 3 * 128);
}

#[test]
fn freshly_grown_page_is_zero_filled() {
    let mut s = PageStore::open(Vec::new(), 32).unwrap();
    let p = s.allocate_page().unwrap();
    assert_eq!(s.read_page(p), Ok(vec![0u8; 32]));
}

#[test]
fn write_then_read_returns_same_bytes() {
    let mut s = PageStore::open(Vec::new(), 16).unwrap();
    let p = s.allocate_page().unwrap();
    let data: Vec<u8> = (0u8..16u8).collect();
    assert_eq!(s.write_page(p, &data), Ok(()));
    assert_eq!(s.read_page(p), Ok(data));
}

#[test]
fn write_does_not_touch_other_pages() {
    let mut s = PageStore::open(Vec::new(), 8).unwrap();
    let p1 = s.allocate_page().unwrap();
    let p2 = s.allocate_page().unwrap();
    s.write_page(p1, &[1u8; 8]).unwrap();
    s.write_page(p2, &[2u8; 8]).unwrap();
    assert_eq!(s.read_page(p1), Ok(vec![1u8; 8]));
    assert_eq!(s.read_page(p2), Ok(vec![2u8; 8]));
}

#[test]
fn free_then_allocate_reuses_page_lifo() {
    let mut s = PageStore::open(Vec::new(), 16).unwrap();
    s.allocate_page().unwrap();
    let p = s.allocate_page().unwrap();
    s.allocate_page().unwrap();
    assert_eq!(s.free_page(p), Ok(()));
    assert_eq!(s.allocate_page(), Ok(p));
    assert_eq!(s.total_pages(), 3);
}

#[test]
fn free_list_pops_most_recently_freed_first() {
    let mut s = PageStore::open(Vec::new(), 16).unwrap();
    for _ in 0..3 {
        s.allocate_page().unwrap();
    }
    s.free_page(1).unwrap();
    s.free_page(3).unwrap();
    assert_eq!(s.allocate_page(), Ok(3));
    assert_eq!(s.allocate_page(), Ok(1));
    assert_eq!(s.allocate_page(), Ok(4));
    assert_eq!(s.total_pages(), 4);
}

#[test]
fn popped_page_keeps_bytes_past_the_linkage() {
    let mut s = PageStore::open(Vec::new(), 8).unwrap();
    let p = s.allocate_page().unwrap();
    s.write_page(p, &[9u8; 8]).unwrap();
    s.free_page(p).unwrap();
    assert_eq!(s.allocate_page(), Ok(p));
    let back = s.read_page(p).unwrap();
    assert_eq!(&back[4..], &[9u8; 8][4..]);
    assert_eq!(&back[..4], &0u32.to_le_bytes());
}

#[test]
fn read_page_zero_is_invalid_and_changes_nothing() {
    let mut s = PageStore::open(Vec::new(), 16).unwrap();
    s.allocate_page().unwrap();
    let before = s.file_image().clone();
    assert_eq!(s.read_page(0), Err(DbError::InvalidPageNumber));
    assert_eq!(s.file_image(), &before);
}

#[test]
fn read_past_total_pages_is_invalid() {
    let mut s = PageStore::open(Vec::new(), 16).unwrap();
    s.allocate_page().unwrap();
    assert_eq!(s.read_page(2), Err(DbError::InvalidPageNumber));
}

#[test]
fn write_with_wrong_buffer_length_is_size_mismatch() {
    let mut s = PageStore::open(Vec::new(), 16).unwrap();
    let p = s.allocate_page().unwrap();
    let before = s.file_image().clone();
    assert_eq!(s.write_page(p, &[0u8; 15]), Err(DbError::SizeMismatch));
    assert_eq!(s.write_page(p, &[0u8; 17]), Err(DbError::SizeMismatch));
    assert_eq!(s.file_image(), &before);
}

#[test]
fn write_to_invalid_page_number_changes_nothing() {
    let mut s = PageStore::open(Vec::new(), 16).unwrap();
    s.allocate_page().unwrap();
    let before = s.file_image().clone();
    assert_eq!(s.write_page(0, &[0u8; 16]), Err(DbError::InvalidPageNumber));
    assert_eq!(s.write_page(2, &[0u8; 16]), Err(DbError::InvalidPageNumber));
    assert_eq!(s.file_image(), &before);
}

#[test]
fn free_page_out_of_range_is_invalid() {
    let mut s = PageStore::open(Vec::new(), 16).unwrap();
    s.allocate_page().unwrap();
    assert_eq!(s.free_page(0), Err(DbError::InvalidPageNumber));
    assert_eq!(s.free_page(2), Err(DbError::InvalidPageNumber));
}

#[test]
fn truncated_image_reads_short() {
    let image = header_bytes(MAGIC_NUMBER, 16, 1, 0, 0);
    let s = PageStore::open(image, 16).unwrap();
    assert_eq!(s.read_page(1), Err(DbError::ShortRead));
}

#[test]
fn write_materializes_missing_page_bytes() {
    let image = header_bytes(MAGIC_NUMBER, 16, 1, 0, 0);
    let mut s = PageStore::open(image, 16).unwrap();
    assert_eq!(s.write_page(1, &[5u8; 16]), Ok(()));
    assert_eq!(s.read_page(1), Ok(vec![5u8; 16]));
    assert_eq!(s.file_image().len(), HEADER_SIZE + 16);
}

#[test]
fn huge_geometry_overflows_address_space() {
    let image = header_bytes(MAGIC_NUMBER, u32::MAX, u32::MAX, 0, 0);
    let s = PageStore::open(image, 1024).unwrap();
    assert_eq!(s.read_page(u32::MAX), Err(DbError::AddressOverflow));
}

#[test]
fn reopen_preserves_free_list() {
    let mut s = PageStore::open(Vec::new(), 16).unwrap();
    for _ in 0..3 {
        s.allocate_page().unwrap();
    }
    s.free_page(2).unwrap();
    s.free_page(1).unwrap();
    let image = s.file_image().clone();
    let mut s2 = PageStore::open(image, 4096).unwrap();
    assert_eq!(s2.page_size(), 16);
    assert_eq!(s2.total_pages(), 3);
    assert_eq!(s2.allocate_page(), Ok(1));
    assert_eq!(s2.allocate_page(), Ok(2));
    assert_eq!(s2.allocate_page(), Ok(4));
}

#[test]
fn header_is_persisted_after_each_structural_change() {
    let mut s = PageStore::open(Vec::new(), 16).unwrap();
    s.allocate_page().unwrap();
    assert_eq!(&s.file_image()[..HEADER_SIZE], &header_bytes(MAGIC_NUMBER, 16, 1, 0, 0)[..]);
    s.free_page(1).unwrap();
    assert_eq!(&s.file_image()[..HEADER_SIZE], &header_bytes(MAGIC_NUMBER, 16, 1, 1, 1)[..]);
}
