use vstd::prelude::*;
use vstd::assert_seqs_equal;
use vstd::bytes::{spec_u32_to_le_bytes, spec_u32_from_le_bytes, lemma_auto_spec_u32_to_from_le_bytes,
    u32_to_le_bytes, u32_from_le_bytes};
use vstd::slice::slice_subrange;
use crate::errors::DbError;

verus! {

/// Marks a byte image as belonging to this file format.
pub const MAGIC_NUMBER: u32 = 0x5048_4442;

/// Size in bytes of the encoded header at offset 0 of the image.
pub const HEADER_SIZE: usize = 20;

/// Page size adopted when a fresh file is bootstrapped without an
/// explicit choice.
pub const DEFAULT_PAGE_SIZE: u32 = 1024;

/// The fixed-size metadata record that lives at byte offset 0 of the file.
#[derive(Clone, Copy, Debug, PartialEq, Eq, Structural)]
pub struct DbHeader {
    /// Identifies the file as belonging to this format.
    pub magic: u32,
    /// Bytes per data page; fixed for the lifetime of the file.
    pub page_size: u32,
    /// Count of data pages ever allocated; never decreases.
    pub total_pages: u32,
    /// Page number of the first reclaimed page available for reuse;
    /// `0` means the free list is empty.
    pub free_list_head: u32,
    /// Page number of the most recently reclaimed page; `0` means empty.
    pub free_list_tail: u32,
}

/// The encoded form of a header: the five fields, little-endian,
/// in file order.
pub open spec fn spec_encode_header(h: DbHeader) -> Seq<u8> {
    spec_u32_to_le_bytes(h.magic) + spec_u32_to_le_bytes(h.page_size)
        + spec_u32_to_le_bytes(h.total_pages) + spec_u32_to_le_bytes(h.free_list_head)
        + spec_u32_to_le_bytes(h.free_list_tail)
}

/// The header read back from the first `HEADER_SIZE` bytes of a buffer.
pub open spec fn spec_decode_header(s: Seq<u8>) -> DbHeader
    recommends
        s.len() >= HEADER_SIZE,
{
    DbHeader {
        magic: spec_u32_from_le_bytes(s.subrange(0, 4)),
        page_size: spec_u32_from_le_bytes(s.subrange(4, 8)),
        total_pages: spec_u32_from_le_bytes(s.subrange(8, 12)),
        free_list_head: spec_u32_from_le_bytes(s.subrange(12, 16)),
        free_list_tail: spec_u32_from_le_bytes(s.subrange(16, 20)),
    }
}

/// An encoded header is exactly `HEADER_SIZE` bytes long.
pub proof fn lemma_encode_header_len(h: DbHeader)
    ensures
        spec_encode_header(h).len() == HEADER_SIZE,
{
    lemma_auto_spec_u32_to_from_le_bytes();
}

/// Re-encoding a decoded header reproduces the first `HEADER_SIZE`
/// bytes exactly: the codec is a bijection on header-sized buffers.
pub proof fn lemma_encode_decode(s: Seq<u8>)
    requires
        s.len() >= HEADER_SIZE,
    ensures
        spec_encode_header(spec_decode_header(s)) == s.subrange(0, HEADER_SIZE as int),
{
    lemma_auto_spec_u32_to_from_le_bytes();
    let h = spec_decode_header(s);
    assert(spec_u32_to_le_bytes(h.magic) == s.subrange(0, 4));
    assert(spec_u32_to_le_bytes(h.page_size) == s.subrange(4, 8));
    assert(spec_u32_to_le_bytes(h.total_pages) == s.subrange(8, 12));
    assert(spec_u32_to_le_bytes(h.free_list_head) == s.subrange(12, 16));
    assert(spec_u32_to_le_bytes(h.free_list_tail) == s.subrange(16, 20));
    assert_seqs_equal!(spec_encode_header(h) == s.subrange(0, HEADER_SIZE as int));
}

/// Decoding inverts encoding: every header value survives a trip
/// through its byte form unchanged.
pub proof fn lemma_header_round_trip(h: DbHeader)
    ensures
        spec_decode_header(spec_encode_header(h)) == h,
{
    lemma_auto_spec_u32_to_from_le_bytes();
    let e = spec_encode_header(h);
    assert_seqs_equal!(e.subrange(0, 4) == spec_u32_to_le_bytes(h.magic));
    assert_seqs_equal!(e.subrange(4, 8) == spec_u32_to_le_bytes(h.page_size));
    assert_seqs_equal!(e.subrange(8, 12) == spec_u32_to_le_bytes(h.total_pages));
    assert_seqs_equal!(e.subrange(12, 16) == spec_u32_to_le_bytes(h.free_list_head));
    assert_seqs_equal!(e.subrange(16, 20) == spec_u32_to_le_bytes(h.free_list_tail));
}

impl DbHeader {
    /// Serialize the header into its fixed-size little-endian byte form.
    pub fn to_buf(&self) -> (buf: Vec<u8>)
        ensures
            buf@ == spec_encode_header(*self),
            buf@.len() == HEADER_SIZE,
    {
        proof {
            lemma_encode_header_len(*self);
        }
        let mut buf = u32_to_le_bytes(self.magic);
        let mut rest = u32_to_le_bytes(self.page_size);
        buf.append(&mut rest);
        let mut rest = u32_to_le_bytes(self.total_pages);
        buf.append(&mut rest);
        let mut rest = u32_to_le_bytes(self.free_list_head);
        buf.append(&mut rest);
        let mut rest = u32_to_le_bytes(self.free_list_tail);
        buf.append(&mut rest);
        buf
    }

    /// Deserialize a header from the front of `buf`.
    ///
    /// Fails only when the buffer cannot hold a whole header; field
    /// values are taken as they stand, so a caller can inspect a buffer
    /// before deciding whether it is a valid header at all.
    pub fn from(buf: &[u8]) -> (r: Result<DbHeader, DbError>)
        ensures
            buf@.len() >= HEADER_SIZE ==> r == Ok::<DbHeader, DbError>(spec_decode_header(buf@)),
            buf@.len() < HEADER_SIZE ==> r == Err::<DbHeader, DbError>(DbError::CorruptHeader),
    {
        if buf.len() < HEADER_SIZE {
            return Err(DbError::CorruptHeader);
        }
        let magic = u32_from_le_bytes(slice_subrange(buf, 0, 4));
        let page_size = u32_from_le_bytes(slice_subrange(buf, 4, 8));
        let total_pages = u32_from_le_bytes(slice_subrange(buf, 8, 12));
        let free_list_head = u32_from_le_bytes(slice_subrange(buf, 12, 16));
        let free_list_tail = u32_from_le_bytes(slice_subrange(buf, 16, 20));
        Ok(DbHeader { magic, page_size, total_pages, free_list_head, free_list_tail })
    }

    /// A fresh header for a newly bootstrapped file: magic set, the given
    /// page size, no pages yet, empty free list.
    pub fn fresh(page_size: u32) -> (h: DbHeader)
        ensures
            h == (DbHeader {
                magic: MAGIC_NUMBER,
                page_size: page_size,
                total_pages: 0,
                free_list_head: 0,
                free_list_tail: 0,
            }),
    {
        DbHeader {
            magic: MAGIC_NUMBER,
            page_size,
            total_pages: 0,
            free_list_head: 0,
            free_list_tail: 0,
        }
    }
}

} // verus!
