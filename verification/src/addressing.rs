use vstd::prelude::*;
use vstd::arithmetic::mul::lemma_mul_upper_bound;
use crate::errors::DbError;
use crate::header::HEADER_SIZE;

verus! {

/// Byte offset where page `p` begins: the header comes first, then the
/// pages back to back, 1-indexed.
pub open spec fn page_start(page_size: u32, p: u32) -> int
    recommends
        p >= 1,
{
    HEADER_SIZE + page_size * (p - 1)
}

/// One past the last byte of page `p`.
pub open spec fn page_end(page_size: u32, p: u32) -> int
    recommends
        p >= 1,
{
    page_start(page_size, p) + page_size
}

/// The bytes of page `p` within a file image.
pub open spec fn page_bytes(file: Seq<u8>, page_size: u32, p: u32) -> Seq<u8>
    recommends
        p >= 1,
        page_end(page_size, p) <= file.len(),
{
    file.subrange(page_start(page_size, p), page_end(page_size, p))
}

/// Byte offset of page `page_number` in a file laid out with pages of
/// `page_size` bytes.
///
/// Page number `0` is the header, never a data page. The offset must be
/// representable by the platform's signed 64-bit file-offset type.
pub fn offset_of(page_number: u32, page_size: u32) -> (r: Result<u64, DbError>)
    ensures
        page_number == 0 ==> r == Err::<u64, DbError>(DbError::InvalidPageNumber),
        page_number >= 1 && page_start(page_size, page_number) > i64::MAX ==> r == Err::<
            u64,
            DbError,
        >(DbError::AddressOverflow),
        page_number >= 1 && page_start(page_size, page_number) <= i64::MAX ==> r is Ok && r->Ok_0
            == page_start(page_size, page_number),
{
    if page_number == 0 {
        return Err(DbError::InvalidPageNumber);
    }
    proof {
        lemma_mul_upper_bound(page_size as int, u32::MAX as int, (page_number - 1) as int, u32::MAX as int);
    }
    let off: u64 = (HEADER_SIZE as u64) + (page_size as u64) * ((page_number - 1) as u64);
    if off > (i64::MAX as u64) {
        return Err(DbError::AddressOverflow);
    }
    Ok(off)
}

} // verus!
