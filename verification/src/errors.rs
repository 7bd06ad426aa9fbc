use vstd::prelude::*;

verus! {

/// Everything that can go wrong inside the page store itself.
///
/// I/O failures never appear here: this layer works on an in-memory byte
/// image, and the embedding program reports its own I/O errors when it
/// loads or persists that image.
#[derive(Clone, Copy, Debug, PartialEq, Eq, Structural)]
pub enum DbError {
    /// The header is truncated, carries the wrong magic, or describes a
    /// free list that violates the format's invariants.
    CorruptHeader,
    /// A page number of `0` or beyond the number of allocated pages.
    InvalidPageNumber,
    /// A write buffer whose length differs from the page size.
    SizeMismatch,
    /// The image is shorter than the header's page count claims.
    ShortRead,
    /// A page offset that the platform's file-offset or address type
    /// cannot represent.
    AddressOverflow,
}

} // verus!
