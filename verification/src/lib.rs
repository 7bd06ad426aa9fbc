//! Page-addressed storage core for a single-file database.
//!
//! The crate turns a flat byte image of a database file into a fixed-size
//! page address space: a fixed-size header at offset 0 describes the page
//! size, the number of pages ever allocated, and a linked list of reclaimed
//! pages available for reuse. All structural logic (header encoding, page
//! offset arithmetic, free-list bookkeeping) is verified; reading and
//! writing the image to disk is left to the embedding program.

pub mod errors;
pub mod header;
pub mod addressing;
pub mod store;
