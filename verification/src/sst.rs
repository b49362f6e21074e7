//! Object-storage-native sorted string table: an immutable file of key/value
//! byte strings with sorted keys.
//!
//! Layout:
//! ```text
//! [ data block | crc32 ]*          # prefix-compressed entries + restart array
//! [ index region ]                 # one entry per data block: last_key + handle
//! [ footer (fixed 32/36 bytes) ]   # index handle, format version, magic, crc
//! ```
//!
//! A whole table is read with [`SstReader`]. A single key can be looked up with
//! three ranged reads instead: the footer, the index, and the one block that can
//! hold the key ([`reader::footer_range`], [`reader::index_range`],
//! [`reader::block_range`], [`reader::find_in_block`]).

pub mod block;
pub mod reader;
pub mod varint;
pub mod writer;

pub use block::{checked_u32, Entry};
pub use reader::SstReader;
pub use writer::SstWriter;
