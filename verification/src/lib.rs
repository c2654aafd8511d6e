//! Editor core for a tagged binary tree format and its sector-based,
//! multi-document container format.
//!
//! The crate provides: the tagged value tree data model with cached row
//! counts, the binary tag codec with a proved encode/decode round trip,
//! the gzip/zlib/raw compression envelope, the 1024-slot container codec,
//! and the row-indexed mutation resolver.

pub mod assets;
pub mod be_bytes;
pub mod value;
pub mod chunk;
pub mod codec;
pub mod element;
pub mod envelope;
pub mod region;
pub mod region_codec;
pub mod resolver;
pub mod stream;
