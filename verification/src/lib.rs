//! Decoder for the compiled Android resource-table format (`resources.arsc`).
//!
//! The input is a single contiguous byte range holding a tree of
//! length-prefixed, type-tagged chunks.  The crate walks that tree, decodes
//! the string pools and the per-configuration value tables, and exposes a
//! read-only model that translates between numeric resource identifiers and
//! `(package, type, entry)` name triples.

pub mod chunks;
pub mod endianness;
pub mod error;
pub mod resources;
pub mod stringpool;
pub mod table;

pub use endianness::LittleEndianU16;
pub use endianness::LittleEndianU32;
pub use endianness::LittleEndianU8;
pub use error::Error;
pub use resources::ResourceId;
pub use table::LoadedTable as Table;
