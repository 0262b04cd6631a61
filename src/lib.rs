//! A bounds-checked reader for sfnt font containers (TrueType / OpenType):
//! the table directory, the character-map table and its segment-mapping
//! subtables, decoded field by field from big-endian bytes.

pub mod error;
pub mod reader;
pub mod directory;
pub mod format4;
pub mod cmap;
