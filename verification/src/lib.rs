//! Core engine of a Pack-archive management library: bounds-checked binary
//! decoding and encoding of primitive values, the PFH4 container codec, and
//! the table optimization pass that strips redundant rows before re-encoding.

pub mod animpack;
pub mod error;
pub mod decoder;
pub mod encoder;
pub mod pack;
pub mod strings;
pub mod image;
pub mod matched_combat;
pub mod optimizer;
pub mod table;
