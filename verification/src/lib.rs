//! Reading Polygon Movie Maker project files (`.pmm`) into motions and
//! writing motions out as Vocaloid Motion Data (`.vmd`).
//!
//! Every binary32 value of the formats (positions, rotations, weights) is
//! carried as its raw IEEE-754 bit pattern in a `u32`: the formats only move
//! these values from one file to another, and the bit pattern is what both
//! files hold.
pub mod common;
pub mod motion;
pub mod text;
pub mod pmm;
pub mod vmd_writer;
pub mod vpd_reader;
pub mod skipped_bytes;
