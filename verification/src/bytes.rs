//! Byte-level encodings.
pub mod varnum;
