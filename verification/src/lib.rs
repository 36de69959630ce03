//! Reading tar archives block by block.
//!
//! The library holds the rules of the format and of the iteration over an
//! archive. It performs no input or output: it asks for bytes and for the
//! position of the archive, and is told what came back.

pub mod archive;
pub mod cells;
pub mod entries;
pub mod entry;
pub mod error;
pub mod fields;
pub mod found;
pub mod header;
pub mod holes;
pub mod machine;
pub mod outcome;
pub mod reading;
pub mod sparse;
pub mod unpack;
