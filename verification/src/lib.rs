//! Block-and-table core of an LSM-tree storage engine: byte-exact encoding,
//! decoding, and ordered scanning of immutable sorted key-value tables.

use vstd::prelude::*;

pub mod block;
pub mod block_builder;
pub mod block_iterator;
pub mod endian;
pub mod order;
pub mod table;
pub mod table_builder;
pub mod table_iterator;

verus! {

/// Errors surfaced by the block and table codecs.
#[derive(Clone, Copy, Debug, PartialEq, Eq, Structural)]
pub enum Error {
    /// A read from the file image was out of bounds.
    IoError,
    /// The table footer or meta region is malformed.
    CorruptTable,
    /// A block image is malformed: bad entry count, offsets out of range,
    /// or entry lengths overrunning the data region.
    CorruptBlock,
    /// A single key-value pair alone exceeds the block byte budget.
    OversizedEntry,
}

} // verus!
