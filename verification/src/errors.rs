use vstd::prelude::*;

verus! {

/// The ways a storage operation can fail.
///
/// A `get` miss is not an error; it is reported as `None` by the engine.
#[derive(Clone, Copy, Debug, PartialEq, Eq, Structural)]
pub enum DbError {
    /// The data directory holds a file whose name is not `<id>.dat` with a
    /// positive integer id.
    InvalidSegmentName,
    /// A row is torn (a header claims more bytes than remain before a clean
    /// end of segment) or its checksum does not match its contents.
    CorruptSegment,
    /// A value location cannot be satisfied against the segments at hand, or
    /// the segment id space is exhausted.
    StorageIO,
    /// A key longer than the 16-bit key-size field can describe.
    KeyTooLarge,
    /// A value longer than the 16-bit value-size field can describe.
    ValueTooLarge,
}

} // verus!
