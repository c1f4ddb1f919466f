//! The engine's error taxonomy.
use vstd::prelude::*;

verus! {

#[derive(Debug, Clone, Copy, PartialEq, Eq, Structural)]
pub enum Error {
    /// The storage medium failed or rejected a write.
    IoError,
    /// A segment failed its checksum.
    CorruptSegment,
    /// A sequence number did not increase.
    OrderingViolation,
    /// A mutation was attempted on a sealed memory table.
    Frozen,
    /// The store could not be opened from what was persisted.
    OpenError,
}

} // verus!
