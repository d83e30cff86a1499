use vstd::prelude::*;

verus! {

/// The fatal fault kinds of the memory subsystem, surfaced as explicit error
/// values at the boundary between the execution engine and this subsystem.
#[derive(Clone, Copy, Debug, PartialEq, Eq, Structural)]
pub enum MemoryError {
    /// A pointer at or above `2^pointer_max_bits` was accessed.
    OutOfBounds,
    /// A batched (length != 1) read, or any write, targeted address space 0.
    InvalidZeroAddressSpaceAccess,
    /// `finalize` was invoked more than once.
    DoubleFinalize,
    /// `set_initial_memory` after the clock advanced, or with non-empty
    /// memory under the volatile interface.
    PrematureInitialMemorySet,
    /// Overridden trace heights whose shape does not match the active
    /// interface variant.
    TraceHeightVariantMismatch,
    /// An override height smaller than the number of records already present.
    AdapterOverrideTooSmall,
}

/// A block of values together with the logical timestamp of its last access.
#[derive(Clone, Debug, PartialEq, Eq)]
pub struct TimestampedValues {
    pub timestamp: u32,
    pub values: Vec<u32>,
}

/// Evidence of one read: the data observed and the previous access time, so
/// the proving backend can assert `prev_timestamp < timestamp`.
#[derive(Clone, Debug, PartialEq, Eq)]
pub struct MemoryReadRecord {
    pub address_space: u32,
    pub pointer: u32,
    pub timestamp: u32,
    pub prev_timestamp: u32,
    pub data: Vec<u32>,
}

/// Evidence of one write: as a read record, plus the values overwritten.
#[derive(Clone, Debug, PartialEq, Eq)]
pub struct MemoryWriteRecord {
    pub address_space: u32,
    pub pointer: u32,
    pub timestamp: u32,
    pub prev_timestamp: u32,
    pub prev_data: Vec<u32>,
    pub data: Vec<u32>,
}

/// Whether a block was split into two halves, or merged from two halves.
#[derive(Clone, Copy, Debug, PartialEq, Eq, Structural)]
pub enum AccessAdapterRecordKind {
    Split,
    Merge { left_timestamp: u32, right_timestamp: u32 },
}

/// Evidence that a block of `data.len()` cells was split into, or merged
/// from, two blocks of half that size, starting at `start_index`.
#[derive(Clone, Debug, PartialEq, Eq)]
pub struct AccessAdapterRecord {
    pub timestamp: u32,
    pub address_space: u32,
    pub start_index: u32,
    pub data: Vec<u32>,
    pub kind: AccessAdapterRecordKind,
}

impl AccessAdapterRecord {
    /// The size class of the record: the size of the larger block involved.
    pub open spec fn len(self) -> int {
        self.data@.len() as int
    }
}

} // verus!
