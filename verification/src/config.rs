use vstd::prelude::*;
use crate::addr::is_power_of_two;

verus! {

/// Number of field elements in one persistent-memory chunk (one Merkle leaf).
pub const CHUNK: usize = 8;

/// The offset of the boundary AIR among the memory controller's AIRs.
pub const BOUNDARY_AIR_OFFSET: usize = 0;

/// The offset of the Merkle AIR among the memory controller's AIRs.
pub const MERKLE_AIR_OFFSET: usize = 1;

/// Opaque identifier of the memory bus, the channel over which memory
/// consistency records are cross-referenced by other proof components.
#[derive(Clone, Copy, Debug, PartialEq, Eq, Structural)]
pub struct MemoryBus(pub usize);

/// Opaque identifier of the bus on which Merkle-tree consistency is argued.
#[derive(Clone, Copy, Debug, PartialEq, Eq, Structural)]
pub struct MemoryMerkleBus(pub usize);

/// Opaque identifier of the bus carrying hash-compression evaluations.
#[derive(Clone, Copy, Debug, PartialEq, Eq, Structural)]
pub struct DirectCompressionBus(pub usize);

/// Opaque identifier of the range-check capability: the bus index and the
/// maximum bit width it can decompose into.
#[derive(Clone, Copy, Debug, PartialEq, Eq, Structural)]
pub struct VariableRangeCheckerBus {
    pub index: usize,
    pub range_max_bits: usize,
}

impl VariableRangeCheckerBus {
    pub fn new(index: usize, range_max_bits: usize) -> (r: Self)
        ensures
            r == (VariableRangeCheckerBus { index, range_max_bits }),
    {
        VariableRangeCheckerBus { index, range_max_bits }
    }
}

/// Handle that other instruction-executing components use to construct their
/// own memory-consistency assertions referencing the same buses.
#[derive(Clone, Copy, Debug, PartialEq, Eq, Structural)]
pub struct MemoryBridge {
    pub memory_bus: MemoryBus,
    pub clk_max_bits: usize,
    pub range_bus: VariableRangeCheckerBus,
}

impl MemoryBridge {
    pub fn new(memory_bus: MemoryBus, clk_max_bits: usize, range_bus: VariableRangeCheckerBus) -> (r: Self)
        ensures
            r == (MemoryBridge { memory_bus, clk_max_bits, range_bus }),
    {
        MemoryBridge { memory_bus, clk_max_bits, range_bus }
    }
}

/// Configuration of the memory subsystem.
#[derive(Clone, Copy, Debug, PartialEq, Eq, Structural)]
pub struct MemoryConfig {
    /// Bits of address-space indices: address spaces `1 ..= 2^as_height` are usable.
    pub as_height: usize,
    /// Pointers must be below `2^pointer_max_bits`.
    pub pointer_max_bits: usize,
    /// Bit width that the logical clock is range-checked against.
    pub clk_max_bits: usize,
    /// Bit width of one limb of the range-check decomposition.
    pub decomp: usize,
    /// Largest access size; also the largest block size the store tracks.
    pub max_access_adapter_n: usize,
}

impl MemoryConfig {
    /// The machine limits every part of the subsystem relies on.
    pub open spec fn wf(self) -> bool {
        &&& 1 <= self.as_height <= 29
        &&& 3 <= self.pointer_max_bits <= 29
        &&& 1 <= self.clk_max_bits <= 32
        &&& 1 <= self.decomp
        &&& is_power_of_two(self.max_access_adapter_n as int)
        &&& 2 <= self.max_access_adapter_n <= 32
    }

    pub fn new(
        as_height: usize,
        pointer_max_bits: usize,
        clk_max_bits: usize,
        decomp: usize,
        max_access_adapter_n: usize,
    ) -> (r: Self)
        ensures
            r == (MemoryConfig { as_height, pointer_max_bits, clk_max_bits, decomp, max_access_adapter_n }),
    {
        MemoryConfig { as_height, pointer_max_bits, clk_max_bits, decomp, max_access_adapter_n }
    }
}

impl Default for MemoryConfig {
    fn default() -> (r: Self)
        ensures
            r == (MemoryConfig {
                as_height: 3,
                pointer_max_bits: 29,
                clk_max_bits: 29,
                decomp: 17,
                max_access_adapter_n: 8,
            }),
            r.wf(),
    {
        proof {
            assert(is_power_of_two(1));
            assert(is_power_of_two(2));
            assert(is_power_of_two(4));
            assert(is_power_of_two(8));
        }
        MemoryConfig {
            as_height: 3,
            pointer_max_bits: 29,
            clk_max_bits: 29,
            decomp: 17,
            max_access_adapter_n: 8,
        }
    }
}

} // verus!
