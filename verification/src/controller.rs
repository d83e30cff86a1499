use vstd::prelude::*;
use crate::adapter::AccessAdapterInventory;
use crate::addr::{addr_key, key_at, is_power_of_two, SPACE_SIZE};
use crate::config::{CHUNK, DirectCompressionBus, MemoryBridge, MemoryBus, MemoryConfig,
    MemoryMerkleBus, VariableRangeCheckerBus};
use crate::equipartition::Equipartition;
use crate::kvlist::lemma_map_of_pairs_contains;
use crate::memory::{final_entry_ok, region_key, region_wf, Memory, INITIAL_TIMESTAMP};
use crate::records::{MemoryError, MemoryReadRecord, MemoryWriteRecord};

verus! {

/// `2^e`, for the pointer bound check.
pub open spec fn pow2_int(e: nat) -> int
    decreases e,
{
    if e == 0 {
        1
    } else {
        2 * pow2_int((e - 1) as nat)
    }
}

/// Computes `2^e` for the small exponents the configuration allows.
fn pow2_u32(e: usize) -> (r: u32)
    requires
        e <= 29,
    ensures
        r == pow2_int(e as nat),
        r <= 0x2000_0000,
{
    let mut r: u32 = 1;
    let mut i: usize = 0;
    while i < e
        invariant
            i <= e,
            e <= 29,
            r == pow2_int(i as nat),
            r <= 0x2000_0000,
        decreases e - i,
    {
        proof {
            lemma_pow2_int_bound(i as nat);
            lemma_pow2_int_bound((i + 1) as nat);
        }
        r = r * 2;
        i += 1;
    }
    r
}

proof fn lemma_pow2_int_29()
    ensures
        pow2_int(29) == 0x2000_0000,
{
    assert(pow2_int(0) == 0x1);
    assert(pow2_int(1) == 0x2);
    assert(pow2_int(2) == 0x4);
    assert(pow2_int(3) == 0x8);
    assert(pow2_int(4) == 0x10);
    assert(pow2_int(5) == 0x20);
    assert(pow2_int(6) == 0x40);
    assert(pow2_int(7) == 0x80);
    assert(pow2_int(8) == 0x100);
    assert(pow2_int(9) == 0x200);
    assert(pow2_int(10) == 0x400);
    assert(pow2_int(11) == 0x800);
    assert(pow2_int(12) == 0x1000);
    assert(pow2_int(13) == 0x2000);
    assert(pow2_int(14) == 0x4000);
    assert(pow2_int(15) == 0x8000);
    assert(pow2_int(16) == 0x10000);
    assert(pow2_int(17) == 0x20000);
    assert(pow2_int(18) == 0x40000);
    assert(pow2_int(19) == 0x80000);
    assert(pow2_int(20) == 0x100000);
    assert(pow2_int(21) == 0x200000);
    assert(pow2_int(22) == 0x400000);
    assert(pow2_int(23) == 0x800000);
    assert(pow2_int(24) == 0x1000000);
    assert(pow2_int(25) == 0x2000000);
    assert(pow2_int(26) == 0x4000000);
    assert(pow2_int(27) == 0x8000000);
    assert(pow2_int(28) == 0x10000000);
    assert(pow2_int(29) == 0x20000000);
}

proof fn lemma_pow2_int_bound(e: nat)
    requires
        e <= 29,
    ensures
        1 <= pow2_int(e) <= 0x2000_0000,
{
    lemma_pow2_int_pos(e);
    lemma_pow2_int_mono(e, 29);
    lemma_pow2_int_29();
}
/// `pow2_int` grows with its exponent.
proof fn lemma_pow2_int_mono(a: nat, b: nat)
    requires
        a <= b,
    ensures
        pow2_int(a) <= pow2_int(b),
    decreases b,
{
    if a < b {
        lemma_pow2_int_mono(a, (b - 1) as nat);
        lemma_pow2_int_pos((b - 1) as nat);
    }
}

proof fn lemma_pow2_int_pos(e: nat)
    ensures
        pow2_int(e) >= 1,
    decreases e,
{
    if e > 0 {
        lemma_pow2_int_pos((e - 1) as nat);
    }
}

/// The boundary and commitment strategy of the controller.
pub enum MemoryInterface {
    /// No cryptographic commitment; the boundary argues initial zeroes.
    Volatile,
    /// A Merkle-committed memory carried across proof segments.
    Persistent {
        merkle_bus: MemoryMerkleBus,
        compression_bus: DirectCompressionBus,
        initial_memory: Equipartition,
    },
}

/// The single entry point of the memory subsystem: owns the store and its
/// clock, dispatches to the active interface variant, routes adapter records
/// to the inventory, and drives finalization exactly once.
pub struct MemoryController {
    pub memory_bus: MemoryBus,
    pub mem_config: MemoryConfig,
    pub range_checker_bus: VariableRangeCheckerBus,
    pub interface_chip: MemoryInterface,
    pub memory: Memory,
    pub access_adapters: AccessAdapterInventory,
    /// Whether `finalize` already ran; a second run is refused.
    pub finalized: bool,
    /// A forced boundary table height, if any.
    pub overridden_boundary: Option<usize>,
    /// A forced Merkle table height, if any (persistent only).
    pub overridden_merkle: Option<usize>,
}

impl MemoryController {
    pub open spec fn wf(self) -> bool {
        &&& self.mem_config.wf()
        &&& self.memory.inv()
        &&& self.memory.max_block_len == self.mem_config.max_access_adapter_n
        &&& self.memory.initial_block_len == (match self.interface_chip {
            MemoryInterface::Volatile => 1int,
            MemoryInterface::Persistent { .. } => CHUNK as int,
        })
        &&& self.access_adapters.wf()
        &&& self.access_adapters.max_access_adapter_n == self.mem_config.max_access_adapter_n
        &&& (self.interface_chip is Persistent ==> self.mem_config.max_access_adapter_n >= CHUNK)
    }

    pub open spec fn continuation_enabled_spec(self) -> bool {
        self.interface_chip is Persistent
    }

    /// The current value at a cell, as the store holds it.
    pub open spec fn val_of(self, sp: u32, ptr: u32) -> u32 {
        self.memory.val_of(addr_key(sp, ptr))
    }

    pub fn continuation_enabled(&self) -> (r: bool)
        ensures
            r == self.continuation_enabled_spec(),
    {
        match &self.interface_chip {
            MemoryInterface::Volatile => false,
            MemoryInterface::Persistent { .. } => true,
        }
    }

    /// A controller whose memory starts empty and is argued without a
    /// commitment: every cell reads zero until written.
    pub fn with_volatile_memory(
        memory_bus: MemoryBus,
        mem_config: MemoryConfig,
        range_checker_bus: VariableRangeCheckerBus,
    ) -> (r: Self)
        requires
            mem_config.wf(),
        ensures
            r.wf(),
            !r.finalized,
            !r.continuation_enabled_spec(),
            r.mem_config == mem_config,
            r.memory_bus == memory_bus,
            r.range_checker_bus == range_checker_bus,
            r.memory.timestamp == INITIAL_TIMESTAMP + 1,
            forall|k: u64| !r.memory.covered(k),
            r.memory.touched_chunks@.len() == 0,
            r.access_adapters.overridden is None,
            r.overridden_boundary is None,
            r.overridden_merkle is None,
            forall|sp: u32, ptr: u32| #[trigger] r.val_of(sp, ptr) == 0,
            forall|i: int| 0 <= i < r.access_adapters.counts@.len() ==> r.access_adapters.counts@[i] == 0,
    {
        let initial = Equipartition::new();
        let memory = Memory::new(&initial, 1, mem_config.max_access_adapter_n as u32);
        let access_adapters = AccessAdapterInventory::new(
            range_checker_bus,
            memory_bus,
            mem_config.clk_max_bits,
            mem_config.max_access_adapter_n,
        );
        proof {
            assert(is_power_of_two(1int));
            assert forall|sp: u32, ptr: u32| #[trigger] memory.val_of(addr_key(sp, ptr)) == 0 by {
                assert(memory.val_of(addr_key(sp, ptr)) == initial.cell_val(1int, sp, ptr));
            }
        }
        MemoryController {
            memory_bus,
            mem_config,
            range_checker_bus,
            interface_chip: MemoryInterface::Volatile,
            memory,
            access_adapters,
            finalized: false,
            overridden_boundary: None,
            overridden_merkle: None,
        }
    }

    /// A controller whose memory starts at `initial_memory`, chunked for a
    /// Merkle commitment: every cell reads its initial value until written.
    pub fn with_persistent_memory(
        memory_bus: MemoryBus,
        mem_config: MemoryConfig,
        range_checker_bus: VariableRangeCheckerBus,
        merkle_bus: MemoryMerkleBus,
        compression_bus: DirectCompressionBus,
        initial_memory: Equipartition,
    ) -> (r: Self)
        requires
            mem_config.wf(),
            mem_config.max_access_adapter_n >= CHUNK,
            initial_memory.wf(CHUNK as int),
            forall|i: int| 0 <= i < initial_memory.pairs().len()
                ==> (crate::addr::key_ptr(#[trigger] initial_memory.pairs()[i].0) + 1) * CHUNK <= SPACE_SIZE,
        ensures
            r.wf(),
            !r.finalized,
            r.continuation_enabled_spec(),
            r.mem_config == mem_config,
            r.memory_bus == memory_bus,
            r.range_checker_bus == range_checker_bus,
            r.memory.timestamp == INITIAL_TIMESTAMP + 1,
            forall|k: u64| !r.memory.covered(k),
            r.memory.touched_chunks@.len() == 0,
            r.access_adapters.overridden is None,
            r.overridden_boundary is None,
            r.overridden_merkle is None,
            forall|sp: u32, ptr: u32| #[trigger] r.val_of(sp, ptr)
                == initial_memory.cell_val(CHUNK as int, sp, ptr),
            forall|i: int| 0 <= i < r.access_adapters.counts@.len() ==> r.access_adapters.counts@[i] == 0,
    {
        proof {
            assert(is_power_of_two(8int)) by {
                assert(is_power_of_two(1int));
                assert(is_power_of_two(2int));
                assert(is_power_of_two(4int));
            }
        }
        let memory = Memory::new(&initial_memory, CHUNK as u32, mem_config.max_access_adapter_n as u32);
        let access_adapters = AccessAdapterInventory::new(
            range_checker_bus,
            memory_bus,
            mem_config.clk_max_bits,
            mem_config.max_access_adapter_n,
        );
        MemoryController {
            memory_bus,
            mem_config,
            range_checker_bus,
            interface_chip: MemoryInterface::Persistent { merkle_bus, compression_bus, initial_memory },
            memory,
            access_adapters,
            finalized: false,
            overridden_boundary: None,
            overridden_merkle: None,
        }
    }


    /// Reads `len` cells at `(address_space, pointer)`.  Address space 0 is
    /// the immediate space: a single-cell read there returns the pointer
    /// itself, only ticking the clock; batched reads there are refused.
    /// Elsewhere the pointer must lie below the configured width; the store
    /// is read and the adapter records are routed to the inventory.
    #[verifier::rlimit(50)]
    #[verifier::spinoff_prover]
    pub fn read(&mut self, address_space: u32, pointer: u32, len: usize) -> (r: Result<MemoryReadRecord, MemoryError>)
        requires
            old(self).wf(),
            !old(self).finalized,
            is_power_of_two(len as int),
            1 <= len <= old(self).mem_config.max_access_adapter_n,
            old(self).memory.timestamp < u32::MAX,
        ensures
            final(self).wf(),
            same_except_memory_and_adapters(*old(self), *final(self)),
            (address_space != 0 && pointer >= pow2_int(old(self).mem_config.pointer_max_bits as nat))
                <==> r == Err::<MemoryReadRecord, MemoryError>(MemoryError::OutOfBounds),
            (address_space == 0 && len != 1)
                <==> r == Err::<MemoryReadRecord, MemoryError>(MemoryError::InvalidZeroAddressSpaceAccess),
            r is Err ==> (address_space != 0 && pointer >= pow2_int(old(self).mem_config.pointer_max_bits as nat))
                || (address_space == 0 && len != 1),
            r is Err ==> *final(self) == *old(self),
            r is Ok ==> final(self).memory.timestamp == old(self).memory.timestamp + 1,
            forall|sp: u32, ptr: u32| #[trigger] final(self).val_of(sp, ptr) == old(self).val_of(sp, ptr),
            r matches Ok(rec) ==> {
                &&& rec.address_space == address_space
                &&& rec.pointer == pointer
                &&& rec.timestamp == old(self).memory.timestamp
                &&& rec.prev_timestamp < rec.timestamp
                &&& rec.data@.len() == len
                &&& (address_space == 0 ==> rec.data@ == seq![pointer]
                    && rec.prev_timestamp == INITIAL_TIMESTAMP
                    && Memory::same_except_clock(old(self).memory, final(self).memory)
                    && final(self).access_adapters == old(self).access_adapters)
                &&& (address_space != 0 ==> (forall|j: int| 0 <= j < len
                    ==> rec.data@[j] == old(self).memory.val_of(#[trigger] key_at(address_space, pointer, j)))
                    && rec.prev_timestamp == old(self).memory.max_ts_in(addr_key(address_space, pointer), len as int))
            },
            // coverage only grows, and only within the access's chunk span
            r is Ok && address_space != 0 ==> {
                &&& (forall|k: u64| old(self).memory.covered(k) ==> #[trigger] final(self).memory.covered(k))
                &&& (forall|k: u64| #[trigger] final(self).memory.covered(k) ==> old(self).memory.covered(k)
                    || crate::memory::in_access_span(address_space, pointer, len as int,
                        old(self).memory.initial_block_len as int, k))
                &&& (forall|j: int| 0 <= j < len
                    ==> final(self).memory.covered(#[trigger] key_at(address_space, pointer, j)))
            },
            r is Ok && address_space != 0 && ((old(self).memory.covered(addr_key(address_space, pointer))
                    && old(self).memory.block_at(addr_key(address_space, pointer)).start == pointer
                    && old(self).memory.block_at(addr_key(address_space, pointer)).len == len)
                || (len == old(self).memory.initial_block_len
                    && pointer % old(self).memory.initial_block_len == 0
                    && !old(self).memory.covered(addr_key(address_space, pointer))))
                ==> final(self).access_adapters.counts@ == old(self).access_adapters.counts@,
    {
        let bound = pow2_u32(self.mem_config.pointer_max_bits);
        if address_space != 0 && pointer >= bound {
            return Err(MemoryError::OutOfBounds);
        }
        if address_space == 0 {
            if len != 1 {
                return Err(MemoryError::InvalidZeroAddressSpaceAccess);
            }
            let t = self.memory.timestamp();
            self.memory.increment_timestamp();
            let mut data: Vec<u32> = Vec::new();
            data.push(pointer);
            proof {
                assert(data@ =~= seq![pointer]);
            }
            return Ok(MemoryReadRecord {
                address_space,
                pointer,
                timestamp: t,
                prev_timestamp: INITIAL_TIMESTAMP,
                data,
            });
        }
        let (rec, recs) = self.memory.read(address_space, pointer, len as u32);
        self.route_records(&recs);
        Ok(rec)
    }

    /// Reads one cell: exactly [`MemoryController::read`] with length 1.
    pub fn read_cell(&mut self, address_space: u32, pointer: u32) -> (r: Result<MemoryReadRecord, MemoryError>)
        requires
            old(self).wf(),
            !old(self).finalized,
            old(self).memory.timestamp < u32::MAX,
        ensures
            final(self).wf(),
            same_except_memory_and_adapters(*old(self), *final(self)),
            (address_space != 0 && pointer >= pow2_int(old(self).mem_config.pointer_max_bits as nat))
                <==> r == Err::<MemoryReadRecord, MemoryError>(MemoryError::OutOfBounds),
            r is Err ==> address_space != 0
                && pointer >= pow2_int(old(self).mem_config.pointer_max_bits as nat),
            r is Err ==> *final(self) == *old(self),
            r is Ok ==> final(self).memory.timestamp == old(self).memory.timestamp + 1,
            forall|sp: u32, ptr: u32| #[trigger] final(self).val_of(sp, ptr) == old(self).val_of(sp, ptr),
            r matches Ok(rec) ==> {
                &&& rec.address_space == address_space
                &&& rec.pointer == pointer
                &&& rec.timestamp == old(self).memory.timestamp
                &&& rec.prev_timestamp < rec.timestamp
                &&& rec.data@.len() == 1
                &&& (address_space == 0 ==> rec.data@ == seq![pointer]
                    && rec.prev_timestamp == INITIAL_TIMESTAMP
                    && Memory::same_except_clock(old(self).memory, final(self).memory)
                    && final(self).access_adapters == old(self).access_adapters)
                &&& (address_space != 0 ==> rec.data@[0] == old(self).val_of(address_space, pointer)
                    && rec.prev_timestamp == old(self).memory.max_ts_in(addr_key(address_space, pointer), 1))
            },
            r is Ok && address_space != 0 ==> {
                &&& (forall|k: u64| old(self).memory.covered(k) ==> #[trigger] final(self).memory.covered(k))
                &&& (forall|k: u64| #[trigger] final(self).memory.covered(k) ==> old(self).memory.covered(k)
                    || crate::memory::in_access_span(address_space, pointer, 1,
                        old(self).memory.initial_block_len as int, k))
                &&& final(self).memory.covered(addr_key(address_space, pointer))
            },
            r is Ok && address_space != 0 && ((old(self).memory.covered(addr_key(address_space, pointer))
                    && old(self).memory.block_at(addr_key(address_space, pointer)).start == pointer
                    && old(self).memory.block_at(addr_key(address_space, pointer)).len == 1)
                || (1 == old(self).memory.initial_block_len
                    && !old(self).memory.covered(addr_key(address_space, pointer))))
                ==> final(self).access_adapters.counts@ == old(self).access_adapters.counts@,
    {
        proof {
            assert(is_power_of_two(1int));
            crate::addr::lemma_key_decompose(address_space, pointer);
            assert(key_at(address_space, pointer, 0) == addr_key(address_space, pointer));
        }
        self.read(address_space, pointer, 1)
    }

    /// Writes `data` to the cells at `(address_space, pointer)`.  Writes to
    /// address space 0 are refused; elsewhere the pointer must lie below the
    /// configured width.
    #[verifier::rlimit(50)]
    #[verifier::spinoff_prover]
    pub fn write(&mut self, address_space: u32, pointer: u32, data: Vec<u32>) -> (r: Result<MemoryWriteRecord, MemoryError>)
        requires
            old(self).wf(),
            !old(self).finalized,
            is_power_of_two(data@.len() as int),
            1 <= data@.len() <= old(self).mem_config.max_access_adapter_n,
            old(self).memory.timestamp < u32::MAX,
        ensures
            final(self).wf(),
            same_except_memory_and_adapters(*old(self), *final(self)),
            address_space == 0
                <==> r == Err::<MemoryWriteRecord, MemoryError>(MemoryError::InvalidZeroAddressSpaceAccess),
            (address_space != 0 && pointer >= pow2_int(old(self).mem_config.pointer_max_bits as nat))
                <==> r == Err::<MemoryWriteRecord, MemoryError>(MemoryError::OutOfBounds),
            r is Err ==> address_space == 0
                || pointer >= pow2_int(old(self).mem_config.pointer_max_bits as nat),
            r is Err ==> *final(self) == *old(self),
            r matches Ok(rec) ==> {
                &&& final(self).memory.timestamp == old(self).memory.timestamp + 1
                &&& rec.address_space == address_space
                &&& rec.pointer == pointer
                &&& rec.timestamp == old(self).memory.timestamp
                &&& rec.prev_timestamp < rec.timestamp
                &&& rec.prev_timestamp == old(self).memory.max_ts_in(addr_key(address_space, pointer), data@.len() as int)
                &&& rec.data@ == data@
                &&& rec.prev_data@.len() == data@.len()
                &&& (forall|j: int| 0 <= j < data@.len()
                    ==> rec.prev_data@[j] == old(self).memory.val_of(#[trigger] key_at(address_space, pointer, j)))
                &&& (forall|j: int| 0 <= j < data@.len()
                    ==> final(self).memory.val_of(#[trigger] key_at(address_space, pointer, j)) == data@[j])
                &&& (forall|k: u64| !crate::memory::in_range(address_space, pointer, data@.len() as int, k)
                    ==> #[trigger] final(self).memory.val_of(k) == old(self).memory.val_of(k))
                &&& (forall|k: u64| old(self).memory.covered(k) ==> #[trigger] final(self).memory.covered(k))
                &&& (forall|k: u64| #[trigger] final(self).memory.covered(k) ==> old(self).memory.covered(k)
                    || crate::memory::in_access_span(address_space, pointer, data@.len() as int,
                        old(self).memory.initial_block_len as int, k))
                &&& (forall|j: int| 0 <= j < data@.len()
                    ==> final(self).memory.covered(#[trigger] key_at(address_space, pointer, j)))
            },
            r is Ok && ((old(self).memory.covered(addr_key(address_space, pointer))
                    && old(self).memory.block_at(addr_key(address_space, pointer)).start == pointer
                    && old(self).memory.block_at(addr_key(address_space, pointer)).len == data@.len())
                || (data@.len() == old(self).memory.initial_block_len
                    && pointer % old(self).memory.initial_block_len == 0
                    && !old(self).memory.covered(addr_key(address_space, pointer))))
                ==> final(self).access_adapters.counts@ == old(self).access_adapters.counts@,
    {
        if address_space == 0 {
            return Err(MemoryError::InvalidZeroAddressSpaceAccess);
        }
        let bound = pow2_u32(self.mem_config.pointer_max_bits);
        if pointer >= bound {
            return Err(MemoryError::OutOfBounds);
        }
        let (rec, recs) = self.memory.write(address_space, pointer, data);
        self.route_records(&recs);
        Ok(rec)
    }

    /// Writes one cell: exactly [`MemoryController::write`] with length 1.
    pub fn write_cell(&mut self, address_space: u32, pointer: u32, data: u32) -> (r: Result<MemoryWriteRecord, MemoryError>)
        requires
            old(self).wf(),
            !old(self).finalized,
            old(self).memory.timestamp < u32::MAX,
        ensures
            final(self).wf(),
            same_except_memory_and_adapters(*old(self), *final(self)),
            address_space == 0
                <==> r == Err::<MemoryWriteRecord, MemoryError>(MemoryError::InvalidZeroAddressSpaceAccess),
            (address_space != 0 && pointer >= pow2_int(old(self).mem_config.pointer_max_bits as nat))
                <==> r == Err::<MemoryWriteRecord, MemoryError>(MemoryError::OutOfBounds),
            r is Err ==> address_space == 0
                || pointer >= pow2_int(old(self).mem_config.pointer_max_bits as nat),
            r is Err ==> *final(self) == *old(self),
            r matches Ok(rec) ==> {
                &&& final(self).memory.timestamp == old(self).memory.timestamp + 1
                &&& rec.address_space == address_space
                &&& rec.pointer == pointer
                &&& rec.timestamp == old(self).memory.timestamp
                &&& rec.prev_timestamp < rec.timestamp
                &&& rec.prev_timestamp == old(self).memory.max_ts_in(addr_key(address_space, pointer), 1)
                &&& rec.data@ == seq![data]
                &&& rec.prev_data@.len() == 1
                &&& rec.prev_data@[0] == old(self).val_of(address_space, pointer)
                &&& final(self).val_of(address_space, pointer) == data
                &&& (forall|k: u64| !crate::memory::in_range(address_space, pointer, 1, k)
                    ==> #[trigger] final(self).memory.val_of(k) == old(self).memory.val_of(k))
                &&& (forall|k: u64| old(self).memory.covered(k) ==> #[trigger] final(self).memory.covered(k))
                &&& (forall|k: u64| #[trigger] final(self).memory.covered(k) ==> old(self).memory.covered(k)
                    || crate::memory::in_access_span(address_space, pointer, 1,
                        old(self).memory.initial_block_len as int, k))
                &&& final(self).memory.covered(addr_key(address_space, pointer))
            },
            r is Ok && ((old(self).memory.covered(addr_key(address_space, pointer))
                    && old(self).memory.block_at(addr_key(address_space, pointer)).start == pointer
                    && old(self).memory.block_at(addr_key(address_space, pointer)).len == 1)
                || (1 == old(self).memory.initial_block_len
                    && !old(self).memory.covered(addr_key(address_space, pointer))))
                ==> final(self).access_adapters.counts@ == old(self).access_adapters.counts@,
    {
        let mut v: Vec<u32> = Vec::new();
        v.push(data);
        proof {
            assert(v@ =~= seq![data]);
            assert(is_power_of_two(1int));
            crate::addr::lemma_key_decompose(address_space, pointer);
            assert(key_at(address_space, pointer, 0) == addr_key(address_space, pointer));
        }
        self.write(address_space, pointer, v)
    }

    /// Routes adapter records to the inventory, one per size class.
    fn route_records(&mut self, recs: &Vec<crate::records::AccessAdapterRecord>)
        requires
            old(self).wf(),
            forall|i: int| 0 <= i < recs@.len() ==> crate::memory::rec_wf(
                #[trigger] recs@[i],
                old(self).memory.max_block_len,
                u32::MAX,
            ),
        ensures
            final(self).wf(),
            final(self).memory == old(self).memory,
            same_except_memory_and_adapters(*old(self), *final(self)),
            final(self).access_adapters.max_access_adapter_n == old(self).access_adapters.max_access_adapter_n,
            final(self).access_adapters.counts@.len() == old(self).access_adapters.counts@.len(),
            recs@.len() == 0 ==> final(self).access_adapters == old(self).access_adapters,
    {
        let mut i: usize = 0;
        while i < recs.len()
            invariant
                self.wf(),
                self.memory == old(self).memory,
                same_except_memory_and_adapters(*old(self), *self),
                self.access_adapters.max_access_adapter_n == old(self).access_adapters.max_access_adapter_n,
                self.access_adapters.counts@.len() == old(self).access_adapters.counts@.len(),
                i <= recs@.len(),
                i == 0 ==> self.access_adapters == old(self).access_adapters,
                forall|j: int| 0 <= j < recs@.len() ==> crate::memory::rec_wf(
                    #[trigger] recs@[j],
                    old(self).memory.max_block_len,
                    u32::MAX,
                ),
            decreases recs@.len() - i,
        {
            let rec = &recs[i];
            self.access_adapters.add_record(rec);
            i += 1;
        }
    }

    /// Finalizes the memory: refused after it already ran once.  The
    /// volatile interface yields no commitment payload; the persistent one
    /// yields the final memory as an equipartition of the touched chunks —
    /// the commitment's leaves, not the commitment itself.  A label absent
    /// from the result was never touched: with an empty initial memory it
    /// is implicitly zero, with a non-empty one it keeps its initial block.
    #[verifier::rlimit(50)]
    #[verifier::spinoff_prover]
    pub fn finalize(&mut self) -> (r: Result<Option<Equipartition>, MemoryError>)
        requires
            old(self).wf(),
        ensures
            final(self).wf(),
            old(self).finalized <==> r == Err::<Option<Equipartition>, MemoryError>(MemoryError::DoubleFinalize),
            r is Err ==> *final(self) == *old(self),
            r is Ok ==> final(self).finalized,
            final(self).memory.timestamp == old(self).memory.timestamp,
            // a store already at uniform granularity yields no adapter records
            old(self).interface_chip is Volatile && crate::memory::uniform_blocks(old(self).memory, 1)
                ==> final(self).access_adapters == old(self).access_adapters,
            old(self).interface_chip is Persistent && crate::memory::uniform_blocks(old(self).memory, CHUNK as int)
                ==> final(self).access_adapters == old(self).access_adapters,
            final(self).mem_config == old(self).mem_config,
            final(self).interface_chip == old(self).interface_chip,
            forall|sp: u32, ptr: u32| #[trigger] final(self).val_of(sp, ptr) == old(self).val_of(sp, ptr),
            !old(self).finalized && old(self).interface_chip is Volatile
                ==> r == Ok::<Option<Equipartition>, MemoryError>(None),
            (!old(self).finalized && old(self).interface_chip is Persistent) ==> (r matches Ok(p) && p matches Some(eq) && {
                &&& eq.wf(CHUNK as int)
                &&& (forall|i: int| 0 <= i < eq.pairs().len() ==> {
                    let lk = (#[trigger] eq.pairs()[i]).0;
                    &&& region_wf(old(self).memory, lk, CHUNK as int)
                    &&& eq.pairs()[i].1.len() == CHUNK
                    &&& (forall|j: int| 0 <= j < CHUNK ==> eq.pairs()[i].1[j]
                        == old(self).memory.val_of(#[trigger] crate::memory::label_cell(lk, CHUNK as int, j)))
                })
                &&& (forall|k: u64| old(self).memory.covered(k)
                    ==> eq@.contains_key(#[trigger] region_key(k, CHUNK as int)))
            }),
    {
        if self.finalized {
            return Err(MemoryError::DoubleFinalize);
        }
        match &self.interface_chip {
            MemoryInterface::Volatile => {
                proof {
                    assert(is_power_of_two(1int));
                }
                let (_final_memory, recs) = self.memory.finalize(1);
                self.route_records(&recs);
                self.finalized = true;
                Ok(None)
            },
            MemoryInterface::Persistent { .. } => {
                proof {
                    assert(is_power_of_two(8int)) by {
                        assert(is_power_of_two(1int));
                        assert(is_power_of_two(2int));
                        assert(is_power_of_two(4int));
                    }
                }
                let ghost m0 = self.memory;
                let (final_memory, recs) = self.memory.finalize(CHUNK as u32);
                self.route_records(&recs);
                self.finalized = true;
                // Drop the timestamps for the public commitment payload.
                let mut eq = Equipartition::new();
                let mut i: usize = 0;
                while i < final_memory.len()
                    invariant
                        final_memory.wf(CHUNK as int),
                        forall|i2: int| 0 <= i2 < final_memory.pairs().len()
                            ==> region_wf(m0, (#[trigger] final_memory.pairs()[i2]).0, CHUNK as int)
                                && final_entry_ok(m0, CHUNK as int, final_memory.pairs()[i2].0,
                                    final_memory.pairs()[i2].1.0, final_memory.pairs()[i2].1.1),
                        i <= final_memory.pairs().len(),
                        eq.pairs().len() == i,
                        eq.wf(CHUNK as int),
                        forall|i2: int| 0 <= i2 < i ==> (#[trigger] eq.pairs()[i2]).0 == final_memory.pairs()[i2].0
                            && eq.pairs()[i2].1 == final_memory.pairs()[i2].1.1,
                    decreases final_memory.pairs().len() - i,
                {
                    let lk = final_memory.key_at(i);
                    let vals = final_memory.values_at(i);
                    let (sp, label) = crate::addr::split_key(lk);
                    let ghost eq0 = eq;
                    proof {
                        assert(region_wf(m0, lk, CHUNK as int));
                        assert(final_entry_ok(m0, CHUNK as int, lk, final_memory.pairs()[i as int].1.0,
                            final_memory.pairs()[i as int].1.1));
                        // The label is fresh: earlier entries carry earlier keys.
                        assert(!eq0@.contains_key(lk)) by {
                            lemma_map_of_pairs_contains(eq0.pairs(), lk);
                            if eq0@.contains_key(lk) {
                                let x = choose|x: int| 0 <= x < eq0.pairs().len() && eq0.pairs()[x].0 == lk;
                                assert(final_memory.pairs()[x].0 == lk);
                                assert(final_memory.pairs()[i as int].0 == lk);
                            }
                        }
                        assert(lk == addr_key(sp, label));
                    }
                    eq.insert_block(sp, label, vals, CHUNK);
                    proof {
                        assert(eq.pairs() == eq0.pairs().push((addr_key(sp, label), vals@)));
                        assert forall|i2: int| 0 <= i2 < i + 1 implies (#[trigger] eq.pairs()[i2]).0 == final_memory.pairs()[i2].0
                            && eq.pairs()[i2].1 == final_memory.pairs()[i2].1.1 by {
                            if i2 < i {
                                assert(eq.pairs()[i2] == eq0.pairs()[i2]);
                            } else {
                                assert(eq.pairs()[i2] == (addr_key(sp, label), vals@));
                            }
                        }
                    }
                    i += 1;
                }
                proof {
                    assert forall|k: u64| m0.covered(k)
                        implies eq@.contains_key(#[trigger] region_key(k, CHUNK as int)) by {
                        assert(final_memory@.contains_key(region_key(k, CHUNK as int)));
                        lemma_map_of_pairs_contains(final_memory.pairs(), region_key(k, CHUNK as int));
                        let x = choose|x: int| 0 <= x < final_memory.pairs().len()
                            && final_memory.pairs()[x].0 == region_key(k, CHUNK as int);
                        assert(eq.pairs()[x].0 == region_key(k, CHUNK as int));
                        lemma_map_of_pairs_contains(eq.pairs(), region_key(k, CHUNK as int));
                    }
                    assert forall|i2: int| 0 <= i2 < eq.pairs().len() implies
                        region_wf(m0, (#[trigger] eq.pairs()[i2]).0, CHUNK as int)
                        && eq.pairs()[i2].1.len() == CHUNK
                        && (forall|j: int| 0 <= j < CHUNK ==> eq.pairs()[i2].1[j]
                            == m0.val_of(#[trigger] crate::memory::label_cell(eq.pairs()[i2].0, CHUNK as int, j))) by {
                        assert(final_entry_ok(m0, CHUNK as int, final_memory.pairs()[i2].0,
                            final_memory.pairs()[i2].1.0, final_memory.pairs()[i2].1.1));
                    }
                }
                Ok(Some(eq))
            },
        }
    }

    /// Replaces the initial memory.  Refused once the clock has advanced,
    /// and, for non-empty memory, under the volatile interface.
    pub fn set_initial_memory(&mut self, memory: Equipartition) -> (r: Result<(), MemoryError>)
        requires
            old(self).wf(),
            !old(self).finalized,
            memory.wf(CHUNK as int),
            forall|i: int| 0 <= i < memory.pairs().len()
                ==> (crate::addr::key_ptr(#[trigger] memory.pairs()[i].0) + 1) * CHUNK <= SPACE_SIZE,
        ensures
            final(self).wf(),
            (old(self).memory.timestamp > INITIAL_TIMESTAMP + 1
                || (old(self).interface_chip is Volatile && memory.pairs().len() > 0))
                <==> r == Err::<(), MemoryError>(MemoryError::PrematureInitialMemorySet),
            r is Err ==> *final(self) == *old(self),
            r is Ok && old(self).interface_chip is Volatile ==> *final(self) == *old(self),
            r is Ok && old(self).interface_chip is Persistent ==> {
                &&& final(self).interface_chip matches MemoryInterface::Persistent { initial_memory, .. }
                    && initial_memory == memory
                &&& forall|sp: u32, ptr: u32| #[trigger] final(self).val_of(sp, ptr)
                    == memory.cell_val(CHUNK as int, sp, ptr)
                &&& final(self).memory.timestamp == old(self).memory.timestamp
                &&& (forall|k: u64| !final(self).memory.covered(k))
                &&& final(self).memory.touched_chunks@.len() == 0
            },
            final(self).finalized == old(self).finalized,
            final(self).mem_config == old(self).mem_config,
    {
        if self.memory.timestamp() > INITIAL_TIMESTAMP + 1 {
            return Err(MemoryError::PrematureInitialMemorySet);
        }
        match &mut self.interface_chip {
            MemoryInterface::Volatile => {
                if memory.len() != 0 {
                    return Err(MemoryError::PrematureInitialMemorySet);
                }
                Ok(())
            },
            MemoryInterface::Persistent { initial_memory, .. } => {
                proof {
                    assert(is_power_of_two(8int)) by {
                        assert(is_power_of_two(1int));
                        assert(is_power_of_two(2int));
                        assert(is_power_of_two(4int));
                    }
                }
                let new_store = Memory::new(&memory, CHUNK as u32, self.mem_config.max_access_adapter_n as u32);
                *initial_memory = memory;
                self.memory = new_store;
                Ok(())
            },
        }
    }


    /// The boundary table height before any override: one row per touched
    /// default chunk under the volatile interface, two (initial and final)
    /// per touched chunk under the persistent one.
    pub open spec fn spec_boundary_height(self) -> int {
        let touched = self.memory.touched_chunks@.len() as int;
        match self.interface_chip {
            MemoryInterface::Volatile => touched,
            MemoryInterface::Persistent { .. } => if 2 * touched <= usize::MAX {
                2 * touched
            } else {
                usize::MAX as int
            },
        }
    }

    /// One more table than the boundary per interface: the Merkle table
    /// exists only with continuations, plus one table per adapter class.
    pub fn num_airs(&self) -> (r: usize)
        requires
            self.wf(),
            self.access_adapters.counts@.len() <= 100,
        ensures
            r == 1 + (if self.continuation_enabled_spec() { 1int } else { 0int })
                + self.access_adapters.counts@.len(),
    {
        let mut n: usize = 1;
        if self.continuation_enabled() {
            n += 1;
        }
        n + self.access_adapters.num_access_adapters()
    }

    /// The current trace heights, shaped by the active interface.
    pub fn get_memory_trace_heights(&self) -> (r: crate::heights::MemoryTraceHeights)
        requires
            self.wf(),
        ensures
            r is Volatile <==> !self.continuation_enabled_spec(),
            r matches crate::heights::MemoryTraceHeights::Volatile(v) ==> {
                &&& v.boundary == spec_max_usize(self.spec_boundary_height(), self.overridden_boundary)
                &&& v.access_adapters@.len() == self.access_adapters.counts@.len()
                &&& forall|i: int| 0 <= i < v.access_adapters@.len()
                    ==> v.access_adapters@[i] == self.access_adapters.spec_height(i)
            },
            r matches crate::heights::MemoryTraceHeights::Persistent(p) ==> {
                &&& p.boundary == spec_max_usize(self.spec_boundary_height(), self.overridden_boundary)
                &&& p.merkle == spec_max_usize(self.spec_boundary_height(), self.overridden_merkle)
                &&& p.access_adapters@.len() == self.access_adapters.counts@.len()
                &&& forall|i: int| 0 <= i < p.access_adapters@.len()
                    ==> p.access_adapters@[i] == self.access_adapters.spec_height(i)
            },
    {
        let touched = self.memory.touched_chunks.len();
        let access_adapters = self.access_adapters.get_heights();
        match &self.interface_chip {
            MemoryInterface::Volatile => {
                let boundary = apply_override(touched, &self.overridden_boundary);
                crate::heights::MemoryTraceHeights::Volatile(crate::heights::VolatileMemoryTraceHeights {
                    boundary,
                    access_adapters,
                })
            },
            MemoryInterface::Persistent { .. } => {
                let doubled = if touched > usize::MAX / 2 {
                    usize::MAX
                } else {
                    2 * touched
                };
                let boundary = apply_override(doubled, &self.overridden_boundary);
                let merkle = apply_override(doubled, &self.overridden_merkle);
                crate::heights::MemoryTraceHeights::Persistent(crate::heights::PersistentMemoryTraceHeights {
                    boundary,
                    merkle,
                    access_adapters,
                })
            },
        }
    }

    /// The current trace heights as one flat list, in the fixed order
    /// boundary, Merkle (persistent only), adapters.
    pub fn current_trace_heights(&self) -> (r: Vec<usize>)
        requires
            self.wf(),
        ensures
            r@.len() == 1 + (if self.continuation_enabled_spec() { 1int } else { 0int })
                + self.access_adapters.counts@.len(),
            r@[0] == spec_max_usize(self.spec_boundary_height(), self.overridden_boundary),
            self.continuation_enabled_spec()
                ==> r@[1] == spec_max_usize(self.spec_boundary_height(), self.overridden_merkle),
            forall|i: int| 0 <= i < self.access_adapters.counts@.len()
                ==> r@[(if self.continuation_enabled_spec() { 2int } else { 1int }) + i]
                    == #[trigger] self.access_adapters.spec_height(i),
    {
        let h = self.get_memory_trace_heights();
        h.flatten()
    }

    /// Minimal placeholder heights of the right shape: one row everywhere.
    pub fn get_dummy_memory_trace_heights(&self) -> (r: crate::heights::MemoryTraceHeights)
        requires
            self.wf(),
        ensures
            r is Volatile <==> !self.continuation_enabled_spec(),
            r.spec_boundary() == 1,
            r matches crate::heights::MemoryTraceHeights::Persistent(oh) ==> oh.merkle == 1,
            r.spec_access_adapters().len() == self.access_adapters.counts@.len(),
            forall|i: int| 0 <= i < r.spec_access_adapters().len() ==> #[trigger] r.spec_access_adapters()[i] == 1,
    {
        let n = self.access_adapters.num_access_adapters();
        let mut access_adapters: Vec<usize> = Vec::new();
        let mut i: usize = 0;
        while i < n
            invariant
                i <= n,
                access_adapters@.len() == i,
                forall|j: int| 0 <= j < i ==> #[trigger] access_adapters@[j] == 1,
            decreases n - i,
        {
            access_adapters.push(1);
            i += 1;
        }
        match &self.interface_chip {
            MemoryInterface::Volatile => crate::heights::MemoryTraceHeights::Volatile(
                crate::heights::VolatileMemoryTraceHeights { boundary: 1, access_adapters },
            ),
            MemoryInterface::Persistent { .. } => crate::heights::MemoryTraceHeights::Persistent(
                crate::heights::PersistentMemoryTraceHeights { boundary: 1, merkle: 1, access_adapters },
            ),
        }
    }

    /// Forces the trace heights.  The shape must match the active interface
    /// variant, and no adapter height may undercut its recorded count.
    pub fn set_override_trace_heights(&mut self, overridden_heights: crate::heights::MemoryTraceHeights)
        -> (r: Result<(), MemoryError>)
        requires
            old(self).wf(),
        ensures
            final(self).wf(),
            final(self).memory == old(self).memory,
            final(self).finalized == old(self).finalized,
            final(self).interface_chip == old(self).interface_chip,
            final(self).mem_config == old(self).mem_config,
            final(self).memory_bus == old(self).memory_bus,
            final(self).range_checker_bus == old(self).range_checker_bus,
            final(self).access_adapters.counts@ == old(self).access_adapters.counts@,
            // accepted exactly when the shape matches and no height undercuts
            // its recorded count
            r is Ok <==> ((overridden_heights is Volatile <==> !old(self).continuation_enabled_spec())
                && overridden_heights.spec_access_adapters().len() == old(self).access_adapters.counts@.len()
                && (forall|i: int| 0 <= i < old(self).access_adapters.counts@.len()
                    ==> overridden_heights.spec_access_adapters()[i] >= old(self).access_adapters.counts@[i])),
            (overridden_heights is Volatile <==> old(self).continuation_enabled_spec())
                ==> r == Err::<(), MemoryError>(MemoryError::TraceHeightVariantMismatch),
            ((overridden_heights is Volatile <==> !old(self).continuation_enabled_spec())
                && overridden_heights.spec_access_adapters().len() != old(self).access_adapters.counts@.len())
                ==> r == Err::<(), MemoryError>(MemoryError::TraceHeightVariantMismatch),
            ((overridden_heights is Volatile <==> !old(self).continuation_enabled_spec())
                && overridden_heights.spec_access_adapters().len() == old(self).access_adapters.counts@.len()
                && (exists|i: int| 0 <= i < old(self).access_adapters.counts@.len()
                    && overridden_heights.spec_access_adapters()[i] < old(self).access_adapters.counts@[i]))
                ==> r == Err::<(), MemoryError>(MemoryError::AdapterOverrideTooSmall),
            r is Err ==> *final(self) == *old(self),
            r is Ok ==> (final(self).access_adapters.overridden matches Some(o)
                && o@ == overridden_heights.spec_access_adapters()),
            r is Ok ==> final(self).overridden_boundary == Some(overridden_heights.spec_boundary()),
            r is Ok ==> (overridden_heights matches crate::heights::MemoryTraceHeights::Persistent(oh)
                ==> final(self).overridden_merkle == Some(oh.merkle)),
            r is Ok ==> (overridden_heights is Volatile
                ==> final(self).overridden_merkle == old(self).overridden_merkle),
    {
        match (&self.interface_chip, overridden_heights) {
            (MemoryInterface::Volatile, crate::heights::MemoryTraceHeights::Volatile(oh)) => {
                let res = self.access_adapters.set_override_trace_heights(oh.access_adapters);
                match res {
                    Ok(()) => {
                        self.overridden_boundary = Some(oh.boundary);
                        Ok(())
                    },
                    Err(e) => Err(e),
                }
            },
            (MemoryInterface::Persistent { .. }, crate::heights::MemoryTraceHeights::Persistent(oh)) => {
                let res = self.access_adapters.set_override_trace_heights(oh.access_adapters);
                match res {
                    Ok(()) => {
                        self.overridden_boundary = Some(oh.boundary);
                        self.overridden_merkle = Some(oh.merkle);
                        Ok(())
                    },
                    Err(e) => Err(e),
                }
            },
            _ => Err(MemoryError::TraceHeightVariantMismatch),
        }
    }

    /// The handle other components use to argue their own memory accesses.
    pub fn memory_bridge(&self) -> (r: MemoryBridge)
        ensures
            r == (MemoryBridge {
                memory_bus: self.memory_bus,
                clk_max_bits: self.mem_config.clk_max_bits,
                range_bus: self.range_checker_bus,
            }),
    {
        MemoryBridge::new(self.memory_bus, self.mem_config.clk_max_bits, self.range_checker_bus)
    }

    pub fn timestamp(&self) -> (r: u32)
        ensures
            r == self.memory.timestamp,
    {
        self.memory.timestamp()
    }

    pub fn increment_timestamp(&mut self)
        requires
            old(self).wf(),
            old(self).memory.timestamp < u32::MAX,
        ensures
            final(self).wf(),
            final(self).memory.timestamp == old(self).memory.timestamp + 1,
            Memory::same_except_clock(old(self).memory, final(self).memory),
            same_except_memory(*old(self), *final(self)),
    {
        self.memory.increment_timestamp();
    }

    pub fn increment_timestamp_by(&mut self, change: u32)
        requires
            old(self).wf(),
            old(self).memory.timestamp + change <= u32::MAX,
            !old(self).finalized,
        ensures
            final(self).wf(),
            final(self).memory.timestamp == old(self).memory.timestamp + change,
            Memory::same_except_clock(old(self).memory, final(self).memory),
            same_except_memory(*old(self), *final(self)),
    {
        self.memory.increment_timestamp_by(change);
    }

    /// Advances the clock to exactly `timestamp`, which must not lie in
    /// the past.
    pub fn increase_timestamp_to(&mut self, timestamp: u32)
        requires
            old(self).wf(),
            old(self).memory.timestamp <= timestamp,
            !old(self).finalized,
        ensures
            final(self).wf(),
            final(self).memory.timestamp == timestamp,
            Memory::same_except_clock(old(self).memory, final(self).memory),
            same_except_memory(*old(self), *final(self)),
    {
        let now = self.memory.timestamp();
        self.memory.increment_timestamp_by(timestamp - now);
    }

    /// Reads a word directly from memory without records, clock ticks or
    /// adapter interaction; the result is not constrained by any proof.
    pub fn unsafe_read_cell(&self, addr_space: u32, ptr: u32) -> (r: u32)
        ensures
            r == self.val_of(addr_space, ptr),
    {
        self.memory.get(addr_space, ptr)
    }

    /// Reads `len` words directly from memory without updating any state.
    pub fn unsafe_read(&self, addr_space: u32, ptr: u32, len: usize) -> (r: Vec<u32>)
        requires
            ptr + len <= SPACE_SIZE,
        ensures
            r@.len() == len,
            forall|j: int| 0 <= j < len ==> r@[j] == self.memory.val_of(#[trigger] key_at(addr_space, ptr, j)),
    {
        let mut r: Vec<u32> = Vec::new();
        let mut i: usize = 0;
        while i < len
            invariant
                ptr + len <= SPACE_SIZE,
                i <= len,
                r@.len() == i,
                forall|j: int| 0 <= j < i ==> r@[j] == self.memory.val_of(#[trigger] key_at(addr_space, ptr, j)),
            decreases len - i,
        {
            proof {
                crate::addr::lemma_key_offset(addr_space, ptr, i as int);
            }
            r.push(self.memory.get(addr_space, ptr + (i as u32)));
            i += 1;
        }
        r
    }
}

/// The computed height, or the forced one when it is set and larger.
pub open spec fn spec_max_usize(computed: int, forced: Option<usize>) -> int {
    match forced {
        Some(f) => if f as int >= computed {
            f as int
        } else {
            computed
        },
        None => computed,
    }
}

/// Applies an optional forced height on top of a computed one.
fn apply_override(computed: usize, forced: &Option<usize>) -> (r: usize)
    ensures
        r == spec_max_usize(computed as int, *forced),
{
    match forced {
        Some(f) => if *f >= computed {
            *f
        } else {
            computed
        },
        None => computed,
    }
}

/// Everything but the store agrees between two controllers.
pub open spec fn same_except_memory(a: MemoryController, b: MemoryController) -> bool {
    &&& b.memory_bus == a.memory_bus
    &&& b.mem_config == a.mem_config
    &&& b.range_checker_bus == a.range_checker_bus
    &&& b.interface_chip == a.interface_chip
    &&& b.access_adapters == a.access_adapters
    &&& b.finalized == a.finalized
    &&& b.overridden_boundary == a.overridden_boundary
    &&& b.overridden_merkle == a.overridden_merkle
}

/// Everything but the store and the adapter record counts agrees; in
/// particular every height override is untouched.
pub open spec fn same_except_memory_and_adapters(a: MemoryController, b: MemoryController) -> bool {
    &&& b.memory_bus == a.memory_bus
    &&& b.mem_config == a.mem_config
    &&& b.range_checker_bus == a.range_checker_bus
    &&& b.interface_chip == a.interface_chip
    &&& b.finalized == a.finalized
    &&& b.overridden_boundary == a.overridden_boundary
    &&& b.overridden_merkle == a.overridden_merkle
    &&& AccessAdapterInventory::same_except_counts(a.access_adapters, b.access_adapters)
}

} // verus!
