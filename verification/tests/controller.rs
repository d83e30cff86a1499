use zkvm_memory::config::{DirectCompressionBus, MemoryBus, MemoryConfig, MemoryMerkleBus, VariableRangeCheckerBus};
use zkvm_memory::controller::MemoryController;
use zkvm_memory::equipartition::Equipartition;
use zkvm_memory::heights::{MemoryTraceHeights, PersistentMemoryTraceHeights, VolatileMemoryTraceHeights};
use zkvm_memory::records::MemoryError;
use rand::prelude::SliceRandom;
use rand::{thread_rng, Rng};

const MEMORY_BUS: usize = 1;
const RANGE_CHECKER_BUS: usize = 3;

fn volatile_controller() -> MemoryController {
    let memory_bus = MemoryBus(MEMORY_BUS);
    let memory_config = MemoryConfig::default();
    let range_bus = VariableRangeCheckerBus::new(RANGE_CHECKER_BUS, memory_config.decomp);
    MemoryController::with_volatile_memory(memory_bus, memory_config, range_bus)
}

fn persistent_controller(initial_memory: Equipartition) -> MemoryController {
    let memory_bus = MemoryBus(MEMORY_BUS);
    let memory_config = MemoryConfig::default();
    let range_bus = VariableRangeCheckerBus::new(RANGE_CHECKER_BUS, memory_config.decomp);
    MemoryController::with_persistent_memory(
        memory_bus,
        memory_config,
        range_bus,
        MemoryMerkleBus(12),
        DirectCompressionBus(13),
        initial_memory,
    )
}

#[test]
fn test_no_adapter_records_for_singleton_accesses() {
    let memory_bus = MemoryBus(MEMORY_BUS);
    let memory_config = MemoryConfig::default();
    let range_bus = VariableRangeCheckerBus::new(RANGE_CHECKER_BUS, memory_config.decomp);

    let mut memory_controller =
        MemoryController::with_volatile_memory(memory_bus, memory_config, range_bus);

    let mut rng = thread_rng();
    for _ in 0..1000 {
        let address_space = *[1u32, 2].choose(&mut rng).unwrap();
        let pointer = rng.gen_range(0..1u32 << memory_config.pointer_max_bits);

        if rng.gen_bool(0.5) {
            let data = rng.gen_range(0..1u32 << 30);
            memory_controller.write(address_space, pointer, vec![data]).unwrap();
        } else {
            memory_controller.read(address_space, pointer, 1).unwrap();
        }
    }
    assert!(memory_controller
        .access_adapters
        .get_heights()
        .iter()
        .all(|&h| h == 0));
}

#[test]
fn finalize_twice_fails_with_double_finalize() {
    let mut c = volatile_controller();
    c.write(1, 0, vec![7]).unwrap();
    let t = c.timestamp();
    let first = c.finalize();
    assert_eq!(first, Ok(None));
    // Finalization never moves the clock.
    assert_eq!(c.timestamp(), t);
    let second = c.finalize();
    assert_eq!(second, Err(MemoryError::DoubleFinalize));
}

#[test]
fn untouched_initial_chunks_stay_out_of_the_finalize_payload() {
    // A non-empty initial chunk that is never accessed is absent from the
    // returned equipartition: absent means "never touched", and its cells
    // keep their initial values rather than zero.
    let mut initial = Equipartition::new();
    initial.insert_block(1, 5, vec![9, 9, 9, 9, 9, 9, 9, 9], 8);
    let mut c = persistent_controller(initial);
    c.write(2, 0, vec![1, 2, 3, 4, 5, 6, 7, 8]).unwrap();
    assert_eq!(c.unsafe_read_cell(1, 40), 9);
    let eq = c.finalize().unwrap().expect("persistent finalize yields the final memory");
    assert_eq!(eq.len(), 1);
    assert!(eq.get(2, 0).is_some());
    assert!(eq.get(1, 5).is_none());
}

#[test]
fn address_space_zero_read_returns_the_pointer() {
    let mut c = volatile_controller();
    let t0 = c.timestamp();
    let rec = c.read(0, 7, 1).unwrap();
    assert_eq!(rec.data, vec![7]);
    assert_eq!(rec.prev_timestamp, 0);
    assert_eq!(rec.timestamp, t0);
    assert_eq!(c.timestamp(), t0 + 1);
    // The store itself was never touched.
    assert_eq!(c.unsafe_read_cell(0, 7), 0);
    // Batched reads and writes of the immediate space are refused.
    assert_eq!(c.read(0, 8, 2), Err(MemoryError::InvalidZeroAddressSpaceAccess));
    assert_eq!(c.write(0, 8, vec![1]), Err(MemoryError::InvalidZeroAddressSpaceAccess));
}

#[test]
fn out_of_bounds_accesses_fail() {
    let mut c = volatile_controller();
    let bound = 1u32 << c.mem_config.pointer_max_bits;
    assert_eq!(c.write(1, bound, vec![5]), Err(MemoryError::OutOfBounds));
    assert_eq!(c.read(1, bound, 1), Err(MemoryError::OutOfBounds));
    // Just below the bound both succeed.
    c.write(1, bound - 1, vec![5]).unwrap();
    let rec = c.read(1, bound - 1, 1).unwrap();
    assert_eq!(rec.data, vec![5]);
}

#[test]
fn write_then_read_ticks_the_clock_once_per_access() {
    let mut c = volatile_controller();
    let t0 = c.timestamp();
    c.write(1, 0, vec![5]).unwrap();
    let rec = c.read(1, 0, 1).unwrap();
    assert_eq!(rec.data, vec![5]);
    assert_eq!(c.timestamp(), t0 + 2);
}

#[test]
fn persistent_finalize_returns_exactly_the_touched_chunk() {
    let mut c = persistent_controller(Equipartition::new());
    c.write(1, 24, vec![1, 2, 3, 4, 5, 6, 7, 8]).unwrap();
    let eq = c.finalize().unwrap().expect("persistent finalize yields the final memory");
    assert_eq!(eq.len(), 1);
    let block = eq.get(1, 3).expect("chunk label 3 was written");
    assert_eq!(block, vec![1, 2, 3, 4, 5, 6, 7, 8]);
    assert!(eq.get(1, 2).is_none());
    assert!(eq.get(1, 4).is_none());
}

#[test]
fn set_initial_memory_rules() {
    // Volatile: only the empty memory may be set, and only before the
    // clock advances.
    let mut c = volatile_controller();
    assert_eq!(c.set_initial_memory(Equipartition::new()), Ok(()));
    let mut nonempty = Equipartition::new();
    nonempty.insert_block(1, 0, vec![9, 9, 9, 9, 9, 9, 9, 9], 8);
    assert_eq!(
        c.set_initial_memory(nonempty),
        Err(MemoryError::PrematureInitialMemorySet)
    );
    c.write(1, 0, vec![7]).unwrap();
    assert_eq!(
        c.set_initial_memory(Equipartition::new()),
        Err(MemoryError::PrematureInitialMemorySet)
    );

    // Persistent: the memory is replaced and the store rebuilt from it.
    let mut p = persistent_controller(Equipartition::new());
    let mut image = Equipartition::new();
    image.insert_block(1, 2, vec![1, 2, 3, 4, 5, 6, 7, 8], 8);
    assert_eq!(p.set_initial_memory(image), Ok(()));
    assert_eq!(p.unsafe_read_cell(1, 16), 1);
    assert_eq!(p.unsafe_read_cell(1, 23), 8);
    assert_eq!(p.unsafe_read(1, 16, 8), vec![1, 2, 3, 4, 5, 6, 7, 8]);
}

#[test]
fn adapter_height_overrides_are_checked() {
    let mut c = volatile_controller();
    // A full-chunk style access of 8 cells splits nothing with granularity 1:
    // it merges eight single cells, so adapter records do appear.
    c.write(1, 0, vec![1, 2, 3, 4, 5, 6, 7, 8]).unwrap();
    let heights = c.access_adapters.get_heights();
    assert_eq!(heights.len(), 3);
    assert!(heights.iter().any(|&h| h > 0));
    // Wrong shape.
    assert_eq!(
        c.access_adapters.set_override_trace_heights(vec![0, 0]),
        Err(MemoryError::TraceHeightVariantMismatch)
    );
    // Smaller than what is recorded.
    assert_eq!(
        c.access_adapters.set_override_trace_heights(vec![0, 0, 0]),
        Err(MemoryError::AdapterOverrideTooSmall)
    );
    // Large enough heights are accepted and reported.
    assert_eq!(
        c.access_adapters.set_override_trace_heights(vec![16, 16, 16]),
        Ok(())
    );
    assert_eq!(c.access_adapters.get_heights(), vec![16, 16, 16]);
}

#[test]
fn continuation_flag_and_bridge() {
    let c = volatile_controller();
    assert!(!c.continuation_enabled());
    let p = persistent_controller(Equipartition::new());
    assert!(p.continuation_enabled());
    let bridge = c.memory_bridge();
    assert_eq!(bridge.memory_bus, MemoryBus(MEMORY_BUS));
    assert_eq!(bridge.clk_max_bits, c.mem_config.clk_max_bits);
}

#[test]
fn trace_shape_accessors() {
    let mut c = volatile_controller();
    assert_eq!(c.num_airs(), 4);
    assert_eq!(c.current_trace_heights(), vec![0, 0, 0, 0]);
    c.write(1, 5, vec![7]).unwrap();
    c.read(1, 6, 1).unwrap();
    // Two touched addresses, no adapter activity.
    assert_eq!(c.current_trace_heights(), vec![2, 0, 0, 0]);
    // The persistent shape is refused on a volatile controller.
    let wrong = MemoryTraceHeights::Persistent(PersistentMemoryTraceHeights {
        boundary: 8,
        merkle: 8,
        access_adapters: vec![0, 0, 0],
    });
    assert_eq!(
        c.set_override_trace_heights(wrong),
        Err(MemoryError::TraceHeightVariantMismatch)
    );
    let right = MemoryTraceHeights::Volatile(VolatileMemoryTraceHeights {
        boundary: 8,
        access_adapters: vec![4, 4, 4],
    });
    assert_eq!(c.set_override_trace_heights(right), Ok(()));
    assert_eq!(c.current_trace_heights(), vec![8, 4, 4, 4]);

    let mut p = persistent_controller(Equipartition::new());
    assert_eq!(p.num_airs(), 5);
    p.write(1, 24, vec![1, 2, 3, 4, 5, 6, 7, 8]).unwrap();
    // One touched chunk: two boundary rows and two Merkle rows.
    assert_eq!(p.current_trace_heights(), vec![2, 2, 0, 0, 0]);
    let dummy = p.get_dummy_memory_trace_heights();
    assert_eq!(dummy.flatten(), vec![1, 1, 1, 1, 1]);
}
