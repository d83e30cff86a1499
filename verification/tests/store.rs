use zkvm_memory::equipartition::{memory_image_to_equipartition, Equipartition, MemoryImage};
use zkvm_memory::heights::{next_power_of_two_or_zero, MemoryTraceHeights, VolatileMemoryTraceHeights};
use zkvm_memory::memory::{Memory, INITIAL_TIMESTAMP};
use rand::Rng;

fn empty_store(initial_block_len: u32) -> Memory {
    let initial = Equipartition::new();
    Memory::new(&initial, initial_block_len, 8)
}

#[test]
fn write_then_read_returns_written_data_and_ticks_clock_twice() {
    let mut mem = empty_store(1);
    let t0 = mem.timestamp();
    let (w, wrecs) = mem.write(1, 0, vec![5]);
    let (r, rrecs) = mem.read(1, 0, 1);
    assert_eq!(r.data, vec![5]);
    assert_eq!(mem.timestamp(), t0 + 2);
    assert!(w.prev_timestamp < w.timestamp);
    assert!(r.prev_timestamp < r.timestamp);
    assert_eq!(r.prev_timestamp, w.timestamp);
    assert!(wrecs.is_empty());
    assert!(rrecs.is_empty());
}

#[test]
fn read_of_untouched_cell_is_zero_with_initial_prev_timestamp() {
    let mut mem = empty_store(1);
    let (r, recs) = mem.read(2, 1234, 1);
    assert_eq!(r.data, vec![0]);
    assert_eq!(r.prev_timestamp, INITIAL_TIMESTAMP);
    assert!(recs.is_empty());
}

#[test]
fn last_write_wins() {
    let mut mem = empty_store(1);
    mem.write(1, 7, vec![10]);
    mem.write(1, 7, vec![11]);
    mem.write(1, 8, vec![99]);
    let (r, _) = mem.read(1, 7, 1);
    assert_eq!(r.data, vec![11]);
    assert_eq!(mem.get(1, 7), 11);
    assert_eq!(mem.get(1, 8), 99);
}

#[test]
fn singleton_accesses_make_no_adapter_records() {
    // With minimal granularity 1, single-cell accesses never split or merge.
    let mut mem = empty_store(1);
    let mut rng = rand::thread_rng();
    for _ in 0..1000 {
        let address_space = if rng.gen_bool(0.5) { 1 } else { 2 };
        let pointer = rng.gen_range(0..1u32 << 29);
        if rng.gen_bool(0.5) {
            let data = rng.gen_range(0..1u32 << 30);
            let (_, recs) = mem.write(address_space, pointer, vec![data]);
            assert!(recs.is_empty());
        } else {
            let (_, recs) = mem.read(address_space, pointer, 1);
            assert!(recs.is_empty());
        }
    }
}

#[test]
fn clock_only_increases() {
    let mut mem = empty_store(1);
    let mut last = mem.timestamp();
    for i in 0..20 {
        if i % 3 == 0 {
            mem.write(1, i, vec![i]);
        } else {
            mem.read(1, i, 1);
        }
        let now = mem.timestamp();
        assert!(now > last);
        last = now;
    }
    mem.increment_timestamp();
    assert_eq!(mem.timestamp(), last + 1);
    mem.increment_timestamp_by(5);
    assert_eq!(mem.timestamp(), last + 6);
}

#[test]
fn splitting_a_chunk_emits_adapter_records_down_to_single_cells() {
    // Persistent-style granularity: chunks of 8, split 8 -> 4 -> 2 -> 1.
    let mut mem = empty_store(8);
    let (w, wrecs) = mem.write(1, 24, vec![1, 2, 3, 4, 5, 6, 7, 8]);
    // A chunk-aligned, chunk-sized first access needs no reconciliation.
    assert!(wrecs.is_empty());
    assert_eq!(w.prev_data, vec![0; 8]);
    let (r, rrecs) = mem.read(1, 24, 1);
    assert_eq!(r.data, vec![1]);
    // The 8-block is split into 4, 4 -> one of the 4s into 2, 2 -> one 2 into 1, 1.
    assert_eq!(rrecs.len(), 3);
    assert_eq!(rrecs[0].data.len(), 8);
    assert_eq!(rrecs[1].data.len(), 4);
    assert_eq!(rrecs[2].data.len(), 2);
    for rec in &rrecs {
        assert_eq!(rec.address_space, 1);
    }
    // Reading the full chunk again merges everything back: three merges.
    let (r2, rrecs2) = mem.read(1, 24, 8);
    assert_eq!(r2.data, vec![1, 2, 3, 4, 5, 6, 7, 8]);
    assert_eq!(rrecs2.len(), 3);
}

#[test]
fn finalize_returns_exactly_the_touched_chunks() {
    let mut mem = empty_store(8);
    mem.write(1, 24, vec![1, 2, 3, 4, 5, 6, 7, 8]);
    let (teq, recs) = mem.finalize(8);
    assert_eq!(teq.len(), 1);
    let entry = teq.get(1, 3).expect("chunk label 3 must be present");
    assert_eq!(entry.values, vec![1, 2, 3, 4, 5, 6, 7, 8]);
    assert_eq!(entry.timestamp, 1);
    assert!(teq.get(1, 2).is_none());
    assert!(teq.get(1, 4).is_none());
    assert!(teq.get(2, 3).is_none());
    assert!(recs.is_empty());
}

#[test]
fn finalize_to_single_cells_lists_every_touched_address() {
    let mut mem = empty_store(1);
    mem.write(1, 5, vec![50]);
    mem.write(2, 0, vec![60]);
    let (teq, recs) = mem.finalize(1);
    assert_eq!(teq.len(), 2);
    let a = teq.get(1, 5).expect("touched address");
    assert_eq!(a.values, vec![50]);
    let b = teq.get(2, 0).expect("touched address");
    assert_eq!(b.values, vec![60]);
    assert!(teq.get(1, 6).is_none());
    assert!(recs.is_empty());
}

#[test]
fn image_to_equipartition_round_trip() {
    // Chunking an image and reading back block[ptr % n] at label ptr / n
    // recovers the image exactly, for several n.
    let mut image = MemoryImage::new();
    image.insert(1, 0, 101);
    image.insert(1, 7, 107);
    image.insert(1, 8, 108);
    image.insert(2, 3, 203);
    for n in [1usize, 2, 4, 8] {
        let part = memory_image_to_equipartition(&image, n);
        for (sp, ptr, v) in [(1u32, 0u32, 101u32), (1, 7, 107), (1, 8, 108), (2, 3, 203)] {
            let label = ptr / n as u32;
            let shift = (ptr % n as u32) as usize;
            let block = part.get(sp, label).expect("stored cell lands in a block");
            assert_eq!(block[shift], v);
        }
        // An address never written reads back zero.
        let untouched = part.get(3, 0);
        assert!(untouched.is_none());
    }
}

#[test]
fn persistent_initial_memory_is_visible_and_finalized() {
    let mut image = MemoryImage::new();
    for i in 0..8u32 {
        image.insert(1, 16 + i, i + 1);
    }
    let initial = memory_image_to_equipartition(&image, 8);
    let mut mem = Memory::new(&initial, 8, 8);
    assert_eq!(mem.get(1, 16), 1);
    assert_eq!(mem.get(1, 23), 8);
    assert_eq!(mem.get(1, 24), 0);
    let (r, _) = mem.read(1, 16, 8);
    assert_eq!(r.data, vec![1, 2, 3, 4, 5, 6, 7, 8]);
    assert_eq!(r.prev_timestamp, INITIAL_TIMESTAMP);
    let (teq, _) = mem.finalize(8);
    assert_eq!(teq.len(), 1);
    let entry = teq.get(1, 2).expect("label 2 holds pointers 16..24");
    assert_eq!(entry.values, vec![1, 2, 3, 4, 5, 6, 7, 8]);
}

#[test]
fn trace_heights_round_to_powers_of_two() {
    let mut h = VolatileMemoryTraceHeights { boundary: 3, access_adapters: vec![0, 5, 16] };
    assert_eq!(h.flatten(), vec![3, 0, 5, 16]);
    h.round_to_next_power_of_two();
    assert_eq!(h.flatten(), vec![4, 1, 8, 16]);
    let mut h2 = MemoryTraceHeights::Volatile(VolatileMemoryTraceHeights {
        boundary: 0,
        access_adapters: vec![6],
    });
    h2.round_to_next_power_of_two_or_zero();
    assert_eq!(h2.flatten(), vec![0, 8]);
    assert_eq!(next_power_of_two_or_zero(0), 0);
    assert_eq!(next_power_of_two_or_zero(9), 16);
}
