use vstd::prelude::*;
use std::collections::BTreeMap;
use crate::addr::{addr_key, key_at, key_sp, key_ptr, is_power_of_two, SPACE_SIZE,
    lemma_key_decompose, lemma_key_offset, make_key};
use crate::equipartition::{Equipartition, TimestampedEquipartition};
use crate::records::{AccessAdapterRecord, AccessAdapterRecordKind, MemoryReadRecord, MemoryWriteRecord};

verus! {

/// The timestamp the store starts at; cells never accessed carry it.
pub const INITIAL_TIMESTAMP: u32 = 0;

/// The block a cell belongs to: its starting pointer, its size, and the
/// logical time of its last access.
#[derive(Clone, Copy, Debug, PartialEq, Eq, Structural)]
pub struct BlockRec {
    pub start: u32,
    pub len: u32,
    pub ts: u32,
}

/// The authoritative store: values and block bookkeeping per address, and
/// the global logical clock.
///
/// Cells are grouped into blocks whose size is a power of two.  An address
/// never touched belongs to no block; the first access materializes its
/// enclosing `initial_block_len`-sized chunk, and every block is thereafter
/// split or merged so each access sees one block of exactly its own size.
pub struct Memory {
    /// The logical clock; starts at `INITIAL_TIMESTAMP + 1`.
    pub timestamp: u32,
    /// Values of cells ever written or loaded; absent cells are zero.
    pub vals: BTreeMap<u64, u32>,
    /// Block bookkeeping for every cell of every touched block.
    pub blocks: BTreeMap<u64, BlockRec>,
    /// The chunks materialized so far, in first-touch order, no duplicates.
    pub touched_chunks: Vec<u64>,
    /// Size of a default (never-touched) block.
    pub initial_block_len: u32,
    /// Largest block size the adapters can prove a split or merge for.
    pub max_block_len: u32,
}

impl Memory {
    pub open spec fn covered(self, k: u64) -> bool {
        self.blocks@.contains_key(k)
    }

    pub open spec fn block_at(self, k: u64) -> BlockRec {
        self.blocks@[k]
    }

    /// The logical time the cell was last part of an access.
    pub open spec fn ts_of(self, k: u64) -> u32 {
        if self.covered(k) {
            self.block_at(k).ts
        } else {
            INITIAL_TIMESTAMP
        }
    }

    /// The current value of a cell; zero if never written or loaded.
    pub open spec fn val_of(self, k: u64) -> u32 {
        if self.vals@.contains_key(k) {
            self.vals@[k]
        } else {
            0
        }
    }

    /// The key of the first cell of the block containing `k`.
    pub open spec fn block_base(self, k: u64) -> u64 {
        ((k - key_ptr(k)) + self.block_at(k).start) as u64
    }

    /// The key of the first cell of the default chunk containing `k`.
    pub open spec fn chunk_of(self, k: u64) -> u64 {
        (k - (key_ptr(k) % (self.initial_block_len as u64))) as u64
    }

    pub open spec fn inv_basic(self) -> bool {
        &&& INITIAL_TIMESTAMP < self.timestamp
        &&& is_power_of_two(self.initial_block_len as int)
        &&& 1 <= self.initial_block_len <= 32
        &&& is_power_of_two(self.max_block_len as int)
        &&& 2 <= self.max_block_len <= 32
        &&& self.initial_block_len <= self.max_block_len
    }

    /// The cell `k` carries a well-formed block, and every cell of that
    /// block carries the same one.
    pub open spec fn block_ok(self, k: u64) -> bool {
        let b = self.block_at(k);
        &&& is_power_of_two(b.len as int)
        &&& 1 <= b.len <= self.max_block_len
        &&& b.start <= key_ptr(k) < b.start + b.len
        &&& b.start + b.len <= SPACE_SIZE
        &&& b.ts < self.timestamp
        &&& key_sp(k) < SPACE_SIZE
        &&& forall|j: u64| self.block_base(k) <= j < self.block_base(k) + b.len
            ==> #[trigger] self.blocks@.contains_key(j) && self.blocks@[j] == b
    }

    pub open spec fn inv_blocks(self) -> bool {
        forall|k: u64| #[trigger] self.blocks@.contains_key(k) ==> self.block_ok(k)
    }

    /// The chunk starting at `c` is fully covered and aligned.
    pub open spec fn chunk_ok(self, c: u64) -> bool {
        &&& key_ptr(c) % (self.initial_block_len as u64) == 0
        &&& key_ptr(c) + self.initial_block_len <= SPACE_SIZE
        &&& key_sp(c) < SPACE_SIZE
        &&& forall|j: u64| c <= j < c + self.initial_block_len ==> #[trigger] self.blocks@.contains_key(j)
    }

    pub open spec fn inv_chunks(self) -> bool {
        &&& forall|i: int| 0 <= i < self.touched_chunks@.len() ==> self.chunk_ok(#[trigger] self.touched_chunks@[i])
        &&& forall|i: int, j: int| 0 <= i < j < self.touched_chunks@.len()
            ==> self.touched_chunks@[i] != self.touched_chunks@[j]
        &&& forall|k: u64| #[trigger] self.blocks@.contains_key(k) ==> self.touched_chunks@.contains(self.chunk_of(k))
    }

    pub open spec fn inv(self) -> bool {
        &&& self.inv_basic()
        &&& self.inv_blocks()
        &&& self.inv_chunks()
    }

    /// Everything but the clock agrees.
    pub open spec fn same_except_clock(a: Memory, b: Memory) -> bool {
        &&& b.vals@ == a.vals@
        &&& b.blocks@ == a.blocks@
        &&& b.touched_chunks@ == a.touched_chunks@
        &&& b.initial_block_len == a.initial_block_len
        &&& b.max_block_len == a.max_block_len
    }

    /// The greatest last-access time among the `n` cells from `base`.
    pub open spec fn max_ts_in(self, base: u64, n: int) -> u32
        decreases n,
    {
        if n <= 0 {
            INITIAL_TIMESTAMP
        } else {
            let m = self.max_ts_in(base, n - 1);
            let t = self.ts_of((base + n - 1) as u64);
            if t > m {
                t
            } else {
                m
            }
        }
    }

    pub fn timestamp(&self) -> (r: u32)
        ensures
            r == self.timestamp,
    {
        self.timestamp
    }

    /// Advances the clock without an access.
    pub fn increment_timestamp(&mut self)
        requires
            old(self).timestamp < u32::MAX,
        ensures
            final(self).timestamp == old(self).timestamp + 1,
            Memory::same_except_clock(*old(self), *final(self)),
            old(self).inv() ==> final(self).inv(),
    {
        proof {
            lemma_inv_clock_advance(*self, (self.timestamp + 1) as u32);
        }
        self.timestamp = self.timestamp + 1;
    }

    /// Advances the clock by `delta` without an access.
    pub fn increment_timestamp_by(&mut self, delta: u32)
        requires
            old(self).timestamp + delta <= u32::MAX,
        ensures
            final(self).timestamp == old(self).timestamp + delta,
            Memory::same_except_clock(*old(self), *final(self)),
            old(self).inv() ==> final(self).inv(),
    {
        proof {
            lemma_inv_clock_advance(*self, (self.timestamp + delta) as u32);
        }
        self.timestamp = self.timestamp + delta;
    }

    /// A pure lookup: the current value at `(sp, ptr)`; never mutates and
    /// never advances the clock.
    pub fn get(&self, sp: u32, ptr: u32) -> (r: u32)
        ensures
            r == self.val_of(addr_key(sp, ptr)),
    {
        let k = make_key(sp, ptr);
        match self.vals.get(&k) {
            Some(v) => *v,
            None => 0,
        }
    }

    /// The current values of the `n` cells from `(sp, ptr)`.
    fn read_range_vals(&self, sp: u32, ptr: u32, n: u32) -> (r: Vec<u32>)
        requires
            ptr + n <= SPACE_SIZE,
        ensures
            r@.len() == n,
            forall|i: int| 0 <= i < n ==> r@[i] == self.val_of(#[trigger] key_at(sp, ptr, i)),
    {
        let mut r: Vec<u32> = Vec::new();
        let mut i: u32 = 0;
        while i < n
            invariant
                ptr + n <= SPACE_SIZE,
                i <= n,
                r@.len() == i,
                forall|j: int| 0 <= j < i ==> r@[j] == self.val_of(#[trigger] key_at(sp, ptr, j)),
            decreases n - i,
        {
            proof {
                lemma_key_offset(sp, ptr, i as int);
            }
            let k = make_key(sp, ptr + i);
            let v = match self.vals.get(&k) {
                Some(v) => *v,
                None => 0,
            };
            r.push(v);
            i += 1;
        }
        r
    }

    /// Marks the `b.len` cells from `(sp, start)` as forming the block `b`.
    fn write_block_range(&mut self, sp: u32, start: u32, b: BlockRec)
        requires
            b.start == start,
            start + b.len <= SPACE_SIZE,
        ensures
            forall|j: int| 0 <= j < b.len ==> final(self).blocks@.contains_key(#[trigger] key_at(sp, start, j))
                && final(self).blocks@[key_at(sp, start, j)] == b,
            forall|k: u64| !(addr_key(sp, start) <= k < addr_key(sp, start) + b.len) ==> (
                #[trigger] final(self).blocks@.contains_key(k) == old(self).blocks@.contains_key(k)
                && (old(self).blocks@.contains_key(k) ==> final(self).blocks@[k] == old(self).blocks@[k])
            ),
            final(self).vals@ == old(self).vals@,
            final(self).timestamp == old(self).timestamp,
            final(self).touched_chunks@ == old(self).touched_chunks@,
            final(self).initial_block_len == old(self).initial_block_len,
            final(self).max_block_len == old(self).max_block_len,
    {
        let mut i: u32 = 0;
        while i < b.len
            invariant
                b.start == start,
                start + b.len <= SPACE_SIZE,
                i <= b.len,
                forall|j: int| 0 <= j < i ==> self.blocks@.contains_key(#[trigger] key_at(sp, start, j))
                    && self.blocks@[key_at(sp, start, j)] == b,
                forall|k: u64| !(addr_key(sp, start) <= k < addr_key(sp, start) + b.len) ==> (
                    #[trigger] self.blocks@.contains_key(k) == old(self).blocks@.contains_key(k)
                    && (old(self).blocks@.contains_key(k) ==> self.blocks@[k] == old(self).blocks@[k])
                ),
                self.vals@ == old(self).vals@,
                self.timestamp == old(self).timestamp,
                self.touched_chunks@ == old(self).touched_chunks@,
                self.initial_block_len == old(self).initial_block_len,
                self.max_block_len == old(self).max_block_len,
            decreases b.len - i,
        {
            proof {
                lemma_key_offset(sp, start, i as int);
            }
            let k = make_key(sp, start + i);
            self.blocks.insert(k, b);
            i += 1;
        }
    }



    /// A store loaded from an initial equipartition with blocks of
    /// `initial_block_len` values: every stored cell carries its value, the
    /// clock starts just after the initial timestamp, and no block
    /// bookkeeping exists yet.
    #[verifier::rlimit(100)]
    #[verifier::spinoff_prover]
    pub fn new(initial: &Equipartition, initial_block_len: u32, max_block_len: u32) -> (r: Memory)
        requires
            initial.wf(initial_block_len as int),
            is_power_of_two(initial_block_len as int),
            1 <= initial_block_len <= 32,
            is_power_of_two(max_block_len as int),
            2 <= max_block_len <= 32,
            initial_block_len <= max_block_len,
            forall|i: int| 0 <= i < initial.pairs().len()
                ==> (key_ptr(#[trigger] initial.pairs()[i].0) + 1) * initial_block_len <= SPACE_SIZE,
        ensures
            r.inv(),
            r.timestamp == INITIAL_TIMESTAMP + 1,
            r.initial_block_len == initial_block_len,
            r.max_block_len == max_block_len,
            r.blocks@ == Map::<u64, BlockRec>::empty(),
            r.touched_chunks@.len() == 0,
            forall|k: u64| !r.covered(k),
            forall|sp: u32, ptr: u32| r.val_of(#[trigger] addr_key(sp, ptr))
                == initial.cell_val(initial_block_len as int, sp, ptr),
    {
        let g = initial_block_len;
        let mut r = Memory {
            timestamp: INITIAL_TIMESTAMP + 1,
            vals: BTreeMap::new(),
            blocks: BTreeMap::new(),
            touched_chunks: Vec::new(),
            initial_block_len,
            max_block_len,
        };
        let mut i: usize = 0;
        proof {
            assert forall|sp: u32, ptr: u32| r.val_of(#[trigger] addr_key(sp, ptr))
                == part_prefix_val(*initial, g as int, 0, sp, ptr) by {
                assert(initial.pairs().take(0) =~= Seq::<(u64, Seq<u32>)>::empty());
            }
        }
        while i < initial.len()
            invariant
                initial.wf(g as int),
                1 <= g <= 32,
                forall|i2: int| 0 <= i2 < initial.pairs().len()
                    ==> (key_ptr(#[trigger] initial.pairs()[i2].0) + 1) * g <= SPACE_SIZE,
                i <= initial.pairs().len(),
                r.timestamp == INITIAL_TIMESTAMP + 1,
                r.initial_block_len == initial_block_len,
                r.max_block_len == max_block_len,
                g == initial_block_len,
                r.blocks@ == Map::<u64, BlockRec>::empty(),
                r.touched_chunks@.len() == 0,
                forall|sp: u32, ptr: u32| r.val_of(#[trigger] addr_key(sp, ptr))
                    == part_prefix_val(*initial, g as int, i as int, sp, ptr),
            decreases initial.pairs().len() - i,
        {
            let lk = initial.key_at(i);
            let (sp, label) = crate::addr::split_key(lk);
            proof {
                assert((label as int + 1) * (g as int) <= SPACE_SIZE);
                assert((label as int) * (g as int) + g <= SPACE_SIZE) by (nonlinear_arith)
                    requires (label as int + 1) * (g as int) <= SPACE_SIZE, 1 <= g;
                assert((label as int) * (g as int) >= 0) by (nonlinear_arith)
                    requires 0 <= label as int, 1 <= g;
            }
            let base: u32 = ((label as u64) * (g as u64)) as u32;
            let ghost r0 = r;
            let mut shift: u32 = 0;
            while shift < g
                invariant
                    initial.wf(g as int),
                    1 <= g <= 32,
                    i < initial.pairs().len(),
                    shift <= g,
                    lk == initial.pairs()[i as int].0,
                    sp == key_sp(lk),
                    label == key_ptr(lk),
                    base == (label as int) * (g as int),
                    base + g <= SPACE_SIZE,
                    r.timestamp == r0.timestamp,
                    r.blocks@ == r0.blocks@,
                    r.touched_chunks@ == r0.touched_chunks@,
                    r.initial_block_len == r0.initial_block_len,
                    r.max_block_len == r0.max_block_len,
                    forall|j: int| 0 <= j < shift ==> r.val_of(#[trigger] key_at(sp, base, j))
                        == initial.pairs()[i as int].1[j],
                    forall|k: u64| !(addr_key(sp, base) <= k < addr_key(sp, base) + shift) ==> (
                        #[trigger] r.vals@.contains_key(k) == r0.vals@.contains_key(k)
                        && (r0.vals@.contains_key(k) ==> r.vals@[k] == r0.vals@[k])
                    ),
                decreases g - shift,
            {
                proof {
                    lemma_key_offset(sp, base, shift as int);
                }
                let k = make_key(sp, base + shift);
                let v = initial.cell_at(i, shift as usize);
                r.vals.insert(k, v);
                shift += 1;
            }
            proof {
                lemma_load_step(r0, r, *initial, g as int, i as int, sp, label, base);
            }
            i += 1;
        }
        proof {
            assert(initial.pairs().take(initial.pairs().len() as int) =~= initial.pairs());
            assert forall|sp: u32, ptr: u32| r.val_of(#[trigger] addr_key(sp, ptr))
                == initial.cell_val(g as int, sp, ptr) by {
                assert(r.val_of(addr_key(sp, ptr)) == part_prefix_val(*initial, g as int, initial.pairs().len() as int, sp, ptr));
            }
            assert forall|k: u64| !r.covered(k) by {
                assert(!r.blocks@.contains_key(k));
            }
            assert(r.inv()) by {
                assert forall|k: u64| #[trigger] r.blocks@.contains_key(k) implies r.block_ok(k) by {
                    assert(false);
                }
            }
        }
        r
    }


    /// The labels of every `n`-sized region holding at least one touched
    /// cell, each exactly once, in first-touch order.
    #[verifier::rlimit(100)]
    #[verifier::spinoff_prover]
    fn collect_regions(&self, n: u32) -> (regions: Vec<u64>)
        requires
            self.inv(),
            is_power_of_two(n as int),
            1 <= n <= self.max_block_len,
        ensures
            forall|i: int, j: int| 0 <= i < j < regions@.len() ==> regions@[i] != regions@[j],
            forall|i: int| 0 <= i < regions@.len() ==> region_wf(*self, #[trigger] regions@[i], n as int),
            forall|k: u64| #[trigger] self.covered(k) ==> regions@.contains(region_key(k, n as int)),
    {
        let ghost m0 = *self;
        let g = self.initial_block_len;
        let q: u32 = if n >= g {
            1
        } else {
            g / n
        };
        proof {
            crate::addr::lemma_small_pow2(n as int);
            crate::addr::lemma_small_pow2(g as int);
            if n < g {
                crate::addr::lemma_pow2_le(n as int, g as int);
                assert((g as int) % (n as int) == 0) by {
                    crate::addr::lemma_small_pow2(n as int);
                    crate::addr::lemma_small_pow2(g as int);
                }
            }
        }
        let mut seen: BTreeMap<u64, u8> = BTreeMap::new();
        let mut regions: Vec<u64> = Vec::new();
        let mut i: usize = 0;
        while i < self.touched_chunks.len()
            invariant
                self.inv(),
                *self == m0,
                is_power_of_two(n as int),
                1 <= n <= self.max_block_len,
                g == self.initial_block_len,
                q == (if n >= g { 1int } else { g as int / n as int }),
                n < g ==> (g as int) % (n as int) == 0,
                i <= self.touched_chunks@.len(),
                forall|lk: u64| #[trigger] seen@.contains_key(lk) <==> regions@.contains(lk),
                forall|i2: int, j2: int| 0 <= i2 < j2 < regions@.len() ==> regions@[i2] != regions@[j2],
                forall|i2: int| 0 <= i2 < regions@.len() ==> region_wf(m0, #[trigger] regions@[i2], n as int),
                forall|i2: int, k: u64| #![trigger m0.touched_chunks@[i2], region_key(k, n as int)]
                    0 <= i2 < i && m0.covered(k) && m0.chunk_of(k) == m0.touched_chunks@[i2]
                    ==> regions@.contains(region_key(k, n as int)),
            decreases self.touched_chunks@.len() - i,
        {
            let c = self.touched_chunks[i];
            proof {
                assert(self.chunk_ok(self.touched_chunks@[i as int]));
            }
            let (sp, cptr) = crate::addr::split_key(c);
            let base_label: u32 = cptr / n;
            let mut t: u32 = 0;
            while t < q
                invariant
                    self.inv(),
                    *self == m0,
                    is_power_of_two(n as int),
                    1 <= n <= self.max_block_len,
                    g == self.initial_block_len,
                    q == (if n >= g { 1int } else { g as int / n as int }),
                    n < g ==> (g as int) % (n as int) == 0,
                    i < self.touched_chunks@.len(),
                    c == self.touched_chunks@[i as int],
                    self.chunk_ok(c),
                    sp == key_sp(c),
                    cptr == key_ptr(c),
                    base_label == cptr as int / n as int,
                    t <= q,
                    forall|lk: u64| #[trigger] seen@.contains_key(lk) <==> regions@.contains(lk),
                    forall|i2: int, j2: int| 0 <= i2 < j2 < regions@.len() ==> regions@[i2] != regions@[j2],
                    forall|i2: int| 0 <= i2 < regions@.len() ==> region_wf(m0, #[trigger] regions@[i2], n as int),
                    forall|i2: int, k: u64| #![trigger m0.touched_chunks@[i2], region_key(k, n as int)]
                        0 <= i2 < i && m0.covered(k) && m0.chunk_of(k) == m0.touched_chunks@[i2]
                        ==> regions@.contains(region_key(k, n as int)),
                    forall|t2: int| 0 <= t2 < t ==> regions@.contains(
                        #[trigger] addr_key(sp, (base_label + t2) as u32),
                    ),
                decreases q - t,
            {
                proof {
                    lemma_chunk_label_wf(m0, c, sp, cptr, n as int, g, base_label, t as int, q as int);
                }
                let label: u32 = base_label + t;
                let lk = make_key(sp, label);
                if !seen.contains_key(&lk) {
                    seen.insert(lk, 1);
                    let ghost rs = regions@;
                    regions.push(lk);
                    proof {
                        assert forall|lk2: u64| #[trigger] seen@.contains_key(lk2) <==> regions@.contains(lk2) by {
                            if seen@.contains_key(lk2) {
                                if lk2 == lk {
                                    assert(regions@[rs.len() as int] == lk);
                                } else {
                                    assert(rs.contains(lk2));
                                    let x = choose|x: int| 0 <= x < rs.len() && rs[x] == lk2;
                                    assert(regions@[x] == lk2);
                                }
                            } else {
                                if regions@.contains(lk2) {
                                    let x = choose|x: int| 0 <= x < regions@.len() && regions@[x] == lk2;
                                    if x < rs.len() {
                                        assert(rs[x] == lk2);
                                    }
                                }
                            }
                        }
                        assert forall|i2: int, j2: int| 0 <= i2 < j2 < regions@.len()
                            implies regions@[i2] != regions@[j2] by {
                            if j2 == rs.len() {
                                if regions@[i2] == lk {
                                    assert(rs.contains(lk));
                                }
                            }
                        }
                        assert forall|t2: int| 0 <= t2 < t + 1 implies regions@.contains(
                            #[trigger] addr_key(sp, (base_label + t2) as u32),
                        ) by {
                            if t2 < t {
                                let x = choose|x: int| 0 <= x < rs.len() && rs[x] == addr_key(sp, (base_label + t2) as u32);
                                assert(regions@[x] == addr_key(sp, (base_label + t2) as u32));
                            } else {
                                assert(regions@[rs.len() as int] == lk);
                            }
                        }
                        assert forall|i2: int, k: u64| #![trigger m0.touched_chunks@[i2], region_key(k, n as int)]
                            0 <= i2 < i && m0.covered(k) && m0.chunk_of(k) == m0.touched_chunks@[i2]
                            implies regions@.contains(region_key(k, n as int)) by {
                            assert(rs.contains(region_key(k, n as int)));
                            let x = choose|x: int| 0 <= x < rs.len() && rs[x] == region_key(k, n as int);
                            assert(regions@[x] == region_key(k, n as int));
                        }
                    }
                } else {
                    proof {
                        assert(regions@.contains(lk));
                    }
                }
                t += 1;
            }
            proof {
                lemma_chunk_regions_complete(m0, c, sp, cptr, n as int, g, base_label, q as int, regions@, i as int);
            }
            i += 1;
        }
        proof {
            assert forall|k: u64| #[trigger] m0.covered(k) implies regions@.contains(region_key(k, n as int)) by {
                assert(m0.touched_chunks@.contains(m0.chunk_of(k)));
                let i2 = choose|i2: int| 0 <= i2 < m0.touched_chunks@.len() && m0.touched_chunks@[i2] == m0.chunk_of(k);
            }
        }
        regions
    }


    /// Reconciles all touched blocks to uniform `n`-sized, label-aligned
    /// blocks and returns the final memory as a timestamped equipartition:
    /// one entry per region ever touched, holding the values and greatest
    /// last-access time the store recorded, together with the minimal
    /// adapter evidence of the reconciliation.
    #[verifier::rlimit(100)]
    #[verifier::spinoff_prover]
    pub fn finalize(&mut self, n: u32) -> (r: (TimestampedEquipartition, Vec<AccessAdapterRecord>))
        requires
            old(self).inv(),
            is_power_of_two(n as int),
            1 <= n <= old(self).max_block_len,
        ensures
            final(self).inv(),
            final(self).vals@ == old(self).vals@,
            final(self).timestamp == old(self).timestamp,
            final(self).initial_block_len == old(self).initial_block_len,
            final(self).max_block_len == old(self).max_block_len,
            r.0.wf(n as int),
            forall|i: int| 0 <= i < r.0.pairs().len() ==> region_wf(*old(self), (#[trigger] r.0.pairs()[i]).0, n as int)
                && final_entry_ok(*old(self), n as int, r.0.pairs()[i].0, r.0.pairs()[i].1.0, r.0.pairs()[i].1.1),
            forall|k: u64| old(self).covered(k) ==> r.0@.contains_key(#[trigger] region_key(k, n as int)),
            forall|i: int| 0 <= i < r.1@.len()
                ==> rec_wf(#[trigger] r.1@[i], old(self).max_block_len, old(self).timestamp),
            uniform_blocks(*old(self), n as int) ==> r.1@.len() == 0,
    {
        let ghost m0 = *self;
        let regions = self.collect_regions(n);
        let mut out = TimestampedEquipartition::new();
        let mut recs: Vec<AccessAdapterRecord> = Vec::new();
        let mut ri: usize = 0;
        while ri < regions.len()
            invariant
                self.inv(),
                m0.inv(),
                is_power_of_two(n as int),
                1 <= n <= m0.max_block_len,
                self.vals@ == m0.vals@,
                self.timestamp == m0.timestamp,
                self.initial_block_len == m0.initial_block_len,
                self.max_block_len == m0.max_block_len,
                ri <= regions@.len(),
                forall|i2: int, j2: int| 0 <= i2 < j2 < regions@.len() ==> regions@[i2] != regions@[j2],
                forall|i2: int| 0 <= i2 < regions@.len() ==> region_wf(m0, #[trigger] regions@[i2], n as int),
                forall|k: u64| #[trigger] m0.covered(k) ==> regions@.contains(region_key(k, n as int)),
                out.pairs().len() == ri,
                out.wf(n as int),
                forall|i2: int| 0 <= i2 < ri ==> (#[trigger] out.pairs()[i2]).0 == regions@[i2],
                forall|i2: int| 0 <= i2 < ri ==> final_entry_ok(m0, n as int, (#[trigger] out.pairs()[i2]).0,
                    out.pairs()[i2].1.0, out.pairs()[i2].1.1),
                forall|i2: int, j: int| #![trigger label_cell(regions@[i2], n as int, j)]
                    ri <= i2 < regions@.len() && 0 <= j < n
                    ==> self.ts_of(label_cell(regions@[i2], n as int, j))
                        == m0.ts_of(label_cell(regions@[i2], n as int, j)),
                forall|i2: int| 0 <= i2 < recs@.len()
                    ==> rec_wf(#[trigger] recs@[i2], m0.max_block_len, m0.timestamp),
                uniform_blocks(m0, n as int) ==> recs@.len() == 0
                    && (forall|k: u64| #[trigger] m0.covered(k) ==> self.covered(k)
                        && self.block_at(k) == m0.block_at(k)),
            decreases regions@.len() - ri,
        {
            let lk = regions[ri];
            proof {
                assert(region_wf(m0, lk, n as int));
            }
            let (sp, label) = crate::addr::split_key(lk);
            proof {
                assert((label as int + 1) * (n as int) <= SPACE_SIZE);
                assert(0 <= (label as int) * (n as int)
                    && (label as int) * (n as int) + n <= SPACE_SIZE) by (nonlinear_arith)
                    requires (label as int + 1) * (n as int) <= SPACE_SIZE, 1 <= n, 0 <= label as int;
            }
            let rptr: u32 = ((label as u64) * (n as u64)) as u32;
            let ghost rkey = addr_key(sp, rptr);
            proof {
                // Region cells are the label's cells.
                assert forall|j: int| 0 <= j < n implies #[trigger] label_cell(lk, n as int, j) == key_at(sp, rptr, j) by {
                    lemma_key_offset(sp, rptr, j);
                    lemma_key_decompose(sp, label);
                    assert(label_cell(lk, n as int, j) == addr_key(sp, (rptr + j) as u32));
                }
            }
            let ghost ma = *self;
            self.materialize_span(sp, rptr, n);
            let ghost mb = *self;
            let ghost recs_pre = recs@;
            self.ensure_block(sp, rptr, n, &mut recs);
            let ts = match self.blocks.get(&make_key(sp, rptr)) {
                Some(bb) => bb.ts,
                None => {
                    proof {
                        lemma_key_decompose(sp, rptr);
                        assert(self.covered(key_at(sp, rptr, 0)));
                        assert(key_at(sp, rptr, 0) == addr_key(sp, rptr));
                        assert(false);
                    }
                    0
                },
            };
            let vals = self.read_range_vals(sp, rptr, n);
            proof {
                lemma_key_decompose(sp, rptr);
                assert(self.block_at(key_at(sp, rptr, 0)) == (BlockRec {
                    start: rptr,
                    len: n,
                    ts: mb.max_ts_in(rkey, n as int),
                }));
                assert(key_at(sp, rptr, 0) == rkey);
                // The region's timestamps were still the original ones.
                assert forall|j: u64| rkey <= j < rkey + n implies mb.ts_of(j) == #[trigger] m0.ts_of(j) by {
                    let o = j - rkey;
                    lemma_key_offset(sp, rptr, o as int);
                    assert(key_at(sp, rptr, o as int) == j);
                    assert(label_cell(lk, n as int, o as int) == j);
                    assert(ma.ts_of(j) == m0.ts_of(j));
                    assert(mb.ts_of(j) == ma.ts_of(j));
                }
                lemma_max_ts_congruent(mb, m0, rkey, n as int);
                assert(ts == m0.max_ts_in(label_cell(lk, n as int, 0), n as int));
                // Values never changed.
                assert forall|j: int| 0 <= j < n implies vals@[j] == m0.val_of(#[trigger] label_cell(lk, n as int, j)) by {
                    assert(vals@[j] == self.val_of(key_at(sp, rptr, j)));
                }
                // The label is fresh in the output.
                assert(!out@.contains_key(lk)) by {
                    crate::kvlist::lemma_map_of_pairs_contains(out.pairs(), lk);
                    if out@.contains_key(lk) {
                        let x = choose|x: int| 0 <= x < out.pairs().len() && out.pairs()[x].0 == lk;
                        assert(regions@[x] == lk && regions@[ri as int] == lk);
                    }
                }
                assert(lk == addr_key(sp, label));
                if uniform_blocks(m0, n as int) {
                    lemma_finalize_uniform_step(m0, ma, mb, *self, n, lk, sp, label, rptr, rkey,
                        recs_pre, recs@);
                }
            }
            let ghost out0 = out;
            let ghost recs_now = recs@;
            out.push_block(sp, label, ts, vals, n as usize);
            proof {
                assert forall|i2: int| 0 <= i2 < ri + 1 implies (#[trigger] out.pairs()[i2]).0 == regions@[i2] by {
                    if i2 < ri {
                        assert(out.pairs()[i2] == out0.pairs()[i2]);
                    }
                }
                assert forall|i2: int| 0 <= i2 < ri + 1 implies final_entry_ok(m0, n as int,
                    (#[trigger] out.pairs()[i2]).0, out.pairs()[i2].1.0, out.pairs()[i2].1.1) by {
                    if i2 < ri {
                        assert(out.pairs()[i2] == out0.pairs()[i2]);
                        assert(final_entry_ok(m0, n as int, out0.pairs()[i2].0, out0.pairs()[i2].1.0, out0.pairs()[i2].1.1));
                    }
                }
                // Later regions keep their original timestamps.
                assert forall|i2: int, j: int| #![trigger label_cell(regions@[i2], n as int, j)]
                    ri + 1 <= i2 < regions@.len() && 0 <= j < n
                    implies self.ts_of(label_cell(regions@[i2], n as int, j))
                        == m0.ts_of(label_cell(regions@[i2], n as int, j)) by {
                    let cell = label_cell(regions@[i2], n as int, j);
                    assert(region_wf(m0, regions@[i2], n as int));
                    lemma_regions_disjoint(lk, regions@[i2], n as int, j);
                    assert(label_cell(lk, n as int, 0) == rkey);
                    assert(!(rkey <= cell < rkey + n));
                    assert(!in_range(sp, rptr, n as int, cell)) by {
                        lemma_key_decompose(sp, rptr);
                    }
                    assert(self.ts_of(cell) == mb.ts_of(cell));
                    assert(mb.ts_of(cell) == ma.ts_of(cell));
                    assert(ma.ts_of(cell) == m0.ts_of(cell));
                }
            }
            ri += 1;
        }
        proof {
            assert forall|k: u64| m0.covered(k) implies out@.contains_key(#[trigger] region_key(k, n as int)) by {
                assert(regions@.contains(region_key(k, n as int)));
                let x = choose|x: int| 0 <= x < regions@.len() && regions@[x] == region_key(k, n as int);
                assert(out.pairs()[x].0 == region_key(k, n as int));
                crate::kvlist::lemma_map_of_pairs_contains(out.pairs(), region_key(k, n as int));
            }
        }
        (out, recs)
    }

    /// Reshapes the blocks covering the `n` cells from `(sp, ptr)` until the
    /// range forms one block of exactly that extent, emitting one adapter
    /// record per split or merge.  The resulting block's timestamp is the
    /// greatest last-access time the range held before.
    #[verifier::rlimit(100)]
    #[verifier::spinoff_prover]
    fn ensure_block(&mut self, sp: u32, ptr: u32, n: u32, recs: &mut Vec<AccessAdapterRecord>)
        requires
            old(self).inv(),
            is_power_of_two(n as int),
            1 <= n <= old(self).max_block_len,
            ptr + n <= SPACE_SIZE,
            forall|j: int| 0 <= j < n ==> old(self).covered(#[trigger] key_at(sp, ptr, j)),
        ensures
            final(self).inv(),
            final(self).vals@ == old(self).vals@,
            final(self).timestamp == old(self).timestamp,
            final(self).touched_chunks@ == old(self).touched_chunks@,
            final(self).initial_block_len == old(self).initial_block_len,
            final(self).max_block_len == old(self).max_block_len,
            forall|k: u64| #[trigger] final(self).covered(k) == old(self).covered(k),
            forall|k: u64| !in_range(sp, ptr, n as int, k) ==> #[trigger] final(self).ts_of(k) == old(self).ts_of(k),
            forall|k: u64| old(self).covered(k)
                && !(old(self).block_base(k) < addr_key(sp, ptr) + n
                    && addr_key(sp, ptr) < old(self).block_base(k) + old(self).block_at(k).len)
                ==> #[trigger] final(self).block_at(k) == old(self).block_at(k),
            forall|j: int| 0 <= j < n ==> final(self).block_at(#[trigger] key_at(sp, ptr, j))
                == (BlockRec { start: ptr, len: n, ts: old(self).max_ts_in(addr_key(sp, ptr), n as int) }),
            final(recs)@.len() >= old(recs)@.len(),
            forall|i: int| 0 <= i < old(recs)@.len() ==> #[trigger] final(recs)@[i] == old(recs)@[i],
            forall|i: int| old(recs)@.len() <= i < final(recs)@.len()
                ==> rec_wf(#[trigger] final(recs)@[i], old(self).max_block_len, old(self).timestamp),
            old(self).block_at(addr_key(sp, ptr)).start == ptr && old(self).block_at(addr_key(sp, ptr)).len == n
                ==> final(recs)@ == old(recs)@,
        decreases n as int, self.block_at(addr_key(sp, ptr)).len as int,
    {
        let base = make_key(sp, ptr);
        proof {
            lemma_key_decompose(sp, ptr);
            assert(self.covered(key_at(sp, ptr, 0)));
            assert(key_at(sp, ptr, 0) == base);
        }
        let b = match self.blocks.get(&base) {
            Some(bb) => *bb,
            None => {
                proof {
                    assert(false);
                }
                BlockRec { start: 0, len: 1, ts: 0 }
            },
        };
        let ghost m0 = *self;
        let ghost akey = addr_key(sp, ptr);
        proof {
            assert(m0.block_ok(base));
            assert(b.start <= ptr < b.start + b.len);
        }
        if b.start == ptr && b.len == n {
            proof {
                assert(m0.block_base(base) == base);
                assert forall|j: u64| base <= j < base + n implies #[trigger] m0.ts_of(j) == b.ts by {
                    assert(m0.blocks@.contains_key(j) && m0.blocks@[j] == b);
                }
                lemma_max_ts_uniform(m0, base, n as int, b.ts);
                assert forall|j: int| 0 <= j < n implies m0.block_at(#[trigger] key_at(sp, ptr, j))
                    == (BlockRec { start: ptr, len: n, ts: m0.max_ts_in(base, n as int) }) by {
                    lemma_key_offset(sp, ptr, j);
                    assert(base <= key_at(sp, ptr, j) < base + n);
                    assert(m0.blocks@[key_at(sp, ptr, j)] == b);
                }
            }
            return;
        }
        if (ptr as u64) + (n as u64) <= (b.start as u64) + (b.len as u64) {
            // The covering block is strictly larger: split it in half.
            proof {
                if b.len == n {
                    assert(b.start == ptr);
                    assert(false);
                }
                if b.len < n {
                    crate::addr::lemma_pow2_le(b.len as int, n as int);
                    assert(false);
                }
                crate::addr::lemma_pow2_le(n as int, b.len as int);
                assert(b.len % 2 == 0 && is_power_of_two(b.len as int / 2));
            }
            let half = b.len / 2;
            let data = self.read_range_vals(sp, b.start, b.len);
            let bl = BlockRec { start: b.start, len: half, ts: b.ts };
            let br = BlockRec { start: b.start + half, len: half, ts: b.ts };
            let ghost bbase = m0.block_base(base);
            proof {
                assert(bbase == addr_key(sp, b.start)) by {
                    lemma_key_decompose(sp, b.start);
                    assert(m0.block_base(base) == (base - key_ptr(base)) + b.start);
                }
            }
            self.write_block_range(sp, b.start, bl);
            let ghost ma = *self;
            self.write_block_range(sp, b.start + half, br);
            recs.push(AccessAdapterRecord {
                timestamp: b.ts,
                address_space: sp,
                start_index: b.start,
                data,
                kind: AccessAdapterRecordKind::Split,
            });
            proof {
                lemma_split_step(m0, ma, *self, sp, b);
            }
            let ghost m1 = *self;
            let ghost recs1 = recs@;
            proof {
                // The target range stays covered: coverage did not change.
                assert forall|j: int| 0 <= j < n implies self.covered(#[trigger] key_at(sp, ptr, j)) by {
                    assert(m1.covered(key_at(sp, ptr, j)) == m0.covered(key_at(sp, ptr, j)));
                }
                assert(self.covered(base));
                assert(self.block_at(base).len < b.len) by {
                    let o = base - addr_key(sp, b.start);
                    lemma_key_offset(sp, b.start, o as int);
                    assert(key_at(sp, b.start, o as int) == base);
                }
            }
            self.ensure_block(sp, ptr, n, recs);
            proof {
                assert forall|j: u64| akey <= j < akey + n implies m1.ts_of(j) == #[trigger] m0.ts_of(j) by {
                    assert(m1.ts_of(j) == m0.ts_of(j));
                }
                lemma_max_ts_congruent(m1, m0, akey, n as int);
                // Blocks not overlapping the range were preserved through
                // both the split and the recursion.
                assert forall|k: u64| m0.covered(k)
                    && !(m0.block_base(k) < akey + n
                        && akey < m0.block_base(k) + m0.block_at(k).len)
                    implies #[trigger] self.block_at(k) == m0.block_at(k) by {
                    assert(m0.block_ok(k));
                    let bbase2 = addr_key(sp, b.start);
                    if bbase2 <= k < bbase2 + b.len {
                        let o = k - bbase2;
                        lemma_key_offset(sp, b.start, o as int);
                        assert(key_at(sp, b.start, o as int) == k);
                        assert(m0.block_at(k) == b);
                        assert(m0.block_base(k) == bbase2);
                        assert(b.start <= ptr < b.start + b.len);
                        lemma_key_offset(sp, b.start, ptr - b.start);
                        assert(akey == bbase2 + (ptr - b.start));
                        assert(false);
                    }
                    assert(m1.block_at(k) == m0.block_at(k));
                    assert(m1.covered(k));
                    assert(m1.block_base(k) == m0.block_base(k));
                }
            }
        } else {
            // The covering block is smaller or misaligned: build both halves
            // of the target, then merge them.
            proof {
                if n == 1 {
                    assert((ptr as u64) + 1 <= (b.start as u64) + (b.len as u64));
                    assert(false);
                }
                assert(n % 2 == 0 && is_power_of_two(n as int / 2));
            }
            let half = n / 2;
            let ghost recs0 = recs@;
            self.ensure_block(sp, ptr, half, recs);
            let ghost m1 = *self;
            proof {
                assert forall|j: int| 0 <= j < half implies self.covered(#[trigger] key_at(sp, (ptr + half) as u32, j)) by {
                    lemma_key_offset(sp, ptr, half + j);
                    lemma_key_offset(sp, (ptr + half) as u32, j);
                    assert(key_at(sp, (ptr + half) as u32, j) == key_at(sp, ptr, half + j));
                    assert(m1.covered(key_at(sp, ptr, half + j)) == m0.covered(key_at(sp, ptr, half + j)));
                }
            }
            self.ensure_block(sp, ptr + half, half, recs);
            let ghost m2 = *self;
            proof {
                lemma_key_offset(sp, ptr, half as int);
                assert(addr_key(sp, (ptr + half) as u32) == (akey + half) as u64);
                assert(key_at(sp, (ptr + half) as u32, 0) == (base + half) as u64);
                // The left half's block was untouched by the right call: its
                // extent is disjoint from the right range.
                assert(m1.covered(base));
                assert(m1.block_at(base) == (BlockRec { start: ptr, len: half, ts: m0.max_ts_in(akey, half as int) }));
                assert(m1.block_base(base) == base);
                assert(m2.block_at(base) == m1.block_at(base));
                assert(m2.block_at((base + half) as u64) == (BlockRec {
                    start: (ptr + half) as u32,
                    len: half,
                    ts: m1.max_ts_in((akey + half) as u64, half as int),
                }));
                // The right half's previous timestamps were untouched by the
                // left call.
                assert forall|j: u64| (akey + half) as u64 <= j < (akey + half) as u64 + half
                    implies m1.ts_of(j) == #[trigger] m0.ts_of(j) by {
                    let o = j - akey;
                    lemma_key_offset(sp, ptr, o as int);
                    assert(key_at(sp, ptr, o as int) == j);
                    assert(!in_range(sp, ptr, half as int, j));
                }
                lemma_max_ts_congruent(m1, m0, (akey + half) as u64, half as int);
                lemma_max_ts_split(m0, akey, half as int, half as int);
                // Both half blocks are in place in the current state.
                let lblock = m1.block_at(base);
                assert forall|j: int| 0 <= j < half implies m2.covered(#[trigger] key_at(sp, ptr, j))
                    && m2.block_at(key_at(sp, ptr, j)) == lblock by {
                    let k = key_at(sp, ptr, j);
                    lemma_key_offset(sp, ptr, j);
                    assert(m1.block_at(k) == lblock);
                    assert(m1.covered(k));
                    assert(m1.block_base(k) == akey);
                    assert(!(m1.block_base(k) < addr_key(sp, (ptr + half) as u32) + half
                        && addr_key(sp, (ptr + half) as u32) < m1.block_base(k) + m1.block_at(k).len));
                    assert(m2.block_at(k) == m1.block_at(k));
                    assert(m2.covered(k) == m1.covered(k));
                }
                let rblock = m2.block_at((base + half) as u64);
                assert forall|j: int| half <= j < n implies m2.covered(#[trigger] key_at(sp, ptr, j))
                    && m2.block_at(key_at(sp, ptr, j)) == rblock by {
                    let k = key_at(sp, ptr, j);
                    lemma_key_offset(sp, ptr, j);
                    lemma_key_offset(sp, (ptr + half) as u32, j - half);
                    assert(key_at(sp, (ptr + half) as u32, j - half) == k);
                    assert(m2.block_at(k) == rblock);
                    assert(m2.covered(k) == m1.covered(k));
                    assert(m1.covered(k) == m0.covered(k));
                }
                assert(m2.covered(base));
                assert(m2.covered((base + half) as u64)) by {
                    assert(m2.covered(key_at(sp, ptr, half as int)));
                }
            }
            let lb = match self.blocks.get(&base) {
                Some(bb) => *bb,
                None => {
                    proof {
                        assert(false);
                    }
                    BlockRec { start: 0, len: 1, ts: 0 }
                },
            };
            let rkey = make_key(sp, ptr + half);
            let rb = match self.blocks.get(&rkey) {
                Some(bb) => *bb,
                None => {
                    proof {
                        assert(false);
                    }
                    BlockRec { start: 0, len: 1, ts: 0 }
                },
            };
            let t = if lb.ts > rb.ts {
                lb.ts
            } else {
                rb.ts
            };
            let data = self.read_range_vals(sp, ptr, n);
            let nb = BlockRec { start: ptr, len: n, ts: t };
            self.write_block_range(sp, ptr, nb);
            recs.push(AccessAdapterRecord {
                timestamp: t,
                address_space: sp,
                start_index: ptr,
                data,
                kind: AccessAdapterRecordKind::Merge { left_timestamp: lb.ts, right_timestamp: rb.ts },
            });
            proof {
                lemma_merge_step(m2, *self, sp, ptr, n, lb, rb, t);
                assert(t == m0.max_ts_in(akey, n as int));
                // Compose the frames of the two recursive calls and the merge.
                assert forall|k: u64| #[trigger] self.covered(k) == m0.covered(k) by {
                    assert(self.covered(k) == m2.covered(k));
                    assert(m2.covered(k) == m1.covered(k));
                    assert(m1.covered(k) == m0.covered(k));
                }
                assert forall|k: u64| !in_range(sp, ptr, n as int, k)
                    implies #[trigger] self.ts_of(k) == m0.ts_of(k) by {
                    lemma_key_offset(sp, ptr, half as int);
                    assert(!in_range(sp, ptr, half as int, k));
                    assert(!in_range(sp, (ptr + half) as u32, half as int, k));
                    assert(self.ts_of(k) == m2.ts_of(k));
                    assert(m2.ts_of(k) == m1.ts_of(k));
                    assert(m1.ts_of(k) == m0.ts_of(k));
                }
                assert forall|k: u64| m0.covered(k)
                    && !(m0.block_base(k) < akey + n
                        && akey < m0.block_base(k) + m0.block_at(k).len)
                    implies #[trigger] self.block_at(k) == m0.block_at(k) by {
                    assert(m0.block_ok(k));
                    assert(m1.block_at(k) == m0.block_at(k));
                    assert(m1.block_base(k) == m0.block_base(k));
                    assert(m1.covered(k));
                    assert(m2.block_at(k) == m1.block_at(k));
                    assert(m2.block_base(k) == m1.block_base(k));
                    assert(m2.covered(k));
                    assert(m0.block_base(k) <= k < m0.block_base(k) + m0.block_at(k).len);
                    assert(!(addr_key(sp, ptr) <= k < addr_key(sp, ptr) + n));
                    assert(self.block_at(k) == m2.block_at(k));
                }
            }
        }
    }


    /// Materializes every untouched default chunk that the `n` cells from
    /// `(sp, ptr)` touch, leaving values and timestamps as they were.
    #[verifier::rlimit(100)]
    #[verifier::spinoff_prover]
    fn materialize_span(&mut self, sp: u32, ptr: u32, n: u32)
        requires
            old(self).inv(),
            1 <= n,
            ptr + n <= SPACE_SIZE,
        ensures
            final(self).inv(),
            final(self).vals@ == old(self).vals@,
            final(self).timestamp == old(self).timestamp,
            final(self).initial_block_len == old(self).initial_block_len,
            final(self).max_block_len == old(self).max_block_len,
            forall|k: u64| #[trigger] m0c(*old(self), k) ==> final(self).covered(k)
                && final(self).block_at(k) == old(self).block_at(k),
            forall|k: u64| #[trigger] final(self).ts_of(k) == old(self).ts_of(k),
            forall|j: int| 0 <= j < n ==> final(self).covered(#[trigger] key_at(sp, ptr, j)),
            forall|k: u64| #[trigger] final(self).covered(k) ==> old(self).covered(k)
                || in_access_span(sp, ptr, n as int, old(self).initial_block_len as int, k),
            n == old(self).initial_block_len && ptr % old(self).initial_block_len == 0
                && !old(self).covered(addr_key(sp, ptr))
                ==> final(self).covered(addr_key(sp, ptr))
                    && final(self).block_at(addr_key(sp, ptr))
                        == (BlockRec { start: ptr, len: n, ts: INITIAL_TIMESTAMP }),
    {
        let ghost m0 = *self;
        let ghost akey = addr_key(sp, ptr);
        let g = self.initial_block_len;
        proof {
            crate::addr::lemma_small_pow2(g as int);
            assert(ptr % g <= ptr && ptr % g < g) by (nonlinear_arith)
                requires 1 <= g;
        }
        let first_c: u32 = ptr - ptr % g;
        proof {
            lemma_key_decompose(sp, ptr);
            assert(first_c % g == 0 && first_c <= ptr && ptr - first_c < g) by (nonlinear_arith)
                requires first_c == ptr - ptr % g, 1 <= g;
        }
        let mut c: u64 = first_c as u64;
        while c < (ptr as u64) + (n as u64)
            invariant
                self.inv(),
                m0.inv(),
                1 <= n,
                ptr + n <= SPACE_SIZE,
                akey == addr_key(sp, ptr),
                g == m0.initial_block_len,
                self.initial_block_len == g,
                self.max_block_len == m0.max_block_len,
                self.vals@ == m0.vals@,
                self.timestamp == m0.timestamp,
                first_c % g == 0,
                first_c <= ptr,
                ptr - first_c < g,
                first_c as u64 <= c <= SPACE_SIZE,
                c < (ptr as int) + n + g,
                c % (g as u64) == 0,
                forall|o: int| 0 <= o < c - first_c ==> self.covered(#[trigger] key_at(sp, first_c, o)),
                forall|k: u64| #[trigger] self.covered(k) ==> m0.covered(k)
                    || (addr_key(sp, first_c) <= k < addr_key(sp, first_c) + (c - first_c)),
                forall|k: u64| #[trigger] m0c(m0, k) ==> self.covered(k)
                    && self.block_at(k) == m0.block_at(k),
                forall|k: u64| #[trigger] self.ts_of(k) == m0.ts_of(k),
                n == g && ptr % g == 0 && !m0.covered(akey) && c <= ptr as u64 ==> !self.covered(akey),
                n == g && ptr % g == 0 && !m0.covered(akey) && c > ptr as u64
                    ==> self.covered(akey) && self.block_at(akey) == (BlockRec { start: ptr, len: g, ts: INITIAL_TIMESTAMP }),
            decreases (ptr as int) + (n as int) + 32 - c,
        {
            let cptr = c as u32;
            proof {
                assert(c < SPACE_SIZE);
                assert((SPACE_SIZE as int) % (g as int) == 0) by {
                    crate::addr::lemma_small_pow2(g as int);
                }
                assert(c + g <= SPACE_SIZE) by (nonlinear_arith)
                    requires
                        (c as int) % (g as int) == 0,
                        c < SPACE_SIZE,
                        1 <= g <= 32,
                        (SPACE_SIZE as int) % (g as int) == 0,
                ;
                assert(cptr % g == 0);
            }
            let ghost mpre = *self;
            if !self.blocks.contains_key(&make_key(sp, cptr)) {
                self.materialize_chunk(sp, cptr);
            } else {
                proof {
                    if n == g && ptr % g == 0 && !m0.covered(akey) && cptr == ptr {
                        assert(!mpre.covered(akey));
                        assert(mpre.covered(addr_key(sp, cptr)));
                        assert(false);
                    }
                }
            }
            proof {
                lemma_span_step(m0, mpre, *self, sp, ptr, n, g, first_c, c, cptr, akey);
                assert((c as int + g as int) % (g as int) == 0) by (nonlinear_arith)
                    requires (c as int) % (g as int) == 0, 1 <= g as int;
                // Newly covered cells lie within the handled chunks.
                assert forall|k: u64| #[trigger] self.covered(k) implies m0.covered(k)
                    || (addr_key(sp, first_c) <= k < addr_key(sp, first_c) + ((c + g) - first_c as u64)) by {
                    if !mpre.covered(k) {
                        // It was just materialized: it lies in the chunk at cptr.
                        assert(!mpre.covered(addr_key(sp, cptr)));
                        if !in_range(sp, cptr, g as int, k) {
                            assert(self.covered(k) == mpre.covered(k));
                        }
                        assert(in_range(sp, cptr, g as int, k));
                        lemma_key_decompose(sp, cptr);
                        lemma_key_decompose(sp, first_c);
                        assert(addr_key(sp, cptr) == addr_key(sp, first_c) + (c - first_c as u64));
                    }
                }
            }
            c = c + (g as u64);
        }
        proof {
            assert forall|j: int| 0 <= j < n implies self.covered(#[trigger] key_at(sp, ptr, j)) by {
                let o = (ptr - first_c) + j;
                lemma_key_offset(sp, first_c, o as int);
                lemma_key_offset(sp, ptr, j);
                assert(key_at(sp, first_c, o as int) == key_at(sp, ptr, j));
            }
            // The cursor ends exactly at the span's upper bound.
            let hi = span_hi(ptr, n as int, g as int);
            let q = ((ptr + n - 1) as int) / (g as int);
            vstd::arithmetic::div_mod::lemma_fundamental_div_mod((ptr + n - 1) as int, g as int);
            vstd::arithmetic::div_mod::lemma_mod_bound((ptr + n - 1) as int, g as int);
            assert((g as int) * q <= ptr + n - 1 < (g as int) * q + g);
            assert(hi == (g as int) * q + g);
            assert(hi % (g as int) == 0) by (nonlinear_arith)
                requires hi == (g as int) * q + g, 1 <= g as int;
            assert(ptr + n <= hi < (ptr as int) + n + g);
            assert(c == hi) by (nonlinear_arith)
                requires
                    (c as int) % (g as int) == 0,
                    hi % (g as int) == 0,
                    ptr + n <= c,
                    c < (ptr as int) + n + g,
                    ptr + n <= hi,
                    hi < (ptr as int) + n + g,
                    1 <= g as int,
            ;
            assert(first_c == span_lo(ptr, g as int));
            assert forall|k: u64| #[trigger] self.covered(k) implies m0.covered(k)
                || in_access_span(sp, ptr, n as int, g as int, k) by {
                if !m0.covered(k) {
                    assert(addr_key(sp, first_c) <= k < addr_key(sp, first_c) + (c - first_c as u64));
                }
            }
        }
    }

    /// Materializes the default chunks the range touches, then reshapes the
    /// blocks so the range forms one block of exactly its own size, emitting
    /// one adapter record per split or merge.
    #[verifier::rlimit(100)]
    #[verifier::spinoff_prover]
    fn access(&mut self, sp: u32, ptr: u32, n: u32) -> (recs: Vec<AccessAdapterRecord>)
        requires
            old(self).inv(),
            is_power_of_two(n as int),
            1 <= n <= old(self).max_block_len,
            ptr + n <= SPACE_SIZE,
        ensures
            final(self).inv(),
            final(self).vals@ == old(self).vals@,
            final(self).timestamp == old(self).timestamp,
            final(self).initial_block_len == old(self).initial_block_len,
            final(self).max_block_len == old(self).max_block_len,
            forall|k: u64| old(self).covered(k) ==> #[trigger] final(self).covered(k),
            forall|k: u64| #[trigger] final(self).covered(k) ==> old(self).covered(k)
                || in_access_span(sp, ptr, n as int, old(self).initial_block_len as int, k),
            forall|k: u64| !in_range(sp, ptr, n as int, k) ==> #[trigger] final(self).ts_of(k) == old(self).ts_of(k),
            forall|j: int| 0 <= j < n ==> final(self).covered(#[trigger] key_at(sp, ptr, j))
                && final(self).block_at(key_at(sp, ptr, j))
                    == (BlockRec { start: ptr, len: n, ts: old(self).max_ts_in(addr_key(sp, ptr), n as int) }),
            forall|i: int| 0 <= i < recs@.len()
                ==> rec_wf(#[trigger] recs@[i], old(self).max_block_len, old(self).timestamp),
            old(self).covered(addr_key(sp, ptr))
                && old(self).block_at(addr_key(sp, ptr)).start == ptr
                && old(self).block_at(addr_key(sp, ptr)).len == n
                ==> recs@.len() == 0,
            n == old(self).initial_block_len && ptr % old(self).initial_block_len == 0
                && !old(self).covered(addr_key(sp, ptr))
                ==> recs@.len() == 0,
    {
        let ghost m0 = *self;
        let ghost akey = addr_key(sp, ptr);
        self.materialize_span(sp, ptr, n);
        let ghost m1 = *self;
        let mut recs: Vec<AccessAdapterRecord> = Vec::new();
        self.ensure_block(sp, ptr, n, &mut recs);
        proof {
            lemma_key_decompose(sp, ptr);
            assert forall|j: u64| akey <= j < akey + n implies m1.ts_of(j) == #[trigger] m0.ts_of(j) by {
                assert(m1.ts_of(j) == m0.ts_of(j));
            }
            lemma_max_ts_congruent(m1, m0, akey, n as int);
            assert forall|k: u64| m0.covered(k) implies #[trigger] self.covered(k) by {
                assert(m0c(m0, k));
                assert(m1.covered(k));
            }
            assert forall|k: u64| #[trigger] self.covered(k) implies m0.covered(k)
                || in_access_span(sp, ptr, n as int, m0.initial_block_len as int, k) by {
                assert(self.covered(k) == m1.covered(k));
            }
            if m0.covered(akey) && m0.block_at(akey).start == ptr && m0.block_at(akey).len == n {
                assert(m0c(m0, akey));
                assert(m1.block_at(akey).start == ptr && m1.block_at(akey).len == n);
            }
            if n == m0.initial_block_len && ptr % m0.initial_block_len == 0 && !m0.covered(akey) {
                assert(m1.block_at(akey).start == ptr && m1.block_at(akey).len == n);
            }
        }
        recs
    }

    /// Reads the `n` cells from `(sp, ptr)`: adapts the block granularity,
    /// captures the previous access time, stamps the range with the current
    /// clock, advances the clock by one, and returns the record together
    /// with the adapter records emitted.
    pub fn read(&mut self, sp: u32, ptr: u32, n: u32) -> (r: (MemoryReadRecord, Vec<AccessAdapterRecord>))
        requires
            old(self).inv(),
            is_power_of_two(n as int),
            1 <= n <= old(self).max_block_len,
            ptr + n <= SPACE_SIZE,
            old(self).timestamp < u32::MAX,
        ensures
            final(self).inv(),
            final(self).vals@ == old(self).vals@,
            final(self).initial_block_len == old(self).initial_block_len,
            final(self).max_block_len == old(self).max_block_len,
            final(self).timestamp == old(self).timestamp + 1,
            r.0.address_space == sp,
            r.0.pointer == ptr,
            r.0.timestamp == old(self).timestamp,
            r.0.prev_timestamp == old(self).max_ts_in(addr_key(sp, ptr), n as int),
            r.0.prev_timestamp < r.0.timestamp,
            r.0.data@.len() == n,
            forall|j: int| 0 <= j < n ==> r.0.data@[j] == old(self).val_of(#[trigger] key_at(sp, ptr, j)),
            forall|j: int| 0 <= j < n ==> final(self).ts_of(#[trigger] key_at(sp, ptr, j)) == old(self).timestamp,
            forall|k: u64| !in_range(sp, ptr, n as int, k) ==> #[trigger] final(self).ts_of(k) == old(self).ts_of(k),
            forall|k: u64| old(self).covered(k) ==> #[trigger] final(self).covered(k),
            forall|k: u64| #[trigger] final(self).covered(k) ==> old(self).covered(k)
                || in_access_span(sp, ptr, n as int, old(self).initial_block_len as int, k),
            forall|j: int| 0 <= j < n ==> final(self).covered(#[trigger] key_at(sp, ptr, j)),
            forall|i: int| 0 <= i < r.1@.len()
                ==> rec_wf(#[trigger] r.1@[i], old(self).max_block_len, old(self).timestamp),
            old(self).covered(addr_key(sp, ptr))
                && old(self).block_at(addr_key(sp, ptr)).start == ptr
                && old(self).block_at(addr_key(sp, ptr)).len == n
                ==> r.1@.len() == 0,
            n == old(self).initial_block_len && ptr % old(self).initial_block_len == 0
                && !old(self).covered(addr_key(sp, ptr))
                ==> r.1@.len() == 0,
    {
        let ghost m0 = *self;
        let ghost akey = addr_key(sp, ptr);
        let recs = self.access(sp, ptr, n);
        let ghost ma = *self;
        let data = self.read_range_vals(sp, ptr, n);
        let t = self.timestamp;
        let prev = match self.blocks.get(&make_key(sp, ptr)) {
            Some(bb) => bb.ts,
            None => {
                proof {
                    lemma_key_decompose(sp, ptr);
                    assert(self.covered(key_at(sp, ptr, 0)));
                    assert(key_at(sp, ptr, 0) == addr_key(sp, ptr));
                    assert(false);
                }
                0
            },
        };
        proof {
            lemma_key_decompose(sp, ptr);
            assert(self.block_at(key_at(sp, ptr, 0)) == (BlockRec {
                start: ptr,
                len: n,
                ts: m0.max_ts_in(akey, n as int),
            }));
            assert(key_at(sp, ptr, 0) == akey);
            assert forall|j: u64| akey <= j < akey + n implies #[trigger] m0.ts_of(j) < t by {
                if m0.covered(j) {
                    assert(m0.block_ok(j));
                }
            }
            lemma_max_ts_lt(m0, akey, n as int, t);
        }
        proof {
            lemma_inv_clock_advance(*self, (t + 1) as u32);
        }
        self.timestamp = t + 1;
        let ghost m2 = *self;
        self.write_block_range(sp, ptr, BlockRec { start: ptr, len: n, ts: t });
        proof {
            assert forall|j: int| 0 <= j < n implies m2.covered(#[trigger] key_at(sp, ptr, j))
                && m2.block_at(key_at(sp, ptr, j)).start == ptr
                && m2.block_at(key_at(sp, ptr, j)).len == n by {
                lemma_key_offset(sp, ptr, j);
            }
            lemma_restamp_step(m2, *self, sp, ptr, n, t);
            assert forall|k: u64| !in_range(sp, ptr, n as int, k)
                implies #[trigger] self.ts_of(k) == m0.ts_of(k) by {
                assert(self.ts_of(k) == m2.ts_of(k));
                assert(m2.blocks@ == ma.blocks@);
                assert(ma.ts_of(k) == m0.ts_of(k));
            }
            assert forall|k: u64| m0.covered(k) implies #[trigger] self.covered(k) by {
                assert(ma.covered(k));
                assert(m2.blocks@ == ma.blocks@);
                assert(self.covered(k) == m2.covered(k));
            }
            assert forall|k: u64| #[trigger] self.covered(k) implies m0.covered(k)
                || in_access_span(sp, ptr, n as int, m0.initial_block_len as int, k) by {
                assert(self.covered(k) == m2.covered(k));
                assert(m2.blocks@ == ma.blocks@);
                assert(ma.covered(k));
            }
            assert forall|j: int| 0 <= j < n implies self.covered(#[trigger] key_at(sp, ptr, j)) by {
                assert(ma.covered(key_at(sp, ptr, j)));
                assert(m2.blocks@ == ma.blocks@);
                assert(self.covered(key_at(sp, ptr, j)) == m2.covered(key_at(sp, ptr, j)));
            }
        }
        (
            MemoryReadRecord {
                address_space: sp,
                pointer: ptr,
                timestamp: t,
                prev_timestamp: prev,
                data,
            },
            recs,
        )
    }

    /// Writes `data` to the cells from `(sp, ptr)`: as a read, and the new
    /// values replace the old ones, which the record captures.
    pub fn write(&mut self, sp: u32, ptr: u32, data: Vec<u32>) -> (r: (MemoryWriteRecord, Vec<AccessAdapterRecord>))
        requires
            old(self).inv(),
            is_power_of_two(data@.len() as int),
            1 <= data@.len() <= old(self).max_block_len,
            ptr + data@.len() <= SPACE_SIZE,
            old(self).timestamp < u32::MAX,
        ensures
            final(self).inv(),
            final(self).initial_block_len == old(self).initial_block_len,
            final(self).max_block_len == old(self).max_block_len,
            final(self).timestamp == old(self).timestamp + 1,
            r.0.address_space == sp,
            r.0.pointer == ptr,
            r.0.timestamp == old(self).timestamp,
            r.0.prev_timestamp == old(self).max_ts_in(addr_key(sp, ptr), data@.len() as int),
            r.0.prev_timestamp < r.0.timestamp,
            r.0.data@ == data@,
            r.0.prev_data@.len() == data@.len(),
            forall|j: int| 0 <= j < data@.len() ==> r.0.prev_data@[j] == old(self).val_of(#[trigger] key_at(sp, ptr, j)),
            forall|j: int| 0 <= j < data@.len() ==> final(self).val_of(#[trigger] key_at(sp, ptr, j)) == data@[j],
            forall|k: u64| !in_range(sp, ptr, data@.len() as int, k) ==> #[trigger] final(self).val_of(k) == old(self).val_of(k),
            forall|j: int| 0 <= j < data@.len() ==> final(self).ts_of(#[trigger] key_at(sp, ptr, j)) == old(self).timestamp,
            forall|k: u64| !in_range(sp, ptr, data@.len() as int, k) ==> #[trigger] final(self).ts_of(k) == old(self).ts_of(k),
            forall|k: u64| old(self).covered(k) ==> #[trigger] final(self).covered(k),
            forall|k: u64| #[trigger] final(self).covered(k) ==> old(self).covered(k)
                || in_access_span(sp, ptr, data@.len() as int, old(self).initial_block_len as int, k),
            forall|j: int| 0 <= j < data@.len() ==> final(self).covered(#[trigger] key_at(sp, ptr, j)),
            forall|i: int| 0 <= i < r.1@.len()
                ==> rec_wf(#[trigger] r.1@[i], old(self).max_block_len, old(self).timestamp),
            old(self).covered(addr_key(sp, ptr))
                && old(self).block_at(addr_key(sp, ptr)).start == ptr
                && old(self).block_at(addr_key(sp, ptr)).len == data@.len()
                ==> r.1@.len() == 0,
            data@.len() == old(self).initial_block_len && ptr % old(self).initial_block_len == 0
                && !old(self).covered(addr_key(sp, ptr))
                ==> r.1@.len() == 0,
    {
        let ghost m0 = *self;
        let ghost akey = addr_key(sp, ptr);
        let ghost dv = data@;
        let n = data.len() as u32;
        let recs = self.access(sp, ptr, n);
        let ghost ma = *self;
        let prev_data = self.read_range_vals(sp, ptr, n);
        let t = self.timestamp;
        let prev = match self.blocks.get(&make_key(sp, ptr)) {
            Some(bb) => bb.ts,
            None => {
                proof {
                    lemma_key_decompose(sp, ptr);
                    assert(self.covered(key_at(sp, ptr, 0)));
                    assert(key_at(sp, ptr, 0) == addr_key(sp, ptr));
                    assert(false);
                }
                0
            },
        };
        proof {
            lemma_key_decompose(sp, ptr);
            assert(self.block_at(key_at(sp, ptr, 0)) == (BlockRec {
                start: ptr,
                len: n,
                ts: m0.max_ts_in(akey, n as int),
            }));
            assert(key_at(sp, ptr, 0) == akey);
            assert forall|j: u64| akey <= j < akey + n implies #[trigger] m0.ts_of(j) < t by {
                if m0.covered(j) {
                    assert(m0.block_ok(j));
                }
            }
            lemma_max_ts_lt(m0, akey, n as int, t);
        }
        proof {
            lemma_inv_clock_advance(*self, (t + 1) as u32);
        }
        self.timestamp = t + 1;
        // Store the new values.
        let ghost mv = *self;
        let mut i: u32 = 0;
        while i < n
            invariant
                i <= n,
                n == dv.len(),
                ptr + n <= SPACE_SIZE,
                data@ == dv,
                self.blocks@ == mv.blocks@,
                self.timestamp == mv.timestamp,
                self.touched_chunks@ == mv.touched_chunks@,
                self.initial_block_len == mv.initial_block_len,
                self.max_block_len == mv.max_block_len,
                forall|j: int| 0 <= j < i ==> self.val_of(#[trigger] key_at(sp, ptr, j)) == dv[j],
                forall|k: u64| !(addr_key(sp, ptr) <= k < addr_key(sp, ptr) + i) ==> (
                    #[trigger] self.vals@.contains_key(k) == mv.vals@.contains_key(k)
                    && (mv.vals@.contains_key(k) ==> self.vals@[k] == mv.vals@[k])
                ),
            decreases n - i,
        {
            proof {
                lemma_key_offset(sp, ptr, i as int);
            }
            let k = make_key(sp, ptr + i);
            self.vals.insert(k, data[i as usize]);
            i += 1;
        }
        let ghost m2 = *self;
        self.write_block_range(sp, ptr, BlockRec { start: ptr, len: n, ts: t });
        proof {
            assert forall|j: int| 0 <= j < n implies m2.covered(#[trigger] key_at(sp, ptr, j))
                && m2.block_at(key_at(sp, ptr, j)).start == ptr
                && m2.block_at(key_at(sp, ptr, j)).len == n by {
                lemma_key_offset(sp, ptr, j);
                assert(m2.blocks@ == mv.blocks@);
            }
            lemma_inv_vals_change(mv, m2);
            lemma_restamp_step(m2, *self, sp, ptr, n, t);
            assert forall|k: u64| !in_range(sp, ptr, n as int, k)
                implies #[trigger] self.ts_of(k) == m0.ts_of(k) by {
                assert(self.ts_of(k) == m2.ts_of(k));
                assert(m2.blocks@ == ma.blocks@);
                assert(ma.ts_of(k) == m0.ts_of(k));
            }
            assert forall|k: u64| m0.covered(k) implies #[trigger] self.covered(k) by {
                assert(ma.covered(k));
                assert(m2.blocks@ == ma.blocks@);
                assert(self.covered(k) == m2.covered(k));
            }
            assert forall|k: u64| #[trigger] self.covered(k) implies m0.covered(k)
                || in_access_span(sp, ptr, n as int, m0.initial_block_len as int, k) by {
                assert(self.covered(k) == m2.covered(k));
                assert(m2.blocks@ == ma.blocks@);
                assert(ma.covered(k));
            }
            assert forall|j: int| 0 <= j < n implies self.covered(#[trigger] key_at(sp, ptr, j)) by {
                assert(ma.covered(key_at(sp, ptr, j)));
                assert(m2.blocks@ == ma.blocks@);
                assert(self.covered(key_at(sp, ptr, j)) == m2.covered(key_at(sp, ptr, j)));
            }
            assert(self.vals@ == m2.vals@);
            assert forall|j: int| 0 <= j < n implies self.val_of(#[trigger] key_at(sp, ptr, j)) == dv[j] by {
                assert(m2.val_of(key_at(sp, ptr, j)) == dv[j]);
            }
            assert forall|k: u64| !in_range(sp, ptr, n as int, k)
                implies #[trigger] self.val_of(k) == m0.val_of(k) by {
                assert(m2.vals@.contains_key(k) == mv.vals@.contains_key(k));
                assert(mv.vals@.contains_key(k) ==> m2.vals@[k] == mv.vals@[k]);
                assert(mv.vals@ == m0.vals@);
            }
        }
        (
            MemoryWriteRecord {
                address_space: sp,
                pointer: ptr,
                timestamp: t,
                prev_timestamp: prev,
                prev_data,
                data,
            },
            recs,
        )
    }

    /// Covers a whole untouched default chunk with one fresh block whose
    /// timestamp is the initial one.  Emits no record: the proof system
    /// knows the initial granularity.
    #[verifier::rlimit(50)]
    #[verifier::spinoff_prover]
    fn materialize_chunk(&mut self, sp: u32, cptr: u32)
        requires
            old(self).inv(),
            cptr % old(self).initial_block_len == 0,
            cptr + old(self).initial_block_len <= SPACE_SIZE,
            !old(self).covered(addr_key(sp, cptr)),
        ensures
            final(self).inv(),
            final(self).timestamp == old(self).timestamp,
            final(self).vals@ == old(self).vals@,
            final(self).initial_block_len == old(self).initial_block_len,
            final(self).max_block_len == old(self).max_block_len,
            final(self).touched_chunks@ == old(self).touched_chunks@.push(addr_key(sp, cptr)),
            forall|j: int| 0 <= j < old(self).initial_block_len
                ==> final(self).covered(#[trigger] key_at(sp, cptr, j))
                    && final(self).block_at(key_at(sp, cptr, j))
                        == (BlockRec { start: cptr, len: old(self).initial_block_len, ts: INITIAL_TIMESTAMP }),
            forall|k: u64| !in_range(sp, cptr, old(self).initial_block_len as int, k) ==> (
                #[trigger] final(self).covered(k) == old(self).covered(k)
                && (old(self).covered(k) ==> final(self).block_at(k) == old(self).block_at(k))
            ),
            forall|k: u64| final(self).ts_of(k) == old(self).ts_of(k),
            forall|j: int| 0 <= j < old(self).initial_block_len ==> !old(self).covered(#[trigger] key_at(sp, cptr, j)),
    {
        let ghost m0 = *self;
        let g = self.initial_block_len;
        let c = make_key(sp, cptr);
        proof {
            lemma_key_decompose(sp, cptr);
            // The whole chunk is uncovered: a covered cell's chunk is listed,
            // and a listed chunk is covered in full, including its first cell.
            assert forall|j: int| 0 <= j < g implies !m0.covered(#[trigger] key_at(sp, cptr, j)) by {
                lemma_key_offset(sp, cptr, j);
                if m0.covered(key_at(sp, cptr, j)) {
                    let kj = key_at(sp, cptr, j);
                    assert((cptr as int + j) % (g as int) == j) by (nonlinear_arith)
                        requires
                            (cptr as int) % (g as int) == 0,
                            0 <= j < g as int,
                            1 <= g as int,
                    ;
                    assert(m0.chunk_of(kj) == c);
                    assert(m0.touched_chunks@.contains(c));
                    let i = choose|i: int| 0 <= i < m0.touched_chunks@.len() && m0.touched_chunks@[i] == c;
                    assert(m0.chunk_ok(c));
                    assert(m0.blocks@.contains_key(c));
                }
            }
        }
        let b = BlockRec { start: cptr, len: g, ts: INITIAL_TIMESTAMP };
        self.write_block_range(sp, cptr, b);
        self.touched_chunks.push(c);
        proof {
            let glen = g as int;
            assert forall|j: int| 0 <= j < glen implies self.covered(#[trigger] key_at(sp, cptr, j))
                && self.block_at(key_at(sp, cptr, j)) == b by {
                lemma_key_offset(sp, cptr, j);
            }
            // Invariant: every covered cell's block is intact.
            assert forall|k: u64| #[trigger] self.blocks@.contains_key(k) implies self.block_ok(k) by {
                if in_range(sp, cptr, glen, k) {
                    let j = k - addr_key(sp, cptr);
                    lemma_key_offset(sp, cptr, j as int);
                    assert(self.block_at(k) == b);
                    assert(self.block_base(k) == addr_key(sp, cptr));
                    assert forall|j2: u64| self.block_base(k) <= j2 < self.block_base(k) + b.len
                        implies #[trigger] self.blocks@.contains_key(j2) && self.blocks@[j2] == b by {
                        let o = j2 - addr_key(sp, cptr);
                        assert(self.covered(key_at(sp, cptr, o as int)));
                        assert(key_at(sp, cptr, o as int) == j2);
                    }
                } else {
                    lemma_block_ok_outside_frame(m0, *self, sp, cptr, glen, k);
                }
            }
            // Chunk bookkeeping.
            assert(self.chunk_of(c) == c) by {
                assert(key_ptr(c) % (g as u64) == 0);
            }
            assert(!m0.touched_chunks@.contains(c)) by {
                if m0.touched_chunks@.contains(c) {
                    let i = choose|i: int| 0 <= i < m0.touched_chunks@.len() && m0.touched_chunks@[i] == c;
                    assert(m0.chunk_ok(c));
                    assert(m0.blocks@.contains_key(c));
                }
            }
            assert forall|i: int| 0 <= i < self.touched_chunks@.len()
                implies self.chunk_ok(#[trigger] self.touched_chunks@[i]) by {
                if i < m0.touched_chunks@.len() {
                    assert(m0.chunk_ok(m0.touched_chunks@[i]));
                    let c2 = m0.touched_chunks@[i];
                    assert forall|j2: u64| c2 <= j2 < c2 + self.initial_block_len
                        implies #[trigger] self.blocks@.contains_key(j2) by {
                        assert(m0.blocks@.contains_key(j2));
                        if in_range(sp, cptr, glen, j2) {
                            let o = j2 - addr_key(sp, cptr);
                            lemma_key_offset(sp, cptr, o as int);
                            assert(key_at(sp, cptr, o as int) == j2);
                            assert(!m0.covered(j2));
                        }
                        assert(!in_range(sp, cptr, glen, j2));
                    }
                } else {
                    assert(self.touched_chunks@[i] == c);
                    assert forall|j2: u64| c <= j2 < c + self.initial_block_len
                        implies #[trigger] self.blocks@.contains_key(j2) by {
                        let o = j2 - c;
                        assert(self.covered(key_at(sp, cptr, o as int)));
                        assert(key_at(sp, cptr, o as int) == j2);
                    }
                }
            }
            assert forall|k: u64| #[trigger] self.blocks@.contains_key(k)
                implies self.touched_chunks@.contains(self.chunk_of(k)) by {
                if in_range(sp, cptr, glen, k) {
                    let j = k - addr_key(sp, cptr);
                    lemma_key_offset(sp, cptr, j as int);
                    assert((cptr as int + j) % (g as int) == j) by (nonlinear_arith)
                        requires
                            (cptr as int) % (g as int) == 0,
                            0 <= j < g as int,
                            1 <= g as int,
                    ;
                    assert(self.chunk_of(k) == c);
                    assert(self.touched_chunks@[m0.touched_chunks@.len() as int] == c);
                } else {
                    assert(m0.touched_chunks@.contains(self.chunk_of(k)));
                    let i = choose|i: int| 0 <= i < m0.touched_chunks@.len() && m0.touched_chunks@[i] == self.chunk_of(k);
                    assert(self.touched_chunks@[i] == self.chunk_of(k));
                }
            }
            // Timestamps: new cells go from uncovered (initial) to initial.
            assert forall|k: u64| true implies self.ts_of(k) == m0.ts_of(k) by {
                if in_range(sp, cptr, glen, k) {
                    let j = k - addr_key(sp, cptr);
                    lemma_key_offset(sp, cptr, j as int);
                    assert(!m0.covered(k));
                    assert(self.block_at(k) == b);
                }
            }
        }
    }
}

/// `k` lies among the `len` cells starting at `(sp, ptr)`.
pub open spec fn in_range(sp: u32, ptr: u32, len: int, k: u64) -> bool {
    addr_key(sp, ptr) <= k < addr_key(sp, ptr) + len
}

/// First pointer of the chunk-aligned span that an access to the `n` cells
/// from `ptr` can touch, under default chunks of `g` cells.
pub open spec fn span_lo(ptr: u32, g: int) -> int {
    ptr - (ptr as int) % g
}

/// One past the last pointer of that span.
pub open spec fn span_hi(ptr: u32, n: int, g: int) -> int {
    g * ((ptr + n - 1) / g) + g
}

/// `k` lies in the chunk-aligned span of an access to `[ptr, ptr + n)`:
/// the only cells whose coverage the access can change.
pub open spec fn in_access_span(sp: u32, ptr: u32, n: int, g: int, k: u64) -> bool {
    addr_key(sp, span_lo(ptr, g) as u32) <= k
        < addr_key(sp, span_lo(ptr, g) as u32) + (span_hi(ptr, n, g) - span_lo(ptr, g))
}

proof fn lemma_max_ts_congruent(a: Memory, b: Memory, base: u64, n: int)
    requires
        base + n <= 0x1_0000_0000_0000_0000,
        forall|j: u64| base <= j < base + n ==> a.ts_of(j) == #[trigger] b.ts_of(j),
    ensures
        a.max_ts_in(base, n) == b.max_ts_in(base, n),
    decreases n,
{
    if n > 0 {
        lemma_max_ts_congruent(a, b, base, n - 1);
        assert(b.ts_of((base + n - 1) as u64) == a.ts_of((base + n - 1) as u64));
    }
}

proof fn lemma_max_ts_split(m: Memory, base: u64, a: int, b: int)
    requires
        0 <= a,
        0 <= b,
        base + a + b <= 0x1_0000_0000_0000_0000,
    ensures
        m.max_ts_in(base, a + b) == ({
            let l = m.max_ts_in(base, a);
            let r = m.max_ts_in((base + a) as u64, b);
            if r > l {
                r
            } else {
                l
            }
        }),
    decreases b,
{
    if b > 0 {
        lemma_max_ts_split(m, base, a, b - 1);
        assert((((base + a) as u64) + b - 1) as u64 == (base + (a + b) - 1) as u64);
    }
}

proof fn lemma_max_ts_uniform(m: Memory, base: u64, n: int, t: u32)
    requires
        1 <= n,
        base + n <= 0x1_0000_0000_0000_0000,
        forall|j: u64| base <= j < base + n ==> #[trigger] m.ts_of(j) == t,
    ensures
        m.max_ts_in(base, n) == t,
    decreases n,
{
    assert(m.ts_of((base + n - 1) as u64) == t);
    if n == 1 {
        assert(m.max_ts_in(base, 0) == INITIAL_TIMESTAMP);
    } else {
        lemma_max_ts_uniform(m, base, n - 1, t);
    }
}

proof fn lemma_max_ts_lt(m: Memory, base: u64, n: int, c: u32)
    requires
        1 <= c,
        base + n <= 0x1_0000_0000_0000_0000,
        forall|j: u64| base <= j < base + n ==> #[trigger] m.ts_of(j) < c,
    ensures
        m.max_ts_in(base, n) < c,
    decreases n,
{
    if n > 0 {
        assert(m.ts_of((base + n - 1) as u64) < c);
        lemma_max_ts_lt(m, base, n - 1, c);
    }
}

/// A well-formed adapter record: its size class is a power of two between 2
/// and the adapter maximum, and every timestamp it carries is below the clock.
pub open spec fn rec_wf(r: AccessAdapterRecord, max_len: u32, clock: u32) -> bool {
    &&& is_power_of_two(r.data@.len() as int)
    &&& 2 <= r.data@.len() <= max_len
    &&& r.timestamp < clock
    &&& match r.kind {
        AccessAdapterRecordKind::Split => true,
        AccessAdapterRecordKind::Merge { left_timestamp, right_timestamp } =>
            left_timestamp < clock && right_timestamp < clock,
    }
}

/// The extent of the block containing `k` lies inside the `wlen` cells from
/// `(sp, wstart)`.
pub open spec fn block_inside(m: Memory, k: u64, sp: u32, wstart: u32, wlen: int) -> bool {
    &&& addr_key(sp, wstart) <= m.block_base(k)
    &&& m.block_base(k) + m.block_at(k).len <= addr_key(sp, wstart) + wlen
}

/// Chunk bookkeeping only depends on which cells are covered.
proof fn lemma_chunks_same_cover(m0: Memory, m1: Memory)
    requires
        m0.inv_chunks(),
        m1.touched_chunks@ == m0.touched_chunks@,
        m1.initial_block_len == m0.initial_block_len,
        forall|k: u64| #[trigger] m1.blocks@.contains_key(k) == m0.blocks@.contains_key(k),
    ensures
        m1.inv_chunks(),
{
    assert forall|i: int| 0 <= i < m1.touched_chunks@.len()
        implies m1.chunk_ok(#[trigger] m1.touched_chunks@[i]) by {
        assert(m0.chunk_ok(m0.touched_chunks@[i]));
        let c = m0.touched_chunks@[i];
        assert forall|j: u64| c <= j < c + m1.initial_block_len
            implies #[trigger] m1.blocks@.contains_key(j) by {
            assert(m0.blocks@.contains_key(j));
        }
    }
    assert forall|k: u64| #[trigger] m1.blocks@.contains_key(k)
        implies m1.touched_chunks@.contains(m1.chunk_of(k)) by {
        assert(m0.blocks@.contains_key(k));
        assert(m0.touched_chunks@.contains(m0.chunk_of(k)));
        assert(m1.chunk_of(k) == m0.chunk_of(k));
    }
}

/// Every cell of a well-formed block carries that block.
proof fn lemma_block_cell(m: Memory, k: u64, j2: u64)
    requires
        m.blocks@.contains_key(k),
        m.block_ok(k),
        m.block_base(k) <= j2 < m.block_base(k) + m.block_at(k).len,
    ensures
        m.blocks@.contains_key(j2),
        m.blocks@[j2] == m.block_at(k),
{
    let b = m.block_at(k);
    let base = m.block_base(k);
    assert(base <= j2 < base + b.len);
    assert(m.blocks@.contains_key(j2) && m.blocks@[j2] == b);
}

/// A covered cell outside a rewritten range keeps a well-formed block,
/// provided every cell of the range belonged to a block inside the range.
#[verifier::rlimit(100)]
#[verifier::spinoff_prover]
proof fn lemma_block_ok_rewrite_frame(m0: Memory, m1: Memory, sp: u32, wstart: u32, wlen: int, k: u64)
    requires
        m0.inv(),
        m1.max_block_len == m0.max_block_len,
        m1.timestamp >= m0.timestamp,
        0 <= wlen,
        wstart + wlen <= SPACE_SIZE,
        forall|k2: u64| !in_range(sp, wstart, wlen, k2) ==> (
            #[trigger] m1.blocks@.contains_key(k2) == m0.blocks@.contains_key(k2)
            && (m0.blocks@.contains_key(k2) ==> m1.blocks@[k2] == m0.blocks@[k2])
        ),
        forall|j: int| 0 <= j < wlen ==> m0.covered(#[trigger] key_at(sp, wstart, j))
            && block_inside(m0, key_at(sp, wstart, j), sp, wstart, wlen),
        m1.blocks@.contains_key(k),
        !in_range(sp, wstart, wlen, k),
    ensures
        m1.block_ok(k),
        m1.block_at(k) == m0.block_at(k),
{
    assert(m0.blocks@.contains_key(k));
    assert(m0.block_ok(k));
    let b = m0.block_at(k);
    assert(m1.block_at(k) == b);
    assert(m1.block_base(k) == m0.block_base(k));
    let base = m0.block_base(k);
    assert forall|j2: u64| base <= j2 < base + b.len
        implies #[trigger] m1.blocks@.contains_key(j2) && m1.blocks@[j2] == b by {
        lemma_block_cell(m0, k, j2);
        assert(m0.blocks@.contains_key(j2) && m0.blocks@[j2] == b);
        if in_range(sp, wstart, wlen, j2) {
            // Then j2's block is b itself, whose extent lies inside the
            // range, so k would lie inside the range too.
            let o = j2 - addr_key(sp, wstart);
            lemma_key_offset(sp, wstart, o as int);
            assert(key_at(sp, wstart, o as int) == j2);
            assert(block_inside(m0, j2, sp, wstart, wlen));
            assert(m0.block_at(j2) == b);
            assert(m0.block_base(j2) == base);
            assert(m0.block_ok(k));
            assert(base <= k < base + b.len);
        }
    }
}

/// A cell outside the freshly covered range keeps a well-formed block when
/// the range was previously uncovered and everything outside it is unchanged.
#[verifier::rlimit(100)]
#[verifier::spinoff_prover]
proof fn lemma_block_ok_outside_frame(m0: Memory, m1: Memory, sp: u32, cptr: u32, glen: int, k: u64)
    requires
        m0.inv(),
        m1.max_block_len == m0.max_block_len,
        m1.timestamp >= m0.timestamp,
        0 <= glen,
        cptr + glen <= SPACE_SIZE,
        forall|k2: u64| !in_range(sp, cptr, glen, k2) ==> (
            #[trigger] m1.blocks@.contains_key(k2) == m0.blocks@.contains_key(k2)
            && (m0.blocks@.contains_key(k2) ==> m1.blocks@[k2] == m0.blocks@[k2])
        ),
        forall|j: int| 0 <= j < glen ==> !m0.covered(#[trigger] key_at(sp, cptr, j)),
        m1.blocks@.contains_key(k),
        !in_range(sp, cptr, glen, k),
    ensures
        m1.block_ok(k),
{
    assert(m0.blocks@.contains_key(k));
    assert(m0.block_ok(k));
    let b = m0.block_at(k);
    assert(m1.block_at(k) == b);
    assert(m1.block_base(k) == m0.block_base(k));
    let base = m0.block_base(k);
    assert forall|j2: u64| base <= j2 < base + b.len
        implies #[trigger] m1.blocks@.contains_key(j2) && m1.blocks@[j2] == b by {
        lemma_block_cell(m0, k, j2);
        assert(m0.blocks@.contains_key(j2) && m0.blocks@[j2] == b);
        if in_range(sp, cptr, glen, j2) {
            let o = j2 - addr_key(sp, cptr);
            lemma_key_offset(sp, cptr, o as int);
            assert(key_at(sp, cptr, o as int) == j2);
            assert(!m0.covered(j2));
        }
    }
}

/// After overwriting the two halves of one block with half-sized blocks of
/// the same timestamp, the invariant holds, and coverage and per-cell
/// timestamps are exactly what they were.
#[verifier::rlimit(100)]
#[verifier::spinoff_prover]
proof fn lemma_split_step(m0: Memory, ma: Memory, m1: Memory, sp: u32, b: BlockRec)
    requires
        m0.inv(),
        is_power_of_two(b.len as int),
        2 <= b.len <= m0.max_block_len,
        b.start + b.len <= SPACE_SIZE,
        b.ts < m0.timestamp,
        forall|j: int| 0 <= j < b.len ==> m0.covered(#[trigger] key_at(sp, b.start, j))
            && m0.block_at(key_at(sp, b.start, j)) == b,
        ma.timestamp == m0.timestamp,
        ma.vals@ == m0.vals@,
        ma.touched_chunks@ == m0.touched_chunks@,
        ma.initial_block_len == m0.initial_block_len,
        ma.max_block_len == m0.max_block_len,
        forall|j: int| 0 <= j < b.len / 2 ==> ma.blocks@.contains_key(#[trigger] key_at(sp, b.start, j))
            && ma.blocks@[key_at(sp, b.start, j)]
                == (BlockRec { start: b.start, len: b.len / 2, ts: b.ts }),
        forall|k: u64| !(addr_key(sp, b.start) <= k < addr_key(sp, b.start) + b.len / 2) ==> (
            #[trigger] ma.blocks@.contains_key(k) == m0.blocks@.contains_key(k)
            && (m0.blocks@.contains_key(k) ==> ma.blocks@[k] == m0.blocks@[k])
        ),
        m1.timestamp == ma.timestamp,
        m1.vals@ == ma.vals@,
        m1.touched_chunks@ == ma.touched_chunks@,
        m1.initial_block_len == ma.initial_block_len,
        m1.max_block_len == ma.max_block_len,
        forall|j: int| 0 <= j < b.len / 2
            ==> m1.blocks@.contains_key(#[trigger] key_at(sp, (b.start + b.len / 2) as u32, j))
                && m1.blocks@[key_at(sp, (b.start + b.len / 2) as u32, j)]
                    == (BlockRec { start: (b.start + b.len / 2) as u32, len: b.len / 2, ts: b.ts }),
        forall|k: u64| !(addr_key(sp, (b.start + b.len / 2) as u32) <= k
                < addr_key(sp, (b.start + b.len / 2) as u32) + b.len / 2) ==> (
            #[trigger] m1.blocks@.contains_key(k) == ma.blocks@.contains_key(k)
            && (ma.blocks@.contains_key(k) ==> m1.blocks@[k] == ma.blocks@[k])
        ),
    ensures
        m1.inv(),
        forall|k: u64| #[trigger] m1.covered(k) == m0.covered(k),
        forall|k: u64| #[trigger] m1.ts_of(k) == m0.ts_of(k),
        forall|j: int| 0 <= j < b.len / 2 ==> m1.block_at(#[trigger] key_at(sp, b.start, j))
            == (BlockRec { start: b.start, len: b.len / 2, ts: b.ts }),
        forall|j: int| b.len / 2 <= j < b.len ==> m1.block_at(#[trigger] key_at(sp, b.start, j))
            == (BlockRec { start: (b.start + b.len / 2) as u32, len: b.len / 2, ts: b.ts }),
        forall|k: u64| m0.covered(k)
            && !(addr_key(sp, b.start) <= k < addr_key(sp, b.start) + b.len)
            ==> #[trigger] m1.block_at(k) == m0.block_at(k) && m1.block_base(k) == m0.block_base(k),
{
    let half = b.len / 2;
    let bbase = addr_key(sp, b.start);
    let bl = BlockRec { start: b.start, len: half, ts: b.ts };
    let br = BlockRec { start: (b.start + half) as u32, len: half, ts: b.ts };
    assert(b.len % 2 == 0 && is_power_of_two(half as int));
    lemma_key_decompose(sp, b.start);
    lemma_key_offset(sp, b.start, half as int);
    assert(addr_key(sp, (b.start + half) as u32) == (bbase + half) as u64);
    // Bridge the two write ranges to offsets from the extent base.
    assert forall|j: int| half <= j < b.len implies m1.blocks@.contains_key(#[trigger] key_at(sp, b.start, j))
        && m1.blocks@[key_at(sp, b.start, j)] == br by {
        lemma_key_offset(sp, b.start, j);
        lemma_key_offset(sp, (b.start + half) as u32, j - half);
        assert(key_at(sp, (b.start + half) as u32, j - half) == key_at(sp, b.start, j));
    }
    assert forall|j: int| 0 <= j < half implies m1.blocks@.contains_key(#[trigger] key_at(sp, b.start, j))
        && m1.blocks@[key_at(sp, b.start, j)] == bl by {
        lemma_key_offset(sp, b.start, j);
        assert(!(addr_key(sp, (b.start + half) as u32) <= key_at(sp, b.start, j)
            < addr_key(sp, (b.start + half) as u32) + half));
        assert(ma.blocks@[key_at(sp, b.start, j)] == bl);
    }
    // Outside the extent, nothing changed.
    assert forall|k: u64| !(bbase <= k < bbase + b.len) implies
        #[trigger] m1.blocks@.contains_key(k) == m0.blocks@.contains_key(k)
        && (m0.blocks@.contains_key(k) ==> m1.blocks@[k] == m0.blocks@[k]) by {
        assert(!(addr_key(sp, b.start) <= k < addr_key(sp, b.start) + half));
        assert(!(addr_key(sp, (b.start + half) as u32) <= k < addr_key(sp, (b.start + half) as u32) + half));
    }
    // Coverage is unchanged everywhere.
    assert forall|k: u64| #[trigger] m1.blocks@.contains_key(k) == m0.blocks@.contains_key(k) by {
        if bbase <= k < bbase + b.len {
            let o = k - bbase;
            lemma_key_offset(sp, b.start, o as int);
            assert(key_at(sp, b.start, o as int) == k);
            assert(m0.covered(k));
            assert(m1.blocks@.contains_key(k));
        }
    }
    assert forall|k: u64| m0.covered(k) && !(bbase <= k < bbase + b.len)
        implies #[trigger] m1.block_at(k) == m0.block_at(k) && m1.block_base(k) == m0.block_base(k) by {
        assert(m1.blocks@.contains_key(k) == m0.blocks@.contains_key(k));
        assert(m1.blocks@[k] == m0.blocks@[k]);
    }
    // Per-cell timestamps are unchanged everywhere.
    assert forall|k: u64| #[trigger] m1.ts_of(k) == m0.ts_of(k) by {
        if bbase <= k < bbase + b.len {
            let o = k - bbase;
            lemma_key_offset(sp, b.start, o as int);
            assert(key_at(sp, b.start, o as int) == k);
            assert(m0.block_at(k) == b);
            assert(m1.block_at(k) == bl || m1.block_at(k) == br);
        }
    }
    // Every covered cell again carries a well-formed block.
    assert forall|k: u64| #[trigger] m1.blocks@.contains_key(k) implies m1.block_ok(k) by {
        if bbase <= k < bbase + b.len {
            let o = k - bbase;
            lemma_key_offset(sp, b.start, o as int);
            assert(key_at(sp, b.start, o as int) == k);
            if o < half {
                assert(m1.block_at(k) == bl);
                assert(m1.block_base(k) == bbase);
                assert forall|j2: u64| bbase <= j2 < bbase + half
                    implies #[trigger] m1.blocks@.contains_key(j2) && m1.blocks@[j2] == bl by {
                    let o2 = j2 - bbase;
                    lemma_key_offset(sp, b.start, o2 as int);
                    assert(key_at(sp, b.start, o2 as int) == j2);
                }
                assert(m1.block_ok(k));
            } else {
                assert(m1.block_at(k) == br);
                assert(m1.block_base(k) == (bbase + half) as u64);
                assert forall|j2: u64| (bbase + half) as u64 <= j2 < (bbase + half) as u64 + half
                    implies #[trigger] m1.blocks@.contains_key(j2) && m1.blocks@[j2] == br by {
                    let o2 = j2 - bbase;
                    lemma_key_offset(sp, b.start, o2 as int);
                    assert(key_at(sp, b.start, o2 as int) == j2);
                }
                assert(m1.block_ok(k));
            }
        } else {
            lemma_block_ok_rewrite_frame(m0, m1, sp, b.start, b.len as int, k);
        }
    }
    lemma_chunks_same_cover(m0, m1);
}

/// After overwriting a range tiled by its two half blocks with one full
/// block stamped with the larger of their timestamps, the invariant holds.
#[verifier::rlimit(100)]
#[verifier::spinoff_prover]
proof fn lemma_merge_step(m2: Memory, m3: Memory, sp: u32, ptr: u32, n: u32, lb: BlockRec, rb: BlockRec, t: u32)
    requires
        m2.inv(),
        is_power_of_two(n as int),
        2 <= n <= m2.max_block_len,
        ptr + n <= SPACE_SIZE,
        lb == (BlockRec { start: ptr, len: n / 2, ts: lb.ts }),
        rb == (BlockRec { start: (ptr + n / 2) as u32, len: n / 2, ts: rb.ts }),
        t == (if lb.ts > rb.ts { lb.ts } else { rb.ts }),
        forall|j: int| 0 <= j < n / 2 ==> m2.covered(#[trigger] key_at(sp, ptr, j))
            && m2.block_at(key_at(sp, ptr, j)) == lb,
        forall|j: int| n / 2 <= j < n ==> m2.covered(#[trigger] key_at(sp, ptr, j))
            && m2.block_at(key_at(sp, ptr, j)) == rb,
        m3.timestamp == m2.timestamp,
        m3.vals@ == m2.vals@,
        m3.touched_chunks@ == m2.touched_chunks@,
        m3.initial_block_len == m2.initial_block_len,
        m3.max_block_len == m2.max_block_len,
        forall|j: int| 0 <= j < n ==> m3.blocks@.contains_key(#[trigger] key_at(sp, ptr, j))
            && m3.blocks@[key_at(sp, ptr, j)] == (BlockRec { start: ptr, len: n, ts: t }),
        forall|k: u64| !(addr_key(sp, ptr) <= k < addr_key(sp, ptr) + n) ==> (
            #[trigger] m3.blocks@.contains_key(k) == m2.blocks@.contains_key(k)
            && (m2.blocks@.contains_key(k) ==> m3.blocks@[k] == m2.blocks@[k])
        ),
    ensures
        m3.inv(),
        forall|k: u64| #[trigger] m3.covered(k) == m2.covered(k),
        forall|k: u64| !in_range(sp, ptr, n as int, k) ==> #[trigger] m3.ts_of(k) == m2.ts_of(k),
        forall|j: int| 0 <= j < n ==> m3.block_at(#[trigger] key_at(sp, ptr, j))
            == (BlockRec { start: ptr, len: n, ts: t }),
        t < m3.timestamp,
        forall|k: u64| m2.covered(k)
            && !(addr_key(sp, ptr) <= k < addr_key(sp, ptr) + n)
            ==> #[trigger] m3.block_at(k) == m2.block_at(k) && m3.block_base(k) == m2.block_base(k),
{
    let akey = addr_key(sp, ptr);
    let nb = BlockRec { start: ptr, len: n, ts: t };
    lemma_key_decompose(sp, ptr);
    assert(m2.covered(key_at(sp, ptr, 0)));
    assert(key_at(sp, ptr, 0) == akey);
    assert(m2.block_ok(akey));
    assert(t < m2.timestamp) by {
        lemma_key_offset(sp, ptr, (n / 2) as int);
        assert(m2.block_ok(key_at(sp, ptr, (n / 2) as int)));
    }
    assert forall|k: u64| #[trigger] m3.blocks@.contains_key(k) == m2.blocks@.contains_key(k) by {
        if akey <= k < akey + n {
            let o = k - akey;
            lemma_key_offset(sp, ptr, o as int);
            assert(key_at(sp, ptr, o as int) == k);
            assert(m2.covered(k));
            assert(m3.blocks@.contains_key(k));
        }
    }
    assert forall|k: u64| m2.covered(k) && !(akey <= k < akey + n)
        implies #[trigger] m3.block_at(k) == m2.block_at(k) && m3.block_base(k) == m2.block_base(k) by {
        assert(m3.blocks@.contains_key(k) == m2.blocks@.contains_key(k));
        assert(m3.blocks@[k] == m2.blocks@[k]);
    }
    assert forall|k: u64| #[trigger] m3.blocks@.contains_key(k) implies m3.block_ok(k) by {
        if akey <= k < akey + n {
            let o = k - akey;
            lemma_key_offset(sp, ptr, o as int);
            assert(key_at(sp, ptr, o as int) == k);
            assert(m3.block_at(k) == nb);
            assert(m3.block_base(k) == akey);
            assert forall|j2: u64| akey <= j2 < akey + n
                implies #[trigger] m3.blocks@.contains_key(j2) && m3.blocks@[j2] == nb by {
                let o2 = j2 - akey;
                lemma_key_offset(sp, ptr, o2 as int);
                assert(key_at(sp, ptr, o2 as int) == j2);
            }
            assert(is_power_of_two(nb.len as int));
            assert(1 <= nb.len <= m3.max_block_len);
            assert(nb.start <= key_ptr(k) < nb.start + nb.len);
            assert(nb.start + nb.len <= SPACE_SIZE);
            assert(nb.ts < m3.timestamp);
            assert(key_sp(k) < SPACE_SIZE);
            assert(m3.block_ok(k));
        } else {
            lemma_block_ok_rewrite_frame(m2, m3, sp, ptr, n as int, k);
        }
    }
    lemma_chunks_same_cover(m2, m3);
}

/// After overwriting a range that formed exactly one block with the same
/// block at a new timestamp below the clock, the invariant holds.
#[verifier::rlimit(100)]
#[verifier::spinoff_prover]
proof fn lemma_restamp_step(m2: Memory, m3: Memory, sp: u32, ptr: u32, n: u32, tnew: u32)
    requires
        m2.inv(),
        is_power_of_two(n as int),
        1 <= n <= m2.max_block_len,
        ptr + n <= SPACE_SIZE,
        tnew < m2.timestamp,
        forall|j: int| 0 <= j < n ==> m2.covered(#[trigger] key_at(sp, ptr, j))
            && m2.block_at(key_at(sp, ptr, j)).start == ptr
            && m2.block_at(key_at(sp, ptr, j)).len == n,
        m3.timestamp == m2.timestamp,
        m3.vals@ == m2.vals@,
        m3.touched_chunks@ == m2.touched_chunks@,
        m3.initial_block_len == m2.initial_block_len,
        m3.max_block_len == m2.max_block_len,
        forall|j: int| 0 <= j < n ==> m3.blocks@.contains_key(#[trigger] key_at(sp, ptr, j))
            && m3.blocks@[key_at(sp, ptr, j)] == (BlockRec { start: ptr, len: n, ts: tnew }),
        forall|k: u64| !(addr_key(sp, ptr) <= k < addr_key(sp, ptr) + n) ==> (
            #[trigger] m3.blocks@.contains_key(k) == m2.blocks@.contains_key(k)
            && (m2.blocks@.contains_key(k) ==> m3.blocks@[k] == m2.blocks@[k])
        ),
    ensures
        m3.inv(),
        forall|k: u64| #[trigger] m3.covered(k) == m2.covered(k),
        forall|k: u64| !in_range(sp, ptr, n as int, k) ==> #[trigger] m3.ts_of(k) == m2.ts_of(k),
        forall|j: int| 0 <= j < n ==> m3.ts_of(#[trigger] key_at(sp, ptr, j)) == tnew,
{
    let akey = addr_key(sp, ptr);
    let nb = BlockRec { start: ptr, len: n, ts: tnew };
    lemma_key_decompose(sp, ptr);
    assert forall|k: u64| #[trigger] m3.blocks@.contains_key(k) == m2.blocks@.contains_key(k) by {
        if akey <= k < akey + n {
            let o = k - akey;
            lemma_key_offset(sp, ptr, o as int);
            assert(key_at(sp, ptr, o as int) == k);
            assert(m2.covered(k));
            assert(m3.blocks@.contains_key(k));
        }
    }
    assert forall|k: u64| #[trigger] m3.blocks@.contains_key(k) implies m3.block_ok(k) by {
        if akey <= k < akey + n {
            let o = k - akey;
            lemma_key_offset(sp, ptr, o as int);
            assert(key_at(sp, ptr, o as int) == k);
            assert(m3.block_at(k) == nb);
            assert(m3.block_base(k) == akey);
            assert forall|j2: u64| akey <= j2 < akey + n
                implies #[trigger] m3.blocks@.contains_key(j2) && m3.blocks@[j2] == nb by {
                let o2 = j2 - akey;
                lemma_key_offset(sp, ptr, o2 as int);
                assert(key_at(sp, ptr, o2 as int) == j2);
            }
            assert(m3.block_ok(k));
        } else {
            // The range was one block, which lay inside itself.
            assert forall|j: int| 0 <= j < n implies m2.covered(#[trigger] key_at(sp, ptr, j))
                && block_inside(m2, key_at(sp, ptr, j), sp, ptr, n as int) by {
                lemma_key_offset(sp, ptr, j);
                let kj = key_at(sp, ptr, j);
                assert(m2.block_ok(kj));
                assert(m2.block_base(kj) == akey);
            }
            lemma_block_ok_rewrite_frame(m2, m3, sp, ptr, n as int, k);
        }
    }
    lemma_chunks_same_cover(m2, m3);
}

/// Division is pinned by an enclosing multiple range.
proof fn lemma_div_in(x: int, n: int, d: int)
    requires
        1 <= n,
        d * n <= x,
        x < d * n + n,
    ensures
        x / n == d,
{
    vstd::arithmetic::div_mod::lemma_fundamental_div_mod_converse(x, n, d, x - d * n);
}

/// The `t`-th region label of a chunk is in bounds and holds a covered cell.
#[verifier::rlimit(50)]
#[verifier::spinoff_prover]
proof fn lemma_chunk_label_wf(m0: Memory, c: u64, sp: u32, cptr: u32, n: int, g: u32, base_label: u32, t: int, q: int)
    requires
        m0.inv(),
        m0.chunk_ok(c),
        g == m0.initial_block_len,
        1 <= n <= 32,
        is_power_of_two(n),
        sp == key_sp(c),
        cptr == key_ptr(c),
        base_label == cptr as int / n,
        q == (if n >= g { 1int } else { g as int / n }),
        n < g ==> (g as int) % n == 0,
        0 <= t < q,
    ensures
        base_label + t < SPACE_SIZE,
        region_wf(m0, addr_key(sp, (base_label + t) as u32), n),
    decreases 0int,
{
    let gi = g as int;
    let big = cptr as int;
    let li = base_label as int;
    lemma_key_decompose(sp, cptr);
    assert(big + gi <= SPACE_SIZE);
    assert((SPACE_SIZE as int) % n == 0) by {
        crate::addr::lemma_small_pow2(n);
    }
    vstd::arithmetic::div_mod::lemma_fundamental_div_mod(big, n);
    let rr = big % n;
    vstd::arithmetic::div_mod::lemma_mod_bound(big, n);
    assert(li * n <= big < li * n + n) by {
        assert(big == n * li + rr);
        vstd::arithmetic::mul::lemma_mul_is_commutative(n, li);
    }
    if n >= gi {
        assert(t == 0);
        // The region end is a multiple of n not exceeding the space size.
        let kk = SPACE_SIZE as int / n;
        vstd::arithmetic::div_mod::lemma_fundamental_div_mod(SPACE_SIZE as int, n);
        assert(SPACE_SIZE as int == n * kk);
        assert(li < kk) by (nonlinear_arith)
            requires li * n <= big, big < SPACE_SIZE as int, SPACE_SIZE as int == n * kk, 1 <= n;
        vstd::arithmetic::mul::lemma_mul_inequality(li + 1, kk, n);
        assert((li + 1) * n <= kk * n);
        vstd::arithmetic::mul::lemma_mul_is_commutative(kk, n);
        assert((li + 1) * n <= SPACE_SIZE);
        assert(li + t < SPACE_SIZE) by (nonlinear_arith)
            requires (li + 1) * n <= SPACE_SIZE, 1 <= n, 0 <= li, t == 0;
        lemma_key_decompose(sp, (li + t) as u32);
        // Witness: the chunk's first cell lies in the region.
        assert(m0.blocks@.contains_key(c));
        assert(region_key(c, n) == addr_key(sp, (li + t) as u32));
        assert(m0.covered(c) && region_key(c, n) == addr_key(sp, (li + t) as u32));
    } else {
        let m = gi / n;
        vstd::arithmetic::div_mod::lemma_fundamental_div_mod(gi, n);
        assert(gi == n * m);
        // The chunk start is a multiple of n.
        let a = big / gi;
        vstd::arithmetic::div_mod::lemma_fundamental_div_mod(big, gi);
        assert(big == gi * a);
        assert(big == (a * m) * n) by (nonlinear_arith)
            requires big == gi * a, gi == n * m;
        vstd::arithmetic::div_mod::lemma_fundamental_div_mod_converse(big, n, a * m, 0);
        assert(li == a * m && rr == 0);
        assert(li * n == big) by {
            vstd::arithmetic::mul::lemma_mul_is_commutative(n, li);
        }
        // Region end stays within the chunk.
        vstd::arithmetic::mul::lemma_mul_inequality(t + 1, m, n);
        assert((t + 1) * n <= m * n);
        vstd::arithmetic::mul::lemma_mul_is_distributive_add_other_way(n, li, t + 1);
        assert((li + t + 1) * n == li * n + (t + 1) * n);
        vstd::arithmetic::mul::lemma_mul_is_commutative(m, n);
        assert((li + t + 1) * n <= big + gi);
        assert(li + t < SPACE_SIZE) by (nonlinear_arith)
            requires (li + t + 1) * n <= SPACE_SIZE, 1 <= n, 0 <= li + t;
        lemma_key_decompose(sp, (li + t) as u32);
        // Witness: the first cell of the sub-region, covered by the chunk.
        vstd::arithmetic::mul::lemma_mul_inequality(t, m - 1, n);
        vstd::arithmetic::mul::lemma_mul_is_distributive_sub_other_way(n, m, 1);
        assert(0 <= t * n && t * n + n <= gi) by {
            vstd::arithmetic::mul::lemma_mul_nonnegative(t, n);
        }
        lemma_key_offset(sp, cptr, t * n);
        let w = key_at(sp, cptr, t * n);
        assert(m0.blocks@.contains_key(w)) by {
            assert(c <= w < c + g);
        }
        assert(region_key(w, n) == addr_key(sp, (li + t) as u32)) by {
            assert(key_ptr(w) == big + t * n);
            vstd::arithmetic::mul::lemma_mul_is_distributive_add_other_way(n, li, t);
            assert((li + t) * n == li * n + t * n);
            lemma_div_in(big + t * n, n, li + t);
        }
        assert(m0.covered(w) && region_key(w, n) == addr_key(sp, (li + t) as u32));
    }
}

/// After a chunk's region labels are all listed, every covered cell of the
/// chunk has its region listed.
#[verifier::rlimit(50)]
#[verifier::spinoff_prover]
proof fn lemma_chunk_regions_complete(
    m0: Memory,
    c: u64,
    sp: u32,
    cptr: u32,
    n: int,
    g: u32,
    base_label: u32,
    q: int,
    regions: Seq<u64>,
    i: int,
)
    requires
        m0.inv(),
        m0.chunk_ok(c),
        g == m0.initial_block_len,
        1 <= n <= 32,
        is_power_of_two(n),
        sp == key_sp(c),
        cptr == key_ptr(c),
        base_label == cptr as int / n,
        q == (if n >= g { 1int } else { g as int / n }),
        n < g ==> (g as int) % n == 0,
        forall|t2: int| 0 <= t2 < q ==> regions.contains(#[trigger] addr_key(sp, (base_label + t2) as u32)),
    ensures
        forall|k: u64| m0.covered(k) && m0.chunk_of(k) == c ==> regions.contains(#[trigger] region_key(k, n)),
    decreases 0int,
{
    let gi = g as int;
    let big = cptr as int;
    let li = base_label as int;
    lemma_key_decompose(sp, cptr);
    vstd::arithmetic::div_mod::lemma_fundamental_div_mod(big, n);
    vstd::arithmetic::div_mod::lemma_mod_bound(big, n);
    vstd::arithmetic::mul::lemma_mul_is_commutative(n, li);
    assert(li * n <= big < li * n + n);
    assert forall|k: u64| m0.covered(k) && m0.chunk_of(k) == c
        implies regions.contains(#[trigger] region_key(k, n)) by {
        // k lies in the chunk: its pointer offset from cptr is below g.
        let kp = key_ptr(k) as int;
        let co = kp % gi;
        vstd::arithmetic::div_mod::lemma_mod_bound(kp, gi);
        assert(0 <= co < gi);
        assert(key_ptr(k) % (g as u64) == co);
        assert(m0.chunk_of(k) == (k - (key_ptr(k) % (g as u64))) as u64);
        assert(co <= kp) by (nonlinear_arith)
            requires co == kp % gi, 0 <= kp, 1 <= gi;
        assert(kp <= k) by (nonlinear_arith)
            requires kp == (k as int) % (SPACE_SIZE as int), 0 <= k as int, 1 <= SPACE_SIZE as int;
        assert(0 <= k - co <= k);
        assert(c as int == k - co);
        assert(key_sp(k) == sp && big <= kp < big + gi) by {
            assert(k == key_sp(k) * SPACE_SIZE + key_ptr(k)) by (nonlinear_arith)
                requires key_sp(k) == k / SPACE_SIZE, key_ptr(k) == k % SPACE_SIZE;
            assert(c as int == key_sp(k) * SPACE_SIZE + (kp - co));
            lemma_key_decompose(key_sp(k) as u32, (kp - co) as u32);
            assert(c == addr_key(key_sp(k) as u32, (kp - co) as u32));
            assert(key_ptr(c) == kp - co);
        }
        let o = kp - big;
        if n >= gi {
            // The whole chunk lies inside one region.
            let u = n / gi;
            assert(n % gi == 0) by {
                crate::addr::lemma_pow2_divides(gi, n);
            }
            vstd::arithmetic::div_mod::lemma_fundamental_div_mod(n, gi);
            assert(n == gi * u);
            let a = big / gi;
            vstd::arithmetic::div_mod::lemma_fundamental_div_mod(big, gi);
            assert(big == gi * a);
            // (li + 1) * n - cptr is a positive multiple of g.
            assert((li + 1) * n == ((li + 1) * u) * gi) by (nonlinear_arith)
                requires n == gi * u;
            let x = (li + 1) * n - big;
            let xq = (li + 1) * u;
            vstd::arithmetic::mul::lemma_mul_is_distributive_sub_other_way(gi, xq, a);
            vstd::arithmetic::mul::lemma_mul_is_commutative(gi, a);
            assert(x == (xq - a) * gi);
            assert(x > 0) by {
                vstd::arithmetic::mul::lemma_mul_is_distributive_add_other_way(n, li, 1);
            }
            assert(xq - a >= 1) by (nonlinear_arith)
                requires x == (xq - a) * gi, x > 0, 1 <= gi;
            assert(x >= gi) by {
                vstd::arithmetic::mul::lemma_mul_inequality(1, xq - a, gi);
            }
            assert(big + gi <= (li + 1) * n);
            vstd::arithmetic::mul::lemma_mul_is_distributive_add_other_way(n, li, 1);
            lemma_div_in(kp, n, li);
            assert(region_key(k, n) == addr_key(sp, base_label));
            assert(regions.contains(addr_key(sp, (base_label + 0) as u32)));
        } else {
            let m = gi / n;
            vstd::arithmetic::div_mod::lemma_fundamental_div_mod(gi, n);
            assert(gi == n * m);
            let a = big / gi;
            vstd::arithmetic::div_mod::lemma_fundamental_div_mod(big, gi);
            assert(big == gi * a);
            assert(big == (a * m) * n) by (nonlinear_arith)
                requires big == gi * a, gi == n * m;
            vstd::arithmetic::div_mod::lemma_fundamental_div_mod_converse(big, n, a * m, 0);
            assert(li == a * m);
            vstd::arithmetic::mul::lemma_mul_is_commutative(n, li);
            assert(li * n == big);
            let t2 = o / n;
            vstd::arithmetic::div_mod::lemma_fundamental_div_mod(o, n);
            vstd::arithmetic::div_mod::lemma_mod_bound(o, n);
            assert(o == n * t2 + o % n);
            assert(0 <= t2) by (nonlinear_arith)
                requires o == n * t2 + o % n, 0 <= o, 0 <= o % n < n, 1 <= n;
            assert(t2 < m) by (nonlinear_arith)
                requires o == n * t2 + o % n, o < gi, gi == n * m, 0 <= o % n, 1 <= n;
            assert(kp == (li + t2) * n + o % n) by {
                vstd::arithmetic::mul::lemma_mul_is_distributive_add_other_way(n, li, t2);
                vstd::arithmetic::mul::lemma_mul_is_commutative(n, t2);
            }
            lemma_div_in(kp, n, li + t2);
            assert(li + t2 < SPACE_SIZE) by (nonlinear_arith)
                requires kp == (li + t2) * n + o % n, kp < SPACE_SIZE, 0 <= o % n, 1 <= n, 0 <= li + t2;
            assert(region_key(k, n) == addr_key(sp, (base_label + t2) as u32));
            assert(regions.contains(addr_key(sp, (base_label + t2) as u32)));
        }
    }
}

/// The key of the `n`-sized region (its label) that cell `k` falls in.
pub open spec fn region_key(k: u64, n: int) -> u64 {
    crate::addr::label_key(k, n)
}

/// The key of the `j`-th cell of the region labelled `lk`.
pub open spec fn label_cell(lk: u64, n: int, j: int) -> u64 {
    addr_key(key_sp(lk) as u32, ((key_ptr(lk) as int) * n + j) as u32)
}

/// A region label that finalization must produce: in bounds, and holding at
/// least one covered cell.
pub open spec fn region_wf(m0: Memory, lk: u64, n: int) -> bool {
    &&& key_sp(lk) < SPACE_SIZE
    &&& (key_ptr(lk) + 1) * n <= SPACE_SIZE
    &&& exists|k: u64| m0.covered(k) && region_key(k, n) == lk
}

/// One finalized block: the values and the greatest last-access time that
/// the store held for the region.
pub open spec fn final_entry_ok(m0: Memory, n: int, lk: u64, ts: u32, vals: Seq<u32>) -> bool {
    &&& vals.len() == n
    &&& (forall|j: int| 0 <= j < n ==> vals[j] == m0.val_of(#[trigger] label_cell(lk, n, j)))
    &&& ts == m0.max_ts_in(label_cell(lk, n, 0), n)
}

/// Cells of distinct regions are distinct.
proof fn lemma_regions_disjoint(lk1: u64, lk2: u64, n: int, j: int)
    requires
        1 <= n,
        key_sp(lk1) < SPACE_SIZE,
        key_sp(lk2) < SPACE_SIZE,
        (key_ptr(lk1) + 1) * n <= SPACE_SIZE,
        (key_ptr(lk2) + 1) * n <= SPACE_SIZE,
        lk1 != lk2,
        0 <= j < n,
    ensures
        !(label_cell(lk1, n, 0) <= label_cell(lk2, n, j) < label_cell(lk1, n, 0) + n),
{
    let sp1 = key_sp(lk1) as u32;
    let sp2 = key_sp(lk2) as u32;
    let l1 = key_ptr(lk1) as int;
    let l2 = key_ptr(lk2) as int;
    assert(0 <= l1 * n && l1 * n + n <= SPACE_SIZE && 0 <= l2 * n && l2 * n + n <= SPACE_SIZE)
        by (nonlinear_arith)
        requires 1 <= n, 0 <= l1, 0 <= l2, (l1 + 1) * n <= SPACE_SIZE, (l2 + 1) * n <= SPACE_SIZE;
    lemma_key_decompose(sp1, (l1 * n) as u32);
    lemma_key_decompose(sp2, (l2 * n + j) as u32);
    lemma_key_decompose(sp1, key_ptr(lk1) as u32);
    lemma_key_decompose(sp2, key_ptr(lk2) as u32);
    if label_cell(lk1, n, 0) <= label_cell(lk2, n, j) < label_cell(lk1, n, 0) + n {
        let o = label_cell(lk2, n, j) - label_cell(lk1, n, 0);
        lemma_key_offset(sp1, (l1 * n) as u32, o as int);
        assert(label_cell(lk2, n, j) == key_at(sp1, (l1 * n) as u32, o as int));
        assert(sp2 == sp1);
        assert(l2 * n + j == l1 * n + o);
        assert(l2 == l1) by (nonlinear_arith)
            requires l2 * n + j == l1 * n + o, 0 <= j < n, 0 <= o < n, 1 <= n;
        assert(lk1 == addr_key(sp1, (l1) as u32));
        assert(lk2 == addr_key(sp2, (l2) as u32));
        assert(false);
    }
}

/// Every covered cell's block has exactly size `n` and starts on an
/// `n`-aligned boundary: the store is already at uniform granularity.
pub open spec fn uniform_blocks(m: Memory, n: int) -> bool {
    forall|k: u64| #[trigger] m.covered(k) ==> m.block_at(k).len == n
        && (m.block_at(k).start as int) % n == 0
}

/// Under uniform granularity, the block of a covered cell of the region at
/// `lk` is exactly that region.
#[verifier::rlimit(50)]
#[verifier::spinoff_prover]
proof fn lemma_uniform_region_block(m: Memory, n: int, lk: u64, k0: u64, sp: u32, rptr: u32)
    requires
        m.inv(),
        is_power_of_two(n),
        1 <= n <= 32,
        uniform_blocks(m, n),
        m.covered(k0),
        region_key(k0, n) == lk,
        sp == key_sp(lk),
        key_sp(lk) < SPACE_SIZE,
        (key_ptr(lk) + 1) * n <= SPACE_SIZE,
        rptr == (key_ptr(lk) as int) * n,
    ensures
        m.covered(addr_key(sp, rptr)),
        forall|j: u64| addr_key(sp, rptr) <= j < addr_key(sp, rptr) + n
            ==> #[trigger] m.blocks@.contains_key(j)
                && m.blocks@[j] == (BlockRec { start: rptr, len: n as u32, ts: m.block_at(k0).ts }),
{
    let b = m.block_at(k0);
    assert(m.block_ok(k0));
    let kp = key_ptr(k0) as int;
    let st = b.start as int;
    // The block start is the region base.
    vstd::arithmetic::div_mod::lemma_fundamental_div_mod(st, n);
    assert(st == n * (st / n));
    assert((st / n) * n <= kp < (st / n) * n + n) by {
        vstd::arithmetic::mul::lemma_mul_is_commutative(n, st / n);
    }
    lemma_div_in(kp, n, st / n);
    assert(kp / n == st / n);
    // Decompose the region key.
    assert(0 <= kp / n < SPACE_SIZE) by (nonlinear_arith)
        requires 1 <= n, 0 <= kp < SPACE_SIZE;
    lemma_key_decompose(key_sp(k0) as u32, (kp / n) as u32);
    assert(key_sp(lk) == key_sp(k0) && key_ptr(lk) == kp / n);
    assert(rptr == (kp / n) * n);
    assert(rptr == st) by {
        vstd::arithmetic::mul::lemma_mul_is_commutative(n, st / n);
    }
    // The block base is the region base key.
    assert(k0 == key_sp(k0) * SPACE_SIZE + key_ptr(k0)) by (nonlinear_arith)
        requires key_sp(k0) == k0 / SPACE_SIZE, key_ptr(k0) == k0 % SPACE_SIZE;
    lemma_key_decompose(sp, rptr);
    assert(m.block_base(k0) == addr_key(sp, rptr));
    assert(b == (BlockRec { start: rptr, len: n as u32, ts: b.ts }));
    assert forall|j: u64| addr_key(sp, rptr) <= j < addr_key(sp, rptr) + n
        implies #[trigger] m.blocks@.contains_key(j)
            && m.blocks@[j] == (BlockRec { start: rptr, len: n as u32, ts: b.ts }) by {
        lemma_block_cell(m, k0, j);
    }
    assert(m.blocks@.contains_key(addr_key(sp, rptr)));
}

/// Distinct `n`-aligned keys of `n`-sized blocks are at least `n` apart.
#[verifier::rlimit(50)]
#[verifier::spinoff_prover]
proof fn lemma_aligned_keys_disjoint(n: int, base1: u64, base2: u64)
    requires
        is_power_of_two(n),
        1 <= n <= 32,
        (key_ptr(base1) as int) % n == 0,
        (key_ptr(base2) as int) % n == 0,
        base1 != base2,
    ensures
        base1 + n <= base2 || base2 + n <= base1,
{
    crate::addr::lemma_small_pow2(n);
    assert((SPACE_SIZE as int) % n == 0);
    let m = SPACE_SIZE as int / n;
    vstd::arithmetic::div_mod::lemma_fundamental_div_mod(SPACE_SIZE as int, n);
    assert(SPACE_SIZE as int == n * m);
    let q1 = key_sp(base1) as int * m + (key_ptr(base1) as int) / n;
    let q2 = key_sp(base2) as int * m + (key_ptr(base2) as int) / n;
    assert(base1 == key_sp(base1) * SPACE_SIZE + key_ptr(base1)) by (nonlinear_arith)
        requires key_sp(base1) == base1 / SPACE_SIZE, key_ptr(base1) == base1 % SPACE_SIZE;
    assert(base2 == key_sp(base2) * SPACE_SIZE + key_ptr(base2)) by (nonlinear_arith)
        requires key_sp(base2) == base2 / SPACE_SIZE, key_ptr(base2) == base2 % SPACE_SIZE;
    vstd::arithmetic::div_mod::lemma_fundamental_div_mod(key_ptr(base1) as int, n);
    vstd::arithmetic::div_mod::lemma_fundamental_div_mod(key_ptr(base2) as int, n);
    assert(base1 == n * q1) by (nonlinear_arith)
        requires
            base1 == key_sp(base1) * SPACE_SIZE + key_ptr(base1),
            SPACE_SIZE as int == n * m,
            key_ptr(base1) as int == n * ((key_ptr(base1) as int) / n),
            q1 == key_sp(base1) as int * m + (key_ptr(base1) as int) / n,
    ;
    assert(base2 == n * q2) by (nonlinear_arith)
        requires
            base2 == key_sp(base2) * SPACE_SIZE + key_ptr(base2),
            SPACE_SIZE as int == n * m,
            key_ptr(base2) as int == n * ((key_ptr(base2) as int) / n),
            q2 == key_sp(base2) as int * m + (key_ptr(base2) as int) / n,
    ;
    assert(base1 + n <= base2 || base2 + n <= base1) by (nonlinear_arith)
        requires base1 == n * q1, base2 == n * q2, base1 != base2, 1 <= n;
}

/// Under uniform granularity, one finalize region step emits no records and
/// leaves every block as it was.
#[verifier::rlimit(100)]
#[verifier::spinoff_prover]
proof fn lemma_finalize_uniform_step(
    m0: Memory,
    ma: Memory,
    mb: Memory,
    mc: Memory,
    n: u32,
    lk: u64,
    sp: u32,
    label: u32,
    rptr: u32,
    rkey: u64,
    recs_pre: Seq<AccessAdapterRecord>,
    recs_now: Seq<AccessAdapterRecord>,
)
    requires
        m0.inv(),
        is_power_of_two(n as int),
        1 <= n <= 32,
        uniform_blocks(m0, n as int),
        region_wf(m0, lk, n as int),
        sp == key_sp(lk),
        label == key_ptr(lk),
        key_sp(lk) < SPACE_SIZE,
        (key_ptr(lk) + 1) * n <= SPACE_SIZE,
        rptr == (label as int) * (n as int),
        rkey == addr_key(sp, rptr),
        recs_pre.len() == 0,
        forall|k: u64| #[trigger] m0.covered(k) ==> ma.covered(k) && ma.block_at(k) == m0.block_at(k),
        forall|k: u64| #[trigger] m0c(ma, k) ==> mb.covered(k) && mb.block_at(k) == ma.block_at(k),
        forall|j: int| 0 <= j < n ==> mc.block_at(#[trigger] key_at(sp, rptr, j))
            == (BlockRec { start: rptr, len: n, ts: mb.max_ts_in(rkey, n as int) }),
        forall|k: u64| mb.covered(k)
            && !(mb.block_base(k) < rkey + n && rkey < mb.block_base(k) + mb.block_at(k).len)
            ==> #[trigger] mc.block_at(k) == mb.block_at(k),
        forall|k: u64| #[trigger] mc.covered(k) == mb.covered(k),
        mb.block_at(rkey).start == rptr && mb.block_at(rkey).len == n ==> recs_now == recs_pre,
    ensures
        recs_now.len() == 0,
        forall|k: u64| #[trigger] m0.covered(k) ==> mc.covered(k) && mc.block_at(k) == m0.block_at(k),
{
    let k0 = choose|k0: u64| m0.covered(k0) && region_key(k0, n as int) == lk;
    lemma_uniform_region_block(m0, n as int, lk, k0, sp, rptr);
    let b0 = BlockRec { start: rptr, len: n, ts: m0.block_at(k0).ts };
    assert(m0.blocks@.contains_key(rkey) && m0.blocks@[rkey] == b0);
    assert(ma.covered(rkey) && ma.block_at(rkey) == b0);
    assert(m0c(ma, rkey));
    assert(mb.covered(rkey) && mb.block_at(rkey) == b0);
    assert(recs_now == recs_pre);
    lemma_key_decompose(sp, rptr);
    vstd::arithmetic::div_mod::lemma_fundamental_div_mod_converse(rptr as int, n as int, label as int, 0);
    assert((rptr as int) % (n as int) == 0);
    // Every region cell of `mb` still carries the region's block.
    assert forall|j: u64| rkey <= j < rkey + n implies #[trigger] mb.ts_of(j) == b0.ts by {
        assert(m0.blocks@.contains_key(j) && m0.blocks@[j] == b0);
        assert(m0.covered(j));
        assert(ma.covered(j) && ma.block_at(j) == b0);
        assert(m0c(ma, j));
        assert(mb.block_at(j) == b0);
        assert(mb.covered(j));
    }
    assert(rkey + n <= 0x1_0000_0000_0000_0000) by (nonlinear_arith)
        requires
            rkey == (key_sp(rkey) * SPACE_SIZE + key_ptr(rkey)) as u64,
            key_sp(rkey) == rkey / SPACE_SIZE,
            key_ptr(rkey) == rkey % SPACE_SIZE,
            key_ptr(rkey) + n <= SPACE_SIZE,
            key_sp(rkey) < SPACE_SIZE,
            SPACE_SIZE == 0x1_0000_0000,
    ;
    lemma_max_ts_uniform(mb, rkey, n as int, b0.ts);
    assert forall|k: u64| #[trigger] m0.covered(k) implies mc.covered(k) && mc.block_at(k) == m0.block_at(k) by {
        assert(ma.covered(k) && ma.block_at(k) == m0.block_at(k));
        assert(m0c(ma, k));
        assert(mb.covered(k) && mb.block_at(k) == m0.block_at(k));
        assert(mc.covered(k) == mb.covered(k));
        if rkey <= k < rkey + n {
            // Inside the region the rewrite reinstated the same block.
            assert(m0.blocks@.contains_key(k) && m0.blocks@[k] == b0);
            let o = k - rkey;
            lemma_key_offset(sp, rptr, o as int);
            assert(key_at(sp, rptr, o as int) == k);
            assert(mc.block_at(k) == (BlockRec { start: rptr, len: n, ts: b0.ts }));
            assert(mc.block_at(k) == m0.block_at(k));
        } else {
            // Outside: the cell's block is a different aligned region.
            let bk = m0.block_at(k);
            assert(m0.block_ok(k));
            let basek = m0.block_base(k);
            assert(mb.block_base(k) == basek);
            assert(k == key_sp(k) * SPACE_SIZE + key_ptr(k)) by (nonlinear_arith)
                requires key_sp(k) == k / SPACE_SIZE, key_ptr(k) == k % SPACE_SIZE;
            assert(basek == addr_key(key_sp(k) as u32, bk.start));
            lemma_key_decompose(key_sp(k) as u32, bk.start);
            assert(key_ptr(basek) == bk.start);
            assert(basek <= k < basek + bk.len);
            if basek == rkey {
                assert(bk.len == n);
                assert(false);
            }
            lemma_aligned_keys_disjoint(n as int, basek, rkey);
            assert(!(mb.block_base(k) < rkey + n && rkey < mb.block_base(k) + mb.block_at(k).len));
            assert(mc.block_at(k) == mb.block_at(k));
        }
    }
}

/// The value the first `i` blocks of an equipartition assign to `(sp, ptr)`.
pub open spec fn part_prefix_val(part: Equipartition, g: int, i: int, sp: u32, ptr: u32) -> u32 {
    let m = crate::kvlist::map_of_pairs(part.pairs().take(i));
    let lk = addr_key(sp, ((ptr as int) / g) as u32);
    if m.contains_key(lk) {
        m[lk][(ptr as int) % g]
    } else {
        0
    }
}

/// Loading one whole block of an equipartition extends the prefix of blocks
/// whose cells the store reproduces.
#[verifier::rlimit(100)]
#[verifier::spinoff_prover]
proof fn lemma_load_step(
    r0: Memory,
    r1: Memory,
    part: Equipartition,
    g: int,
    i: int,
    sp: u32,
    label: u32,
    base: u32,
)
    requires
        part.wf(g),
        1 <= g <= 32,
        0 <= i < part.pairs().len(),
        part.pairs()[i].0 == addr_key(sp, label),
        sp == key_sp(part.pairs()[i].0),
        label == key_ptr(part.pairs()[i].0),
        base == label * g,
        base + g <= SPACE_SIZE,
        forall|sp2: u32, ptr2: u32| r0.val_of(#[trigger] addr_key(sp2, ptr2)) == part_prefix_val(part, g, i, sp2, ptr2),
        forall|j: int| 0 <= j < g ==> r1.val_of(#[trigger] key_at(sp, base, j)) == part.pairs()[i].1[j],
        forall|k: u64| !(addr_key(sp, base) <= k < addr_key(sp, base) + g) ==> (
            #[trigger] r1.vals@.contains_key(k) == r0.vals@.contains_key(k)
            && (r0.vals@.contains_key(k) ==> r1.vals@[k] == r0.vals@[k])
        ),
    ensures
        forall|sp2: u32, ptr2: u32| r1.val_of(#[trigger] addr_key(sp2, ptr2)) == part_prefix_val(part, g, i + 1, sp2, ptr2),
{
    let lk = addr_key(sp, label);
    let bs = part.pairs()[i].1;
    assert(part.pairs().take(i + 1) =~= part.pairs().take(i).push(part.pairs()[i]));
    crate::kvlist::lemma_map_of_pairs_push(part.pairs().take(i), part.pairs()[i].0, bs);
    // The key is fresh in the prefix.
    assert(!crate::kvlist::map_of_pairs(part.pairs().take(i)).contains_key(lk)) by {
        crate::kvlist::lemma_map_of_pairs_contains(part.pairs().take(i), lk);
        if crate::kvlist::map_of_pairs(part.pairs().take(i)).contains_key(lk) {
            let j = choose|j: int| 0 <= j < part.pairs().take(i).len() && part.pairs().take(i)[j].0 == lk;
            assert(part.pairs()[j].0 == part.pairs()[i].0);
        }
    }
    lemma_key_decompose(sp, label);
    assert forall|sp2: u32, ptr2: u32| r1.val_of(#[trigger] addr_key(sp2, ptr2))
        == part_prefix_val(part, g, i + 1, sp2, ptr2) by {
        let lk2 = addr_key(sp2, ((ptr2 as int) / g) as u32);
        lemma_key_decompose(sp2, ptr2);
        vstd::arithmetic::div_mod::lemma_fundamental_div_mod(ptr2 as int, g);
        assert(0 <= (ptr2 as int) % g < g) by (nonlinear_arith)
            requires 1 <= g;
        assert(0 <= (ptr2 as int) / g < SPACE_SIZE) by (nonlinear_arith)
            requires 1 <= g, 0 <= ptr2 < SPACE_SIZE;
        lemma_key_decompose(sp2, ((ptr2 as int) / g) as u32);
        if lk2 == lk {
            assert(sp2 == sp && (ptr2 as int) / g == label);
            let j = (ptr2 as int) % g;
            assert((ptr2 as int) / g == label);
            assert(ptr2 as int == g * ((ptr2 as int) / g) + j);
            assert(g * (label as int) == (label as int) * g) by (nonlinear_arith);
            assert(ptr2 == base + j);
            lemma_key_offset(sp, base, j);
            assert(addr_key(sp2, ptr2) == key_at(sp, base, j));
            assert(r1.val_of(addr_key(sp2, ptr2)) == bs[j]);
        } else {
            assert(!(addr_key(sp, base) <= addr_key(sp2, ptr2) < addr_key(sp, base) + g)) by {
                if addr_key(sp, base) <= addr_key(sp2, ptr2) < addr_key(sp, base) + g {
                    let j = addr_key(sp2, ptr2) - addr_key(sp, base);
                    lemma_key_offset(sp, base, j as int);
                    assert(addr_key(sp2, ptr2) == key_at(sp, base, j as int));
                    assert(sp2 == sp && ptr2 == base + j);
                    assert((ptr2 as int) / g == label) by (nonlinear_arith)
                        requires
                            ptr2 == base + j,
                            base == label * g,
                            0 <= j < g,
                            1 <= g,
                    ;
                }
            }
            assert(r1.val_of(addr_key(sp2, ptr2)) == r0.val_of(addr_key(sp2, ptr2)));
        }
    }
}

/// Shorthand: the cell is covered (used to phrase monotone coverage).
pub open spec fn m0c(m: Memory, k: u64) -> bool {
    m.covered(k)
}

/// One materialization step of a span: the invariants of the chunk loop.
#[verifier::rlimit(100)]
#[verifier::spinoff_prover]
proof fn lemma_span_step(
    m0: Memory,
    mpre: Memory,
    mnow: Memory,
    sp: u32,
    ptr: u32,
    n: u32,
    g: u32,
    first_c: u32,
    c: u64,
    cptr: u32,
    akey: u64,
)
    requires
        m0.inv(),
        mpre.inv(),
        mnow.inv(),
        1 <= n,
        ptr + n <= SPACE_SIZE,
        akey == addr_key(sp, ptr),
        g == m0.initial_block_len,
        mpre.initial_block_len == g,
        mnow.initial_block_len == g,
        first_c % g == 0,
        first_c <= ptr,
        ptr - first_c < g,
        first_c as u64 <= c,
        c % (g as u64) == 0,
        c < SPACE_SIZE,
        cptr == c,
        cptr + g <= SPACE_SIZE,
        forall|o: int| 0 <= o < c - first_c ==> mpre.covered(#[trigger] key_at(sp, first_c, o)),
        forall|k: u64| #[trigger] m0c(m0, k) ==> mpre.covered(k) && mpre.block_at(k) == m0.block_at(k),
        forall|k: u64| #[trigger] mpre.ts_of(k) == m0.ts_of(k),
        n == g && ptr % g == 0 && !m0.covered(akey) && c <= ptr as u64 ==> !mpre.covered(akey),
        n == g && ptr % g == 0 && !m0.covered(akey) && c > ptr as u64
            ==> mpre.covered(akey) && mpre.block_at(akey) == (BlockRec { start: ptr, len: g, ts: INITIAL_TIMESTAMP }),
        // Either nothing changed, or exactly the chunk at cptr was materialized.
        mpre.covered(addr_key(sp, cptr)) ==> mnow == mpre,
        !mpre.covered(addr_key(sp, cptr)) ==> ({
            &&& forall|j: int| 0 <= j < g ==> mnow.covered(#[trigger] key_at(sp, cptr, j))
                && mnow.block_at(key_at(sp, cptr, j)) == (BlockRec { start: cptr, len: g, ts: INITIAL_TIMESTAMP })
            &&& forall|k: u64| !in_range(sp, cptr, g as int, k) ==> (
                #[trigger] mnow.covered(k) == mpre.covered(k)
                && (mpre.covered(k) ==> mnow.block_at(k) == mpre.block_at(k))
            )
            &&& forall|k: u64| #[trigger] mnow.ts_of(k) == mpre.ts_of(k)
        }),
    ensures
        forall|o: int| 0 <= o < (c + g) - first_c ==> mnow.covered(#[trigger] key_at(sp, first_c, o)),
        forall|k: u64| #[trigger] m0c(m0, k) ==> mnow.covered(k) && mnow.block_at(k) == m0.block_at(k),
        forall|k: u64| #[trigger] mnow.ts_of(k) == m0.ts_of(k),
        n == g && ptr % g == 0 && !m0.covered(akey) && c + g <= ptr as u64 ==> !mnow.covered(akey),
        n == g && ptr % g == 0 && !m0.covered(akey) && c + g > ptr as u64
            ==> mnow.covered(akey) && mnow.block_at(akey) == (BlockRec { start: ptr, len: g, ts: INITIAL_TIMESTAMP }),
{
    lemma_key_decompose(sp, cptr);
    lemma_key_decompose(sp, first_c);
    let fresh = !mpre.covered(addr_key(sp, cptr));
    assert forall|o: int| 0 <= o < (c + g) - first_c implies mnow.covered(#[trigger] key_at(sp, first_c, o)) by {
        lemma_key_offset(sp, first_c, o);
        if o < c - first_c {
            assert(mpre.covered(key_at(sp, first_c, o)));
            if fresh {
                assert(!in_range(sp, cptr, g as int, key_at(sp, first_c, o)));
            }
        } else {
            let o2 = o - (c - first_c);
            lemma_key_offset(sp, cptr, o2);
            assert(key_at(sp, cptr, o2) == key_at(sp, first_c, o));
            if fresh {
                assert(mnow.covered(key_at(sp, cptr, o2)));
            } else {
                // The whole chunk of a covered first cell is covered.
                assert(mpre.covered(addr_key(sp, cptr)));
                assert(mpre.touched_chunks@.contains(mpre.chunk_of(addr_key(sp, cptr))));
                assert(mpre.chunk_of(addr_key(sp, cptr)) == addr_key(sp, cptr)) by {
                    assert(key_ptr(addr_key(sp, cptr)) == cptr);
                }
                let i = choose|i: int| 0 <= i < mpre.touched_chunks@.len()
                    && mpre.touched_chunks@[i] == addr_key(sp, cptr);
                assert(mpre.chunk_ok(addr_key(sp, cptr)));
                assert(mpre.blocks@.contains_key(key_at(sp, cptr, o2)));
            }
        }
    }
    assert forall|k: u64| #[trigger] m0c(m0, k) implies mnow.covered(k)
        && mnow.block_at(k) == m0.block_at(k) by {
        assert(mpre.covered(k) && mpre.block_at(k) == m0.block_at(k));
        if !fresh {
            assert(mnow == mpre);
        } else if !in_range(sp, cptr, g as int, k) {
            assert(mnow.covered(k) == mpre.covered(k));
            assert(mnow.block_at(k) == mpre.block_at(k));
        }
        if fresh && in_range(sp, cptr, g as int, k) {
            let o = k - addr_key(sp, cptr);
            lemma_key_offset(sp, cptr, o as int);
            assert(key_at(sp, cptr, o as int) == k);
            // A fresh chunk was entirely uncovered before.
            assert(mpre.touched_chunks@.contains(mpre.chunk_of(k)) ==> false) by {
                if mpre.touched_chunks@.contains(mpre.chunk_of(k)) {
                    let i = choose|i: int| 0 <= i < mpre.touched_chunks@.len()
                        && mpre.touched_chunks@[i] == mpre.chunk_of(k);
                    assert(mpre.chunk_ok(mpre.chunk_of(k)));
                    assert((cptr as int + o) % (g as int) == o) by (nonlinear_arith)
                        requires
                            (cptr as int) % (g as int) == 0,
                            0 <= o < g as int,
                            1 <= g as int,
                    ;
                    assert(mpre.chunk_of(k) == addr_key(sp, cptr));
                    assert(mpre.blocks@.contains_key(addr_key(sp, cptr)));
                }
            }
            assert(false);
        }
    }
    if n == g && ptr % g == 0 && !m0.covered(akey) {
        assert(first_c == ptr) by (nonlinear_arith)
            requires
                first_c % g == 0,
                ptr % g == 0,
                first_c <= ptr,
                ptr - first_c < g,
                1 <= g,
        ;
        if c + g > ptr as u64 && c <= ptr as u64 {
            assert(cptr == ptr);
            if fresh {
                assert(key_at(sp, cptr, 0) == akey);
                assert(mnow.covered(akey) && mnow.block_at(akey) == (BlockRec { start: ptr, len: g, ts: INITIAL_TIMESTAMP }));
            } else {
                assert(!mpre.covered(akey));
                assert(false);
            }
        }
        if c > ptr as u64 {
            assert(mpre.covered(akey) && mpre.block_at(akey) == (BlockRec { start: ptr, len: g, ts: INITIAL_TIMESTAMP }));
            if fresh {
                assert(!in_range(sp, cptr, g as int, akey)) by {
                    assert(c >= first_c as u64 + g);
                }
            }
        }
    }
}

/// Changing stored values alone preserves the invariant.
proof fn lemma_inv_vals_change(m0: Memory, m1: Memory)
    requires
        m0.inv(),
        m1.blocks@ == m0.blocks@,
        m1.touched_chunks@ == m0.touched_chunks@,
        m1.timestamp == m0.timestamp,
        m1.initial_block_len == m0.initial_block_len,
        m1.max_block_len == m0.max_block_len,
    ensures
        m1.inv(),
{
    assert forall|k: u64| #[trigger] m1.blocks@.contains_key(k) implies m1.block_ok(k) by {
        assert(m0.block_ok(k));
        assert(m1.block_base(k) == m0.block_base(k));
    }
    assert forall|i: int| 0 <= i < m1.touched_chunks@.len()
        implies m1.chunk_ok(#[trigger] m1.touched_chunks@[i]) by {
        assert(m0.chunk_ok(m0.touched_chunks@[i]));
    }
    assert forall|k: u64| #[trigger] m1.blocks@.contains_key(k)
        implies m1.touched_chunks@.contains(m1.chunk_of(k)) by {
        assert(m0.touched_chunks@.contains(m0.chunk_of(k)));
    }
}

/// Raising the clock preserves the invariant.

proof fn lemma_inv_clock_advance(m: Memory, t2: u32)
    requires
        m.timestamp <= t2,
    ensures
        m.inv() ==> (Memory { timestamp: t2, ..m }).inv(),
{
    let m2 = Memory { timestamp: t2, ..m };
    if m.inv() {
        assert forall|k: u64| #[trigger] m2.blocks@.contains_key(k) implies m2.block_ok(k) by {
            assert(m.block_ok(k));
            assert(m2.block_base(k) == m.block_base(k));
        }
        assert forall|i: int| 0 <= i < m2.touched_chunks@.len() implies m2.chunk_ok(#[trigger] m2.touched_chunks@[i]) by {
            assert(m.chunk_ok(m.touched_chunks@[i]));
        }
        assert forall|k: u64| #[trigger] m2.blocks@.contains_key(k) implies m2.touched_chunks@.contains(m2.chunk_of(k)) by {
            assert(m.touched_chunks@.contains(m.chunk_of(k)));
        }
    }
}

} // verus!
