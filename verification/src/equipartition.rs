use vstd::prelude::*;
use crate::addr::{addr_key, key_sp, key_ptr, label_key, SPACE_SIZE, lemma_key_decompose};
use crate::kvlist::{map_of_pairs, unique_keys, lemma_map_of_pairs_contains, lemma_map_of_pairs_index,
    lemma_map_of_pairs_push, lemma_map_of_pairs_update};
use crate::records::TimestampedValues;

verus! {

/// Copies a vector of values.
pub fn copy_values(v: &Vec<u32>) -> (r: Vec<u32>)
    ensures
        r@ == v@,
{
    let mut r: Vec<u32> = Vec::new();
    let mut i: usize = 0;
    while i < v.len()
        invariant
            i <= v@.len(),
            r@ == v@.take(i as int),
        decreases v@.len() - i,
    {
        r.push(v[i]);
        proof {
            assert(r@ =~= v@.take(i + 1));
        }
        i += 1;
    }
    proof {
        assert(v@.take(v@.len() as int) =~= v@);
    }
    r
}

/// A block of `n` zero values.
pub fn zero_block(n: usize) -> (r: Vec<u32>)
    ensures
        r@ == Seq::new(n as nat, |i: int| 0u32),
{
    let mut r: Vec<u32> = Vec::new();
    let mut i: usize = 0;
    while i < n
        invariant
            i <= n,
            r@ == Seq::new(i as nat, |j: int| 0u32),
        decreases n - i,
    {
        r.push(0);
        proof {
            assert(r@ =~= Seq::new((i + 1) as nat, |j: int| 0u32));
        }
        i += 1;
    }
    r
}

/// A sparse memory image: a map from addresses to values, every address not
/// present holding zero.
#[derive(Clone, Debug, PartialEq, Eq)]
pub struct MemoryImage {
    pub entries: Vec<(u64, u32)>,
}

impl View for MemoryImage {
    type V = Map<u64, u32>;

    open spec fn view(&self) -> Map<u64, u32> {
        map_of_pairs(self.entries@)
    }
}

impl MemoryImage {
    pub open spec fn wf(self) -> bool {
        &&& unique_keys(self.entries@)
        &&& forall|i: int| 0 <= i < self.entries@.len() ==> key_sp(#[trigger] self.entries@[i].0) < SPACE_SIZE
    }

    /// The value at `(sp, ptr)`: what was stored, or zero.
    pub open spec fn spec_val(self, sp: u32, ptr: u32) -> u32 {
        if self@.contains_key(addr_key(sp, ptr)) {
            self@[addr_key(sp, ptr)]
        } else {
            0
        }
    }

    pub fn new() -> (r: Self)
        ensures
            r.wf(),
            r.entries@.len() == 0,
            r@ == Map::<u64, u32>::empty(),
    {
        MemoryImage { entries: Vec::new() }
    }

    pub fn len(&self) -> (r: usize)
        ensures
            r == self.entries@.len(),
    {
        self.entries.len()
    }

    /// Stores `value` at `(sp, ptr)`, replacing any earlier value.
    pub fn insert(&mut self, sp: u32, ptr: u32, value: u32)
        requires
            old(self).wf(),
        ensures
            final(self).wf(),
            final(self)@ == old(self)@.insert(addr_key(sp, ptr), value),
    {
        proof {
            lemma_key_decompose(sp, ptr);
        }
        let k = crate::addr::make_key(sp, ptr);
        let mut i: usize = 0;
        while i < self.entries.len()
            invariant
                self == old(self),
                self.wf(),
                k == addr_key(sp, ptr),
                i <= self.entries@.len(),
                forall|j: int| 0 <= j < i ==> (#[trigger] self.entries@[j]).0 != k,
            decreases self.entries@.len() - i,
        {
            if self.entries[i].0 == k {
                let ghost s = self.entries@;
                self.entries.remove(i);
                self.entries.insert(i, (k, value));
                proof {
                    assert(self.entries@ =~= s.update(i as int, (k, value)));
                    lemma_map_of_pairs_update(s, i as int, value);
                    crate::kvlist::lemma_unique_after_update(s, i as int, value);
                    assert(forall|j: int| 0 <= j < self.entries@.len()
                        ==> (#[trigger] self.entries@[j]).0 == s[j].0);
                }
                return;
            }
            i += 1;
        }
        let ghost s = self.entries@;
        self.entries.push((k, value));
        proof {
            lemma_map_of_pairs_push(s, k, value);
            crate::kvlist::lemma_unique_after_push(s, k, value);
            lemma_key_decompose(sp, ptr);
            assert(forall|j: int| 0 <= j < s.len() ==> self.entries@[j] == s[j]);
        }
    }

    /// The stored value at `(sp, ptr)`, or zero.
    pub fn val(&self, sp: u32, ptr: u32) -> (r: u32)
        requires
            self.wf(),
        ensures
            r == self.spec_val(sp, ptr),
    {
        let k = crate::addr::make_key(sp, ptr);
        let mut i: usize = 0;
        while i < self.entries.len()
            invariant
                self.wf(),
                i <= self.entries@.len(),
                k == addr_key(sp, ptr),
                forall|j: int| 0 <= j < i ==> (#[trigger] self.entries@[j]).0 != k,
            decreases self.entries@.len() - i,
        {
            if self.entries[i].0 == k {
                proof {
                    lemma_map_of_pairs_index(self.entries@, i as int);
                }
                return self.entries[i].1;
            }
            i += 1;
        }
        proof {
            lemma_map_of_pairs_contains(self.entries@, k);
        }
        0
    }

    pub fn key_at(&self, i: usize) -> (r: u64)
        requires
            i < self.entries@.len(),
        ensures
            r == self.entries@[i as int].0,
    {
        self.entries[i].0
    }

    pub fn val_at(&self, i: usize) -> (r: u32)
        requires
            i < self.entries@.len(),
        ensures
            r == self.entries@[i as int].1,
    {
        self.entries[i].1
    }
}

/// An equipartition of memory values into fixed-size blocks.  The key packs
/// `(address_space, label)`; the block's starting pointer is `label * n`.  A
/// missing key means the block is all zero.
#[derive(Clone, Debug, PartialEq, Eq)]
pub struct Equipartition {
    pub entries: Vec<(u64, Vec<u32>)>,
}

impl Equipartition {
    pub open spec fn pairs(self) -> Seq<(u64, Seq<u32>)> {
        self.entries@.map_values(|e: (u64, Vec<u32>)| (e.0, e.1@))
    }
}

impl View for Equipartition {
    type V = Map<u64, Seq<u32>>;

    open spec fn view(&self) -> Map<u64, Seq<u32>> {
        map_of_pairs(self.pairs())
    }
}

impl Equipartition {
    /// Every block has `n` values, keys are unique, and every key names an
    /// address space below `2^32`.
    pub open spec fn wf(self, n: int) -> bool {
        &&& unique_keys(self.pairs())
        &&& forall|i: int| 0 <= i < self.pairs().len() ==> (#[trigger] self.pairs()[i]).1.len() == n
        &&& forall|i: int| 0 <= i < self.pairs().len() ==> key_sp((#[trigger] self.pairs()[i]).0) < SPACE_SIZE
    }

    /// The block stored at `k`, or the all-zero block.
    pub open spec fn block_or_zero(self, n: int, k: u64) -> Seq<u32> {
        if self@.contains_key(k) {
            self@[k]
        } else {
            Seq::new(n as nat, |i: int| 0u32)
        }
    }

    /// The value of the single cell `(sp, ptr)` under chunk size `n`.
    pub open spec fn cell_val(self, n: int, sp: u32, ptr: u32) -> u32 {
        self.block_or_zero(n, addr_key(sp, ((ptr as int) / n) as u32))[(ptr as int) % n]
    }

    pub fn new() -> (r: Self)
        ensures
            r.entries@.len() == 0,
            r@ == Map::<u64, Seq<u32>>::empty(),
            forall|n: int| r.wf(n),
    {
        Equipartition { entries: Vec::new() }
    }

    pub fn len(&self) -> (r: usize)
        ensures
            r == self.entries@.len(),
    {
        self.entries.len()
    }

    pub fn is_empty(&self) -> (r: bool)
        ensures
            r <==> self.entries@.len() == 0,
            r <==> self@ == Map::<u64, Seq<u32>>::empty(),
    {
        proof {
            if self.entries@.len() == 0 {
                assert(self@ =~= Map::<u64, Seq<u32>>::empty());
            } else {
                lemma_map_of_pairs_contains(self.pairs(), self.pairs()[0].0);
            }
        }
        self.entries.len() == 0
    }

    pub fn key_at(&self, i: usize) -> (r: u64)
        requires
            i < self.entries@.len(),
        ensures
            r == self.pairs()[i as int].0,
    {
        self.entries[i].0
    }

    /// The `shift`-th value of the `i`-th stored block.
    pub fn cell_at(&self, i: usize, shift: usize) -> (r: u32)
        requires
            i < self.entries@.len(),
            shift < self.pairs()[i as int].1.len(),
        ensures
            r == self.pairs()[i as int].1[shift as int],
    {
        let b = &self.entries[i].1;
        b[shift]
    }

    /// The block labelled `(sp, label)`, if stored.
    pub fn get(&self, sp: u32, label: u32) -> (r: Option<Vec<u32>>)
        requires
            unique_keys(self.pairs()),
        ensures
            match r {
                Some(b) => self@.contains_key(addr_key(sp, label)) && b@ == self@[addr_key(sp, label)],
                None => !self@.contains_key(addr_key(sp, label)),
            },
    {
        let k = crate::addr::make_key(sp, label);
        let mut i: usize = 0;
        while i < self.entries.len()
            invariant
                unique_keys(self.pairs()),
                i <= self.entries@.len(),
                k == addr_key(sp, label),
                forall|j: int| 0 <= j < i ==> (#[trigger] self.pairs()[j]).0 != k,
            decreases self.entries@.len() - i,
        {
            if self.entries[i].0 == k {
                proof {
                    lemma_map_of_pairs_index(self.pairs(), i as int);
                }
                return Some(copy_values(&self.entries[i].1));
            }
            i += 1;
        }
        proof {
            lemma_map_of_pairs_contains(self.pairs(), k);
        }
        None
    }

    /// Stores `values` as the block labelled `(sp, label)`, replacing any
    /// earlier block.
    pub fn insert_block(&mut self, sp: u32, label: u32, values: Vec<u32>, n: usize)
        requires
            old(self).wf(n as int),
            values@.len() == n,
        ensures
            final(self).wf(n as int),
            final(self)@ == old(self)@.insert(addr_key(sp, label), values@),
            !old(self)@.contains_key(addr_key(sp, label))
                ==> final(self).pairs() == old(self).pairs().push((addr_key(sp, label), values@)),
    {
        proof {
            lemma_key_decompose(sp, label);
        }
        let ghost vv = values@;
        let k = crate::addr::make_key(sp, label);
        let mut i: usize = 0;
        while i < self.entries.len()
            invariant
                self.wf(n as int),
                self == old(self),
                i <= self.entries@.len(),
                k == addr_key(sp, label),
                vv == values@,
                vv.len() == n,
                key_sp(k) < SPACE_SIZE,
                forall|j: int| 0 <= j < i ==> (#[trigger] self.pairs()[j]).0 != k,
            decreases self.entries@.len() - i,
        {
            if self.entries[i].0 == k {
                let ghost s = self.pairs();
                proof {
                    lemma_map_of_pairs_index(s, i as int);
                }
                self.entries.remove(i);
                self.entries.insert(i, (k, values));
                proof {
                    assert(self.pairs() =~= s.update(i as int, (k, vv)));
                    lemma_map_of_pairs_update(s, i as int, vv);
                    crate::kvlist::lemma_unique_after_update(s, i as int, vv);
                    assert forall|j: int| 0 <= j < self.pairs().len() implies
                        (#[trigger] self.pairs()[j]).1.len() == n
                        && key_sp(self.pairs()[j].0) < SPACE_SIZE by {
                        if j == i {
                            assert(self.pairs()[j] == (k, vv));
                        } else {
                            assert(self.pairs()[j] == s[j]);
                        }
                    }
                }
                return;
            }
            i += 1;
        }
        let ghost s = self.pairs();
        self.entries.push((k, values));
        proof {
            assert(self.pairs() =~= s.push((k, vv)));
            lemma_map_of_pairs_push(s, k, vv);
            crate::kvlist::lemma_unique_after_push(s, k, vv);
            assert(forall|j: int| 0 <= j < s.len() ==> self.pairs()[j] == s[j]);
        }
    }

    /// Stores `v` at offset `shift` of block `(sp, label)`, materializing a
    /// zero block if the label is absent.
    pub fn set_cell(&mut self, sp: u32, label: u32, shift: usize, v: u32, n: usize)
        requires
            old(self).wf(n as int),
            shift < n,
        ensures
            final(self).wf(n as int),
            final(self)@ == old(self)@.insert(
                addr_key(sp, label),
                old(self).block_or_zero(n as int, addr_key(sp, label)).update(shift as int, v),
            ),
    {
        proof {
            lemma_key_decompose(sp, label);
        }
        let k = crate::addr::make_key(sp, label);
        let mut i: usize = 0;
        while i < self.entries.len()
            invariant
                self.wf(n as int),
                self == old(self),
                i <= self.entries@.len(),
                k == addr_key(sp, label),
                shift < n,
                forall|j: int| 0 <= j < i ==> (#[trigger] self.pairs()[j]).0 != k,
            decreases self.entries@.len() - i,
        {
            if self.entries[i].0 == k {
                let ghost s = self.pairs();
                proof {
                    lemma_map_of_pairs_index(s, i as int);
                }
                let mut e = self.entries.remove(i);
                let ghost b = e.1@;
                e.1.remove(shift);
                e.1.insert(shift, v);
                proof {
                    assert(e.1@ =~= b.update(shift as int, v));
                }
                let ghost enew = (e.0, e.1@);
                self.entries.insert(i, e);
                proof {
                    assert(self.pairs() =~= s.update(i as int, (k, b.update(shift as int, v))));
                    lemma_map_of_pairs_update(s, i as int, b.update(shift as int, v));
                    crate::kvlist::lemma_unique_after_update(s, i as int, b.update(shift as int, v));
                    assert forall|j: int| 0 <= j < self.pairs().len() implies
                        (#[trigger] self.pairs()[j]).1.len() == n
                        && key_sp(self.pairs()[j].0) < SPACE_SIZE by {
                        if j != i {
                            assert(self.pairs()[j] == s[j]);
                        }
                    }
                }
                return;
            }
            i += 1;
        }
        proof {
            lemma_map_of_pairs_contains(self.pairs(), k);
        }
        let mut b = zero_block(n);
        b.remove(shift);
        b.insert(shift, v);
        proof {
            assert(b@ =~= Seq::new(n as nat, |j: int| 0u32).update(shift as int, v));
        }
        let ghost bb = b@;
        let ghost s = self.pairs();
        self.entries.push((k, b));
        proof {
            assert(self.pairs() =~= s.push((k, bb)));
            lemma_map_of_pairs_push(s, k, bb);
            crate::kvlist::lemma_unique_after_push(s, k, bb);
            assert(forall|j: int| 0 <= j < s.len() ==> self.pairs()[j] == s[j]);
        }
    }

    /// Under `wf(n)`, every stored block has exactly `n` values.
    pub proof fn lemma_wf_block_len(self, n: int, k: u64)
        requires
            self.wf(n),
            self@.contains_key(k),
        ensures
            self@[k].len() == n,
    {
        lemma_map_of_pairs_contains(self.pairs(), k);
        let i = choose|i: int| 0 <= i < self.pairs().len() && self.pairs()[i].0 == k;
        lemma_map_of_pairs_index(self.pairs(), i);
    }
}

/// An equipartition of memory with a timestamp on every block.
#[derive(Clone, Debug, PartialEq, Eq)]
pub struct TimestampedEquipartition {
    pub entries: Vec<(u64, TimestampedValues)>,
}

impl TimestampedEquipartition {
    pub open spec fn pairs(self) -> Seq<(u64, (u32, Seq<u32>))> {
        self.entries@.map_values(|e: (u64, TimestampedValues)| (e.0, (e.1.timestamp, e.1.values@)))
    }
}

impl View for TimestampedEquipartition {
    type V = Map<u64, (u32, Seq<u32>)>;

    open spec fn view(&self) -> Map<u64, (u32, Seq<u32>)> {
        map_of_pairs(self.pairs())
    }
}

impl TimestampedEquipartition {
    pub open spec fn wf(self, n: int) -> bool {
        &&& unique_keys(self.pairs())
        &&& forall|i: int| 0 <= i < self.pairs().len() ==> (#[trigger] self.pairs()[i]).1.1.len() == n
        &&& forall|i: int| 0 <= i < self.pairs().len() ==> key_sp((#[trigger] self.pairs()[i]).0) < SPACE_SIZE
    }

    pub fn new() -> (r: Self)
        ensures
            r.entries@.len() == 0,
            r@ == Map::<u64, (u32, Seq<u32>)>::empty(),
            forall|n: int| r.wf(n),
    {
        TimestampedEquipartition { entries: Vec::new() }
    }

    pub fn len(&self) -> (r: usize)
        ensures
            r == self.entries@.len(),
    {
        self.entries.len()
    }

    pub fn key_at(&self, i: usize) -> (r: u64)
        requires
            i < self.entries@.len(),
        ensures
            r == self.pairs()[i as int].0,
    {
        self.entries[i].0
    }

    pub fn timestamp_at(&self, i: usize) -> (r: u32)
        requires
            i < self.entries@.len(),
        ensures
            r == self.pairs()[i as int].1.0,
    {
        self.entries[i].1.timestamp
    }

    /// A copy of the values of the `i`-th stored block.
    pub fn values_at(&self, i: usize) -> (r: Vec<u32>)
        requires
            i < self.entries@.len(),
        ensures
            r@ == self.pairs()[i as int].1.1,
    {
        copy_values(&self.entries[i].1.values)
    }

    /// The timestamped block labelled `(sp, label)`, if stored.
    pub fn get(&self, sp: u32, label: u32) -> (r: Option<TimestampedValues>)
        requires
            unique_keys(self.pairs()),
        ensures
            match r {
                Some(tv) => self@.contains_key(addr_key(sp, label))
                    && tv.timestamp == self@[addr_key(sp, label)].0
                    && tv.values@ == self@[addr_key(sp, label)].1,
                None => !self@.contains_key(addr_key(sp, label)),
            },
    {
        let k = crate::addr::make_key(sp, label);
        let mut i: usize = 0;
        while i < self.entries.len()
            invariant
                unique_keys(self.pairs()),
                i <= self.entries@.len(),
                k == addr_key(sp, label),
                forall|j: int| 0 <= j < i ==> (#[trigger] self.pairs()[j]).0 != k,
            decreases self.entries@.len() - i,
        {
            if self.entries[i].0 == k {
                proof {
                    lemma_map_of_pairs_index(self.pairs(), i as int);
                }
                return Some(TimestampedValues {
                    timestamp: self.entries[i].1.timestamp,
                    values: copy_values(&self.entries[i].1.values),
                });
            }
            i += 1;
        }
        proof {
            lemma_map_of_pairs_contains(self.pairs(), k);
        }
        None
    }

    /// Appends a block under a key not yet present.
    pub fn push_block(&mut self, sp: u32, label: u32, timestamp: u32, values: Vec<u32>, n: usize)
        requires
            old(self).wf(n as int),
            values@.len() == n,
            !old(self)@.contains_key(addr_key(sp, label)),
        ensures
            final(self).wf(n as int),
            final(self)@ == old(self)@.insert(addr_key(sp, label), (timestamp, values@)),
            final(self).entries@.len() == old(self).entries@.len() + 1,
            final(self).pairs() == old(self).pairs().push((addr_key(sp, label), (timestamp, values@))),
    {
        proof {
            lemma_key_decompose(sp, label);
            lemma_map_of_pairs_contains(self.pairs(), addr_key(sp, label));
        }
        let k = crate::addr::make_key(sp, label);
        let ghost vv = values@;
        let ghost s = self.pairs();
        self.entries.push((k, TimestampedValues { timestamp, values }));
        proof {
            assert(self.pairs() =~= s.push((k, (timestamp, vv))));
            lemma_map_of_pairs_push(s, k, (timestamp, vv));
            assert(forall|j: int| 0 <= j < s.len() ==> (#[trigger] s[j]).0 != addr_key(sp, label));
            crate::kvlist::lemma_unique_after_push(s, k, (timestamp, vv));
            assert(forall|j: int| 0 <= j < s.len() ==> self.pairs()[j] == s[j]);
        }
    }
}

/// Chunks a sparse memory image into an equipartition with blocks of `n`
/// values: the value at address `(sp, ptr)` lands in block `(sp, ptr / n)`
/// at offset `ptr % n`.
pub fn memory_image_to_equipartition(image: &MemoryImage, n: usize) -> (r: Equipartition)
    requires
        image.wf(),
        1 <= n,
        n <= 0xFFFF_FFFF,
    ensures
        r.wf(n as int),
        forall|sp: u32, ptr: u32| #[trigger] r.cell_val(n as int, sp, ptr) == image.spec_val(sp, ptr),
        forall|lk: u64| #[trigger] r@.contains_key(lk)
            <==> exists|k: u64| image@.contains_key(k) && label_key(k, n as int) == lk,
{
    let mut r = Equipartition::new();
    let mut i: usize = 0;
    while i < image.entries.len()
        invariant
            image.wf(),
            1 <= n,
            n <= 0xFFFF_FFFF,
            i <= image.entries@.len(),
            r.wf(n as int),
            forall|sp: u32, ptr: u32| #[trigger] r.cell_val(n as int, sp, ptr)
                == prefix_val(image.entries@.take(i as int), sp, ptr),
            forall|lk: u64| #[trigger] r@.contains_key(lk)
                <==> exists|j: int| 0 <= j < i && label_key((#[trigger] image.entries@[j]).0, n as int) == lk,
        decreases image.entries@.len() - i,
    {
        let k = image.key_at(i);
        let v = image.val_at(i);
        let (sp, ptr) = crate::addr::split_key(k);
        let label = ptr / (n as u32);
        let shift = (ptr % (n as u32)) as usize;
        let ghost r0 = r;
        proof {
            assert(n as u32 == n);
            assert(label == (ptr as int) / (n as int));
            assert(shift == (ptr as int) % (n as int));
            assert(0 <= (ptr as int) % (n as int) < n as int) by (nonlinear_arith)
                requires 1 <= n as int;
        }
        r.set_cell(sp, label, shift, v, n);
        proof {
            lemma_image_step(r0, r, image.entries@, i as int, n as int, sp, ptr, v);
            // The one label this step can add is the entry's own.
            assert(label_key(k, n as int) == addr_key(sp, label)) by {
                assert(key_sp(k) == sp && key_ptr(k) == ptr);
            }
            assert forall|lk: u64| #[trigger] r@.contains_key(lk)
                <==> exists|j: int| 0 <= j < i + 1 && label_key((#[trigger] image.entries@[j]).0, n as int) == lk by {
                if r@.contains_key(lk) {
                    if lk == addr_key(sp, label) {
                        assert(label_key(image.entries@[i as int].0, n as int) == lk);
                    } else {
                        assert(r0@.contains_key(lk));
                        let j = choose|j: int| 0 <= j < i && label_key(image.entries@[j].0, n as int) == lk;
                        assert(label_key(image.entries@[j].0, n as int) == lk);
                    }
                } else {
                    if exists|j: int| 0 <= j < i + 1 && label_key((#[trigger] image.entries@[j]).0, n as int) == lk {
                        let j = choose|j: int| 0 <= j < i + 1 && label_key((#[trigger] image.entries@[j]).0, n as int) == lk;
                        if j < i {
                            assert(r0@.contains_key(lk));
                            assert(r@.contains_key(lk));
                        } else {
                            assert(lk == addr_key(sp, label));
                            assert(r@.contains_key(lk));
                        }
                    }
                }
            }
        }
        i += 1;
    }
    proof {
        assert(image.entries@.take(image.entries@.len() as int) =~= image.entries@);
        assert forall|sp: u32, ptr: u32| #[trigger] r.cell_val(n as int, sp, ptr) == image.spec_val(sp, ptr) by {
            lemma_prefix_val_full(image.entries@, sp, ptr);
        }
        // The produced labels are exactly those the image touches.
        assert forall|lk: u64| #[trigger] r@.contains_key(lk)
            <==> exists|k: u64| image@.contains_key(k) && label_key(k, n as int) == lk by {
            if r@.contains_key(lk) {
                let j = choose|j: int| 0 <= j < image.entries@.len()
                    && label_key(image.entries@[j].0, n as int) == lk;
                lemma_map_of_pairs_contains(image.entries@, image.entries@[j].0);
                assert(image@.contains_key(image.entries@[j].0));
            } else {
                if exists|k: u64| image@.contains_key(k) && label_key(k, n as int) == lk {
                    let k = choose|k: u64| image@.contains_key(k) && label_key(k, n as int) == lk;
                    lemma_map_of_pairs_contains(image.entries@, k);
                    let j = choose|j: int| 0 <= j < image.entries@.len() && image.entries@[j].0 == k;
                    assert(label_key(image.entries@[j].0, n as int) == lk);
                    assert(r@.contains_key(lk));
                }
            }
        }
    }
    r
}

/// The value a prefix of an image assigns to `(sp, ptr)`.
pub open spec fn prefix_val(s: Seq<(u64, u32)>, sp: u32, ptr: u32) -> u32 {
    if map_of_pairs(s).contains_key(addr_key(sp, ptr)) {
        map_of_pairs(s)[addr_key(sp, ptr)]
    } else {
        0
    }
}

proof fn lemma_prefix_val_full(s: Seq<(u64, u32)>, sp: u32, ptr: u32)
    ensures
        prefix_val(s, sp, ptr) == (if map_of_pairs(s).contains_key(addr_key(sp, ptr)) {
            map_of_pairs(s)[addr_key(sp, ptr)]
        } else {
            0u32
        }),
{
}

/// One `set_cell` step extends the prefix of the image that the partition
/// reproduces.
proof fn lemma_image_step(
    r0: Equipartition,
    r1: Equipartition,
    s: Seq<(u64, u32)>,
    i: int,
    n: int,
    sp: u32,
    ptr: u32,
    v: u32,
)
    requires
        0 <= i < s.len(),
        unique_keys(s),
        1 <= n,
        s[i].0 == addr_key(sp, ptr),
        s[i].1 == v,
        r0.wf(n),
        r1.wf(n),
        forall|sp2: u32, ptr2: u32| #[trigger] r0.cell_val(n, sp2, ptr2) == prefix_val(s.take(i), sp2, ptr2),
        r1@ == r0@.insert(
            addr_key(sp, ((ptr as int) / n) as u32),
            r0.block_or_zero(n, addr_key(sp, ((ptr as int) / n) as u32)).update((ptr as int) % n, v),
        ),
    ensures
        forall|sp2: u32, ptr2: u32| #[trigger] r1.cell_val(n, sp2, ptr2) == prefix_val(s.take(i + 1), sp2, ptr2),
{
    let label = ((ptr as int) / n) as u32;
    let shift = (ptr as int) % n;
    let lk = addr_key(sp, label);
    assert(s.take(i + 1) =~= s.take(i).push(s[i]));
    lemma_map_of_pairs_push(s.take(i), s[i].0, s[i].1);
    vstd::arithmetic::div_mod::lemma_fundamental_div_mod(ptr as int, n);
    assert(0 <= shift < n) by (nonlinear_arith)
        requires 1 <= n, shift == (ptr as int) % n;
    assert forall|sp2: u32, ptr2: u32| #[trigger] r1.cell_val(n, sp2, ptr2) == prefix_val(s.take(i + 1), sp2, ptr2) by {
        let label2 = ((ptr2 as int) / n) as u32;
        let shift2 = (ptr2 as int) % n;
        let lk2 = addr_key(sp2, label2);
        vstd::arithmetic::div_mod::lemma_fundamental_div_mod(ptr2 as int, n);
        assert(0 <= shift2 < n) by (nonlinear_arith)
            requires 1 <= n, shift2 == (ptr2 as int) % n;
        assert((ptr2 as int) / n >= 0) by (nonlinear_arith)
            requires 1 <= n, 0 <= ptr2;
        assert((ptr2 as int) / n < SPACE_SIZE) by (nonlinear_arith)
            requires 1 <= n, ptr2 < SPACE_SIZE;
        lemma_key_decompose(sp, label);
        lemma_key_decompose(sp2, label2);
        lemma_key_decompose(sp, ptr);
        lemma_key_decompose(sp2, ptr2);
        if r0@.contains_key(lk) {
            r0.lemma_wf_block_len(n, lk);
        }
        assert(r0.block_or_zero(n, lk).len() == n);
        assert(r1@[lk] == r0.block_or_zero(n, lk).update(shift, v));
        if sp2 == sp && ptr2 == ptr {
            assert(lk2 == lk && shift2 == shift);
            assert(r1.block_or_zero(n, lk2) == r1@[lk]);
            assert(r1.cell_val(n, sp2, ptr2) == v);
        } else if lk2 == lk {
            // Same block, different offset: the untouched offsets carry over.
            assert(label2 == label && sp2 == sp);
            assert(ptr2 != ptr);
            assert((ptr2 as int) / n < SPACE_SIZE) by (nonlinear_arith)
                requires 1 <= n, 0 <= ptr2 < SPACE_SIZE;
            assert((ptr as int) / n < SPACE_SIZE) by (nonlinear_arith)
                requires 1 <= n, 0 <= ptr < SPACE_SIZE;
            assert((ptr2 as int) / n == (ptr as int) / n);
            assert(shift2 != shift);
            assert(r1.block_or_zero(n, lk2) == r0.block_or_zero(n, lk).update(shift, v));
            assert(r1.cell_val(n, sp2, ptr2) == r0.block_or_zero(n, lk)[shift2]);
            assert(r1.cell_val(n, sp2, ptr2) == r0.cell_val(n, sp2, ptr2));
            assert(addr_key(sp2, ptr2) != addr_key(sp, ptr));
        } else {
            // A different block is untouched entirely.
            assert(r1.cell_val(n, sp2, ptr2) == r0.cell_val(n, sp2, ptr2));
            assert(addr_key(sp2, ptr2) != addr_key(sp, ptr));
        }
    }
}

} // verus!
