use vstd::prelude::*;
use crate::addr::{is_power_of_two, lemma_small_pow2};
use crate::config::{MemoryBus, VariableRangeCheckerBus};
use crate::records::{AccessAdapterRecord, MemoryError};

verus! {

/// The adapter size classes are 2, 4, 8, 16, 32, in this order.
pub open spec fn class_of(len: int) -> int {
    if len <= 2 {
        0
    } else if len == 4 {
        1
    } else if len == 8 {
        2
    } else if len == 16 {
        3
    } else {
        4
    }
}

/// Number of size classes for a given largest access size.
pub open spec fn num_classes(max_n: int) -> int {
    class_of(max_n) + 1
}

/// Aggregates adapter records per power-of-two size class and exposes the
/// per-class row counts to the proving backend.
pub struct AccessAdapterInventory {
    /// Number of records routed to each size class so far.
    pub counts: Vec<usize>,
    /// Forced table heights, if any; never below the recorded counts when set.
    pub overridden: Option<Vec<usize>>,
    pub memory_bus: MemoryBus,
    pub range_checker_bus: VariableRangeCheckerBus,
    pub clk_max_bits: usize,
    /// Largest access size; also the largest record size class.
    pub max_access_adapter_n: usize,
}

impl AccessAdapterInventory {
    pub open spec fn wf(self) -> bool {
        &&& is_power_of_two(self.max_access_adapter_n as int)
        &&& 2 <= self.max_access_adapter_n <= 32
        &&& self.counts@.len() == num_classes(self.max_access_adapter_n as int)
        &&& match self.overridden {
            Some(o) => o@.len() == self.counts@.len(),
            None => true,
        }
    }

    /// Everything but the per-class counts agrees between two inventories.
    pub open spec fn same_except_counts(a: AccessAdapterInventory, b: AccessAdapterInventory) -> bool {
        &&& b.overridden == a.overridden
        &&& b.memory_bus == a.memory_bus
        &&& b.range_checker_bus == a.range_checker_bus
        &&& b.clk_max_bits == a.clk_max_bits
        &&& b.max_access_adapter_n == a.max_access_adapter_n
        &&& b.counts@.len() == a.counts@.len()
    }

    /// The height reported for class `i`: the forced height when one is
    /// set and larger, else the record count.
    pub open spec fn spec_height(self, i: int) -> int {
        match self.overridden {
            Some(o) => if o@[i] >= self.counts@[i] {
                o@[i] as int
            } else {
                self.counts@[i] as int
            },
            None => self.counts@[i] as int,
        }
    }

    pub fn new(
        range_checker_bus: VariableRangeCheckerBus,
        memory_bus: MemoryBus,
        clk_max_bits: usize,
        max_access_adapter_n: usize,
    ) -> (r: Self)
        requires
            is_power_of_two(max_access_adapter_n as int),
            2 <= max_access_adapter_n <= 32,
        ensures
            r.wf(),
            r.max_access_adapter_n == max_access_adapter_n,
            r.memory_bus == memory_bus,
            r.range_checker_bus == range_checker_bus,
            r.clk_max_bits == clk_max_bits,
            r.overridden is None,
            forall|i: int| 0 <= i < r.counts@.len() ==> r.counts@[i] == 0,
    {
        proof {
            lemma_small_pow2(max_access_adapter_n as int);
        }
        let n_classes: usize = match max_access_adapter_n {
            2 => 1,
            4 => 2,
            8 => 3,
            16 => 4,
            _ => 5,
        };
        let mut counts: Vec<usize> = Vec::new();
        let mut i: usize = 0;
        while i < n_classes
            invariant
                i <= n_classes,
                counts@.len() == i,
                forall|j: int| 0 <= j < i ==> counts@[j] == 0,
            decreases n_classes - i,
        {
            counts.push(0);
            i += 1;
        }
        AccessAdapterInventory {
            counts,
            overridden: None,
            memory_bus,
            range_checker_bus,
            clk_max_bits,
            max_access_adapter_n,
        }
    }

    pub fn num_access_adapters(&self) -> (r: usize)
        ensures
            r == self.counts@.len(),
    {
        self.counts.len()
    }

    /// Routes a record to the adapter of its size class.  The count
    /// saturates at the machine maximum.
    pub fn add_record(&mut self, record: &AccessAdapterRecord)
        requires
            old(self).wf(),
            is_power_of_two(record.data@.len() as int),
            2 <= record.data@.len() <= old(self).max_access_adapter_n,
        ensures
            final(self).wf(),
            AccessAdapterInventory::same_except_counts(*old(self), *final(self)),
            ({
                let c = class_of(record.data@.len() as int);
                &&& (forall|i: int| 0 <= i < old(self).counts@.len() && i != c
                    ==> final(self).counts@[i] == old(self).counts@[i])
                &&& final(self).counts@[c] == (if old(self).counts@[c] < usize::MAX {
                    old(self).counts@[c] + 1
                } else {
                    old(self).counts@[c] as int
                })
            }),
    {
        proof {
            lemma_small_pow2(record.data@.len() as int);
            lemma_small_pow2(self.max_access_adapter_n as int);
        }
        let len = record.data.len();
        let idx: usize = match len {
            2 => 0,
            4 => 1,
            8 => 2,
            16 => 3,
            _ => 4,
        };
        let cur = self.counts[idx];
        let next = if cur < usize::MAX {
            cur + 1
        } else {
            cur
        };
        let ghost s = self.counts@;
        self.counts.remove(idx);
        self.counts.insert(idx, next);
        proof {
            assert(self.counts@ =~= s.update(idx as int, next));
        }
    }

    /// The current height of every adapter table.
    pub fn get_heights(&self) -> (r: Vec<usize>)
        requires
            self.wf(),
        ensures
            r@.len() == self.counts@.len(),
            forall|i: int| 0 <= i < r@.len() ==> r@[i] == self.spec_height(i),
    {
        let mut r: Vec<usize> = Vec::new();
        let mut i: usize = 0;
        while i < self.counts.len()
            invariant
                self.wf(),
                i <= self.counts@.len(),
                r@.len() == i,
                forall|j: int| 0 <= j < i ==> r@[j] == self.spec_height(j),
            decreases self.counts@.len() - i,
        {
            let h = match &self.overridden {
                Some(o) => {
                    let ov = o[i];
                    let c = self.counts[i];
                    if ov >= c {
                        ov
                    } else {
                        c
                    }
                },
                None => self.counts[i],
            };
            r.push(h);
            i += 1;
        }
        r
    }

    /// Forces the adapter table heights; refused when the shape does not
    /// match, or when a height is below the records already recorded.
    pub fn set_override_trace_heights(&mut self, heights: Vec<usize>) -> (r: Result<(), MemoryError>)
        requires
            old(self).wf(),
        ensures
            final(self).wf(),
            final(self).counts@ == old(self).counts@,
            final(self).max_access_adapter_n == old(self).max_access_adapter_n,
            heights@.len() != old(self).counts@.len()
                <==> r == Err::<(), MemoryError>(MemoryError::TraceHeightVariantMismatch),
            (heights@.len() == old(self).counts@.len() && (exists|i: int|
                0 <= i < heights@.len() && heights@[i] < old(self).counts@[i]))
                <==> r == Err::<(), MemoryError>(MemoryError::AdapterOverrideTooSmall),
            r is Err ==> heights@.len() != old(self).counts@.len() || (exists|i: int|
                0 <= i < heights@.len() && heights@[i] < old(self).counts@[i]),
            r is Ok ==> final(self).overridden == Some(heights),
            r is Ok ==> final(self).memory_bus == old(self).memory_bus
                && final(self).range_checker_bus == old(self).range_checker_bus
                && final(self).clk_max_bits == old(self).clk_max_bits,
            r is Err ==> *final(self) == *old(self),
    {
        if heights.len() != self.counts.len() {
            return Err(MemoryError::TraceHeightVariantMismatch);
        }
        let mut i: usize = 0;
        while i < heights.len()
            invariant
                self == old(self),
                self.wf(),
                heights@.len() == self.counts@.len(),
                i <= heights@.len(),
                forall|j: int| 0 <= j < i ==> heights@[j] >= self.counts@[j],
            decreases heights@.len() - i,
        {
            if heights[i] < self.counts[i] {
                return Err(MemoryError::AdapterOverrideTooSmall);
            }
            i += 1;
        }
        self.overridden = Some(heights);
        Ok(())
    }
}

} // verus!
