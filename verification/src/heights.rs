use vstd::prelude::*;
use crate::addr::{is_power_of_two, lemma_pow2_pos, lemma_pow2_le};

verus! {

/// Heights stay below `2^30` so that rounding up cannot overflow.
pub const MAX_TRACE_HEIGHT: usize = 0x4000_0000;

/// `r` is the least power of two that is at least `x` (and at least 1).
pub open spec fn rounded_up_to_pow2(x: int, r: int) -> bool {
    &&& is_power_of_two(r)
    &&& r >= x
    &&& forall|q: int| is_power_of_two(q) && q >= x ==> r <= q
}

/// As [`rounded_up_to_pow2`], except that 0 stays 0.
pub open spec fn rounded_up_or_zero(x: int, r: int) -> bool {
    if x == 0 {
        r == 0
    } else {
        rounded_up_to_pow2(x, r)
    }
}

/// Least power of two at or above `x`; rounds 0 up to 1.
pub fn next_power_of_two(x: usize) -> (r: usize)
    requires
        x <= MAX_TRACE_HEIGHT,
    ensures
        rounded_up_to_pow2(x as int, r as int),
{
    let mut p: usize = 1;
    while p < x
        invariant
            x <= MAX_TRACE_HEIGHT,
            is_power_of_two(p as int),
            p == 1 || p / 2 < x,
        decreases 2 * (x as int) - p,
    {
        p = p * 2;
    }
    proof {
        assert forall|q: int| is_power_of_two(q) && q >= x implies p as int <= q by {
            lemma_pow2_pos(q);
            if (p as int) > q {
                lemma_pow2_le(q, p as int);
            }
        }
    }
    p
}

/// As [`next_power_of_two`], except that 0 stays 0.
pub fn next_power_of_two_or_zero(x: usize) -> (r: usize)
    requires
        x <= MAX_TRACE_HEIGHT,
    ensures
        rounded_up_or_zero(x as int, r as int),
{
    if x == 0 {
        0
    } else {
        next_power_of_two(x)
    }
}

/// Rounds every element of `v` up to a power of two, or to zero.
fn round_vec(v: &Vec<usize>, keep_zero: bool) -> (r: Vec<usize>)
    requires
        forall|i: int| 0 <= i < v@.len() ==> v@[i] <= MAX_TRACE_HEIGHT,
    ensures
        r@.len() == v@.len(),
        !keep_zero ==> forall|i: int|
            0 <= i < v@.len() ==> rounded_up_to_pow2(v@[i] as int, #[trigger] r@[i] as int),
        keep_zero ==> forall|i: int|
            0 <= i < v@.len() ==> rounded_up_or_zero(v@[i] as int, #[trigger] r@[i] as int),
{
    let mut r: Vec<usize> = Vec::new();
    let mut i: usize = 0;
    while i < v.len()
        invariant
            i <= v@.len(),
            r@.len() == i,
            forall|j: int| 0 <= j < v@.len() ==> v@[j] <= MAX_TRACE_HEIGHT,
            !keep_zero ==> forall|j: int|
                0 <= j < i ==> rounded_up_to_pow2(v@[j] as int, #[trigger] r@[j] as int),
            keep_zero ==> forall|j: int|
                0 <= j < i ==> rounded_up_or_zero(v@[j] as int, #[trigger] r@[j] as int),
        decreases v@.len() - i,
    {
        let x = v[i];
        if keep_zero {
            r.push(next_power_of_two_or_zero(x));
        } else {
            r.push(next_power_of_two(x));
        }
        i += 1;
    }
    r
}

/// Trace heights of the volatile interface: the boundary table and one table
/// per access-adapter size class.
#[derive(Clone, Debug, PartialEq, Eq)]
pub struct VolatileMemoryTraceHeights {
    pub boundary: usize,
    pub access_adapters: Vec<usize>,
}

impl VolatileMemoryTraceHeights {
    pub open spec fn bounded(self) -> bool {
        &&& self.boundary <= MAX_TRACE_HEIGHT
        &&& forall|i: int| 0 <= i < self.access_adapters@.len() ==> self.access_adapters@[i] <= MAX_TRACE_HEIGHT
    }

    pub fn flatten(&self) -> (r: Vec<usize>)
        ensures
            r@ == seq![self.boundary] + self.access_adapters@,
    {
        let mut r: Vec<usize> = Vec::new();
        r.push(self.boundary);
        let mut i: usize = 0;
        while i < self.access_adapters.len()
            invariant
                i <= self.access_adapters@.len(),
                r@ == seq![self.boundary] + self.access_adapters@.take(i as int),
            decreases self.access_adapters@.len() - i,
        {
            r.push(self.access_adapters[i]);
            proof {
                assert(r@ =~= seq![self.boundary] + self.access_adapters@.take(i + 1));
            }
            i += 1;
        }
        proof {
            assert(self.access_adapters@.take(self.access_adapters@.len() as int) =~= self.access_adapters@);
        }
        r
    }

    pub fn round_to_next_power_of_two(&mut self)
        requires
            old(self).bounded(),
        ensures
            rounded_up_to_pow2(old(self).boundary as int, final(self).boundary as int),
            final(self).access_adapters@.len() == old(self).access_adapters@.len(),
            forall|i: int| 0 <= i < old(self).access_adapters@.len() ==> rounded_up_to_pow2(
                old(self).access_adapters@[i] as int,
                #[trigger] final(self).access_adapters@[i] as int,
            ),
    {
        self.boundary = next_power_of_two(self.boundary);
        self.access_adapters = round_vec(&self.access_adapters, false);
    }

    pub fn round_to_next_power_of_two_or_zero(&mut self)
        requires
            old(self).bounded(),
        ensures
            rounded_up_or_zero(old(self).boundary as int, final(self).boundary as int),
            final(self).access_adapters@.len() == old(self).access_adapters@.len(),
            forall|i: int| 0 <= i < old(self).access_adapters@.len() ==> rounded_up_or_zero(
                old(self).access_adapters@[i] as int,
                #[trigger] final(self).access_adapters@[i] as int,
            ),
    {
        self.boundary = next_power_of_two_or_zero(self.boundary);
        self.access_adapters = round_vec(&self.access_adapters, true);
    }
}

/// Trace heights of the persistent interface: boundary, Merkle, and one table
/// per access-adapter size class.
#[derive(Clone, Debug, PartialEq, Eq)]
pub struct PersistentMemoryTraceHeights {
    pub boundary: usize,
    pub merkle: usize,
    pub access_adapters: Vec<usize>,
}

impl PersistentMemoryTraceHeights {
    pub open spec fn bounded(self) -> bool {
        &&& self.boundary <= MAX_TRACE_HEIGHT
        &&& self.merkle <= MAX_TRACE_HEIGHT
        &&& forall|i: int| 0 <= i < self.access_adapters@.len() ==> self.access_adapters@[i] <= MAX_TRACE_HEIGHT
    }

    pub fn flatten(&self) -> (r: Vec<usize>)
        ensures
            r@ == seq![self.boundary, self.merkle] + self.access_adapters@,
    {
        let mut r: Vec<usize> = Vec::new();
        r.push(self.boundary);
        r.push(self.merkle);
        let mut i: usize = 0;
        while i < self.access_adapters.len()
            invariant
                i <= self.access_adapters@.len(),
                r@ == seq![self.boundary, self.merkle] + self.access_adapters@.take(i as int),
            decreases self.access_adapters@.len() - i,
        {
            r.push(self.access_adapters[i]);
            proof {
                assert(r@ =~= seq![self.boundary, self.merkle] + self.access_adapters@.take(i + 1));
            }
            i += 1;
        }
        proof {
            assert(self.access_adapters@.take(self.access_adapters@.len() as int) =~= self.access_adapters@);
        }
        r
    }

    pub fn round_to_next_power_of_two(&mut self)
        requires
            old(self).bounded(),
        ensures
            rounded_up_to_pow2(old(self).boundary as int, final(self).boundary as int),
            rounded_up_to_pow2(old(self).merkle as int, final(self).merkle as int),
            final(self).access_adapters@.len() == old(self).access_adapters@.len(),
            forall|i: int| 0 <= i < old(self).access_adapters@.len() ==> rounded_up_to_pow2(
                old(self).access_adapters@[i] as int,
                #[trigger] final(self).access_adapters@[i] as int,
            ),
    {
        self.boundary = next_power_of_two(self.boundary);
        self.merkle = next_power_of_two(self.merkle);
        self.access_adapters = round_vec(&self.access_adapters, false);
    }

    pub fn round_to_next_power_of_two_or_zero(&mut self)
        requires
            old(self).bounded(),
        ensures
            rounded_up_or_zero(old(self).boundary as int, final(self).boundary as int),
            rounded_up_or_zero(old(self).merkle as int, final(self).merkle as int),
            final(self).access_adapters@.len() == old(self).access_adapters@.len(),
            forall|i: int| 0 <= i < old(self).access_adapters@.len() ==> rounded_up_or_zero(
                old(self).access_adapters@[i] as int,
                #[trigger] final(self).access_adapters@[i] as int,
            ),
    {
        self.boundary = next_power_of_two_or_zero(self.boundary);
        self.merkle = next_power_of_two_or_zero(self.merkle);
        self.access_adapters = round_vec(&self.access_adapters, true);
    }
}

/// One height rounded as [`next_power_of_two`] (`or_zero` false) or as
/// [`next_power_of_two_or_zero`] (`or_zero` true).
pub open spec fn rounded_one(x: int, r: int, or_zero: bool) -> bool {
    if or_zero {
        rounded_up_or_zero(x, r)
    } else {
        rounded_up_to_pow2(x, r)
    }
}

/// All volatile heights of `b` are those of `a`, rounded.
pub open spec fn rounded_vol(a: VolatileMemoryTraceHeights, b: VolatileMemoryTraceHeights, or_zero: bool) -> bool {
    &&& rounded_one(a.boundary as int, b.boundary as int, or_zero)
    &&& b.access_adapters@.len() == a.access_adapters@.len()
    &&& forall|i: int| 0 <= i < a.access_adapters@.len() ==> rounded_one(
        a.access_adapters@[i] as int,
        #[trigger] b.access_adapters@[i] as int,
        or_zero,
    )
}

/// All persistent heights of `b` are those of `a`, rounded.
pub open spec fn rounded_per(a: PersistentMemoryTraceHeights, b: PersistentMemoryTraceHeights, or_zero: bool) -> bool {
    &&& rounded_one(a.boundary as int, b.boundary as int, or_zero)
    &&& rounded_one(a.merkle as int, b.merkle as int, or_zero)
    &&& b.access_adapters@.len() == a.access_adapters@.len()
    &&& forall|i: int| 0 <= i < a.access_adapters@.len() ==> rounded_one(
        a.access_adapters@[i] as int,
        #[trigger] b.access_adapters@[i] as int,
        or_zero,
    )
}

/// Trace heights of the memory subsystem, shaped by the active interface.
#[derive(Clone, Debug, PartialEq, Eq)]
pub enum MemoryTraceHeights {
    Volatile(VolatileMemoryTraceHeights),
    Persistent(PersistentMemoryTraceHeights),
}

impl MemoryTraceHeights {
    /// The access-adapter heights carried by either variant.
    pub open spec fn spec_access_adapters(self) -> Seq<usize> {
        match self {
            MemoryTraceHeights::Volatile(oh) => oh.access_adapters@,
            MemoryTraceHeights::Persistent(oh) => oh.access_adapters@,
        }
    }

    /// The boundary height carried by either variant.
    pub open spec fn spec_boundary(self) -> usize {
        match self {
            MemoryTraceHeights::Volatile(oh) => oh.boundary,
            MemoryTraceHeights::Persistent(oh) => oh.boundary,
        }
    }

    pub open spec fn bounded(self) -> bool {
        match self {
            MemoryTraceHeights::Volatile(oh) => oh.bounded(),
            MemoryTraceHeights::Persistent(oh) => oh.bounded(),
        }
    }

    pub fn flatten(&self) -> (r: Vec<usize>)
        ensures
            r@ == match *self {
                MemoryTraceHeights::Volatile(oh) => seq![oh.boundary] + oh.access_adapters@,
                MemoryTraceHeights::Persistent(oh) => seq![oh.boundary, oh.merkle] + oh.access_adapters@,
            },
    {
        match self {
            MemoryTraceHeights::Volatile(oh) => oh.flatten(),
            MemoryTraceHeights::Persistent(oh) => oh.flatten(),
        }
    }

    /// Round all trace heights to the next power of two; heights of 0 become 1.
    pub fn round_to_next_power_of_two(&mut self)
        requires
            old(self).bounded(),
        ensures
            *old(self) is Volatile ==> *final(self) is Volatile && rounded_vol(
                old(self)->Volatile_0,
                final(self)->Volatile_0,
                false,
            ),
            *old(self) is Persistent ==> *final(self) is Persistent && rounded_per(
                old(self)->Persistent_0,
                final(self)->Persistent_0,
                false,
            ),
    {
        match self {
            MemoryTraceHeights::Volatile(oh) => oh.round_to_next_power_of_two(),
            MemoryTraceHeights::Persistent(oh) => oh.round_to_next_power_of_two(),
        }
    }

    /// Round all trace heights to the next power of two, except 0 stays 0.
    pub fn round_to_next_power_of_two_or_zero(&mut self)
        requires
            old(self).bounded(),
        ensures
            *old(self) is Volatile ==> *final(self) is Volatile && rounded_vol(
                old(self)->Volatile_0,
                final(self)->Volatile_0,
                true,
            ),
            *old(self) is Persistent ==> *final(self) is Persistent && rounded_per(
                old(self)->Persistent_0,
                final(self)->Persistent_0,
                true,
            ),
    {
        match self {
            MemoryTraceHeights::Volatile(oh) => oh.round_to_next_power_of_two_or_zero(),
            MemoryTraceHeights::Persistent(oh) => oh.round_to_next_power_of_two_or_zero(),
        }
    }
}

} // verus!
