use vstd::prelude::*;

verus! {

/// Number of distinct pointers in one address space; pointers are 32-bit.
pub const SPACE_SIZE: u64 = 0x1_0000_0000;

pub open spec fn is_power_of_two(n: int) -> bool
    decreases n,
{
    if n <= 0 {
        false
    } else if n == 1 {
        true
    } else {
        n % 2 == 0 && is_power_of_two(n / 2)
    }
}

pub proof fn lemma_pow2_pos(n: int)
    requires
        is_power_of_two(n),
    ensures
        n >= 1,
{
}

/// Of two distinct powers of two, twice the smaller is at most the larger.
pub proof fn lemma_pow2_le(a: int, b: int)
    requires
        is_power_of_two(a),
        is_power_of_two(b),
        a < b,
    ensures
        2 * a <= b,
    decreases b,
{
    if a == 1 {
        assert(b % 2 == 0 && is_power_of_two(b / 2));
        lemma_pow2_pos(b / 2);
    } else {
        lemma_pow2_le(a / 2, b / 2);
    }
}

/// The smaller of two powers of two divides the larger.
pub proof fn lemma_pow2_divides(a: int, b: int)
    requires
        is_power_of_two(a),
        is_power_of_two(b),
        a <= b,
    ensures
        b % a == 0,
    decreases b,
{
    lemma_pow2_pos(a);
    if a == b {
        assert(b % a == 0) by (nonlinear_arith)
            requires a == b, 1 <= a;
    } else {
        lemma_pow2_le(a, b);
        lemma_pow2_divides(a, b / 2);
        let x = b / 2;
        assert(b == 2 * x);
        let q = x / a;
        vstd::arithmetic::div_mod::lemma_fundamental_div_mod(x, a);
        assert(x == a * q);
        assert(2 * x == (2 * q) * a) by (nonlinear_arith)
            requires x == a * q;
        vstd::arithmetic::div_mod::lemma_fundamental_div_mod_converse(2 * x, a, 2 * q, 0);
    }
}

/// The powers of two up to 32 are exactly 1, 2, 4, 8, 16, 32.
pub proof fn lemma_small_pow2(n: int)
    requires
        is_power_of_two(n),
        n <= 32,
    ensures
        n == 1 || n == 2 || n == 4 || n == 8 || n == 16 || n == 32,
    decreases n,
{
    if n > 1 {
        lemma_small_pow2(n / 2);
    }
}

/// Packs an address as a single key, ordered first by address space, then by
/// pointer.  Pointers of one address space occupy a contiguous key range.
pub open spec fn addr_key(sp: u32, ptr: u32) -> u64 {
    ((sp as u64) * SPACE_SIZE + (ptr as u64)) as u64
}

/// The key `i` cells after `(sp, ptr)`; meaningful while `ptr + i < 2^32`.
pub open spec fn key_at(sp: u32, ptr: u32, i: int) -> u64 {
    (addr_key(sp, ptr) + i) as u64
}

pub open spec fn key_sp(k: u64) -> u64 {
    (k / SPACE_SIZE) as u64
}

pub open spec fn key_ptr(k: u64) -> u64 {
    (k % SPACE_SIZE) as u64
}

pub proof fn lemma_key_decompose(sp: u32, ptr: u32)
    ensures
        key_sp(addr_key(sp, ptr)) == sp,
        key_ptr(addr_key(sp, ptr)) == ptr,
{
    let s = sp as int;
    let p = ptr as int;
    let m = SPACE_SIZE as int;
    assert(s * m + p < 0x1_0000_0000_0000_0000) by (nonlinear_arith)
        requires
            0 <= s < 0x1_0000_0000,
            0 <= p < 0x1_0000_0000,
            m == 0x1_0000_0000,
    ;
    assert(addr_key(sp, ptr) == s * m + p);
    assert((s * m + p) / m == s && (s * m + p) % m == p) by (nonlinear_arith)
        requires
            0 <= p < m,
            0 <= s,
    ;
}

/// Keys at offsets below `SPACE_SIZE - ptr` stay within the same address space.
pub proof fn lemma_key_offset(sp: u32, ptr: u32, i: int)
    requires
        0 <= i,
        ptr + i < SPACE_SIZE,
    ensures
        key_at(sp, ptr, i) == addr_key(sp, (ptr + i) as u32),
        key_sp(key_at(sp, ptr, i)) == sp,
        key_ptr(key_at(sp, ptr, i)) == ptr + i,
{
    lemma_key_decompose(sp, (ptr + i) as u32);
}

/// The key of the `n`-sized, `n`-aligned block (its label) holding cell `k`.
pub open spec fn label_key(k: u64, n: int) -> u64 {
    addr_key(key_sp(k) as u32, ((key_ptr(k) as int) / n) as u32)
}

/// Executable form of [`addr_key`].
pub fn make_key(sp: u32, ptr: u32) -> (k: u64)
    ensures
        k == addr_key(sp, ptr),
{
    (sp as u64) * SPACE_SIZE + (ptr as u64)
}

/// Executable decomposition of a key into its address space and pointer.
pub fn split_key(k: u64) -> (r: (u32, u32))
    requires
        key_sp(k) < 0x1_0000_0000,
    ensures
        r.0 == key_sp(k),
        r.1 == key_ptr(k),
        k == addr_key(r.0, r.1),
{
    let sp = (k / SPACE_SIZE) as u32;
    let ptr = (k % SPACE_SIZE) as u32;
    proof {
        vstd::arithmetic::div_mod::lemma_fundamental_div_mod(k as int, SPACE_SIZE as int);
        lemma_key_decompose(sp, ptr);
    }
    (sp, ptr)
}

} // verus!
