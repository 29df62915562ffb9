//! Orders and the arithmetic between addresses and block indices.

use vstd::prelude::*;
use vstd::arithmetic::power2::{pow2, lemma_pow2_pos, lemma_pow2_unfold, lemma_pow2_strictly_increases};
use vstd::bits::{lemma_usize_pow2_no_overflow, lemma_usize_shl_is_mul, lemma_usize_shr_is_div};

verus! {

/// The size in bytes of a block of the given order.
pub open spec fn block_size(order: nat) -> int {
    pow2(order) as int
}

/// The index, at the given order, of the block that holds `addr`.
pub open spec fn block_index(order: nat, addr: int) -> int {
    addr / block_size(order)
}

/// The other half of the pair that `idx` forms with its neighbour: the index
/// that differs from `idx` in the lowest bit only.
pub open spec fn buddy_of(idx: int) -> int {
    if idx % 2 == 0 {
        idx + 1
    } else {
        idx - 1
    }
}

/// The index, one order up, of the block that `idx` and its buddy make up.
pub open spec fn parent_of(idx: int) -> int {
    idx / 2
}

/// Whether `x` is a multiple of `2^order`.
pub open spec fn aligned_to(x: int, order: nat) -> bool {
    x % block_size(order) == 0
}

/// The buddy of a block index.
pub fn buddy_index(idx: usize) -> (r: usize)
    ensures
        r == buddy_of(idx as int),
{
    if idx % 2 == 0 {
        idx + 1
    } else {
        idx - 1
    }
}

/// The parent of a block index.
pub fn parent_index(idx: usize) -> (r: usize)
    ensures
        r == parent_of(idx as int),
{
    idx / 2
}

/// `2^order` as a machine word.
pub fn size_of_order(order: usize) -> (r: usize)
    requires
        order < usize::BITS,
    ensures
        r == block_size(order as nat),
        r >= 1,
{
    proof {
        lemma_usize_pow2_no_overflow(order as nat);
        lemma_usize_shl_is_mul(1usize, order);
    }
    1usize << order
}

/// Whether `x` is a multiple of `2^order`, for any order.
pub fn is_aligned(x: usize, order: usize) -> (r: bool)
    ensures
        r == aligned_to(x as int, order as nat),
{
    if order >= usize::BITS as usize {
        proof {
            lemma_block_size_exceeds_word(order as nat);
            vstd::arithmetic::div_mod::lemma_small_mod(x as nat, pow2(order as nat));
        }
        x == 0
    } else {
        x % size_of_order(order) == 0
    }
}

/// The order of a power of two: the exponent `k` with `2^k == align`.
pub fn order_of_alignment(align: usize) -> (k: usize)
    requires
        vstd::arithmetic::power2::is_pow2(align as int),
    ensures
        k < usize::BITS,
        block_size(k as nat) == align,
{
    let mut a: usize = align;
    let mut k: usize = 0;
    proof {
        vstd::arithmetic::power2::lemma2_to64();
        reveal(vstd::arithmetic::power2::is_pow2);
        assert(block_size(0) == 1);
        assert(a * block_size(0) == a) by (nonlinear_arith)
            requires
                block_size(0) == 1,
        ;
    }
    while a % 2 == 0
        invariant
            vstd::arithmetic::power2::is_pow2(a as int),
            a * block_size(k as nat) == align,
            a >= 1,
        decreases a,
    {
        proof {
            reveal(vstd::arithmetic::power2::is_pow2);
            lemma_block_size_double(k as nat);
            assert((a / 2) * (2 * block_size(k as nat)) == a * block_size(k as nat))
                by (nonlinear_arith)
                requires
                    a % 2 == 0,
            ;
            lemma_order_below_word(k as nat, (a / 2) as int, align as int);
        }
        a = a / 2;
        k = k + 1;
    }
    proof {
        reveal(vstd::arithmetic::power2::is_pow2);
        assert(a == 1);
        assert(a * block_size(k as nat) == block_size(k as nat)) by (nonlinear_arith)
            requires
                a == 1,
        ;
        if k >= usize::BITS {
            lemma_block_size_exceeds_word(k as nat);
        }
    }
    k
}

/// An order: the exponent of a block size. It converts between the address of
/// a block and its index among the blocks of that size.
pub struct Order(pub usize);

impl Order {
    /// The exponent as a natural number.
    pub open spec fn exp(&self) -> nat {
        self.0 as nat
    }

    /// An order with the given exponent.
    pub fn new(order: usize) -> (r: Self)
        ensures
            r.exp() == order,
    {
        Order(order)
    }

    /// The address of block `idx`: `idx * 2^order`.
    pub fn idx_to_ptr(&self, idx: usize) -> (ptr: usize)
        requires
            self.exp() < usize::BITS,
            idx * block_size(self.exp()) <= usize::MAX,
        ensures
            ptr == idx * block_size(self.exp()),
    {
        proof {
            lemma_usize_shl_is_mul(idx, self.0);
        }
        idx << self.0
    }

    /// The index of the block that holds address `ptr`: `ptr / 2^order`.
    pub fn ptr_to_idx(&self, ptr: usize) -> (idx: usize)
        requires
            self.exp() < usize::BITS,
        ensures
            idx == block_index(self.exp(), ptr as int),
    {
        proof {
            lemma_usize_shr_is_div(ptr, self.0);
        }
        ptr >> self.0
    }
}

/// A block of order `order + 1` is two blocks of order `order`.
pub proof fn lemma_block_size_double(order: nat)
    ensures
        block_size(order + 1) == 2 * block_size(order),
        block_size(order) >= 1,
{
    lemma_pow2_unfold(order + 1);
    lemma_pow2_pos(order);
}

/// If a positive multiple of `2^(k + 1)` is a machine word, `k + 1` is below
/// the word's width.
pub proof fn lemma_order_below_word(k: nat, q: int, x: int)
    requires
        q >= 1,
        q * block_size(k + 1) == x,
        x <= usize::MAX,
    ensures
        k + 1 < usize::BITS,
{
    if k + 1 >= usize::BITS {
        lemma_block_size_exceeds_word(k + 1);
        assert(q * block_size(k + 1) >= block_size(k + 1)) by (nonlinear_arith)
            requires
                q >= 1,
                block_size(k + 1) >= 0,
        ;
    }
}

/// From the word's width on, a block is larger than any address.
pub proof fn lemma_block_size_exceeds_word(order: nat)
    requires
        order >= usize::BITS,
    ensures
        block_size(order) > usize::MAX,
{
    vstd::layout::unsigned_int_max_values();
    if order > usize::BITS {
        lemma_pow2_strictly_increases(usize::BITS as nat, order);
    }
}

/// What is aligned to an order is aligned to every lower order.
pub proof fn lemma_aligned_lower(x: int, hi: nat, lo: nat)
    requires
        lo <= hi,
        aligned_to(x, hi),
    ensures
        aligned_to(x, lo),
        block_size(hi) % block_size(lo) == 0,
        block_size(lo) <= block_size(hi),
{
    let d = (hi - lo) as nat;
    vstd::arithmetic::power2::lemma_pow2_adds(lo, d);
    lemma_pow2_pos(lo);
    lemma_pow2_pos(d);
    lemma_pow2_pos(hi);
    let a = block_size(lo);
    let b = block_size(d);
    let q = x / block_size(hi);
    vstd::arithmetic::div_mod::lemma_fundamental_div_mod(x, block_size(hi));
    assert(x == a * (b * q)) by (nonlinear_arith)
        requires
            x == (a * b) * q,
    ;
    vstd::arithmetic::div_mod::lemma_mod_multiples_basic(b * q, a);
    vstd::arithmetic::div_mod::lemma_mod_multiples_basic(b, a);
    assert(a * (b * q) == (b * q) * a) by (nonlinear_arith);
    assert(a * b == b * a) by (nonlinear_arith);
    assert(a <= a * b) by (nonlinear_arith)
        requires
            a >= 1,
            b >= 1,
    ;
}

/// Sums and differences of multiples of `2^order` are multiples of it, and
/// a positive multiple is at least `2^order`.
pub proof fn lemma_aligned_sum(x: int, y: int, order: nat)
    requires
        aligned_to(x, order),
        aligned_to(y, order),
    ensures
        aligned_to(x + y, order),
        aligned_to(x - y, order),
        x > 0 ==> x >= block_size(order),
{
    let s = block_size(order);
    lemma_pow2_pos(order);
    vstd::arithmetic::div_mod::lemma_fundamental_div_mod(x, s);
    vstd::arithmetic::div_mod::lemma_fundamental_div_mod(y, s);
    let qx = x / s;
    let qy = y / s;
    assert(x + y == (qx + qy) * s) by (nonlinear_arith)
        requires
            x == s * qx,
            y == s * qy,
    ;
    assert(x - y == (qx - qy) * s) by (nonlinear_arith)
        requires
            x == s * qx,
            y == s * qy,
    ;
    vstd::arithmetic::div_mod::lemma_mod_multiples_basic(qx + qy, s);
    vstd::arithmetic::div_mod::lemma_mod_multiples_basic(qx - qy, s);
    if x > 0 {
        assert(x >= s) by (nonlinear_arith)
            requires
                x == s * qx,
                x > 0,
                s >= 1,
        ;
    }
}

/// The first address of a block of order `o` whose index is a multiple of
/// `2^rel` is a multiple of `2^(rel + o)`.
pub proof fn lemma_aligned_scale(idx: int, rel: nat, o: nat)
    requires
        aligned_to(idx, rel),
    ensures
        aligned_to(idx * block_size(o), rel + o),
{
    vstd::arithmetic::power2::lemma_pow2_adds(rel, o);
    lemma_pow2_pos(rel);
    lemma_pow2_pos(o);
    lemma_pow2_pos(rel + o);
    let a = block_size(rel);
    let b = block_size(o);
    vstd::arithmetic::div_mod::lemma_fundamental_div_mod(idx, a);
    let q = idx / a;
    assert(idx * b == q * (a * b)) by (nonlinear_arith)
        requires
            idx == a * q,
    ;
    vstd::arithmetic::div_mod::lemma_mod_multiples_basic(q, a * b);
}

/// The size of a request, rounded up to whole blocks of order `m`.
pub open spec fn rounded_size(size: int, m: nat) -> int {
    if size % block_size(m) == 0 {
        size
    } else {
        size - size % block_size(m) + block_size(m)
    }
}

/// The rounded size is the least multiple of the block size that holds the
/// request.
pub proof fn lemma_rounded_size(size: int, m: nat)
    requires
        size >= 0,
    ensures
        rounded_size(size, m) >= size,
        rounded_size(size, m) < size + block_size(m),
        aligned_to(rounded_size(size, m), m),
        aligned_to(size, m) ==> rounded_size(size, m) == size,
{
    let u = block_size(m);
    lemma_pow2_pos(m);
    vstd::arithmetic::div_mod::lemma_fundamental_div_mod(size, u);
    let q = size / u;
    if size % u != 0 {
        assert(size - size % u + u == (q + 1) * u) by (nonlinear_arith)
            requires
                size == u * q + size % u,
        ;
        vstd::arithmetic::div_mod::lemma_mod_multiples_basic(q + 1, u);
    }
}

/// The least order in `[lo, hi]` whose block holds `size` bytes; `hi` if
/// none does.
pub open spec fn order_for(size: int, lo: nat, hi: nat) -> nat
    decreases hi - lo,
{
    if lo >= hi || block_size(lo) >= size {
        lo
    } else {
        order_for(size, lo + 1, hi)
    }
}

/// The first address of a block is aligned to the block's order, and
/// an aligned address is the first address of its block.
pub proof fn lemma_aligned_block(x: int, order: nat)
    requires
        x >= 0,
    ensures
        aligned_to(x, order) <==> x == block_index(order, x) * block_size(order),
        aligned_to(block_index(order, x) * block_size(order), order),
{
    let s = block_size(order);
    lemma_pow2_pos(order);
    vstd::arithmetic::div_mod::lemma_fundamental_div_mod(x, s);
    assert(s * (x / s) == (x / s) * s) by (nonlinear_arith);
    vstd::arithmetic::div_mod::lemma_mod_multiples_basic(x / s, s);
}

} // verus!
