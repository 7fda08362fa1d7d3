use vstd::prelude::*;
use vstd::arithmetic::div_mod::{
    lemma_fundamental_div_mod, lemma_fundamental_div_mod_converse, lemma_mod_multiples_basic,
    lemma_mod_self_0,
};
use vstd::arithmetic::power2::{
    lemma2_to64, lemma_pow2_adds, lemma_pow2_pos, lemma_pow2_unfold, pow2,
};
use vstd::bits::{lemma_usize_low_bits_mask_is_mod, lemma_usize_shl_is_mul, low_bits_mask};
use crate::mm::PAGE_SIZE;

verus! {

/// Number of block orders; valid orders are `0..MAX_ORDER`.
pub const MAX_ORDER: usize = 16;

/// Size in bytes of a block of the given order: a page doubled `order` times.
pub open spec fn block_size(order: nat) -> int {
    4096 * (pow2(order) as int)
}

/// Whether `addr` is a multiple of the size of a block of the given order.
pub open spec fn is_aligned(addr: int, order: nat) -> bool {
    addr % block_size(order) == 0
}

/// The sibling of the block at `addr`: the other half of the enclosing block
/// of the next order.
pub open spec fn buddy_addr(addr: int, order: nat) -> int {
    if addr % block_size(order + 1) == 0 {
        addr + block_size(order)
    } else {
        addr - block_size(order)
    }
}

/// A block of the next order is twice as large; no block is smaller than a page.
pub proof fn lemma_block_size_step(order: nat)
    ensures
        block_size(order + 1) == 2 * block_size(order),
        block_size(order) >= 4096,
{
    lemma_pow2_unfold(order + 1);
    lemma_pow2_pos(order);
}

/// The largest block is 128 MiB.
pub proof fn lemma_block_size_bound(order: nat)
    requires
        order < 16,
    ensures
        block_size(order) <= 0x800_0000,
    decreases 16 - order,
{
    if order == 15 {
        lemma2_to64();
    } else {
        lemma_block_size_bound(order + 1);
        lemma_block_size_step(order);
    }
}

/// Exclusive-or with a power of two adds it where its bit is clear and
/// subtracts it where its bit is set.
proof fn lemma_xor_power_of_two(a: usize, s: usize)
    by (bit_vector)
    requires
        s != 0,
        s & ((s - 1) as usize) == 0,
        a & ((s - 1) as usize) == 0,
    ensures
        a & s == 0 ==> a ^ s == a + s,
        a & s != 0 ==> a ^ s == a - s,
{
}

/// An address aligned to a power of two is aligned to twice that where the
/// bit of the power is clear.
proof fn lemma_next_bit(a: usize, s: usize)
    by (bit_vector)
    requires
        s != 0,
        s <= 0x800_0000,
        s & ((s - 1) as usize) == 0,
        a & ((s - 1) as usize) == 0,
    ensures
        (a & ((2 * s - 1) as usize) == 0) <==> (a & s == 0),
{
}

/// A page size shifted left by an order has one bit set.
proof fn lemma_shifted_page_is_power_of_two(order: usize)
    by (bit_vector)
    requires
        order < 16,
    ensures
        4096usize << order != 0,
        (4096usize << order) & (((4096usize << order) - 1) as usize) == 0,
{
}

/// Block sizes are powers of two.
pub proof fn lemma_block_size_is_pow2(order: nat)
    ensures
        block_size(order) == pow2(order + 12),
{
    lemma_pow2_adds(12, order);
    lemma2_to64();
}

/// The exclusive-or of a block's address with its size is its buddy's address.
pub proof fn lemma_xor_is_buddy(addr: usize, order: usize)
    requires
        order < MAX_ORDER,
        is_aligned(addr as int, order as nat),
    ensures
        (addr ^ (4096usize << order)) == buddy_addr(addr as int, order as nat),
{
    let s = 4096usize << order;
    lemma_block_size_bound(order as nat);
    lemma_usize_shl_is_mul(4096usize, order);
    lemma_block_size_is_pow2(order as nat);
    lemma_block_size_is_pow2((order + 1) as nat);
    lemma_block_size_step(order as nat);
    lemma_shifted_page_is_power_of_two(order);
    lemma_usize_low_bits_mask_is_mod(addr, (order + 12) as nat);
    lemma_usize_low_bits_mask_is_mod(addr, (order + 13) as nat);
    assert(low_bits_mask((order + 12) as nat) == s - 1);
    assert(low_bits_mask((order + 13) as nat) == 2 * s - 1);
    assert(addr & ((s - 1) as usize) == 0);
    lemma_xor_power_of_two(addr, s);
    lemma_next_bit(addr, s);
}

/// Whether two blocks share no byte.
pub open spec fn blocks_disjoint(a: int, k: nat, b: int, j: nat) -> bool {
    a + block_size(k) <= b || b + block_size(j) <= a
}

/// Whether the block `(a, k)` lies inside the block `(b, j)`.
pub open spec fn block_inside(a: int, k: nat, b: int, j: nat) -> bool {
    b <= a && a + block_size(k) <= b + block_size(j)
}

/// The block of the next order that holds the block at `addr`.
pub open spec fn parent_addr(addr: int, order: nat) -> int {
    if addr % block_size(order + 1) == 0 {
        addr
    } else {
        addr - block_size(order)
    }
}

/// Two multiples of `s` less than `s` apart are in order.
pub proof fn lemma_multiples_gap(x: int, y: int, s: int)
    requires
        s > 0,
        x % s == 0,
        y % s == 0,
        x < y + s,
    ensures
        x <= y,
{
    lemma_fundamental_div_mod(x, s);
    lemma_fundamental_div_mod(y, s);
    let qx = x / s;
    let qy = y / s;
    if qx > qy {
        assert(s * qx >= s * qy + s) by (nonlinear_arith)
            requires
                qx >= qy + 1,
                s > 0,
        ;
    } else {
        assert(s * qx <= s * qy) by (nonlinear_arith)
            requires
                qx <= qy,
                s > 0,
        ;
    }
}

/// A multiple of a multiple of `s` is a multiple of `s`.
pub proof fn lemma_multiple_of_multiple(x: int, s: int, t: int)
    requires
        s > 0,
        t > 0,
        x % t == 0,
        t % s == 0,
    ensures
        x % s == 0,
{
    lemma_fundamental_div_mod(x, t);
    lemma_fundamental_div_mod(t, s);
    let q1 = x / t;
    let q2 = t / s;
    assert(x == (q2 * q1) * s) by (nonlinear_arith)
        requires
            x == t * q1,
            t == s * q2,
    ;
    lemma_mod_multiples_basic(q2 * q1, s);
}

/// Sums and differences of multiples of `s` are multiples of `s`.
pub proof fn lemma_sum_of_multiples(x: int, y: int, s: int)
    requires
        s > 0,
        x % s == 0,
        y % s == 0,
    ensures
        (x + y) % s == 0,
        (x - y) % s == 0,
{
    lemma_fundamental_div_mod(x, s);
    lemma_fundamental_div_mod(y, s);
    let qx = x / s;
    let qy = y / s;
    assert(x + y == (qx + qy) * s) by (nonlinear_arith)
        requires
            x == s * qx,
            y == s * qy,
    ;
    assert(x - y == (qx - qy) * s) by (nonlinear_arith)
        requires
            x == s * qx,
            y == s * qy,
    ;
    lemma_mod_multiples_basic(qx + qy, s);
    lemma_mod_multiples_basic(qx - qy, s);
}

/// A multiple of `s` is a multiple of `2 * s` or lies `s` past one.
pub proof fn lemma_half_aligned(x: int, s: int)
    requires
        s > 0,
        x % s == 0,
    ensures
        x % (2 * s) == 0 || x % (2 * s) == s,
        x % (2 * s) == 0 ==> (x + s) % (2 * s) == s,
        x % (2 * s) == s ==> (x - s) % (2 * s) == 0,
        x % (2 * s) == s && x >= 0 ==> x >= s,
{
    lemma_fundamental_div_mod(x, s);
    let q = x / s;
    let h = q / 2;
    let r = q % 2;
    assert(x == h * (2 * s) + r * s) by (nonlinear_arith)
        requires
            x == s * q,
            q == 2 * h + r,
    ;
    if r == 0 {
        lemma_fundamental_div_mod_converse(x, 2 * s, h, 0);
        lemma_fundamental_div_mod_converse(x + s, 2 * s, h, s);
    } else {
        assert(r * s == s) by (nonlinear_arith)
            requires
                r == 1,
        ;
        lemma_fundamental_div_mod_converse(x, 2 * s, h, s);
        lemma_fundamental_div_mod_converse(x - s, 2 * s, h, 0);
        if x >= 0 && h < 0 {
            assert(h * (2 * s) + s < 0) by (nonlinear_arith)
                requires
                    h <= -1,
                    s > 0,
            ;
        }
        if x >= 0 {
            assert(h * (2 * s) >= 0) by (nonlinear_arith)
                requires
                    h >= 0,
                    s > 0,
            ;
        }
    }
}

/// A block of a higher order is larger, by a whole factor.
pub proof fn lemma_block_size_increases(j: nat, k: nat)
    requires
        j <= k,
    ensures
        0 < block_size(j) <= block_size(k),
        block_size(k) % block_size(j) == 0,
        j < k ==> 2 * block_size(j) <= block_size(k),
    decreases k - j,
{
    lemma_block_size_step(j);
    if j < k {
        lemma_block_size_increases(j + 1, k);
        lemma_mod_multiples_basic(2, block_size(j));
        lemma_multiple_of_multiple(block_size(k), block_size(j), block_size(j + 1));
    }
}

/// An address aligned for an order is aligned for every lower order.
pub proof fn lemma_aligned_coarser(a: int, j: nat, k: nat)
    requires
        j <= k,
        is_aligned(a, k),
    ensures
        is_aligned(a, j),
{
    lemma_block_size_increases(j, k);
    lemma_multiple_of_multiple(a, block_size(j), block_size(k));
}

/// Two aligned blocks are nested or share no byte.
pub proof fn lemma_nested_or_disjoint(a: int, k: nat, b: int, j: nat)
    requires
        is_aligned(a, k),
        is_aligned(b, j),
        k <= j,
    ensures
        blocks_disjoint(a, k, b, j) || block_inside(a, k, b, j),
{
    lemma_block_size_increases(k, j);
    lemma_aligned_coarser(b, k, j);
    let s = block_size(k);
    if !blocks_disjoint(a, k, b, j) {
        lemma_multiples_gap(b, a, s);
        lemma_sum_of_multiples(b, block_size(j), s);
        lemma_mod_self_0(s);
        lemma_sum_of_multiples(a, s, s);
        lemma_multiples_gap(a + s, b + block_size(j), s);
    }
}

/// A block lies inside another only if its order is not higher.
pub proof fn lemma_inside_order(a: int, k: nat, b: int, j: nat)
    requires
        block_inside(a, k, b, j),
    ensures
        k <= j,
        k == j ==> a == b,
{
    if k > j {
        lemma_block_size_increases(j, k);
    }
}

/// Two aligned blocks of one order that share a byte are the same block.
pub proof fn lemma_same_order_overlap(a: int, b: int, k: nat)
    requires
        is_aligned(a, k),
        is_aligned(b, k),
        !blocks_disjoint(a, k, b, k),
    ensures
        a == b,
{
    lemma_nested_or_disjoint(a, k, b, k);
    lemma_nested_or_disjoint(b, k, a, k);
}

/// An aligned block that lies inside a larger aligned block lies there
/// together with its buddy: its parent lies inside too.
pub proof fn lemma_parent_inside(a: int, k: nat, b: int, j: nat)
    requires
        is_aligned(a, k),
        is_aligned(b, j),
        a >= 0,
        block_inside(a, k, b, j),
        k < j,
    ensures
        block_inside(parent_addr(a, k), k + 1, b, j),
        block_inside(buddy_addr(a, k), k, b, j),
{
    lemma_buddy(a, k);
    lemma_block_size_step(k);
    lemma_block_size_increases(k, j);
    lemma_nested_or_disjoint(parent_addr(a, k), k + 1, b, j);
}

/// What the buddy of an aligned block is.
pub proof fn lemma_buddy(a: int, k: nat)
    requires
        is_aligned(a, k),
        a >= 0,
    ensures
        is_aligned(buddy_addr(a, k), k),
        buddy_addr(a, k) >= 0,
        buddy_addr(a, k) != a,
        buddy_addr(buddy_addr(a, k), k) == a,
        blocks_disjoint(a, k, buddy_addr(a, k), k),
        is_aligned(parent_addr(a, k), k + 1),
        parent_addr(a, k) >= 0,
        parent_addr(a, k) == (if a <= buddy_addr(a, k) { a } else { buddy_addr(a, k) }),
        parent_addr(buddy_addr(a, k), k) == parent_addr(a, k),
        block_inside(a, k, parent_addr(a, k), k + 1),
        block_inside(buddy_addr(a, k), k, parent_addr(a, k), k + 1),
{
    lemma_block_size_step(k);
    let s = block_size(k);
    lemma_half_aligned(a, s);
    lemma_mod_self_0(s);
    lemma_sum_of_multiples(a, s, s);
    lemma_half_aligned(buddy_addr(a, k), s);
}

/// The two halves of an aligned block of the next order.
pub proof fn lemma_split(a: int, k: nat)
    requires
        is_aligned(a, k + 1),
    ensures
        is_aligned(a, k),
        is_aligned(a + block_size(k), k),
        buddy_addr(a + block_size(k), k) == a,
        buddy_addr(a, k) == a + block_size(k),
        block_size(k + 1) == 2 * block_size(k),
{
    lemma_block_size_step(k);
    lemma_aligned_coarser(a, k, k + 1);
    lemma_half_aligned(a, block_size(k));
    lemma_mod_self_0(block_size(k));
    lemma_sum_of_multiples(a, block_size(k), block_size(k));
}

/// Size in bytes of a block of the given order.
pub fn block_bytes(order: usize) -> (size: usize)
    requires
        order < MAX_ORDER,
    ensures
        size == block_size(order as nat),
{
    proof {
        lemma_block_size_bound(order as nat);
        lemma_usize_shl_is_mul(PAGE_SIZE, order);
    }
    PAGE_SIZE << order
}

} // verus!
