use vstd::prelude::*;
use vstd::arithmetic::div_mod::lemma_mod_multiples_basic;
use vstd::arithmetic::power2::{
    lemma_pow2_adds, lemma_pow2_pos, lemma_pow2_strictly_increases, pow2,
};
use crate::mm::blocks::{
    block_bytes, block_size, blocks_disjoint, is_aligned, lemma_block_size_bound,
    lemma_block_size_increases, lemma_block_size_is_pow2, lemma_block_size_step, lemma_buddy,
    lemma_multiple_of_multiple, lemma_xor_is_buddy, MAX_ORDER,
};
use crate::mm::layout::{is_power_of_two, Layout};
use crate::mm::model::{
    floor_order, lemma_floor_order, lemma_region_step, region_ok, HeapView,
};
use crate::mm::PAGE_SIZE;

verus! {

/// The least order whose block holds `n` bytes, searched from `k` upward.
pub open spec fn order_at_least(n: int, k: nat) -> nat
    decreases
            (if n > block_size(k) {
                n - block_size(k)
            } else {
                0
            }),
{
    if block_size(k) >= n {
        k
    } else {
        proof {
            lemma_block_size_step(k);
        }
        order_at_least(n, k + 1)
    }
}

/// The order of the smallest block that holds `n` bytes.
pub open spec fn order_of(n: int) -> nat {
    order_at_least(n, 0)
}

/// The least exponent from `e` upward whose power of two is at least `n`.
pub open spec fn exponent_at_least(n: int, e: nat) -> nat
    decreases
            (if n > pow2(e) {
                n - pow2(e)
            } else {
                0
            }),
{
    if pow2(e) >= n {
        e
    } else {
        proof {
            lemma_pow2_adds(e, 1);
            lemma_pow2_pos(e);
            vstd::arithmetic::power2::lemma2_to64();
        }
        exponent_at_least(n, e + 1)
    }
}

/// The smallest power of two that is at least `n`.
pub open spec fn next_power_of_two(n: int) -> int {
    pow2(exponent_at_least(n, 0)) as int
}

/// The larger of two integers.
pub open spec fn larger(a: int, b: int) -> int {
    if a >= b {
        a
    } else {
        b
    }
}

/// `order_of(n)` is the one order whose block holds `n` bytes while the
/// block below it does not.
pub proof fn lemma_order_of(n: int, k: nat)
    requires
        block_size(k) >= n,
        k > 0 ==> block_size((k - 1) as nat) < n,
    ensures
        order_of(n) == k,
{
    lemma_order_at_least(n, 0, k);
}

/// The search for the order of `n` bytes, started at or below it, finds it.
proof fn lemma_order_at_least(n: int, from: nat, k: nat)
    requires
        from <= k,
        block_size(k) >= n,
        k > 0 ==> block_size((k - 1) as nat) < n,
    ensures
        order_at_least(n, from) == k,
    decreases k - from,
{
    if from < k {
        lemma_block_size_increases(from, (k - 1) as nat);
        lemma_order_at_least(n, from + 1, k);
    }
}

/// The order of a block's own size is the block's order.
pub proof fn lemma_order_of_block_size(k: nat)
    ensures
        order_of(block_size(k)) == k,
{
    if k > 0 {
        lemma_block_size_step((k - 1) as nat);
    }
    lemma_order_of(block_size(k), k);
}

/// What `order_of` returns: the least order whose block holds `n` bytes.
pub proof fn lemma_order_of_is_least(n: int)
    ensures
        block_size(order_of(n)) >= n,
        forall|j: nat| j < order_of(n) ==> #[trigger] block_size(j) < n,
{
    lemma_order_from_is_least(n, 0);
}

/// The search for the order of `n` bytes finds the least order whose block holds them.
proof fn lemma_order_from_is_least(n: int, from: nat)
    requires
        forall|j: nat| j < from ==> #[trigger] block_size(j) < n,
    ensures
        block_size(order_at_least(n, from)) >= n,
        forall|j: nat| j < order_at_least(n, from) ==> #[trigger] block_size(j) < n,
    decreases
            (if n > block_size(from) {
                n - block_size(from)
            } else {
                0
            }),
{
    if block_size(from) < n {
        lemma_block_size_step(from);
        assert forall|j: nat| j < from + 1 implies #[trigger] block_size(j) < n by {
            if j == from {
            }
        }
        lemma_order_from_is_least(n, from + 1);
    }
}

/// The search for the exponent finds the least power of two that is at least `n`.
proof fn lemma_exponent_from_is_least(n: int, from: nat)
    requires
        forall|e: nat| e < from ==> #[trigger] pow2(e) < n,
    ensures
        pow2(exponent_at_least(n, from)) >= n,
        forall|e: nat| e < exponent_at_least(n, from) ==> #[trigger] pow2(e) < n,
    decreases
            (if n > pow2(from) {
                n - pow2(from)
            } else {
                0
            }),
{
    if pow2(from) < n {
        lemma_pow2_adds(from, 1);
        lemma_pow2_pos(from);
        vstd::arithmetic::power2::lemma2_to64();
        assert forall|e: nat| e < from + 1 implies #[trigger] pow2(e) < n by {
            if e == from {
            }
        }
        lemma_exponent_from_is_least(n, from + 1);
    }
}

/// A power of two divides every higher power of two.
proof fn lemma_pow2_divides(a: nat, b: nat)
    requires
        a <= b,
    ensures
        pow2(b) % pow2(a) == 0,
        pow2(a) > 0,
{
    lemma_pow2_adds((b - a) as nat, a);
    lemma_pow2_pos(a);
    lemma_mod_multiples_basic(pow2((b - a) as nat) as int, pow2(a) as int);
}

/// A block of the order that a layout asks for is aligned as the layout
/// asks: its address is a multiple of the alignment and of the size rounded
/// up to a power of two.
pub proof fn lemma_block_meets_layout(addr: int, size: int, align: int)
    requires
        is_power_of_two(align),
        size >= 0,
        is_aligned(addr, order_of(larger(size, align))),
    ensures
        addr % larger(align, next_power_of_two(size)) == 0,
        addr % align == 0,
        addr % next_power_of_two(size) == 0,
        larger(size, align) <= block_size(order_of(larger(size, align))),
{
    let k = order_of(larger(size, align));
    lemma_order_of_is_least(larger(size, align));
    lemma_block_size_is_pow2(k);
    let a = choose|a: nat| align == #[trigger] pow2(a);
    let e = exponent_at_least(size, 0);
    lemma_exponent_from_is_least(size, 0);
    if a > k + 12 {
        lemma_pow2_strictly_increases(k + 12, a);
    }
    if e > k + 12 {
        assert(pow2(k + 12) < size);
    }
    lemma_pow2_divides(a, k + 12);
    lemma_pow2_divides(e, k + 12);
    lemma_multiple_of_multiple(addr, pow2(a) as int, block_size(k));
    lemma_multiple_of_multiple(addr, pow2(e) as int, block_size(k));
}

/// The order of the smallest block that holds `size` bytes.
pub fn size_to_order(size: usize) -> (order: usize)
    ensures
        order == order_of(size as int),
{
    let mut order: usize = 0;
    let mut block: usize = PAGE_SIZE;
    proof {
        vstd::arithmetic::power2::lemma2_to64();
    }
    while block < size
        invariant
            block >= 4096,
            block == block_size(order as nat),
            order_at_least(size as int, order as nat) == order_of(size as int),
            order + 12 < 64,
        decreases 64 - order,
    {
        proof {
            lemma_block_size_step(order as nat);
            lemma_block_size_step((order + 1) as nat);
            lemma_block_size_is_pow2((order + 1) as nat);
            vstd::arithmetic::power2::lemma2_to64();
            vstd::arithmetic::power2::lemma2_to64_rest();
            if order + 13 > 64 {
                lemma_pow2_strictly_increases(64, (order + 13) as nat);
            }
            assert(order_at_least(size as int, order as nat) == order_at_least(
                size as int,
                (order + 1) as nat,
            ));
        }
        if block > usize::MAX / 2 {
            return order + 1;
        }
        block = block * 2;
        order = order + 1;
    }
    order
}

/// The largest order whose block does not exceed `n` bytes; 0 if there is none.
pub fn largest_order(n: usize) -> (order: usize)
    ensures
        order == floor_order(n as int, (MAX_ORDER - 1) as nat),
        order < MAX_ORDER,
{
    let mut order: usize = MAX_ORDER - 1;
    while order > 0 && block_bytes(order) > n
        invariant
            order < MAX_ORDER,
            floor_order(n as int, order as nat) == floor_order(n as int, (MAX_ORDER - 1) as nat),
        decreases order,
    {
        order = order - 1;
    }
    order
}

/// Power-of-two block manager: a stack of free blocks for each order.
pub struct BuddySystemAllocator {
    free_lists: Vec<Vec<usize>>,
    heap_start: usize,
    heap_end: usize,
}

/// The addresses on a list as integers.
pub open spec fn addresses(list: Seq<usize>) -> Seq<int> {
    Seq::new(list.len(), |i: int| list[i] as int)
}

impl View for BuddySystemAllocator {
    type V = HeapView;

    closed spec fn view(&self) -> HeapView {
        HeapView {
            free: Seq::new(self.free_lists@.len(), |k: int| addresses(self.free_lists@[k]@)),
            start: self.heap_start as int,
            end: self.heap_end as int,
        }
    }
}

impl BuddySystemAllocator {
    /// An allocator that manages no memory yet.
    pub fn new() -> (heap: Self)
        ensures
            heap@.wf(),
            heap@.is_empty(),
            heap@.free.len() == MAX_ORDER,
            heap@.start == 0,
            heap@.end == 0,
    {
        let mut free_lists: Vec<Vec<usize>> = Vec::new();
        let mut k: usize = 0;
        while k < MAX_ORDER
            invariant
                k <= MAX_ORDER,
                free_lists@.len() == k,
                forall|i: int| 0 <= i < k ==> (#[trigger] free_lists@[i])@.len() == 0,
            decreases MAX_ORDER - k,
        {
            free_lists.push(Vec::new());
            k = k + 1;
        }
        let heap = Self { free_lists, heap_start: 0, heap_end: 0 };
        proof {
            assert forall|a: int, o: nat| !#[trigger] heap@.is_free(a, o) by {
                if o < MAX_ORDER {
                    assert(heap@.free[o as int].len() == 0);
                }
            }
        }
        heap
    }

    /// Pushes the block at `addr` of `size` bytes onto the list of its order.
    pub(crate) fn add_free_block(&mut self, addr: usize, size: usize)
        requires
            old(self)@.free.len() == MAX_ORDER,
            exists|order: nat| order < MAX_ORDER && size == #[trigger] block_size(order),
            is_aligned(addr as int, order_of(size as int)),
        ensures
            final(self)@ == old(self)@.push(addr as int, order_of(size as int)),
            size == block_size(order_of(size as int)),
            order_of(size as int) < MAX_ORDER,
    {
        proof {
            let k = choose|order: nat| order < MAX_ORDER && size == #[trigger] block_size(order);
            lemma_order_of_block_size(k);
        }
        let order = size_to_order(size);
        self.free_lists[order].push(addr);
        proof {
            assert(final(self)@.free =~~= old(self)@.push(
                addr as int,
                order_of(size as int),
            ).free);
        }
    }

    /// Takes the block at `addr` off the list of the given order, if it is there.
    fn try_remove_from_list(&mut self, addr: usize, order: usize) -> (found: bool)
        requires
            old(self)@.wf(),
            order < MAX_ORDER,
        ensures
            found == old(self)@.is_free(addr as int, order as nat),
            found ==> final(self)@ == old(self)@.unlink(addr as int, order as nat),
            !found ==> final(self)@ == old(self)@,
    {
        let n = self.free_lists[order].len();
        let mut i: usize = n;
        while i > 0
            invariant
                i <= n,
                order < MAX_ORDER,
                *self == *old(self),
                self@.wf(),
                n == self.free_lists@[order as int]@.len(),
                forall|j: int| i <= j < n ==> self.free_lists@[order as int]@[j] != addr,
            decreases i,
        {
            i = i - 1;
            if self.free_lists[order][i] == addr {
                proof {
                    let list = old(self)@.free[order as int];
                    assert(list[i as int] == addr as int);
                    assert(list.no_duplicates());
                    assert(list.contains(addr as int));
                    let at = list.index_of(addr as int);
                    assert(at == i);
                }
                self.free_lists[order].remove(i);
                proof {
                    assert(final(self)@.free =~~= old(self)@.unlink(
                        addr as int,
                        order as nat,
                    ).free);
                }
                return true;
            }
        }
        proof {
            let list = old(self)@.free[order as int];
            if list.contains(addr as int) {
                let at = list.index_of(addr as int);
                assert(self.free_lists@[order as int]@[at] == addr);
            }
        }
        false
    }

    /// Hands the region `[heap_start, heap_end)` to the allocator: it is cut,
    /// from `heap_start` upward, into the largest blocks that fit.
    #[verifier::loop_isolation(false)]
    pub fn init(&mut self, heap_start: usize, heap_end: usize)
        requires
            old(self)@.free.len() == MAX_ORDER,
            region_ok(heap_start as int, heap_end as int),
        ensures
            final(self)@ == (HeapView {
                start: heap_start as int,
                end: heap_end as int,
                ..old(self)@
            }).add_region(heap_start as int, heap_end as int),
            old(self)@.is_empty() ==> final(self)@.wf(),
    {
        self.heap_start = heap_start;
        self.heap_end = heap_end;
        let ghost bounded = self@;
        let mut current_start = heap_start;
        while current_start < heap_end && heap_end - current_start >= PAGE_SIZE
            invariant
                self@.free.len() == MAX_ORDER,
                heap_start <= current_start,
                region_ok(current_start as int, heap_end as int),
                self@.add_region(current_start as int, heap_end as int) == bounded.add_region(
                    heap_start as int,
                    heap_end as int,
                ),
            decreases heap_end - current_start,
        {
            let remaining = heap_end - current_start;
            let order = largest_order(remaining);
            proof {
                lemma_floor_order(remaining as int, (MAX_ORDER - 1) as nat);
                assert(block_size(0) == 4096) by {
                    vstd::arithmetic::power2::lemma2_to64();
                }
                lemma_region_step(current_start as int, heap_end as int);
            }
            let size = block_bytes(order);
            proof {
                lemma_order_of_block_size(order as nat);
            }
            self.add_free_block(current_start, size);
            current_start = current_start + size;
        }
        proof {
            assert(block_size(0) == 4096) by {
                vstd::arithmetic::power2::lemma2_to64();
            }
            if old(self)@.is_empty() {
                assert forall|a: int, o: nat| !#[trigger] bounded.is_free(a, o) by {
                    if o < MAX_ORDER {
                        assert(bounded.free[o as int].len() == 0);
                    }
                }
                assert forall|k: int| 0 <= k < MAX_ORDER implies (#[trigger] bounded.free[k]).no_duplicates() by {
                    assert(bounded.free[k].len() == 0);
                }
                bounded.lemma_add_region(heap_start as int, heap_end as int);
            }
        }
    }

    /// Hands out a block for `layout`: the head of the lowest non-empty list
    /// from the layout's order upward, halved down to that order. `None` if
    /// there is no such list.
    #[verifier::loop_isolation(false)]
    pub fn allocate(&mut self, layout: Layout) -> (block: Option<usize>)
        requires
            old(self)@.wf(),
        ensures
            final(self)@.wf(),
            final(self)@.start == old(self)@.start,
            final(self)@.end == old(self)@.end,
            order_of(layout.required()) >= MAX_ORDER ==> block is None && final(self)@ == old(
                self,
            )@,
            order_of(layout.required()) < MAX_ORDER ==> {
                let order = order_of(layout.required());
                &&& final(self)@ == old(self)@.after_alloc(order)
                &&& match block {
                    Some(p) => old(self)@.alloc_addr(order) == Some(p as int),
                    None => old(self)@.alloc_addr(order) is None,
                }
                &&& block is None <==> forall|j: int|
                    order <= j < MAX_ORDER ==> (#[trigger] old(self)@.free[j]).len() == 0
            },
            block matches Some(p) ==> {
                let order = order_of(layout.required());
                &&& final(self)@.is_live(p as int, order)
                &&& p as int % larger(
                    layout.align() as int,
                    next_power_of_two(layout.size() as int),
                ) == 0
                &&& final(self)@.start <= p
                &&& p + block_size(order) <= final(self)@.end
                &&& layout.required() <= block_size(order)
            },
            forall|a: int, o: nat| #[trigger]
                old(self)@.is_live(a, o) ==> final(self)@.is_live(a, o) && (block matches Some(p)
                    ==> blocks_disjoint(a, o, p as int, order_of(layout.required()))),
    {
        let size = layout.size();
        let align = layout.align();
        let required = if size >= align {
            size
        } else {
            align
        };
        let required_order = size_to_order(required);
        if required_order >= MAX_ORDER {
            return None;
        }
        proof {
            old(self)@.lemma_alloc(required_order as nat);
            old(self)@.lemma_fit_order(required_order as nat);
        }
        let mut order = required_order;
        while order < MAX_ORDER
            invariant
                required_order <= order <= MAX_ORDER,
                *self == *old(self),
                self@.wf(),
                old(self)@.fit_order(order as nat) == old(self)@.fit_order(required_order as nat),
            decreases MAX_ORDER - order,
        {
            if self.free_lists[order].len() > 0 {
                let block = self.free_lists[order].pop().unwrap();
                proof {
                    assert(self@.free =~~= old(self)@.pop(order as nat).free);
                    assert(old(self)@.free[order as int].last() == block as int);
                    old(self)@.lemma_pop(order as nat);
                    old(self)@.lemma_unlink(block as int, order as nat);
                }
                let mut current_order = order;
                while current_order > required_order
                    invariant
                        required_order <= current_order <= order < MAX_ORDER,
                        self@.wf(),
                        self@.is_live(block as int, current_order as nat),
                        self@.split(block as int, current_order as nat, required_order as nat)
                            == old(self)@.after_alloc(required_order as nat),
                    decreases current_order,
                {
                    let half_size = block_bytes(current_order - 1);
                    proof {
                        lemma_order_of_block_size((current_order - 1) as nat);
                        lemma_block_size_step((current_order - 1) as nat);
                        crate::mm::blocks::lemma_split(
                            block as int,
                            (current_order - 1) as nat,
                        );
                        self@.lemma_split_state(
                            block as int,
                            current_order as nat,
                            (current_order - 1) as nat,
                        );
                        assert(self@.split(
                            block as int,
                            current_order as nat,
                            (current_order - 1) as nat,
                        ) == self@.push(
                            block as int + block_size((current_order - 1) as nat),
                            (current_order - 1) as nat,
                        )) by {
                            reveal_with_fuel(HeapView::split, 2);
                        }
                    }
                    let upper = block + half_size;
                    self.add_free_block(upper, half_size);
                    current_order = current_order - 1;
                }
                proof {
                    lemma_block_meets_layout(block as int, size as int, align as int);
                }
                return Some(block);
            }
            order = order + 1;
        }
        None
    }

    /// Takes back the block at `ptr` that was handed out for `layout`: it is
    /// merged with its buddy as long as the buddy is free, and what it has
    /// become is pushed onto the list of its order.
    #[verifier::loop_isolation(false)]
    pub fn dealloc(&mut self, ptr: usize, layout: Layout)
        requires
            old(self)@.wf(),
            old(self)@.is_live(ptr as int, order_of(layout.required())),
        ensures
            final(self)@ == old(self)@.after_dealloc(ptr as int, order_of(layout.required())),
            final(self)@.wf(),
            final(self)@.start == old(self)@.start,
            final(self)@.end == old(self)@.end,
            forall|a: int, o: nat| #[trigger]
                old(self)@.is_live(a, o) && blocks_disjoint(
                    a,
                    o,
                    ptr as int,
                    order_of(layout.required()),
                ) ==> final(self)@.is_live(a, o),
    {
        let size = layout.size();
        let align = layout.align();
        let required = if size >= align {
            size
        } else {
            align
        };
        let order = size_to_order(required);
        proof {
            old(self)@.lemma_dealloc(ptr as int, order as nat);
        }
        let mut block_addr = ptr;
        let mut current_order = order;
        let mut merging = true;
        while merging && current_order < MAX_ORDER - 1
            invariant
                current_order < MAX_ORDER,
                self@.wf(),
                self@.is_live(block_addr as int, current_order as nat),
                !merging ==> !self@.is_free(
                    crate::mm::blocks::buddy_addr(block_addr as int, current_order as nat),
                    current_order as nat,
                ),
                self@.after_dealloc(block_addr as int, current_order as nat) == old(
                    self,
                )@.after_dealloc(ptr as int, order as nat),
            decreases
                    MAX_ORDER - current_order + (if merging {
                        1int
                    } else {
                        0int
                    }),
        {
            let block_size = block_bytes(current_order);
            proof {
                lemma_xor_is_buddy(block_addr, current_order);
                vstd::bits::lemma_usize_shl_is_mul(4096usize, current_order);
                lemma_block_size_bound(current_order as nat);
                lemma_buddy(block_addr as int, current_order as nat);
            }
            let buddy = block_addr ^ block_size;
            let ghost before = self@;
            if self.try_remove_from_list(buddy, current_order) {
                proof {
                    before.lemma_merge_step(block_addr as int, current_order as nat);
                }
                if buddy < block_addr {
                    block_addr = buddy;
                }
                current_order = current_order + 1;
            } else {
                merging = false;
            }
        }
        let block_size = block_bytes(current_order);
        proof {
            lemma_order_of_block_size(current_order as nat);
        }
        self.add_free_block(block_addr, block_size);
    }

    /// Whether the region `[heap_start, heap_end)` can be handed to `init`.
    pub fn region_fits(heap_start: usize, heap_end: usize) -> (fits: bool)
        ensures
            fits == region_ok(heap_start as int, heap_end as int),
    {
        proof {
            vstd::arithmetic::power2::lemma2_to64();
            lemma_block_size_is_pow2(0);
            lemma_block_size_is_pow2(16);
        }
        if heap_end <= heap_start {
            return true;
        }
        let remaining = heap_end - heap_start;
        if remaining >= 0x1000_0000 {
            return false;
        }
        if remaining < PAGE_SIZE {
            return true;
        }
        let order = largest_order(remaining);
        heap_start % block_bytes(order) == 0
    }

    /// Whether the block at `ptr` for `layout` lies in the managed region and
    /// shares no byte with a free block: whether it may be released.
    #[verifier::loop_isolation(false)]
    pub fn is_live(&self, ptr: usize, layout: Layout) -> (live: bool)
        requires
            self@.wf(),
        ensures
            live == self@.is_live(ptr as int, order_of(layout.required())),
    {
        let size = layout.size();
        let align = layout.align();
        let required = if size >= align {
            size
        } else {
            align
        };
        let order = size_to_order(required);
        if order >= MAX_ORDER {
            return false;
        }
        let bytes = block_bytes(order);
        proof {
            lemma_block_size_step(order as nat);
        }
        if ptr % bytes != 0 || ptr < self.heap_start || self.heap_end < bytes || ptr
            > self.heap_end - bytes {
            return false;
        }
        let mut k: usize = 0;
        while k < MAX_ORDER
            invariant
                k <= MAX_ORDER,
                self@.wf(),
                order < MAX_ORDER,
                bytes == block_size(order as nat),
                ptr + bytes <= usize::MAX,
                forall|b: int, j: nat|
                    j < k && #[trigger] self@.is_free(b, j) ==> blocks_disjoint(
                        ptr as int,
                        order as nat,
                        b,
                        j,
                    ),
            decreases MAX_ORDER - k,
        {
            let block = block_bytes(k);
            let n = self.free_lists[k].len();
            let mut i: usize = 0;
            while i < n
                invariant
                    i <= n,
                    k < MAX_ORDER,
                    self@.wf(),
                    order < MAX_ORDER,
                    n == self.free_lists@[k as int]@.len(),
                    block == block_size(k as nat),
                    bytes == block_size(order as nat),
                    ptr + bytes <= usize::MAX,
                    forall|at: int|
                        0 <= at < i ==> blocks_disjoint(
                            ptr as int,
                            order as nat,
                            #[trigger] self@.free[k as int][at],
                            k as nat,
                        ),
                decreases n - i,
            {
                let addr = self.free_lists[k][i];
                proof {
                    assert(self@.free[k as int][i as int] == addr as int);
                    assert(self@.free[k as int].contains(addr as int));
                    assert(self@.is_free(addr as int, k as nat));
                    assert(self@.in_heap(addr as int, k as nat));
                }
                if !(ptr + bytes <= addr || addr + block <= ptr) {
                    return false;
                }
                i = i + 1;
            }
            proof {
                assert forall|b: int, j: nat|
                    j < k + 1 && #[trigger] self@.is_free(b, j) implies blocks_disjoint(
                    ptr as int,
                    order as nat,
                    b,
                    j,
                ) by {
                    if j == k {
                        let at = self@.free[k as int].index_of(b);
                        assert(self@.free[k as int][at] == b);
                    }
                }
            }
            k = k + 1;
        }
        true
    }

    /// Takes back the block at `ptr` for `layout` if it may be released; says
    /// whether it did.
    pub fn try_dealloc(&mut self, ptr: usize, layout: Layout) -> (released: bool)
        requires
            old(self)@.wf(),
        ensures
            final(self)@.wf(),
            released == old(self)@.is_live(ptr as int, order_of(layout.required())),
            released ==> final(self)@ == old(self)@.after_dealloc(
                ptr as int,
                order_of(layout.required()),
            ),
            !released ==> final(self)@ == old(self)@,
    {
        if self.is_live(ptr, layout) {
            self.dealloc(ptr, layout);
            true
        } else {
            false
        }
    }

    /// Whether every free block is aligned and inside the region.
    #[verifier::loop_isolation(false)]
    fn places_are_sound(&self) -> (ok: bool)
        requires
            self@.free.len() == MAX_ORDER,
        ensures
            ok == (forall|k: int, i: int|
                0 <= k < MAX_ORDER && 0 <= i < self@.free[k].len() ==> #[trigger] self@.place_ok(
                    k,
                    i,
                )),
    {
        let mut k: usize = 0;
        while k < MAX_ORDER
            invariant
                k <= MAX_ORDER,
                forall|kk: int, i: int|
                    0 <= kk < k && 0 <= i < self@.free[kk].len() ==> #[trigger] self@.place_ok(
                        kk,
                        i,
                    ),
            decreases MAX_ORDER - k,
        {
            let bytes = block_bytes(k);
            let n = self.free_lists[k].len();
            let mut i: usize = 0;
            proof {
                lemma_block_size_step(k as nat);
            }
            while i < n
                invariant
                    i <= n,
                    n == self@.free[k as int].len(),
                    forall|ii: int| 0 <= ii < i ==> #[trigger] self@.place_ok(k as int, ii),
                decreases n - i,
            {
                let addr = self.free_lists[k][i];
                assert(self@.free[k as int][i as int] == addr as int);
                if addr % bytes != 0 || addr < self.heap_start || self.heap_end < bytes || addr
                    > self.heap_end - bytes {
                    assert(!self@.place_ok(k as int, i as int));
                    return false;
                }
                i = i + 1;
            }
            k = k + 1;
        }
        true
    }

    /// Whether the block at place `i` of list `k` and every block at another
    /// place are apart and no buddies.
    #[verifier::loop_isolation(false)]
    fn place_is_apart(&self, k: usize, i: usize) -> (ok: bool)
        requires
            self@.free.len() == MAX_ORDER,
            k < MAX_ORDER,
            i < self@.free[k as int].len(),
            forall|kk: int, ii: int|
                0 <= kk < MAX_ORDER && 0 <= ii < self@.free[kk].len() ==> #[trigger] self@.place_ok(
                    kk,
                    ii,
                ),
        ensures
            ok == (forall|j: int, l: int|
                0 <= j < MAX_ORDER && 0 <= l < self@.free[j].len() && (k != j || i != l)
                    ==> #[trigger] self@.pair_ok(k as int, i as int, j, l)),
    {
        let a = self.free_lists[k][i];
        let a_bytes = block_bytes(k);
        proof {
            assert(self@.free[k as int][i as int] == a as int);
            assert(self@.place_ok(k as int, i as int));
            lemma_xor_is_buddy(a, k);
            vstd::bits::lemma_usize_shl_is_mul(4096usize, k);
            lemma_block_size_bound(k as nat);
        }
        let buddy = a ^ a_bytes;
        let mut j: usize = 0;
        while j < MAX_ORDER
            invariant
                j <= MAX_ORDER,
                forall|jj: int, l: int|
                    0 <= jj < j && 0 <= l < self@.free[jj].len() && (k != jj || i != l)
                        ==> #[trigger] self@.pair_ok(k as int, i as int, jj, l),
            decreases MAX_ORDER - j,
        {
            let b_bytes = block_bytes(j);
            let n = self.free_lists[j].len();
            let mut l: usize = 0;
            while l < n
                invariant
                    l <= n,
                    n == self@.free[j as int].len(),
                    forall|ll: int|
                        0 <= ll < l && (k != j || i != ll) ==> #[trigger] self@.pair_ok(
                            k as int,
                            i as int,
                            j as int,
                            ll,
                        ),
                decreases n - l,
            {
                if k != j || i != l {
                    let b = self.free_lists[j][l];
                    proof {
                        assert(self@.free[j as int][l as int] == b as int);
                        assert(self@.place_ok(j as int, l as int));
                    }
                    let apart = a + a_bytes <= b || b + b_bytes <= a;
                    let buddies = k == j && k + 1 < MAX_ORDER && b == buddy;
                    if !apart || buddies {
                        assert(!self@.pair_ok(k as int, i as int, j as int, l as int));
                        return false;
                    }
                }
                l = l + 1;
            }
            j = j + 1;
        }
        true
    }

    /// Whether the free lists are as their invariant says: every free block
    /// aligned to its size and inside the region, no two free blocks sharing
    /// a byte, no two free buddies below the top order.
    #[verifier::loop_isolation(false)]
    pub fn is_consistent(&self) -> (ok: bool)
        ensures
            ok == self@.wf(),
    {
        proof {
            self@.lemma_places();
        }
        if self.free_lists.len() != MAX_ORDER {
            return false;
        }
        if !self.places_are_sound() {
            return false;
        }
        let mut k: usize = 0;
        while k < MAX_ORDER
            invariant
                k <= MAX_ORDER,
                forall|kk: int, i: int, j: int, l: int|
                    0 <= kk < k && 0 <= i < self@.free[kk].len() && 0 <= j < MAX_ORDER && 0 <= l
                        < self@.free[j].len() && (kk != j || i != l) ==> #[trigger] self@.pair_ok(
                        kk,
                        i,
                        j,
                        l,
                    ),
            decreases MAX_ORDER - k,
        {
            let n = self.free_lists[k].len();
            let mut i: usize = 0;
            while i < n
                invariant
                    i <= n,
                    n == self@.free[k as int].len(),
                    forall|ii: int, j: int, l: int|
                        0 <= ii < i && 0 <= j < MAX_ORDER && 0 <= l < self@.free[j].len() && (k
                            != j || ii != l) ==> #[trigger] self@.pair_ok(k as int, ii, j, l),
                decreases n - i,
            {
                if !self.place_is_apart(k, i) {
                    return false;
                }
                i = i + 1;
            }
            k = k + 1;
        }
        true
    }

    /// The free blocks of the given order, the most recently freed last.
    pub fn free_blocks(&self, order: usize) -> (blocks: Vec<usize>)
        requires
            order < MAX_ORDER,
            self@.free.len() == MAX_ORDER,
        ensures
            addresses(blocks@) == self@.free[order as int],
    {
        let blocks = self.free_lists[order].clone();
        proof {
            assert(addresses(blocks@) =~= self@.free[order as int]);
        }
        blocks
    }
}

} // verus!
