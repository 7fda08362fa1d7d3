use vstd::prelude::*;
use crate::mm::blocks::{
    block_inside, block_size, blocks_disjoint, buddy_addr, is_aligned, lemma_aligned_coarser,
    lemma_block_size_increases, lemma_block_size_step, lemma_buddy, lemma_sum_of_multiples,
    parent_addr, MAX_ORDER,
};

verus! {

/// The allocator as mathematics: for each order the stack of free block
/// addresses (the last element is the head), and the bounds of the region.
pub struct HeapView {
    pub free: Seq<Seq<int>>,
    pub start: int,
    pub end: int,
}

impl HeapView {
    /// The block at `addr` of the given order is on a free list.
    pub open spec fn is_free(self, addr: int, order: nat) -> bool {
        order < MAX_ORDER && self.free[order as int].contains(addr)
    }

    /// The block is aligned to its size and lies within the region.
    pub open spec fn in_heap(self, addr: int, order: nat) -> bool {
        &&& order < MAX_ORDER
        &&& is_aligned(addr, order)
        &&& self.start <= addr
        &&& addr + block_size(order) <= self.end
    }

    /// The block lies within the region and shares no byte with a free block:
    /// it is memory that the allocator has handed out, or has yet to be given.
    pub open spec fn is_live(self, addr: int, order: nat) -> bool {
        &&& self.in_heap(addr, order)
        &&& forall|b: int, j: nat| #[trigger]
            self.is_free(b, j) ==> blocks_disjoint(addr, order, b, j)
    }

    /// No list holds a block.
    pub open spec fn is_empty(self) -> bool {
        forall|k: int| 0 <= k < self.free.len() ==> (#[trigger] self.free[k]).len() == 0
    }

    /// The invariant of the free lists: every free block is aligned to its
    /// size and inside the region, no two free blocks overlap, and no two free
    /// blocks below the top order are buddies of each other.
    pub open spec fn wf(self) -> bool {
        &&& self.free.len() == MAX_ORDER
        &&& 0 <= self.start
        &&& self.end <= usize::MAX
        &&& forall|k: int| 0 <= k < MAX_ORDER ==> (#[trigger] self.free[k]).no_duplicates()
        &&& forall|a: int, k: nat| #[trigger] self.is_free(a, k) ==> self.in_heap(a, k)
        &&& forall|a: int, k: nat, b: int, j: nat|
            #[trigger] self.is_free(a, k) && #[trigger] self.is_free(b, j) && (a != b || k != j)
                ==> blocks_disjoint(a, k, b, j)
        &&& forall|a: int, b: int, k: nat|
            #[trigger] self.is_free(a, k) && #[trigger] self.is_free(b, k) && k + 1 < MAX_ORDER
                ==> b != buddy_addr(a, k)
    }

    /// The state after a push of `addr` onto the list of the given order.
    pub open spec fn push(self, addr: int, order: nat) -> HeapView {
        HeapView {
            free: self.free.update(order as int, self.free[order as int].push(addr)),
            ..self
        }
    }

    /// The state after the head of the list of the given order has left it.
    pub open spec fn pop(self, order: nat) -> HeapView {
        HeapView {
            free: self.free.update(order as int, self.free[order as int].drop_last()),
            ..self
        }
    }

    /// The state after `addr` has left the list of the given order.
    pub open spec fn unlink(self, addr: int, order: nat) -> HeapView {
        let list = self.free[order as int];
        HeapView { free: self.free.update(order as int, list.remove(list.index_of(addr))), ..self }
    }

    /// The lowest order from `order` upward whose list holds a block;
    /// `MAX_ORDER` if there is none.
    pub open spec fn fit_order(self, order: nat) -> nat
        decreases MAX_ORDER - order,
    {
        if order >= MAX_ORDER {
            MAX_ORDER as nat
        } else if self.free[order as int].len() > 0 {
            order
        } else {
            self.fit_order(order + 1)
        }
    }

    /// The state after the block at `addr` of order `from` has been halved down
    /// to order `to`, each upper half pushed onto the list of its order.
    pub open spec fn split(self, addr: int, from: nat, to: nat) -> HeapView
        decreases from,
    {
        if from <= to {
            self
        } else {
            let half = (from - 1) as nat;
            self.push(addr + block_size(half), half).split(addr, half, to)
        }
    }

    /// The address that a request of the given order is answered with.
    pub open spec fn alloc_addr(self, order: nat) -> Option<int> {
        let found = self.fit_order(order);
        if found >= MAX_ORDER {
            None
        } else {
            Some(self.free[found as int].last())
        }
    }

    /// The state after a request of the given order.
    pub open spec fn after_alloc(self, order: nat) -> HeapView {
        let found = self.fit_order(order);
        if found >= MAX_ORDER {
            self
        } else {
            self.pop(found).split(self.free[found as int].last(), found, order)
        }
    }

    /// The order at which a released block comes to rest, after it has merged
    /// with every free buddy on its way up.
    pub open spec fn merged_order(self, addr: int, order: nat) -> nat
        decreases MAX_ORDER - order,
    {
        if order + 1 < MAX_ORDER && self.is_free(buddy_addr(addr, order), order) {
            self.unlink(buddy_addr(addr, order), order).merged_order(
                parent_addr(addr, order),
                order + 1,
            )
        } else {
            order
        }
    }

    /// The address of the block that a released block has become.
    pub open spec fn merged_addr(self, addr: int, order: nat) -> int
        decreases MAX_ORDER - order,
    {
        if order + 1 < MAX_ORDER && self.is_free(buddy_addr(addr, order), order) {
            self.unlink(buddy_addr(addr, order), order).merged_addr(
                parent_addr(addr, order),
                order + 1,
            )
        } else {
            addr
        }
    }

    /// The state after the release of the block at `addr` of the given order.
    pub open spec fn after_dealloc(self, addr: int, order: nat) -> HeapView
        decreases MAX_ORDER - order,
    {
        if order + 1 < MAX_ORDER && self.is_free(buddy_addr(addr, order), order) {
            self.unlink(buddy_addr(addr, order), order).after_dealloc(
                parent_addr(addr, order),
                order + 1,
            )
        } else {
            self.push(addr, order)
        }
    }
}

/// What a push does to membership and to the absence of duplicates.
proof fn lemma_seq_push(s: Seq<int>, a: int)
    ensures
        forall|b: int| #[trigger] s.push(a).contains(b) <==> (s.contains(b) || b == a),
        s.no_duplicates() && !s.contains(a) ==> s.push(a).no_duplicates(),
{
    let t = s.push(a);
    assert forall|b: int| #[trigger] t.contains(b) <==> (s.contains(b) || b == a) by {
        if s.contains(b) {
            let i = s.index_of(b);
            assert(t[i] == b);
        }
        if b == a {
            assert(t[s.len() as int] == a);
        }
        if t.contains(b) {
            let i = t.index_of(b);
            if i < s.len() {
                assert(s[i] == b);
            }
        }
    }
    if s.no_duplicates() && !s.contains(a) {
        assert forall|i: int, j: int| 0 <= i < t.len() && 0 <= j < t.len() && i != j implies t[i]
            != t[j] by {
            if i < s.len() {
                assert(s[i] == t[i]);
            }
            if j < s.len() {
                assert(s[j] == t[j]);
            }
        }
    }
}

/// What a removal does to a list without duplicates.
proof fn lemma_seq_remove(s: Seq<int>, i: int)
    requires
        0 <= i < s.len(),
        s.no_duplicates(),
    ensures
        forall|b: int| #[trigger] s.remove(i).contains(b) <==> (s.contains(b) && b != s[i]),
        s.remove(i).no_duplicates(),
        s.index_of(s[i]) == i,
        s.remove(i).len() == s.len() - 1,
{
    let t = s.remove(i);
    assert forall|b: int| #[trigger] t.contains(b) <==> (s.contains(b) && b != s[i]) by {
        if s.contains(b) && b != s[i] {
            let j = s.index_of(b);
            if j < i {
                assert(t[j] == b);
            } else {
                assert(t[j - 1] == b);
            }
        }
        if t.contains(b) {
            let j = t.index_of(b);
            if j < i {
                assert(s[j] == b);
            } else {
                assert(s[j + 1] == b);
            }
        }
    }
    assert forall|x: int, y: int| 0 <= x < t.len() && 0 <= y < t.len() && x != y implies t[x]
        != t[y] by {
        let sx = if x < i { x } else { x + 1 };
        let sy = if y < i { y } else { y + 1 };
        assert(t[x] == s[sx]);
        assert(t[y] == s[sy]);
    }
    assert(s.contains(s[i]));
}

impl HeapView {
    /// What a push does to the set of free blocks.
    pub proof fn lemma_push(self, addr: int, order: nat)
        requires
            self.free.len() == MAX_ORDER,
            order < MAX_ORDER,
        ensures
            forall|b: int, j: nat| #[trigger]
                self.push(addr, order).is_free(b, j) <==> (self.is_free(b, j) || (b == addr && j
                    == order)),
            self.push(addr, order).free.len() == MAX_ORDER,
    {
        lemma_seq_push(self.free[order as int], addr);
    }

    /// A push of a live block whose buddy is not free keeps the invariant.
    pub proof fn lemma_push_wf(self, addr: int, order: nat)
        requires
            self.wf(),
            self.is_live(addr, order),
            order + 1 < MAX_ORDER ==> !self.is_free(buddy_addr(addr, order), order),
        ensures
            self.push(addr, order).wf(),
    {
        let h = self.push(addr, order);
        self.lemma_push(addr, order);
        lemma_seq_push(self.free[order as int], addr);
        lemma_block_size_step(order);
        assert(!self.is_free(addr, order));
        assert forall|k: int| 0 <= k < MAX_ORDER implies (#[trigger] h.free[k]).no_duplicates() by {
            if k != order {
                assert(h.free[k] == self.free[k]);
            }
        }
        assert forall|a: int, b: int, k: nat|
            #[trigger] h.is_free(a, k) && #[trigger] h.is_free(b, k) && k + 1
                < MAX_ORDER implies b != buddy_addr(a, k) by {
            if b == addr && k == order && !(a == addr) {
                assert(self.is_free(a, k));
                lemma_buddy(a, k);
            }
            if b == addr && a == addr {
                lemma_buddy(addr, order);
            }
        }
    }

    /// What taking a free block off its list does: the invariant holds, the
    /// other free blocks stay, and the block is live.
    pub proof fn lemma_unlink(self, addr: int, order: nat)
        requires
            self.wf(),
            self.is_free(addr, order),
        ensures
            self.unlink(addr, order).wf(),
            forall|b: int, j: nat| #[trigger]
                self.unlink(addr, order).is_free(b, j) <==> (self.is_free(b, j) && !(b == addr && j
                    == order)),
            self.unlink(addr, order).is_live(addr, order),
    {
        let h = self.unlink(addr, order);
        let list = self.free[order as int];
        let i = list.index_of(addr);
        lemma_seq_remove(list, i);
        assert forall|k: int| 0 <= k < MAX_ORDER implies (#[trigger] h.free[k]).no_duplicates() by {
            if k != order {
                assert(h.free[k] == self.free[k]);
            }
        }
        assert forall|b: int, j: nat| #[trigger]
            h.is_free(b, j) <==> (self.is_free(b, j) && !(b == addr && j == order)) by {
            if j < MAX_ORDER && j != order {
                assert(h.free[j as int] == self.free[j as int]);
            }
        }
    }

    /// Popping the head of a list is taking its last block off it.
    pub proof fn lemma_pop(self, order: nat)
        requires
            self.wf(),
            order < MAX_ORDER,
            self.free[order as int].len() > 0,
        ensures
            self.is_free(self.free[order as int].last(), order),
            self.pop(order) == self.unlink(self.free[order as int].last(), order),
    {
        let list = self.free[order as int];
        let i = list.len() - 1;
        lemma_seq_remove(list, i);
        assert(list.remove(i) =~= list.drop_last());
        assert(list.contains(list[i]));
    }
}

impl HeapView {
    /// What `fit_order` finds.
    pub proof fn lemma_fit_order(self, order: nat)
        ensures
            order <= self.fit_order(order) || self.fit_order(order) == MAX_ORDER,
            self.fit_order(order) <= MAX_ORDER,
            self.fit_order(order) < MAX_ORDER ==> self.free[self.fit_order(order) as int].len() > 0,
            forall|j: int|
                order <= j < self.fit_order(order) && j < MAX_ORDER ==> (#[trigger] self.free[j]).len()
                    == 0,
        decreases MAX_ORDER - order,
    {
        if order < MAX_ORDER && self.free[order as int].len() == 0 {
            self.lemma_fit_order(order + 1);
        }
    }

    /// Halving a live block down keeps the invariant, frees exactly the upper
    /// halves, and leaves the lowest part live.
    pub proof fn lemma_split_state(self, addr: int, from: nat, to: nat)
        requires
            self.wf(),
            to <= from < MAX_ORDER,
            self.is_live(addr, from),
        ensures
            self.split(addr, from, to).wf(),
            self.split(addr, from, to).start == self.start,
            self.split(addr, from, to).end == self.end,
            self.split(addr, from, to).is_live(addr, to),
            forall|b: int, j: nat| #[trigger]
                self.split(addr, from, to).is_free(b, j) <==> (self.is_free(b, j) || (to <= j < from
                    && b == addr + block_size(j))),
        decreases from,
    {
        if from > to {
            let half = (from - 1) as nat;
            let upper = addr + block_size(half);
            let h1 = self.push(upper, half);
            crate::mm::blocks::lemma_split(addr, half);
            assert(self.is_live(upper, half));
            assert(!self.is_free(addr, half));
            self.lemma_push_wf(upper, half);
            self.lemma_push(upper, half);
            assert(h1.is_live(addr, half));
            h1.lemma_split_state(addr, half, to);
        }
    }

    /// What a request does: the invariant holds; the block handed out was part
    /// of a free block and is now live; every block that was live stays live
    /// and is disjoint from it.
    pub proof fn lemma_alloc(self, order: nat)
        requires
            self.wf(),
            order < MAX_ORDER,
        ensures
            self.after_alloc(order).wf(),
            self.after_alloc(order).start == self.start,
            self.after_alloc(order).end == self.end,
            self.alloc_addr(order) is None <==> (forall|j: int|
                order <= j < MAX_ORDER ==> (#[trigger] self.free[j]).len() == 0),
            self.alloc_addr(order) is None ==> self.after_alloc(order) == self,
            self.alloc_addr(order) matches Some(p) ==> {
                let found = self.fit_order(order);
                &&& order <= found < MAX_ORDER
                &&& self.is_free(p, found)
                &&& self.after_alloc(order).is_live(p, order)
                &&& forall|b: int, j: nat| #[trigger]
                    self.after_alloc(order).is_free(b, j) <==> ((self.is_free(b, j) && !(b == p && j
                        == found)) || (order <= j < found && b == p + block_size(j)))
                &&& forall|a: int, o: nat| #[trigger]
                    self.is_live(a, o) ==> self.after_alloc(order).is_live(a, o) && blocks_disjoint(
                        a,
                        o,
                        p,
                        order,
                    )
            },
    {
        self.lemma_fit_order(order);
        let found = self.fit_order(order);
        if found < MAX_ORDER {
            let p = self.free[found as int].last();
            let h1 = self.pop(found);
            let h2 = self.after_alloc(order);
            self.lemma_pop(found);
            self.lemma_unlink(p, found);
            h1.lemma_split_state(p, found, order);
            lemma_block_size_increases(order, found);
            assert forall|a: int, o: nat| #[trigger] self.is_live(a, o) implies h2.is_live(a, o)
                && blocks_disjoint(a, o, p, order) by {
                assert(blocks_disjoint(a, o, p, found));
                assert forall|b: int, j: nat| #[trigger] h2.is_free(b, j) implies blocks_disjoint(
                    a,
                    o,
                    b,
                    j,
                ) by {
                    if order <= j < found && b == p + block_size(j) {
                        lemma_block_size_increases(j + 1, found);
                        lemma_block_size_step(j);
                    }
                }
            }
            assert(self.free[found as int].len() > 0);
        }
    }

    /// What a release does: the invariant holds; the released block is part of
    /// the free block it has become; every other live block stays live.
    pub proof fn lemma_dealloc(self, addr: int, order: nat)
        requires
            self.wf(),
            self.is_live(addr, order),
        ensures
            self.after_dealloc(addr, order).wf(),
            self.after_dealloc(addr, order).start == self.start,
            self.after_dealloc(addr, order).end == self.end,
            order <= self.merged_order(addr, order) < MAX_ORDER,
            block_inside(
                addr,
                order,
                self.merged_addr(addr, order),
                self.merged_order(addr, order),
            ),
            self.in_heap(self.merged_addr(addr, order), self.merged_order(addr, order)),
            self.after_dealloc(addr, order).is_free(
                self.merged_addr(addr, order),
                self.merged_order(addr, order),
            ),
            forall|b: int, j: nat| #[trigger]
                self.after_dealloc(addr, order).is_free(b, j) ==> self.is_free(b, j) || (b
                    == self.merged_addr(addr, order) && j == self.merged_order(addr, order)),
            forall|b: int, j: nat| #[trigger]
                self.is_free(b, j) ==> self.after_dealloc(addr, order).is_free(b, j)
                    || block_inside(
                    b,
                    j,
                    self.merged_addr(addr, order),
                    self.merged_order(addr, order),
                ),
            forall|a: int, o: nat| #[trigger]
                self.is_live(a, o) && blocks_disjoint(a, o, addr, order)
                    ==> self.after_dealloc(addr, order).is_live(a, o),
        decreases MAX_ORDER - order,
    {
        let buddy = buddy_addr(addr, order);
        let h = self.after_dealloc(addr, order);
        lemma_buddy(addr, order);
        lemma_block_size_step(order);
        if order + 1 < MAX_ORDER && self.is_free(buddy, order) {
            let parent = parent_addr(addr, order);
            let h1 = self.unlink(buddy, order);
            self.lemma_merge_step(addr, order);
            h1.lemma_dealloc(parent, order + 1);
            let m = self.merged_addr(addr, order);
            let mo = self.merged_order(addr, order);
            assert(block_inside(parent, order + 1, m, mo));
            assert(block_inside(buddy, order, parent, order + 1));
            assert forall|b: int, j: nat| #[trigger] self.is_free(b, j) implies h.is_free(b, j)
                || block_inside(b, j, m, mo) by {
                if !(b == buddy && j == order) {
                    assert(h1.is_free(b, j));
                }
            }
            assert forall|a: int, o: nat| #[trigger]
                self.is_live(a, o) && blocks_disjoint(a, o, addr, order) implies h.is_live(
                a,
                o,
            ) by {
                lemma_block_size_step(o);
                assert(blocks_disjoint(a, o, buddy, order));
                assert(h1.is_live(a, o));
                assert(blocks_disjoint(a, o, parent, order + 1));
            }
        } else {
            self.lemma_push_wf(addr, order);
            self.lemma_push(addr, order);
        }
    }
}

/// The largest order up to `limit` whose block size does not exceed `n`;
/// 0 if there is none.
pub open spec fn floor_order(n: int, limit: nat) -> nat
    decreases limit,
{
    if limit == 0 || block_size(limit) <= n {
        limit
    } else {
        floor_order(n, (limit - 1) as nat)
    }
}

/// What `floor_order` returns: an order up to the limit whose block fits in `n`
/// bytes, where a page fits, and whose successor, if within the limit, does not.
pub proof fn lemma_floor_order(n: int, limit: nat)
    ensures
        floor_order(n, limit) <= limit,
        block_size(floor_order(n, limit)) >= block_size(0) > 0,
        n >= block_size(0) ==> block_size(floor_order(n, limit)) <= n,
        floor_order(n, limit) < limit ==> n < block_size(floor_order(n, limit) + 1),
    decreases limit,
{
    lemma_block_size_increases(0, floor_order(n, limit));
    if limit == 0 || block_size(limit) <= n {
    } else {
        lemma_floor_order(n, (limit - 1) as nat);
    }
}

/// Whether the region `[lo, hi)` can be cut into aligned blocks: it is smaller
/// than twice the largest block, and `lo` is a multiple of the size of the
/// largest block that fits in it.
pub open spec fn region_ok(lo: int, hi: int) -> bool {
    &&& hi - lo < block_size(MAX_ORDER as nat)
    &&& hi - lo >= block_size(0) ==> is_aligned(lo, floor_order(hi - lo, (MAX_ORDER - 1) as nat))
}

impl HeapView {
    /// The state after `[lo, hi)` has been cut, from `lo` upward, into the
    /// largest blocks that fit, each pushed onto the list of its order.
    pub open spec fn add_region(self, lo: int, hi: int) -> HeapView
        decreases hi - lo,
    {
        if hi - lo < block_size(0) {
            self
        } else {
            let order = floor_order(hi - lo, (MAX_ORDER - 1) as nat);
            proof {
                lemma_floor_order(hi - lo, (MAX_ORDER - 1) as nat);
            }
            self.push(lo, order).add_region(lo + block_size(order), hi)
        }
    }
}

/// The first block of a region that can be cut is aligned, and the rest of
/// the region can be cut.
pub proof fn lemma_region_step(lo: int, hi: int)
    requires
        region_ok(lo, hi),
        hi - lo >= block_size(0),
    ensures
        is_aligned(lo, floor_order(hi - lo, (MAX_ORDER - 1) as nat)),
        block_size(floor_order(hi - lo, (MAX_ORDER - 1) as nat)) <= hi - lo,
        region_ok(lo + block_size(floor_order(hi - lo, (MAX_ORDER - 1) as nat)), hi),
{
    let top = (MAX_ORDER - 1) as nat;
    let order = floor_order(hi - lo, top);
    let next = lo + block_size(order);
    lemma_floor_order(hi - lo, top);
    lemma_block_size_step(order);
    lemma_floor_order(hi - next, top);
    if hi - next >= block_size(0) {
        let below = floor_order(hi - next, top);
        if below >= order {
            lemma_block_size_increases(order, below);
        }
        lemma_aligned_coarser(lo, below, order);
        lemma_block_size_increases(below, order);
        lemma_sum_of_multiples(lo, block_size(order), block_size(below));
    }
}

impl HeapView {
    /// Cutting a region that lies above every free block, and holds no block
    /// as large as one of them, keeps the invariant; the new free blocks lie
    /// inside the region.
    pub proof fn lemma_add_region(self, lo: int, hi: int)
        requires
            self.wf(),
            region_ok(lo, hi),
            self.start <= lo,
            hi <= self.end,
            forall|b: int, j: nat| #[trigger]
                self.is_free(b, j) ==> b + block_size(j) <= lo && (hi - lo >= block_size(0) ==> j
                    > floor_order(hi - lo, (MAX_ORDER - 1) as nat)),
        ensures
            self.add_region(lo, hi).wf(),
            self.add_region(lo, hi).start == self.start,
            self.add_region(lo, hi).end == self.end,
            forall|b: int, j: nat| #[trigger]
                self.add_region(lo, hi).is_free(b, j) ==> self.is_free(b, j) || (lo <= b && b
                    + block_size(j) <= hi),
        decreases hi - lo,
    {
        if hi - lo >= block_size(0) {
            let top = (MAX_ORDER - 1) as nat;
            let order = floor_order(hi - lo, top);
            lemma_floor_order(hi - lo, top);
            lemma_block_size_step(order);
            let h1 = self.push(lo, order);
            let next = lo + block_size(order);
            assert(self.is_live(lo, order));
            assert(!self.is_free(buddy_addr(lo, order), order));
            self.lemma_push_wf(lo, order);
            self.lemma_push(lo, order);
            lemma_region_step(lo, hi);
            lemma_floor_order(hi - next, top);
            if hi - next >= block_size(0) && floor_order(hi - next, top) >= order {
                lemma_block_size_increases(order, floor_order(hi - next, top));
            }
            h1.lemma_add_region(next, hi);
        }
    }
}

impl HeapView {
    /// One step of a merge: with the free buddy off its list the invariant
    /// holds and the parent is live.
    pub proof fn lemma_merge_step(self, addr: int, order: nat)
        requires
            self.wf(),
            self.is_live(addr, order),
            order + 1 < MAX_ORDER,
            self.is_free(buddy_addr(addr, order), order),
        ensures
            self.unlink(buddy_addr(addr, order), order).wf(),
            self.unlink(buddy_addr(addr, order), order).is_live(
                parent_addr(addr, order),
                order + 1,
            ),
            self.unlink(buddy_addr(addr, order), order).start == self.start,
            self.unlink(buddy_addr(addr, order), order).end == self.end,
            forall|b: int, j: nat| #[trigger]
                self.unlink(buddy_addr(addr, order), order).is_free(b, j) <==> (self.is_free(b, j)
                    && !(b == buddy_addr(addr, order) && j == order)),
    {
        let buddy = buddy_addr(addr, order);
        let parent = parent_addr(addr, order);
        let h1 = self.unlink(buddy, order);
        lemma_buddy(addr, order);
        lemma_block_size_step(order);
        self.lemma_unlink(buddy, order);
        assert(self.in_heap(buddy, order));
        assert forall|b: int, j: nat| #[trigger] h1.is_free(b, j) implies blocks_disjoint(
            parent,
            order + 1,
            b,
            j,
        ) by {
            lemma_block_size_step(j);
            assert(self.is_free(b, j));
            assert(blocks_disjoint(addr, order, b, j));
            assert(blocks_disjoint(buddy, order, b, j));
        }
    }

    /// A region cut on an allocator whose lists hold at most one block each
    /// leaves at most one block on each list.
    pub proof fn lemma_add_region_one_per_order(self, lo: int, hi: int)
        requires
            self.free.len() == MAX_ORDER,
            region_ok(lo, hi),
            forall|k: int| 0 <= k < MAX_ORDER ==> (#[trigger] self.free[k]).len() <= 1,
            forall|k: int|
                0 <= k < MAX_ORDER && hi - lo >= block_size(0) && k <= floor_order(
                    hi - lo,
                    (MAX_ORDER - 1) as nat,
                ) ==> (#[trigger] self.free[k]).len() == 0,
        ensures
            self.add_region(lo, hi).free.len() == MAX_ORDER,
            forall|k: int|
                0 <= k < MAX_ORDER ==> (#[trigger] self.add_region(lo, hi).free[k]).len() <= 1,
        decreases hi - lo,
    {
        if hi - lo >= block_size(0) {
            let top = (MAX_ORDER - 1) as nat;
            let order = floor_order(hi - lo, top);
            lemma_floor_order(hi - lo, top);
            lemma_block_size_step(order);
            let h1 = self.push(lo, order);
            let next = lo + block_size(order);
            lemma_floor_order(hi - next, top);
            lemma_region_step(lo, hi);
            assert(self.free[order as int].len() == 0);
            if hi - next >= block_size(0) {
                let below = floor_order(hi - next, top);
                if below >= order {
                    lemma_block_size_increases(order, below);
                }
                assert forall|k: int| 0 <= k < MAX_ORDER && k <= below implies (#[trigger] h1.free[k]).len()
                    == 0 by {
                    assert(h1.free[k] == self.free[k]);
                }
            }
            assert forall|k: int| 0 <= k < MAX_ORDER implies (#[trigger] h1.free[k]).len()
                <= 1 by {
                if k != order {
                    assert(h1.free[k] == self.free[k]);
                }
            }
            h1.lemma_add_region_one_per_order(next, hi);
        }
    }
}

impl HeapView {
    /// The block at place `i` of list `k` is aligned and inside the region.
    pub open spec fn place_ok(self, k: int, i: int) -> bool {
        self.in_heap(self.free[k][i], k as nat)
    }

    /// The blocks at two places share no byte and are not buddies of each
    /// other below the top order.
    pub open spec fn pair_ok(self, k: int, i: int, j: int, l: int) -> bool {
        &&& blocks_disjoint(self.free[k][i], k as nat, self.free[j][l], j as nat)
        &&& k == j && k + 1 < MAX_ORDER ==> self.free[j][l] != buddy_addr(self.free[k][i], k as nat)
    }

    /// The invariant, place by place: every block is aligned and inside the
    /// region, and every two blocks at different places are apart and no
    /// buddies.
    pub open spec fn places_ok(self) -> bool {
        &&& self.free.len() == MAX_ORDER
        &&& 0 <= self.start
        &&& self.end <= usize::MAX
        &&& forall|k: int, i: int|
            0 <= k < MAX_ORDER && 0 <= i < self.free[k].len() ==> #[trigger] self.place_ok(k, i)
        &&& forall|k: int, i: int, j: int, l: int|
            0 <= k < MAX_ORDER && 0 <= i < self.free[k].len() && 0 <= j < MAX_ORDER && 0 <= l
                < self.free[j].len() && (k != j || i != l) ==> #[trigger] self.pair_ok(k, i, j, l)
    }

    /// The invariant holds exactly if it holds place by place.
    pub proof fn lemma_places(self)
        ensures
            self.wf() == self.places_ok(),
    {
        if self.wf() {
            assert forall|k: int, i: int|
                0 <= k < MAX_ORDER && 0 <= i < self.free[k].len() implies #[trigger] self.place_ok(
                k,
                i,
            ) by {
                assert(self.free[k].contains(self.free[k][i]));
                assert(self.is_free(self.free[k][i], k as nat));
            }
            assert forall|k: int, i: int, j: int, l: int|
                0 <= k < MAX_ORDER && 0 <= i < self.free[k].len() && 0 <= j < MAX_ORDER && 0 <= l
                    < self.free[j].len() && (k != j || i != l) implies #[trigger] self.pair_ok(
                k,
                i,
                j,
                l,
            ) by {
                assert(self.free[k].contains(self.free[k][i]));
                assert(self.free[j].contains(self.free[j][l]));
                assert(self.is_free(self.free[k][i], k as nat));
                assert(self.is_free(self.free[j][l], j as nat));
                assert(self.free[k].no_duplicates());
            }
        }
        if self.places_ok() {
            assert forall|k: int| 0 <= k < MAX_ORDER implies (#[trigger] self.free[k]).no_duplicates() by {
                assert forall|i: int, l: int|
                    0 <= i < self.free[k].len() && 0 <= l < self.free[k].len() && i
                        != l implies self.free[k][i] != self.free[k][l] by {
                    assert(self.pair_ok(k, i, k, l));
                    lemma_block_size_step(k as nat);
                }
            }
            assert forall|a: int, k: nat| #[trigger] self.is_free(a, k) implies self.in_heap(
                a,
                k,
            ) by {
                let i = self.free[k as int].index_of(a);
                assert(self.place_ok(k as int, i));
            }
            assert forall|a: int, k: nat, b: int, j: nat|
                #[trigger] self.is_free(a, k) && #[trigger] self.is_free(b, j) && (a != b || k
                    != j) implies blocks_disjoint(a, k, b, j) by {
                let i = self.free[k as int].index_of(a);
                let l = self.free[j as int].index_of(b);
                assert(self.pair_ok(k as int, i, j as int, l));
            }
            assert forall|a: int, b: int, k: nat|
                #[trigger] self.is_free(a, k) && #[trigger] self.is_free(b, k) && k + 1
                    < MAX_ORDER implies b != buddy_addr(a, k) by {
                let i = self.free[k as int].index_of(a);
                let l = self.free[k as int].index_of(b);
                assert(self.place_ok(k as int, i));
                lemma_buddy(a, k);
                if i != l {
                    assert(self.pair_ok(k as int, i, k as int, l));
                }
            }
        }
    }
}

} // verus!
