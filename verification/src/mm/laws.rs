use vstd::prelude::*;
use vstd::arithmetic::power2::{lemma2_to64, lemma_pow2_pos, lemma_pow2_unfold, pow2};
use crate::mm::blocks::{
    block_inside, block_size, blocks_disjoint, buddy_addr, lemma_block_size_increases,
    lemma_block_size_step, lemma_buddy, lemma_inside_order, lemma_nested_or_disjoint,
    lemma_parent_inside, lemma_same_order_overlap, parent_addr, MAX_ORDER,
};
use crate::mm::model::{floor_order, lemma_floor_order, region_ok, HeapView};

verus! {

/// A request made of the allocator.
pub enum HeapOp {
    /// Hand out a block of the given order.
    Allocate { order: nat },
    /// Take back the block at `addr` of the given order.
    Release { addr: int, order: nat },
}

/// An allocator that manages `[lo, hi)` and holds no block yet.
pub open spec fn empty_heap(lo: int, hi: int) -> HeapView {
    HeapView { free: Seq::new(MAX_ORDER as nat, |k: int| Seq::<int>::empty()), start: lo, end: hi }
}

/// The allocator right after `[lo, hi)` has been handed to it.
pub open spec fn initial_heap(lo: int, hi: int) -> HeapView {
    empty_heap(lo, hi).add_region(lo, hi)
}

/// The free lists after one request.
pub open spec fn heap_step(h: HeapView, op: HeapOp) -> HeapView {
    match op {
        HeapOp::Allocate { order } => h.after_alloc(order),
        HeapOp::Release { addr, order } => h.after_dealloc(addr, order),
    }
}

/// The blocks handed out and not yet taken back, after one request.
pub open spec fn live_step(h: HeapView, live: Set<(int, nat)>, op: HeapOp) -> Set<(int, nat)> {
    match op {
        HeapOp::Allocate { order } => match h.alloc_addr(order) {
            Some(p) => live.insert((p, order)),
            None => live,
        },
        HeapOp::Release { addr, order } => live.remove((addr, order)),
    }
}

/// The free lists after a sequence of requests.
pub open spec fn heap_after(h: HeapView, ops: Seq<HeapOp>) -> HeapView
    decreases ops.len(),
{
    if ops.len() == 0 {
        h
    } else {
        heap_step(heap_after(h, ops.drop_last()), ops.last())
    }
}

/// The blocks handed out and not yet taken back after a sequence of
/// requests.
pub open spec fn live_after(h: HeapView, ops: Seq<HeapOp>) -> Set<(int, nat)>
    decreases ops.len(),
{
    if ops.len() == 0 {
        Set::empty()
    } else {
        live_step(
            heap_after(h, ops.drop_last()),
            live_after(h, ops.drop_last()),
            ops.last(),
        )
    }
}

/// Every request asks for an order that exists, or gives back a block that
/// was handed out and has not been given back before.
pub open spec fn ops_valid(h: HeapView, ops: Seq<HeapOp>) -> bool
    decreases ops.len(),
{
    ops.len() == 0 || (ops_valid(h, ops.drop_last()) && match ops.last() {
        HeapOp::Allocate { order } => order < MAX_ORDER,
        HeapOp::Release { addr, order } => live_after(h, ops.drop_last()).contains((addr, order)),
    })
}

/// The block is free or handed out.
pub open spec fn accounted(h: HeapView, live: Set<(int, nat)>, a: int, k: nat) -> bool {
    h.is_free(a, k) || live.contains((a, k))
}

/// The block lies inside one of the blocks that the region was cut into.
pub open spec fn within_initial(init: HeapView, a: int, k: nat) -> bool {
    exists|b: int, j: nat| #[trigger] init.is_free(b, j) && block_inside(a, k, b, j)
}

/// The byte at `x` lies in one of the blocks that the region was cut into.
pub open spec fn managed(init: HeapView, x: int) -> bool {
    exists|b: int, j: nat| #[trigger] init.is_free(b, j) && b <= x < b + block_size(j)
}

/// The byte at `x` lies in a block that is free or handed out.
pub open spec fn covered(h: HeapView, live: Set<(int, nat)>, x: int) -> bool {
    exists|a: int, k: nat| #[trigger] accounted(h, live, a, k) && a <= x < a + block_size(k)
}

/// What the initial state of an allocator is like: the free lists are well
/// formed and hold at most one block each.
pub open spec fn is_initial(init: HeapView) -> bool {
    &&& init.wf()
    &&& forall|k: int| 0 <= k < MAX_ORDER ==> (#[trigger] init.free[k]).len() <= 1
}

/// What holds of the free lists and the blocks handed out after every valid
/// sequence of requests: the handed-out blocks are live and apart from each
/// other, every block lies inside one of the initial blocks, and every
/// managed byte is in a block.
pub open spec fn accounts(init: HeapView, h: HeapView, live: Set<(int, nat)>) -> bool {
    &&& h.wf()
    &&& h.start == init.start
    &&& h.end == init.end
    &&& forall|a: int, k: nat| #[trigger] live.contains((a, k)) ==> h.is_live(a, k)
    &&& forall|a: int, k: nat, b: int, j: nat|
        #[trigger] live.contains((a, k)) && #[trigger] live.contains((b, j)) && (a != b || k != j)
            ==> blocks_disjoint(a, k, b, j)
    &&& forall|a: int, k: nat| #[trigger] accounted(h, live, a, k) ==> within_initial(init, a, k)
    &&& forall|x: int| #[trigger] managed(init, x) ==> covered(h, live, x)
}

/// The initial state of an allocator is as `is_initial` says.
pub proof fn lemma_initial_heap(lo: int, hi: int)
    requires
        region_ok(lo, hi),
        0 <= lo,
        hi <= usize::MAX,
    ensures
        is_initial(initial_heap(lo, hi)),
        initial_heap(lo, hi).start == lo,
        initial_heap(lo, hi).end == hi,
{
    let e = empty_heap(lo, hi);
    assert forall|a: int, k: nat| !#[trigger] e.is_free(a, k) by {
        if k < MAX_ORDER {
            assert(e.free[k as int].len() == 0);
        }
    }
    assert forall|k: int| 0 <= k < MAX_ORDER implies (#[trigger] e.free[k]).no_duplicates() by {
        assert(e.free[k].len() == 0);
    }
    e.lemma_add_region(lo, hi);
    e.lemma_add_region_one_per_order(lo, hi);
}

/// Blocks that are free before a region is cut are free after it.
proof fn lemma_add_region_keeps(h: HeapView, lo: int, hi: int, a: int, k: nat)
    requires
        h.free.len() == MAX_ORDER,
        h.is_free(a, k),
    ensures
        h.add_region(lo, hi).is_free(a, k),
    decreases hi - lo,
{
    if hi - lo >= block_size(0) {
        let order = floor_order(hi - lo, (MAX_ORDER - 1) as nat);
        lemma_floor_order(hi - lo, (MAX_ORDER - 1) as nat);
        h.lemma_push(lo, order);
        lemma_add_region_keeps(h.push(lo, order), lo + block_size(order), hi, a, k);
    }
}

/// Cutting a region puts every byte of its whole pages in a free block.
proof fn lemma_add_region_covers(h: HeapView, lo: int, hi: int, x: int)
    requires
        h.free.len() == MAX_ORDER,
        lo <= x < hi - (hi - lo) % 4096,
    ensures
        managed(h.add_region(lo, hi), x),
    decreases hi - lo,
{
    assert(block_size(0) == 4096) by {
        vstd::arithmetic::power2::lemma2_to64();
    }
    let top = (MAX_ORDER - 1) as nat;
    let order = floor_order(hi - lo, top);
    lemma_floor_order(hi - lo, top);
    let h1 = h.push(lo, order);
    let next = lo + block_size(order);
    h.lemma_push(lo, order);
    if x < next {
        lemma_add_region_keeps(h1, next, hi, lo, order);
        assert(h.add_region(lo, hi).is_free(lo, order) && lo <= x < lo + block_size(order));
    } else {
        lemma_block_size_increases(0, order);
        assert((hi - next) % 4096 == (hi - lo) % 4096) by {
            let q = block_size(order) / 4096;
            vstd::arithmetic::div_mod::lemma_fundamental_div_mod(block_size(order), 4096);
            vstd::arithmetic::div_mod::lemma_mod_multiples_vanish(-q, hi - lo, 4096);
        }
        lemma_add_region_covers(h1, next, hi, x);
    }
}

/// Initialization loses no page: every byte of the whole pages of the region
/// lies in one of the blocks that the region is cut into.
pub proof fn lemma_initial_heap_covers(lo: int, hi: int, x: int)
    requires
        lo <= x < hi - (hi - lo) % 4096,
    ensures
        managed(initial_heap(lo, hi), x),
{
    lemma_add_region_covers(empty_heap(lo, hi), lo, hi, x);
}

/// Two initial blocks that share a byte are one block.
proof fn lemma_initial_blocks_apart(init: HeapView, a: int, k: nat, b: int, j: nat)
    requires
        is_initial(init),
        init.is_free(a, k),
        init.is_free(b, j),
        !blocks_disjoint(a, k, b, j),
    ensures
        a == b,
        k == j,
{
}

/// Two initial blocks of one order are one block.
proof fn lemma_initial_one_per_order(init: HeapView, a: int, b: int, k: nat)
    requires
        is_initial(init),
        init.is_free(a, k),
        init.is_free(b, k),
    ensures
        a == b,
{
    let list = init.free[k as int];
    let i = list.index_of(a);
    let j = list.index_of(b);
    assert(list.len() <= 1);
}

/// The bytes of a block that has been halved from order `from` down to order
/// `to` are the bytes of the lowest part and of the upper halves.
proof fn lemma_pieces(p: int, to: nat, from: nat, x: int)
    requires
        to <= from,
        p <= x < p + block_size(from),
    ensures
        x < p + block_size(to) || exists|j: nat|
            to <= j < from && p + #[trigger] block_size(j) <= x < p + block_size(j + 1),
    decreases from,
{
    if from > to {
        let half = (from - 1) as nat;
        lemma_block_size_step(half);
        if x < p + block_size(half) {
            lemma_pieces(p, to, half, x);
            if !(x < p + block_size(to)) {
                let j = choose|j: nat|
                    to <= j < half && p + #[trigger] block_size(j) <= x < p + block_size(j + 1);
                assert(to <= j < from && p + block_size(j) <= x < p + block_size(j + 1));
            }
        } else {
            assert(to <= half < from && p + block_size(half) <= x < p + block_size(half + 1));
        }
    }
}

/// A request for a block keeps the account.
proof fn lemma_allocate_accounts(init: HeapView, h: HeapView, live: Set<(int, nat)>, order: nat)
    requires
        is_initial(init),
        accounts(init, h, live),
        order < MAX_ORDER,
    ensures
        accounts(
            init,
            heap_step(h, HeapOp::Allocate { order }),
            live_step(h, live, HeapOp::Allocate { order }),
        ),
{
    let op = HeapOp::Allocate { order };
    let h2 = heap_step(h, op);
    let live2 = live_step(h, live, op);
    h.lemma_alloc(order);
    if let Some(p) = h.alloc_addr(order) {
        let found = h.fit_order(order);
        lemma_block_size_increases(order, found);
        assert(accounted(h, live, p, found));
        let (ib, ij) = choose|b: int, j: nat| #[trigger]
            init.is_free(b, j) && block_inside(p, found, b, j);
        assert forall|a: int, k: nat| #[trigger] live2.contains((a, k)) implies h2.is_live(
            a,
            k,
        ) by {
            if live.contains((a, k)) {
                assert(h.is_live(a, k));
            }
        }
        assert forall|a: int, k: nat, b: int, j: nat|
            #[trigger] live2.contains((a, k)) && #[trigger] live2.contains((b, j)) && (a != b || k
                != j) implies blocks_disjoint(a, k, b, j) by {
            if live.contains((a, k)) {
                assert(h.is_live(a, k));
            }
            if live.contains((b, j)) {
                assert(h.is_live(b, j));
            }
        }
        assert forall|a: int, k: nat| #[trigger] accounted(h2, live2, a, k) implies within_initial(
            init,
            a,
            k,
        ) by {
            if accounted(h, live, a, k) {
            } else {
                if order <= k < found && a == p + block_size(k) {
                    lemma_block_size_increases(k + 1, found);
                    lemma_block_size_step(k);
                }
                assert(block_inside(a, k, p, found));
                assert(init.is_free(ib, ij) && block_inside(a, k, ib, ij));
            }
        }
        assert forall|x: int| #[trigger] managed(init, x) implies covered(h2, live2, x) by {
            assert(covered(h, live, x));
            let (a, k) = choose|a: int, k: nat| #[trigger]
                accounted(h, live, a, k) && a <= x < a + block_size(k);
            if a == p && k == found && h.is_free(a, k) {
                lemma_pieces(p, order, found, x);
                if x < p + block_size(order) {
                    assert(accounted(h2, live2, p, order));
                } else {
                    let j = choose|j: nat|
                        order <= j < found && p + #[trigger] block_size(j) <= x < p + block_size(
                            j + 1,
                        );
                    lemma_block_size_step(j);
                    assert(h2.is_free(p + block_size(j), j));
                    assert(accounted(h2, live2, p + block_size(j), j));
                }
            } else {
                if h.is_free(a, k) {
                    assert(h2.is_free(a, k));
                }
                assert(accounted(h2, live2, a, k));
            }
        }
    }
}

/// While a released block merges, it stays inside the initial block that it
/// came from.
proof fn lemma_merged_within_initial(init: HeapView, h: HeapView, addr: int, order: nat)
    requires
        is_initial(init),
        h.wf(),
        h.is_live(addr, order),
        within_initial(init, addr, order),
        forall|b: int, j: nat| #[trigger] h.is_free(b, j) ==> within_initial(init, b, j),
    ensures
        within_initial(init, h.merged_addr(addr, order), h.merged_order(addr, order)),
    decreases MAX_ORDER - order,
{
    let buddy = buddy_addr(addr, order);
    if order + 1 < MAX_ORDER && h.is_free(buddy, order) {
        let parent = parent_addr(addr, order);
        let h1 = h.unlink(buddy, order);
        h.lemma_merge_step(addr, order);
        lemma_buddy(addr, order);
        let (b, big) = choose|b: int, j: nat| #[trigger]
            init.is_free(b, j) && block_inside(addr, order, b, j);
        let (c, other) = choose|b: int, j: nat| #[trigger]
            init.is_free(b, j) && block_inside(buddy, order, b, j);
        lemma_inside_order(addr, order, b, big);
        lemma_inside_order(buddy, order, c, other);
        assert(init.in_heap(b, big) && init.in_heap(c, other));
        if order == big {
            if other == order {
                lemma_initial_one_per_order(init, b, c, order);
            } else {
                assert(h.in_heap(buddy, order));
                lemma_parent_inside(buddy, order, c, other);
                lemma_block_size_step(order);
                lemma_initial_blocks_apart(init, b, big, c, other);
            }
            assert(false);
        }
        lemma_parent_inside(addr, order, b, big);
        assert(init.is_free(b, big) && block_inside(parent, order + 1, b, big));
        lemma_merged_within_initial(init, h1, parent, order + 1);
    }
}

/// The release of a handed-out block keeps the account.
proof fn lemma_release_accounts(
    init: HeapView,
    h: HeapView,
    live: Set<(int, nat)>,
    addr: int,
    order: nat,
)
    requires
        is_initial(init),
        accounts(init, h, live),
        live.contains((addr, order)),
    ensures
        accounts(
            init,
            heap_step(h, HeapOp::Release { addr, order }),
            live_step(h, live, HeapOp::Release { addr, order }),
        ),
{
    let op = HeapOp::Release { addr, order };
    let h2 = heap_step(h, op);
    let live2 = live_step(h, live, op);
    let m = h.merged_addr(addr, order);
    let mo = h.merged_order(addr, order);
    assert(h.is_live(addr, order));
    h.lemma_dealloc(addr, order);
    assert(accounted(h, live, addr, order));
    assert forall|b: int, j: nat| #[trigger] h.is_free(b, j) implies within_initial(init, b, j) by {
        assert(accounted(h, live, b, j));
    }
    lemma_merged_within_initial(init, h, addr, order);
    assert forall|a: int, k: nat| #[trigger] live2.contains((a, k)) implies h2.is_live(a, k) by {
        assert(live.contains((a, k)));
        assert(h.is_live(a, k));
    }
    assert forall|a: int, k: nat| #[trigger] accounted(h2, live2, a, k) implies within_initial(
        init,
        a,
        k,
    ) by {
        if h2.is_free(a, k) {
            if h.is_free(a, k) {
                assert(accounted(h, live, a, k));
            }
        } else {
            assert(accounted(h, live, a, k));
        }
    }
    assert forall|x: int| #[trigger] managed(init, x) implies covered(h2, live2, x) by {
        assert(covered(h, live, x));
        let (a, k) = choose|a: int, k: nat| #[trigger]
            accounted(h, live, a, k) && a <= x < a + block_size(k);
        if h.is_free(a, k) {
            if h2.is_free(a, k) {
                assert(accounted(h2, live2, a, k));
            } else {
                assert(block_inside(a, k, m, mo));
                assert(accounted(h2, live2, m, mo));
            }
        } else if a == addr && k == order {
            assert(accounted(h2, live2, m, mo));
        } else {
            assert(accounted(h2, live2, a, k));
        }
    }
}

/// The account holds after every valid sequence of requests.
pub proof fn lemma_accounts(init: HeapView, ops: Seq<HeapOp>)
    requires
        is_initial(init),
        ops_valid(init, ops),
    ensures
        accounts(init, heap_after(init, ops), live_after(init, ops)),
    decreases ops.len(),
{
    if ops.len() == 0 {
        let live = Set::<(int, nat)>::empty();
        assert forall|a: int, k: nat| #[trigger] accounted(init, live, a, k) implies within_initial(
            init,
            a,
            k,
        ) by {
            assert(init.is_free(a, k) && block_inside(a, k, a, k));
        }
        assert forall|x: int| #[trigger] managed(init, x) implies covered(init, live, x) by {
            let (b, j) = choose|b: int, j: nat| #[trigger]
                init.is_free(b, j) && b <= x < b + block_size(j);
            assert(accounted(init, live, b, j));
        }
    } else {
        let before = ops.drop_last();
        lemma_accounts(init, before);
        match ops.last() {
            HeapOp::Allocate { order } => {
                lemma_allocate_accounts(
                    init,
                    heap_after(init, before),
                    live_after(init, before),
                    order,
                );
            },
            HeapOp::Release { addr, order } => {
                lemma_release_accounts(
                    init,
                    heap_after(init, before),
                    live_after(init, before),
                    addr,
                    order,
                );
            },
        }
    }
}

/// With no block handed out, a free block of order `k` is an initial block.
proof fn lemma_free_is_initial(init: HeapView, h: HeapView, a: int, k: nat)
    requires
        is_initial(init),
        accounts(init, h, Set::<(int, nat)>::empty()),
        h.is_free(a, k),
    ensures
        init.is_free(a, k),
    decreases k,
{
    let live = Set::<(int, nat)>::empty();
    assert(accounted(h, live, a, k));
    let (b, big) = choose|b: int, j: nat| #[trigger]
        init.is_free(b, j) && block_inside(a, k, b, j);
    lemma_inside_order(a, k, b, big);
    assert(h.in_heap(a, k));
    assert(init.in_heap(b, big));
    if k < big {
        let buddy = buddy_addr(a, k);
        let parent = parent_addr(a, k);
        lemma_buddy(a, k);
        lemma_parent_inside(a, k, b, big);
        lemma_block_size_step(k);
        assert(managed(init, buddy)) by {
            assert(init.is_free(b, big) && b <= buddy < b + block_size(big));
        }
        assert(covered(h, live, buddy));
        let (c, i) = choose|c: int, i: nat| #[trigger]
            accounted(h, live, c, i) && c <= buddy < c + block_size(i);
        assert(h.is_free(c, i));
        assert(h.in_heap(c, i));
        lemma_block_size_step(i);
        if i == k {
            lemma_same_order_overlap(c, buddy, k);
            assert(false);
        } else if i > k {
            lemma_nested_or_disjoint(parent, k + 1, c, i);
            lemma_nested_or_disjoint(buddy, k, c, i);
            assert(!blocks_disjoint(a, k, c, i));
            assert(false);
        } else {
            lemma_free_is_initial(init, h, c, i);
            lemma_nested_or_disjoint(c, i, buddy, k);
            lemma_initial_blocks_apart(init, c, i, b, big);
            assert(false);
        }
    }
}

/// With no block handed out, the free blocks are the initial blocks.
proof fn lemma_initial_is_free(init: HeapView, h: HeapView, b: int, j: nat)
    requires
        is_initial(init),
        accounts(init, h, Set::<(int, nat)>::empty()),
        init.is_free(b, j),
    ensures
        h.is_free(b, j),
{
    let live = Set::<(int, nat)>::empty();
    lemma_block_size_step(j);
    assert(managed(init, b)) by {
        assert(init.is_free(b, j) && b <= b < b + block_size(j));
    }
    assert(covered(h, live, b));
    let (c, i) = choose|c: int, i: nat| #[trigger]
        accounted(h, live, c, i) && c <= b < c + block_size(i);
    lemma_free_is_initial(init, h, c, i);
    lemma_block_size_step(i);
    lemma_initial_blocks_apart(init, c, i, b, j);
}

/// Two lists without duplicates that hold the same values are equal as
/// multisets.
proof fn lemma_same_members(s: Seq<int>, t: Seq<int>)
    requires
        s.no_duplicates(),
        t.no_duplicates(),
        forall|x: int| s.contains(x) <==> t.contains(x),
    ensures
        s.to_multiset() =~= t.to_multiset(),
{
    s.to_multiset_ensures();
    t.to_multiset_ensures();
    s.lemma_multiset_has_no_duplicates();
    t.lemma_multiset_has_no_duplicates();
    assert forall|x: int| s.to_multiset().count(x) == t.to_multiset().count(x) by {
        if s.contains(x) {
            assert(t.contains(x));
            assert(s.to_multiset().contains(x));
            assert(t.to_multiset().contains(x));
        } else {
            assert(!t.contains(x));
        }
    }
}

/// Round trip: when every block that was handed out has been given back, in
/// whatever order, each free list holds the blocks that it held at
/// initialization.
pub proof fn lemma_round_trip(lo: int, hi: int, ops: Seq<HeapOp>)
    requires
        region_ok(lo, hi),
        0 <= lo,
        hi <= usize::MAX,
        ops_valid(initial_heap(lo, hi), ops),
        live_after(initial_heap(lo, hi), ops) == Set::<(int, nat)>::empty(),
    ensures
        heap_after(initial_heap(lo, hi), ops).wf(),
        forall|k: int|
            0 <= k < MAX_ORDER ==> (#[trigger] heap_after(
                initial_heap(lo, hi),
                ops,
            ).free[k]).to_multiset() == initial_heap(lo, hi).free[k].to_multiset(),
{
    let init = initial_heap(lo, hi);
    let h = heap_after(init, ops);
    lemma_initial_heap(lo, hi);
    lemma_accounts(init, ops);
    assert forall|k: int| 0 <= k < MAX_ORDER implies (#[trigger] h.free[k]).to_multiset()
        == init.free[k].to_multiset() by {
        assert forall|x: int| h.free[k].contains(x) <==> init.free[k].contains(x) by {
            if h.free[k].contains(x) {
                assert(h.is_free(x, k as nat));
                lemma_free_is_initial(init, h, x, k as nat);
            }
            if init.free[k].contains(x) {
                assert(init.is_free(x, k as nat));
                lemma_initial_is_free(init, h, x, k as nat);
            }
        }
        lemma_same_members(h.free[k], init.free[k]);
    }
}

/// The block is part of a free block: its memory has been given back.
pub open spec fn released(h: HeapView, a: int, k: nat) -> bool {
    exists|m: int, mo: nat| #[trigger] h.is_free(m, mo) && block_inside(a, k, m, mo)
}

/// The free lists after the blocks of `blocks` have been released one after
/// the other.
pub open spec fn release_all(h: HeapView, blocks: Seq<(int, nat)>) -> HeapView
    decreases blocks.len(),
{
    if blocks.len() == 0 {
        h
    } else {
        release_all(h, blocks.drop_last()).after_dealloc(blocks.last().0, blocks.last().1)
    }
}

/// Each block of `blocks` is live when its turn to be released comes, and
/// shares no byte with the block at `a` of order `k` or with its buddy.
pub open spec fn releases_apart(h: HeapView, blocks: Seq<(int, nat)>, a: int, k: nat) -> bool
    decreases blocks.len(),
{
    blocks.len() == 0 || {
        &&& releases_apart(h, blocks.drop_last(), a, k)
        &&& release_all(h, blocks.drop_last()).is_live(blocks.last().0, blocks.last().1)
        &&& blocks_disjoint(blocks.last().0, blocks.last().1, a, k)
        &&& blocks_disjoint(blocks.last().0, blocks.last().1, buddy_addr(a, k), k)
    }
}

/// A free block whose buddy is live stays on its list while blocks apart
/// from the two are released.
proof fn lemma_waits_for_buddy(h: HeapView, blocks: Seq<(int, nat)>, a: int, k: nat)
    requires
        h.wf(),
        k + 1 < MAX_ORDER,
        h.is_free(a, k),
        h.is_live(buddy_addr(a, k), k),
        releases_apart(h, blocks, a, k),
    ensures
        release_all(h, blocks).wf(),
        release_all(h, blocks).is_free(a, k),
        release_all(h, blocks).is_live(buddy_addr(a, k), k),
    decreases blocks.len(),
{
    if blocks.len() > 0 {
        let before = release_all(h, blocks.drop_last());
        let (c, i) = blocks.last();
        let b = buddy_addr(a, k);
        lemma_waits_for_buddy(h, blocks.drop_last(), a, k);
        before.lemma_dealloc(c, i);
        let after = before.after_dealloc(c, i);
        let m = before.merged_addr(c, i);
        let mo = before.merged_order(c, i);
        assert(before.in_heap(a, k));
        lemma_block_size_step(k);
        if !after.is_free(a, k) {
            assert(block_inside(a, k, m, mo));
            lemma_inside_order(a, k, m, mo);
            assert(after.is_free(m, mo));
            assert(after.in_heap(m, mo));
            lemma_parent_inside(a, k, m, mo);
            assert(after.is_live(b, k));
            assert(blocks_disjoint(b, k, m, mo));
            assert(false);
        }
    }
}

/// Coalescing: when two buddies have been released, with releases of blocks
/// apart from them in between, neither is on its list any more and their
/// parent is part of a free block. The parent is itself on the list of the
/// next order unless it has merged in turn, which it does where its own
/// buddy is free.
pub proof fn lemma_buddies_coalesce(h: HeapView, a: int, k: nat, between: Seq<(int, nat)>)
    requires
        h.wf(),
        k + 1 < MAX_ORDER,
        h.is_live(a, k),
        h.is_live(buddy_addr(a, k), k),
        releases_apart(h.after_dealloc(a, k), between, a, k),
    ensures
        ({
            let b = buddy_addr(a, k);
            let p = parent_addr(a, k);
            let waiting = release_all(h.after_dealloc(a, k), between);
            let merged = waiting.after_dealloc(b, k);
            &&& waiting.is_free(a, k)
            &&& merged.wf()
            &&& !merged.is_free(a, k)
            &&& !merged.is_free(b, k)
            &&& released(merged, p, k + 1)
            &&& (k + 2 >= MAX_ORDER || !waiting.is_free(buddy_addr(p, k + 1), k + 1))
                ==> merged.is_free(p, k + 1)
        }),
{
    let b = buddy_addr(a, k);
    let p = parent_addr(a, k);
    let h1 = h.after_dealloc(a, k);
    lemma_buddy(a, k);
    lemma_block_size_step(k);
    assert(h.in_heap(a, k) && h.in_heap(b, k));
    assert(!h.is_free(b, k));
    h.lemma_dealloc(a, k);
    h.lemma_push(a, k);
    assert(h1 == h.push(a, k));
    lemma_waits_for_buddy(h1, between, a, k);
    let waiting = release_all(h1, between);
    let merged = waiting.after_dealloc(b, k);
    lemma_buddy(b, k);
    assert(!waiting.is_free(b, k));
    waiting.lemma_merge_step(b, k);
    let off = waiting.unlink(a, k);
    assert(merged == off.after_dealloc(p, k + 1));
    off.lemma_dealloc(p, k + 1);
    let m = off.merged_addr(p, k + 1);
    let mo = off.merged_order(p, k + 1);
    assert(merged.is_free(m, mo) && block_inside(p, k + 1, m, mo));
    if k + 2 >= MAX_ORDER || !waiting.is_free(buddy_addr(p, k + 1), k + 1) {
        off.lemma_push(p, k + 1);
    }
}

/// The pages in the free blocks of the lists from order `k` upward.
pub open spec fn pages_from(h: HeapView, k: nat) -> nat
    decreases MAX_ORDER - k,
{
    if k >= MAX_ORDER {
        0
    } else {
        h.free[k as int].len() * pow2(k) + pages_from(h, k + 1)
    }
}

/// The pages in all free blocks.
pub open spec fn free_pages(h: HeapView) -> nat {
    pages_from(h, 0)
}

/// The free lists after `n` requests for a page.
pub open spec fn fill(h: HeapView, n: nat) -> HeapView
    decreases n,
{
    if n == 0 {
        h
    } else {
        fill(h, (n - 1) as nat).after_alloc(0)
    }
}

/// What the request for a page that follows `i` such requests is answered
/// with.
pub open spec fn page_at(h: HeapView, i: nat) -> Option<int> {
    fill(h, i).alloc_addr(0)
}

/// The page count of a block that joins a list.
proof fn lemma_pages_push(h: HeapView, a: int, k: nat, from: nat)
    requires
        h.free.len() == MAX_ORDER,
        k < MAX_ORDER,
    ensures
        pages_from(h.push(a, k), from) == pages_from(h, from) + (if from <= k {
            pow2(k)
        } else {
            0
        }),
    decreases MAX_ORDER - from,
{
    if from < MAX_ORDER {
        lemma_pages_push(h, a, k, from + 1);
        if from == k {
            let n = h.free[k as int].len();
            assert((n + 1) * pow2(k) == n * pow2(k) + pow2(k)) by (nonlinear_arith);
        }
    }
}

/// The page count of the block that leaves a list as its head.
proof fn lemma_pages_pop(h: HeapView, k: nat, from: nat)
    requires
        h.free.len() == MAX_ORDER,
        k < MAX_ORDER,
        h.free[k as int].len() > 0,
    ensures
        pages_from(h.pop(k), from) + (if from <= k {
            pow2(k)
        } else {
            0
        }) == pages_from(h, from),
    decreases MAX_ORDER - from,
{
    if from < MAX_ORDER {
        lemma_pages_pop(h, k, from + 1);
        if from == k {
            let n = h.free[k as int].len();
            assert((n - 1) * pow2(k) + pow2(k) == n * pow2(k)) by (nonlinear_arith);
        }
    }
}

/// Halving a block that is on no list puts all of its pages on the lists but
/// those of the lowest part.
proof fn lemma_pages_split(h: HeapView, p: int, from: nat, to: nat)
    requires
        h.free.len() == MAX_ORDER,
        to <= from < MAX_ORDER,
    ensures
        pages_from(h.split(p, from, to), 0) + pow2(to) == pages_from(h, 0) + pow2(from),
        h.split(p, from, to).free.len() == MAX_ORDER,
    decreases from,
{
    if from > to {
        let half = (from - 1) as nat;
        lemma_pages_push(h, p + block_size(half), half, 0);
        lemma_pow2_unfold(from);
        lemma_pages_split(h.push(p + block_size(half), half), p, half, to);
    }
}

/// The lists hold no page exactly if they are all empty.
proof fn lemma_pages_zero(h: HeapView, from: nat)
    requires
        h.free.len() == MAX_ORDER,
    ensures
        pages_from(h, from) == 0 <==> (forall|j: int|
            from <= j < MAX_ORDER ==> (#[trigger] h.free[j]).len() == 0),
    decreases MAX_ORDER - from,
{
    if from < MAX_ORDER {
        lemma_pages_zero(h, from + 1);
        lemma_pow2_pos(from);
        let n = h.free[from as int].len();
        assert(n * pow2(from) == 0 <==> n == 0) by (nonlinear_arith)
            requires
                pow2(from) > 0,
        ;
        if pages_from(h, from) == 0 {
            assert forall|j: int| from <= j < MAX_ORDER implies (#[trigger] h.free[j]).len()
                == 0 by {
                if j > from {
                }
            }
        }
    }
}

/// A request for a page fails exactly when no page is free, and takes
/// exactly one page where it succeeds.
pub proof fn lemma_page_request(h: HeapView)
    requires
        h.wf(),
    ensures
        h.alloc_addr(0) is None <==> free_pages(h) == 0,
        h.alloc_addr(0) is Some ==> free_pages(h.after_alloc(0)) + 1 == free_pages(h),
{
    h.lemma_alloc(0);
    h.lemma_fit_order(0);
    lemma_pages_zero(h, 0);
    let found = h.fit_order(0);
    if found < MAX_ORDER {
        lemma_pages_pop(h, found, 0);
        lemma_pages_split(h.pop(found), h.free[found as int].last(), found, 0);
        lemma2_to64();
    }
}

/// Filling: of a heap with `n` free pages the first `n` requests for a page
/// are answered, each with a page inside the region that no earlier request
/// was answered with, and the next request is not.
pub proof fn lemma_fill(h: HeapView, n: nat)
    requires
        h.wf(),
        n <= free_pages(h),
    ensures
        fill(h, n).wf(),
        fill(h, n).start == h.start,
        fill(h, n).end == h.end,
        free_pages(fill(h, n)) + n == free_pages(h),
        n == free_pages(h) <==> page_at(h, n) is None,
        forall|i: nat|
            i < n ==> (#[trigger] page_at(h, i)) is Some && fill(h, n).is_live(
                page_at(h, i)->0,
                0,
            ),
        forall|i: nat, j: nat|
            i < j < n ==> (#[trigger] page_at(h, i))->0 != (#[trigger] page_at(h, j))->0,
    decreases n,
{
    if n == 0 {
        lemma_page_request(h);
    } else {
        let m = (n - 1) as nat;
        lemma_fill(h, m);
        let before = fill(h, m);
        lemma_page_request(before);
        before.lemma_alloc(0);
        lemma_page_request(fill(h, n));
        let p = page_at(h, m)->0;
        assert forall|i: nat| i < n implies (#[trigger] page_at(h, i)) is Some && fill(
            h,
            n,
        ).is_live(page_at(h, i)->0, 0) by {
            if i < m {
                assert(before.is_live(page_at(h, i)->0, 0));
            }
        }
        assert forall|i: nat, j: nat| i < j < n implies (#[trigger] page_at(h, i))->0 != (
        #[trigger] page_at(h, j))->0 by {
            if j == m {
                assert(before.is_live(page_at(h, i)->0, 0));
                lemma_block_size_step(0);
            }
        }
    }
}

/// The lists from order `k` upward of two heaps hold the same number of pages
/// where each list is as long in the one as in the other.
proof fn lemma_pages_by_length(g: HeapView, h: HeapView, k: nat)
    requires
        forall|j: int| 0 <= j < MAX_ORDER ==> (#[trigger] g.free[j]).len() == h.free[j].len(),
    ensures
        pages_from(g, k) == pages_from(h, k),
    decreases MAX_ORDER - k,
{
    if k < MAX_ORDER {
        lemma_pages_by_length(g, h, k + 1);
        assert(g.free[k as int].len() == h.free[k as int].len());
    }
}

/// The blocks that a region is cut into hold its whole pages.
proof fn lemma_add_region_pages(h: HeapView, lo: int, hi: int)
    requires
        h.free.len() == MAX_ORDER,
        lo <= hi,
    ensures
        pages_from(h.add_region(lo, hi), 0) == pages_from(h, 0) + (hi - lo) / 4096,
    decreases hi - lo,
{
    assert(block_size(0) == 4096) by {
        lemma2_to64();
    }
    if hi - lo >= block_size(0) {
        let order = floor_order(hi - lo, (MAX_ORDER - 1) as nat);
        lemma_floor_order(hi - lo, (MAX_ORDER - 1) as nat);
        lemma_pages_push(h, lo, order, 0);
        h.lemma_push(lo, order);
        lemma_add_region_pages(h.push(lo, order), lo + block_size(order), hi);
        let q = pow2(order) as int;
        assert((hi - lo) / 4096 == q + (hi - lo - 4096 * q) / 4096);
    }
}

/// The free pages of a fresh allocator are the whole pages of its region.
pub proof fn lemma_initial_pages(lo: int, hi: int)
    requires
        lo <= hi,
    ensures
        free_pages(initial_heap(lo, hi)) == (hi - lo) / 4096,
{
    let e = empty_heap(lo, hi);
    lemma_add_region_pages(e, lo, hi);
    lemma_pages_zero(e, 0);
}

/// Filling twice: a fresh allocator answers as many requests for a page as
/// its region has whole pages. Once every block that was handed out has been
/// given back, in whatever order, it answers as many again.
pub proof fn lemma_fill_again(lo: int, hi: int, ops: Seq<HeapOp>)
    requires
        region_ok(lo, hi),
        0 <= lo <= hi <= usize::MAX,
        ops_valid(initial_heap(lo, hi), ops),
        live_after(initial_heap(lo, hi), ops) == Set::<(int, nat)>::empty(),
    ensures
        free_pages(initial_heap(lo, hi)) == (hi - lo) / 4096,
        free_pages(heap_after(initial_heap(lo, hi), ops)) == (hi - lo) / 4096,
        heap_after(initial_heap(lo, hi), ops).wf(),
{
    let init = initial_heap(lo, hi);
    let h = heap_after(init, ops);
    lemma_round_trip(lo, hi, ops);
    lemma_initial_pages(lo, hi);
    assert forall|j: int| 0 <= j < MAX_ORDER implies (#[trigger] h.free[j]).len()
        == init.free[j].len() by {
        h.free[j].to_multiset_ensures();
        init.free[j].to_multiset_ensures();
    }
    lemma_pages_by_length(h, init, 0);
}

} // verus!
