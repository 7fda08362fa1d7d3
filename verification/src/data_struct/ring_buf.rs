use vstd::prelude::*;
use vstd::arithmetic::div_mod::{lemma_mod_self_0, lemma_small_mod};

verus! {

/// A bounded first-in first-out queue of at most `N` items.
pub struct RingBuffer<T, const N: usize> {
    buffer: Vec<Option<T>>,
    head: usize,
    tail: usize,
    len: usize,
}

/// The slot that holds the `i`-th queued item when the oldest is in slot `head`.
pub open spec fn slot_of(head: int, i: int, capacity: int) -> int {
    if head + i < capacity {
        head + i
    } else {
        head + i - capacity
    }
}

impl<T, const N: usize> View for RingBuffer<T, N> {
    type V = Seq<T>;

    /// The queued items, the oldest first.
    closed spec fn view(&self) -> Seq<T> {
        Seq::new(
            self.len as nat,
            |i: int| self.buffer@[slot_of(self.head as int, i, N as int)]->0,
        )
    }
}

impl<T, const N: usize> RingBuffer<T, N> {
    /// The invariant: the indices are within the buffer and the queued items
    /// fill the slots from the head on.
    pub closed spec fn wf(&self) -> bool {
        &&& self.buffer@.len() == N
        &&& self.len <= N
        &&& N > 0 ==> self.head < N && self.tail < N
        &&& N == 0 ==> self.head == 0 && self.tail == 0
        &&& self.len < N ==> self.tail == slot_of(self.head as int, self.len as int, N as int)
        &&& self.len == N ==> self.tail == self.head
        &&& forall|i: int|
            0 <= i < self.len ==> (#[trigger] self.buffer@[slot_of(
                self.head as int,
                i,
                N as int,
            )]) is Some
    }

    /// An empty buffer.
    pub fn new() -> (rb: Self)
        ensures
            rb.wf(),
            rb@ == Seq::<T>::empty(),
    {
        let mut buffer: Vec<Option<T>> = Vec::new();
        let mut i: usize = 0;
        while i < N
            invariant
                i <= N,
                buffer@.len() == i,
            decreases N - i,
        {
            buffer.push(None);
            i = i + 1;
        }
        let rb = Self { buffer, head: 0, tail: 0, len: 0 };
        assert(rb@ =~= Seq::<T>::empty());
        rb
    }

    /// Appends `item`; a full buffer hands it back.
    pub fn push(&mut self, item: T) -> (pushed: Result<(), T>)
        requires
            old(self).wf(),
        ensures
            final(self).wf(),
            old(self)@.len() == N ==> pushed == Err::<(), T>(item) && final(self)@ == old(self)@,
            old(self)@.len() < N ==> pushed is Ok && final(self)@ == old(self)@.push(item),
    {
        if self.len == N {
            Err(item)
        } else {
            let tail = self.tail;
            self.buffer[tail] = Some(item);
            proof {
                if tail + 1 < N {
                    lemma_small_mod((tail + 1) as nat, N as nat);
                } else {
                    lemma_mod_self_0(N as int);
                }
            }
            self.tail = (tail + 1) % N;
            self.len = self.len + 1;
            proof {
                let head = self.head as int;
                assert forall|i: int| 0 <= i < self.len implies (#[trigger] self.buffer@[slot_of(
                    head,
                    i,
                    N as int,
                )]) is Some by {
                    if i < self.len - 1 {
                        assert(old(self).buffer@[slot_of(head, i, N as int)] is Some);
                    }
                }
                assert(self@ =~= old(self)@.push(item));
            }
            Ok(())
        }
    }

    /// Takes the oldest item out; `None` if the buffer is empty.
    pub fn pop(&mut self) -> (popped: Option<T>)
        requires
            old(self).wf(),
        ensures
            final(self).wf(),
            old(self)@.len() == 0 ==> popped is None && final(self)@ == old(self)@,
            old(self)@.len() > 0 ==> popped == Some(old(self)@[0]) && final(self)@ == old(
                self,
            )@.drop_first(),
    {
        if self.len == 0 {
            return None;
        }
        let old_head = self.head;
        proof {
            if old_head + 1 < N {
                lemma_small_mod((old_head + 1) as nat, N as nat);
            } else {
                lemma_mod_self_0(N as int);
            }
            assert(self.buffer@[slot_of(old_head as int, 0, N as int)] is Some);
        }
        self.head = (old_head + 1) % N;
        self.len = self.len - 1;
        let value = self.buffer[old_head].take();
        proof {
            let head = self.head as int;
            assert forall|i: int| 0 <= i < self.len implies (#[trigger] self.buffer@[slot_of(
                head,
                i,
                N as int,
            )]) is Some by {
                assert(slot_of(head, i, N as int) == slot_of(old_head as int, i + 1, N as int));
                assert(old(self).buffer@[slot_of(old_head as int, i + 1, N as int)] is Some);
            }
            assert forall|i: int| 0 <= i < self.len implies self@[i] == old(self)@.drop_first()[i] by {
                assert(slot_of(head, i, N as int) == slot_of(old_head as int, i + 1, N as int));
            }
            assert(self@ =~= old(self)@.drop_first());
        }
        value
    }

    /// The number of queued items.
    pub fn len(&self) -> (len: usize)
        ensures
            len == self@.len(),
    {
        self.len
    }

    /// Whether nothing is queued.
    pub fn is_empty(&self) -> (empty: bool)
        ensures
            empty == (self@.len() == 0),
    {
        self.len == 0
    }

    /// Whether no further item can be queued.
    pub fn is_full(&self) -> (full: bool)
        ensures
            full == (self@.len() == N),
    {
        self.len == N
    }

    /// The number of items the buffer can hold.
    pub fn capacity(&self) -> (capacity: usize)
        ensures
            capacity == N,
    {
        N
    }
}

} // verus!
