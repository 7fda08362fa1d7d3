use std::collections::VecDeque;
use vstd::prelude::*;
use crate::mm::blocks::{block_size, blocks_disjoint};
use crate::mm::buddy::{larger, order_of, BuddySystemAllocator};
use crate::mm::layout::{Layout, LayoutError};
use crate::mm::model::HeapView;
use crate::task::context::TaskContext;
use crate::task::model::{without, SchedulerView};
use crate::task::tcb::{TaskControlBlock, TaskStatus};

verus! {

/// Why a task could not be spawned.
#[derive(Debug)]
pub enum SchedulerError {
    /// The stack size does not make a layout.
    SchedulerLayoutError(LayoutError),
    /// The heap has no block for the stack.
    MemoryAllocationError,
}

impl From<LayoutError> for SchedulerError {
    fn from(value: LayoutError) -> (error: SchedulerError) {
        SchedulerError::SchedulerLayoutError(value)
    }
}

impl vstd::std_specs::convert::FromSpecImpl<LayoutError> for SchedulerError {
    open spec fn obeys_from_spec() -> bool {
        true
    }

    open spec fn from_spec(value: LayoutError) -> SchedulerError {
        SchedulerError::SchedulerLayoutError(value)
    }
}

/// A task that sleeps until a tick; kept for a sleep primitive to come.
#[derive(Clone, Copy, Debug)]
struct SleepEntry {
    wake_tick: usize,
    task_id: usize,
}

/// Alignment of every task's stack, in bytes.
pub const STACK_ALIGN: usize = 16;

/// Stack size of the idle task, in bytes.
pub const IDLE_STACK_SIZE: usize = 4096;

/// Round-robin scheduler: the task table, the queue of ready tasks and the
/// stack of exited tasks whose stacks are yet to be released.
pub struct Scheduler {
    current_task_id: Option<usize>,
    ready_queue: VecDeque<usize>,
    task_list: Vec<Option<TaskControlBlock>>,
    zombie_queue: Vec<usize>,
    blocked_queue: Vec<SleepEntry>,
}

impl View for Scheduler {
    type V = SchedulerView;

    closed spec fn view(&self) -> SchedulerView {
        SchedulerView {
            current: self.current_task_id,
            ready: self.ready_queue@,
            tasks: self.task_list@,
            zombies: self.zombie_queue@,
        }
    }
}

/// The top of a stack of `size` bytes at `base`: its end, rounded down to a
/// multiple of 16.
pub open spec fn stack_top_of(base: usize, size: usize) -> int {
    (base + size) - (base + size) % 16
}

/// The order of the block that holds a stack of `size` bytes.
pub open spec fn stack_order_of(size: usize) -> nat {
    order_of(larger(size as int, STACK_ALIGN as int))
}

/// The control block of a task that has just been spawned.
pub open spec fn new_task(
    id: usize,
    trampoline: usize,
    entry_point: usize,
    stack_base: usize,
    stack_size: usize,
    priority: u8,
) -> TaskControlBlock {
    TaskControlBlock {
        task_id: id,
        entry_point,
        stack_base,
        layout: Layout::spec_from(stack_size, STACK_ALIGN),
        priority,
        status: TaskStatus::Ready,
        context: TaskContext::spec_initial(
            stack_top_of(stack_base, stack_size) as usize,
            trampoline,
            entry_point,
        ),
    }
}

/// The size of the block that holds a task's stack.
fn stack_block_bytes(tcb: &TaskControlBlock) -> (bytes: usize)
    requires
        tcb.stack_order() < crate::mm::blocks::MAX_ORDER,
    ensures
        bytes == block_size(tcb.stack_order()),
{
    let size = tcb.layout.size();
    let align = tcb.layout.align();
    let required = if size >= align {
        size
    } else {
        align
    };
    crate::mm::blocks::block_bytes(crate::mm::buddy::size_to_order(required))
}

proof fn lemma_align_down(x: usize)
    by (bit_vector)
    ensures
        x & !0xFusize == x - x % 16,
{
}

impl Scheduler {
    /// A scheduler without tasks.
    pub fn new() -> (scheduler: Scheduler)
        ensures
            scheduler@ == (SchedulerView {
                current: None,
                ready: Seq::empty(),
                tasks: Seq::empty(),
                zombies: Seq::empty(),
            }),
            scheduler@.wf(),
            forall|heap: HeapView| #[trigger] scheduler@.owns_stacks(heap),
    {
        Scheduler {
            current_task_id: None,
            ready_queue: VecDeque::new(),
            task_list: Vec::new(),
            zombie_queue: Vec::new(),
            blocked_queue: Vec::new(),
        }
    }

    /// The lowest empty slot of the task table, or its length.
    fn first_empty_slot(&self) -> (id: usize)
        ensures
            id == self@.next_id(),
            id <= self@.tasks.len() <= usize::MAX,
    {
        let n = self.task_list.len();
        let mut id: usize = 0;
        while id < n
            invariant
                id <= n,
                n == self.task_list@.len(),
                self@.first_empty_from(id as nat) == self@.next_id(),
            decreases n - id,
        {
            if self.task_list[id].is_none() {
                return id;
            }
            id = id + 1;
        }
        id
    }

    /// Takes every entry that equals `id` out of the ready queue.
    fn remove_ready(&mut self, id: usize)
        ensures
            final(self)@ == (SchedulerView { ready: without(old(self)@.ready, id), ..old(self)@ }),
    {
        let n = self.ready_queue.len();
        let mut kept: VecDeque<usize> = VecDeque::new();
        let mut i: usize = 0;
        while i < n
            invariant
                i <= n,
                n == self.ready_queue@.len(),
                *self == *old(self),
                kept@ == without(self.ready_queue@.subrange(0, i as int), id),
            decreases n - i,
        {
            let tid = self.ready_queue[i];
            proof {
                let upto = self.ready_queue@.subrange(0, i + 1);
                assert(upto.drop_last() =~= self.ready_queue@.subrange(0, i as int));
                assert(upto.last() == tid);
            }
            if tid != id {
                kept.push_back(tid);
            }
            i = i + 1;
        }
        proof {
            assert(self.ready_queue@.subrange(0, n as int) =~= self.ready_queue@);
        }
        self.ready_queue = kept;
    }

    /// Creates a task: it gets the lowest empty slot of the task table, a
    /// fresh stack of `stack_size` bytes from `heap`, a register file that
    /// starts it in the trampoline, and a place at the tail of the ready
    /// queue. Nothing changes where the stack size makes no layout or the
    /// heap has no block for it.
    pub fn spawn(
        &mut self,
        heap: &mut BuddySystemAllocator,
        trampoline: usize,
        entry_point: usize,
        stack_size: usize,
        priority: u8,
    ) -> (spawned: Result<(), SchedulerError>)
        requires
            old(self)@.wf(),
            old(heap)@.wf(),
            old(self)@.owns_stacks(old(heap)@),
        ensures
            final(self)@.wf(),
            final(heap)@.wf(),
            final(self)@.owns_stacks(final(heap)@),
            old(self)@.has_idle() ==> final(self)@.has_idle(),
            old(self)@.next_id() <= old(self)@.tasks.len() <= usize::MAX,
            !Layout::valid(stack_size, STACK_ALIGN) ==> {
                &&& spawned matches Err(SchedulerError::SchedulerLayoutError(_))
                &&& final(self)@ == old(self)@
                &&& final(heap)@ == old(heap)@
            },
            Layout::valid(stack_size, STACK_ALIGN) ==> match old(heap)@.alloc_addr(
                stack_order_of(stack_size),
            ) {
                None => {
                    &&& spawned matches Err(SchedulerError::MemoryAllocationError)
                    &&& final(self)@ == old(self)@
                    &&& final(heap)@ == old(heap)@
                },
                Some(base) => {
                    &&& spawned is Ok
                    &&& final(heap)@ == old(heap)@.after_alloc(stack_order_of(stack_size))
                    &&& final(self)@ == old(self)@.install(
                        new_task(
                            old(self)@.next_id() as usize,
                            trampoline,
                            entry_point,
                            base as usize,
                            stack_size,
                            priority,
                        ),
                    )
                    &&& old(self)@.tasks.len() == 0 ==> final(self)@.has_task(0)
                },
            },
    {
        let task_id = self.first_empty_slot();
        let layout = match Layout::from_size_align(stack_size, STACK_ALIGN) {
            Ok(layout) => layout,
            Err(e) => {
                return Err(SchedulerError::SchedulerLayoutError(e));
            },
        };
        let ghost order = stack_order_of(stack_size);
        proof {
            assert(layout.required() == larger(stack_size as int, STACK_ALIGN as int));
        }
        let stack_base = match heap.allocate(layout) {
            Some(base) => base,
            None => {
                proof {
                    if order >= crate::mm::blocks::MAX_ORDER {
                        old(heap)@.lemma_fit_order(order);
                    }
                }
                return Err(SchedulerError::MemoryAllocationError);
            },
        };
        proof {
            lemma_align_down((stack_base + stack_size) as usize);
        }
        let stack_top = (stack_base + stack_size) & !0xF;
        let tcb = TaskControlBlock {
            task_id,
            entry_point,
            stack_base,
            layout,
            priority,
            status: TaskStatus::Ready,
            context: TaskContext::initial(stack_top, trampoline, entry_point),
        };
        proof {
            assert(tcb == new_task(
                task_id,
                trampoline,
                entry_point,
                stack_base,
                stack_size,
                priority,
            ));
            assert forall|id: usize| #[trigger] old(self)@.has_task(id) implies blocks_disjoint(
                old(self)@.task(id).stack_base as int,
                old(self)@.task(id).stack_order(),
                tcb.stack_base as int,
                tcb.stack_order(),
            ) by {
                assert(old(heap)@.is_live(
                    old(self)@.task(id).stack_base as int,
                    old(self)@.task(id).stack_order(),
                ));
            }
            assert(old(self)@.owns_stacks(heap@)) by {
                assert forall|id: usize| #[trigger] old(self)@.has_task(id) implies heap@.is_live(
                    old(self)@.task(id).stack_base as int,
                    old(self)@.task(id).stack_order(),
                ) by {
                    assert(old(heap)@.is_live(
                        old(self)@.task(id).stack_base as int,
                        old(self)@.task(id).stack_order(),
                    ));
                }
            }
            old(self)@.lemma_install(heap@, tcb);
        }
        if task_id == self.task_list.len() {
            self.task_list.push(Some(tcb));
        } else {
            self.task_list[task_id] = Some(tcb);
        }
        self.ready_queue.push_back(task_id);
        proof {
            assert(self@.tasks =~= old(self)@.install(tcb).tasks);
            assert(self@.ready =~= old(self)@.install(tcb).ready);
        }
        Ok(())
    }

    /// Registers the idle task: a task with a stack of one page and priority 0.
    /// On a scheduler without tasks it gets id 0.
    pub fn init(
        &mut self,
        heap: &mut BuddySystemAllocator,
        trampoline: usize,
        idle_entry: usize,
    ) -> (spawned: Result<(), SchedulerError>)
        requires
            old(self)@.wf(),
            old(heap)@.wf(),
            old(self)@.owns_stacks(old(heap)@),
        ensures
            final(self)@.wf(),
            final(heap)@.wf(),
            final(self)@.owns_stacks(final(heap)@),
            old(self)@.has_idle() ==> final(self)@.has_idle(),
            old(self)@.next_id() <= old(self)@.tasks.len() <= usize::MAX,
            match old(heap)@.alloc_addr(0) {
                None => {
                    &&& spawned matches Err(SchedulerError::MemoryAllocationError)
                    &&& final(self)@ == old(self)@
                    &&& final(heap)@ == old(heap)@
                },
                Some(base) => {
                    &&& spawned is Ok
                    &&& final(heap)@ == old(heap)@.after_alloc(0)
                    &&& final(self)@ == old(self)@.install(
                        new_task(
                            old(self)@.next_id() as usize,
                            trampoline,
                            idle_entry,
                            base as usize,
                            IDLE_STACK_SIZE,
                            0,
                        ),
                    )
                    &&& old(self)@.tasks.len() == 0 ==> final(self)@.has_idle()
                },
            },
    {
        proof {
            vstd::arithmetic::power2::lemma2_to64();
            crate::mm::buddy::lemma_order_of(4096, 0);
            assert(vstd::arithmetic::power2::pow2(4) == 16);
            assert(crate::mm::layout::is_power_of_two(16));
        }
        self.spawn(heap, trampoline, idle_entry, IDLE_STACK_SIZE, 0)
    }

    /// Marks the current task Running.
    pub fn mark_current_running(&mut self)
        requires
            old(self)@.wf(),
        ensures
            final(self)@ == old(self)@.mark_running(),
            (old(self)@.current matches Some(c) ==> old(self)@.task(c).status
                != TaskStatus::Terminated) ==> final(self)@ == old(self)@,
    {
        match self.current_task_id {
            Some(id) => {
                match self.task_list[id] {
                    Some(tcb) => {
                        self.task_list[id] = Some(
                            TaskControlBlock { status: TaskStatus::Running, ..tcb },
                        );
                    },
                    None => {},
                }
            },
            None => {},
        }
        proof {
            assert(self@.tasks =~= old(self)@.mark_running().tasks);
            if old(self)@.current matches Some(c) ==> old(self)@.task(c).status
                != TaskStatus::Terminated {
                old(self)@.lemma_mark_running();
            }
        }
    }

    /// The current task has returned from its entry: it is marked Terminated
    /// and pushed onto the zombie stack, to be reclaimed at a later tick.
    pub fn exit_current_task(&mut self)
        requires
            old(self)@.wf(),
        ensures
            final(self)@ == old(self)@.exit_current(),
            (old(self)@.current matches Some(c) ==> old(self)@.task(c).status
                == TaskStatus::Running) ==> {
                &&& final(self)@.wf()
                &&& old(self)@.has_idle() && old(self)@.current != Some(0usize)
                    ==> final(self)@.has_idle()
                &&& forall|heap: HeapView|
                    old(self)@.owns_stacks(heap) ==> #[trigger] final(self)@.owns_stacks(heap)
            },
    {
        match self.current_task_id {
            Some(id) => {
                match self.task_list[id] {
                    Some(tcb) => {
                        self.task_list[id] = Some(
                            TaskControlBlock { status: TaskStatus::Terminated, ..tcb },
                        );
                        self.zombie_queue.push(id);
                    },
                    None => {},
                }
            },
            None => {},
        }
        proof {
            assert(self@.tasks =~= old(self)@.exit_current().tasks);
            if old(self)@.current matches Some(c) ==> old(self)@.task(c).status
                == TaskStatus::Running {
                old(self)@.lemma_exit_current();
            }
        }
    }

    /// Reclaims zombies, puts a preempted current task back in the queue, and
    /// picks the task that runs next.
    #[verifier::loop_isolation(false)]
    fn prepare_next_task(&mut self, heap: &mut BuddySystemAllocator) -> (next: usize)
        requires
            old(self)@.wf(),
            old(heap)@.wf(),
            old(self)@.owns_stacks(old(heap)@),
            old(self)@.has_idle(),
        ensures
            final(self)@ == old(self)@.tick(),
            final(heap)@ == old(self)@.reclaim_heap(old(heap)@),
            final(self)@.current == Some(next),
    {
        let current_id = self.current_task_id;
        let mut scanning = true;
        while scanning && self.zombie_queue.len() > 0
            invariant
                self@.wf(),
                heap@.wf(),
                self@.owns_stacks(heap@),
                self@.current == current_id,
                !scanning ==> self@.reclaim_done(),
                self@.reclaim() == old(self)@.reclaim(),
                self@.reclaim_heap(heap@) == old(self)@.reclaim_heap(old(heap)@),
            decreases
                    self.zombie_queue.len() + (if scanning {
                        1int
                    } else {
                        0int
                    }),
        {
            let ghost before = self@;
            let ghost heap_before = heap@;
            let zombie_id = self.zombie_queue.pop().unwrap();
            let is_current = match current_id {
                Some(c) => c == zombie_id,
                None => false,
            };
            if is_current {
                self.zombie_queue.push(zombie_id);
                scanning = false;
                proof {
                    assert(self@.zombies =~= before.zombies);
                }
            } else {
                proof {
                    before.lemma_reclaim_top(heap_before);
                    assert(before.has_task(before.zombies[before.zombies.len() - 1]));
                }
                self.remove_ready(zombie_id);
                if zombie_id < self.task_list.len() {
                    let slot = self.task_list[zombie_id].take();
                    match slot {
                        Some(tcb) => {
                            heap.dealloc(tcb.stack_base, tcb.layout);
                        },
                        None => {},
                    }
                }
                proof {
                    assert(self@.tasks =~= before.reclaim_top().tasks);
                    assert(self@ == before.reclaim_top());
                    assert(heap@ == before.reclaim_top_heap(heap_before));
                }
            }
        }
        let ghost reclaimed = self@;
        proof {
            assert(reclaimed.reclaim_done());
            assert(reclaimed == old(self)@.reclaim());
            assert(heap@ == old(self)@.reclaim_heap(old(heap)@));
            old(self)@.lemma_reclaim(old(heap)@);
            reclaimed.lemma_demote();
        }
        match current_id {
            Some(cur) => {
                match self.task_list[cur] {
                    Some(tcb) => {
                        if tcb.status == TaskStatus::Running {
                            self.task_list[cur] = Some(
                                TaskControlBlock { status: TaskStatus::Ready, ..tcb },
                            );
                            self.ready_queue.push_back(cur);
                        }
                    },
                    None => {},
                }
            },
            None => {},
        }
        let ghost demoted = self@;
        proof {
            assert(demoted.tasks =~= reclaimed.demote().tasks);
            assert(demoted == reclaimed.demote());
            demoted.lemma_pick();
        }
        let mut next_id: usize = match self.ready_queue.pop_front() {
            Some(id) => id,
            None => 0,
        };
        if next_id == 0 && self.ready_queue.len() > 0 {
            next_id = self.ready_queue.pop_front().unwrap();
            self.ready_queue.push_back(0);
        }
        proof {
            assert(next_id == demoted.next_task());
            assert(self@.ready =~= demoted.ready_after_pick());
        }
        match self.task_list[next_id] {
            Some(tcb) => {
                self.task_list[next_id] = Some(
                    TaskControlBlock { status: TaskStatus::Running, ..tcb },
                );
            },
            None => {},
        }
        self.current_task_id = Some(next_id);
        proof {
            assert(self@.tasks =~= demoted.pick().tasks);
        }
        next_id
    }

    /// Picks the first task to run, at the end of boot. The caller switches
    /// to the register file of the task returned.
    pub fn run_scheduler(&mut self, heap: &mut BuddySystemAllocator) -> (next: usize)
        requires
            old(self)@.wf(),
            old(heap)@.wf(),
            old(self)@.owns_stacks(old(heap)@),
            old(self)@.has_idle(),
        ensures
            final(self)@ == old(self)@.tick(),
            final(heap)@ == old(self)@.reclaim_heap(old(heap)@),
            final(self)@.current == Some(next),
            final(self)@.wf(),
            final(heap)@.wf(),
            final(self)@.owns_stacks(final(heap)@),
            final(self)@.has_idle(),
            final(self)@.has_task(next),
            final(self)@.task(next).status == TaskStatus::Running,
    {
        proof {
            old(self)@.lemma_tick(old(heap)@);
        }
        self.prepare_next_task(heap)
    }

    /// The scheduling decision of a timer tick: the stacks of exited tasks
    /// other than the current one are released, a Running current task goes
    /// to the tail of the ready queue, and the head of the queue runs next,
    /// the task behind it where the head is the idle task and is not alone.
    /// Returns the id of the task whose register file is to be restored.
    pub fn schedule_on_interrupt(&mut self, heap: &mut BuddySystemAllocator) -> (next: usize)
        requires
            old(self)@.wf(),
            old(heap)@.wf(),
            old(self)@.owns_stacks(old(heap)@),
            old(self)@.has_idle(),
        ensures
            final(self)@ == old(self)@.tick(),
            final(heap)@ == old(self)@.reclaim_heap(old(heap)@),
            final(self)@.current == Some(next),
            final(self)@.wf(),
            final(heap)@.wf(),
            final(self)@.owns_stacks(final(heap)@),
            final(self)@.has_idle(),
            final(self)@.has_task(next),
            final(self)@.task(next).status == TaskStatus::Running,
            (exists|id: usize|
                id != 0 && old(self)@.has_task(id) && (old(self)@.task(id).status
                    == TaskStatus::Ready || old(self)@.task(id).status == TaskStatus::Running))
                ==> next != 0,
            forall|id: usize| #[trigger]
                final(self)@.has_task(id) ==> old(self)@.has_task(id) && final(self)@.task(
                    id,
                ).context == old(self)@.task(id).context,
    {
        proof {
            old(self)@.lemma_tick(old(heap)@);
        }
        self.prepare_next_task(heap)
    }

    /// Stores the register file of the task that was interrupted: what the
    /// trap entry saved.
    pub fn save_context(&mut self, context: TaskContext)
        requires
            old(self)@.wf(),
        ensures
            final(self)@ == old(self)@.save_context(context),
            final(self)@.wf(),
            final(self)@.has_idle() == old(self)@.has_idle(),
            forall|heap: HeapView|
                old(self)@.owns_stacks(heap) ==> #[trigger] final(self)@.owns_stacks(heap),
    {
        match self.current_task_id {
            Some(id) => {
                match self.task_list[id] {
                    Some(tcb) => {
                        self.task_list[id] = Some(TaskControlBlock { context, ..tcb });
                    },
                    None => {},
                }
            },
            None => {},
        }
        proof {
            assert(self@.tasks =~= old(self)@.save_context(context).tasks);
            old(self)@.lemma_save_context(context);
        }
    }

    /// Whether the idle task exists and does not wait to be reclaimed:
    /// whether the scheduler can pick a task.
    pub fn has_idle(&self) -> (idle: bool)
        ensures
            idle == self@.has_idle(),
    {
        if self.task_list.len() == 0 || self.task_list[0].is_none() {
            return false;
        }
        let n = self.zombie_queue.len();
        let mut i: usize = 0;
        while i < n
            invariant
                i <= n,
                n == self.zombie_queue@.len(),
                forall|j: int| 0 <= j < i ==> self.zombie_queue@[j] != 0,
            decreases n - i,
        {
            if self.zombie_queue[i] == 0 {
                return false;
            }
            i = i + 1;
        }
        true
    }

    /// Whether the ready queue holds `id`.
    fn is_ready(&self, id: usize) -> (found: bool)
        ensures
            found == self@.ready.contains(id),
    {
        let n = self.ready_queue.len();
        let mut i: usize = 0;
        while i < n
            invariant
                i <= n,
                n == self.ready_queue@.len(),
                forall|j: int| 0 <= j < i ==> self.ready_queue@[j] != id,
            decreases n - i,
        {
            if self.ready_queue[i] == id {
                return true;
            }
            i = i + 1;
        }
        false
    }

    /// Whether the zombie stack holds `id`.
    fn is_zombie(&self, id: usize) -> (found: bool)
        ensures
            found == self@.zombies.contains(id),
    {
        let n = self.zombie_queue.len();
        let mut i: usize = 0;
        while i < n
            invariant
                i <= n,
                n == self.zombie_queue@.len(),
                forall|j: int| 0 <= j < i ==> self.zombie_queue@[j] != id,
            decreases n - i,
        {
            if self.zombie_queue[i] == id {
                return true;
            }
            i = i + 1;
        }
        false
    }

    /// Whether the ready queue holds Ready tasks only, each once.
    #[verifier::loop_isolation(false)]
    fn ready_is_sound(&self) -> (ok: bool)
        ensures
            ok == (self@.ready.no_duplicates() && forall|i: int|
                0 <= i < self@.ready.len() ==> self@.has_task(#[trigger] self@.ready[i])
                    && self@.task(self@.ready[i]).status == TaskStatus::Ready),
    {
        let n = self.ready_queue.len();
        let mut i: usize = 0;
        while i < n
            invariant
                i <= n,
                forall|a: int, b: int| 0 <= a < i && 0 <= b < n && a != b ==> self@.ready[a]
                    != self@.ready[b],
                forall|a: int|
                    0 <= a < i ==> self@.has_task(#[trigger] self@.ready[a]) && self@.task(
                        self@.ready[a],
                    ).status == TaskStatus::Ready,
            decreases n - i,
        {
            let id = self.ready_queue[i];
            match self.task(id) {
                Some(tcb) => {
                    if tcb.status != TaskStatus::Ready {
                        return false;
                    }
                },
                None => {
                    return false;
                },
            }
            let mut j: usize = 0;
            while j < n
                invariant
                    j <= n,
                    forall|b: int| 0 <= b < j && b != i ==> self@.ready[i as int] != self@.ready[b],
                decreases n - j,
            {
                if j != i && self.ready_queue[j] == id {
                    return false;
                }
                j = j + 1;
            }
            i = i + 1;
        }
        true
    }

    /// Whether the zombie stack holds Terminated tasks only, each once.
    #[verifier::loop_isolation(false)]
    fn zombies_are_sound(&self) -> (ok: bool)
        ensures
            ok == (self@.zombies.no_duplicates() && forall|i: int|
                0 <= i < self@.zombies.len() ==> self@.has_task(#[trigger] self@.zombies[i])
                    && self@.task(self@.zombies[i]).status == TaskStatus::Terminated),
    {
        let n = self.zombie_queue.len();
        let mut i: usize = 0;
        while i < n
            invariant
                i <= n,
                forall|a: int, b: int| 0 <= a < i && 0 <= b < n && a != b ==> self@.zombies[a]
                    != self@.zombies[b],
                forall|a: int|
                    0 <= a < i ==> self@.has_task(#[trigger] self@.zombies[a]) && self@.task(
                        self@.zombies[a],
                    ).status == TaskStatus::Terminated,
            decreases n - i,
        {
            let id = self.zombie_queue[i];
            match self.task(id) {
                Some(tcb) => {
                    if tcb.status != TaskStatus::Terminated {
                        return false;
                    }
                },
                None => {
                    return false;
                },
            }
            let mut j: usize = 0;
            while j < n
                invariant
                    j <= n,
                    forall|b: int|
                        0 <= b < j && b != i ==> self@.zombies[i as int] != self@.zombies[b],
                decreases n - j,
            {
                if j != i && self.zombie_queue[j] == id {
                    return false;
                }
                j = j + 1;
            }
            i = i + 1;
        }
        true
    }

    /// What the invariants say of the task in slot `id`, but for the stacks
    /// of other tasks.
    pub open spec fn slot_ok(view: SchedulerView, heap: HeapView, id: usize) -> bool {
        let t = view.task(id);
        &&& t.task_id == id
        &&& t.layout.wf()
        &&& t.status == TaskStatus::Ready ==> view.ready.contains(id)
        &&& t.status == TaskStatus::Running ==> view.current == Some(id)
        &&& t.status == TaskStatus::Terminated ==> view.zombies.contains(id)
        &&& heap.is_live(t.stack_base as int, t.stack_order())
    }

    /// Whether the task in every slot is where its status says, and has a
    /// live stack.
    #[verifier::loop_isolation(false)]
    fn slots_are_sound(&self, heap: &BuddySystemAllocator) -> (ok: bool)
        requires
            heap@.wf(),
        ensures
            ok == (forall|id: usize| #[trigger]
                self@.has_task(id) ==> Self::slot_ok(self@, heap@, id)),
    {
        let n = self.task_list.len();
        let mut id: usize = 0;
        while id < n
            invariant
                id <= n,
                n == self@.tasks.len(),
                forall|other: usize|
                    other < id && #[trigger] self@.has_task(other) ==> Self::slot_ok(
                        self@,
                        heap@,
                        other,
                    ),
            decreases n - id,
        {
            match self.task_list[id] {
                Some(tcb) => {
                    let size = tcb.layout.size();
                    let sound = tcb.task_id == id && (tcb.status != TaskStatus::Ready
                        || self.is_ready(id)) && (tcb.status != TaskStatus::Running || (
                    match self.current_task_id {
                        Some(c) => c == id,
                        None => false,
                    })) && (tcb.status != TaskStatus::Terminated || self.is_zombie(id))
                        && heap.is_live(tcb.stack_base, tcb.layout);
                    if !sound {
                        assert(self@.has_task(id));
                        assert(!Self::slot_ok(self@, heap@, id));
                        return false;
                    }
                },
                None => {},
            }
            id = id + 1;
        }
        true
    }

    /// Whether no two stacks share a byte.
    #[verifier::loop_isolation(false)]
    fn stacks_are_apart(&self, heap: &BuddySystemAllocator) -> (ok: bool)
        requires
            heap@.wf(),
            forall|id: usize| #[trigger] self@.has_task(id) ==> Self::slot_ok(self@, heap@, id),
        ensures
            ok == (forall|a: usize, b: usize|
                #[trigger] self@.has_task(a) && #[trigger] self@.has_task(b) && a != b
                    ==> blocks_disjoint(
                    self@.task(a).stack_base as int,
                    self@.task(a).stack_order(),
                    self@.task(b).stack_base as int,
                    self@.task(b).stack_order(),
                )),
    {
        let n = self.task_list.len();
        let mut a: usize = 0;
        while a < n
            invariant
                a <= n,
                forall|x: usize, y: usize|
                    x < a && #[trigger] self@.has_task(x) && #[trigger] self@.has_task(y) && x
                        != y ==> blocks_disjoint(
                        self@.task(x).stack_base as int,
                        self@.task(x).stack_order(),
                        self@.task(y).stack_base as int,
                        self@.task(y).stack_order(),
                    ),
            decreases n - a,
        {
            match self.task_list[a] {
                Some(first) => {
                    assert(self@.has_task(a));
                    assert(Self::slot_ok(self@, heap@, a));
                    let a_bytes = stack_block_bytes(&first);
                    let mut b: usize = 0;
                    while b < n
                        invariant
                            b <= n,
                            forall|y: usize|
                                y < b && #[trigger] self@.has_task(y) && a != y
                                    ==> blocks_disjoint(
                                    self@.task(a).stack_base as int,
                                    self@.task(a).stack_order(),
                                    self@.task(y).stack_base as int,
                                    self@.task(y).stack_order(),
                                ),
                        decreases n - b,
                    {
                        if b != a {
                            match self.task_list[b] {
                                Some(second) => {
                                    assert(self@.has_task(b));
                                    assert(Self::slot_ok(self@, heap@, b));
                                    let b_bytes = stack_block_bytes(&second);
                                    if !(first.stack_base + a_bytes <= second.stack_base
                                        || second.stack_base + b_bytes <= first.stack_base) {
                                        return false;
                                    }
                                },
                                None => {},
                            }
                        }
                        b = b + 1;
                    }
                },
                None => {},
            }
            a = a + 1;
        }
        true
    }

    /// Whether the bookkeeping is as its invariants say, and every task's
    /// stack a live block of `heap` apart from the other stacks.
    pub fn is_consistent(&self, heap: &BuddySystemAllocator) -> (ok: bool)
        requires
            heap@.wf(),
        ensures
            ok == (self@.wf() && self@.owns_stacks(heap@)),
    {
        let current_ok = match self.current_task_id {
            Some(c) => match self.task(c) {
                Some(tcb) => tcb.status == TaskStatus::Running || tcb.status
                    == TaskStatus::Terminated,
                None => false,
            },
            None => true,
        };
        current_ok && self.ready_is_sound() && self.zombies_are_sound() && self.slots_are_sound(
            heap,
        ) && self.stacks_are_apart(heap)
    }

    /// The id of the task that runs.
    pub fn current_task_id(&self) -> (current: Option<usize>)
        ensures
            current == self@.current,
    {
        self.current_task_id
    }

    /// The control block in slot `id`, if the slot holds a task.
    pub fn task(&self, id: usize) -> (tcb: Option<TaskControlBlock>)
        ensures
            tcb == (if self@.has_task(id) {
                Some(self@.task(id))
            } else {
                None
            }),
    {
        if id < self.task_list.len() {
            self.task_list[id]
        } else {
            None
        }
    }

    /// The register file of task `id`: what a switch to it restores.
    pub fn context(&self, id: usize) -> (context: Option<TaskContext>)
        ensures
            context == (if self@.has_task(id) {
                Some(self@.task(id).context)
            } else {
                None
            }),
    {
        match self.task(id) {
            Some(tcb) => Some(tcb.context),
            None => None,
        }
    }

    /// The ids in the ready queue, its head first.
    pub fn ready_ids(&self) -> (ids: Vec<usize>)
        ensures
            ids@ == self@.ready,
    {
        let n = self.ready_queue.len();
        let mut ids: Vec<usize> = Vec::new();
        let mut i: usize = 0;
        while i < n
            invariant
                i <= n,
                n == self.ready_queue@.len(),
                ids@ == self.ready_queue@.subrange(0, i as int),
            decreases n - i,
        {
            ids.push(self.ready_queue[i]);
            proof {
                assert(ids@ =~= self.ready_queue@.subrange(0, i + 1));
            }
            i = i + 1;
        }
        proof {
            assert(ids@ =~= self.ready_queue@);
        }
        ids
    }

    /// The ids on the zombie stack, its top last.
    pub fn zombie_ids(&self) -> (ids: Vec<usize>)
        ensures
            ids@ == self@.zombies,
    {
        self.zombie_queue.clone()
    }
}

} // verus!
