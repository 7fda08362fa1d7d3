use vstd::prelude::*;
use crate::mm::blocks::blocks_disjoint;
use crate::mm::model::HeapView;
use crate::task::tcb::{TaskControlBlock, TaskStatus};

verus! {

/// The scheduler as mathematics: the running task, the ready queue (its head
/// first), the task table, and the stack of tasks that wait to be reclaimed
/// (its top last).
pub struct SchedulerView {
    pub current: Option<usize>,
    pub ready: Seq<usize>,
    pub tasks: Seq<Option<TaskControlBlock>>,
    pub zombies: Seq<usize>,
}

/// The queue without the entries that equal `id`, the others in their order.
pub open spec fn without(queue: Seq<usize>, id: usize) -> Seq<usize>
    decreases queue.len(),
{
    if queue.len() == 0 {
        queue
    } else if queue.last() == id {
        without(queue.drop_last(), id)
    } else {
        without(queue.drop_last(), id).push(queue.last())
    }
}

impl SchedulerView {
    /// The slot `id` of the task table holds a task.
    pub open spec fn has_task(self, id: usize) -> bool {
        id < self.tasks.len() && self.tasks[id as int] is Some
    }

    /// The task in slot `id`.
    pub open spec fn task(self, id: usize) -> TaskControlBlock {
        self.tasks[id as int]->0
    }

    /// The lowest empty slot from `from` upward; the table's length if there
    /// is none.
    pub open spec fn first_empty_from(self, from: nat) -> nat
        decreases self.tasks.len() - from,
    {
        if from >= self.tasks.len() {
            self.tasks.len()
        } else if self.tasks[from as int] is None {
            from
        } else {
            self.first_empty_from(from + 1)
        }
    }

    /// The id that the next spawned task gets.
    pub open spec fn next_id(self) -> nat {
        self.first_empty_from(0)
    }

    /// The invariant of the scheduler's bookkeeping: the current task exists
    /// and runs or has just exited; the ready queue holds each Ready task
    /// once and nothing else; the zombie stack holds each Terminated task once
    /// and nothing else; a Running task is the current one; a Blocked task is
    /// in neither queue.
    pub open spec fn wf(self) -> bool {
        &&& self.current matches Some(c) ==> self.has_task(c) && (self.task(c).status
            == TaskStatus::Running || self.task(c).status == TaskStatus::Terminated)
        &&& self.ready.no_duplicates()
        &&& forall|i: int|
            0 <= i < self.ready.len() ==> self.has_task(#[trigger] self.ready[i]) && self.task(
                self.ready[i],
            ).status == TaskStatus::Ready
        &&& self.zombies.no_duplicates()
        &&& forall|i: int|
            0 <= i < self.zombies.len() ==> self.has_task(#[trigger] self.zombies[i]) && self.task(
                self.zombies[i],
            ).status == TaskStatus::Terminated
        &&& forall|id: usize| #[trigger]
            self.has_task(id) ==> {
                let t = self.task(id);
                &&& t.task_id == id
                &&& t.layout.wf()
                &&& t.status == TaskStatus::Ready ==> self.ready.contains(id)
                &&& t.status == TaskStatus::Running ==> self.current == Some(id)
                &&& t.status == TaskStatus::Terminated ==> self.zombies.contains(id)
            }
    }

    /// Every task's stack is a live block of the heap, and no two stacks
    /// share a byte.
    pub open spec fn owns_stacks(self, heap: HeapView) -> bool {
        &&& forall|id: usize| #[trigger]
            self.has_task(id) ==> heap.is_live(
                self.task(id).stack_base as int,
                self.task(id).stack_order(),
            )
        &&& forall|a: usize, b: usize|
            #[trigger] self.has_task(a) && #[trigger] self.has_task(b) && a != b
                ==> blocks_disjoint(
                self.task(a).stack_base as int,
                self.task(a).stack_order(),
                self.task(b).stack_base as int,
                self.task(b).stack_order(),
            )
    }

    /// The idle task, task 0, exists and does not wait to be reclaimed.
    pub open spec fn has_idle(self) -> bool {
        self.has_task(0) && !self.zombies.contains(0)
    }

    /// The state with the status of task `id` replaced; the same state where
    /// there is no such task.
    pub open spec fn set_status(self, id: usize, status: TaskStatus) -> SchedulerView {
        if self.has_task(id) {
            SchedulerView {
                tasks: self.tasks.update(
                    id as int,
                    Some(TaskControlBlock { status, ..self.task(id) }),
                ),
                ..self
            }
        } else {
            self
        }
    }

    /// The state after a new task has been put in the slot that its id names
    /// and at the tail of the ready queue.
    pub open spec fn install(self, tcb: TaskControlBlock) -> SchedulerView {
        SchedulerView {
            tasks: if tcb.task_id == self.tasks.len() {
                self.tasks.push(Some(tcb))
            } else {
                self.tasks.update(tcb.task_id as int, Some(tcb))
            },
            ready: self.ready.push(tcb.task_id),
            ..self
        }
    }

    /// The state after the current task has been marked Running.
    pub open spec fn mark_running(self) -> SchedulerView {
        match self.current {
            Some(c) if self.has_task(c) => self.set_status(c, TaskStatus::Running),
            _ => self,
        }
    }

    /// The state after the current task has exited: it is Terminated and on
    /// top of the zombie stack.
    pub open spec fn exit_current(self) -> SchedulerView {
        match self.current {
            Some(c) if self.has_task(c) => SchedulerView {
                zombies: self.zombies.push(c),
                ..self.set_status(c, TaskStatus::Terminated)
            },
            _ => self,
        }
    }

    /// The state after the register file of the current task has been replaced.
    pub open spec fn save_context(
        self,
        context: crate::task::context::TaskContext,
    ) -> SchedulerView {
        match self.current {
            Some(c) if self.has_task(c) => SchedulerView {
                tasks: self.tasks.update(
                    c as int,
                    Some(TaskControlBlock { context, ..self.task(c) }),
                ),
                ..self
            },
            _ => self,
        }
    }

    /// The reclaiming loop stops: no zombie is left, or the top one is the
    /// current task, whose stack is still in use.
    pub open spec fn reclaim_done(self) -> bool {
        self.zombies.len() == 0 || self.current == Some(self.zombies.last())
    }

    /// The state after the top zombie has been reclaimed: it leaves the zombie
    /// stack and the ready queue, and its slot is empty.
    pub open spec fn reclaim_top(self) -> SchedulerView {
        let z = self.zombies.last();
        SchedulerView {
            zombies: self.zombies.drop_last(),
            ready: without(self.ready, z),
            tasks: if z < self.tasks.len() {
                self.tasks.update(z as int, None)
            } else {
                self.tasks
            },
            ..self
        }
    }

    /// The heap after the stack of the top zombie has been released.
    pub open spec fn reclaim_top_heap(self, heap: HeapView) -> HeapView {
        let z = self.zombies.last();
        if self.has_task(z) {
            heap.after_dealloc(self.task(z).stack_base as int, self.task(z).stack_order())
        } else {
            heap
        }
    }

    /// The state after the zombies have been reclaimed from the top of their
    /// stack down to the current task, or to the last one.
    pub open spec fn reclaim(self) -> SchedulerView
        decreases self.zombies.len(),
    {
        if self.reclaim_done() {
            self
        } else {
            self.reclaim_top().reclaim()
        }
    }

    /// The heap after the stacks of those zombies have been released.
    pub open spec fn reclaim_heap(self, heap: HeapView) -> HeapView
        decreases self.zombies.len(),
    {
        if self.reclaim_done() {
            heap
        } else {
            self.reclaim_top().reclaim_heap(self.reclaim_top_heap(heap))
        }
    }

    /// The state after the current task, if it is Running, has been made Ready
    /// and put at the tail of the ready queue.
    pub open spec fn demote(self) -> SchedulerView {
        match self.current {
            Some(c) if self.has_task(c) && self.task(c).status == TaskStatus::Running
                => SchedulerView {
                ready: self.ready.push(c),
                ..self.set_status(c, TaskStatus::Ready)
            },
            _ => self,
        }
    }

    /// The head of the ready queue is the idle task and another task waits
    /// behind it.
    pub open spec fn idle_yields(self) -> bool {
        self.ready.len() > 1 && self.ready[0] == 0
    }

    /// The task that runs next: the head of the ready queue; the one behind it
    /// where the head is the idle task and is not alone; the idle task where
    /// the queue is empty.
    pub open spec fn next_task(self) -> usize {
        if self.ready.len() == 0 {
            0
        } else if self.idle_yields() {
            self.ready[1]
        } else {
            self.ready[0]
        }
    }

    /// The ready queue after the next task has left it; an idle task that has
    /// yielded is at its tail.
    pub open spec fn ready_after_pick(self) -> Seq<usize> {
        if self.ready.len() == 0 {
            self.ready
        } else if self.idle_yields() {
            self.ready.subrange(2, self.ready.len() as int).push(0)
        } else {
            self.ready.drop_first()
        }
    }

    /// The state after the next task has been picked and made the current,
    /// Running task.
    pub open spec fn pick(self) -> SchedulerView {
        let next = self.next_task();
        SchedulerView {
            current: Some(next),
            ready: self.ready_after_pick(),
            ..self.set_status(next, TaskStatus::Running)
        }
    }

    /// The state after a timer tick: zombies reclaimed, the current task put
    /// back in the queue, the next one picked.
    pub open spec fn tick(self) -> SchedulerView {
        self.reclaim().demote().pick()
    }
}

/// What `without` keeps: the entries other than `id`, each as often as before.
pub proof fn lemma_without(queue: Seq<usize>, id: usize)
    ensures
        forall|x: usize| #[trigger] without(queue, id).contains(x) <==> queue.contains(x) && x != id,
        queue.no_duplicates() ==> without(queue, id).no_duplicates(),
        !queue.contains(id) ==> without(queue, id) == queue,
        without(queue, id).len() <= queue.len(),
    decreases queue.len(),
{
    let out = without(queue, id);
    if queue.len() == 0 {
    } else {
        let front = queue.drop_last();
        let last = queue.last();
        lemma_without(front, id);
        let kept = without(front, id);
        assert forall|x: usize| #[trigger] out.contains(x) <==> queue.contains(x) && x != id by {
            if queue.contains(x) && x != id {
                let i = queue.index_of(x);
                if i < front.len() {
                    assert(front[i] == x);
                    assert(front.contains(x));
                    assert(kept.contains(x));
                    let j = kept.index_of(x);
                    assert(out[j] == x);
                } else {
                    assert(out[out.len() - 1] == x);
                }
            }
            if out.contains(x) {
                let j = out.index_of(x);
                if j < kept.len() {
                    assert(kept[j] == x);
                    assert(kept.contains(x));
                    let i = front.index_of(x);
                    assert(queue[i] == x);
                } else {
                    assert(x == last);
                    assert(queue[queue.len() - 1] == x);
                }
            }
        }
        if queue.no_duplicates() {
            assert forall|i: int, j: int| 0 <= i < front.len() && 0 <= j < front.len() && i
                != j implies front[i] != front[j] by {
                assert(front[i] == queue[i] && front[j] == queue[j]);
            }
            if last != id {
                if kept.contains(last) {
                    let i = front.index_of(last);
                    assert(queue[i] == queue[queue.len() - 1]);
                }
                assert forall|i: int, j: int| 0 <= i < out.len() && 0 <= j < out.len() && i
                    != j implies out[i] != out[j] by {
                    if i < kept.len() && j < kept.len() {
                        assert(out[i] == kept[i] && out[j] == kept[j]);
                    } else if i < kept.len() {
                        assert(kept.contains(kept[i]));
                    } else {
                        assert(kept.contains(kept[j]));
                    }
                }
            }
        }
        if !queue.contains(id) {
            assert(queue[queue.len() - 1] != id);
            if front.contains(id) {
                let i = front.index_of(id);
                assert(queue[i] == id);
            }
            assert(out =~= queue);
        }
    }
}

impl SchedulerView {
    /// What `first_empty_from` finds.
    pub proof fn lemma_first_empty(self, from: nat)
        requires
            from <= self.tasks.len(),
        ensures
            from <= self.first_empty_from(from) <= self.tasks.len(),
            self.first_empty_from(from) < self.tasks.len() ==> self.tasks[self.first_empty_from(
                from,
            ) as int] is None,
            forall|i: int|
                from <= i < self.first_empty_from(from) ==> (#[trigger] self.tasks[i]) is Some,
        decreases self.tasks.len() - from,
    {
        if from < self.tasks.len() && self.tasks[from as int] is Some {
            self.lemma_first_empty(from + 1);
        }
    }

    /// Installing a Ready task in the first empty slot, with a stack that is
    /// live and apart from the others, keeps the invariants.
    pub proof fn lemma_install(self, heap: HeapView, tcb: TaskControlBlock)
        requires
            self.wf(),
            self.owns_stacks(heap),
            tcb.task_id == self.next_id(),
            tcb.status == TaskStatus::Ready,
            tcb.layout.wf(),
            heap.is_live(tcb.stack_base as int, tcb.stack_order()),
            forall|id: usize| #[trigger]
                self.has_task(id) ==> blocks_disjoint(
                    self.task(id).stack_base as int,
                    self.task(id).stack_order(),
                    tcb.stack_base as int,
                    tcb.stack_order(),
                ),
        ensures
            self.install(tcb).wf(),
            self.install(tcb).owns_stacks(heap),
            !self.has_task(tcb.task_id),
            self.install(tcb).has_task(tcb.task_id),
            self.install(tcb).task(tcb.task_id) == tcb,
            forall|id: usize|
                id != tcb.task_id ==> (#[trigger] self.install(tcb).has_task(id)
                    <==> self.has_task(id)),
            forall|id: usize|
                id != tcb.task_id && self.has_task(id) ==> #[trigger] self.install(tcb).task(id)
                    == self.task(id),
            self.has_idle() ==> self.install(tcb).has_idle(),
            self.tasks.len() == 0 ==> tcb.task_id == 0,
    {
        let after = self.install(tcb);
        let id = tcb.task_id;
        self.lemma_first_empty(0);
        assert(!self.has_task(id));
        assert forall|other: usize| other != id implies (#[trigger] after.has_task(other)
            <==> self.has_task(other)) by {}
        assert forall|other: usize| other != id && self.has_task(other) implies #[trigger] after.task(other)
            == self.task(other) by {}
        if self.ready.contains(id) {
            let i = self.ready.index_of(id);
            assert(self.has_task(self.ready[i]));
        }
        assert forall|i: int| 0 <= i < after.ready.len() implies after.has_task(
            #[trigger] after.ready[i],
        ) && after.task(after.ready[i]).status == TaskStatus::Ready by {
            if i < self.ready.len() {
                assert(self.has_task(self.ready[i]));
            }
        }
        assert forall|i: int, j: int|
            0 <= i < after.ready.len() && 0 <= j < after.ready.len() && i
                != j implies after.ready[i] != after.ready[j] by {
            if i < self.ready.len() {
                assert(self.ready.contains(self.ready[i]));
            }
            if j < self.ready.len() {
                assert(self.ready.contains(self.ready[j]));
            }
        }
        assert forall|i: int| 0 <= i < after.zombies.len() implies after.has_task(
            #[trigger] after.zombies[i],
        ) && after.task(after.zombies[i]).status == TaskStatus::Terminated by {
            assert(self.has_task(self.zombies[i]));
        }
        assert forall|other: usize| #[trigger] after.has_task(other) implies ({
            let t = after.task(other);
            &&& t.task_id == other
            &&& t.layout.wf()
            &&& t.status == TaskStatus::Ready ==> after.ready.contains(other)
            &&& t.status == TaskStatus::Running ==> after.current == Some(other)
            &&& t.status == TaskStatus::Terminated ==> after.zombies.contains(other)
        }) by {
            if other == id {
                assert(after.ready[self.ready.len() as int] == id);
            } else {
                assert(self.has_task(other));
                if self.task(other).status == TaskStatus::Ready {
                    let i = self.ready.index_of(other);
                    assert(after.ready[i] == other);
                }
            }
        }
        assert(after.wf());
        assert forall|a: usize, b: usize|
            #[trigger] after.has_task(a) && #[trigger] after.has_task(b) && a
                != b implies blocks_disjoint(
            after.task(a).stack_base as int,
            after.task(a).stack_order(),
            after.task(b).stack_base as int,
            after.task(b).stack_order(),
        ) by {
            if a != id {
                assert(self.has_task(a));
            }
            if b != id {
                assert(self.has_task(b));
            }
            crate::mm::blocks::lemma_block_size_step(after.task(a).stack_order());
            crate::mm::blocks::lemma_block_size_step(after.task(b).stack_order());
        }
        assert forall|other: usize| #[trigger] after.has_task(other) implies heap.is_live(
            after.task(other).stack_base as int,
            after.task(other).stack_order(),
        ) by {
            if other != id {
                assert(self.has_task(other));
            }
        }
    }
}

impl SchedulerView {
    /// Replacing the status of a task changes nothing else.
    pub proof fn lemma_set_status(self, id: usize, status: TaskStatus)
        requires
            self.has_task(id),
        ensures
            forall|other: usize| #[trigger]
                self.set_status(id, status).has_task(other) <==> self.has_task(other),
            forall|other: usize|
                other != id && other < self.tasks.len() ==> #[trigger] self.set_status(
                    id,
                    status,
                ).task(other) == self.task(other),
            self.set_status(id, status).task(id) == (TaskControlBlock {
                status,
                ..self.task(id)
            }),
            self.set_status(id, status).tasks.len() == self.tasks.len(),
    {
    }

    /// Replacing the register file of the current task keeps the invariants.
    pub proof fn lemma_save_context(self, context: crate::task::context::TaskContext)
        requires
            self.wf(),
        ensures
            self.save_context(context).wf(),
            self.save_context(context).has_idle() == self.has_idle(),
            forall|heap: HeapView|
                self.owns_stacks(heap) ==> #[trigger] self.save_context(context).owns_stacks(heap),
            forall|id: usize| #[trigger]
                self.save_context(context).has_task(id) <==> self.has_task(id),
            forall|id: usize|
                self.has_task(id) && self.current != Some(id) ==> #[trigger] self.save_context(
                    context,
                ).task(id) == self.task(id),
    {
        let after = self.save_context(context);
        if let Some(c) = self.current {
            assert(self.has_task(c));
            assert forall|i: int| 0 <= i < after.ready.len() implies after.has_task(
                #[trigger] after.ready[i],
            ) && after.task(after.ready[i]).status == TaskStatus::Ready by {
                assert(self.has_task(self.ready[i]));
            }
            assert forall|i: int| 0 <= i < after.zombies.len() implies after.has_task(
                #[trigger] after.zombies[i],
            ) && after.task(after.zombies[i]).status == TaskStatus::Terminated by {
                assert(self.has_task(self.zombies[i]));
            }
            assert forall|id: usize| #[trigger] after.has_task(id) implies ({
                let t = after.task(id);
                &&& t.task_id == id
                &&& t.layout.wf()
                &&& t.status == TaskStatus::Ready ==> after.ready.contains(id)
                &&& t.status == TaskStatus::Running ==> after.current == Some(id)
                &&& t.status == TaskStatus::Terminated ==> after.zombies.contains(id)
            }) by {
                assert(self.has_task(id));
            }
            assert forall|heap: HeapView| self.owns_stacks(heap) implies #[trigger] after.owns_stacks(
                heap,
            ) by {
                assert forall|id: usize| #[trigger] after.has_task(id) implies heap.is_live(
                    after.task(id).stack_base as int,
                    after.task(id).stack_order(),
                ) by {
                    assert(self.has_task(id));
                }
                assert forall|a: usize, b: usize|
                    #[trigger] after.has_task(a) && #[trigger] after.has_task(b) && a
                        != b implies blocks_disjoint(
                    after.task(a).stack_base as int,
                    after.task(a).stack_order(),
                    after.task(b).stack_base as int,
                    after.task(b).stack_order(),
                ) by {
                    assert(self.has_task(a) && self.has_task(b));
                }
            }
        }
    }

    /// Marking the current task Running keeps the invariant unless that task
    /// has exited.
    pub proof fn lemma_mark_running(self)
        requires
            self.wf(),
            self.current matches Some(c) ==> self.task(c).status != TaskStatus::Terminated,
        ensures
            self.mark_running() == self,
    {
        if let Some(c) = self.current {
            assert(self.has_task(c));
            assert(self.mark_running().tasks =~= self.tasks);
        }
    }

    /// The exit of a Running current task keeps the invariant; the idle task
    /// stays unless it is the one that exits.
    pub proof fn lemma_exit_current(self)
        requires
            self.wf(),
            self.current matches Some(c) ==> self.task(c).status == TaskStatus::Running,
        ensures
            self.exit_current().wf(),
            self.has_idle() && self.current != Some(0usize) ==> self.exit_current().has_idle(),
            forall|heap: HeapView|
                self.owns_stacks(heap) ==> #[trigger] self.exit_current().owns_stacks(heap),
    {
        let after = self.exit_current();
        if let Some(c) = self.current {
            self.lemma_set_status(c, TaskStatus::Terminated);
            if self.zombies.contains(c) {
                let i = self.zombies.index_of(c);
                assert(self.has_task(self.zombies[i]));
            }
            assert forall|i: int, j: int|
                0 <= i < after.zombies.len() && 0 <= j < after.zombies.len() && i
                    != j implies after.zombies[i] != after.zombies[j] by {
                if i < self.zombies.len() {
                    assert(self.zombies.contains(self.zombies[i]));
                }
                if j < self.zombies.len() {
                    assert(self.zombies.contains(self.zombies[j]));
                }
            }
            assert forall|i: int| 0 <= i < after.ready.len() implies after.has_task(
                #[trigger] after.ready[i],
            ) && after.task(after.ready[i]).status == TaskStatus::Ready by {
                assert(self.has_task(self.ready[i]));
            }
            assert forall|i: int| 0 <= i < after.zombies.len() implies after.has_task(
                #[trigger] after.zombies[i],
            ) && after.task(after.zombies[i]).status == TaskStatus::Terminated by {
                if i < self.zombies.len() {
                    assert(self.has_task(self.zombies[i]));
                }
            }
            assert forall|other: usize| #[trigger] after.has_task(other) implies ({
                let t = after.task(other);
                &&& t.task_id == other
                &&& t.layout.wf()
                &&& t.status == TaskStatus::Ready ==> after.ready.contains(other)
                &&& t.status == TaskStatus::Running ==> after.current == Some(other)
                &&& t.status == TaskStatus::Terminated ==> after.zombies.contains(other)
            }) by {
                assert(self.has_task(other));
                if other == c {
                    assert(after.zombies[self.zombies.len() as int] == c);
                } else if self.task(other).status == TaskStatus::Terminated {
                    let i = self.zombies.index_of(other);
                    assert(after.zombies[i] == other);
                }
            }
            if self.has_idle() && c != 0 {
                if after.zombies.contains(0) {
                    let i = after.zombies.index_of(0);
                    if i < self.zombies.len() {
                        assert(self.zombies[i] == 0);
                    }
                }
            }
            assert forall|heap: HeapView| self.owns_stacks(heap) implies #[trigger] after.owns_stacks(
                heap,
            ) by {
                assert forall|id: usize| #[trigger] after.has_task(id) implies heap.is_live(
                    after.task(id).stack_base as int,
                    after.task(id).stack_order(),
                ) by {
                    assert(self.has_task(id));
                }
                assert forall|a: usize, b: usize|
                    #[trigger] after.has_task(a) && #[trigger] after.has_task(b) && a
                        != b implies blocks_disjoint(
                    after.task(a).stack_base as int,
                    after.task(a).stack_order(),
                    after.task(b).stack_base as int,
                    after.task(b).stack_order(),
                ) by {
                    assert(self.has_task(a) && self.has_task(b));
                }
            }
        }
    }

    /// Reclaiming the top zombie keeps the invariants of scheduler and heap.
    pub proof fn lemma_reclaim_top(self, heap: HeapView)
        requires
            self.wf(),
            self.owns_stacks(heap),
            heap.wf(),
            !self.reclaim_done(),
        ensures
            self.reclaim_top().wf(),
            self.reclaim_top().owns_stacks(self.reclaim_top_heap(heap)),
            self.reclaim_top_heap(heap).wf(),
            self.reclaim_top_heap(heap).start == heap.start,
            self.reclaim_top_heap(heap).end == heap.end,
            self.reclaim_top().current == self.current,
            self.has_idle() ==> self.reclaim_top().has_idle(),
            !self.reclaim_top().has_task(self.zombies.last()),
            forall|id: usize|
                id != self.zombies.last() ==> (#[trigger] self.reclaim_top().has_task(id)
                    <==> self.has_task(id)),
            forall|id: usize| #[trigger]
                self.reclaim_top().has_task(id) ==> self.reclaim_top().task(id) == self.task(id),
    {
        let z = self.zombies.last();
        let after = self.reclaim_top();
        let freed = self.reclaim_top_heap(heap);
        assert(self.has_task(self.zombies[self.zombies.len() - 1]));
        let t = self.task(z);
        heap.lemma_dealloc(t.stack_base as int, t.stack_order());
        lemma_without(self.ready, z);
        assert forall|i: int| 0 <= i < after.ready.len() implies after.has_task(
            #[trigger] after.ready[i],
        ) && after.task(after.ready[i]).status == TaskStatus::Ready by {
            assert(after.ready.contains(after.ready[i]));
            let j = self.ready.index_of(after.ready[i]);
            assert(self.has_task(self.ready[j]));
        }
        assert forall|i: int, j: int|
            0 <= i < after.zombies.len() && 0 <= j < after.zombies.len() && i
                != j implies after.zombies[i] != after.zombies[j] by {
            assert(after.zombies[i] == self.zombies[i] && after.zombies[j] == self.zombies[j]);
        }
        assert forall|i: int| 0 <= i < after.zombies.len() implies after.has_task(
            #[trigger] after.zombies[i],
        ) && after.task(after.zombies[i]).status == TaskStatus::Terminated by {
            assert(self.has_task(self.zombies[i]));
            assert(self.zombies[i] != self.zombies[self.zombies.len() - 1]);
        }
        assert forall|other: usize| #[trigger] after.has_task(other) implies ({
            let t = after.task(other);
            &&& t.task_id == other
            &&& t.layout.wf()
            &&& t.status == TaskStatus::Ready ==> after.ready.contains(other)
            &&& t.status == TaskStatus::Running ==> after.current == Some(other)
            &&& t.status == TaskStatus::Terminated ==> after.zombies.contains(other)
        }) by {
            assert(self.has_task(other));
            if self.task(other).status == TaskStatus::Terminated {
                let i = self.zombies.index_of(other);
                assert(after.zombies[i] == other);
            }
        }
        if self.has_idle() {
            if after.zombies.contains(0) {
                let i = after.zombies.index_of(0);
                assert(self.zombies[i] == 0);
            }
        }
        assert forall|id: usize| #[trigger] after.has_task(id) implies freed.is_live(
            after.task(id).stack_base as int,
            after.task(id).stack_order(),
        ) by {
            assert(self.has_task(id));
        }
        assert forall|a: usize, b: usize|
            #[trigger] after.has_task(a) && #[trigger] after.has_task(b) && a
                != b implies blocks_disjoint(
            after.task(a).stack_base as int,
            after.task(a).stack_order(),
            after.task(b).stack_base as int,
            after.task(b).stack_order(),
        ) by {
            assert(self.has_task(a) && self.has_task(b));
        }
    }

    /// Reclaiming keeps the invariants of scheduler and heap, the current
    /// task, the idle task, and every task that is not reclaimed.
    pub proof fn lemma_reclaim(self, heap: HeapView)
        requires
            self.wf(),
            self.owns_stacks(heap),
            heap.wf(),
        ensures
            self.reclaim().wf(),
            self.reclaim().owns_stacks(self.reclaim_heap(heap)),
            self.reclaim_heap(heap).wf(),
            self.reclaim_heap(heap).start == heap.start,
            self.reclaim_heap(heap).end == heap.end,
            self.reclaim().current == self.current,
            self.reclaim().reclaim_done(),
            self.has_idle() ==> self.reclaim().has_idle(),
            forall|id: usize| #[trigger]
                self.reclaim().has_task(id) ==> self.has_task(id) && self.reclaim().task(id)
                    == self.task(id),
            forall|id: usize|
                self.has_task(id) && !self.zombies.contains(id) ==> #[trigger] self.reclaim().has_task(
                    id,
                ),
            forall|id: usize| #[trigger]
                self.reclaim().ready.contains(id) <==> self.ready.contains(id)
                    && self.reclaim().has_task(id),
            self.zombies.len() == 0 ==> self.reclaim() == self && self.reclaim_heap(heap) == heap,
        decreases self.zombies.len(),
    {
        if !self.reclaim_done() {
            let z = self.zombies.last();
            self.lemma_reclaim_top(heap);
            let s1 = self.reclaim_top();
            let h1 = self.reclaim_top_heap(heap);
            s1.lemma_reclaim(h1);
            lemma_without(self.ready, z);
            assert(self.zombies[self.zombies.len() - 1] == z);
            assert forall|id: usize| self.has_task(id) && !self.zombies.contains(
                id,
            ) implies #[trigger] self.reclaim().has_task(id) by {
                assert(s1.has_task(id));
                if s1.zombies.contains(id) {
                    let i = s1.zombies.index_of(id);
                    assert(self.zombies[i] == id);
                }
            }
            assert forall|id: usize| #[trigger]
                self.reclaim().ready.contains(id) <==> self.ready.contains(id)
                    && self.reclaim().has_task(id) by {
                if self.ready.contains(id) && self.reclaim().has_task(id) {
                    assert(s1.has_task(id));
                }
            }
        } else {
            assert forall|id: usize| #[trigger]
                self.ready.contains(id) implies self.has_task(id) by {
                let i = self.ready.index_of(id);
                assert(self.has_task(self.ready[i]));
            }
        }
    }
}

impl SchedulerView {
    /// The invariant between the two halves of a switch: as `wf`, but no task
    /// is Running, and the current task may be Ready.
    pub open spec fn wf_between(self) -> bool {
        &&& self.current matches Some(c) ==> self.has_task(c)
        &&& self.ready.no_duplicates()
        &&& forall|i: int|
            0 <= i < self.ready.len() ==> self.has_task(#[trigger] self.ready[i]) && self.task(
                self.ready[i],
            ).status == TaskStatus::Ready
        &&& self.zombies.no_duplicates()
        &&& forall|i: int|
            0 <= i < self.zombies.len() ==> self.has_task(#[trigger] self.zombies[i]) && self.task(
                self.zombies[i],
            ).status == TaskStatus::Terminated
        &&& forall|id: usize| #[trigger]
            self.has_task(id) ==> {
                let t = self.task(id);
                &&& t.task_id == id
                &&& t.layout.wf()
                &&& t.status == TaskStatus::Ready ==> self.ready.contains(id)
                &&& t.status != TaskStatus::Running
                &&& t.status == TaskStatus::Terminated ==> self.zombies.contains(id)
            }
    }

    /// Putting the current task back in the queue leaves no task Running.
    pub proof fn lemma_demote(self)
        requires
            self.wf(),
        ensures
            self.demote().wf_between(),
            self.demote().zombies == self.zombies,
            self.demote().current == self.current,
            self.has_idle() ==> self.demote().has_idle(),
            forall|id: usize| #[trigger] self.demote().has_task(id) <==> self.has_task(id),
            forall|id: usize| #[trigger]
                self.has_task(id) ==> self.demote().task(id) == (TaskControlBlock {
                    status: self.demote().task(id).status,
                    ..self.task(id)
                }),
            forall|id: usize| #[trigger]
                self.ready.contains(id) ==> self.demote().ready.contains(id),
            forall|heap: HeapView|
                self.owns_stacks(heap) ==> #[trigger] self.demote().owns_stacks(heap),
    {
        let after = self.demote();
        match self.current {
            Some(c) if self.has_task(c) && self.task(c).status == TaskStatus::Running => {
                self.lemma_set_status(c, TaskStatus::Ready);
                if self.ready.contains(c) {
                    let i = self.ready.index_of(c);
                    assert(self.has_task(self.ready[i]));
                }
                assert forall|i: int, j: int|
                    0 <= i < after.ready.len() && 0 <= j < after.ready.len() && i
                        != j implies after.ready[i] != after.ready[j] by {
                    if i < self.ready.len() {
                        assert(self.ready.contains(self.ready[i]));
                    }
                    if j < self.ready.len() {
                        assert(self.ready.contains(self.ready[j]));
                    }
                }
                assert forall|i: int| 0 <= i < after.ready.len() implies after.has_task(
                    #[trigger] after.ready[i],
                ) && after.task(after.ready[i]).status == TaskStatus::Ready by {
                    if i < self.ready.len() {
                        assert(self.has_task(self.ready[i]));
                    }
                }
                assert forall|i: int| 0 <= i < after.zombies.len() implies after.has_task(
                    #[trigger] after.zombies[i],
                ) && after.task(after.zombies[i]).status == TaskStatus::Terminated by {
                    assert(self.has_task(self.zombies[i]));
                }
                assert forall|id: usize| #[trigger] after.has_task(id) implies ({
                    let t = after.task(id);
                    &&& t.task_id == id
                    &&& t.layout.wf()
                    &&& t.status == TaskStatus::Ready ==> after.ready.contains(id)
                    &&& t.status != TaskStatus::Running
                    &&& t.status == TaskStatus::Terminated ==> after.zombies.contains(id)
                }) by {
                    assert(self.has_task(id));
                    if id == c {
                        assert(after.ready[self.ready.len() as int] == c);
                    } else if self.task(id).status == TaskStatus::Ready {
                        let i = self.ready.index_of(id);
                        assert(after.ready[i] == id);
                    }
                }
                assert forall|id: usize| #[trigger] self.ready.contains(id) implies after.ready.contains(
                    id,
                ) by {
                    let i = self.ready.index_of(id);
                    assert(after.ready[i] == id);
                }
            },
            _ => {
                assert forall|id: usize| #[trigger] after.has_task(id) implies after.task(id).status
                    != TaskStatus::Running by {}
            },
        }
        assert forall|heap: HeapView| self.owns_stacks(heap) implies #[trigger] after.owns_stacks(
            heap,
        ) by {
            assert forall|id: usize| #[trigger] after.has_task(id) implies heap.is_live(
                after.task(id).stack_base as int,
                after.task(id).stack_order(),
            ) by {
                assert(self.has_task(id));
            }
            assert forall|a: usize, b: usize|
                #[trigger] after.has_task(a) && #[trigger] after.has_task(b) && a
                    != b implies blocks_disjoint(
                after.task(a).stack_base as int,
                after.task(a).stack_order(),
                after.task(b).stack_base as int,
                after.task(b).stack_order(),
            ) by {
                assert(self.has_task(a) && self.has_task(b));
            }
        }
    }

    /// Picking the next task restores the invariant; the task picked is not
    /// the idle task where another task is ready.
    pub proof fn lemma_pick(self)
        requires
            self.wf_between(),
            self.has_idle(),
        ensures
            self.pick().wf(),
            self.pick().has_idle(),
            self.pick().zombies == self.zombies,
            self.has_task(self.next_task()),
            self.pick().current == Some(self.next_task()),
            self.pick().task(self.next_task()).status == TaskStatus::Running,
            forall|id: usize| #[trigger] self.pick().has_task(id) <==> self.has_task(id),
            forall|id: usize| #[trigger]
                self.has_task(id) ==> self.pick().task(id) == (TaskControlBlock {
                    status: self.pick().task(id).status,
                    ..self.task(id)
                }),
            (exists|id: usize| id != 0 && self.ready.contains(id)) ==> self.next_task() != 0,
            forall|heap: HeapView|
                self.owns_stacks(heap) ==> #[trigger] self.pick().owns_stacks(heap),
    {
        let after = self.pick();
        let next = self.next_task();
        let n = self.ready.len() as int;
        if n > 0 {
            assert(self.has_task(self.ready[0]));
            if n > 1 {
                assert(self.has_task(self.ready[1]));
                assert(self.ready[0] != self.ready[1]);
            }
        }
        self.lemma_set_status(next, TaskStatus::Running);
        // Where each entry of the new queue stood in the old one.
        let from = |i: int|
            if self.idle_yields() {
                if i < n - 2 {
                    i + 2
                } else {
                    0
                }
            } else {
                i + 1
            };
        assert forall|i: int| 0 <= i < after.ready.len() implies 0 <= from(i) < n
            && #[trigger] after.ready[i] == self.ready[from(i)] && after.ready[i] != next by {
            if self.idle_yields() {
                assert(self.ready[from(i)] != self.ready[1]);
            } else {
                assert(self.ready[from(i)] != self.ready[0]);
            }
        }
        assert forall|i: int, j: int|
            0 <= i < after.ready.len() && 0 <= j < after.ready.len() && i
                != j implies after.ready[i] != after.ready[j] by {
            assert(after.ready[i] == self.ready[from(i)]);
            assert(after.ready[j] == self.ready[from(j)]);
        }
        assert forall|i: int| 0 <= i < after.ready.len() implies after.has_task(
            #[trigger] after.ready[i],
        ) && after.task(after.ready[i]).status == TaskStatus::Ready by {
            assert(after.ready[i] == self.ready[from(i)]);
            assert(self.has_task(self.ready[from(i)]));
        }
        if self.zombies.contains(next) {
            let i = self.zombies.index_of(next);
            assert(self.has_task(self.zombies[i]));
        }
        assert forall|i: int| 0 <= i < after.zombies.len() implies after.has_task(
            #[trigger] after.zombies[i],
        ) && after.task(after.zombies[i]).status == TaskStatus::Terminated by {
            assert(self.has_task(self.zombies[i]));
            assert(self.zombies.contains(self.zombies[i]));
        }
        assert forall|id: usize| #[trigger] after.has_task(id) implies ({
            let t = after.task(id);
            &&& t.task_id == id
            &&& t.layout.wf()
            &&& t.status == TaskStatus::Ready ==> after.ready.contains(id)
            &&& t.status == TaskStatus::Running ==> after.current == Some(id)
            &&& t.status == TaskStatus::Terminated ==> after.zombies.contains(id)
        }) by {
            assert(self.has_task(id));
            if id != next && self.task(id).status == TaskStatus::Ready {
                let i = self.ready.index_of(id);
                if self.idle_yields() {
                    if i == 0 {
                        assert(after.ready[n - 2] == id);
                    } else {
                        assert(after.ready[i - 2] == id);
                    }
                } else {
                    assert(after.ready[i - 1] == id);
                }
            }
        }
        if exists|id: usize| id != 0 && self.ready.contains(id) {
            let id = choose|id: usize| id != 0 && self.ready.contains(id);
            let i = self.ready.index_of(id);
            assert(self.ready[i] == id);
        }
        assert forall|heap: HeapView| self.owns_stacks(heap) implies #[trigger] after.owns_stacks(
            heap,
        ) by {
            assert forall|id: usize| #[trigger] after.has_task(id) implies heap.is_live(
                after.task(id).stack_base as int,
                after.task(id).stack_order(),
            ) by {
                assert(self.has_task(id));
            }
            assert forall|a: usize, b: usize|
                #[trigger] after.has_task(a) && #[trigger] after.has_task(b) && a
                    != b implies blocks_disjoint(
                after.task(a).stack_base as int,
                after.task(a).stack_order(),
                after.task(b).stack_base as int,
                after.task(b).stack_order(),
            ) by {
                assert(self.has_task(a) && self.has_task(b));
            }
        }
    }

    /// A tick keeps the invariants of scheduler and heap and the idle task;
    /// it changes no register file, and of the tasks that stay nothing but the
    /// status; it does not pick the idle task where another task is Ready.
    pub proof fn lemma_tick(self, heap: HeapView)
        requires
            self.wf(),
            self.owns_stacks(heap),
            heap.wf(),
            self.has_idle(),
        ensures
            self.tick().wf(),
            self.tick().has_idle(),
            self.tick().owns_stacks(self.reclaim_heap(heap)),
            self.reclaim_heap(heap).wf(),
            self.tick().current == Some(self.reclaim().demote().next_task()),
            self.tick().current matches Some(next) && self.tick().has_task(next) && self.tick().task(
                next,
            ).status == TaskStatus::Running,
            forall|id: usize| #[trigger]
                self.tick().has_task(id) ==> self.has_task(id) && self.tick().task(id)
                    == (TaskControlBlock { status: self.tick().task(id).status, ..self.task(id) }),
            forall|id: usize|
                self.has_task(id) && !self.zombies.contains(id) ==> #[trigger] self.tick().has_task(
                    id,
                ),
            (exists|id: usize|
                id != 0 && self.has_task(id) && (self.task(id).status == TaskStatus::Ready
                    || self.task(id).status == TaskStatus::Running)) ==> self.tick().current
                != Some(0usize),
    {
        let r = self.reclaim();
        let d = r.demote();
        self.lemma_reclaim(heap);
        r.lemma_demote();
        d.lemma_pick();
        if exists|id: usize|
            id != 0 && self.has_task(id) && (self.task(id).status == TaskStatus::Ready
                || self.task(id).status == TaskStatus::Running) {
            let id = choose|id: usize|
                id != 0 && self.has_task(id) && (self.task(id).status == TaskStatus::Ready
                    || self.task(id).status == TaskStatus::Running);
            if self.zombies.contains(id) {
                let i = self.zombies.index_of(id);
                assert(self.has_task(self.zombies[i]));
            }
            assert(r.has_task(id));
            assert(d.has_task(id));
            if self.task(id).status == TaskStatus::Ready {
                assert(self.ready.contains(id));
                assert(r.ready.contains(id));
                assert(d.ready.contains(id));
            } else {
                assert(self.current == Some(id));
                assert(d.ready[r.ready.len() as int] == id);
                assert(d.ready.contains(id));
            }
        }
        assert forall|id: usize| #[trigger] self.tick().has_task(id) implies self.has_task(id)
            && self.tick().task(id) == (TaskControlBlock {
            status: self.tick().task(id).status,
            ..self.task(id)
        }) by {
            assert(d.has_task(id));
            assert(r.has_task(id));
        }
        assert forall|id: usize| self.has_task(id) && !self.zombies.contains(
            id,
        ) implies #[trigger] self.tick().has_task(id) by {
            assert(r.has_task(id));
            assert(d.has_task(id));
        }
    }
}

} // verus!
