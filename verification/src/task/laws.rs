use vstd::prelude::*;
use vstd::arithmetic::div_mod::{lemma_basic_div, lemma_div_plus_one};
use crate::mm::blocks::block_inside;
use crate::mm::laws::released;
use crate::mm::model::HeapView;
use crate::task::context::TaskContext;
use crate::task::model::{lemma_without, without, SchedulerView};
use crate::task::tcb::{TaskControlBlock, TaskStatus};

verus! {

/// What can happen to the scheduler.
pub enum SchedulerEvent {
    /// A timer tick.
    Tick,
    /// The current task returns from its entry.
    Exit,
    /// The trampoline marks the current task Running.
    MarkRunning,
    /// The trap entry stores the registers of the current task.
    SaveContext(TaskContext),
    /// A task is spawned.
    Spawn(TaskControlBlock),
}

/// The scheduler after one event.
pub open spec fn scheduler_step(s: SchedulerView, event: SchedulerEvent) -> SchedulerView {
    match event {
        SchedulerEvent::Tick => s.tick(),
        SchedulerEvent::Exit => s.exit_current(),
        SchedulerEvent::MarkRunning => s.mark_running(),
        SchedulerEvent::SaveContext(context) => s.save_context(context),
        SchedulerEvent::Spawn(tcb) => s.install(tcb),
    }
}

/// The scheduler after a sequence of events.
pub open spec fn scheduler_after(s: SchedulerView, events: Seq<SchedulerEvent>) -> SchedulerView
    decreases events.len(),
{
    if events.len() == 0 {
        s
    } else {
        scheduler_step(scheduler_after(s, events.drop_last()), events.last())
    }
}

/// Task `id` exists before and after every event of the sequence, no event
/// stores registers while it is the current task, and every task spawned
/// gets the first empty slot.
pub open spec fn left_alone(s: SchedulerView, events: Seq<SchedulerEvent>, id: usize) -> bool
    decreases events.len(),
{
    s.has_task(id) && (events.len() == 0 || {
        let before = scheduler_after(s, events.drop_last());
        &&& left_alone(s, events.drop_last(), id)
        &&& scheduler_step(before, events.last()).has_task(id)
        &&& events.last() is SaveContext ==> before.current != Some(id)
        &&& events.last() matches SchedulerEvent::Spawn(tcb) ==> tcb.task_id == before.next_id()
    })
}

/// A task that is not reclaimed is as it was.
proof fn lemma_reclaim_keeps(s: SchedulerView, id: usize)
    ensures
        s.reclaim().has_task(id) ==> s.has_task(id) && s.reclaim().task(id) == s.task(id),
        s.reclaim().current == s.current,
    decreases s.zombies.len(),
{
    if !s.reclaim_done() {
        lemma_reclaim_keeps(s.reclaim_top(), id);
    }
}

/// No event but the storing of the current task's registers changes the
/// register file of a task that exists before and after it.
proof fn lemma_step_keeps_context(s: SchedulerView, event: SchedulerEvent, id: usize)
    requires
        s.has_task(id),
        scheduler_step(s, event).has_task(id),
        event is SaveContext ==> s.current != Some(id),
        event matches SchedulerEvent::Spawn(tcb) ==> tcb.task_id == s.next_id(),
    ensures
        scheduler_step(s, event).task(id).context == s.task(id).context,
{
    match event {
        SchedulerEvent::Tick => {
            let r = s.reclaim();
            let d = r.demote();
            lemma_reclaim_keeps(s, id);
        },
        SchedulerEvent::Spawn(tcb) => {
            s.lemma_first_empty(0);
        },
        _ => {},
    }
}

/// Context preservation: the register file of a task is the same after any
/// sequence of events through which the task exists and in which none
/// stores registers while it is the current task. What is restored when the
/// task resumes is what was stored when it was preempted.
pub proof fn lemma_context_preserved(s: SchedulerView, events: Seq<SchedulerEvent>, id: usize)
    requires
        left_alone(s, events, id),
    ensures
        scheduler_after(s, events).has_task(id),
        scheduler_after(s, events).task(id).context == s.task(id).context,
    decreases events.len(),
{
    if events.len() > 0 {
        lemma_context_preserved(s, events.drop_last(), id);
        lemma_step_keeps_context(scheduler_after(s, events.drop_last()), events.last(), id);
    }
}

/// Storing the registers of the current task and reading its register file
/// back yields what was stored.
pub proof fn lemma_saved_context_is_read(s: SchedulerView, context: TaskContext)
    requires
        s.wf(),
        s.current is Some,
    ensures
        s.save_context(context).has_task(s.current->0),
        s.save_context(context).task(s.current->0).context == context,
{
}

/// A task resumes where it was preempted: when the registers of the current
/// task have been stored with the program counter at which it was
/// interrupted, then whatever happens until the task is picked again, short
/// of its own exit and reclamation, its register file still holds those
/// registers and that program counter.
pub proof fn lemma_resumes_where_preempted(
    s: SchedulerView,
    registers: TaskContext,
    mepc: usize,
    events: Seq<SchedulerEvent>,
    id: usize,
)
    requires
        s.wf(),
        s.current == Some(id),
        left_alone(s.save_context(TaskContext { mepc, ..registers }), events, id),
    ensures
        ({
            let preempted = s.save_context(TaskContext { mepc, ..registers });
            let later = scheduler_after(preempted, events);
            &&& later.has_task(id)
            &&& later.task(id).context == (TaskContext { mepc, ..registers })
            &&& later.task(id).context.mepc == mepc
        }),
{
    let stored = TaskContext { mepc, ..registers };
    lemma_saved_context_is_read(s, stored);
    lemma_context_preserved(s.save_context(stored), events, id);
}

/// Releasing the stacks of zombies leaves memory that was released so.
proof fn lemma_reclaim_keeps_released(s: SchedulerView, heap: HeapView, a: int, k: nat)
    requires
        s.wf(),
        s.owns_stacks(heap),
        heap.wf(),
        released(heap, a, k),
    ensures
        released(s.reclaim_heap(heap), a, k),
    decreases s.zombies.len(),
{
    if !s.reclaim_done() {
        let z = s.zombies.last();
        s.lemma_reclaim_top(heap);
        assert(s.has_task(s.zombies[s.zombies.len() - 1]));
        let t = s.task(z);
        let h1 = s.reclaim_top_heap(heap);
        heap.lemma_dealloc(t.stack_base as int, t.stack_order());
        let (m, mo) = choose|m: int, mo: nat| #[trigger]
            heap.is_free(m, mo) && block_inside(a, k, m, mo);
        if h1.is_free(m, mo) {
            assert(h1.is_free(m, mo) && block_inside(a, k, m, mo));
        } else {
            let g = heap.merged_addr(t.stack_base as int, t.stack_order());
            let go = heap.merged_order(t.stack_base as int, t.stack_order());
            assert(h1.is_free(g, go) && block_inside(a, k, g, go));
        }
        lemma_reclaim_keeps_released(s.reclaim_top(), h1, a, k);
    }
}

/// Zombie reclamation: two ticks after a task other than the idle task has
/// returned from its entry, its slot is empty and its stack has been given
/// back to the heap.
pub proof fn lemma_zombie_reclaimed(s: SchedulerView, heap: HeapView)
    requires
        s.wf(),
        s.owns_stacks(heap),
        heap.wf(),
        s.has_idle(),
        s.current matches Some(c) && c != 0 && s.task(c).status == TaskStatus::Running,
    ensures
        ({
            let c = s.current->0;
            let exited = s.exit_current();
            let once = exited.tick();
            let twice = once.tick();
            let heap_once = exited.reclaim_heap(heap);
            let heap_twice = once.reclaim_heap(heap_once);
            &&& once.current != Some(c)
            &&& !twice.has_task(c)
            &&& released(heap_twice, s.task(c).stack_base as int, s.task(c).stack_order())
            &&& twice.wf()
            &&& twice.owns_stacks(heap_twice)
            &&& heap_twice.wf()
        }),
{
    let c = s.current->0;
    let exited = s.exit_current();
    s.lemma_exit_current();
    s.lemma_set_status(c, TaskStatus::Terminated);
    assert(exited.zombies.last() == c);
    assert(exited.reclaim_done());
    assert(exited.owns_stacks(heap));
    exited.lemma_tick(heap);
    let once = exited.tick();
    let d = exited.demote();
    assert(d == exited);
    exited.lemma_demote();
    d.lemma_pick();
    if d.ready.len() > 0 {
        assert(d.has_task(d.ready[0]));
        if d.ready.len() > 1 {
            assert(d.has_task(d.ready[1]));
        }
    }
    assert(once.current != Some(c));
    assert(once.zombies == exited.zombies);
    assert(!once.reclaim_done());
    assert(once.has_task(c));
    let base = s.task(c).stack_base as int;
    let order = s.task(c).stack_order();
    assert(once.task(c).stack_base as int == base && once.task(c).stack_order() == order);
    once.lemma_reclaim_top(heap);
    let rest = once.reclaim_top();
    let heap_rest = once.reclaim_top_heap(heap);
    heap.lemma_dealloc(base, order);
    assert(released(heap_rest, base, order)) by {
        let m = heap.merged_addr(base, order);
        let mo = heap.merged_order(base, order);
        assert(heap_rest.is_free(m, mo) && block_inside(base, order, m, mo));
    }
    lemma_reclaim_keeps_released(rest, heap_rest, base, order);
    rest.lemma_reclaim(heap_rest);
    once.lemma_tick(heap);
    let r = once.reclaim();
    assert(r == rest.reclaim());
    assert(!r.has_task(c));
    r.lemma_demote();
    r.demote().lemma_pick();
}

/// No task is blocked, has exited or waits to be reclaimed: every task is
/// Ready or Running.
pub open spec fn all_runnable(s: SchedulerView) -> bool {
    &&& s.wf()
    &&& s.has_idle()
    &&& s.zombies.len() == 0
    &&& forall|id: usize| #[trigger]
        s.has_task(id) ==> s.task(id).status == TaskStatus::Ready || s.task(id).status
            == TaskStatus::Running
}

/// The tasks other than the idle task in the order in which the next ticks
/// pick them: those in the ready queue, then the current one.
pub open spec fn rotation(s: SchedulerView) -> Seq<usize> {
    let waiting = without(s.ready, 0);
    match s.current {
        Some(c) if c != 0 => waiting.push(c),
        _ => waiting,
    }
}

/// The scheduler after `m` ticks.
pub open spec fn ticks(s: SchedulerView, m: nat) -> SchedulerView
    decreases m,
{
    if m == 0 {
        s
    } else {
        ticks(s, (m - 1) as nat).tick()
    }
}

/// How many of the first `m` ticks pick task `id`.
pub open spec fn times_picked(s: SchedulerView, m: nat, id: usize) -> nat
    decreases m,
{
    if m == 0 {
        0
    } else {
        times_picked(s, (m - 1) as nat, id) + (if ticks(s, m).current == Some(id) {
            1nat
        } else {
            0nat
        })
    }
}

/// How `without` treats the head of a queue.
proof fn lemma_without_front(q: Seq<usize>, id: usize)
    requires
        q.len() > 0,
    ensures
        q[0] == id ==> without(q, id) == without(q.drop_first(), id),
        q[0] != id ==> without(q, id) == seq![q[0]] + without(q.drop_first(), id),
    decreases q.len(),
{
    if q.len() == 1 {
        assert(q.drop_last() =~= Seq::<usize>::empty());
        assert(q.drop_first() =~= Seq::<usize>::empty());
        assert(without(Seq::<usize>::empty(), id) =~= Seq::<usize>::empty());
        if q[0] != id {
            assert(Seq::<usize>::empty().push(q.last()) =~= seq![q[0]] + Seq::<usize>::empty());
        }
    } else {
        let front = q.drop_last();
        let rest = q.drop_first();
        lemma_without_front(front, id);
        assert(front.drop_first() =~= rest.drop_last());
        assert(rest.last() == q.last());
        assert(front[0] == q[0]);
        if q.last() != id && q[0] != id {
            assert((seq![q[0]] + without(rest.drop_last(), id)).push(q.last()) =~= seq![q[0]]
                + without(rest.drop_last(), id).push(q.last()));
        }
    }
}

/// A tick of a scheduler whose tasks are all runnable picks the head of the
/// rotation and moves it to the rotation's tail.
pub proof fn lemma_rotation_step(s: SchedulerView)
    requires
        all_runnable(s),
        rotation(s).len() >= 1,
    ensures
        all_runnable(s.tick()),
        s.tick().current == Some(rotation(s)[0]),
        rotation(s.tick()) == rotation(s).drop_first().push(rotation(s)[0]),
        forall|id: usize| #[trigger] s.tick().has_task(id) <==> s.has_task(id),
{
    assert(s.reclaim() == s);
    let d = s.demote();
    let p = d.pick();
    s.lemma_demote();
    d.lemma_pick();
    let q = d.ready;
    assert(without(q, 0) == rotation(s)) by {
        match s.current {
            Some(c) => {
                assert(s.has_task(c));
                assert(q == s.ready.push(c));
                assert(q.drop_last() =~= s.ready);
            },
            None => {},
        }
    }
    lemma_without(q, 0);
    lemma_without_front(q, 0);
    if q[0] != 0 {
        assert((seq![q[0]] + without(q.drop_first(), 0)).drop_first() =~= without(
            q.drop_first(),
            0,
        ));
    } else {
        let rest = q.drop_first();
        lemma_without(rest, 0);
        assert(rest.len() >= 1);
        lemma_without_front(rest, 0);
        assert(q[1] != q[0]);
        assert(rest[0] == q[1]);
        let tail = q.subrange(2, q.len() as int);
        assert(rest.drop_first() =~= tail);
        assert(p.ready == tail.push(0));
        assert(tail.push(0).drop_last() =~= tail);
        assert((seq![q[1]] + without(tail, 0)).drop_first() =~= without(tail, 0));
    }
    assert forall|id: usize| #[trigger] p.has_task(id) implies p.task(id).status
        == TaskStatus::Ready || p.task(id).status == TaskStatus::Running by {
        assert(d.has_task(id));
        assert(s.has_task(id));
    }
}

/// One tick and then `m` are `m + 1` ticks.
proof fn lemma_ticks_shift(s: SchedulerView, m: nat)
    ensures
        ticks(s, m + 1) == ticks(s.tick(), m),
    decreases m,
{
    if m > 0 {
        lemma_ticks_shift(s, (m - 1) as nat);
    } else {
        assert(ticks(s, 1) == ticks(s, 0).tick());
    }
}

/// `a` ticks and then `b` are `a + b` ticks.
proof fn lemma_ticks_add(s: SchedulerView, a: nat, b: nat)
    ensures
        ticks(s, a + b) == ticks(ticks(s, a), b),
    decreases b,
{
    if b > 0 {
        lemma_ticks_add(s, a, (b - 1) as nat);
    }
}

/// The picks of `a + b` ticks are those of the first `a` and of the `b` after them.
proof fn lemma_times_add(s: SchedulerView, a: nat, b: nat, id: usize)
    ensures
        times_picked(s, a + b, id) == times_picked(s, a, id) + times_picked(ticks(s, a), b, id),
    decreases b,
{
    if b > 0 {
        lemma_times_add(s, a, (b - 1) as nat, id);
        lemma_ticks_add(s, a, b);
    }
}

/// A tick that picks the task counts.
proof fn lemma_picked_counts(s: SchedulerView, m: nat, j: nat, id: usize)
    requires
        1 <= j <= m,
        ticks(s, j).current == Some(id),
    ensures
        times_picked(s, m, id) >= 1,
    decreases m,
{
    if j < m {
        lemma_picked_counts(s, (m - 1) as nat, j, id);
    }
}

/// The task at place `i` of the rotation is picked by tick `i + 1`.
proof fn lemma_picked_within(s: SchedulerView, i: nat, id: usize)
    requires
        all_runnable(s),
        i < rotation(s).len(),
        rotation(s)[i as int] == id,
    ensures
        ticks(s, i + 1).current == Some(id),
    decreases i,
{
    lemma_rotation_step(s);
    lemma_ticks_shift(s, i);
    if i > 0 {
        lemma_picked_within(s.tick(), (i - 1) as nat, id);
    }
}

/// Ticks keep every task runnable and the rotation's length and members.
proof fn lemma_rotation_after(s: SchedulerView, m: nat)
    requires
        all_runnable(s),
        rotation(s).len() >= 1,
    ensures
        all_runnable(ticks(s, m)),
        rotation(ticks(s, m)).len() == rotation(s).len(),
        forall|id: usize| #[trigger] ticks(s, m).has_task(id) <==> s.has_task(id),
    decreases m,
{
    if m > 0 {
        lemma_rotation_after(s, (m - 1) as nat);
        lemma_rotation_step(ticks(s, (m - 1) as nat));
    }
}

/// Every runnable task other than the idle task has a place in the rotation.
proof fn lemma_in_rotation(s: SchedulerView, id: usize)
    requires
        all_runnable(s),
        s.has_task(id),
        id != 0,
    ensures
        rotation(s).contains(id),
{
    lemma_without(s.ready, 0);
    let waiting = without(s.ready, 0);
    if s.task(id).status == TaskStatus::Ready {
        assert(waiting.contains(id));
        let i = waiting.index_of(id);
        assert(rotation(s)[i] == id);
    } else {
        assert(s.current == Some(id));
        assert(rotation(s)[waiting.len() as int] == id);
    }
}

/// Fairness: where no task blocks or exits, each of the `n` tasks other than
/// the idle task is picked at least once in every `n` ticks, so at least
/// `m / n` times in `m` ticks.
pub proof fn lemma_fairness(s: SchedulerView, m: nat, id: usize)
    requires
        all_runnable(s),
        s.has_task(id),
        id != 0,
    ensures
        rotation(s).len() >= 1,
        times_picked(s, m, id) >= m / rotation(s).len(),
        times_picked(s, m, id) >= m / rotation(s).len() - 1,
    decreases m,
{
    let n = rotation(s).len();
    lemma_in_rotation(s, id);
    let i = rotation(s).index_of(id);
    if m < n {
        lemma_basic_div(m as int, n as int);
    } else {
        lemma_picked_within(s, i as nat, id);
        lemma_picked_counts(s, n, (i + 1) as nat, id);
        lemma_rotation_after(s, n);
        let later = ticks(s, n);
        lemma_fairness(later, (m - n) as nat, id);
        lemma_times_add(s, n, (m - n) as nat, id);
        lemma_div_plus_one(m - n, n as int);
    }
}

/// Preemption: a tick takes the CPU from the Running task and gives it to
/// another task where there is one besides the idle task, and the preempted
/// task has it back after as many ticks as there are tasks besides the idle
/// task. The preempted task waits Ready at the tail of the ready queue, or
/// just before the idle task where that was the head and has yielded.
pub proof fn lemma_rotates_away_and_back(s: SchedulerView)
    requires
        all_runnable(s),
        s.current matches Some(c) && c != 0,
        rotation(s).len() >= 2,
    ensures
        ({
            let c = s.current->0;
            let n = rotation(s).len();
            let once = s.tick();
            &&& once.current == Some(rotation(s)[0])
            &&& once.current != Some(c)
            &&& once.has_task(c)
            &&& once.task(c).status == TaskStatus::Ready
            &&& once.ready.len() >= 1
            &&& s.ready[0] != 0 ==> once.ready.last() == c
            &&& s.ready[0] == 0 ==> once.ready.len() >= 2 && once.ready.last() == 0
                && once.ready[once.ready.len() - 2] == c
            &&& ticks(s, n).current == Some(c)
        }),
{
    let c = s.current->0;
    let n = rotation(s).len();
    let waiting = without(s.ready, 0);
    lemma_without(s.ready, 0);
    assert(rotation(s) == waiting.push(c));
    assert(rotation(s)[n - 1] == c);
    lemma_picked_within(s, (n - 1) as nat, c);
    lemma_rotation_step(s);
    assert(waiting.contains(waiting[0]));
    let first = waiting[0];
    assert(s.ready.contains(first));
    let at = s.ready.index_of(first);
    assert(s.has_task(s.ready[at]));
    assert(first != c);
    assert(s.reclaim() == s);
    let d = s.demote();
    s.lemma_demote();
    d.lemma_pick();
    assert(s.has_task(c));
    assert(d.ready == s.ready.push(c));
    assert(s.tick().has_task(c));
}

/// Idle non-starvation: a tick does not pick the idle task where another
/// task is Ready or is the Running task that the tick preempts.
pub proof fn lemma_idle_yields(s: SchedulerView, heap: HeapView, id: usize)
    requires
        s.wf(),
        s.owns_stacks(heap),
        heap.wf(),
        s.has_idle(),
        id != 0,
        s.has_task(id),
        s.task(id).status == TaskStatus::Ready || s.task(id).status == TaskStatus::Running,
    ensures
        s.tick().current is Some,
        s.tick().current != Some(0usize),
{
    s.lemma_tick(heap);
}

/// At most one task is Running, and it is the current task.
pub proof fn lemma_one_running(s: SchedulerView, a: usize, b: usize)
    requires
        s.wf(),
        s.has_task(a),
        s.has_task(b),
        s.task(a).status == TaskStatus::Running,
        s.task(b).status == TaskStatus::Running,
    ensures
        a == b,
        s.current == Some(a),
{
}

/// A task in the ready queue is not the Running task, and a Blocked task is
/// in neither queue.
pub proof fn lemma_queues_tell_status(s: SchedulerView, id: usize)
    requires
        s.wf(),
        s.has_task(id),
    ensures
        s.ready.contains(id) <==> s.task(id).status == TaskStatus::Ready,
        s.zombies.contains(id) <==> s.task(id).status == TaskStatus::Terminated,
        s.task(id).status == TaskStatus::Blocked ==> !s.ready.contains(id) && !s.zombies.contains(
            id,
        ),
{
    if s.ready.contains(id) {
        let i = s.ready.index_of(id);
        assert(s.has_task(s.ready[i]));
    }
    if s.zombies.contains(id) {
        let i = s.zombies.index_of(id);
        assert(s.has_task(s.zombies[i]));
    }
}

/// Once boot has picked the first task, some task is current after every
/// event.
pub proof fn lemma_current_stays(s: SchedulerView, events: Seq<SchedulerEvent>)
    requires
        s.current is Some,
    ensures
        scheduler_after(s, events).current is Some,
    decreases events.len(),
{
    if events.len() > 0 {
        lemma_current_stays(s, events.drop_last());
        let before = scheduler_after(s, events.drop_last());
        match events.last() {
            SchedulerEvent::Tick => {
                lemma_reclaim_keeps(before, 0);
            },
            _ => {},
        }
    }
}

} // verus!
