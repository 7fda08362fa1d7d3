use charlotte_os::system::SystemControl;
use charlotte_os::bsp::qemu_virt::QemuVirt;
use charlotte_os::mm::buddy::BuddySystemAllocator;
use charlotte_os::task::context::TaskContext;
use charlotte_os::task::scheduler::{Scheduler, SchedulerError};
use charlotte_os::task::tcb::TaskStatus;
use charlotte_os::trap::{trap_handler, TrapAction};

const BASE: usize = 0x8000_0000;
const TRAMPOLINE: usize = 0x8000_1234;
const IDLE: usize = 0x8000_2000;
const TASK_A: usize = 0x8000_3000;
const TASK_B: usize = 0x8000_4000;
const TIMER: usize = (1usize << (usize::BITS - 1)) | 7;

fn heap_of(bytes: usize) -> BuddySystemAllocator {
    let mut heap = BuddySystemAllocator::new();
    heap.init(BASE, BASE + bytes);
    heap
}

fn free_lists(heap: &BuddySystemAllocator) -> Vec<Vec<usize>> {
    (0..16).map(|k| heap.free_blocks(k)).collect()
}

fn booted(bytes: usize) -> (Scheduler, BuddySystemAllocator) {
    let mut heap = heap_of(bytes);
    let mut scheduler = Scheduler::new();
    scheduler.init(&mut heap, TRAMPOLINE, IDLE).unwrap();
    (scheduler, heap)
}

#[test]
fn new_scheduler_has_no_tasks() {
    let scheduler = Scheduler::new();
    assert_eq!(scheduler.current_task_id(), None);
    assert!(scheduler.ready_ids().is_empty());
    assert!(scheduler.zombie_ids().is_empty());
    assert!(scheduler.task(0).is_none());
}

#[test]
fn init_registers_idle_as_task_zero() {
    let (scheduler, _heap) = booted(0x10000);
    let idle = scheduler.task(0).unwrap();
    assert_eq!(idle.task_id, 0);
    assert_eq!(idle.entry_point, IDLE);
    assert_eq!(idle.priority, 0);
    assert_eq!(idle.status, TaskStatus::Ready);
    assert_eq!(idle.layout.size(), 4096);
    assert_eq!(idle.layout.align(), 16);
    assert_eq!(scheduler.ready_ids(), vec![0]);
    assert_eq!(scheduler.current_task_id(), None);
}

#[test]
fn spawn_sets_up_stack_and_registers() {
    let (mut scheduler, mut heap) = booted(0x10000);
    scheduler.spawn(&mut heap, TRAMPOLINE, TASK_A, 8192, 3).unwrap();
    let tcb = scheduler.task(1).unwrap();
    assert_eq!(tcb.task_id, 1);
    assert_eq!(tcb.entry_point, TASK_A);
    assert_eq!(tcb.priority, 3);
    assert_eq!(tcb.status, TaskStatus::Ready);
    assert_eq!(tcb.layout.size(), 8192);
    assert_eq!(tcb.stack_base % 8192, 0);
    let expected = TaskContext {
        sp: tcb.stack_base + 8192,
        ra: TRAMPOLINE,
        a0: TASK_A,
        mepc: TRAMPOLINE,
        ..TaskContext::zero()
    };
    assert_eq!(tcb.context, expected);
    assert_eq!(scheduler.context(1), Some(expected));
    assert_eq!(scheduler.ready_ids(), vec![0, 1]);
}

#[test]
fn stack_top_is_rounded_down_to_sixteen() {
    let (mut scheduler, mut heap) = booted(0x10000);
    scheduler.spawn(&mut heap, TRAMPOLINE, TASK_A, 5000, 1).unwrap();
    let tcb = scheduler.task(1).unwrap();
    assert_eq!(tcb.context.sp, (tcb.stack_base + 5000) & !0xF);
    assert_eq!(tcb.context.sp, tcb.stack_base + 4992);
}

#[test]
fn register_file_is_laid_out_by_offset() {
    let mut words = [0usize; 31];
    for (i, w) in words.iter_mut().enumerate() {
        *w = 100 + i;
    }
    let ctx = TaskContext::from_words(&words);
    assert_eq!(ctx.ra, 100);
    assert_eq!(ctx.sp, 101);
    assert_eq!(ctx.tp, 102);
    assert_eq!(ctx.t0, 103);
    assert_eq!(ctx.s0, 106);
    assert_eq!(ctx.a0, 108);
    assert_eq!(ctx.a7, 115);
    assert_eq!(ctx.s2, 116);
    assert_eq!(ctx.s11, 125);
    assert_eq!(ctx.t3, 126);
    assert_eq!(ctx.t6, 129);
    assert_eq!(ctx.mepc, 130);
    assert_eq!(ctx.to_words(), words);
    assert_eq!(8 * 29, 232);
    assert_eq!(8 * 30, charlotte_os::task::context::MEPC_OFFSET);
}

#[test]
fn zero_context_has_every_register_zero() {
    let z = TaskContext::zero();
    let all = [
        z.ra, z.sp, z.tp, z.t0, z.t1, z.t2, z.s0, z.s1, z.a0, z.a1, z.a2, z.a3, z.a4, z.a5, z.a6,
        z.a7, z.s2, z.s3, z.s4, z.s5, z.s6, z.s7, z.s8, z.s9, z.s10, z.s11, z.t3, z.t4, z.t5,
        z.t6, z.mepc,
    ];
    assert_eq!(all.len(), 31);
    assert!(all.iter().all(|r| *r == 0));
}

#[test]
fn spawn_with_size_that_makes_no_layout_fails() {
    let (mut scheduler, mut heap) = booted(0x10000);
    let before = free_lists(&heap);
    let r = scheduler.spawn(&mut heap, TRAMPOLINE, TASK_A, isize::MAX as usize - 14, 1);
    assert!(matches!(r, Err(SchedulerError::SchedulerLayoutError(_))));
    assert!(scheduler.task(1).is_none());
    assert_eq!(scheduler.ready_ids(), vec![0]);
    assert_eq!(free_lists(&heap), before);
}

#[test]
fn spawn_failure() {
    // A heap of 8 KiB, half of it in use for the idle task's stack.
    let (mut scheduler, mut heap) = booted(0x2000);
    let tasks_before = scheduler.task(0).unwrap();
    let ready_before = scheduler.ready_ids();
    let lists_before = free_lists(&heap);
    let r = scheduler.spawn(&mut heap, TRAMPOLINE, TASK_A, 16384, 1);
    assert!(matches!(r, Err(SchedulerError::MemoryAllocationError)));
    assert!(scheduler.task(1).is_none());
    assert_eq!(scheduler.task(0).unwrap().context, tasks_before.context);
    assert_eq!(scheduler.ready_ids(), ready_before);
    assert_eq!(free_lists(&heap), lists_before);
}

#[test]
fn init_without_memory_fails() {
    let mut heap = BuddySystemAllocator::new();
    let mut scheduler = Scheduler::new();
    let r = scheduler.init(&mut heap, TRAMPOLINE, IDLE);
    assert!(matches!(r, Err(SchedulerError::MemoryAllocationError)));
    assert!(scheduler.task(0).is_none());
}

#[test]
fn boot_hello_shutdown() {
    let (mut scheduler, mut heap) = booted(0x10000);
    let first = scheduler.run_scheduler(&mut heap);
    assert_eq!(first, 0);
    assert_eq!(scheduler.current_task_id(), Some(0));
    assert_eq!(scheduler.task(0).unwrap().status, TaskStatus::Running);
    let outcome = trap_handler(&mut scheduler, &mut heap, 0x8000_0040, TIMER, 5000);
    assert_eq!(outcome.mepc, 0x8000_0040);
    assert_eq!(outcome.action, TrapAction::Reschedule { deadline: 105_000, next: 0 });
    assert_eq!(scheduler.current_task_id(), Some(0));
    assert!(scheduler.ready_ids().is_empty());
    assert_eq!(QemuVirt.shutdown(), 0x5555);
}

#[test]
fn two_tasks_alternate() {
    let untouched = free_lists(&heap_of(0x100000));
    let (mut scheduler, mut heap) = booted(0x100000);
    scheduler.spawn(&mut heap, TRAMPOLINE, TASK_A, 8192, 1).unwrap();
    scheduler.spawn(&mut heap, TRAMPOLINE, TASK_B, 8192, 1).unwrap();
    let mut picked = vec![scheduler.run_scheduler(&mut heap)];
    for _ in 0..7 {
        picked.push(scheduler.schedule_on_interrupt(&mut heap));
    }
    assert_eq!(picked, vec![1, 2, 1, 2, 1, 2, 1, 2]);
    // B, the current task, finishes.
    scheduler.exit_current_task();
    assert_eq!(scheduler.task(2).unwrap().status, TaskStatus::Terminated);
    assert_eq!(scheduler.zombie_ids(), vec![2]);
    assert_eq!(scheduler.schedule_on_interrupt(&mut heap), 1);
    // B was current when that tick reclaimed, so it is still there.
    assert!(scheduler.task(2).is_some());
    // A finishes.
    scheduler.exit_current_task();
    assert_eq!(scheduler.zombie_ids(), vec![2, 1]);
    assert_eq!(scheduler.schedule_on_interrupt(&mut heap), 0);
    assert_eq!(scheduler.zombie_ids(), vec![2, 1]);
    // The next tick reclaims both; the scheduler stays with the idle task.
    assert_eq!(scheduler.schedule_on_interrupt(&mut heap), 0);
    assert!(scheduler.zombie_ids().is_empty());
    assert!(scheduler.task(1).is_none());
    assert!(scheduler.task(2).is_none());
    assert_eq!(scheduler.task(0).unwrap().status, TaskStatus::Running);
    // Only the idle task's stack is still in use: with it released, the
    // heap is as it was before boot.
    let idle = scheduler.task(0).unwrap();
    heap.dealloc(idle.stack_base, idle.layout);
    assert_eq!(free_lists(&heap), untouched);
}

#[test]
fn preempt_the_trampoline() {
    let (mut scheduler, mut heap) = booted(0x100000);
    scheduler.spawn(&mut heap, TRAMPOLINE, TASK_A, 8192, 1).unwrap();
    scheduler.spawn(&mut heap, TRAMPOLINE, TASK_B, 8192, 1).unwrap();
    let looping = scheduler.run_scheduler(&mut heap);
    assert_eq!(looping, 1);
    scheduler.mark_current_running();
    let marker = scheduler.schedule_on_interrupt(&mut heap);
    assert_eq!(marker, 2);
    assert_eq!(scheduler.task(1).unwrap().status, TaskStatus::Ready);
    let back = scheduler.schedule_on_interrupt(&mut heap);
    assert_eq!(back, looping);
    assert_eq!(scheduler.task(1).unwrap().status, TaskStatus::Running);
}

#[test]
fn idle_yields_to_ready_task() {
    let (mut scheduler, mut heap) = booted(0x100000);
    assert_eq!(scheduler.run_scheduler(&mut heap), 0);
    scheduler.spawn(&mut heap, TRAMPOLINE, TASK_A, 4096, 1).unwrap();
    // The queue is [1]; idle, preempted, goes behind it.
    assert_eq!(scheduler.schedule_on_interrupt(&mut heap), 1);
    assert_eq!(scheduler.ready_ids(), vec![0]);
    // The queue is [0, 1] after the demotion: idle is the head and yields.
    assert_eq!(scheduler.schedule_on_interrupt(&mut heap), 1);
    assert_eq!(scheduler.ready_ids(), vec![0]);
    assert_eq!(scheduler.task(0).unwrap().status, TaskStatus::Ready);
}

#[test]
fn fairness_over_many_ticks() {
    let (mut scheduler, mut heap) = booted(0x100000);
    let n = 5usize;
    for i in 0..n {
        scheduler.spawn(&mut heap, TRAMPOLINE, TASK_A + i, 4096, 1).unwrap();
    }
    let m = 23usize;
    let mut times = vec![0usize; n + 1];
    times[scheduler.run_scheduler(&mut heap)] += 1;
    for _ in 1..m {
        times[scheduler.schedule_on_interrupt(&mut heap)] += 1;
    }
    assert_eq!(times[0], 0);
    for id in 1..=n {
        assert!(times[id] >= m / n);
        assert!(times[id] <= m / n + 1);
    }
}

#[test]
fn zombie_is_reclaimed_within_two_ticks() {
    let (mut scheduler, mut heap) = booted(0x100000);
    scheduler.spawn(&mut heap, TRAMPOLINE, TASK_A, 8192, 1).unwrap();
    let with_idle_only = {
        let (_s, h) = booted(0x100000);
        free_lists(&h)
    };
    assert_eq!(scheduler.run_scheduler(&mut heap), 1);
    assert_ne!(free_lists(&heap), with_idle_only);
    scheduler.exit_current_task();
    assert_eq!(scheduler.schedule_on_interrupt(&mut heap), 0);
    assert!(scheduler.task(1).is_some());
    assert_eq!(scheduler.schedule_on_interrupt(&mut heap), 0);
    assert!(scheduler.task(1).is_none());
    assert!(scheduler.zombie_ids().is_empty());
    assert_eq!(free_lists(&heap), with_idle_only);
}

#[test]
fn slot_of_reclaimed_task_is_used_again() {
    let (mut scheduler, mut heap) = booted(0x100000);
    scheduler.spawn(&mut heap, TRAMPOLINE, TASK_A, 4096, 1).unwrap();
    scheduler.spawn(&mut heap, TRAMPOLINE, TASK_B, 4096, 1).unwrap();
    assert_eq!(scheduler.run_scheduler(&mut heap), 1);
    scheduler.exit_current_task();
    assert_eq!(scheduler.schedule_on_interrupt(&mut heap), 2);
    assert_eq!(scheduler.schedule_on_interrupt(&mut heap), 2);
    assert!(scheduler.task(1).is_none());
    scheduler.spawn(&mut heap, TRAMPOLINE, 0x8000_5000, 4096, 2).unwrap();
    let reused = scheduler.task(1).unwrap();
    assert_eq!(reused.task_id, 1);
    assert_eq!(reused.entry_point, 0x8000_5000);
    assert!(scheduler.task(3).is_none());
}

#[test]
fn context_survives_preemption() {
    let (mut scheduler, mut heap) = booted(0x100000);
    scheduler.spawn(&mut heap, TRAMPOLINE, TASK_A, 4096, 1).unwrap();
    scheduler.spawn(&mut heap, TRAMPOLINE, TASK_B, 4096, 1).unwrap();
    assert_eq!(scheduler.run_scheduler(&mut heap), 1);
    let mut regs = scheduler.context(1).unwrap();
    regs.s2 = 0xdead_beef;
    regs.s11 = 42;
    regs.sp -= 64;
    scheduler.save_context(regs);
    assert_eq!(scheduler.schedule_on_interrupt(&mut heap), 2);
    let mut other = scheduler.context(2).unwrap();
    other.s2 = 7;
    scheduler.save_context(other);
    scheduler.spawn(&mut heap, TRAMPOLINE, 0x8000_5000, 4096, 1).unwrap();
    assert_eq!(scheduler.schedule_on_interrupt(&mut heap), 1);
    assert_eq!(scheduler.context(1), Some(regs));
    assert_eq!(scheduler.context(2), Some(other));
}

#[test]
fn mark_current_running_keeps_a_running_task() {
    let (mut scheduler, mut heap) = booted(0x100000);
    scheduler.mark_current_running();
    assert_eq!(scheduler.task(0).unwrap().status, TaskStatus::Ready);
    scheduler.run_scheduler(&mut heap);
    scheduler.mark_current_running();
    assert_eq!(scheduler.task(0).unwrap().status, TaskStatus::Running);
    assert_eq!(scheduler.current_task_id(), Some(0));
}

#[test]
fn exit_without_current_task_changes_nothing() {
    let (mut scheduler, _heap) = booted(0x100000);
    scheduler.exit_current_task();
    assert!(scheduler.zombie_ids().is_empty());
    assert_eq!(scheduler.task(0).unwrap().status, TaskStatus::Ready);
}

#[test]
fn bookkeeping_stays_consistent() {
    let (mut scheduler, mut heap) = booted(0x100000);
    assert!(Scheduler::new().is_consistent(&heap_of(0x1000)));
    assert!(scheduler.is_consistent(&heap));
    assert!(scheduler.has_idle());
    scheduler.spawn(&mut heap, TRAMPOLINE, TASK_A, 8192, 1).unwrap();
    scheduler.spawn(&mut heap, TRAMPOLINE, TASK_B, 4096, 1).unwrap();
    assert!(scheduler.is_consistent(&heap));
    scheduler.run_scheduler(&mut heap);
    assert!(scheduler.is_consistent(&heap));
    for _ in 0..5 {
        scheduler.schedule_on_interrupt(&mut heap);
        assert!(scheduler.is_consistent(&heap));
        assert!(heap.is_consistent());
    }
    scheduler.exit_current_task();
    assert!(scheduler.is_consistent(&heap));
    scheduler.schedule_on_interrupt(&mut heap);
    scheduler.schedule_on_interrupt(&mut heap);
    assert!(scheduler.is_consistent(&heap));
    assert!(heap.is_consistent());
    assert!(scheduler.has_idle());
}

#[test]
fn broken_bookkeeping_is_seen_by_the_consistency_test() {
    let (mut scheduler, mut heap) = booted(0x100000);
    scheduler.spawn(&mut heap, TRAMPOLINE, TASK_A, 8192, 1).unwrap();
    scheduler.run_scheduler(&mut heap);
    // A stack released behind the scheduler's back.
    let stack = scheduler.task(1).unwrap();
    let mut robbed = heap_of(0x100000);
    assert!(!scheduler.is_consistent(&robbed));
    assert!(robbed.allocate(stack.layout).is_some());
    // A task that exits twice is on the zombie stack twice.
    scheduler.exit_current_task();
    assert!(scheduler.is_consistent(&heap));
    scheduler.exit_current_task();
    assert_eq!(scheduler.zombie_ids(), vec![1, 1]);
    assert!(!scheduler.is_consistent(&heap));
}

#[test]
fn idle_that_exits_is_missed() {
    let (mut scheduler, mut heap) = booted(0x100000);
    assert!(!Scheduler::new().has_idle());
    assert!(scheduler.has_idle());
    assert_eq!(scheduler.run_scheduler(&mut heap), 0);
    scheduler.exit_current_task();
    assert!(!scheduler.has_idle());
}
