pub mod interrupts;

use vstd::prelude::*;
use crate::mm::buddy::BuddySystemAllocator;
use crate::task::context::TaskContext;
use crate::task::scheduler::Scheduler;
use crate::trap::interrupts::{set_mtimecmp, InterruptCause, TICK_CYCLES};

verus! {

/// Why the hart trapped.
#[derive(Clone, Copy, Debug, PartialEq, Eq, Structural)]
pub enum TrapCause {
    Interrupt(InterruptCause),
    Exception(ExceptionCause),
}

/// A synchronous exception; none is told apart yet.
#[derive(Clone, Copy, Debug, PartialEq, Eq, Structural)]
pub enum ExceptionCause {
    Unknown,
}

/// The highest bit of the cause register is set: the trap is an interrupt.
pub open spec fn is_interrupt(mcause: usize) -> bool {
    mcause > usize::MAX / 2
}

/// The cause register without its highest bit.
pub open spec fn cause_code(mcause: usize) -> usize {
    if is_interrupt(mcause) {
        (mcause - usize::MAX / 2 - 1) as usize
    } else {
        mcause
    }
}

/// What a value of the cause register stands for.
pub open spec fn trap_cause_of(mcause: usize) -> TrapCause {
    if is_interrupt(mcause) {
        TrapCause::Interrupt(InterruptCause::of_code(cause_code(mcause)))
    } else {
        TrapCause::Exception(ExceptionCause::Unknown)
    }
}

/// Decodes the cause register: the highest bit tells interrupts from
/// exceptions, the other bits are the code.
pub fn parse_trap_cause(mcause: usize) -> (cause: TrapCause)
    ensures
        cause == trap_cause_of(mcause),
{
    let low_bits: usize = usize::MAX / 2;
    if mcause > low_bits {
        let code = mcause - low_bits - 1;
        TrapCause::Interrupt(InterruptCause::from_code(code))
    } else {
        TrapCause::Exception(ExceptionCause::Unknown)
    }
}

/// The value of the trap-vector register for a trap entry at `entry`: the
/// address with its two low bits clear, which select direct mode.
pub fn trap_vector(entry: usize) -> (mtvec: usize)
    ensures
        mtvec == entry - entry % 4,
        mtvec % 4 == 0,
{
    proof {
        lemma_clear_low_bits(entry);
    }
    entry & !0x3
}

proof fn lemma_clear_low_bits(x: usize)
    by (bit_vector)
    ensures
        x & !0x3usize == x - x % 4,
{
}

/// What is left to do with the devices once the dispatcher has decided.
#[derive(Clone, Copy, Debug, PartialEq, Eq, Structural)]
pub enum TrapAction {
    /// A timer tick: write `deadline` to the timer-compare register, and
    /// restore the register file of task `next`.
    Reschedule { deadline: u64, next: usize },
    /// An external interrupt: claim the request from the interrupt
    /// controller, serve it, and complete it.
    ServiceExternal,
    /// An interrupt of a cause that is not served; it is reported.
    UnknownInterrupt,
    /// An exception; it is reported.
    UnknownException,
}

/// What the dispatcher hands back to the trap entry.
#[derive(Clone, Copy, Debug, PartialEq, Eq, Structural)]
pub struct TrapOutcome {
    /// The program counter at which the task that is resumed goes on.
    pub mepc: usize,
    pub action: TrapAction,
}

/// The trap is the machine timer interrupt.
pub open spec fn is_timer_tick(mcause: usize) -> bool {
    trap_cause_of(mcause) == TrapCause::Interrupt(InterruptCause::MachineTimerInterrupt)
}

/// The dispatcher: classifies the trap and runs its service. A timer tick
/// rearms the timer one tick period after `mtime` and lets the scheduler pick
/// the next task; every other trap leaves scheduler and heap as they are.
/// The program counter handed back is the one received: it is that of the
/// interrupted task, and the one to return to where that task goes on.
/// Where the scheduler has picked another task, `trap_entry` replaces it by
/// the program counter saved in that task's register file.
pub fn trap_handler(
    scheduler: &mut Scheduler,
    heap: &mut BuddySystemAllocator,
    mepc: usize,
    mcause: usize,
    mtime: u64,
) -> (outcome: TrapOutcome)
    requires
        is_timer_tick(mcause) ==> {
            &&& old(scheduler)@.wf()
            &&& old(heap)@.wf()
            &&& old(scheduler)@.owns_stacks(old(heap)@)
            &&& old(scheduler)@.has_idle()
            &&& mtime + TICK_CYCLES <= u64::MAX
        },
    ensures
        outcome.mepc == mepc,
        match trap_cause_of(mcause) {
            TrapCause::Interrupt(InterruptCause::MachineTimerInterrupt) => {
                &&& final(scheduler)@ == old(scheduler)@.tick()
                &&& final(heap)@ == old(scheduler)@.reclaim_heap(old(heap)@)
                &&& outcome.action matches TrapAction::Reschedule { deadline, next }
                    && deadline == mtime + 100_000 && final(scheduler)@.current == Some(next)
                &&& final(scheduler)@.wf()
                &&& final(heap)@.wf()
                &&& final(scheduler)@.owns_stacks(final(heap)@)
                &&& final(scheduler)@.has_idle()
            },
            TrapCause::Interrupt(InterruptCause::MachineExternalInterrupt) => {
                &&& outcome.action == TrapAction::ServiceExternal
                &&& *final(scheduler) == *old(scheduler)
                &&& *final(heap) == *old(heap)
            },
            TrapCause::Interrupt(InterruptCause::Unknown) => {
                &&& outcome.action == TrapAction::UnknownInterrupt
                &&& *final(scheduler) == *old(scheduler)
                &&& *final(heap) == *old(heap)
            },
            TrapCause::Exception(ExceptionCause::Unknown) => {
                &&& outcome.action == TrapAction::UnknownException
                &&& *final(scheduler) == *old(scheduler)
                &&& *final(heap) == *old(heap)
            },
        },
{
    let action = match parse_trap_cause(mcause) {
        TrapCause::Interrupt(InterruptCause::MachineTimerInterrupt) => {
            let deadline = set_mtimecmp(mtime);
            let next = scheduler.schedule_on_interrupt(heap);
            TrapAction::Reschedule { deadline, next }
        },
        TrapCause::Interrupt(InterruptCause::MachineExternalInterrupt) => {
            TrapAction::ServiceExternal
        },
        TrapCause::Interrupt(InterruptCause::Unknown) => TrapAction::UnknownInterrupt,
        TrapCause::Exception(ExceptionCause::Unknown) => TrapAction::UnknownException,
    };
    TrapOutcome { mepc, action }
}

/// The registers of a task that trapped at `mepc`: its register file with
/// the saved program counter set.
pub open spec fn interrupted_at(registers: TaskContext, mepc: usize) -> TaskContext {
    TaskContext { mepc, ..registers }
}

/// What the trap entry does between the trap and the return from it, on
/// the registers as values. `registers`, the registers of the interrupted
/// task, are stored in that task's register file together with `mepc`, the
/// program counter at which it was interrupted. The dispatcher runs. The
/// registers and the program counter handed back are those of the task that
/// is current then. After a timer tick that is the task picked by the
/// scheduler: it resumes where it was preempted, with the registers it had,
/// or starts in the trampoline if it has not run yet. After any other trap
/// it is the interrupted task, which goes on at `mepc`.
pub fn trap_entry(
    scheduler: &mut Scheduler,
    heap: &mut BuddySystemAllocator,
    registers: TaskContext,
    mepc: usize,
    mcause: usize,
    mtime: u64,
) -> (resumed: (TaskContext, TrapOutcome))
    requires
        old(scheduler)@.wf(),
        is_timer_tick(mcause) ==> {
            &&& old(heap)@.wf()
            &&& old(scheduler)@.owns_stacks(old(heap)@)
            &&& old(scheduler)@.has_idle()
            &&& mtime + TICK_CYCLES <= u64::MAX
        },
    ensures
        final(scheduler)@.wf(),
        resumed.1.mepc == resumed.0.mepc,
        is_timer_tick(mcause) ==> {
            let saved = old(scheduler)@.save_context(interrupted_at(registers, mepc));
            &&& final(scheduler)@ == saved.tick()
            &&& final(heap)@ == saved.reclaim_heap(old(heap)@)
            &&& resumed.1.action matches TrapAction::Reschedule { deadline, next } && {
                &&& deadline == mtime + 100_000
                &&& final(scheduler)@.current == Some(next)
                &&& final(scheduler)@.has_task(next)
                &&& saved.has_task(next)
                &&& resumed.0 == saved.task(next).context
                &&& resumed.1.mepc == saved.task(next).context.mepc
                &&& old(scheduler)@.current == Some(next) ==> resumed.1.mepc == mepc
            }
            &&& final(heap)@.wf()
            &&& final(scheduler)@.owns_stacks(final(heap)@)
            &&& final(scheduler)@.has_idle()
        },
        !is_timer_tick(mcause) ==> {
            &&& final(scheduler)@ == old(scheduler)@.save_context(interrupted_at(registers, mepc))
            &&& *final(heap) == *old(heap)
            &&& resumed.0 == interrupted_at(registers, mepc)
            &&& resumed.1.mepc == mepc
            &&& resumed.1.action == (match trap_cause_of(mcause) {
                TrapCause::Interrupt(InterruptCause::MachineExternalInterrupt)
                    => TrapAction::ServiceExternal,
                TrapCause::Interrupt(_) => TrapAction::UnknownInterrupt,
                TrapCause::Exception(_) => TrapAction::UnknownException,
            })
        },
{
    let stored = TaskContext { mepc, ..registers };
    scheduler.save_context(stored);
    let ghost saved = scheduler@;
    let outcome = trap_handler(scheduler, heap, mepc, mcause, mtime);
    proof {
        if is_timer_tick(mcause) {
            saved.lemma_tick(old(heap)@);
        }
    }
    let restored = match outcome.action {
        TrapAction::Reschedule { deadline, next } => {
            match scheduler.context(next) {
                Some(context) => context,
                None => stored,
            }
        },
        _ => stored,
    };
    (restored, TrapOutcome { mepc: restored.mepc, action: outcome.action })
}

} // verus!
