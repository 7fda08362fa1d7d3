pub mod service;

use vstd::prelude::*;
use crate::bsp::qemu_virt::RISCV_ACLINT_DEFAULT_TIMEBASE_FREQ;

verus! {

/// Bit of `mie` that enables the machine timer interrupt.
pub const MIE_MTIE_MASK: usize = 0x80;

/// Bit of `mie` that enables the machine external interrupt.
pub const MIE_MEIE_MASK: usize = 0x800;

/// Bit of `mstatus` that enables machine interrupts.
pub const MSTATUS_MIE_MASK: usize = 0x8;

/// Which interrupt is pending.
#[derive(Clone, Copy, Debug, PartialEq, Eq, Structural)]
pub enum InterruptCause {
    MachineTimerInterrupt,
    MachineExternalInterrupt,
    Unknown,
}

impl InterruptCause {
    /// What an interrupt code stands for: 7 is the machine timer, 11 the
    /// machine external interrupt.
    pub open spec fn of_code(code: usize) -> InterruptCause {
        if code == 7 {
            InterruptCause::MachineTimerInterrupt
        } else if code == 11 {
            InterruptCause::MachineExternalInterrupt
        } else {
            InterruptCause::Unknown
        }
    }

    #[verifier::when_used_as_spec(of_code)]
    pub fn from_code(code: usize) -> (cause: InterruptCause)
        ensures
            cause == Self::of_code(code),
    {
        match code {
            7 => InterruptCause::MachineTimerInterrupt,
            11 => InterruptCause::MachineExternalInterrupt,
            _ => InterruptCause::Unknown,
        }
    }
}

/// Timer ticks in a second.
pub const TICKS_PER_SECOND: u64 = 100;

/// Cycles of the timer counter between two ticks.
pub const TICK_CYCLES: u64 = RISCV_ACLINT_DEFAULT_TIMEBASE_FREQ / TICKS_PER_SECOND;

/// Machine interrupts are enabled in this value of `mstatus`.
pub open spec fn interrupts_enabled(mstatus: usize) -> bool {
    mstatus & MSTATUS_MIE_MASK != 0
}

/// `mstatus` with machine interrupts disabled, its other bits kept.
pub open spec fn masked(mstatus: usize) -> usize {
    mstatus & !MSTATUS_MIE_MASK
}

/// `mstatus` with machine interrupts enabled, its other bits kept.
pub open spec fn unmasked(mstatus: usize) -> usize {
    mstatus | MSTATUS_MIE_MASK
}

/// `mstatus` after a guard that saved `saved_status` has been released:
/// interrupts are enabled again if they were when the guard was taken.
pub open spec fn restored(mstatus: usize, saved_status: usize) -> usize {
    if interrupts_enabled(saved_status) {
        unmasked(mstatus)
    } else {
        mstatus
    }
}

/// What boot sets in `mstatus` and `mie`: machine interrupts on, and of
/// these the timer and the external interrupt.
pub fn init_machine_interrupts(mstatus: usize, mie: usize) -> (set: (usize, usize))
    ensures
        set.0 == unmasked(mstatus),
        set.1 == mie | MIE_MTIE_MASK | MIE_MEIE_MASK,
{
    (mstatus | MSTATUS_MIE_MASK, mie | MIE_MTIE_MASK | MIE_MEIE_MASK)
}

/// `mstatus` with machine interrupts disabled.
pub fn disable_machine_interrupts(mstatus: usize) -> (new_status: usize)
    ensures
        new_status == masked(mstatus),
        !interrupts_enabled(new_status),
{
    proof {
        lemma_mask_bits(mstatus);
    }
    mstatus & !MSTATUS_MIE_MASK
}

/// What reading `mstatus` and clearing its interrupt-enable bit in one step
/// yields: the value read, and the value left in the register.
pub fn read_and_disable_machine_interrupts(mstatus: usize) -> (read: (usize, usize))
    ensures
        read.0 == mstatus,
        read.1 == masked(mstatus),
        !interrupts_enabled(read.1),
{
    proof {
        lemma_mask_bits(mstatus);
    }
    (mstatus, mstatus & !MSTATUS_MIE_MASK)
}

/// `mstatus` after the release of a guard that saved `saved_status`.
pub fn restore_interrupts(mstatus: usize, saved_status: usize) -> (new_status: usize)
    ensures
        new_status == restored(mstatus, saved_status),
{
    if (saved_status & MSTATUS_MIE_MASK) != 0 {
        mstatus | MSTATUS_MIE_MASK
    } else {
        mstatus
    }
}

/// `mstatus` with machine interrupts enabled.
pub fn enable_machine_interrupts(mstatus: usize) -> (new_status: usize)
    ensures
        new_status == unmasked(mstatus),
        interrupts_enabled(new_status),
{
    proof {
        lemma_mask_bits(mstatus);
    }
    mstatus | MSTATUS_MIE_MASK
}

/// The value to write to the timer-compare register at a tick: one tick
/// period after the counter's value.
pub fn set_mtimecmp(mtime: u64) -> (deadline: u64)
    requires
        mtime + TICK_CYCLES <= u64::MAX,
    ensures
        deadline == mtime + 100_000,
{
    mtime + TICK_CYCLES
}

/// How clearing and setting the interrupt-enable bit act on a value.
proof fn lemma_mask_bits(mstatus: usize)
    by (bit_vector)
    ensures
        (mstatus & !0x8usize) & 0x8usize == 0,
        (mstatus | 0x8usize) & 0x8usize != 0,
        mstatus & 0x8usize != 0 ==> (mstatus & !0x8usize) | 0x8usize == mstatus,
        mstatus & 0x8usize == 0 ==> mstatus & !0x8usize == mstatus,
        mstatus & 0x8usize != 0 ==> mstatus | 0x8usize == mstatus,
{
}

/// Taking a guard masks interrupts.
pub proof fn lemma_acquire_masks(mstatus: usize)
    ensures
        !interrupts_enabled(masked(mstatus)),
{
    lemma_mask_bits(mstatus);
}

/// Releasing a guard right after it was taken restores `mstatus` verbatim.
pub proof fn lemma_release_restores(mstatus: usize)
    ensures
        restored(masked(mstatus), mstatus) == mstatus,
{
    lemma_mask_bits(mstatus);
}

/// A guard taken while interrupts are masked leaves them masked when it is
/// released.
pub proof fn lemma_inner_guard_keeps_mask(mstatus: usize)
    requires
        !interrupts_enabled(mstatus),
    ensures
        masked(mstatus) == mstatus,
        restored(masked(mstatus), mstatus) == mstatus,
        !interrupts_enabled(restored(masked(mstatus), mstatus)),
{
    lemma_mask_bits(mstatus);
}

/// What happens to a lock that masks interrupts.
pub enum GuardEvent {
    /// A guard is taken: `mstatus` is read and its interrupt-enable bit
    /// cleared.
    Acquire,
    /// The guard taken last is released.
    Release,
}

/// `mstatus`, and what the guards that are held have saved (the innermost
/// last), after a sequence of events that starts with no guard held. A
/// release with no guard held does nothing.
pub open spec fn guards_after(mstatus: usize, events: Seq<GuardEvent>) -> (usize, Seq<usize>)
    decreases events.len(),
{
    if events.len() == 0 {
        (mstatus, Seq::empty())
    } else {
        let (now, held) = guards_after(mstatus, events.drop_last());
        match events.last() {
            GuardEvent::Acquire => (masked(now), held.push(now)),
            GuardEvent::Release => if held.len() > 0 {
                (restored(now, held.last()), held.drop_last())
            } else {
                (now, held)
            },
        }
    }
}

/// Lock safety: from the moment a guard is taken until the outermost guard
/// is released, interrupts are masked, so no interrupt handler can run on
/// the hart and reach the guarded data. When no guard is held any more,
/// `mstatus` is what it was.
pub proof fn lemma_masked_while_held(mstatus: usize, events: Seq<GuardEvent>)
    ensures
        guards_after(mstatus, events).1.len() > 0 ==> !interrupts_enabled(
            guards_after(mstatus, events).0,
        ),
        guards_after(mstatus, events).1.len() == 0 ==> guards_after(mstatus, events).0 == mstatus,
{
    lemma_guards(mstatus, events);
}

/// While guards are held, `mstatus` is the first value with interrupts masked, the
/// outermost guard has saved the first value, and the inner guards the masked one.
proof fn lemma_guards(mstatus: usize, events: Seq<GuardEvent>)
    ensures
        ({
            let (now, held) = guards_after(mstatus, events);
            &&& held.len() == 0 ==> now == mstatus
            &&& held.len() > 0 ==> now == masked(mstatus) && held[0] == mstatus
            &&& forall|i: int| 1 <= i < held.len() ==> held[i] == masked(mstatus)
        }),
        !interrupts_enabled(masked(mstatus)),
    decreases events.len(),
{
    lemma_mask_bits(mstatus);
    lemma_mask_bits(masked(mstatus));
    if events.len() > 0 {
        lemma_guards(mstatus, events.drop_last());
    }
}

} // verus!
