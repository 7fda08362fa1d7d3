use vstd::prelude::*;
use crate::system::SystemControl;

verus! {

pub const UART_BASE: usize = 0x1000_0000;

pub const CLINT_BASE: usize = 0x200_0000;

pub const MTIME_OFFSET: usize = 0xBFF8;

/// Address of the 64-bit timer counter.
pub const MTIME_ADDR: usize = CLINT_BASE + MTIME_OFFSET;

pub const MTIMECMP_OFFSET: usize = 0x4000;

/// Address of the timer-compare register of hart 0.
pub const MTIMECMP_BASE: usize = CLINT_BASE + MTIMECMP_OFFSET;

/// Frequency of the timer counter, in Hz.
pub const RISCV_ACLINT_DEFAULT_TIMEBASE_FREQ: u64 = 10_000_000;

// Offsets of the UART's registers from its base address.
/// Receive holding register (read mode).
pub const RHR: usize = 0;

/// Transmit holding register (write mode).
pub const THR: usize = 0;

/// Low byte of the divisor latch (write mode).
pub const DLL: usize = 0;

/// Interrupt enable register (write mode).
pub const IER: usize = 1;

/// High byte of the divisor latch (write mode).
pub const DLM: usize = 1;

/// FIFO control register (write mode).
pub const FCR: usize = 2;

/// Interrupt status register (read mode).
pub const ISR: usize = 2;

/// Line control register.
pub const LCR: usize = 3;

/// Modem control register.
pub const MCR: usize = 4;

/// Line status register.
pub const LSR: usize = 5;

/// Modem status register.
pub const MSR: usize = 6;

/// Scratch-pad register.
pub const SPR: usize = 7;

/// Interrupt request number of the first UART.
pub const UART0_IRQ: u32 = 10;

/// Address of the finisher device: a 32-bit store to it ends the run.
pub const VIRT_TEST_ADDR: usize = 0x10_0000;

pub const FINISHER_FAIL: u16 = 0x3333;

pub const FINISHER_PASS: u16 = 0x5555;

pub const FINISHER_RESET: u16 = 0x7777;

/// Byte offset of a hart's slot in an array of 64-bit per-hart registers.
pub fn hart_slot_offset(hart_id: i8) -> (offset: usize)
    requires
        hart_id >= 0,
    ensures
        offset == 8 * hart_id,
{
    let hart: usize = hart_id as usize;
    hart * 8
}

/// Address of the timer-compare register of hart `hart_id`.
pub fn get_mtimecmp_addr(hart_id: i8) -> (addr: usize)
    requires
        hart_id >= 0,
    ensures
        addr == CLINT_BASE + 0x4000 + 8 * hart_id,
{
    MTIMECMP_BASE + hart_slot_offset(hart_id)
}

/// The virtual board.
#[derive(Clone, Copy, Debug)]
pub struct QemuVirt;

/// The value whose low half is the finisher's fail code and whose high half
/// is the status.
pub open spec fn fail_word(status_code: u16) -> int {
    status_code * 0x1_0000 + 0x3333
}

proof fn lemma_fail_word(status: u32)
    by (bit_vector)
    requires
        status <= 0xffff,
    ensures
        (status << 16) | 0x3333u32 == status * 0x1_0000 + 0x3333,
{
}

impl SystemControl for QemuVirt {
    open spec fn shutdown_word(&self) -> u32 {
        0x5555
    }

    open spec fn reboot_word(&self) -> u32 {
        0x7777
    }

    fn shutdown(&self) -> (word: u32) {
        FINISHER_PASS as u32
    }

    fn reboot(&self) -> (word: u32) {
        FINISHER_RESET as u32
    }
}

impl QemuVirt {
    /// The word that, stored to the finisher, ends the run as failed with
    /// the given status.
    pub fn fail_word(&self, status_code: u16) -> (word: u32)
        ensures
            word == fail_word(status_code),
    {
        let status: u32 = status_code as u32;
        proof {
            lemma_fail_word(status);
        }
        (status << 16) | (FINISHER_FAIL as u32)
    }
}

} // verus!
