//! The core of a small preemptive kernel for a single RISC-V hart in machine
//! mode, as a library of verified functions on plain values.
//!
//! - [`mm`]: a buddy allocator over the addresses of a region of memory.
//!   Its free lists are stacks of block addresses; `mm::model` holds their
//!   mathematics and `mm::laws` what follows for whole runs of the allocator.
//! - [`task`]: task control blocks and the round-robin scheduler. It keeps
//!   the register file of every task and decides, at each timer tick, which
//!   task runs next; `task::laws` holds what follows for whole runs.
//! - [`trap`]: the decoding of trap causes, the dispatcher, and what the
//!   interrupt-masking lock does to the status register.
//! - [`data_struct`]: a bounded ring buffer.
//! - [`bsp`], [`driver`], [`system`]: the constants of the board and the
//!   decisions of its device drivers.
//!
//! Nothing here touches a device or a control register: a caller reads the
//! registers, hands the values in, and writes back what it gets.

pub mod bsp;
pub mod data_struct;
pub mod driver;
pub mod mm;
pub mod system;
pub mod task;
pub mod trap;
