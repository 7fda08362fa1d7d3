use vstd::prelude::*;
use crate::mm::buddy::order_of;
use crate::mm::layout::Layout;
use crate::task::context::TaskContext;

verus! {

/// Where a task is in its life.
#[derive(Clone, Copy, Debug, PartialEq, Eq, Structural)]
pub enum TaskStatus {
    Ready,
    Running,
    Blocked,
    Terminated,
}

/// What the scheduler keeps of a task.
#[derive(Clone, Copy, Debug)]
pub struct TaskControlBlock {
    pub task_id: usize,
    /// Address of the function that the task runs.
    pub entry_point: usize,
    /// Address of the lowest byte of the task's stack.
    pub stack_base: usize,
    /// The layout that the stack was allocated with, and is released with.
    pub layout: Layout,
    /// Stored for later use; the round-robin policy does not read it.
    pub priority: u8,
    pub status: TaskStatus,
    pub context: TaskContext,
}

impl TaskControlBlock {
    /// The order of the block that holds the task's stack.
    pub open spec fn stack_order(&self) -> nat {
        order_of(self.layout.required())
    }
}

} // verus!
