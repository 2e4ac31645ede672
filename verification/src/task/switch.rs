//! The switch from one task to another inside the kernel.
use vstd::prelude::*;
use crate::task::context::TaskContext;

verus! {

/// What a switch makes of the registers of the processor and of the saved
/// context of the task that runs: the processor gets the registers of the
/// next task, and the context of the current task gets those of the
/// processor.
pub open spec fn switched(cpu: TaskContext, next: TaskContext) -> (TaskContext, TaskContext) {
    (next, cpu)
}

/// Switches the processor from the task that runs to another: the
/// registers of the processor, `cpu`, are saved in the context of the
/// current task, and those of the next task are loaded from its context.
/// Neither a trap context nor the active page table is touched.
pub fn __switch(
    cpu: &mut TaskContext,
    current_task_cx: &mut TaskContext,
    next_task_cx: &TaskContext,
)
    ensures
        (*final(cpu), *final(current_task_cx)) == switched(*old(cpu), *next_task_cx),
{
    *current_task_cx = *cpu;
    *cpu = *next_task_cx;
}

/// A task that was switched away from and is switched to again finds the
/// registers of the processor as they were, whatever the other task has
/// made of them in between: to the task, the switch has returned like a
/// call.
pub proof fn lemma_switch_returns(cpu: TaskContext, other: TaskContext, between: TaskContext)
    ensures
        switched(between, switched(cpu, other).1).0 == cpu,
        switched(between, switched(cpu, other).1).1 == between,
{
}

} // verus!
