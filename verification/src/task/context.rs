//! The registers that a task keeps across a switch inside the kernel.
use vstd::prelude::*;

verus! {

/// The registers of a task that is suspended inside the kernel: the return
/// address, the stack pointer and the twelve callee-saved registers.
#[derive(Copy, Clone, Debug)]
pub struct TaskContext {
    pub ra: u64,
    pub sp: u64,
    pub s: [u64; 12],
}

impl TaskContext {
    /// The callee-saved registers are all zero.
    pub open spec fn saved_zero(&self) -> bool {
        self.s@ == Seq::new(12, |i: int| 0u64)
    }

    /// The context of all zero registers.
    pub fn zero_init() -> (r: TaskContext)
        ensures
            r.ra == 0,
            r.sp == 0,
            r.saved_zero(),
    {
        let r = TaskContext { ra: 0, sp: 0, s: [0u64; 12] };
        assert(r.s@ =~= Seq::new(12, |i: int| 0u64));
        r
    }

    /// The context of a task that has not run yet: a switch to it returns
    /// to `trap_return`, the address of the code that leaves the kernel, on
    /// the kernel stack with the top `kstack_ptr`.
    pub fn goto_trap_return(kstack_ptr: u64, trap_return: u64) -> (r: TaskContext)
        ensures
            r.ra == trap_return,
            r.sp == kstack_ptr,
            r.saved_zero(),
    {
        let r = TaskContext { ra: trap_return, sp: kstack_ptr, s: [0u64; 12] };
        assert(r.s@ =~= Seq::new(12, |i: int| 0u64));
        r
    }
}

} // verus!
