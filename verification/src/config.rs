//! Fixed parameters of the machine and of the memory layout.
use vstd::prelude::*;

verus! {

/// Size of a page in bytes.
pub const PAGE_SIZE: u64 = 0x1000;

/// Size in bytes of the stack of a user task.
pub const USER_STACK_SIZE: u64 = 0x2000;

/// Size in bytes of the kernel stack of a task.
pub const KERNEL_STACK_SIZE: u64 = 0x2000;

/// Virtual address of the trampoline page, the last page of the address range.
pub const TRAMPOLINE: u64 = 0xffff_ffff_ffff_f000;

/// Virtual address of the page that holds a task's trap context.
pub const TRAP_CONTEXT: u64 = 0xffff_ffff_ffff_e000;

/// Size in bytes of the upper half of the 39-bit address space, which ends
/// with the trampoline page.
pub const UPPER_HALF_SIZE: u64 = 0x40_0000_0000;

/// The number of tasks for which there is room for a kernel stack. The
/// stacks lie in the upper half of the address space, below the trampoline
/// page, each with a guard page above it: the stack of the task with the
/// number `n` ends `PAGE_SIZE + n * (KERNEL_STACK_SIZE + PAGE_SIZE)
/// + KERNEL_STACK_SIZE` bytes below the top of the address space, and this
/// is the number of the first task whose stack would no longer fit.
pub const MAX_APP_NUM: usize = 0x155_5555;

/// `MAX_APP_NUM` is the number of kernel stacks that fit in the upper half
/// of the address space below the trampoline page.
pub proof fn lemma_max_app_num(n: usize)
    ensures
        n < MAX_APP_NUM <==> PAGE_SIZE + n * (KERNEL_STACK_SIZE + PAGE_SIZE) + KERNEL_STACK_SIZE
            <= UPPER_HALF_SIZE,
{
    assert(KERNEL_STACK_SIZE + PAGE_SIZE == 0x3000);
}

/// The bottom and the top of the kernel stack of the task with the number
/// `app_id`, as virtual addresses of the kernel: the stacks lie below the
/// trampoline page, each after a guard page.
pub fn kernel_stack_position(app_id: usize) -> (r: (u64, u64))
    requires
        app_id < MAX_APP_NUM,
    ensures
        r.1 == TRAMPOLINE - app_id * (KERNEL_STACK_SIZE + PAGE_SIZE),
        r.0 == r.1 - KERNEL_STACK_SIZE,
{
    let top: u64 = TRAMPOLINE - (app_id as u64) * (KERNEL_STACK_SIZE + PAGE_SIZE);
    let bottom: u64 = top - KERNEL_STACK_SIZE;
    (bottom, top)
}

} // verus!
