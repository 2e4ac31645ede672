//! Traps from user mode into the kernel.
use vstd::prelude::*;
use riscv::interrupt::Trap;
use riscv::interrupt::supervisor::{Exception, Interrupt};
use riscv::register::scause::Scause;
use crate::config::{TRAMPOLINE, TRAP_CONTEXT};
use crate::mm::memory::PhysMemory;
use crate::mm::page_table::token_of;
use crate::syscall::{Syscall, result_bits, result_register};
use crate::task::TaskManager;
use crate::task::context::TaskContext;

pub mod context;

verus! {

/// Why a task has trapped into the kernel, as far as the kernel tells the
/// causes apart.
#[derive(Copy, Clone, Debug, PartialEq, Eq, Structural)]
pub enum TrapCause {
    /// An environment call from user mode: a system call.
    UserEnvCall,
    /// A store to an address that cannot be written.
    StoreFault,
    /// A store to a page that is not mapped for writing.
    StorePageFault,
    /// An instruction that the task may not execute.
    IllegalInstruction,
    /// The timer of the supervisor has fired.
    SupervisorTimer,
    /// Any other cause.
    Unsupported,
}

/// The cause that the supervisor cause register holds: the top bit tells an
/// interrupt from an exception, the other bits are its number.
pub open spec fn cause_of(scause: u64) -> TrapCause {
    let code = scause & 0x7fff_ffff_ffff_ffff;
    if scause >> 63 == 1 {
        if code == 5 {
            TrapCause::SupervisorTimer
        } else {
            TrapCause::Unsupported
        }
    } else if code == 8 {
        TrapCause::UserEnvCall
    } else if code == 7 {
        TrapCause::StoreFault
    } else if code == 15 {
        TrapCause::StorePageFault
    } else if code == 2 {
        TrapCause::IllegalInstruction
    } else {
        TrapCause::Unsupported
    }
}

/// Calls `Scause::from_bits`, `Scause::cause` and `Trap::try_into` of the
/// crate riscv, with the interrupts and exceptions of supervisor mode.
/// Trusted: `cause` splits the register into the interrupt bit, bit 63,
/// and the code below it, and `try_into` knows the exceptions 2, 7, 8 and
/// 15 and the interrupt 5 by the names matched here.
#[verifier::external_body]
fn decode_cause(scause: u64) -> (r: TrapCause)
    ensures
        r == cause_of(scause),
{
    match Scause::from_bits(scause as usize).cause().try_into::<Interrupt, Exception>() {
        Ok(Trap::Exception(Exception::UserEnvCall)) => TrapCause::UserEnvCall,
        Ok(Trap::Exception(Exception::StoreFault)) => TrapCause::StoreFault,
        Ok(Trap::Exception(Exception::StorePageFault)) => TrapCause::StorePageFault,
        Ok(Trap::Exception(Exception::IllegalInstruction)) => TrapCause::IllegalInstruction,
        Ok(Trap::Interrupt(Interrupt::SupervisorTimer)) => TrapCause::SupervisorTimer,
        _ => TrapCause::Unsupported,
    }
}

/// The cause of a trap, from the value of the supervisor cause register.
pub fn trap_cause(scause: u64) -> (r: TrapCause)
    ensures
        r == cause_of(scause),
{
    decode_cause(scause)
}

/// What the kernel has made of a trap, and what is left to do before the
/// return to user mode.
#[derive(Copy, Clone, Debug, PartialEq, Eq)]
#[allow(inconsistent_fields)]
pub enum TrapOutcome {
    /// The task `task` has made a system call other than exit. The saved
    /// program counter is past the call already. The call is to be served
    /// and its result handed back with `syscall_return`.
    Syscall { task: usize, call: Syscall },
    /// The task `task` has exited by a system call, and `next` runs now.
    /// Where there is no `next`, no task is ready any more.
    Exited { task: usize, exit_code: u64, next: Option<usize> },
    /// The task `task` has caused a fault or executed an illegal
    /// instruction and was ended for it; `next` runs now. Where there is
    /// no `next`, no task is ready any more.
    Killed { task: usize, cause: TrapCause, next: Option<usize> },
    /// The timer has fired; the task `task` has given up the processor to
    /// `next`. The timer is to be set once for its next firing.
    Preempted { task: usize, next: usize },
    /// The trap came while the kernel ran.
    FromKernel,
}

impl TrapOutcome {
    /// The number of times that the timer is to be set after the trap.
    pub open spec fn timer_rearms(&self) -> nat {
        match *self {
            TrapOutcome::Preempted { .. } => 1,
            _ => 0,
        }
    }

    /// Whether the timer is to be set, once, after the trap.
    pub fn rearms_timer(&self) -> (r: bool)
        ensures
            r == (self.timer_rearms() == 1),
    {
        match self {
            TrapOutcome::Preempted { .. } => true,
            _ => false,
        }
    }

    /// The kernel cannot go on after the trap.
    pub open spec fn fatal(&self) -> bool {
        match *self {
            TrapOutcome::Exited { next, .. } => next is None,
            TrapOutcome::Killed { next, .. } => next is None,
            TrapOutcome::FromKernel => true,
            _ => false,
        }
    }

    /// Whether the kernel cannot go on after the trap.
    pub fn is_fatal(&self) -> (r: bool)
        ensures
            r == self.fatal(),
    {
        match self {
            TrapOutcome::Exited { next, .. } => next.is_none(),
            TrapOutcome::Killed { next, .. } => next.is_none(),
            TrapOutcome::FromKernel => true,
            _ => false,
        }
    }
}

/// The program counter after an instruction of four bytes at `pc`.
pub open spec fn past_call(pc: u64) -> u64 {
    if pc > u64::MAX - 4 {
        (pc - (u64::MAX - 3)) as u64
    } else {
        (pc + 4) as u64
    }
}

/// Handles a trap of the current task, whose registers the trampoline has
/// saved in its trap context. `scause` is the value of the cause register,
/// and the cause is one that the kernel handles.
///
/// - A system call: the saved program counter moves past the call. An exit
///   ends the calling task, and no other, and the next task is switched
///   to; any other call is handed out to be served.
/// - A store fault, a store page fault or an illegal instruction: the task
///   is ended, and no other, and the next task is switched to.
/// - The timer: the task gives up the processor to the next task, and the
///   timer is to be set once.
pub fn trap_handler(
    manager: &mut TaskManager,
    mem: &mut PhysMemory,
    cpu: &mut TaskContext,
    scause: u64,
) -> (r: TrapOutcome)
    requires
        old(manager).sched_wf(),
        old(manager).wf(old(mem)),
        cause_of(scause) != TrapCause::Unsupported,
    ensures
        final(manager).sched_wf(),
        final(manager).wf(final(mem)),
        final(manager).same_tasks(old(manager)),
        final(mem).wf(),
        final(mem).agrees_except(old(mem), old(manager).current_trap_frame()),
        r.timer_rearms() == 1 <==> cause_of(scause) == TrapCause::SupervisorTimer,
        forall|i: int|
            0 <= i < 512 && i != 33 ==> #[trigger] final(mem).word(
                old(manager).current_trap_frame(),
                i,
            ) == old(mem).word(old(manager).current_trap_frame(), i),
        match cause_of(scause) {
            TrapCause::UserEnvCall => {
                let frame = old(manager).current_trap_frame();
                &&& final(mem).word(frame, 33) == past_call(old(mem).word(frame, 33))
                &&& match r {
                    TrapOutcome::Exited { task, exit_code, next } => {
                        &&& old(mem).word(frame, 17) == crate::syscall::SYSCALL_EXIT
                        &&& exit_code == old(mem).word(frame, 10)
                        &&& task == old(manager).current()
                        &&& final(manager).current_exited(
                            old(manager),
                            *old(cpu),
                            *final(cpu),
                            next,
                        )
                    },
                    TrapOutcome::Syscall { task, call } => {
                        &&& old(mem).word(frame, 17) != crate::syscall::SYSCALL_EXIT
                        &&& call.is_call(
                            old(mem).word(frame, 17),
                            old(mem).word(frame, 10),
                            old(mem).word(frame, 11),
                            old(mem).word(frame, 12),
                        )
                        &&& task == old(manager).current()
                        &&& *final(manager) == *old(manager)
                        &&& *final(cpu) == *old(cpu)
                    },
                    _ => false,
                }
            },
            TrapCause::StoreFault | TrapCause::StorePageFault | TrapCause::IllegalInstruction => {
                &&& r matches TrapOutcome::Killed { task, cause, next }
                &&& task == old(manager).current()
                &&& cause == cause_of(scause)
                &&& final(manager).current_exited(old(manager), *old(cpu), *final(cpu), next)
                &&& *final(mem) == *old(mem)
            },
            TrapCause::SupervisorTimer => {
                &&& r matches TrapOutcome::Preempted { task, next }
                &&& task == old(manager).current()
                &&& final(manager).current_suspended(old(manager), *old(cpu), *final(cpu), next)
                &&& *final(mem) == *old(mem)
            },
            TrapCause::Unsupported => true,
        },
{
    let task = manager.get_current();
    let cause = decode_cause(scause);
    proof {
        assert(manager.tasks()[manager.current()].wf(mem));
        manager.tasks()[manager.current()].memory_set.lemma_wf(mem);
    }
    match cause {
        TrapCause::UserEnvCall => {
            let ghost frame = manager.current_trap_frame();
            let mut cx = manager.get_current_trap_cx(mem);
            let ghost saved = cx;
            cx.sepc = cx.sepc.wrapping_add(4);
            manager.set_current_trap_cx(mem, &cx);
            proof {
                assert forall|i: int| 0 <= i < 512 && i != 33 implies #[trigger] mem.word(frame, i)
                    == old(mem).word(frame, i) by {
                    if i < 37 {
                        assert(mem.word(frame, i) == cx.words()[i]);
                        assert(old(mem).word(frame, i) == saved.words()[i]);
                    }
                }
                assert(mem.word(frame, 33) == cx.words()[33]);
                assert(old(mem).word(frame, 33) == saved.words()[33]);
                assert(old(mem).word(frame, 17) == saved.words()[17]);
                assert(old(mem).word(frame, 10) == saved.words()[10]);
                assert(old(mem).word(frame, 11) == saved.words()[11]);
                assert(old(mem).word(frame, 12) == saved.words()[12]);
            }
            let call = Syscall::decode(cx.x[17], [cx.x[10], cx.x[11], cx.x[12]]);
            match call {
                Syscall::Exit { exit_code } => {
                    let ghost before = *manager;
                    let next = manager.exit_current_and_run_next(cpu);
                    proof {
                        manager.lemma_same_tasks(&before, mem);
                    }
                    TrapOutcome::Exited { task, exit_code, next }
                },
                _ => TrapOutcome::Syscall { task, call },
            }
        },
        TrapCause::StoreFault | TrapCause::StorePageFault | TrapCause::IllegalInstruction => {
            let ghost before = *manager;
            let next = manager.exit_current_and_run_next(cpu);
            proof {
                manager.lemma_same_tasks(&before, mem);
            }
            TrapOutcome::Killed { task, cause, next }
        },
        TrapCause::SupervisorTimer => {
            let ghost before = *manager;
            let next = manager.suspend_current_and_run_next(cpu);
            proof {
                manager.lemma_same_tasks(&before, mem);
            }
            TrapOutcome::Preempted { task, next }
        },
        TrapCause::Unsupported => vstd::pervasive::unreached(),
    }
}

/// Hands the result of a system call back to the current task: it is
/// written to the saved register `a0`, while everything else stays as it
/// is.
pub fn syscall_return(manager: &TaskManager, mem: &mut PhysMemory, result: i64)
    requires
        manager.sched_wf(),
        manager.wf(old(mem)),
    ensures
        manager.wf(final(mem)),
        final(mem).wf(),
        final(mem).agrees_except(old(mem), manager.current_trap_frame()),
        final(mem).word(manager.current_trap_frame(), 10) == result_bits(result),
        forall|i: int|
            0 <= i < 512 && i != 10 ==> #[trigger] final(mem).word(manager.current_trap_frame(), i)
                == old(mem).word(manager.current_trap_frame(), i),
{
    proof {
        assert(manager.tasks()[manager.current()].wf(mem));
    }
    let ghost frame = manager.current_trap_frame();
    let mut cx = manager.get_current_trap_cx(mem);
    let ghost saved = cx;
    cx.x[10] = result_register(result);
    manager.set_current_trap_cx(mem, &cx);
    proof {
        assert forall|i: int| 0 <= i < 512 && i != 10 implies #[trigger] mem.word(frame, i) == old(
            mem,
        ).word(frame, i) by {
            if i < 37 {
                assert(mem.word(frame, i) == cx.words()[i]);
                assert(old(mem).word(frame, i) == saved.words()[i]);
            }
        }
        assert(mem.word(frame, 10) == cx.words()[10]);
    }
}

/// What the return to user mode needs: the virtual address of the trap
/// context, the token of the address space to return to, and the address
/// in the trampoline page of the code that restores the registers.
#[derive(Copy, Clone, Debug, PartialEq, Eq, Structural)]
pub struct TrapReturn {
    pub trap_cx_ptr: u64,
    pub user_satp: u64,
    pub restore_va: u64,
}

/// Prepares the return to the current task. `restore_offset` is the offset
/// in the trampoline code of the code that restores the registers.
pub fn trap_return(manager: &TaskManager, restore_offset: u64) -> (r: TrapReturn)
    requires
        manager.sched_wf(),
        restore_offset < 4096,
    ensures
        r.trap_cx_ptr == TRAP_CONTEXT,
        r.user_satp == token_of(manager.tasks()[manager.current()].memory_set.root()),
        r.restore_va == TRAMPOLINE + restore_offset,
{
    TrapReturn {
        trap_cx_ptr: TRAP_CONTEXT,
        user_satp: manager.get_current_token(),
        restore_va: restore_offset + TRAMPOLINE,
    }
}

/// A trap that comes while the kernel runs is one that the kernel cannot
/// go on after.
pub fn trap_from_kernel() -> (r: TrapOutcome)
    ensures
        r == TrapOutcome::FromKernel,
        r.fatal(),
{
    TrapOutcome::FromKernel
}

} // verus!
