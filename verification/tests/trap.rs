use sv39_os::mm::address::PhysPageNum;
use sv39_os::mm::memory::PhysMemory;
use sv39_os::syscall::{result_register, Syscall, SYSCALL_EXIT, SYSCALL_WRITE};
use sv39_os::task::context::TaskContext;
use sv39_os::task::switch::__switch;
use sv39_os::trap::context::{TrapContext, SSTATUS_MASK};
use sv39_os::trap::{trap_cause, trap_from_kernel, TrapCause, TrapOutcome};

const INTERRUPT: u64 = 1 << 63;

#[test]
fn causes_that_the_kernel_handles() {
    assert_eq!(trap_cause(8), TrapCause::UserEnvCall);
    assert_eq!(trap_cause(7), TrapCause::StoreFault);
    assert_eq!(trap_cause(15), TrapCause::StorePageFault);
    assert_eq!(trap_cause(2), TrapCause::IllegalInstruction);
    assert_eq!(trap_cause(INTERRUPT | 5), TrapCause::SupervisorTimer);
}

#[test]
fn other_causes_are_unsupported() {
    for code in [0u64, 1, 3, 4, 5, 6, 9, 10, 11, 12, 13, 14, 16, 64, 1 << 62] {
        assert_eq!(trap_cause(code), TrapCause::Unsupported);
    }
    for code in [0u64, 1, 2, 7, 8, 9, 15, 1 << 62] {
        assert_eq!(trap_cause(INTERRUPT | code), TrapCause::Unsupported);
    }
}

#[test]
fn initial_context_starts_in_user_mode() {
    let cx = TrapContext::app_init_context(0x10000, 0x16000, 0x8000_0000_0008_0000, 0xfff0, 0x8020_1000, u64::MAX);
    let mut x = [0u64; 32];
    x[2] = 0x16000;
    assert_eq!(cx.x, x);
    assert_eq!(cx.sepc, 0x10000);
    assert_eq!(cx.kernel_satp, 0x8000_0000_0008_0000);
    assert_eq!(cx.kernel_sp, 0xfff0);
    assert_eq!(cx.trap_handler, 0x8020_1000);
    assert_eq!(cx.sstatus, SSTATUS_MASK & !0x100);
    assert_eq!(cx.sstatus, 0x8000_0003_000d_e662);
    let plain = TrapContext::app_init_context(0, 0, 0, 0, 0, 0x122);
    assert_eq!(plain.sstatus, 0x22);
    let none = TrapContext::app_init_context(0, 0, 0, 0, 0, 0x100);
    assert_eq!(none.sstatus, 0);
}

#[test]
fn set_up_sets_the_stack_pointer() {
    let mut cx = TrapContext::app_init_context(1, 2, 3, 4, 5, 6);
    cx.set_up(0x7000);
    assert_eq!(cx.x[2], 0x7000);
    assert_eq!(cx.x[1], 0);
    assert_eq!(cx.sepc, 1);
}

#[test]
fn context_is_stored_in_order_at_the_start_of_its_frame() {
    let mut mem = PhysMemory::new(PhysPageNum(40), 2);
    mem.write_word(PhysPageNum(41), 37, 0x5555);
    let mut cx = TrapContext::app_init_context(0x10000, 0x16000, 7, 8, 9, 0);
    for i in 0..32 {
        cx.x[i] = 100 + i as u64;
    }
    cx.sstatus = 0x22;
    cx.store(&mut mem, PhysPageNum(41));
    for i in 0..32 {
        assert_eq!(mem.read_word(PhysPageNum(41), i), 100 + i as u64);
    }
    assert_eq!(mem.read_word(PhysPageNum(41), 32), 0x22);
    assert_eq!(mem.read_word(PhysPageNum(41), 33), 0x10000);
    assert_eq!(mem.read_word(PhysPageNum(41), 34), 7);
    assert_eq!(mem.read_word(PhysPageNum(41), 35), 8);
    assert_eq!(mem.read_word(PhysPageNum(41), 36), 9);
    assert_eq!(mem.read_word(PhysPageNum(41), 37), 0x5555);
    assert_eq!(mem.read_word(PhysPageNum(40), 0), 0);
    let back = TrapContext::load(&mem, PhysPageNum(41));
    assert_eq!(back.x, cx.x);
    assert_eq!(
        (back.sstatus, back.sepc, back.kernel_satp, back.kernel_sp, back.trap_handler),
        (0x22, 0x10000, 7, 8, 9)
    );
}

#[test]
fn system_calls_are_told_apart_by_their_number() {
    assert_eq!(SYSCALL_WRITE, 64);
    assert_eq!(SYSCALL_EXIT, 93);
    assert_eq!(Syscall::decode(64, [1, 0x1000, 12]), Syscall::Write { fd: 1, buf: 0x1000, len: 12 });
    assert_eq!(Syscall::decode(93, [3, 9, 9]), Syscall::Exit { exit_code: 3 });
    assert_eq!(Syscall::decode(124, [1, 2, 3]), Syscall::Unknown { id: 124, args: [1, 2, 3] });
}

#[test]
fn results_are_handed_back_as_register_bits() {
    assert_eq!(result_register(0), 0);
    assert_eq!(result_register(12), 12);
    assert_eq!(result_register(-1), u64::MAX);
    assert_eq!(result_register(i64::MIN), 1 << 63);
    assert_eq!(result_register(i64::MAX), (1 << 63) - 1);
}

#[test]
fn switch_saves_and_loads_the_registers() {
    let mut cpu = TaskContext { ra: 1, sp: 2, s: [3; 12] };
    let mut current = TaskContext::zero_init();
    let next = TaskContext::goto_trap_return(0x9000, 0x8020_2000);
    __switch(&mut cpu, &mut current, &next);
    assert_eq!((current.ra, current.sp, current.s), (1, 2, [3; 12]));
    assert_eq!((cpu.ra, cpu.sp, cpu.s), (0x8020_2000, 0x9000, [0; 12]));
    // the other task runs and switches back: the first finds its registers
    cpu.s[4] = 44;
    let mut other = next;
    let saved = current;
    __switch(&mut cpu, &mut other, &saved);
    assert_eq!((cpu.ra, cpu.sp, cpu.s), (1, 2, [3; 12]));
    assert_eq!(other.s[4], 44);
}

#[test]
fn trap_from_the_kernel_is_fatal() {
    let outcome = trap_from_kernel();
    assert_eq!(outcome, TrapOutcome::FromKernel);
    assert!(outcome.is_fatal());
    assert!(!outcome.rearms_timer());
}
