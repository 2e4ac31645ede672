use sv39_os::mm::address::PhysPageNum;
use sv39_os::mm::frame_allocator::StackFrameAllocator;
use sv39_os::mm::memory::PhysMemory;
use sv39_os::mm::image::{ElfImage, Segment};
use sv39_os::mm::map_area::MapPermission;
use sv39_os::mm::memory_set::MemorySet;
use sv39_os::mm::page_table::translated_byte_buffer;
use sv39_os::syscall::Syscall;
use sv39_os::task::context::TaskContext;
use sv39_os::task::task::{BootInfo, TaskStatus};
use sv39_os::task::{current_trap_cx, current_user_token, run_first_task, TaskManager};
use sv39_os::trap::{
    syscall_return, trap_cause, trap_handler, trap_return, TrapCause, TrapOutcome,
};

const BASE: u64 = 0x80000;
const TIMER: u64 = (1 << 63) | 5;
const ENV_CALL: u64 = 8;
const STORE_FAULT: u64 = 7;
const STORE_PAGE_FAULT: u64 = 15;
const ILLEGAL_INSTRUCTION: u64 = 2;

struct Kernel {
    allocator: StackFrameAllocator,
    mem: PhysMemory,
    kernel_space: MemorySet,
    cpu: TaskContext,
    manager: TaskManager,
    timer_rearms: usize,
}

fn boot() -> BootInfo {
    BootInfo { trampoline: PhysPageNum(0x7ffff), trap_handler: 0x8020_1000, trap_return: 0x8020_2000, sstatus: 0 }
}

fn app(message: &[u8]) -> ElfImage {
    ElfImage {
        entry: 0x10000,
        segments: vec![
            Segment {
                start_va: 0x10000,
                mem_size: 0x1000,
                permission: MapPermission::from_bits_truncate(MapPermission::R | MapPermission::X),
                data: vec![0x73; 8],
            },
            Segment {
                start_va: 0x11000,
                mem_size: 0x2000,
                permission: MapPermission::from_bits_truncate(MapPermission::R | MapPermission::W),
                data: [vec![0; 0xff0], message.to_vec()].concat(),
            },
        ],
    }
}

fn kernel(messages: &[&[u8]]) -> Kernel {
    let frames = 64 * (messages.len() + 1);
    let mut mem = PhysMemory::new(PhysPageNum(BASE), frames);
    let mut allocator = StackFrameAllocator::new();
    allocator.init(PhysPageNum(BASE), PhysPageNum(BASE + frames as u64));
    let mut kernel_space = MemorySet::new_bare(&mut allocator, &mut mem).unwrap();
    kernel_space.map_trampoline(&mut allocator, &mut mem, boot().trampoline).unwrap();
    let images: Vec<ElfImage> = messages.iter().map(|m| app(m)).collect();
    let manager =
        TaskManager::new(&images, &mut kernel_space, &mut allocator, &mut mem, &boot()).unwrap();
    Kernel { allocator, mem, kernel_space, cpu: TaskContext::zero_init(), manager, timer_rearms: 0 }
}

impl Kernel {
    fn statuses(&self) -> Vec<TaskStatus> {
        (0..self.manager.get_num_app()).map(|i| self.manager.get_status(i)).collect()
    }

    /// What the trampoline does when the current task makes a system call:
    /// the registers of the task are saved in its trap context.
    fn user_calls(&mut self, id: u64, args: [u64; 3]) -> TrapOutcome {
        let mut cx = current_trap_cx(&self.manager, &self.mem);
        cx.x[17] = id;
        cx.x[10] = args[0];
        cx.x[11] = args[1];
        cx.x[12] = args[2];
        self.manager.set_current_trap_cx(&mut self.mem, &cx);
        self.trap(ENV_CALL)
    }

    fn trap(&mut self, scause: u64) -> TrapOutcome {
        assert_ne!(trap_cause(scause), TrapCause::Unsupported);
        let outcome = trap_handler(&mut self.manager, &mut self.mem, &mut self.cpu, scause);
        if outcome.rearms_timer() {
            self.timer_rearms += 1;
        }
        outcome
    }
}

#[test]
fn write_call_is_handed_out_and_its_result_handed_back() {
    let mut k = kernel(&[b"hello, world long enough to cross", b"other"]);
    run_first_task(&mut k.manager, &mut k.cpu);
    let pc = current_trap_cx(&k.manager, &k.mem).sepc;
    let outcome = k.user_calls(64, [1, 0x11ff0, 12]);
    assert_eq!(
        outcome,
        TrapOutcome::Syscall { task: 0, call: Syscall::Write { fd: 1, buf: 0x11ff0, len: 12 } }
    );
    assert!(!outcome.is_fatal());
    assert_eq!(current_trap_cx(&k.manager, &k.mem).sepc, pc + 4);
    // the buffer of the caller, which crosses a page boundary, read by the kernel
    let token = current_user_token(&k.manager);
    let pieces = translated_byte_buffer(&k.mem, token, 0x11ff0, 12).unwrap();
    assert_eq!(pieces.len(), 1);
    assert_eq!(pieces.concat(), b"hello, world");
    let pieces = translated_byte_buffer(&k.mem, token, 0x11ff8, 0x10).unwrap();
    assert_eq!(pieces.len(), 2);
    assert_eq!(pieces.concat(), b"orld long enough");
    syscall_return(&k.manager, &mut k.mem, 12);
    let cx = current_trap_cx(&k.manager, &k.mem);
    assert_eq!(cx.x[10], 12);
    assert_eq!(cx.x[17], 64);
    assert_eq!(cx.sepc, pc + 4);
    assert_eq!(k.statuses(), vec![TaskStatus::Running, TaskStatus::Ready]);
    assert_eq!(k.timer_rearms, 0);
}

#[test]
fn unknown_call_is_handed_out() {
    let mut k = kernel(&[b"a"]);
    run_first_task(&mut k.manager, &mut k.cpu);
    let outcome = k.user_calls(169, [4, 5, 6]);
    assert_eq!(
        outcome,
        TrapOutcome::Syscall { task: 0, call: Syscall::Unknown { id: 169, args: [4, 5, 6] } }
    );
    syscall_return(&k.manager, &mut k.mem, -1);
    assert_eq!(current_trap_cx(&k.manager, &k.mem).x[10], u64::MAX);
}

#[test]
fn exit_call_ends_the_calling_task_only() {
    let mut k = kernel(&[b"a", b"b", b"c"]);
    run_first_task(&mut k.manager, &mut k.cpu);
    assert_eq!(k.trap(TIMER), TrapOutcome::Preempted { task: 0, next: 1 });
    let outcome = k.user_calls(93, [7, 0, 0]);
    assert_eq!(outcome, TrapOutcome::Exited { task: 1, exit_code: 7, next: Some(2) });
    assert_eq!(k.statuses(), vec![TaskStatus::Ready, TaskStatus::Exited, TaskStatus::Running]);
    assert_eq!(k.manager.get_current(), 2);
}

#[test]
fn faults_end_the_faulting_task_only() {
    for (scause, cause) in [
        (STORE_PAGE_FAULT, TrapCause::StorePageFault),
        (STORE_FAULT, TrapCause::StoreFault),
        (ILLEGAL_INSTRUCTION, TrapCause::IllegalInstruction),
    ] {
        let mut k = kernel(&[b"a", b"b", b"c"]);
        run_first_task(&mut k.manager, &mut k.cpu);
        k.trap(TIMER);
        k.trap(TIMER);
        assert_eq!(k.manager.get_current(), 2);
        let outcome = k.trap(scause);
        assert_eq!(outcome, TrapOutcome::Killed { task: 2, cause, next: Some(0) });
        assert_eq!(k.statuses(), vec![TaskStatus::Running, TaskStatus::Ready, TaskStatus::Exited]);
        // the task that faulted is never resumed
        for _ in 0..6 {
            match k.trap(TIMER) {
                TrapOutcome::Preempted { next, .. } => assert_ne!(next, 2),
                other => panic!("unexpected {:?}", other),
            }
        }
        assert_eq!(k.manager.get_status(2), TaskStatus::Exited);
    }
}

#[test]
fn each_timer_interrupt_rearms_the_timer_once() {
    let mut k = kernel(&[b"a", b"b"]);
    run_first_task(&mut k.manager, &mut k.cpu);
    for tick in 1..=7 {
        let outcome = k.trap(TIMER);
        assert!(outcome.rearms_timer());
        assert_eq!(k.timer_rearms, tick);
    }
    k.user_calls(64, [1, 0x11ff0, 1]);
    k.trap(STORE_FAULT);
    assert_eq!(k.timer_rearms, 7);
}

#[test]
fn the_handled_causes_are_told_from_the_others() {
    for scause in [ENV_CALL, STORE_FAULT, STORE_PAGE_FAULT, ILLEGAL_INSTRUCTION, TIMER] {
        assert_ne!(trap_cause(scause), TrapCause::Unsupported);
    }
    // an instruction page fault, a load fault, a software interrupt
    for scause in [12, 5, (1u64 << 63) | 1] {
        assert_eq!(trap_cause(scause), TrapCause::Unsupported);
    }
}

#[test]
fn last_task_to_end_leaves_no_task_to_run() {
    let mut k = kernel(&[b"a", b"b"]);
    run_first_task(&mut k.manager, &mut k.cpu);
    assert_eq!(k.trap(ILLEGAL_INSTRUCTION), TrapOutcome::Killed {
        task: 0,
        cause: TrapCause::IllegalInstruction,
        next: Some(1),
    });
    let outcome = k.user_calls(93, [0, 0, 0]);
    assert_eq!(outcome, TrapOutcome::Exited { task: 1, exit_code: 0, next: None });
    assert!(outcome.is_fatal());
    assert_eq!(k.statuses(), vec![TaskStatus::Exited, TaskStatus::Exited]);
}

#[test]
fn return_goes_through_the_trampoline_to_the_current_task() {
    let mut k = kernel(&[b"a", b"b"]);
    run_first_task(&mut k.manager, &mut k.cpu);
    let first = trap_return(&k.manager, 0x7c);
    assert_eq!(first.trap_cx_ptr, 0xffff_ffff_ffff_e000);
    assert_eq!(first.restore_va, 0xffff_ffff_ffff_f07c);
    assert_eq!(first.user_satp, current_user_token(&k.manager));
    assert_eq!(first.user_satp >> 60, 8);
    k.trap(TIMER);
    let second = trap_return(&k.manager, 0x7c);
    assert_ne!(second.user_satp, first.user_satp);
    assert_eq!(second.restore_va, first.restore_va);
}

#[test]
fn trap_of_one_task_leaves_the_memory_of_the_others() {
    let mut k = kernel(&[b"first", b"second"]);
    run_first_task(&mut k.manager, &mut k.cpu);
    k.trap(TIMER);
    let second_token = current_user_token(&k.manager);
    let before = current_trap_cx(&k.manager, &k.mem);
    k.trap(TIMER);
    k.user_calls(64, [1, 2, 3]);
    syscall_return(&k.manager, &mut k.mem, 3);
    k.trap(TIMER);
    assert_eq!(current_user_token(&k.manager), second_token);
    let after = current_trap_cx(&k.manager, &k.mem);
    assert_eq!((after.x, after.sepc), (before.x, before.sepc));
    let bytes = translated_byte_buffer(&k.mem, second_token, 0x11ff0, 6).unwrap().concat();
    assert_eq!(bytes, b"second");
    assert!(k.kernel_space.token() != second_token);
    assert!(k.allocator.allocate().is_some());
}

#[test]
fn three_tasks_end_to_end() {
    // app0 makes one system call and then loops; app1 exits at once; app2
    // executes an illegal instruction
    let mut k = kernel(&[b"app0", b"app1", b"app2"]);
    assert_eq!(k.statuses(), vec![TaskStatus::Ready; 3]);
    run_first_task(&mut k.manager, &mut k.cpu);
    assert_eq!(k.statuses(), vec![TaskStatus::Running, TaskStatus::Ready, TaskStatus::Ready]);

    let outcome = k.user_calls(64, [1, 0x11ff0, 4]);
    assert!(matches!(outcome, TrapOutcome::Syscall { task: 0, .. }));
    syscall_return(&k.manager, &mut k.mem, 4);
    assert_eq!(k.trap(TIMER), TrapOutcome::Preempted { task: 0, next: 1 });

    assert_eq!(k.user_calls(93, [0, 0, 0]), TrapOutcome::Exited {
        task: 1,
        exit_code: 0,
        next: Some(2),
    });
    assert_eq!(k.statuses(), vec![TaskStatus::Ready, TaskStatus::Exited, TaskStatus::Running]);

    assert_eq!(k.trap(ILLEGAL_INSTRUCTION), TrapOutcome::Killed {
        task: 2,
        cause: TrapCause::IllegalInstruction,
        next: Some(0),
    });
    assert_eq!(k.statuses(), vec![TaskStatus::Running, TaskStatus::Exited, TaskStatus::Exited]);

    // app0 is rescheduled at every tick until the clock is stopped
    for _ in 0..20 {
        assert_eq!(k.trap(TIMER), TrapOutcome::Preempted { task: 0, next: 0 });
        assert_eq!(k.manager.get_status(0), TaskStatus::Running);
    }
    assert_eq!(k.timer_rearms, 21);
    assert_eq!(k.manager.get_status(1), TaskStatus::Exited);
    assert_eq!(k.manager.get_status(2), TaskStatus::Exited);
    assert_ne!(k.manager.get_status(0), TaskStatus::Exited);
}
