use sv39_os::config::{
    kernel_stack_position, KERNEL_STACK_SIZE, MAX_APP_NUM, PAGE_SIZE, TRAMPOLINE, UPPER_HALF_SIZE,
};
use sv39_os::mm::address::{PhysPageNum, VirtPageNum};
use sv39_os::mm::frame_allocator::StackFrameAllocator;
use sv39_os::mm::memory::PhysMemory;
use sv39_os::mm::image::{ElfImage, Segment};
use sv39_os::mm::map_area::MapPermission;
use sv39_os::mm::memory_set::MemorySet;
use sv39_os::mm::space::TRAP_CONTEXT_VPN;
use sv39_os::mm::page_table::{MapError, PTEFlags};
use sv39_os::task::context::TaskContext;
use sv39_os::task::task::{BootInfo, TaskControlBlock, TaskStatus};
use sv39_os::task::{
    current_trap_cx, current_user_token, exit_current_and_run_next, mark_current_exited,
    mark_current_suspend, run_first_task, suspend_current_and_run_next, TaskManager,
};

const BASE: u64 = 0x80000;

fn boot() -> BootInfo {
    BootInfo {
        trampoline: PhysPageNum(0x7ffff),
        trap_handler: 0x8020_1000,
        trap_return: 0x8020_2000,
        sstatus: 0x8000_0002_0000_0120,
    }
}

fn app(seed: u8) -> ElfImage {
    ElfImage {
        entry: 0x10000 + seed as u64 * 4,
        segments: vec![Segment {
            start_va: 0x10000,
            mem_size: 0x1000,
            permission: MapPermission::from_bits_truncate(MapPermission::R | MapPermission::X),
            data: vec![seed; 64],
        }],
    }
}

struct Machine {
    allocator: StackFrameAllocator,
    mem: PhysMemory,
    kernel: MemorySet,
    cpu: TaskContext,
}

fn machine(frames: usize) -> Machine {
    let mut mem = PhysMemory::new(PhysPageNum(BASE), frames);
    let mut allocator = StackFrameAllocator::new();
    allocator.init(PhysPageNum(BASE), PhysPageNum(BASE + frames as u64));
    let mut kernel = MemorySet::new_bare(&mut allocator, &mut mem).unwrap();
    kernel.map_trampoline(&mut allocator, &mut mem, boot().trampoline).unwrap();
    Machine { allocator, mem, kernel, cpu: TaskContext::zero_init() }
}

fn manager(m: &mut Machine, tasks: usize) -> TaskManager {
    let images: Vec<ElfImage> = (0..tasks).map(|i| app(i as u8 + 1)).collect();
    TaskManager::new(&images, &mut m.kernel, &mut m.allocator, &mut m.mem, &boot()).unwrap()
}

fn statuses(manager: &TaskManager) -> Vec<TaskStatus> {
    (0..manager.get_num_app()).map(|i| manager.get_status(i)).collect()
}

#[test]
fn kernel_stacks_lie_below_the_trampoline() {
    assert_eq!(kernel_stack_position(0), (TRAMPOLINE - KERNEL_STACK_SIZE, TRAMPOLINE));
    let step = KERNEL_STACK_SIZE + PAGE_SIZE;
    assert_eq!(
        kernel_stack_position(3),
        (TRAMPOLINE - 3 * step - KERNEL_STACK_SIZE, TRAMPOLINE - 3 * step)
    );
    assert_eq!(kernel_stack_position(1).1, 0xffff_ffff_ffff_c000);
}

#[test]
fn new_task_is_ready_with_its_trap_context_set_up() {
    let mut m = machine(64);
    let image = app(5);
    let task = TaskControlBlock::new(&image, 2, &mut m.kernel, &mut m.allocator, &mut m.mem, &boot())
        .unwrap();
    assert_eq!(task.task_status, TaskStatus::Ready);
    // one page of code; guard page; two pages of stack
    assert_eq!(task.base_size, 0x14000);
    let kernel_stack_top = kernel_stack_position(2).1;
    assert_eq!(task.task_cx.ra, 0x8020_2000);
    assert_eq!(task.task_cx.sp, kernel_stack_top);
    assert_eq!(task.task_cx.s, [0; 12]);
    let pte = task.memory_set.translate(&m.mem, VirtPageNum(TRAP_CONTEXT_VPN)).unwrap();
    assert_eq!(pte.ppn(), task.trap_cx_ppn);
    assert_eq!(task.get_user_token(), task.memory_set.token());
    let cx = task.get_trap_cx(&m.mem);
    let mut x = [0u64; 32];
    x[2] = 0x14000;
    assert_eq!(cx.x, x);
    assert_eq!(cx.sepc, image.entry);
    assert_eq!(cx.sstatus, 0x8000_0002_0000_0020);
    assert_eq!(cx.kernel_satp, m.kernel.token());
    assert_eq!(cx.kernel_sp, kernel_stack_top);
    assert_eq!(cx.trap_handler, 0x8020_1000);
    // the kernel stack is mapped in the address space of the kernel
    let top_vpn = ((kernel_stack_top & 0x7f_ffff_ffff) >> 12) as u64;
    for vpn in [top_vpn - 2, top_vpn - 1] {
        let pte = m.kernel.translate(&m.mem, VirtPageNum(vpn)).unwrap();
        assert_eq!(pte.flags().bits(), PTEFlags::R | PTEFlags::W | PTEFlags::V);
    }
    assert_eq!(m.kernel.translate(&m.mem, VirtPageNum(top_vpn - 3)), None);
}

#[test]
fn last_kernel_stack_lies_at_the_bottom_of_the_upper_half() {
    assert_eq!(MAX_APP_NUM, 0x155_5555);
    let step = KERNEL_STACK_SIZE + PAGE_SIZE;
    // room below the top of the address space: the trampoline page, then the stacks
    let last = MAX_APP_NUM as u64 - 1;
    assert!(PAGE_SIZE + last * step + KERNEL_STACK_SIZE <= UPPER_HALF_SIZE);
    assert!(PAGE_SIZE + (last + 1) * step + KERNEL_STACK_SIZE > UPPER_HALF_SIZE);
    let (bottom, top) = kernel_stack_position(MAX_APP_NUM - 1);
    assert_eq!(top, 0xffff_ffc0_0000_3000);
    assert_eq!(bottom, 0xffff_ffc0_0000_1000);
    let mut m = machine(64);
    let image = app(5);
    let task = TaskControlBlock::new(
        &image,
        MAX_APP_NUM - 1,
        &mut m.kernel,
        &mut m.allocator,
        &mut m.mem,
        &boot(),
    )
    .unwrap();
    assert_eq!(task.task_cx.sp, top);
    for vpn in [0x400_0001u64, 0x400_0002] {
        let pte = m.kernel.translate(&m.mem, VirtPageNum(vpn)).unwrap();
        assert_eq!(pte.flags().bits(), PTEFlags::R | PTEFlags::W | PTEFlags::V);
    }
    assert_eq!(m.kernel.translate(&m.mem, VirtPageNum(0x400_0000)), None);
    assert_eq!(m.kernel.translate(&m.mem, VirtPageNum(0x400_0003)), None);
}

#[test]
fn task_number_out_of_range_is_refused() {
    let mut m = machine(64);
    let image = app(5);
    let r = TaskControlBlock::new(&image, MAX_APP_NUM, &mut m.kernel, &mut m.allocator, &mut m.mem, &boot());
    assert_eq!(r.err(), Some(MapError::InvalidRange));
}

#[test]
fn kernel_stack_in_use_is_refused_and_the_task_given_back() {
    let mut m = machine(64);
    let image = app(5);
    let first = TaskControlBlock::new(&image, 1, &mut m.kernel, &mut m.allocator, &mut m.mem, &boot());
    assert!(first.is_ok());
    let mut free_before = 0;
    let mut probe = Vec::new();
    while let Some(ppn) = m.allocator.allocate() {
        probe.push(ppn);
        free_before += 1;
    }
    for ppn in probe.into_iter().rev() {
        m.allocator.dealloc(ppn);
    }
    let again = TaskControlBlock::new(&image, 1, &mut m.kernel, &mut m.allocator, &mut m.mem, &boot());
    assert_eq!(again.err(), Some(MapError::AlreadyMapped));
    let mut free_after = 0;
    while m.allocator.allocate().is_some() {
        free_after += 1;
    }
    assert_eq!(free_after, free_before);
}

#[test]
fn all_tasks_start_ready() {
    let mut m = machine(128);
    let manager = manager(&mut m, 3);
    assert_eq!(manager.get_num_app(), 3);
    assert_eq!(manager.get_current(), 0);
    assert_eq!(statuses(&manager), vec![TaskStatus::Ready; 3]);
}

#[test]
fn first_task_runs_first() {
    let mut m = machine(128);
    let mut manager = manager(&mut m, 3);
    run_first_task(&mut manager, &mut m.cpu);
    assert_eq!(statuses(&manager), vec![TaskStatus::Running, TaskStatus::Ready, TaskStatus::Ready]);
    assert_eq!(manager.get_current(), 0);
    assert_eq!(m.cpu.ra, 0x8020_2000);
    assert_eq!(m.cpu.sp, kernel_stack_position(0).1);
}

#[test]
fn round_robin_visits_every_task_once_before_repeating() {
    let mut m = machine(256);
    let mut manager = manager(&mut m, 5);
    run_first_task(&mut manager, &mut m.cpu);
    // move on to task 2, and start the round there
    suspend_current_and_run_next(&mut manager, &mut m.cpu);
    suspend_current_and_run_next(&mut manager, &mut m.cpu);
    assert_eq!(manager.get_current(), 2);
    let mut visited = vec![manager.get_current()];
    for _ in 0..4 {
        visited.push(suspend_current_and_run_next(&mut manager, &mut m.cpu));
    }
    assert_eq!(visited, vec![2, 3, 4, 0, 1]);
    assert_eq!(suspend_current_and_run_next(&mut manager, &mut m.cpu), 2);
    let running: Vec<usize> =
        (0..5).filter(|i| manager.get_status(*i) == TaskStatus::Running).collect();
    assert_eq!(running, vec![2]);
}

#[test]
fn exited_task_is_never_selected() {
    let mut m = machine(256);
    let mut manager = manager(&mut m, 4);
    run_first_task(&mut manager, &mut m.cpu);
    assert_eq!(suspend_current_and_run_next(&mut manager, &mut m.cpu), 1);
    assert_eq!(exit_current_and_run_next(&mut manager, &mut m.cpu), Some(2));
    assert_eq!(manager.get_status(1), TaskStatus::Exited);
    for _ in 0..10 {
        let next = suspend_current_and_run_next(&mut manager, &mut m.cpu);
        assert_ne!(next, 1);
        assert_eq!(manager.get_status(1), TaskStatus::Exited);
    }
    assert_eq!(manager.find_next_task().map(|id| id != 1), Some(true));
}

#[test]
fn scheduling_fails_when_all_tasks_have_exited() {
    let mut m = machine(128);
    let mut manager = manager(&mut m, 3);
    run_first_task(&mut manager, &mut m.cpu);
    assert_eq!(exit_current_and_run_next(&mut manager, &mut m.cpu), Some(1));
    assert_eq!(exit_current_and_run_next(&mut manager, &mut m.cpu), Some(2));
    assert_eq!(exit_current_and_run_next(&mut manager, &mut m.cpu), None);
    assert_eq!(statuses(&manager), vec![TaskStatus::Exited; 3]);
    assert_eq!(manager.find_next_task(), None);
}

#[test]
fn single_task_is_rescheduled_to_itself() {
    let mut m = machine(64);
    let mut manager = manager(&mut m, 1);
    run_first_task(&mut manager, &mut m.cpu);
    m.cpu.s[0] = 17;
    assert_eq!(suspend_current_and_run_next(&mut manager, &mut m.cpu), 0);
    assert_eq!(manager.get_status(0), TaskStatus::Running);
    assert_eq!(m.cpu.s[0], 17);
}

#[test]
fn switch_keeps_the_registers_of_each_task() {
    let mut m = machine(128);
    let mut manager = manager(&mut m, 2);
    run_first_task(&mut manager, &mut m.cpu);
    m.cpu.s[3] = 100;
    assert_eq!(suspend_current_and_run_next(&mut manager, &mut m.cpu), 1);
    assert_eq!(m.cpu.sp, kernel_stack_position(1).1);
    m.cpu.s[3] = 200;
    assert_eq!(suspend_current_and_run_next(&mut manager, &mut m.cpu), 0);
    assert_eq!(m.cpu.s[3], 100);
    assert_eq!(suspend_current_and_run_next(&mut manager, &mut m.cpu), 1);
    assert_eq!(m.cpu.s[3], 200);
}

#[test]
fn marking_changes_the_current_task_only() {
    let mut m = machine(128);
    let mut manager = manager(&mut m, 3);
    run_first_task(&mut manager, &mut m.cpu);
    mark_current_suspend(&mut manager);
    assert_eq!(statuses(&manager), vec![TaskStatus::Ready; 3]);
    mark_current_exited(&mut manager);
    assert_eq!(statuses(&manager), vec![TaskStatus::Exited, TaskStatus::Ready, TaskStatus::Ready]);
    assert_eq!(manager.get_current(), 0);
}

#[test]
fn current_token_and_trap_context_follow_the_current_task() {
    let mut m = machine(128);
    let mut manager = manager(&mut m, 2);
    run_first_task(&mut manager, &mut m.cpu);
    let first_token = current_user_token(&manager);
    assert_eq!(current_trap_cx(&manager, &m.mem).sepc, 0x10004);
    suspend_current_and_run_next(&mut manager, &mut m.cpu);
    assert_ne!(current_user_token(&manager), first_token);
    assert_eq!(current_trap_cx(&manager, &m.mem).sepc, 0x10008);
    assert_eq!(current_trap_cx(&manager, &m.mem).kernel_sp, kernel_stack_position(1).1);
}

#[test]
fn tasks_that_do_not_fit_are_not_made() {
    let mut m = machine(24);
    let images: Vec<ElfImage> = (0..3).map(|i| app(i as u8 + 1)).collect();
    let r = TaskManager::new(&images, &mut m.kernel, &mut m.allocator, &mut m.mem, &boot());
    assert_eq!(r.err(), Some(MapError::OutOfFrames));
    // the kernel owned three frames and keeps the two of the kernel stack of
    // the first task; what the tasks took is free again
    let mut free = 0;
    while m.allocator.allocate().is_some() {
        free += 1;
    }
    assert_eq!(free, 24 - 3 - 2);
}

#[test]
fn tasks_take_exactly_their_frames() {
    // the kernel owns three frames; each task takes nine for its address
    // space and two for its kernel stack
    let images: Vec<ElfImage> = (0..3).map(|i| app(i as u8 + 1)).collect();
    let mut m = machine(36);
    let r = TaskManager::new(&images, &mut m.kernel, &mut m.allocator, &mut m.mem, &boot());
    assert!(r.is_ok());
    assert_eq!(m.allocator.allocate(), None);
    let mut m = machine(35);
    let r = TaskManager::new(&images, &mut m.kernel, &mut m.allocator, &mut m.mem, &boot());
    assert_eq!(r.err(), Some(MapError::OutOfFrames));
}

#[test]
fn first_task_that_cannot_be_made_decides_the_error() {
    let mut images: Vec<ElfImage> = (0..3).map(|i| app(i as u8 + 1)).collect();
    images[1].segments[0].start_va = 0x10008;
    let mut m = machine(128);
    let r = TaskManager::new(&images, &mut m.kernel, &mut m.allocator, &mut m.mem, &boot());
    assert_eq!(r.err(), Some(MapError::InvalidRange));
    // with too few frames for the first task, the frames run out first
    let mut m = machine(8);
    let r = TaskManager::new(&images, &mut m.kernel, &mut m.allocator, &mut m.mem, &boot());
    assert_eq!(r.err(), Some(MapError::OutOfFrames));
}
