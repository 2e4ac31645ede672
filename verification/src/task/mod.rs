//! Tasks and the round-robin scheduler.
use vstd::prelude::*;
use crate::config::MAX_APP_NUM;
use crate::mm::address::vpn_bits;
use crate::mm::frame_allocator::StackFrameAllocator;
use crate::mm::memory::PhysMemory;
use crate::mm::image::ElfImage;
use crate::mm::map_area::{
    error_of,
    frames_needed,
    lemma_area_outcome_same,
    lemma_frames_needed,
    lemma_frames_needed_same,
    missing_after_area,
    missing_in,
    taken_in,
    unmapped_upto,
};
use crate::mm::memory_set::MemorySet;
use crate::mm::space::{TRAMPOLINE_VPN, lemma_same_page_small, lemma_space_frames};
use crate::mm::page_table::{MapError, missing_nodes, token_of, translation};
use crate::task::context::TaskContext;
use crate::task::switch::{__switch, switched};
use crate::task::task::{
    BootInfo,
    TaskControlBlock,
    TaskStatus,
    kernel_stack_area,
    lemma_kernel_stack_area,
    task_outcome,
};
use crate::trap::context::TrapContext;

pub mod context;
pub mod switch;
pub mod task;

verus! {

/// The number of the `d`-th task after the task `current`, in the order of
/// the task numbers and around from the last of `n` tasks to the first.
#[verifier::opaque]
pub open spec fn turn(n: int, current: int, d: int) -> int {
    (current + d) % n
}

/// The `d`-th task after a task is one of the tasks, and the `n`-th of `n`
/// is the task itself.
pub proof fn lemma_turn(n: int, current: int, d: int)
    requires
        0 <= current < n,
        0 <= d,
    ensures
        0 <= turn(n, current, d) < n,
        current + d < n ==> turn(n, current, d) == current + d,
        n <= current + d < 2 * n ==> turn(n, current, d) == current + d - n,
{
    reveal(turn);
    if current + d < n {
        vstd::arithmetic::div_mod::lemma_small_mod((current + d) as nat, n as nat);
    } else if current + d < 2 * n {
        vstd::arithmetic::div_mod::lemma_mod_add_multiples_vanish(current + d - n, n);
        vstd::arithmetic::div_mod::lemma_small_mod((current + d - n) as nat, n as nat);
    } else {
        vstd::arithmetic::div_mod::lemma_mod_bound(current + d, n);
    }
}

/// The task that the scheduler picks when it looks at the tasks after the
/// current one in turn, the `d`-th first, and at the current one last: the
/// first that is ready.
pub open spec fn scan_ready(statuses: Seq<TaskStatus>, current: int, d: int) -> Option<int>
    decreases statuses.len() - d + 1,
{
    if d < 1 || d > statuses.len() {
        None
    } else if statuses[turn(statuses.len() as int, current, d)] == TaskStatus::Ready {
        Some(turn(statuses.len() as int, current, d))
    } else {
        scan_ready(statuses, current, d + 1)
    }
}

/// The task that runs next: the first ready one after the current task,
/// in the order of the task numbers and around from the last to the first.
pub open spec fn next_ready(statuses: Seq<TaskStatus>, current: int) -> Option<int> {
    scan_ready(statuses, current, 1)
}

/// The two address spaces own no frame in common.
pub open spec fn apart(a: &MemorySet, b: &MemorySet) -> bool {
    forall|p: u64| !(#[trigger] a.owns(p) && b.owns(p))
}

/// The number of nodes that are missing on the walk to the entry of `w` in
/// the address space of the kernel once the kernel stacks of the first `i`
/// tasks are mapped, where `start` were missing before.
pub open spec fn kernel_missing(start: spec_fn(u64) -> nat, i: int, w: u64) -> nat
    decreases i,
{
    if i <= 0 {
        start(w)
    } else {
        missing_after_area(
            kernel_missing(start, i - 1, w),
            kernel_stack_area((i - 1) as usize),
            w,
        )
    }
}

/// The number of frames that it takes to make the tasks of the first `i`
/// images: for each, the frames of its address space, and what its kernel
/// stack takes in the address space of the kernel after those before it.
pub open spec fn tasks_frames(images: Seq<ElfImage>, start: spec_fn(u64) -> nat, i: int) -> int
    decreases i,
{
    if i <= 0 {
        0
    } else {
        tasks_frames(images, start, i - 1) + images[i - 1].frames() + frames_needed(
            |w: u64| kernel_missing(start, i - 1, w),
            kernel_stack_area((i - 1) as usize),
            kernel_stack_area((i - 1) as usize).len(),
        )
    }
}

/// How making the tasks of the images ends from the `i`-th on, where the
/// tasks before it are made, `mem` is the memory and `root` the root of the
/// address space of the kernel before any was made, and `free` frames were
/// free then: as making the first task ends that cannot be made.
pub open spec fn tasks_outcome(
    images: Seq<ElfImage>,
    mem: &PhysMemory,
    root: u64,
    i: int,
    free: int,
) -> Option<MapError>
    decreases images.len() - i,
{
    if i < 0 || i >= images.len() {
        None
    } else {
        match task_outcome(
            &images[i],
            i as usize,
            |w: u64| kernel_missing(missing_in(mem, root), i, w),
            taken_in(mem, root, kernel_stack_area(i as usize)),
            free - tasks_frames(images, missing_in(mem, root), i),
        ) {
            Some(e) => Some(e),
            None => tasks_outcome(images, mem, root, i + 1, free),
        }
    }
}

/// The first tasks take no more frames than all of them.
pub proof fn lemma_tasks_frames(
    images: Seq<ElfImage>,
    start: spec_fn(u64) -> nat,
    k: int,
    n: int,
)
    requires
        0 <= k <= n <= images.len(),
    ensures
        0 <= tasks_frames(images, start, k) <= tasks_frames(images, start, n),
    decreases n,
{
    if k < n {
        lemma_tasks_frames(images, start, k, n - 1);
        lemma_task_frames(images, start, n);
    } else if k > 0 {
        lemma_tasks_frames(images, start, k - 1, k - 1);
        lemma_task_frames(images, start, k);
    }
}

/// A task takes a number of frames that is not negative.
pub proof fn lemma_task_frames(images: Seq<ElfImage>, start: spec_fn(u64) -> nat, i: int)
    requires
        0 < i <= images.len(),
    ensures
        tasks_frames(images, start, i - 1) <= tasks_frames(images, start, i),
{
    let image = images[i - 1];
    lemma_space_frames(image.areas(), 0, image.areas().len() as int);
    let stack = kernel_stack_area((i - 1) as usize);
    if stack.len() > 0 {
        lemma_frames_needed(|w: u64| kernel_missing(start, i - 1, w), stack, 0, stack.len());
    }
}

/// The places of the kernel stacks of the first `n` tasks are free in the
/// address space of the kernel that is rooted at `root`.
pub open spec fn stacks_free(mem: &PhysMemory, root: u64, n: int) -> bool {
    forall|j: usize, v: u64|
        j < n && (#[trigger] kernel_stack_area(j)).contains_vpn(v) ==> (#[trigger] translation(
            mem,
            root,
            v,
        )) is None
}

/// One of the tasks from the `from`-th on owns the frame.
pub open spec fn owned_from(tasks: Seq<TaskControlBlock>, from: int, ppn: u64) -> bool {
    exists|i: int| from <= i < tasks.len() && (#[trigger] tasks[i]).memory_set.owns(ppn)
}

/// Gives the frames of the address spaces of the tasks back to the
/// allocator. The tasks own no frame in common, so that what one gives
/// back is still in use for no other.
fn release_tasks(
    tasks: Vec<TaskControlBlock>,
    allocator: &mut StackFrameAllocator,
    mem: &PhysMemory,
)
    requires
        old(allocator)@.wf(),
        old(allocator)@.covered_by(mem),
        forall|i: int|
            0 <= i < tasks@.len() ==> (#[trigger] tasks@[i]).memory_set.wf(mem)
                && tasks@[i].memory_set.frames_allocated(old(allocator)@),
        forall|i: int, j: int|
            0 <= i < j < tasks@.len() ==> apart(
                &(#[trigger] tasks@[i]).memory_set,
                &(#[trigger] tasks@[j]).memory_set,
            ),
    ensures
        final(allocator)@.wf(),
        final(allocator)@.covered_by(mem),
        forall|p: u64|
            #[trigger] final(allocator)@.is_allocated(p) <==> old(allocator)@.is_allocated(p)
                && !owned_from(tasks@, 0, p),
        forall|p: u64|
            #[trigger] final(allocator)@.is_free(p) <==> old(allocator)@.is_free(p) || owned_from(
                tasks@,
                0,
                p,
            ),
{
    let ghost all = tasks@;
    let mut tasks = tasks;
    while tasks.len() > 0
        invariant
            tasks@.len() <= all.len(),
            tasks@ == all.take(tasks@.len() as int),
            allocator@.wf(),
            allocator@.covered_by(mem),
            forall|i: int|
                0 <= i < all.len() ==> (#[trigger] all[i]).memory_set.wf(mem)
                    && all[i].memory_set.frames_allocated(old(allocator)@),
            forall|i: int, j: int|
                0 <= i < j < all.len() ==> apart(
                    &(#[trigger] all[i]).memory_set,
                    &(#[trigger] all[j]).memory_set,
                ),
            forall|p: u64|
                #[trigger] allocator@.is_allocated(p) <==> old(allocator)@.is_allocated(p)
                    && !owned_from(all, tasks@.len() as int, p),
            forall|p: u64|
                #[trigger] allocator@.is_free(p) <==> old(allocator)@.is_free(p) || owned_from(
                    all,
                    tasks@.len() as int,
                    p,
                ),
        decreases tasks@.len(),
    {
        let ghost n = tasks@.len() as int;
        let ghost before = allocator@;
        let task = tasks.pop().unwrap();
        proof {
            assert(task == all[n - 1]);
            assert(tasks@ =~= all.take(n - 1));
            task.memory_set.lemma_wf(mem);
            assert forall|p: u64| #[trigger] task.memory_set.owns(p) implies before.is_allocated(
                p,
            ) by {
                assert(old(allocator)@.is_allocated(p));
                if owned_from(all, n, p) {
                    let i = choose|i: int|
                        n <= i < all.len() && (#[trigger] all[i]).memory_set.owns(p);
                    assert(apart(&all[n - 1].memory_set, &all[i].memory_set));
                }
            }
        }
        task.memory_set.release(allocator, mem);
        proof {
            assert forall|p: u64| owned_from(all, n - 1, p) <==> owned_from(all, n, p)
                || task.memory_set.owns(p) by {
                if owned_from(all, n - 1, p) {
                    let i = choose|i: int|
                        n - 1 <= i < all.len() && (#[trigger] all[i]).memory_set.owns(p);
                    if i >= n {
                        assert(owned_from(all, n, p));
                    }
                }
                if owned_from(all, n, p) {
                    let i = choose|i: int|
                        n <= i < all.len() && (#[trigger] all[i]).memory_set.owns(p);
                    assert(all[i].memory_set.owns(p));
                }
                if task.memory_set.owns(p) {
                    assert(all[n - 1].memory_set.owns(p));
                }
            }
            assert forall|p: u64| #[trigger]
                allocator@.is_allocated(p) <==> old(allocator)@.is_allocated(p) && !owned_from(
                    all,
                    n - 1,
                    p,
                ) by {
                assert(before.is_allocated(p) <==> old(allocator)@.is_allocated(p) && !owned_from(
                    all,
                    n,
                    p,
                ));
            }
            assert forall|p: u64| #[trigger]
                allocator@.is_free(p) <==> old(allocator)@.is_free(p) || owned_from(
                    all,
                    n - 1,
                    p,
                ) by {
                assert(before.is_free(p) <==> old(allocator)@.is_free(p) || owned_from(all, n, p));
            }
            assert forall|p: u64| #[trigger] allocator@.is_free(p) implies mem.contains(p) by {
                if !task.memory_set.owns(p) {
                    assert(before.is_free(p));
                }
            }
        }
    }
}

/// The tasks of the kernel and the number of the one that runs.
pub struct TaskManager {
    num_app: usize,
    tasks: Vec<TaskControlBlock>,
    current_task: usize,
}

impl TaskManager {
    /// The tasks, by their numbers.
    pub closed spec fn tasks(&self) -> Seq<TaskControlBlock> {
        self.tasks@
    }

    /// The number of the current task.
    pub closed spec fn current(&self) -> int {
        self.current_task as int
    }

    /// The number of tasks.
    pub closed spec fn num_app(&self) -> int {
        self.num_app as int
    }

    /// The status of each task.
    pub open spec fn statuses(&self) -> Seq<TaskStatus> {
        self.tasks().map_values(|t: TaskControlBlock| t.task_status)
    }

    /// There is a task, and the current task is one of the tasks.
    pub open spec fn sched_wf(&self) -> bool {
        &&& self.num_app() == self.tasks().len()
        &&& 0 <= self.current() < self.num_app()
    }

    /// Nothing has changed but the status and the saved registers of tasks.
    pub open spec fn same_tasks(&self, before: &TaskManager) -> bool {
        &&& self.num_app() == before.num_app()
        &&& self.tasks().len() == before.tasks().len()
        &&& forall|i: int|
            0 <= i < self.tasks().len() ==> {
                &&& (#[trigger] self.tasks()[i]).memory_set == before.tasks()[i].memory_set
                &&& self.tasks()[i].trap_cx_ppn == before.tasks()[i].trap_cx_ppn
                &&& self.tasks()[i].base_size == before.tasks()[i].base_size
            }
    }

    /// The tasks are well-formed in `mem`, and isolated from each other:
    /// no two of their address spaces own a frame in common, and all map
    /// the same trampoline frame.
    pub open spec fn wf(&self, mem: &PhysMemory) -> bool {
        &&& self.num_app() == self.tasks().len()
        &&& 0 <= self.current()
        &&& self.num_app() > 0 ==> self.current() < self.num_app()
        &&& forall|i: int| 0 <= i < self.tasks().len() ==> (#[trigger] self.tasks()[i]).wf(mem)
        &&& forall|i: int, j: int|
            0 <= i < j < self.tasks().len() ==> apart(
                &(#[trigger] self.tasks()[i]).memory_set,
                &(#[trigger] self.tasks()[j]).memory_set,
            ) && self.tasks()[i].memory_set.trampoline() == self.tasks()[j].memory_set.trampoline()
    }

    /// Isolation: two pages of two different tasks that are mapped to one
    /// frame are the trampoline pages of the two, and the frame is that of
    /// the trampoline. Two tasks share no other frame.
    pub proof fn lemma_tasks_isolated(&self, mem: &PhysMemory, i: int, j: int, v: u64, w: u64)
        requires
            self.wf(mem),
            0 <= i < self.tasks().len(),
            0 <= j < self.tasks().len(),
            i != j,
            translation(mem, self.tasks()[i].memory_set.root(), v) is Some,
            translation(mem, self.tasks()[j].memory_set.root(), w) is Some,
            translation(mem, self.tasks()[i].memory_set.root(), v)->0.ppn() == translation(
                mem,
                self.tasks()[j].memory_set.root(),
                w,
            )->0.ppn(),
        ensures
            Some(translation(mem, self.tasks()[i].memory_set.root(), v)->0.ppn())
                == self.tasks()[i].memory_set.trampoline(),
            vpn_bits(v) == TRAMPOLINE_VPN,
            vpn_bits(w) == TRAMPOLINE_VPN,
    {
        let a = self.tasks()[i];
        let b = self.tasks()[j];
        assert(a.wf(mem) && b.wf(mem));
        if i < j {
            assert(apart(&a.memory_set, &b.memory_set));
            assert(a.memory_set.trampoline() == b.memory_set.trampoline());
        } else {
            assert(apart(&b.memory_set, &a.memory_set));
            assert(b.memory_set.trampoline() == a.memory_set.trampoline());
        }
        assert forall|p: u64| !(a.memory_set.owns(p) && b.memory_set.owns(p)) by {}
        a.memory_set.lemma_isolation(&b.memory_set, mem, v, w);
    }

    /// The tasks of the images, in their order, all ready to run, with the
    /// first as the current task. Each task is made as by
    /// `TaskControlBlock::new`; the first that cannot be made ends the
    /// making with its error, and the frames of the address spaces of the
    /// tasks made before it are given back.
    #[verifier::rlimit(100)]
    pub fn new(
        images: &Vec<ElfImage>,
        kernel_space: &mut MemorySet,
        allocator: &mut StackFrameAllocator,
        mem: &mut PhysMemory,
        boot: &BootInfo,
    ) -> (r: Result<TaskManager, MapError>)
        requires
            old(kernel_space).wf(old(mem)),
            old(kernel_space).frames_allocated(old(allocator)@),
            old(allocator)@.wf(),
            old(allocator)@.covered_by(old(mem)),
            old(kernel_space).trampoline() == Some(boot.trampoline),
            boot.trampoline.0 < 0x1000_0000_0000,
            !old(allocator)@.is_free(boot.trampoline.0),
        ensures
            final(kernel_space).wf(final(mem)),
            final(kernel_space).frames_allocated(final(allocator)@),
            final(kernel_space).root() == old(kernel_space).root(),
            final(kernel_space).trampoline() == old(kernel_space).trampoline(),
            final(allocator)@.wf(),
            final(allocator)@.covered_by(final(mem)),
            final(mem).wf(),
            final(mem).base() == old(mem).base(),
            final(mem).frame_count() == old(mem).frame_count(),
            forall|p: u64|
                #[trigger] old(allocator)@.is_allocated(p) ==> final(allocator)@.is_allocated(p),
            forall|p: u64| #[trigger] final(allocator)@.is_free(p) ==> old(allocator)@.is_free(p),
            forall|p: u64|
                old(allocator)@.is_allocated(p) && !old(kernel_space).owns(p)
                    ==> #[trigger] final(mem).frame(p) == old(mem).frame(p),
            error_of(r) == tasks_outcome(
                images@,
                old(mem),
                old(kernel_space).root(),
                0,
                old(allocator)@.free_count() as int,
            ),
            r is Ok <==> {
                &&& images@.len() <= MAX_APP_NUM
                &&& forall|i: int| 0 <= i < images@.len() ==> (#[trigger] images@[i]).valid()
                &&& stacks_free(old(mem), old(kernel_space).root(), images@.len() as int)
                &&& tasks_frames(
                    images@,
                    missing_in(old(mem), old(kernel_space).root()),
                    images@.len() as int,
                ) <= old(allocator)@.free_count()
            },
            r is Ok ==> final(allocator)@.free_count() == old(allocator)@.free_count()
                - tasks_frames(
                images@,
                missing_in(old(mem), old(kernel_space).root()),
                images@.len() as int,
            ),
            match r {
                Ok(manager) => {
                    &&& manager.wf(final(mem))
                    &&& manager.num_app() == images@.len()
                    &&& manager.current() == 0
                    &&& forall|i: int|
                        0 <= i < images@.len() ==> {
                            &&& (#[trigger] manager.tasks()[i]).made_from(
                                final(mem),
                                &images@[i],
                                i as usize,
                                final(kernel_space).root(),
                                boot,
                            )
                            &&& manager.tasks()[i].memory_set.frames_allocated(final(allocator)@)
                            &&& apart(&manager.tasks()[i].memory_set, final(kernel_space))
                            &&& forall|p: u64|
                                #[trigger] manager.tasks()[i].memory_set.owns(p) ==> old(
                                    allocator,
                                )@.is_free(p)
                        }
                },
                Err(e) => {
                    &&& forall|p: u64|
                        #[trigger] final(allocator)@.is_allocated(p) ==> old(
                            allocator,
                        )@.is_allocated(p) || final(kernel_space).owns(p)
                    &&& (images@.len() <= MAX_APP_NUM && (forall|i: int|
                        0 <= i < images@.len() ==> (#[trigger] images@[i]).valid()) && stacks_free(
                        old(mem),
                        old(kernel_space).root(),
                        images@.len() as int,
                    )) ==> e == MapError::OutOfFrames
                },
            },
    {
        let ghost a0 = allocator@;
        let ghost kernel0 = *kernel_space;
        let n: usize = images.len();
        let mut tasks: Vec<TaskControlBlock> = Vec::new();
        let mut k: usize = 0;
        proof {
            kernel_space.lemma_wf(mem);
        }
        while k < n
            invariant
                k <= n,
                n == images@.len(),
                tasks@.len() == k,
                a0 == old(allocator)@,
                kernel0 == *old(kernel_space),
                boot.trampoline.0 < 0x1000_0000_0000,
                !a0.is_free(boot.trampoline.0),
                kernel_space.wf(mem),
                kernel_space.frames_allocated(allocator@),
                kernel_space.root() == kernel0.root(),
                kernel_space.trampoline() == kernel0.trampoline(),
                allocator@.wf(),
                allocator@.covered_by(mem),
                mem.wf(),
                mem.base() == old(mem).base(),
                mem.frame_count() == old(mem).frame_count(),
                forall|p: u64| kernel0.owns(p) ==> #[trigger] kernel_space.owns(p),
                forall|p: u64| #[trigger] kernel_space.owns(p) && !kernel0.owns(p) ==> !a0.is_allocated(p),
                forall|p: u64| #[trigger] a0.is_allocated(p) ==> allocator@.is_allocated(p),
                forall|p: u64| #[trigger] allocator@.is_free(p) ==> a0.is_free(p),
                forall|p: u64|
                    #[trigger] allocator@.is_allocated(p) ==> a0.is_allocated(p)
                        || kernel_space.owns(p) || owned_from(tasks@, 0, p),
                forall|p: u64|
                    a0.is_allocated(p) && !kernel0.owns(p) ==> #[trigger] mem.frame(p) == old(
                        mem,
                    ).frame(p),
                forall|i: int|
                    0 <= i < k ==> {
                        &&& (#[trigger] tasks@[i]).wf(mem)
                        &&& tasks@[i].made_from(
                            mem,
                            &images@[i],
                            i as usize,
                            kernel_space.root(),
                            boot,
                        )
                        &&& tasks@[i].memory_set.frames_allocated(allocator@)
                        &&& apart(&tasks@[i].memory_set, kernel_space)
                        &&& forall|p: u64| #[trigger] tasks@[i].memory_set.owns(p) ==> a0.is_free(p)
                    },
                forall|i: int, j: int|
                    0 <= i < j < k ==> apart(
                        &(#[trigger] tasks@[i]).memory_set,
                        &(#[trigger] tasks@[j]).memory_set,
                    ),
                k <= MAX_APP_NUM,
                kernel_space.trampoline() == Some(boot.trampoline),
                tasks_outcome(images@, old(mem), kernel0.root(), 0, a0.free_count() as int)
                    == tasks_outcome(
                    images@,
                    old(mem),
                    kernel0.root(),
                    k as int,
                    a0.free_count() as int,
                ),
                forall|i: int| 0 <= i < k ==> (#[trigger] images@[i]).valid(),
                stacks_free(old(mem), kernel0.root(), k as int),
                allocator@.free_count() == a0.free_count() - tasks_frames(
                    images@,
                    missing_in(old(mem), kernel0.root()),
                    k as int,
                ),
                forall|w: u64|
                    w < 0x800_0000 ==> #[trigger] missing_nodes(mem, kernel_space.root(), w)
                        == kernel_missing(missing_in(old(mem), kernel0.root()), k as int, w),
                forall|j: usize, v: u64|
                    k <= j < n && j < MAX_APP_NUM && (#[trigger] kernel_stack_area(j)).contains_vpn(
                        v,
                    ) ==> #[trigger] translation(mem, kernel_space.root(), v) == translation(
                        old(mem),
                        kernel0.root(),
                        v,
                    ),
            decreases n - k,
        {
            let ghost a_prev = allocator@;
            let ghost m_prev = *mem;
            let ghost kernel_prev = *kernel_space;
            let ghost made = tasks@;
            let ghost start = missing_in(old(mem), kernel0.root());
            let ghost stack = kernel_stack_area(k);
            proof {
                lemma_tasks_frames(images@, start, k + 1, n as int);
                assert forall|w: u64| w < 0x800_0000 implies #[trigger] missing_in(
                    &m_prev,
                    kernel_prev.root(),
                )(w) == (|w: u64| kernel_missing(start, k as int, w))(w) by {
                    assert(missing_nodes(&m_prev, kernel_prev.root(), w) == kernel_missing(
                        start,
                        k as int,
                        w,
                    ));
                }
                if k < MAX_APP_NUM {
                    lemma_kernel_stack_area(k);
                    lemma_frames_needed_same(
                        missing_in(&m_prev, kernel_prev.root()),
                        |w: u64| kernel_missing(start, k as int, w),
                        stack,
                        stack.len(),
                    );
                    assert forall|i: int| 0 <= i < stack.len() implies #[trigger] taken_in(
                        &m_prev,
                        kernel_prev.root(),
                        stack,
                    )(i) == taken_in(old(mem), kernel0.root(), stack)(i) by {
                        let v = (stack.start.0 + i) as u64;
                        assert(stack.contains_vpn(v));
                        assert(translation(&m_prev, kernel_prev.root(), v) == translation(
                            old(mem),
                            kernel0.root(),
                            v,
                        ));
                    }
                    lemma_area_outcome_same(
                        missing_in(&m_prev, kernel_prev.root()),
                        |w: u64| kernel_missing(start, k as int, w),
                        taken_in(&m_prev, kernel_prev.root(), stack),
                        taken_in(old(mem), kernel0.root(), stack),
                        stack,
                        a_prev.free_count() - images@[k as int].frames(),
                    );
                    if stacks_free(old(mem), kernel0.root(), n as int) {
                        assert forall|i: int| 0 <= i < stack.len() implies (#[trigger] translation(
                            &m_prev,
                            kernel_prev.root(),
                            (stack.start.0 + i) as u64,
                        )) is None by {
                            let v = (stack.start.0 + i) as u64;
                            assert(stack.contains_vpn(v));
                            assert(translation(&m_prev, kernel_prev.root(), v) == translation(
                                old(mem),
                                kernel0.root(),
                                v,
                            ));
                            assert(translation(old(mem), kernel0.root(), v) is None);
                        }
                        assert(unmapped_upto(&m_prev, kernel_prev.root(), stack, stack.len()));
                    }
                }
            }
            let task = match TaskControlBlock::new(
                &images[k],
                k,
                kernel_space,
                allocator,
                mem,
                boot,
            ) {
                Ok(task) => task,
                Err(e) => {
                    proof {
                        lemma_kernel_step(
                            &kernel0,
                            &kernel_prev,
                            kernel_space,
                            a0,
                            a_prev,
                            old(mem),
                            &m_prev,
                            mem,
                        );
                        if n <= MAX_APP_NUM && stacks_free(old(mem), kernel0.root(), n as int) {
                            assert forall|v: u64| kernel_stack_area(k).contains_vpn(v) implies (
                            #[trigger] translation(&m_prev, kernel_prev.root(), v)) is None by {
                                assert(translation(&m_prev, kernel_prev.root(), v) == translation(
                                    old(mem),
                                    kernel0.root(),
                                    v,
                                ));
                                assert(translation(old(mem), kernel0.root(), v) is None);
                            }
                        }
                        assert forall|i: int| 0 <= i < k implies (#[trigger] made[i]).memory_set.wf(
                            mem,
                        ) && made[i].memory_set.frames_allocated(allocator@) by {
                            let earlier = made[i];
                            assert(earlier.wf(&m_prev));
                            assert(apart(&earlier.memory_set, &kernel_prev));
                            assert forall|p: u64| earlier.memory_set.owns(
                                p,
                            ) implies #[trigger] mem.frame(p) == m_prev.frame(p)
                                && allocator@.is_allocated(p) by {
                                assert(a_prev.is_allocated(p));
                                assert(!kernel_prev.owns(p));
                                if kernel_prev.nodes().contains(p) {
                                    assert(kernel_prev.owns(p));
                                }
                            }
                            earlier.lemma_wf_kept(&m_prev, mem);
                        }
                    }
                    let ghost a_failed = allocator@;
                    release_tasks(tasks, allocator, mem);
                    proof {
                        assert forall|p: u64| #[trigger] kernel_space.owns(
                            p,
                        ) implies allocator@.is_allocated(p) by {
                            assert(a_failed.is_allocated(p));
                            if owned_from(made, 0, p) {
                                let i = choose|i: int|
                                    0 <= i < made.len() && (#[trigger] made[i]).memory_set.owns(p);
                                assert(apart(&made[i].memory_set, &kernel_prev));
                                assert(a_prev.is_allocated(p));
                            }
                        }
                        assert forall|p: u64| #[trigger] a0.is_allocated(
                            p,
                        ) implies allocator@.is_allocated(p) by {
                            assert(a_prev.is_allocated(p));
                            assert(a_failed.is_allocated(p));
                            if owned_from(made, 0, p) {
                                let i = choose|i: int|
                                    0 <= i < made.len() && (#[trigger] made[i]).memory_set.owns(p);
                                assert(a0.is_free(p));
                            }
                        }
                        assert forall|p: u64| #[trigger] allocator@.is_free(p) implies a0.is_free(
                            p,
                        ) by {
                            if owned_from(made, 0, p) {
                                let i = choose|i: int|
                                    0 <= i < made.len() && (#[trigger] made[i]).memory_set.owns(p);
                                assert(a0.is_free(p));
                            } else {
                                assert(a_failed.is_free(p));
                                assert(a_prev.is_free(p));
                            }
                        }
                        assert forall|p: u64| #[trigger] allocator@.is_allocated(
                            p,
                        ) implies a0.is_allocated(p) || kernel_space.owns(p) by {
                            assert(a_failed.is_allocated(p));
                            assert(!owned_from(made, 0, p));
                            assert(a_prev.is_allocated(p) || kernel_space.owns(p));
                            if a_prev.is_allocated(p) && !kernel_space.owns(p) {
                                assert(a0.is_allocated(p) || kernel_prev.owns(p) || owned_from(
                                    made,
                                    0,
                                    p,
                                ));
                                if kernel_prev.owns(p) {
                                    assert(kernel_space.owns(p));
                                }
                            }
                        }
                    }
                    return Err(e);
                },
            };
            proof {
                lemma_kernel_step(
                    &kernel0,
                    &kernel_prev,
                    kernel_space,
                    a0,
                    a_prev,
                    old(mem),
                    &m_prev,
                    mem,
                );
                assert forall|i: int| 0 <= i < k implies {
                    &&& (#[trigger] made[i]).wf(mem)
                    &&& made[i].made_from(mem, &images@[i], i as usize, kernel_space.root(), boot)
                    &&& made[i].memory_set.frames_allocated(allocator@)
                    &&& apart(&made[i].memory_set, kernel_space)
                    &&& apart(&made[i].memory_set, &task.memory_set)
                } by {
                    let earlier = made[i];
                    assert(earlier.wf(&m_prev));
                    assert(apart(&earlier.memory_set, &kernel_prev));
                    assert forall|p: u64| earlier.memory_set.owns(p) implies #[trigger] mem.frame(p)
                        == m_prev.frame(p) && a_prev.is_allocated(p) && allocator@.is_allocated(p)
                        && !kernel_space.owns(p) && !task.memory_set.owns(p) by {
                        assert(a_prev.is_allocated(p));
                        assert(!kernel_prev.owns(p));
                        if kernel_prev.nodes().contains(p) {
                            assert(kernel_prev.owns(p));
                        }
                        if kernel_space.owns(p) {
                            assert(!a_prev.is_allocated(p));
                        }
                        if task.memory_set.owns(p) {
                            assert(!a_prev.is_allocated(p));
                        }
                    }
                    earlier.lemma_kept(
                        &m_prev,
                        mem,
                        &images@[i],
                        i as usize,
                        kernel_space.root(),
                        boot,
                    );
                    assert forall|p: u64| !(#[trigger] earlier.memory_set.owns(p)
                        && kernel_space.owns(p)) by {}
                    assert forall|p: u64| !(#[trigger] earlier.memory_set.owns(p)
                        && task.memory_set.owns(p)) by {}
                }
                assert forall|p: u64| !(#[trigger] task.memory_set.owns(p) && kernel_space.owns(
                    p,
                )) by {}
                assert forall|p: u64| #[trigger] task.memory_set.owns(p) implies a0.is_free(p) by {
                    assert(a_prev.is_free(p));
                }
                assert forall|w: u64| w < 0x800_0000 implies #[trigger] missing_nodes(
                    mem,
                    kernel_space.root(),
                    w,
                ) == kernel_missing(start, k + 1, w) by {
                    assert(missing_nodes(&m_prev, kernel_prev.root(), w) == kernel_missing(
                        start,
                        k as int,
                        w,
                    ));
                }
                assert(stacks_free(old(mem), kernel0.root(), k + 1)) by {
                    assert forall|j: usize, v: u64|
                        j < k + 1 && (#[trigger] kernel_stack_area(j)).contains_vpn(v) implies (
                    #[trigger] translation(old(mem), kernel0.root(), v)) is None by {
                        if j == k {
                            let i = v - stack.start.0;
                            assert(translation(&m_prev, kernel_prev.root(), (stack.start.0 + i) as u64)
                                is None);
                            assert(translation(&m_prev, kernel_prev.root(), v) == translation(
                                old(mem),
                                kernel0.root(),
                                v,
                            ));
                        } else {
                            assert(stacks_free(old(mem), kernel0.root(), k as int));
                        }
                    }
                }
                assert forall|j: usize, v: u64|
                    k + 1 <= j < n && j < MAX_APP_NUM && (#[trigger] kernel_stack_area(
                        j,
                    )).contains_vpn(v) implies #[trigger] translation(mem, kernel_space.root(), v)
                    == translation(old(mem), kernel0.root(), v) by {
                    lemma_kernel_stack_area(j);
                    lemma_kernel_stack_area(k);
                    lemma_same_page_small(v, v);
                    assert(!kernel_stack_area(k).contains_vpn(v));
                    assert(translation(mem, kernel_space.root(), v) == translation(
                        &m_prev,
                        kernel_prev.root(),
                        v,
                    ));
                }
            }
            let ghost new_task = task;
            tasks.push(task);
            proof {
                assert forall|p: u64| #[trigger] allocator@.is_allocated(p) implies a0.is_allocated(
                    p,
                ) || kernel_space.owns(p) || owned_from(tasks@, 0, p) by {
                    if new_task.memory_set.owns(p) {
                        assert(tasks@[k as int].memory_set.owns(p));
                    } else if !kernel_space.owns(p) {
                        assert(a_prev.is_allocated(p));
                        assert(a0.is_allocated(p) || kernel_prev.owns(p) || owned_from(made, 0, p));
                        if kernel_prev.owns(p) {
                            assert(kernel_space.owns(p));
                        }
                        if owned_from(made, 0, p) {
                            let i = choose|i: int|
                                0 <= i < made.len() && (#[trigger] made[i]).memory_set.owns(p);
                            assert(tasks@[i].memory_set.owns(p));
                        }
                    }
                }
            }
            k += 1;
        }
        let manager = TaskManager { num_app: n, tasks, current_task: 0 };
        Ok(manager)
    }

    /// The tasks stay well-formed while only their statuses and their
    /// saved registers change.
    pub proof fn lemma_same_tasks(&self, before: &TaskManager, mem: &PhysMemory)
        requires
            before.wf(mem),
            self.same_tasks(before),
            self.sched_wf(),
        ensures
            self.wf(mem),
    {
        assert forall|i: int| 0 <= i < self.tasks().len() implies (#[trigger] self.tasks()[i]).wf(
            mem,
        ) by {
            assert(before.tasks()[i].wf(mem));
        }
        assert forall|i: int, j: int| 0 <= i < j < self.tasks().len() implies apart(
            &(#[trigger] self.tasks()[i]).memory_set,
            &(#[trigger] self.tasks()[j]).memory_set,
        ) && self.tasks()[i].memory_set.trampoline() == self.tasks()[j].memory_set.trampoline() by {
            assert(apart(&before.tasks()[i].memory_set, &before.tasks()[j].memory_set));
        }
    }

    /// The page number of the frame that holds the trap context of the
    /// current task.
    pub open spec fn current_trap_frame(&self) -> u64 {
        self.tasks()[self.current()].trap_cx_ppn.0
    }

    /// Writes the trap context of the current task to its frame. No other
    /// frame changes, and the tasks stay well-formed.
    pub fn set_current_trap_cx(&self, mem: &mut PhysMemory, cx: &TrapContext)
        requires
            self.sched_wf(),
            self.wf(old(mem)),
        ensures
            self.wf(final(mem)),
            final(mem).wf(),
            final(mem).agrees_except(old(mem), self.current_trap_frame()),
            cx.stored_at(final(mem), self.current_trap_frame()),
            forall|i: int|
                37 <= i < 512 ==> #[trigger] final(mem).word(self.current_trap_frame(), i) == old(
                    mem,
                ).word(self.current_trap_frame(), i),
    {
        self.tasks[self.current_task].set_trap_cx(mem, cx);
        proof {
            let current = self.current();
            let frame = self.current_trap_frame();
            assert(self.tasks()[current].wf(old(mem)));
            assert(self.tasks()[current].memory_set.owns(frame));
            assert forall|i: int| 0 <= i < self.tasks().len() implies (#[trigger] self.tasks()[i]).wf(
                mem,
            ) by {
                if i != current {
                    let other = self.tasks()[i];
                    assert(other.wf(old(mem)));
                    if i < current {
                        assert(apart(&other.memory_set, &self.tasks()[current].memory_set));
                    } else {
                        assert(apart(&self.tasks()[current].memory_set, &other.memory_set));
                    }
                    assert(!other.memory_set.owns(frame));
                    assert forall|p: u64| other.memory_set.owns(p) implies #[trigger] mem.frame(p)
                        == old(mem).frame(p) by {}
                    other.lemma_wf_kept(old(mem), mem);
                }
            }
        }
    }

    /// The number of tasks.
    pub fn get_num_app(&self) -> (r: usize)
        ensures
            r == self.num_app(),
    {
        self.num_app
    }

    /// The number of the current task.
    pub fn get_current(&self) -> (r: usize)
        ensures
            r == self.current(),
    {
        self.current_task
    }

    /// The status of the task with the number `id`.
    pub fn get_status(&self, id: usize) -> (r: TaskStatus)
        requires
            id < self.tasks().len(),
        ensures
            r == self.statuses()[id as int],
    {
        self.tasks[id].task_status
    }

    /// The task that runs next: the first ready one after the current
    /// task, in the order of the task numbers and around from the last to
    /// the first; none where no task is ready.
    pub fn find_next_task(&self) -> (r: Option<usize>)
        requires
            self.sched_wf(),
        ensures
            match r {
                Some(next) => next_ready(self.statuses(), self.current()) == Some(next as int),
                None => next_ready(self.statuses(), self.current()) is None,
            },
            r matches Some(next) ==> next < self.num_app() && self.statuses()[next as int]
                == TaskStatus::Ready,
    {
        let current = self.current_task;
        let n = self.num_app;
        let mut d: usize = 1;
        proof {
            lemma_scan_found(self.statuses(), self.current(), 1);
        }
        while d <= n
            invariant
                1 <= d <= n + 1,
                n == self.num_app,
                current == self.current_task,
                self.sched_wf(),
                n <= usize::MAX,
                next_ready(self.statuses(), self.current()) == scan_ready(
                    self.statuses(),
                    self.current(),
                    d as int,
                ),
            decreases n + 1 - d,
        {
            let id: usize = if d < n - current {
                current + d
            } else {
                d - (n - current)
            };
            proof {
                lemma_turn(n as int, current as int, d as int);
                assert(id == turn(n as int, current as int, d as int));
            }
            if self.tasks[id].task_status == TaskStatus::Ready {
                return Some(id);
            }
            proof {
                assert(self.statuses()[id as int] != TaskStatus::Ready);
                assert(scan_ready(self.statuses(), self.current(), d as int) == scan_ready(
                    self.statuses(),
                    self.current(),
                    d + 1,
                ));
            }
            if d == n {
                return None;
            }
            d += 1;
        }
        None
    }

    /// Marks the current task as exited.
    pub fn mark_current_exited(&mut self)
        requires
            old(self).sched_wf(),
        ensures
            final(self).sched_wf(),
            final(self).same_tasks(old(self)),
            final(self).current() == old(self).current(),
            final(self).statuses() == old(self).statuses().update(
                old(self).current(),
                TaskStatus::Exited,
            ),
            forall|i: int|
                0 <= i < final(self).tasks().len() ==> (#[trigger] final(self).tasks()[i]).task_cx
                    == old(self).tasks()[i].task_cx,
    {
        let current = self.current_task;
        self.tasks[current].task_status = TaskStatus::Exited;
        assert(self.statuses() =~= old(self).statuses().update(
            old(self).current(),
            TaskStatus::Exited,
        ));
    }

    /// What a switch to the task `next` makes of the tasks and of the
    /// registers of the processor: `next` runs and is the current task; the
    /// registers of the processor are saved with the task that was the
    /// current one, and those of `next` are loaded.
    pub open spec fn switched_to(
        &self,
        before: &TaskManager,
        next: int,
        cpu0: TaskContext,
        cpu1: TaskContext,
    ) -> bool {
        &&& self.sched_wf()
        &&& self.same_tasks(before)
        &&& self.current() == next
        &&& self.statuses() == before.statuses().update(next, TaskStatus::Running)
        &&& self.tasks()[before.current()].task_cx == cpu0
        &&& cpu1 == if next == before.current() {
            cpu0
        } else {
            before.tasks()[next].task_cx
        }
        &&& forall|i: int|
            0 <= i < self.tasks().len() && i != before.current() ==> (
            #[trigger] self.tasks()[i]).task_cx == before.tasks()[i].task_cx
    }

    /// Switches to the task that runs next, and tells its number. Some task
    /// is ready.
    pub fn run_next_task(&mut self, cpu: &mut TaskContext) -> (r: usize)
        requires
            old(self).sched_wf(),
            next_ready(old(self).statuses(), old(self).current()) is Some,
        ensures
            next_ready(old(self).statuses(), old(self).current()) == Some(r as int),
            final(self).switched_to(old(self), r as int, *old(cpu), *final(cpu)),
    {
        match self.find_next_task() {
            Some(next) => {
                let current = self.current_task;
                self.tasks[next].task_status = TaskStatus::Running;
                self.current_task = next;
                let mut current_task_cx = self.tasks[current].task_cx;
                if next == current {
                    current_task_cx = *cpu;
                } else {
                    let next_task_cx = self.tasks[next].task_cx;
                    __switch(cpu, &mut current_task_cx, &next_task_cx);
                }
                self.tasks[current].task_cx = current_task_cx;
                proof {
                    assert(self.statuses() =~= old(self).statuses().update(
                        next as int,
                        TaskStatus::Running,
                    ));
                    assert(self.same_tasks(old(self)));
                    assert(self.tasks()[old(self).current()].task_cx == *old(cpu));
                    assert forall|i: int|
                        0 <= i < self.tasks().len() && i != old(self).current() implies (
                    #[trigger] self.tasks()[i]).task_cx == old(self).tasks()[i].task_cx by {}
                }
                next
            },
            None => vstd::pervasive::unreached(),
        }
    }

    /// Starts the first task: it runs, and its registers are loaded into
    /// the processor. What the processor held before is dropped.
    pub fn run_first_task(&mut self, cpu: &mut TaskContext)
        requires
            old(self).sched_wf(),
        ensures
            final(self).sched_wf(),
            final(self).same_tasks(old(self)),
            final(self).current() == old(self).current(),
            final(self).statuses() == old(self).statuses().update(0, TaskStatus::Running),
            *final(cpu) == old(self).tasks()[0].task_cx,
            forall|i: int|
                0 <= i < final(self).tasks().len() ==> (#[trigger] final(self).tasks()[i]).task_cx
                    == old(self).tasks()[i].task_cx,
    {
        self.tasks[0].task_status = TaskStatus::Running;
        let next_task_cx = self.tasks[0].task_cx;
        let mut unused = TaskContext::zero_init();
        *cpu = unused;
        __switch(cpu, &mut unused, &next_task_cx);
        assert(self.statuses() =~= old(self).statuses().update(0, TaskStatus::Running));
    }

    /// The tasks have gone from `before` to `self` by the current task
    /// giving up the processor to the task `next`.
    pub open spec fn current_suspended(
        &self,
        before: &TaskManager,
        cpu0: TaskContext,
        cpu1: TaskContext,
        next: usize,
    ) -> bool {
        &&& self.sched_wf()
        &&& self.same_tasks(before)
        &&& (self.statuses(), self.current()) == after_yield(before.statuses(), before.current())
        &&& next == self.current()
        &&& next_ready(
            before.statuses().update(before.current(), TaskStatus::Ready),
            before.current(),
        ) == Some(next as int)
        &&& self.tasks()[before.current()].task_cx == cpu0
        &&& cpu1 == if next == before.current() {
            cpu0
        } else {
            before.tasks()[next as int].task_cx
        }
        &&& forall|i: int|
            0 <= i < self.tasks().len() && i != before.current() ==> (
            #[trigger] self.tasks()[i]).task_cx == before.tasks()[i].task_cx
    }

    /// The tasks have gone from `before` to `self` by the current task
    /// exiting: it has exited, and no other task has; the task `next`, if
    /// there is one, was ready, is another task, and runs now; every other
    /// task has its status as before.
    pub open spec fn current_exited(
        &self,
        before: &TaskManager,
        cpu0: TaskContext,
        cpu1: TaskContext,
        next: Option<usize>,
    ) -> bool {
        &&& self.sched_wf()
        &&& self.same_tasks(before)
        &&& match next_ready(
            before.statuses().update(before.current(), TaskStatus::Exited),
            before.current(),
        ) {
            Some(id) => {
                &&& next == Some(id as usize)
                &&& id != before.current()
                &&& self.current() == id
                &&& self.statuses() == before.statuses().update(
                    before.current(),
                    TaskStatus::Exited,
                ).update(id, TaskStatus::Running)
                &&& self.tasks()[before.current()].task_cx == cpu0
                &&& cpu1 == before.tasks()[id].task_cx
            },
            None => {
                &&& next is None
                &&& self.current() == before.current()
                &&& self.statuses() == before.statuses().update(
                    before.current(),
                    TaskStatus::Exited,
                )
                &&& cpu1 == cpu0
            },
        }
        &&& forall|i: int|
            0 <= i < self.tasks().len() && i != before.current() ==> (
            #[trigger] self.tasks()[i]).task_cx == before.tasks()[i].task_cx
    }

    /// Where the current task has exited, it is the only task that has: any
    /// other task has exited after exactly where it had before, and the
    /// task that runs next is none that had.
    pub proof fn lemma_exit_ends_one(
        &self,
        before: &TaskManager,
        cpu0: TaskContext,
        cpu1: TaskContext,
        next: Option<usize>,
    )
        requires
            before.sched_wf(),
            self.current_exited(before, cpu0, cpu1, next),
        ensures
            self.statuses()[before.current()] == TaskStatus::Exited,
            forall|i: int|
                0 <= i < self.statuses().len() && i != before.current() ==> (
                #[trigger] self.statuses()[i] == TaskStatus::Exited) == (before.statuses()[i]
                    == TaskStatus::Exited),
            next matches Some(id) ==> before.statuses()[id as int] == TaskStatus::Ready
                && self.statuses()[id as int] == TaskStatus::Running,
    {
        let exited = before.statuses().update(before.current(), TaskStatus::Exited);
        lemma_next_is_ready(exited, before.current());
    }

    /// The current task gives up the processor: it is ready, and the task
    /// that runs next is switched to. The result is the number of that
    /// task; there always is one, if only the task that gave up.
    pub fn suspend_current_and_run_next(&mut self, cpu: &mut TaskContext) -> (r: usize)
        requires
            old(self).sched_wf(),
        ensures
            final(self).current_suspended(old(self), *old(cpu), *final(cpu), r),
    {
        self.mark_current_suspend();
        let ghost suspended = *self;
        proof {
            lemma_none_ready(self.statuses(), self.current());
            assert(self.statuses()[self.current()] == TaskStatus::Ready);
            assert(next_ready(self.statuses(), self.current()) is Some);
        }
        let next = self.run_next_task(cpu);
        proof {
            assert forall|i: int| 0 <= i < self.tasks().len() implies {
                &&& (#[trigger] self.tasks()[i]).memory_set == old(self).tasks()[i].memory_set
                &&& self.tasks()[i].trap_cx_ppn == old(self).tasks()[i].trap_cx_ppn
                &&& self.tasks()[i].base_size == old(self).tasks()[i].base_size
            } by {
                assert(suspended.tasks()[i].memory_set == old(self).tasks()[i].memory_set);
            }
        }
        next
    }

    /// The current task exits, and the task that runs next is switched to.
    /// The result is the number of that task; there is none where no task
    /// is ready any more.
    pub fn exit_current_and_run_next(&mut self, cpu: &mut TaskContext) -> (r: Option<usize>)
        requires
            old(self).sched_wf(),
        ensures
            final(self).current_exited(old(self), *old(cpu), *final(cpu), r),
    {
        self.mark_current_exited();
        let ghost exited = *self;
        proof {
            lemma_next_is_ready(self.statuses(), self.current());
        }
        if self.find_next_task().is_none() {
            return None;
        }
        let next = self.run_next_task(cpu);
        proof {
            assert forall|i: int| 0 <= i < self.tasks().len() implies {
                &&& (#[trigger] self.tasks()[i]).memory_set == old(self).tasks()[i].memory_set
                &&& self.tasks()[i].trap_cx_ppn == old(self).tasks()[i].trap_cx_ppn
                &&& self.tasks()[i].base_size == old(self).tasks()[i].base_size
            } by {
                assert(exited.tasks()[i].memory_set == old(self).tasks()[i].memory_set);
            }
        }
        Some(next)
    }

    /// The token of the address space of the current task.
    pub fn get_current_token(&self) -> (r: u64)
        requires
            self.sched_wf(),
        ensures
            r == token_of(self.tasks()[self.current()].memory_set.root()),
    {
        self.tasks[self.current_task].get_user_token()
    }

    /// The trap context of the current task, read from its frame.
    pub fn get_current_trap_cx(&self, mem: &PhysMemory) -> (r: TrapContext)
        requires
            self.sched_wf(),
            self.tasks()[self.current()].wf(mem),
        ensures
            r.stored_at(mem, self.tasks()[self.current()].trap_cx_ppn.0),
    {
        self.tasks[self.current_task].get_trap_cx(mem)
    }

    /// Marks the current task as ready to run again.
    pub fn mark_current_suspend(&mut self)
        requires
            old(self).sched_wf(),
        ensures
            final(self).sched_wf(),
            final(self).same_tasks(old(self)),
            final(self).current() == old(self).current(),
            final(self).statuses() == old(self).statuses().update(
                old(self).current(),
                TaskStatus::Ready,
            ),
            forall|i: int|
                0 <= i < final(self).tasks().len() ==> (#[trigger] final(self).tasks()[i]).task_cx
                    == old(self).tasks()[i].task_cx,
    {
        let current = self.current_task;
        self.tasks[current].task_status = TaskStatus::Ready;
        assert(self.statuses() =~= old(self).statuses().update(
            old(self).current(),
            TaskStatus::Ready,
        ));
    }
}

/// The statuses and the current task after the current task has given up
/// the processor: it is ready, and the task that the scheduler picks runs.
pub open spec fn after_yield(statuses: Seq<TaskStatus>, current: int) -> (Seq<TaskStatus>, int) {
    let suspended = statuses.update(current, TaskStatus::Ready);
    match next_ready(suspended, current) {
        Some(next) => (suspended.update(next, TaskStatus::Running), next),
        None => (suspended, current),
    }
}

/// The statuses and the current task after the current task has given up
/// the processor `rounds` times in a row.
pub open spec fn after_yields(statuses: Seq<TaskStatus>, current: int, rounds: nat) -> (
    Seq<TaskStatus>,
    int,
)
    decreases rounds,
{
    if rounds == 0 {
        (statuses, current)
    } else {
        let before = after_yields(statuses, current, (rounds - 1) as nat);
        after_yield(before.0, before.1)
    }
}

/// One task runs and all the others are ready.
pub open spec fn all_live(statuses: Seq<TaskStatus>, current: int) -> bool {
    &&& 0 <= current < statuses.len()
    &&& forall|i: int|
        0 <= i < statuses.len() ==> #[trigger] statuses[i] == if i == current {
            TaskStatus::Running
        } else {
            TaskStatus::Ready
        }
}

/// With tasks that are all live, the task that runs after the current task
/// has given up the processor is the one after it in turn.
pub proof fn lemma_yield_in_turn(statuses: Seq<TaskStatus>, current: int)
    requires
        all_live(statuses, current),
    ensures
        after_yield(statuses, current).1 == turn(statuses.len() as int, current, 1),
        all_live(after_yield(statuses, current).0, after_yield(statuses, current).1),
{
    let n = statuses.len() as int;
    let suspended = statuses.update(current, TaskStatus::Ready);
    lemma_turn(n, current, 1);
    lemma_next_in_turn(suspended, current);
}

/// Round robin: with `n` tasks that are all live, the task that runs after
/// `rounds` rounds is the `rounds`-th after the first in turn. So the `n`
/// rounds that start with the task `current` run every task exactly once,
/// and after them `current` runs again.
pub proof fn lemma_round_robin(statuses: Seq<TaskStatus>, current: int, rounds: nat)
    requires
        all_live(statuses, current),
    ensures
        after_yields(statuses, current, rounds).0.len() == statuses.len(),
        all_live(
            after_yields(statuses, current, rounds).0,
            after_yields(statuses, current, rounds).1,
        ),
        after_yields(statuses, current, rounds).1 == turn(
            statuses.len() as int,
            current,
            rounds as int,
        ),
        rounds == statuses.len() ==> after_yields(statuses, current, rounds).1 == current,
        forall|earlier: nat|
            earlier < rounds < statuses.len() ==> #[trigger] after_yields(
                statuses,
                current,
                earlier,
            ).1 != after_yields(statuses, current, rounds).1,
    decreases rounds,
{
    let n = statuses.len() as int;
    reveal(turn);
    if rounds == 0 {
        vstd::arithmetic::div_mod::lemma_small_mod(current as nat, n as nat);
    } else {
        let before = after_yields(statuses, current, (rounds - 1) as nat);
        lemma_round_robin(statuses, current, (rounds - 1) as nat);
        lemma_yield_in_turn(before.0, before.1);
        assert(turn(n, before.1, 1) == turn(n, current, rounds as int)) by {
            vstd::arithmetic::div_mod::lemma_add_mod_noop(current + rounds - 1, 1, n);
            vstd::arithmetic::div_mod::lemma_mod_twice(current + rounds - 1, n);
            vstd::arithmetic::div_mod::lemma_add_mod_noop((current + rounds - 1) % n, 1, n);
        }
        if rounds == n {
            vstd::arithmetic::div_mod::lemma_mod_add_multiples_vanish(current, n);
            vstd::arithmetic::div_mod::lemma_small_mod(current as nat, n as nat);
        }
        assert forall|earlier: nat| earlier < rounds < statuses.len() implies #[trigger] after_yields(
            statuses,
            current,
            earlier,
        ).1 != after_yields(statuses, current, rounds).1 by {
            lemma_round_robin(statuses, current, earlier);
            lemma_turn(n, current, earlier as int);
            lemma_turn(n, current, rounds as int);
        }
    }
}

/// The task that the scan from the `d`-th task after the current one finds
/// is one of the tasks and is ready.
pub proof fn lemma_scan_found(statuses: Seq<TaskStatus>, current: int, d: int)
    requires
        1 <= d,
        0 <= current < statuses.len(),
    ensures
        scan_ready(statuses, current, d) matches Some(id) ==> 0 <= id < statuses.len()
            && statuses[id] == TaskStatus::Ready,
    decreases statuses.len() - d + 1,
{
    let n = statuses.len() as int;
    if d <= n {
        lemma_turn(n, current, d);
        if statuses[turn(n, current, d)] != TaskStatus::Ready {
            lemma_scan_found(statuses, current, d + 1);
        }
    }
}

/// Where the scan from the `d`-th task after the current one finds no
/// task, the `f`-th task after the current one is not ready, for any `f`
/// from `d` on.
pub proof fn lemma_scan_none(statuses: Seq<TaskStatus>, current: int, d: int, f: int)
    requires
        1 <= d <= f <= statuses.len(),
        0 <= current < statuses.len(),
        scan_ready(statuses, current, d) is None,
    ensures
        statuses[turn(statuses.len() as int, current, f)] != TaskStatus::Ready,
    decreases statuses.len() - d + 1,
{
    if d < f {
        lemma_scan_none(statuses, current, d + 1, f);
    }
}

/// The scan from the `d`-th task after the current one finds the first
/// task from there on that is ready.
pub proof fn lemma_scan_first(statuses: Seq<TaskStatus>, current: int, d: int, e: int)
    requires
        1 <= d <= e <= statuses.len(),
        0 <= current < statuses.len(),
        statuses[turn(statuses.len() as int, current, e)] == TaskStatus::Ready,
        forall|f: int|
            d <= f < e ==> statuses[#[trigger] turn(statuses.len() as int, current, f)]
                != TaskStatus::Ready,
    ensures
        scan_ready(statuses, current, d) == Some(turn(statuses.len() as int, current, e)),
    decreases e - d,
{
    if d < e {
        assert(statuses[turn(statuses.len() as int, current, d)] != TaskStatus::Ready);
        lemma_scan_first(statuses, current, d + 1, e);
    }
}

/// The scheduler never picks a task that is not ready, so never one that
/// has exited.
pub proof fn lemma_next_is_ready(statuses: Seq<TaskStatus>, current: int)
    requires
        0 <= current < statuses.len(),
    ensures
        next_ready(statuses, current) matches Some(id) ==> 0 <= id < statuses.len() && statuses[id]
            == TaskStatus::Ready,
{
    lemma_scan_found(statuses, current, 1);
}

/// The scheduler finds no task exactly when no task is ready; so it finds
/// none when all tasks have exited.
pub proof fn lemma_none_ready(statuses: Seq<TaskStatus>, current: int)
    requires
        0 <= current < statuses.len(),
    ensures
        next_ready(statuses, current) is None <==> forall|i: int|
            0 <= i < statuses.len() ==> #[trigger] statuses[i] != TaskStatus::Ready,
        (forall|i: int| 0 <= i < statuses.len() ==> #[trigger] statuses[i] == TaskStatus::Exited)
            ==> next_ready(statuses, current) is None,
{
    let n = statuses.len() as int;
    lemma_scan_found(statuses, current, 1);
    if next_ready(statuses, current) is None {
        assert forall|i: int| 0 <= i < n implies #[trigger] statuses[i] != TaskStatus::Ready by {
            let f = if i > current {
                i - current
            } else {
                i - current + n
            };
            lemma_turn(n, current, f);
            lemma_scan_none(statuses, current, 1, f);
        }
    }
}

/// Where every task but the current one is ready, the scheduler picks the
/// task after the current one, or the first task after the last.
pub proof fn lemma_next_in_turn(statuses: Seq<TaskStatus>, current: int)
    requires
        0 <= current < statuses.len(),
        forall|i: int| 0 <= i < statuses.len() ==> #[trigger] statuses[i] == TaskStatus::Ready,
    ensures
        next_ready(statuses, current) == Some(turn(statuses.len() as int, current, 1)),
{
    let n = statuses.len() as int;
    lemma_turn(n, current, 1);
    lemma_scan_first(statuses, current, 1, 1);
}

/// The current task of `manager` gives up the processor, and the task that
/// runs next is switched to; the result is its number.
pub fn suspend_current_and_run_next(manager: &mut TaskManager, cpu: &mut TaskContext) -> (r: usize)
    requires
        old(manager).sched_wf(),
    ensures
        final(manager).current_suspended(old(manager), *old(cpu), *final(cpu), r),
{
    manager.suspend_current_and_run_next(cpu)
}

/// The current task of `manager` exits, and the task that runs next is
/// switched to; the result is its number, and nothing where no task is
/// ready any more.
pub fn exit_current_and_run_next(manager: &mut TaskManager, cpu: &mut TaskContext) -> (r: Option<
    usize,
>)
    requires
        old(manager).sched_wf(),
    ensures
        final(manager).current_exited(old(manager), *old(cpu), *final(cpu), r),
{
    manager.exit_current_and_run_next(cpu)
}

/// Marks the current task of `manager` as ready to run again.
pub fn mark_current_suspend(manager: &mut TaskManager)
    requires
        old(manager).sched_wf(),
    ensures
        final(manager).sched_wf(),
        final(manager).same_tasks(old(manager)),
        final(manager).current() == old(manager).current(),
        final(manager).statuses() == old(manager).statuses().update(
            old(manager).current(),
            TaskStatus::Ready,
        ),
{
    manager.mark_current_suspend();
}

/// Marks the current task of `manager` as exited.
pub fn mark_current_exited(manager: &mut TaskManager)
    requires
        old(manager).sched_wf(),
    ensures
        final(manager).sched_wf(),
        final(manager).same_tasks(old(manager)),
        final(manager).current() == old(manager).current(),
        final(manager).statuses() == old(manager).statuses().update(
            old(manager).current(),
            TaskStatus::Exited,
        ),
{
    manager.mark_current_exited();
}

/// Starts the first task of `manager`: it runs, and its registers are
/// loaded into the processor.
pub fn run_first_task(manager: &mut TaskManager, cpu: &mut TaskContext)
    requires
        old(manager).sched_wf(),
    ensures
        final(manager).sched_wf(),
        final(manager).same_tasks(old(manager)),
        final(manager).current() == old(manager).current(),
        final(manager).statuses() == old(manager).statuses().update(0, TaskStatus::Running),
        *final(cpu) == old(manager).tasks()[0].task_cx,
{
    manager.run_first_task(cpu);
}

/// The token of the address space of the current task of `manager`.
pub fn current_user_token(manager: &TaskManager) -> (r: u64)
    requires
        manager.sched_wf(),
    ensures
        r == token_of(manager.tasks()[manager.current()].memory_set.root()),
{
    manager.get_current_token()
}

/// The trap context of the current task of `manager`, read from its frame.
pub fn current_trap_cx(manager: &TaskManager, mem: &PhysMemory) -> (r: TrapContext)
    requires
        manager.sched_wf(),
        manager.tasks()[manager.current()].wf(mem),
    ensures
        r.stored_at(mem, manager.current_trap_frame()),
{
    manager.get_current_trap_cx(mem)
}

/// What the address space of the kernel and the frames in use have gone
/// through while tasks were made, taken over one more task: the kernel has
/// kept what it owned; what it has come to own was not in use at the start;
/// the frames in use at the start are still in use and, unless the kernel
/// owned them, have kept their bytes.
pub proof fn lemma_kernel_step(
    kernel0: &MemorySet,
    kernel1: &MemorySet,
    kernel2: &MemorySet,
    a0: crate::mm::frame_allocator::FrameAllocatorModel,
    a1: crate::mm::frame_allocator::FrameAllocatorModel,
    m0: &PhysMemory,
    m1: &PhysMemory,
    m2: &PhysMemory,
)
    requires
        forall|p: u64| kernel0.owns(p) ==> #[trigger] kernel1.owns(p),
        forall|p: u64| #[trigger] kernel1.owns(p) && !kernel0.owns(p) ==> !a0.is_allocated(p),
        forall|p: u64| #[trigger] a0.is_allocated(p) ==> a1.is_allocated(p),
        forall|p: u64| a0.is_allocated(p) && !kernel0.owns(p) ==> #[trigger] m1.frame(p) == m0.frame(p),
        forall|p: u64| kernel1.owns(p) ==> #[trigger] kernel2.owns(p),
        forall|p: u64| #[trigger] kernel2.owns(p) && !kernel1.owns(p) ==> !a1.is_allocated(p),
        forall|p: u64|
            a1.is_allocated(p) && !kernel1.nodes().contains(p) ==> #[trigger] m2.frame(p)
                == m1.frame(p),
    ensures
        forall|p: u64| kernel0.owns(p) ==> #[trigger] kernel2.owns(p),
        forall|p: u64| #[trigger] kernel2.owns(p) && !kernel0.owns(p) ==> !a0.is_allocated(p),
        forall|p: u64| a0.is_allocated(p) && !kernel0.owns(p) ==> #[trigger] m2.frame(p) == m0.frame(p),
{
    assert forall|p: u64| kernel0.owns(p) implies #[trigger] kernel2.owns(p) by {
        assert(kernel1.owns(p));
    }
    assert forall|p: u64| #[trigger] kernel2.owns(p) && !kernel0.owns(p) implies !a0.is_allocated(
        p,
    ) by {
        if kernel1.owns(p) {
        } else {
            assert(!a1.is_allocated(p));
        }
    }
    assert forall|p: u64| a0.is_allocated(p) && !kernel0.owns(p) implies #[trigger] m2.frame(p)
        == m0.frame(p) by {
        assert(a1.is_allocated(p));
        if kernel1.nodes().contains(p) {
            assert(kernel1.owns(p));
        }
        assert(m2.frame(p) == m1.frame(p));
        assert(m1.frame(p) == m0.frame(p));
    }
}

} // verus!
