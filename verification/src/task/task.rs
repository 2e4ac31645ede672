//! The control block of a task.
use vstd::prelude::*;
use crate::config::{MAX_APP_NUM, kernel_stack_position};
use crate::mm::address::{PhysPageNum, VirtAddr, VirtPageNum};
use crate::mm::frame_allocator::{FrameAllocatorModel, StackFrameAllocator};
use crate::mm::memory::PhysMemory;
use crate::mm::image::{ElfImage, max_end_vpn, trap_context_area};
use crate::mm::map_area::{
    MapArea,
    MapPermission,
    area_outcome,
    error_of,
    framed_area,
    frames_needed,
    lemma_area_outcome_same,
    lemma_frames_needed,
    lemma_frames_needed_same,
    missing_after_area,
    missing_in,
    taken_in,
    unmapped_upto,
};
use crate::mm::memory_set::MemorySet;
use crate::mm::space::TRAP_CONTEXT_VPN;
use crate::mm::page_table::{MapError, missing_nodes, token_of, translation};
use crate::task::context::TaskContext;
use crate::trap::context::TrapContext;

verus! {

/// Where a task is in its life. A task is made ready, runs and is ready
/// again any number of times, and in the end has exited for good.
#[derive(Copy, Clone, Debug, PartialEq, Eq, Structural)]
pub enum TaskStatus {
    UnInit,
    Ready,
    Running,
    Exited,
}

/// What the platform hands to the kernel when tasks are made.
#[derive(Copy, Clone, Debug)]
pub struct BootInfo {
    /// The frame that holds the trampoline code.
    pub trampoline: PhysPageNum,
    /// The address of the trap handler.
    pub trap_handler: u64,
    /// The address of the code that returns from a trap to user mode.
    pub trap_return: u64,
    /// The supervisor status register as it reads at boot.
    pub sstatus: u64,
}

/// The virtual address of the kernel that the kernel stack of the task with
/// the number `app_id` ends at.
pub open spec fn kernel_stack_top(app_id: usize) -> u64 {
    (0xffff_ffff_ffff_f000 - app_id * 0x3000) as u64
}

/// The area of the kernel's address space that holds the kernel stack of
/// the task with the number `app_id`.
pub open spec fn kernel_stack_area(app_id: usize) -> MapArea {
    framed_area(
        VirtAddr(crate::mm::address::va_bits((kernel_stack_top(app_id) - 0x2000) as u64)),
        VirtAddr(crate::mm::address::va_bits(kernel_stack_top(app_id))),
        MapPermission { bits: MapPermission::R | MapPermission::W },
    )
}

/// The kernel stack of a task with a number below `MAX_APP_NUM` takes up
/// two pages of the 27-bit page number space, three pages below that of
/// the task before it.
pub proof fn lemma_kernel_stack_area(app_id: usize)
    requires
        app_id < MAX_APP_NUM,
    ensures
        kernel_stack_area(app_id).wf(),
        kernel_stack_area(app_id).len() == 2,
        kernel_stack_area(app_id).start.0 == 0x7ff_fffd - 3 * app_id,
{
    let d: u64 = (app_id * 0x3000) as u64;
    let top: u64 = kernel_stack_top(app_id);
    let bottom: u64 = (top - 0x2000) as u64;
    assert(top & 0x7f_ffff_ffff == 0x7f_ffff_f000 - d) by (bit_vector)
        requires
            top + d == 0xffff_ffff_ffff_f000,
            d <= 0x3f_ffff_c000,
    ;
    assert(bottom & 0x7f_ffff_ffff == 0x7f_ffff_d000 - d) by (bit_vector)
        requires
            bottom + d == 0xffff_ffff_ffff_d000,
            d <= 0x3f_ffff_c000,
    ;
}

/// How making the task of `image` with the number `app_id` ends, where
/// `missing` nodes are missing on the walk to each entry of the address
/// space of the kernel, `taken` tells the pages of the kernel stack of the
/// task that are mapped already, and `free` frames are free: it is refused
/// where the number is too high; else it ends as making the address space
/// of the image ends or, after that, as adding the kernel stack ends.
pub open spec fn task_outcome(
    image: &ElfImage,
    app_id: usize,
    missing: spec_fn(u64) -> nat,
    taken: spec_fn(int) -> bool,
    free: int,
) -> Option<MapError> {
    if app_id >= MAX_APP_NUM {
        Some(MapError::InvalidRange)
    } else {
        match image.outcome(free) {
            Some(e) => Some(e),
            None => area_outcome(missing, taken, kernel_stack_area(app_id), free - image.frames()),
        }
    }
}

/// A task: its status, the registers it keeps across a switch, its address
/// space, the frame of its trap context, and the top of its user stack.
pub struct TaskControlBlock {
    pub task_status: TaskStatus,
    pub task_cx: TaskContext,
    pub memory_set: MemorySet,
    pub trap_cx_ppn: PhysPageNum,
    pub base_size: u64,
}

impl TaskControlBlock {
    /// The address space of the task is a well-formed user space that maps
    /// the trampoline page to a frame it does not own, and the page of the
    /// trap context to the frame `trap_cx_ppn`, a data frame of the space.
    pub open spec fn wf(&self, mem: &PhysMemory) -> bool {
        &&& self.memory_set.wf(mem)
        &&& self.memory_set.is_user_space()
        &&& self.memory_set.trampoline() is Some
        &&& !self.memory_set.owns(self.memory_set.trampoline_frame())
        &&& translation(mem, self.memory_set.root(), TRAP_CONTEXT_VPN) matches Some(e) && e.ppn()
            == self.trap_cx_ppn
        &&& self.memory_set.data().contains(self.trap_cx_ppn.0)
    }

    /// The task of an application image, ready to run: its address space is
    /// built from the image, its kernel stack is added to the address space
    /// of the kernel, and its trap context is set up to start the task at
    /// the entry of the image, on its user stack, in user mode.
    ///
    /// Refused where `app_id` is not below `MAX_APP_NUM`, the image is not
    /// valid or the place of the kernel stack is taken; fails where the
    /// frames run out. The frames of the address space of the task are then
    /// given back.
    #[verifier::rlimit(100)]
    pub fn new(
        image: &ElfImage,
        app_id: usize,
        kernel_space: &mut MemorySet,
        allocator: &mut StackFrameAllocator,
        mem: &mut PhysMemory,
        boot: &BootInfo,
    ) -> (r: Result<TaskControlBlock, MapError>)
        requires
            old(kernel_space).wf(old(mem)),
            old(kernel_space).frames_allocated(old(allocator)@),
            old(allocator)@.wf(),
            old(allocator)@.covered_by(old(mem)),
            old(kernel_space).trampoline() == Some(boot.trampoline),
            boot.trampoline.0 < 0x1000_0000_0000,
            !old(allocator)@.is_free(boot.trampoline.0),
        ensures
            final(kernel_space).wf(final(mem)),
            final(kernel_space).frames_allocated(final(allocator)@),
            final(kernel_space).root() == old(kernel_space).root(),
            final(kernel_space).trampoline() == old(kernel_space).trampoline(),
            final(allocator)@.wf(),
            final(allocator)@.covered_by(final(mem)),
            final(mem).wf(),
            final(mem).base() == old(mem).base(),
            final(mem).frame_count() == old(mem).frame_count(),
            forall|p: u64| old(kernel_space).owns(p) ==> #[trigger] final(kernel_space).owns(p),
            forall|p: u64|
                #[trigger] old(allocator)@.is_allocated(p) ==> final(allocator)@.is_allocated(p),
            forall|p: u64| #[trigger] final(allocator)@.is_free(p) ==> old(allocator)@.is_free(p),
            forall|p: u64|
                #[trigger] final(kernel_space).owns(p) && !old(kernel_space).owns(p) ==> old(
                    allocator,
                )@.is_free(p) && !old(allocator)@.is_allocated(p),
            forall|p: u64|
                old(allocator)@.is_allocated(p) && !old(kernel_space).nodes().contains(p)
                    ==> #[trigger] final(mem).frame(p) == old(mem).frame(p),
            error_of(r) == task_outcome(
                image,
                app_id,
                missing_in(old(mem), old(kernel_space).root()),
                taken_in(old(mem), old(kernel_space).root(), kernel_stack_area(app_id)),
                old(allocator)@.free_count() as int,
            ),
            r is Ok <==> {
                &&& app_id < MAX_APP_NUM
                &&& image.valid()
                &&& unmapped_upto(
                    old(mem),
                    old(kernel_space).root(),
                    kernel_stack_area(app_id),
                    kernel_stack_area(app_id).len(),
                )
                &&& image.frames() + frames_needed(
                    missing_in(old(mem), old(kernel_space).root()),
                    kernel_stack_area(app_id),
                    kernel_stack_area(app_id).len(),
                ) <= old(allocator)@.free_count()
            },
            r is Ok ==> {
                &&& final(allocator)@.free_count() == old(allocator)@.free_count() - image.frames()
                    - frames_needed(
                    missing_in(old(mem), old(kernel_space).root()),
                    kernel_stack_area(app_id),
                    kernel_stack_area(app_id).len(),
                )
                &&& forall|w: u64|
                    w < 0x800_0000 ==> #[trigger] missing_nodes(
                        final(mem),
                        final(kernel_space).root(),
                        w,
                    ) == missing_after_area(
                        missing_nodes(old(mem), old(kernel_space).root(), w),
                        kernel_stack_area(app_id),
                        w,
                    )
            },
            match r {
                Ok(task) => {
                    &&& app_id < MAX_APP_NUM
                    &&& task.wf(final(mem))
                    &&& task.made_from(
                        final(mem),
                        image,
                        app_id,
                        final(kernel_space).root(),
                        boot,
                    )
                    &&& task.memory_set.frames_allocated(final(allocator)@)
                    &&& forall|p: u64|
                        #[trigger] task.memory_set.owns(p) ==> old(allocator)@.is_free(p) && !old(
                            allocator,
                        )@.is_allocated(p) && !final(kernel_space).owns(p)
                    &&& forall|p: u64|
                        #[trigger] final(allocator)@.is_allocated(p) ==> old(
                            allocator,
                        )@.is_allocated(p) || task.memory_set.owns(p) || final(kernel_space).owns(p)
                    &&& final(kernel_space).area_added(
                        old(kernel_space),
                        kernel_stack_area(app_id),
                        None,
                        old(mem),
                        final(mem),
                    )
                },
                Err(e) => {
                    &&& forall|p: u64|
                        #[trigger] final(allocator)@.is_allocated(p) ==> old(
                            allocator,
                        )@.is_allocated(p) || final(kernel_space).owns(p)
                    &&& (image.valid() && app_id < MAX_APP_NUM && forall|v: u64|
                        kernel_stack_area(app_id).contains_vpn(v) ==> (#[trigger] translation(
                            old(mem),
                            old(kernel_space).root(),
                            v,
                        )) is None) ==> e == MapError::OutOfFrames
                },
            },
    {
        let ghost a0 = allocator@;
        let ghost kernel0 = *kernel_space;
        proof {
            kernel_space.lemma_wf(mem);
            kernel_space.lemma_grown_from_itself(a0, mem);
        }
        if app_id >= MAX_APP_NUM {
            return Err(MapError::InvalidRange);
        }
        proof {
            lemma_kernel_stack_area(app_id);
            lemma_frames_needed(
                missing_in(old(mem), kernel0.root()),
                kernel_stack_area(app_id),
                0,
                kernel_stack_area(app_id).len(),
            );
        }
        let (memory_set, user_sp, entry_point) = match MemorySet::from_elf(
            allocator,
            mem,
            image,
            boot.trampoline,
        ) {
            Ok(built) => built,
            Err(e) => {
                proof {
                    assert forall|p: u64| kernel_space.nodes().contains(p) implies #[trigger] mem.frame(
                        p,
                    ) == old(mem).frame(p) by {
                        assert(kernel_space.owns(p));
                    }
                    kernel_space.lemma_untouched(old(mem), mem);
                    assert forall|p: u64| #[trigger] kernel_space.owns(p) implies allocator@.is_allocated(
                        p,
                    ) by {
                        assert(a0.is_allocated(p));
                    }
                }
                return Err(e);
            },
        };
        let ghost a1 = allocator@;
        let ghost m1 = *mem;
        proof {
            assert forall|p: u64| kernel_space.nodes().contains(p) implies #[trigger] mem.frame(p)
                == old(mem).frame(p) by {
                assert(kernel_space.owns(p));
            }
            kernel_space.lemma_untouched(old(mem), mem);
            assert forall|p: u64| #[trigger] kernel_space.owns(p) implies a1.is_allocated(p) by {
                assert(a0.is_allocated(p));
            }
            memory_set.lemma_wf(mem);
            let stack = kernel_stack_area(app_id);
            assert forall|w: u64| w < 0x800_0000 implies #[trigger] missing_in(
                &m1,
                kernel0.root(),
            )(w) == missing_in(old(mem), kernel0.root())(w) by {
                assert(missing_nodes(&m1, kernel0.root(), w) == missing_nodes(
                    old(mem),
                    kernel0.root(),
                    w,
                ));
            }
            lemma_frames_needed_same(
                missing_in(&m1, kernel0.root()),
                missing_in(old(mem), kernel0.root()),
                stack,
                stack.len(),
            );
            assert forall|i: int| 0 <= i < stack.len() implies #[trigger] taken_in(
                &m1,
                kernel0.root(),
                stack,
            )(i) == taken_in(old(mem), kernel0.root(), stack)(i) by {
                assert(translation(&m1, kernel0.root(), (stack.start.0 + i) as u64) == translation(
                    old(mem),
                    kernel0.root(),
                    (stack.start.0 + i) as u64,
                ));
            }
            lemma_area_outcome_same(
                missing_in(&m1, kernel0.root()),
                missing_in(old(mem), kernel0.root()),
                taken_in(&m1, kernel0.root(), stack),
                taken_in(old(mem), kernel0.root(), stack),
                stack,
                a1.free_count() as int,
            );
            assert(unmapped_upto(&m1, kernel0.root(), stack, stack.len()) == unmapped_upto(
                old(mem),
                kernel0.root(),
                stack,
                stack.len(),
            )) by {
                if unmapped_upto(&m1, kernel0.root(), stack, stack.len()) {
                    assert forall|i: int| 0 <= i < stack.len() implies (#[trigger] translation(
                        old(mem),
                        kernel0.root(),
                        (stack.start.0 + i) as u64,
                    )) is None by {
                        assert(translation(&m1, kernel0.root(), (stack.start.0 + i) as u64) is None);
                    }
                }
                if unmapped_upto(old(mem), kernel0.root(), stack, stack.len()) {
                    assert forall|i: int| 0 <= i < stack.len() implies (#[trigger] translation(
                        &m1,
                        kernel0.root(),
                        (stack.start.0 + i) as u64,
                    )) is None by {
                        assert(translation(old(mem), kernel0.root(), (stack.start.0 + i) as u64)
                            is None);
                    }
                }
            }
        }
        let trap_cx_ppn = memory_set.translate(mem, VirtPageNum(TRAP_CONTEXT_VPN)).unwrap().ppn();
        let (kernel_stack_bottom, kernel_stack_top) = kernel_stack_position(app_id);
        let stack_start = VirtAddr::from(kernel_stack_bottom);
        let stack_end = VirtAddr::from(kernel_stack_top);
        let inserted = kernel_space.insert_framed_area(
            allocator,
            mem,
            stack_start,
            stack_end,
            MapPermission::from_bits_truncate(MapPermission::R | MapPermission::W),
        );
        let ghost a2 = allocator@;
        let ghost m2 = *mem;
        proof {
            assert(framed_area(
                stack_start,
                stack_end,
                MapPermission { bits: MapPermission::R | MapPermission::W },
            ) == kernel_stack_area(app_id));
            assert forall|p: u64| memory_set.owns(p) implies !kernel0.owns(p) && a1.is_allocated(p)
                && !kernel0.nodes().contains(p) && !kernel_space.owns(p) by {
                assert(a0.is_free(p) && !a0.is_allocated(p));
                if kernel0.owns(p) {
                    assert(a0.is_allocated(p));
                }
                if kernel_space.owns(p) && !kernel0.owns(p) {
                    assert(!a1.is_allocated(p));
                }
            }
            assert forall|p: u64| memory_set.nodes().contains(p) implies #[trigger] mem.frame(p)
                == m1.frame(p) by {
                assert(memory_set.owns(p));
            }
            memory_set.lemma_untouched(&m1, mem);
            assert forall|p: u64| #[trigger] memory_set.owns(p) implies a2.is_allocated(p) by {
                assert(a1.is_allocated(p));
            }
            assert forall|p: u64| kernel0.owns(p) implies #[trigger] kernel_space.owns(p) by {
                if kernel0.nodes().contains(p) {
                    assert(kernel_space.nodes().contains(p));
                } else {
                    assert(kernel_space.data().contains(p));
                }
            }
            assert forall|p: u64| #[trigger] kernel_space.owns(p) && !kernel0.owns(
                p,
            ) implies a0.is_free(p) && !a0.is_allocated(p) by {
                assert(a1.is_free(p) && !a1.is_allocated(p));
            }
            assert forall|p: u64| a0.is_allocated(p) && !kernel0.nodes().contains(
                p,
            ) implies #[trigger] mem.frame(p) == old(mem).frame(p) by {
                assert(a1.is_allocated(p));
                assert(m1.frame(p) == old(mem).frame(p));
            }
            assert forall|p: u64| #[trigger] a2.is_free(p) implies a0.is_free(p) by {
                assert(a1.is_free(p));
            }
        }
        match inserted {
            Ok(_) => {},
            Err(e) => {
                memory_set.release(allocator, mem);
                proof {
                    assert forall|p: u64| #[trigger] kernel_space.owns(p) implies allocator@.is_allocated(
                        p,
                    ) by {
                        assert(a2.is_allocated(p));
                        if memory_set.owns(p) {
                            assert(!kernel_space.owns(p));
                        }
                    }
                    assert forall|p: u64| #[trigger] allocator@.is_free(p) implies mem.contains(
                        p,
                    ) && a0.is_free(p) by {
                        if memory_set.owns(p) {
                        } else {
                            assert(a2.is_free(p));
                        }
                    }
                    assert forall|p: u64| #[trigger] a0.is_allocated(p) implies allocator@.is_allocated(
                        p,
                    ) by {
                        assert(a2.is_allocated(p));
                        if memory_set.owns(p) {
                            assert(!a0.is_allocated(p));
                        }
                    }
                    assert forall|p: u64| #[trigger] allocator@.is_allocated(p) implies a0.is_allocated(
                        p,
                    ) || kernel_space.owns(p) by {
                        assert(a2.is_allocated(p));
                        assert(a2.is_allocated(p) <==> a1.is_allocated(p) || kernel_space.owns(p));
                        assert(a1.is_allocated(p) <==> a0.is_allocated(p) || memory_set.owns(p));
                    }
                }
                return Err(e);
            },
        }
        let task_control_block = TaskControlBlock {
            task_status: TaskStatus::Ready,
            task_cx: TaskContext::goto_trap_return(kernel_stack_top, boot.trap_return),
            memory_set,
            trap_cx_ppn,
            base_size: user_sp,
        };
        let trap_cx = TrapContext::app_init_context(
            entry_point,
            user_sp,
            kernel_space.token(),
            kernel_stack_top,
            boot.trap_handler,
            boot.sstatus,
        );
        proof {
            assert(translation(mem, memory_set.root(), TRAP_CONTEXT_VPN) == translation(
                &m1,
                memory_set.root(),
                TRAP_CONTEXT_VPN,
            ));
        }
        task_control_block.set_trap_cx(mem, &trap_cx);
        proof {
            let frame = trap_cx_ppn.0;
            assert(memory_set.owns(frame));
            assert(!kernel_space.owns(frame));
            assert forall|p: u64| kernel_space.nodes().contains(p) implies #[trigger] mem.frame(p)
                == m2.frame(p) by {
                assert(kernel_space.owns(p));
            }
            kernel_space.lemma_untouched(&m2, mem);
            assert forall|w: u64| w < 0x800_0000 implies #[trigger] missing_nodes(
                mem,
                kernel_space.root(),
                w,
            ) == missing_after_area(
                missing_nodes(old(mem), kernel0.root(), w),
                kernel_stack_area(app_id),
                w,
            ) by {
                assert(missing_nodes(mem, kernel_space.root(), w) == missing_nodes(
                    &m2,
                    kernel_space.root(),
                    w,
                ));
                assert(missing_nodes(&m1, kernel0.root(), w) == missing_nodes(
                    old(mem),
                    kernel0.root(),
                    w,
                ));
            }
            assert forall|p: u64| a0.is_allocated(p) && !kernel0.nodes().contains(
                p,
            ) implies #[trigger] mem.frame(p) == old(mem).frame(p) by {
                assert(m2.frame(p) == old(mem).frame(p));
                assert(mem.frame(p) == m2.frame(p));
            }
            assert forall|p: u64| #[trigger] a2.is_free(p) implies mem.contains(p) by {
                assert(m2.contains(p));
            }
            assert forall|p: u64| #[trigger] a2.is_allocated(p) implies a0.is_allocated(p)
                || memory_set.owns(p) || kernel_space.owns(p) by {
                assert(a2.is_allocated(p) <==> a1.is_allocated(p) || kernel_space.owns(p));
                assert(a1.is_allocated(p) <==> a0.is_allocated(p) || memory_set.owns(p));
            }
            assert(trap_cx.stored_at(mem, frame));
            assert forall|j: int| 0 <= j < image.segments@.len() implies memory_set.segment_loaded(
                mem,
                #[trigger] image.segments@[j],
            ) by {
                let b = image.segments@.len() + 1;
                assert(memory_set.areas()[b as int] == trap_context_area());
                assert(image.segments@[j].valid());
                assert forall|p: u64| memory_set.data().contains(p) implies #[trigger] m2.frame(p)
                    == m1.frame(p) by {
                    assert(memory_set.owns(p));
                    assert(a1.is_allocated(p) && !kernel0.nodes().contains(p));
                }
                assert forall|p: u64|
                    memory_set.data().contains(p) && p != frame implies #[trigger] mem.frame(p)
                    == m2.frame(p) by {}
                memory_set.lemma_segment_kept(
                    &m1,
                    &m2,
                    image.segments@[j],
                    j,
                    b as int,
                    TRAP_CONTEXT_VPN,
                );
                memory_set.lemma_segment_kept(
                    &m2,
                    mem,
                    image.segments@[j],
                    j,
                    b as int,
                    TRAP_CONTEXT_VPN,
                );
            }
            assert(kernel_space.area_added(
                &kernel0,
                kernel_stack_area(app_id),
                None,
                old(mem),
                mem,
            )) by {
                kernel_space.lemma_area_kept(
                    &kernel0,
                    kernel_stack_area(app_id),
                    None,
                    old(mem),
                    &m1,
                    &m2,
                    mem,
                );
            }
        }
        Ok(task_control_block)
    }

    /// The task was made from `image` as the task with the number `app_id`
    /// and has not run yet: it is ready; its address space has the areas of
    /// the image, and the segments of the image are loaded; a switch to the
    /// task returns to the code that leaves the kernel, on the kernel stack
    /// of the task; and its trap context starts the task at the entry of
    /// the image, on its user stack, in user mode.
    pub open spec fn made_from(
        &self,
        mem: &PhysMemory,
        image: &ElfImage,
        app_id: usize,
        kernel_root: u64,
        boot: &BootInfo,
    ) -> bool {
        &&& image.valid()
        &&& self.task_status == TaskStatus::Ready
        &&& self.memory_set.trampoline() == Some(boot.trampoline)
        &&& self.memory_set.areas() == image.areas()
        &&& forall|j: int|
            0 <= j < image.segments@.len() ==> self.memory_set.segment_loaded(
                mem,
                #[trigger] image.segments@[j],
            )
        &&& self.base_size == (max_end_vpn(image.segments@, image.segments@.len() as int) + 3) * 4096
        &&& self.task_cx.ra == boot.trap_return
        &&& self.task_cx.sp == kernel_stack_top(app_id)
        &&& self.task_cx.saved_zero()
        &&& exists|cx: TrapContext|
            #[trigger] cx.stored_at(mem, self.trap_cx_ppn.0) && cx.starts_task(
                image.entry,
                self.base_size,
                token_of(kernel_root),
                kernel_stack_top(app_id),
                boot.trap_handler,
                boot.sstatus,
            )
    }

    /// A task stays well-formed, and as it was made, when memory changes
    /// outside the frames that its address space owns.
    pub proof fn lemma_kept(
        &self,
        m0: &PhysMemory,
        m1: &PhysMemory,
        image: &ElfImage,
        app_id: usize,
        kernel_root: u64,
        boot: &BootInfo,
    )
        requires
            self.wf(m0),
            m1.wf(),
            m1.base() == m0.base(),
            m1.frame_count() == m0.frame_count(),
            forall|p: u64| self.memory_set.owns(p) ==> #[trigger] m1.frame(p) == m0.frame(p),
        ensures
            self.wf(m1),
            forall|v: u64|
                #[trigger] translation(m1, self.memory_set.root(), v) == translation(
                    m0,
                    self.memory_set.root(),
                    v,
                ),
            self.made_from(m0, image, app_id, kernel_root, boot) ==> self.made_from(
                m1,
                image,
                app_id,
                kernel_root,
                boot,
            ),
    {
        self.memory_set.lemma_untouched(m0, m1);
        if self.made_from(m0, image, app_id, kernel_root, boot) {
            let cx = choose|cx: TrapContext|
                #[trigger] cx.stored_at(m0, self.trap_cx_ppn.0) && cx.starts_task(
                    image.entry,
                    self.base_size,
                    token_of(kernel_root),
                    kernel_stack_top(app_id),
                    boot.trap_handler,
                    boot.sstatus,
                );
            assert(self.memory_set.owns(self.trap_cx_ppn.0));
            assert(m1.frame(self.trap_cx_ppn.0) == m0.frame(self.trap_cx_ppn.0));
            assert forall|i: int| 0 <= i < 37 implies #[trigger] m1.word(self.trap_cx_ppn.0, i)
                == cx.words()[i] by {
                assert(m0.word(self.trap_cx_ppn.0, i) == cx.words()[i]);
            }
            assert(cx.stored_at(m1, self.trap_cx_ppn.0));
            let b = image.segments@.len() + 1;
            assert(self.memory_set.areas()[b as int] == trap_context_area());
            assert forall|j: int|
                0 <= j < image.segments@.len() implies self.memory_set.segment_loaded(
                m1,
                #[trigger] image.segments@[j],
            ) by {
                assert(image.segments@[j].valid());
                self.memory_set.lemma_segment_kept(
                    m0,
                    m1,
                    image.segments@[j],
                    j,
                    b as int,
                    TRAP_CONTEXT_VPN,
                );
            }
        }
    }

    /// A task stays well-formed when memory changes outside the frames
    /// that its address space owns.
    pub proof fn lemma_wf_kept(&self, m0: &PhysMemory, m1: &PhysMemory)
        requires
            self.wf(m0),
            m1.wf(),
            m1.base() == m0.base(),
            m1.frame_count() == m0.frame_count(),
            forall|p: u64| self.memory_set.owns(p) ==> #[trigger] m1.frame(p) == m0.frame(p),
        ensures
            self.wf(m1),
            forall|v: u64|
                #[trigger] translation(m1, self.memory_set.root(), v) == translation(
                    m0,
                    self.memory_set.root(),
                    v,
                ),
    {
        self.memory_set.lemma_untouched(m0, m1);
    }

    /// The token of the address space of the task.
    pub fn get_user_token(&self) -> (r: u64)
        ensures
            r == token_of(self.memory_set.root()),
    {
        self.memory_set.token()
    }

    /// The trap context of the task, read from its frame.
    pub fn get_trap_cx(&self, mem: &PhysMemory) -> (r: TrapContext)
        requires
            self.wf(mem),
        ensures
            r.stored_at(mem, self.trap_cx_ppn.0),
    {
        proof {
            self.memory_set.lemma_wf(mem);
            assert(self.memory_set.owns(self.trap_cx_ppn.0));
        }
        TrapContext::load(mem, self.trap_cx_ppn)
    }

    /// Writes the trap context of the task to its frame. No other frame
    /// changes, and the task stays well-formed.
    pub fn set_trap_cx(&self, mem: &mut PhysMemory, cx: &TrapContext)
        requires
            self.wf(old(mem)),
        ensures
            self.wf(final(mem)),
            final(mem).wf(),
            final(mem).agrees_except(old(mem), self.trap_cx_ppn.0),
            cx.stored_at(final(mem), self.trap_cx_ppn.0),
            forall|i: int|
                37 <= i < 512 ==> #[trigger] final(mem).word(self.trap_cx_ppn.0, i) == old(
                    mem,
                ).word(self.trap_cx_ppn.0, i),
            forall|v: u64|
                #[trigger] translation(final(mem), self.memory_set.root(), v) == translation(
                    old(mem),
                    self.memory_set.root(),
                    v,
                ),
    {
        proof {
            self.memory_set.lemma_wf(mem);
            assert(self.memory_set.owns(self.trap_cx_ppn.0));
        }
        cx.store(mem, self.trap_cx_ppn);
        proof {
            self.memory_set.lemma_untouched(old(mem), mem);
        }
    }
}

} // verus!
