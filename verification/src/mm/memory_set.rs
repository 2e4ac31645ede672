//! Address spaces: a page table, the areas of virtual pages that it maps,
//! and the frames that back them.
use vstd::prelude::*;
use vstd::slice::slice_subrange;
use crate::config::{PAGE_SIZE, USER_STACK_SIZE};
use crate::mm::address::{PhysPageNum, VirtAddr, VirtPageNum, vpn_bits};
use crate::mm::frame_allocator::{
    FrameAllocatorModel,
    FrameTracker,
    StackFrameAllocator,
    frame_alloc,
    frame_dealloc,
    lemma_allocate,
    lemma_dealloc,
};
use crate::mm::image::{
    ElfImage,
    KernelLayout,
    Segment,
    USER_LIMIT,
    identical_area,
    lemma_max_end_bound,
    lemma_segment_ends,
    max_end_vpn,
    stack_area,
    trap_context_area,
};
use crate::mm::map_area::{
    MapArea,
    MapPermission,
    MapType,
    area_outcome,
    error_of,
    framed_area,
    frames_needed,
    lemma_area_outcome,
    lemma_area_outcome_same,
    lemma_missing_step,
    lemma_push_failed,
    missing_after_area,
    missing_in,
    taken_at,
    taken_in,
    unmapped_upto,
};
use crate::mm::memory::{PhysMemory, zero_frame};
use crate::mm::page_table::{
    MapError,
    PTEFlags,
    PageTable,
    PageTableEntry,
    lemma_entry_fields,
    lemma_same_page,
    missing_after_map,
    missing_nodes,
    same_page,
    token_of,
    translation,
};
use crate::mm::space::{
    TRAMPOLINE_VPN,
    TRAP_CONTEXT_VPN,
    covered,
    covered_before,
    expected_page,
    lemma_area_page,
    lemma_empty_area,
    lemma_page_added,
    lemma_page_removed,
    lemma_same_page_small,
    lemma_same_page_translation,
    lemma_space_frames,
    lemma_space_parts,
    lemma_space_regrown,
    lemma_space_step,
    lemma_space_unchanged,
    lemma_trampoline_added,
    lemma_vpn_bits,
    missing_in_space,
    page_image,
    space_frames,
    space_outcome_from,
    space_wf,
    taken_in_space,
    trampoline_entry,
};

verus! {

/// An address space.
pub struct MemorySet {
    page_table: PageTable,
    areas: Vec<MapArea>,
    frames: Vec<FrameTracker>,
    trampoline: Option<PhysPageNum>,
}

impl MemorySet {
    /// The page number of the root of the page table.
    pub closed spec fn root(&self) -> u64 {
        self.page_table.root()
    }

    /// The page numbers of the nodes of the page table.
    pub closed spec fn nodes(&self) -> Seq<u64> {
        self.page_table.nodes()
    }

    /// The page numbers of the frames that back the framed areas.
    pub closed spec fn data(&self) -> Seq<u64> {
        self.frames@.map_values(|f: FrameTracker| f.ppn.0)
    }

    /// The areas, in the order in which they were added.
    pub closed spec fn areas(&self) -> Seq<MapArea> {
        self.areas@
    }

    /// The frame of the trampoline page, where the space maps it.
    pub closed spec fn trampoline(&self) -> Option<PhysPageNum> {
        self.trampoline
    }

    /// The frame of the trampoline page, where the space maps it.
    pub fn get_trampoline(&self) -> (r: Option<PhysPageNum>)
        ensures
            r == self.trampoline(),
    {
        self.trampoline
    }

    /// The space owns the frame: it holds a node of its table or backs one
    /// of its pages.
    pub open spec fn owns(&self, ppn: u64) -> bool {
        self.nodes().contains(ppn) || self.data().contains(ppn)
    }

    /// The parts of the space fit together in `mem`.
    pub closed spec fn wf(&self, mem: &PhysMemory) -> bool {
        space_wf(&self.page_table, self.data(), self.areas@, self.trampoline, mem)
    }

    /// Every frame that the space owns is in use in the allocator `a`.
    pub open spec fn frames_allocated(&self, a: FrameAllocatorModel) -> bool {
        forall|p: u64| #[trigger] self.owns(p) ==> a.is_allocated(p)
    }

    /// The token that names the page table of the space.
    pub fn token(&self) -> (r: u64)
        ensures
            r == crate::mm::page_table::token_of(self.root()),
    {
        self.page_table.token()
    }

    /// The entry that maps `vpn`, if the page is mapped.
    pub fn translate(&self, mem: &PhysMemory, vpn: VirtPageNum) -> (r: Option<PageTableEntry>)
        requires
            mem.wf(),
        ensures
            r == translation(mem, self.root(), vpn.0),
    {
        self.page_table.translate(mem, vpn)
    }

    /// A space with an empty page table and no area; nothing when no frame
    /// is left for the root of the table.
    pub fn new_bare(allocator: &mut StackFrameAllocator, mem: &mut PhysMemory) -> (r: Option<Self>)
        requires
            old(allocator)@.wf(),
            old(allocator)@.covered_by(old(mem)),
            old(mem).wf(),
        ensures
            final(allocator)@ == old(allocator)@.allocate().0,
            final(allocator)@.wf(),
            final(allocator)@.covered_by(final(mem)),
            final(mem).wf(),
            match old(allocator)@.allocate().1 {
                Some(root) => {
                    &&& r matches Some(space)
                    &&& space.root() == root
                    &&& space.nodes() == seq![root]
                    &&& space.data() == Seq::<u64>::empty()
                    &&& space.areas() == Seq::<MapArea>::empty()
                    &&& space.trampoline() is None
                    &&& space.wf(final(mem))
                    &&& space.frames_allocated(final(allocator)@)
                    &&& final(mem).agrees_except(old(mem), root)
                    &&& forall|v: u64| (#[trigger] translation(final(mem), root, v)) is None
                    &&& forall|v: u64| #[trigger] missing_nodes(final(mem), root, v) == 2
                },
                None => r is None && *final(mem) == *old(mem),
            },
    {
        proof {
            lemma_allocate(allocator@);
        }
        match PageTable::new(allocator, mem) {
            None => None,
            Some(page_table) => {
                let space = MemorySet {
                    page_table,
                    areas: Vec::new(),
                    frames: Vec::new(),
                    trampoline: None,
                };
                proof {
                    reveal(space_wf);
                    assert(space.data() =~= Seq::<u64>::empty());
                    assert(space.areas() =~= Seq::<MapArea>::empty());
                    assert forall|p: u64| #[trigger] space.owns(p) implies allocator@.is_allocated(
                        p,
                    ) by {
                        assert(space.nodes()[0] == p);
                    }
                }
                Some(space)
            },
        }
    }

    /// The parts of the space, with the area `extra` after its own, fit
    /// together in `mem`.
    pub closed spec fn wf_with(&self, mem: &PhysMemory, extra: MapArea) -> bool {
        space_wf(&self.page_table, self.data(), self.areas@.push(extra), self.trampoline, mem)
    }

    /// What the space changed when it went from `before` to `self`, with
    /// the allocator going from `a0` to `a1` and memory from `m0` to `m1`:
    /// it kept its root and all that it owned; the frames in use are those
    /// that were in use and those that the space owns; every frame that the
    /// space has come to own was free; every frame that was in use has kept
    /// its bytes, unless it holds a node of the table.
    pub open spec fn grown_from(
        &self,
        before: &MemorySet,
        a0: FrameAllocatorModel,
        a1: FrameAllocatorModel,
        m0: &PhysMemory,
        m1: &PhysMemory,
    ) -> bool {
        &&& self.root() == before.root()
        &&& forall|p: u64| before.nodes().contains(p) ==> #[trigger] self.nodes().contains(p)
        &&& forall|p: u64| before.data().contains(p) ==> #[trigger] self.data().contains(p)
        &&& forall|p: u64| #[trigger] a1.is_allocated(p) <==> a0.is_allocated(p) || self.owns(p)
        &&& forall|p: u64|
            #[trigger] self.owns(p) && !before.owns(p) ==> a0.is_free(p) && !a0.is_allocated(p)
        &&& forall|p: u64| #[trigger] a1.is_free(p) ==> a0.is_free(p)
        &&& m1.base() == m0.base()
        &&& m1.frame_count() == m0.frame_count()
        &&& forall|p: u64|
            a0.is_allocated(p) && !before.nodes().contains(p) ==> #[trigger] m1.frame(p)
                == m0.frame(p)
    }

    /// Growing a space twice in a row is growing it once.
    pub proof fn lemma_grown_twice(
        &self,
        middle: &MemorySet,
        before: &MemorySet,
        a0: FrameAllocatorModel,
        a1: FrameAllocatorModel,
        a2: FrameAllocatorModel,
        m0: &PhysMemory,
        m1: &PhysMemory,
        m2: &PhysMemory,
    )
        requires
            middle.grown_from(before, a0, a1, m0, m1),
            self.grown_from(middle, a1, a2, m1, m2),
            forall|p: u64| !(middle.nodes().contains(p) && middle.data().contains(p)),
        ensures
            self.grown_from(before, a0, a2, m0, m2),
    {
        assert forall|p: u64| before.nodes().contains(p) implies #[trigger] self.nodes().contains(
            p,
        ) by {
            assert(middle.nodes().contains(p));
        }
        assert forall|p: u64| before.data().contains(p) implies #[trigger] self.data().contains(
            p,
        ) by {
            assert(middle.data().contains(p));
        }
        assert forall|p: u64| #[trigger]
            a2.is_allocated(p) <==> a0.is_allocated(p) || self.owns(p) by {
            assert(a1.is_allocated(p) <==> a0.is_allocated(p) || middle.owns(p));
            if middle.owns(p) {
                if middle.nodes().contains(p) {
                    assert(self.nodes().contains(p));
                } else {
                    assert(self.data().contains(p));
                }
            }
        }
        assert forall|p: u64| #[trigger] self.owns(p) && !before.owns(p) implies a0.is_free(p)
            && !a0.is_allocated(p) by {
            if middle.owns(p) {
            } else {
                assert(a1.is_free(p));
                assert(a1.is_allocated(p) <==> a0.is_allocated(p) || middle.owns(p));
            }
        }
        assert forall|p: u64| #[trigger] a2.is_free(p) implies a0.is_free(p) by {
            assert(a1.is_free(p));
        }
        assert forall|p: u64|
            a0.is_allocated(p) && !before.nodes().contains(p) implies #[trigger] m2.frame(p)
            == m0.frame(p) by {
            assert(a1.is_allocated(p) <==> a0.is_allocated(p) || middle.owns(p));
            if middle.nodes().contains(p) {
                assert(middle.owns(p));
                if before.data().contains(p) {
                    assert(middle.data().contains(p));
                }
                assert(!before.owns(p));
            }
            assert(m2.frame(p) == m1.frame(p));
            assert(m1.frame(p) == m0.frame(p));
        }
    }

    /// Maps page `k` of the framed area `area`, which is being added, to a
    /// fresh frame that holds `chunk` and is zero beyond it.
    #[verifier::rlimit(50)]
    fn map_framed_page(
        &mut self,
        allocator: &mut StackFrameAllocator,
        mem: &mut PhysMemory,
        area: MapArea,
        k: u64,
        chunk: Option<&[u8]>,
    ) -> (r: Result<(), MapError>)
        requires
            old(self).wf_with(old(mem), area.prefix(k as int)),
            area.wf(),
            area.framed(),
            k < area.len(),
            old(allocator)@.wf(),
            old(allocator)@.covered_by(old(mem)),
            old(self).frames_allocated(old(allocator)@),
            chunk matches Some(c) ==> c@.len() <= 4096,
        ensures
            final(allocator)@.wf(),
            final(allocator)@.covered_by(final(mem)),
            final(mem).wf(),
            final(self).frames_allocated(final(allocator)@),
            final(self).grown_from(
                old(self),
                old(allocator)@,
                final(allocator)@,
                old(mem),
                final(mem),
            ),
            final(self).areas() == old(self).areas(),
            final(self).trampoline() == old(self).trampoline(),
            r is Ok <==> translation(old(mem), old(self).root(), (area.start.0 + k) as u64) is None
                && old(allocator)@.free_count() >= 1 + missing_nodes(
                old(mem),
                old(self).root(),
                (area.start.0 + k) as u64,
            ),
            r == Err::<(), MapError>(MapError::AlreadyMapped) <==> translation(
                old(mem),
                old(self).root(),
                (area.start.0 + k) as u64,
            ) is Some && old(allocator)@.free_count() >= 1,
            r is Ok ==> {
                &&& final(allocator)@.free_count() == old(allocator)@.free_count() - 1
                    - missing_nodes(old(mem), old(self).root(), (area.start.0 + k) as u64)
                &&& forall|w: u64|
                    #[trigger] missing_nodes(final(mem), final(self).root(), w)
                        == missing_after_map(
                        missing_nodes(old(mem), old(self).root(), w),
                        (area.start.0 + k) as u64,
                        w,
                    )
            },
            match r {
                Ok(_) => {
                    &&& final(self).wf_with(final(mem), area.prefix(k + 1))
                    &&& translation(old(mem), old(self).root(), (area.start.0 + k) as u64) is None
                    &&& forall|v: u64|
                        !same_page(v, (area.start.0 + k) as u64) ==> #[trigger] translation(
                            final(mem),
                            final(self).root(),
                            v,
                        ) == translation(old(mem), old(self).root(), v)
                    &&& translation(final(mem), final(self).root(), (area.start.0 + k) as u64)
                        matches Some(e)
                    &&& final(self).data() == old(self).data().push(e.ppn().0)
                    &&& final(mem).frame(e.ppn().0) == match chunk {
                        Some(c) => page_image(c@),
                        None => zero_frame(),
                    }
                },
                Err(e) => {
                    &&& final(self).wf_with(final(mem), area.prefix(k as int))
                    &&& final(self).data() == old(self).data()
                    &&& forall|v: u64|
                        #[trigger] translation(final(mem), final(self).root(), v) == translation(
                            old(mem),
                            old(self).root(),
                            v,
                        )
                    &&& e == MapError::AlreadyMapped || e == MapError::OutOfFrames
                },
            },
    {
        let ghost a0 = allocator@;
        let ghost table0 = self.page_table;
        let ghost data0 = self.data();
        let ghost areas0 = self.areas@.push(area.prefix(k as int));
        let ghost root = self.root();
        let ghost vpn_k = (area.start.0 + k) as u64;
        proof {
            lemma_allocate(a0);
            lemma_space_parts(&table0, data0, areas0, self.trampoline, old(mem));
        }
        let frame = match frame_alloc(allocator, mem) {
            Some(frame) => frame,
            None => {
                proof {
                    assert forall|p: u64| #[trigger]
                        allocator@.is_allocated(p) <==> a0.is_allocated(p) || self.owns(p) by {}
                }
                return Err(MapError::OutOfFrames);
            },
        };
        let ppn = frame.ppn;
        let ghost f = ppn.0;
        let ghost a1 = allocator@;
        proof {
            assert(!self.owns(f));
            mem.lemma_frame_len(f);
        }
        match chunk {
            Some(c) => {
                mem.write_bytes(ppn, 0, c);
            },
            None => {},
        }
        let ghost m2 = *mem;
        proof {
            assert forall|p: u64| p != f implies #[trigger] m2.frame(p) == old(mem).frame(p) by {}
            assert forall|j: int| 0 <= j < table0.nodes().len() implies m2.frame(
                #[trigger] table0.nodes()[j],
            ) == old(mem).frame(table0.nodes()[j]) by {
                assert(table0.nodes().contains(table0.nodes()[j]));
                assert(self.owns(table0.nodes()[j]));
            }
            lemma_space_unchanged(&table0, data0, areas0, self.trampoline, old(mem), &m2);
            lemma_space_parts(&table0, data0, areas0, self.trampoline, &m2);
            assert(missing_nodes(&m2, root, vpn_k) == missing_nodes(old(mem), root, vpn_k));
            assert(translation(&m2, root, vpn_k) == translation(old(mem), root, vpn_k));
            assert forall|j: int| 0 <= j < table0.nodes().len() implies a1.is_allocated(
                #[trigger] table0.nodes()[j],
            ) by {
                assert(table0.nodes().contains(table0.nodes()[j]));
                assert(self.owns(table0.nodes()[j]));
            }
            assert forall|p: u64| #[trigger] a1.is_free(p) implies m2.contains(p) by {}
            lemma_allocate(a1);
        }
        let flags = PTEFlags::from_bits_truncate(area.map_perm.bits);
        let vpn = VirtPageNum(area.start.0 + k);
        let mapped = if self.page_table.translate(mem, vpn).is_some() {
            proof {
                assert(table0.nodes().subrange(0, table0.nodes().len() as int)
                    =~= table0.nodes());
                assert(self.page_table.grown_from(&table0, a1, a1, &m2, mem));
            }
            Err(MapError::AlreadyMapped)
        } else {
            self.page_table.map(allocator, mem, vpn, ppn, flags)
        };
        let ghost a3 = allocator@;
        let ghost table3 = self.page_table;
        proof {
            table3.lemma_nodes(mem);
            assert(flags.union(PTEFlags { bits: PTEFlags::V }) == area.flags());
            assert forall|p: u64| table3.nodes().contains(p) && !table0.nodes().contains(
                p,
            ) implies !a1.is_allocated(p) && a1.is_free(p) by {
                let j = choose|j: int| 0 <= j < table3.nodes().len() && table3.nodes()[j] == p;
                if j < table0.nodes().len() {
                    assert(table3.nodes().subrange(0, table0.nodes().len() as int)[j]
                        == table0.nodes()[j]);
                    assert(table0.nodes().contains(p));
                }
                assert(!a1.is_allocated(table3.nodes()[j]));
            }
            assert forall|p: u64| table0.nodes().contains(p) implies table3.nodes().contains(p) by {
                let j = choose|j: int| 0 <= j < table0.nodes().len() && table0.nodes()[j] == p;
                assert(table3.nodes().subrange(0, table0.nodes().len() as int)[j]
                    == table0.nodes()[j]);
                assert(table3.nodes()[j] == p);
            }
            assert forall|j: int| 0 <= j < data0.len() implies mem.contains(#[trigger] data0[j])
                && !table3.nodes().contains(data0[j]) by {
                assert(data0.contains(data0[j]));
                assert(old(self).owns(data0[j]));
                assert(a1.is_allocated(data0[j]));
            }
            assert(!table3.nodes().contains(f));
            assert forall|p: u64|
                a0.is_allocated(p) && !table0.nodes().contains(p) implies #[trigger] mem.frame(p)
                == old(mem).frame(p) by {
                assert(a1.is_allocated(p));
                assert(!table3.nodes().contains(p));
                assert(mem.frame(p) == m2.frame(p));
            }
            assert forall|p: u64| #[trigger] a3.is_free(p) implies a0.is_free(p) by {
                assert(a1.is_free(p));
            }
        }
        match mapped {
            Ok(_) => {
                self.frames.push(frame);
                proof {
                    let data1 = data0.push(f);
                    assert(self.data() =~= data1);
                    assert(!data0.contains(f));
                    assert forall|j: int| 0 <= j < data1.len() implies mem.contains(
                        #[trigger] data1[j],
                    ) && !table3.nodes().contains(data1[j]) by {
                        if j < data0.len() {
                            assert(data1[j] == data0[j]);
                        }
                    }
                    lemma_page_added(
                        &table0,
                        &table3,
                        data0,
                        data1,
                        old(self).areas@,
                        area,
                        k as int,
                        self.trampoline,
                        &m2,
                        mem,
                        f,
                    );
                    lemma_entry_fields(ppn, area.flags());
                    lemma_same_page_small(vpn_k, vpn_k);
                    assert(translation(mem, root, vpn_k) == Some(
                        PageTableEntry::new(ppn, area.flags()),
                    ));
                    assert(mem.frame(f) == m2.frame(f));
                    assert forall|p: u64| data0.contains(p) implies #[trigger] self.data().contains(
                        p,
                    ) by {
                        let j = choose|j: int| 0 <= j < data0.len() && data0[j] == p;
                        assert(data1[j] == p);
                    }
                    assert(data1[data0.len() as int] == f);
                    assert forall|w: u64|
                        #[trigger] missing_nodes(mem, self.root(), w) == missing_after_map(
                            missing_nodes(old(mem), root, w),
                            vpn_k,
                            w,
                        ) by {
                        assert(missing_nodes(&m2, root, w) == missing_nodes(old(mem), root, w));
                    }
                    assert forall|p: u64| #[trigger] self.owns(p) implies a3.is_allocated(p) by {
                        if self.data().contains(p) {
                            let j = choose|j: int| 0 <= j < data1.len() && data1[j] == p;
                            if j < data0.len() {
                                assert(data0.contains(p));
                                assert(old(self).owns(p));
                            }
                        }
                    }
                    assert forall|p: u64| #[trigger]
                        a3.is_allocated(p) <==> a0.is_allocated(p) || self.owns(p) by {
                        if p == f {
                            assert(self.data().contains(f));
                        }
                        if table0.nodes().contains(p) {
                            assert(old(self).owns(p));
                        }
                    }
                    assert forall|p: u64| #[trigger] self.owns(p) && !old(self).owns(
                        p,
                    ) implies a0.is_free(p) && !a0.is_allocated(p) by {
                        if self.data().contains(p) {
                            let j = choose|j: int| 0 <= j < data1.len() && data1[j] == p;
                            if j < data0.len() {
                                assert(data0.contains(p));
                            }
                        }
                    }
                }
                Ok(())
            },
            Err(e) => {
                proof {
                    lemma_dealloc(a3, f);
                    assert(a3.is_allocated(f));
                }
                frame_dealloc(allocator, ppn);
                proof {
                    lemma_space_regrown(
                        &table0,
                        &table3,
                        data0,
                        areas0,
                        self.trampoline,
                        &m2,
                        mem,
                    );
                    assert forall|p: u64| #[trigger] allocator@.is_free(p) implies mem.contains(
                        p,
                    ) by {
                        if p != f {
                            assert(a3.is_free(p));
                        }
                    }
                    assert forall|p: u64| #[trigger] self.owns(p) implies allocator@.is_allocated(
                        p,
                    ) by {
                        if self.data().contains(p) {
                            assert(old(self).owns(p));
                        }
                    }
                    assert forall|p: u64| #[trigger]
                        allocator@.is_allocated(p) <==> a0.is_allocated(p) || self.owns(p) by {
                        if table0.nodes().contains(p) {
                            assert(old(self).owns(p));
                        }
                        if self.data().contains(p) {
                            assert(old(self).owns(p));
                        }
                    }
                    assert forall|p: u64| #[trigger] allocator@.is_free(p) implies a0.is_free(p) by {
                        if p != f {
                            assert(a3.is_free(p));
                        }
                    }
                }
                Err(e)
            },
        }
    }

    /// Maps page `k` of the area `area`, which is being added and is mapped
    /// identically, to the frame with the page's own number.
    #[verifier::rlimit(50)]
    fn map_identical_page(
        &mut self,
        allocator: &mut StackFrameAllocator,
        mem: &mut PhysMemory,
        area: MapArea,
        k: u64,
    ) -> (r: Result<(), MapError>)
        requires
            old(self).wf_with(old(mem), area.prefix(k as int)),
            area.wf(),
            !area.framed(),
            k < area.len(),
            old(allocator)@.wf(),
            old(allocator)@.covered_by(old(mem)),
            old(self).frames_allocated(old(allocator)@),
        ensures
            final(allocator)@.wf(),
            final(allocator)@.covered_by(final(mem)),
            final(mem).wf(),
            final(self).frames_allocated(final(allocator)@),
            final(self).grown_from(
                old(self),
                old(allocator)@,
                final(allocator)@,
                old(mem),
                final(mem),
            ),
            final(self).areas() == old(self).areas(),
            final(self).trampoline() == old(self).trampoline(),
            final(self).data() == old(self).data(),
            r is Ok <==> translation(old(mem), old(self).root(), (area.start.0 + k) as u64) is None
                && old(allocator)@.free_count() >= missing_nodes(
                old(mem),
                old(self).root(),
                (area.start.0 + k) as u64,
            ),
            r == Err::<(), MapError>(MapError::AlreadyMapped) <==> translation(
                old(mem),
                old(self).root(),
                (area.start.0 + k) as u64,
            ) is Some,
            r is Ok ==> {
                &&& final(allocator)@.free_count() == old(allocator)@.free_count() - missing_nodes(
                    old(mem),
                    old(self).root(),
                    (area.start.0 + k) as u64,
                )
                &&& forall|w: u64|
                    #[trigger] missing_nodes(final(mem), final(self).root(), w)
                        == missing_after_map(
                        missing_nodes(old(mem), old(self).root(), w),
                        (area.start.0 + k) as u64,
                        w,
                    )
            },
            match r {
                Ok(_) => {
                    &&& final(self).wf_with(final(mem), area.prefix(k + 1))
                    &&& translation(old(mem), old(self).root(), (area.start.0 + k) as u64) is None
                    &&& forall|v: u64|
                        !same_page(v, (area.start.0 + k) as u64) ==> #[trigger] translation(
                            final(mem),
                            final(self).root(),
                            v,
                        ) == translation(old(mem), old(self).root(), v)
                },
                Err(e) => {
                    &&& final(self).wf_with(final(mem), area.prefix(k as int))
                    &&& forall|v: u64|
                        #[trigger] translation(final(mem), final(self).root(), v) == translation(
                            old(mem),
                            old(self).root(),
                            v,
                        )
                    &&& e == MapError::AlreadyMapped || e == MapError::OutOfFrames
                },
            },
    {
        let ghost a0 = allocator@;
        let ghost table0 = self.page_table;
        let ghost data0 = self.data();
        let ghost areas0 = self.areas@.push(area.prefix(k as int));
        proof {
            lemma_space_parts(&table0, data0, areas0, self.trampoline, old(mem));
            assert forall|j: int| 0 <= j < table0.nodes().len() implies a0.is_allocated(
                #[trigger] table0.nodes()[j],
            ) by {
                assert(table0.nodes().contains(table0.nodes()[j]));
                assert(self.owns(table0.nodes()[j]));
            }
        }
        let flags = PTEFlags::from_bits_truncate(area.map_perm.bits);
        let vpn = VirtPageNum(area.start.0 + k);
        let mapped = if self.page_table.translate(mem, vpn).is_some() {
            proof {
                assert(table0.nodes().subrange(0, table0.nodes().len() as int)
                    =~= table0.nodes());
                assert(self.page_table.grown_from(&table0, a0, a0, old(mem), mem));
            }
            Err(MapError::AlreadyMapped)
        } else {
            self.page_table.map(allocator, mem, vpn, PhysPageNum(vpn.0), flags)
        };
        let ghost table3 = self.page_table;
        proof {
            table3.lemma_nodes(mem);
            assert(flags.union(PTEFlags { bits: PTEFlags::V }) == area.flags());
            assert forall|p: u64| table3.nodes().contains(p) && !table0.nodes().contains(
                p,
            ) implies !a0.is_allocated(p) && a0.is_free(p) by {
                let j = choose|j: int| 0 <= j < table3.nodes().len() && table3.nodes()[j] == p;
                if j < table0.nodes().len() {
                    assert(table3.nodes().subrange(0, table0.nodes().len() as int)[j]
                        == table0.nodes()[j]);
                    assert(table0.nodes().contains(p));
                }
                assert(!a0.is_allocated(table3.nodes()[j]));
            }
            assert forall|p: u64| table0.nodes().contains(p) implies table3.nodes().contains(p) by {
                let j = choose|j: int| 0 <= j < table0.nodes().len() && table0.nodes()[j] == p;
                assert(table3.nodes().subrange(0, table0.nodes().len() as int)[j]
                    == table0.nodes()[j]);
                assert(table3.nodes()[j] == p);
            }
            assert forall|j: int| 0 <= j < data0.len() implies mem.contains(#[trigger] data0[j])
                && !table3.nodes().contains(data0[j]) by {
                assert(data0.contains(data0[j]));
                assert(old(self).owns(data0[j]));
            }
            assert forall|p: u64| #[trigger] self.owns(p) implies allocator@.is_allocated(p) by {
                if self.data().contains(p) {
                    assert(old(self).owns(p));
                }
            }
            assert forall|p: u64| #[trigger]
                allocator@.is_allocated(p) <==> a0.is_allocated(p) || self.owns(p) by {
                if table0.nodes().contains(p) {
                    assert(old(self).owns(p));
                }
                if self.data().contains(p) {
                    assert(old(self).owns(p));
                }
            }
            assert forall|p: u64|
                a0.is_allocated(p) && !table0.nodes().contains(p) implies #[trigger] mem.frame(p)
                == old(mem).frame(p) by {
                assert(!table3.nodes().contains(p));
            }
            match mapped {
                Ok(_) => {
                    lemma_page_added(
                        &table0,
                        &table3,
                        data0,
                        data0,
                        old(self).areas@,
                        area,
                        k as int,
                        self.trampoline,
                        old(mem),
                        mem,
                        vpn.0,
                    );
                },
                Err(_) => {
                    lemma_space_regrown(
                        &table0,
                        &table3,
                        data0,
                        areas0,
                        self.trampoline,
                        old(mem),
                        mem,
                    );
                },
            }
        }
        mapped
    }

    /// Unmaps page `k` of the area `area`, which is being added, and gives
    /// its frame back.
    #[verifier::rlimit(50)]
    fn unmap_page(
        &mut self,
        allocator: &mut StackFrameAllocator,
        mem: &mut PhysMemory,
        area: MapArea,
        k: u64,
    )
        requires
            old(self).wf_with(old(mem), area.prefix(k + 1)),
            area.wf(),
            k < area.len(),
            old(allocator)@.wf(),
            old(allocator)@.covered_by(old(mem)),
            old(self).frames_allocated(old(allocator)@),
            area.framed() ==> old(self).data().len() > 0 && translation(
                old(mem),
                old(self).root(),
                (area.start.0 + k) as u64,
            )->0.ppn().0 == old(self).data().last(),
        ensures
            final(self).wf_with(final(mem), area.prefix(k as int)),
            final(allocator)@.wf(),
            final(allocator)@.covered_by(final(mem)),
            final(mem).wf(),
            final(self).frames_allocated(final(allocator)@),
            final(self).root() == old(self).root(),
            final(self).nodes() == old(self).nodes(),
            final(self).areas() == old(self).areas(),
            final(self).trampoline() == old(self).trampoline(),
            final(mem).base() == old(mem).base(),
            final(mem).frame_count() == old(mem).frame_count(),
            forall|p: u64|
                !old(self).nodes().contains(p) ==> #[trigger] final(mem).frame(p) == old(
                    mem,
                ).frame(p),
            forall|v: u64|
                #[trigger] translation(final(mem), final(self).root(), v) == if same_page(
                    v,
                    (area.start.0 + k) as u64,
                ) {
                    None
                } else {
                    translation(old(mem), old(self).root(), v)
                },
            area.framed() ==> {
                &&& final(self).data() == old(self).data().drop_last()
                &&& old(allocator)@.dealloc(old(self).data().last()) == Some(final(allocator)@)
            },
            !area.framed() ==> {
                &&& final(self).data() == old(self).data()
                &&& final(allocator)@ == old(allocator)@
            },
    {
        let ghost a0 = allocator@;
        let ghost table0 = self.page_table;
        let ghost data1 = self.data();
        let ghost areas1 = self.areas@.push(area.prefix(k + 1));
        let ghost vpn_k = (area.start.0 + k) as u64;
        proof {
            lemma_space_parts(&table0, data1, areas1, self.trampoline, old(mem));
            assert(areas1[self.areas@.len() as int].contains_vpn(vpn_k));
            lemma_area_page(
                &table0,
                data1,
                areas1,
                self.trampoline,
                old(mem),
                self.areas@.len() as int,
                vpn_k,
            );
        }
        let vpn = VirtPageNum(area.start.0 + k);
        self.page_table.unmap(mem, vpn);
        proof {
            self.page_table.lemma_nodes(mem);
        }
        match area.map_type {
            MapType::Framed => {
                let frame = self.frames.pop().unwrap();
                proof {
                    let f = frame.ppn.0;
                    assert(self.data() =~= data1.drop_last());
                    assert(data1[data1.len() - 1] == f);
                    assert(data1.contains(f));
                    assert(old(self).owns(f));
                    lemma_dealloc(a0, f);
                }
                frame_dealloc(allocator, frame.ppn);
                proof {
                    let f = frame.ppn.0;
                    lemma_page_removed(
                        &table0,
                        &self.page_table,
                        data1,
                        self.data(),
                        old(self).areas@,
                        area,
                        k as int,
                        self.trampoline,
                        old(mem),
                        mem,
                    );
                    assert forall|p: u64| #[trigger] self.owns(p) implies allocator@.is_allocated(
                        p,
                    ) by {
                        if self.data().contains(p) {
                            let i = choose|i: int| 0 <= i < self.data().len() && self.data()[i] == p;
                            assert(data1[i] == p);
                            assert(data1.contains(p));
                            assert(p != f) by {
                                assert(data1[data1.len() - 1] == f);
                            }
                        }
                        assert(old(self).owns(p));
                        assert(!(table0.nodes().contains(f) && data1.contains(f)));
                        assert(p != f);
                    }
                    assert forall|p: u64| #[trigger] allocator@.is_free(p) implies mem.contains(
                        p,
                    ) by {
                        if p != f {
                            assert(a0.is_free(p));
                        }
                    }
                }
            },
            MapType::Identical => {
                proof {
                    lemma_page_removed(
                        &table0,
                        &self.page_table,
                        data1,
                        data1,
                        old(self).areas@,
                        area,
                        k as int,
                        self.trampoline,
                        old(mem),
                        mem,
                    );
                    assert forall|p: u64| #[trigger] self.owns(p) implies allocator@.is_allocated(
                        p,
                    ) by {
                        assert(old(self).owns(p));
                    }
                    assert forall|p: u64| #[trigger] allocator@.is_free(p) implies mem.contains(
                        p,
                    ) by {
                        assert(old(mem).contains(p));
                    }
                }
            },
        }
    }

    /// The space has gone from `before` to `self` by the addition of
    /// `area`, whose pages were not mapped before and hold `data` from the
    /// start of the area, with zero bytes after it; every other page is
    /// mapped as before.
    pub open spec fn area_added(
        &self,
        before: &MemorySet,
        area: MapArea,
        data: Option<Seq<u8>>,
        m0: &PhysMemory,
        m1: &PhysMemory,
    ) -> bool {
        &&& self.areas() == before.areas().push(area)
        &&& forall|v: u64|
            area.contains_vpn(v) ==> (#[trigger] translation(m0, before.root(), v)) is None
        &&& forall|v: u64|
            !area.contains_vpn(vpn_bits(v)) ==> #[trigger] translation(m1, self.root(), v)
                == translation(m0, before.root(), v)
        &&& self.new_frames(before, area, area.len(), data, m1)
    }

    /// The first `k` pages of the framed area `area` are mapped to the data
    /// frames that the space has beyond those of `before`, in their order,
    /// and hold `data`; an area that is mapped identically adds no frame.
    pub open spec fn new_frames(
        &self,
        before: &MemorySet,
        area: MapArea,
        k: int,
        data: Option<Seq<u8>>,
        m1: &PhysMemory,
    ) -> bool {
        if area.framed() {
            &&& self.data().len() == before.data().len() + k
            &&& self.data().subrange(0, before.data().len() as int) == before.data()
            &&& forall|i: int|
                0 <= i < k ==> {
                    &&& (#[trigger] translation(m1, self.root(), (area.start.0 + i) as u64))
                        matches Some(e)
                    &&& e.ppn().0 == self.data()[before.data().len() + i]
                    &&& m1.frame(e.ppn().0) == expected_page(data, i)
                }
        } else {
            self.data() == before.data()
        }
    }

    /// Adds `area` to the space and maps its pages, a framed area to fresh
    /// frames filled with `data`. Where one of its pages is mapped already,
    /// or the frames run out, the space is left as it was, but for nodes
    /// that its table may have gained.
    #[verifier::rlimit(100)]
    fn push(
        &mut self,
        allocator: &mut StackFrameAllocator,
        mem: &mut PhysMemory,
        area: MapArea,
        data: Option<&[u8]>,
    ) -> (r: Result<(), MapError>)
        requires
            old(self).wf(old(mem)),
            area.wf(),
            old(allocator)@.wf(),
            old(allocator)@.covered_by(old(mem)),
            old(self).frames_allocated(old(allocator)@),
            data is Some ==> area.framed(),
        ensures
            final(self).wf(final(mem)),
            final(allocator)@.wf(),
            final(allocator)@.covered_by(final(mem)),
            final(mem).wf(),
            final(self).frames_allocated(final(allocator)@),
            final(self).grown_from(
                old(self),
                old(allocator)@,
                final(allocator)@,
                old(mem),
                final(mem),
            ),
            final(self).trampoline() == old(self).trampoline(),
            r is Ok <==> unmapped_upto(old(mem), old(self).root(), area, area.len())
                && frames_needed(missing_in(old(mem), old(self).root()), area, area.len()) <= old(
                allocator,
            )@.free_count(),
            error_of(r) == area_outcome(
                missing_in(old(mem), old(self).root()),
                taken_in(old(mem), old(self).root(), area),
                area,
                old(allocator)@.free_count() as int,
            ),
            r is Ok ==> {
                &&& final(allocator)@.free_count() == old(allocator)@.free_count() - frames_needed(
                    missing_in(old(mem), old(self).root()),
                    area,
                    area.len(),
                )
                &&& forall|w: u64|
                    w < 0x800_0000 ==> #[trigger] missing_nodes(final(mem), final(self).root(), w)
                        == missing_after_area(
                        missing_nodes(old(mem), old(self).root(), w),
                        area,
                        w,
                    )
            },
            match r {
                Ok(_) => final(self).area_added(
                    old(self),
                    area,
                    match data {
                        Some(d) => Some(d@),
                        None => None,
                    },
                    old(mem),
                    final(mem),
                ),
                Err(e) => {
                    &&& final(self).areas() == old(self).areas()
                    &&& final(self).data() == old(self).data()
                    &&& forall|v: u64|
                        #[trigger] translation(final(mem), final(self).root(), v) == translation(
                            old(mem),
                            old(self).root(),
                            v,
                        )
                    &&& e == MapError::AlreadyMapped || e == MapError::OutOfFrames
                },
            },
    {
        let ghost before = *self;
        let ghost a0 = allocator@;
        let ghost base = self.data().len() as int;
        let ghost bytes: Option<Seq<u8>> = match data {
            Some(d) => Some(d@),
            None => None,
        };
        let n: u64 = area.end.0 - area.start.0;
        let mut k: u64 = 0;
        proof {
            lemma_empty_area(
                &self.page_table,
                self.data(),
                self.areas@,
                area,
                self.trampoline,
                old(mem),
            );
            lemma_space_parts(&self.page_table, self.data(), self.areas@, self.trampoline, old(mem));
            assert(self.data().subrange(0, base) =~= before.data());
            assert forall|p: u64| #[trigger]
                a0.is_allocated(p) <==> a0.is_allocated(p) || self.owns(p) by {
                if self.owns(p) {
                    assert(old(self).owns(p));
                }
            }
        }
        while k < n
            invariant
                k <= n,
                n == area.len(),
                area.wf(),
                data is Some ==> area.framed(),
                bytes == match data {
                    Some(d) => Some(d@),
                    None => None,
                },
                before == *old(self),
                a0 == old(allocator)@,
                base == before.data().len(),
                self.wf_with(mem, area.prefix(k as int)),
                allocator@.wf(),
                allocator@.covered_by(mem),
                mem.wf(),
                self.frames_allocated(allocator@),
                self.grown_from(&before, a0, allocator@, old(mem), mem),
                self.areas() == before.areas(),
                self.trampoline() == before.trampoline(),
                forall|v: u64|
                    area.prefix(k as int).contains_vpn(v) ==> (#[trigger] translation(
                        old(mem),
                        before.root(),
                        v,
                    )) is None,
                forall|v: u64|
                    !area.prefix(k as int).contains_vpn(vpn_bits(v)) ==> #[trigger] translation(
                        mem,
                        self.root(),
                        v,
                    ) == translation(old(mem), before.root(), v),
                self.new_frames(&before, area, k as int, bytes, mem),
                allocator@.free_count() == a0.free_count() - frames_needed(
                    missing_in(old(mem), before.root()),
                    area,
                    k as int,
                ),
                unmapped_upto(old(mem), before.root(), area, k as int),
                forall|w: u64|
                    w < 0x800_0000 ==> #[trigger] missing_nodes(mem, self.root(), w)
                        == missing_after_area(
                        missing_nodes(old(mem), before.root(), w),
                        area.prefix(k as int),
                        w,
                    ),
            decreases n - k,
        {
            let ghost mid = *self;
            let ghost a_mid = allocator@;
            let ghost m_mid = *mem;
            let ghost vpn_k = (area.start.0 + k) as u64;
            proof {
                lemma_space_parts(
                    &self.page_table,
                    self.data(),
                    self.areas@.push(area.prefix(k as int)),
                    self.trampoline,
                    mem,
                );
                lemma_same_page_small(vpn_k, vpn_k);
            }
            let step = match area.map_type {
                MapType::Framed => {
                    let chunk: Option<&[u8]> = match data {
                        Some(d) => {
                            if k * 4096 < d.len() as u64 {
                                let from: usize = (k * 4096) as usize;
                                let to: usize = if d.len() - from < 4096 {
                                    d.len()
                                } else {
                                    from + 4096
                                };
                                Some(slice_subrange(d, from, to))
                            } else {
                                None
                            }
                        },
                        None => None,
                    };
                    proof {
                        assert(match chunk {
                            Some(c) => page_image(c@),
                            None => zero_frame(),
                        } == expected_page(bytes, k as int));
                    }
                    self.map_framed_page(allocator, mem, area, k, chunk)
                },
                MapType::Identical => self.map_identical_page(allocator, mem, area, k),
            };
            proof {
                self.lemma_grown_twice(&mid, &before, a0, a_mid, allocator@, old(mem), &m_mid, mem);
                assert(translation(&m_mid, mid.root(), vpn_k) == translation(
                    old(mem),
                    before.root(),
                    vpn_k,
                ));
                assert(missing_nodes(&m_mid, mid.root(), vpn_k) == missing_after_area(
                    missing_nodes(old(mem), before.root(), vpn_k),
                    area.prefix(k as int),
                    vpn_k,
                ));
                assert(frames_needed(missing_in(old(mem), before.root()), area, k + 1)
                    == frames_needed(missing_in(old(mem), before.root()), area, k as int)
                    + area.page_cost() + missing_nodes(&m_mid, mid.root(), vpn_k));
            }
            match step {
                Ok(_) => {
                    proof {
                        assert(unmapped_upto(old(mem), before.root(), area, k + 1)) by {
                            assert forall|i: int| 0 <= i < k + 1 implies (#[trigger] translation(
                                old(mem),
                                before.root(),
                                (area.start.0 + i) as u64,
                            )) is None by {
                                if i < k {
                                    assert(unmapped_upto(old(mem), before.root(), area, k as int));
                                }
                            }
                        }
                        assert forall|w: u64| w < 0x800_0000 implies #[trigger] missing_nodes(
                            mem,
                            self.root(),
                            w,
                        ) == missing_after_area(
                            missing_nodes(old(mem), before.root(), w),
                            area.prefix(k + 1),
                            w,
                        ) by {
                            lemma_missing_step(
                                missing_nodes(old(mem), before.root(), w),
                                area,
                                k as int,
                                w,
                            );
                            assert(missing_nodes(&m_mid, mid.root(), w) == missing_after_area(
                                missing_nodes(old(mem), before.root(), w),
                                area.prefix(k as int),
                                w,
                            ));
                        }
                        assert forall|v: u64| !area.prefix(k + 1).contains_vpn(
                            vpn_bits(v),
                        ) implies #[trigger] translation(mem, self.root(), v) == translation(
                            old(mem),
                            before.root(),
                            v,
                        ) by {
                            lemma_vpn_bits(v);
                            lemma_same_page(v, vpn_k);
                            assert(!same_page(v, vpn_k));
                            assert(translation(mem, self.root(), v) == translation(
                                &m_mid,
                                mid.root(),
                                v,
                            ));
                        }
                        if area.framed() {
                            let f = translation(mem, self.root(), vpn_k)->0.ppn().0;
                            assert(self.data() == mid.data().push(f));
                            assert(self.data().subrange(0, base) =~= before.data()) by {
                                assert forall|i: int| 0 <= i < base implies self.data()[i]
                                    == before.data()[i] by {
                                    assert(mid.data().subrange(0, base)[i] == before.data()[i]);
                                }
                            }
                            assert forall|i: int| 0 <= i < k + 1 implies ({
                                &&& (#[trigger] translation(
                                    mem,
                                    self.root(),
                                    (area.start.0 + i) as u64,
                                )) matches Some(e)
                                &&& e.ppn().0 == self.data()[base + i]
                                &&& mem.frame(e.ppn().0) == expected_page(bytes, i)
                            }) by {
                                let v = (area.start.0 + i) as u64;
                                if i < k {
                                    lemma_same_page_small(v, vpn_k);
                                    assert(translation(mem, self.root(), v) == translation(
                                        &m_mid,
                                        mid.root(),
                                        v,
                                    ));
                                    let e = translation(&m_mid, mid.root(), v)->0;
                                    assert(e.ppn().0 == mid.data()[base + i]);
                                    assert(mid.data().contains(e.ppn().0));
                                    assert(mid.owns(e.ppn().0));
                                    assert(a_mid.is_allocated(e.ppn().0));
                                    assert(mem.frame(e.ppn().0) == m_mid.frame(e.ppn().0));
                                }
                            }
                        }
                    }
                    k += 1;
                },
                Err(e) => {
                    let ghost failed = k;
                    proof {
                        lemma_push_failed(
                            old(mem),
                            before.root(),
                            area,
                            k as int,
                            a0.free_count() as int,
                            e == MapError::AlreadyMapped,
                        );
                        lemma_area_outcome(
                            old(mem),
                            before.root(),
                            area,
                            a0.free_count() as int,
                            Some(e),
                        );
                        if e == MapError::AlreadyMapped {
                            assert(area.contains_vpn(vpn_k));
                            assert(translation(old(mem), before.root(), vpn_k) is Some);
                        }
                        assert(self.data() == mid.data());
                        assert forall|v: u64| !area.prefix(k as int).contains_vpn(
                            vpn_bits(v),
                        ) implies #[trigger] translation(mem, self.root(), v) == translation(
                            old(mem),
                            before.root(),
                            v,
                        ) by {
                            assert(translation(mem, self.root(), v) == translation(
                                &m_mid,
                                mid.root(),
                                v,
                            ));
                        }
                        if area.framed() {
                            assert forall|i: int| 0 <= i < k implies ({
                                &&& (#[trigger] translation(
                                    mem,
                                    self.root(),
                                    (area.start.0 + i) as u64,
                                )) matches Some(e)
                                &&& e.ppn().0 == self.data()[base + i]
                            }) by {
                                let v = (area.start.0 + i) as u64;
                                assert(translation(mem, self.root(), v) == translation(
                                    &m_mid,
                                    mid.root(),
                                    v,
                                ));
                            }
                        }
                    }
                    while k > 0
                        invariant
                            k <= failed,
                            failed < n,
                            n == area.len(),
                            area.wf(),
                            base == before.data().len(),
                            self.wf_with(mem, area.prefix(k as int)),
                            allocator@.wf(),
                            allocator@.covered_by(mem),
                            mem.wf(),
                            self.frames_allocated(allocator@),
                            self.grown_from(&before, a0, allocator@, old(mem), mem),
                            self.areas() == before.areas(),
                            self.trampoline() == before.trampoline(),
                            forall|v: u64|
                                area.prefix(failed as int).contains_vpn(v) ==> (
                                #[trigger] translation(old(mem), before.root(), v)) is None,
                            forall|v: u64|
                                !area.prefix(k as int).contains_vpn(vpn_bits(v))
                                    ==> #[trigger] translation(mem, self.root(), v) == translation(
                                    old(mem),
                                    before.root(),
                                    v,
                                ),
                            area.framed() ==> {
                                &&& self.data().len() == base + k
                                &&& self.data().subrange(0, base) == before.data()
                                &&& forall|i: int|
                                    0 <= i < k ==> {
                                        &&& (#[trigger] translation(
                                            mem,
                                            self.root(),
                                            (area.start.0 + i) as u64,
                                        )) matches Some(e)
                                        &&& e.ppn().0 == self.data()[base + i]
                                    }
                            },
                            !area.framed() ==> self.data() == before.data(),
                        decreases k,
                    {
                        let ghost late = *self;
                        let ghost a_late = allocator@;
                        let ghost m_late = *mem;
                        k -= 1;
                        let ghost vpn_j = (area.start.0 + k) as u64;
                        proof {
                            lemma_space_parts(
                                &self.page_table,
                                self.data(),
                                self.areas@.push(area.prefix(k + 1)),
                                self.trampoline,
                                mem,
                            );
                            if area.framed() {
                                assert(translation(mem, self.root(), vpn_j)->0.ppn().0
                                    == self.data()[base + k]);
                                lemma_dealloc(a_late, self.data().last());
                                assert(self.data().contains(self.data().last()));
                                assert(late.owns(self.data().last()));
                            }
                        }
                        self.unmap_page(allocator, mem, area, k);
                        proof {
                            assert forall|v: u64| !area.prefix(k as int).contains_vpn(
                                vpn_bits(v),
                            ) implies #[trigger] translation(mem, self.root(), v) == translation(
                                old(mem),
                                before.root(),
                                v,
                            ) by {
                                lemma_vpn_bits(v);
                                lemma_same_page(v, vpn_j);
                                lemma_same_page_small(vpn_j, vpn_j);
                                if same_page(v, vpn_j) {
                                    assert(vpn_bits(v) == vpn_j);
                                    assert(area.prefix(failed as int).contains_vpn(vpn_j));
                                    assert(translation(old(mem), before.root(), vpn_j) is None);
                                    lemma_same_page_translation(old(mem), before.root(), v, vpn_j);
                                } else {
                                    assert(translation(mem, self.root(), v) == translation(
                                        &m_late,
                                        late.root(),
                                        v,
                                    ));
                                }
                            }
                            let f = if area.framed() {
                                late.data().last()
                            } else {
                                0
                            };
                            if area.framed() {
                                assert(self.data().subrange(0, base) =~= before.data()) by {
                                    assert forall|i: int| 0 <= i < base implies self.data()[i]
                                        == before.data()[i] by {
                                        assert(late.data().subrange(0, base)[i] == before.data()[i]);
                                    }
                                }
                                assert forall|i: int| 0 <= i < k implies ({
                                    &&& (#[trigger] translation(
                                        mem,
                                        self.root(),
                                        (area.start.0 + i) as u64,
                                    )) matches Some(e)
                                    &&& e.ppn().0 == self.data()[base + i]
                                }) by {
                                    let v = (area.start.0 + i) as u64;
                                    lemma_same_page_small(v, vpn_j);
                                    assert(translation(mem, self.root(), v) == translation(
                                        &m_late,
                                        late.root(),
                                        v,
                                    ));
                                }
                                assert(!before.owns(f)) by {
                                    assert(late.data()[base + k] == f);
                                    if before.data().contains(f) {
                                        let i = choose|i: int|
                                            0 <= i < base && before.data()[i] == f;
                                        assert(late.data().subrange(0, base)[i] == before.data()[i]);
                                    }
                                    if before.nodes().contains(f) {
                                        assert(late.nodes().contains(f));
                                    }
                                }
                                assert(late.owns(f));
                                assert forall|p: u64| self.data().contains(p) implies late.data().contains(
                                    p,
                                ) && p != f by {
                                    let i = choose|i: int|
                                        0 <= i < self.data().len() && self.data()[i] == p;
                                    assert(late.data()[i] == p);
                                }
                                assert forall|p: u64| late.data().contains(p) && p
                                    != f implies self.data().contains(p) by {
                                    let i = choose|i: int|
                                        0 <= i < late.data().len() && late.data()[i] == p;
                                    assert(self.data()[i] == p);
                                }
                            }
                            assert forall|p: u64|
                                before.data().contains(p) implies #[trigger] self.data().contains(
                                p,
                            ) by {
                                assert(late.data().contains(p));
                                assert(before.owns(p));
                            }
                            assert forall|p: u64| #[trigger]
                                allocator@.is_allocated(p) <==> a0.is_allocated(p) || self.owns(
                                    p,
                                ) by {
                                assert(a_late.is_allocated(p) <==> a0.is_allocated(p) || late.owns(
                                    p,
                                ));
                            }
                            assert forall|p: u64| #[trigger] self.owns(p) && !before.owns(
                                p,
                            ) implies a0.is_free(p) && !a0.is_allocated(p) by {
                                assert(late.owns(p));
                            }
                            assert forall|p: u64| #[trigger] allocator@.is_free(p) implies a0.is_free(
                                p,
                            ) by {
                                if area.framed() && p == f {
                                } else {
                                    assert(a_late.is_free(p));
                                }
                            }
                            assert forall|p: u64|
                                a0.is_allocated(p) && !before.nodes().contains(
                                    p,
                                ) implies #[trigger] mem.frame(p) == old(mem).frame(p) by {
                                assert(m_late.frame(p) == old(mem).frame(p));
                                if late.nodes().contains(p) {
                                    assert(late.owns(p));
                                    if before.data().contains(p) {
                                        assert(late.data().contains(p));
                                    }
                                    assert(!before.owns(p));
                                }
                            }
                        }
                    }
                    proof {
                        lemma_empty_area(
                            &self.page_table,
                            self.data(),
                            self.areas@,
                            area,
                            self.trampoline,
                            mem,
                        );
                        if area.framed() {
                            assert(self.data() =~= self.data().subrange(0, base));
                        }
                    }
                    return Err(e);
                },
            }
        }
        let ghost done = *self;
        self.areas.push(area);
        proof {
            assert(area.prefix(n as int) == area);
            assert(!exists|j: int|
                taken_at(old(mem), before.root(), area, j, a0.free_count() as int)) by {
                if exists|j: int|
                    taken_at(old(mem), before.root(), area, j, a0.free_count() as int) {
                    let j = choose|j: int|
                        taken_at(old(mem), before.root(), area, j, a0.free_count() as int);
                    assert(translation(old(mem), before.root(), (area.start.0 + j) as u64) is None);
                }
            }
            lemma_area_outcome(old(mem), before.root(), area, a0.free_count() as int, None);
            assert(self.nodes() == done.nodes());
            assert forall|p: u64| before.nodes().contains(p) implies #[trigger] self.nodes().contains(
                p,
            ) by {
                assert(done.nodes().contains(p));
            }
            assert forall|p: u64| #[trigger] self.owns(p) implies done.owns(p) by {}
            assert forall|p: u64| #[trigger] done.owns(p) implies self.owns(p) by {}
            assert forall|p: u64| #[trigger] self.owns(p) implies allocator@.is_allocated(p) by {
                assert(done.owns(p));
            }
            assert forall|p: u64| #[trigger]
                allocator@.is_allocated(p) <==> a0.is_allocated(p) || self.owns(p) by {
                assert(allocator@.is_allocated(p) <==> a0.is_allocated(p) || done.owns(p));
            }
            assert forall|p: u64| #[trigger] self.owns(p) && !before.owns(p) implies a0.is_free(p)
                && !a0.is_allocated(p) by {
                assert(done.owns(p));
            }
        }
        Ok(())
    }

    /// The page number of the frame of the trampoline page, where the
    /// space maps it.
    pub open spec fn trampoline_frame(&self) -> u64 {
        match self.trampoline() {
            Some(ppn) => ppn.0,
            None => 0,
        }
    }

    /// Every area of the space is backed by frames of its own.
    pub open spec fn is_user_space(&self) -> bool {
        forall|a: int| 0 <= a < self.areas().len() ==> (#[trigger] self.areas()[a]).framed()
    }

    /// What the parts of a well-formed space are: its table is well-formed;
    /// its areas are well-formed and pairwise disjoint; a frame is never
    /// both a node of the table and a data frame, and every frame that the
    /// space owns is a frame of `mem`; a page is mapped only where an area
    /// or the trampoline covers it, and a page of an area is mapped with the
    /// flags of the area, to a data frame where the area is framed.
    pub proof fn lemma_wf(&self, mem: &PhysMemory)
        requires
            self.wf(mem),
        ensures
            mem.wf(),
            self.nodes().len() >= 1,
            self.nodes()[0] == self.root(),
            self.nodes().no_duplicates(),
            self.data().no_duplicates(),
            forall|p: u64| !(self.nodes().contains(p) && self.data().contains(p)),
            forall|p: u64| #[trigger] self.owns(p) ==> mem.contains(p),
            forall|a: int| 0 <= a < self.areas().len() ==> (#[trigger] self.areas()[a]).wf(),
            forall|a: int, b: int|
                0 <= a < b < self.areas().len() ==> (#[trigger] self.areas()[a]).disjoint(
                    #[trigger] self.areas()[b],
                ),
            forall|v: u64|
                (#[trigger] translation(mem, self.root(), v)) is Some ==> covered(
                    self.areas(),
                    self.trampoline(),
                    vpn_bits(v),
                ),
            forall|a: int, v: u64|
                0 <= a < self.areas().len() && (#[trigger] self.areas()[a]).contains_vpn(v) ==> {
                    &&& (#[trigger] translation(mem, self.root(), v)) matches Some(e)
                    &&& e.flags() == self.areas()[a].flags()
                    &&& self.areas()[a].framed() ==> self.data().contains(e.ppn().0)
                    &&& !self.areas()[a].framed() ==> e.ppn().0 == v
                },
            self.trampoline() matches Some(ppn) ==> {
                &&& translation(mem, self.root(), TRAMPOLINE_VPN) == Some(trampoline_entry(ppn))
                &&& trampoline_entry(ppn).ppn() == ppn
                &&& forall|a: int|
                    0 <= a < self.areas().len() ==> !(#[trigger] self.areas()[a]).contains_vpn(
                        TRAMPOLINE_VPN,
                    )
            },
    {
        reveal(space_wf);
        self.page_table.lemma_nodes(mem);
        assert forall|p: u64| #[trigger] self.owns(p) implies mem.contains(p) by {
            if self.nodes().contains(p) {
                let k = choose|k: int| 0 <= k < self.nodes().len() && self.nodes()[k] == p;
                assert(mem.contains(self.nodes()[k]));
            }
        }
        if self.trampoline() is Some {
            lemma_entry_fields(
                self.trampoline()->0,
                PTEFlags { bits: (PTEFlags::R | PTEFlags::X) | PTEFlags::V },
            );
        }
    }

    /// Two different pages of framed areas of a space are mapped to
    /// different frames.
    pub proof fn lemma_distinct_frames(&self, mem: &PhysMemory, a: int, b: int, v: u64, w: u64)
        requires
            self.wf(mem),
            0 <= a < self.areas().len(),
            0 <= b < self.areas().len(),
            self.areas()[a].framed(),
            self.areas()[b].framed(),
            self.areas()[a].contains_vpn(v),
            self.areas()[b].contains_vpn(w),
            v != w,
        ensures
            translation(mem, self.root(), v) is Some,
            translation(mem, self.root(), w) is Some,
            translation(mem, self.root(), v)->0.ppn() != translation(mem, self.root(), w)->0.ppn(),
    {
        reveal(space_wf);
    }

    /// A segment that was loaded stays loaded when memory changes, as long
    /// as every page is translated as before and, of the data frames, only
    /// the frame of a page outside the segment changes.
    pub proof fn lemma_segment_kept(
        &self,
        m0: &PhysMemory,
        m1: &PhysMemory,
        segment: Segment,
        j: int,
        b: int,
        w: u64,
    )
        requires
            self.wf(m0),
            forall|v: u64|
                #[trigger] translation(m1, self.root(), v) == translation(m0, self.root(), v),
            0 <= j < self.areas().len(),
            self.areas()[j] == segment.area(),
            self.segment_loaded(m0, segment),
            0 <= b < self.areas().len(),
            self.areas()[b].framed(),
            self.areas()[b].contains_vpn(w),
            !segment.area().contains_vpn(w),
            forall|p: u64|
                self.data().contains(p) && p != translation(m0, self.root(), w)->0.ppn().0
                    ==> #[trigger] m1.frame(p) == m0.frame(p),
        ensures
            self.segment_loaded(m1, segment),
    {
        self.lemma_wf(m0);
        assert forall|i: int| 0 <= i < segment.area().len() implies ({
            &&& (#[trigger] translation(m1, self.root(), (segment.area().start.0 + i) as u64))
                matches Some(e)
            &&& m1.frame(e.ppn().0) == expected_page(Some(segment.data@), i)
        }) by {
            let v = (segment.area().start.0 + i) as u64;
            assert(self.areas()[j].contains_vpn(v));
            assert(translation(m0, self.root(), v) is Some);
            self.lemma_distinct_frames(m0, j, b, v, w);
            let e = translation(m0, self.root(), v)->0;
            assert(self.data().contains(e.ppn().0));
            assert(m1.frame(e.ppn().0) == m0.frame(e.ppn().0));
        }
    }

    /// An area that was added stays added when memory changes before and
    /// after, as long as every page is translated as before and the data
    /// frames of the space keep their bytes.
    pub proof fn lemma_area_kept(
        &self,
        before: &MemorySet,
        area: MapArea,
        data: Option<Seq<u8>>,
        m0: &PhysMemory,
        m1: &PhysMemory,
        m2: &PhysMemory,
        m3: &PhysMemory,
    )
        requires
            self.wf(m2),
            self.area_added(before, area, data, m1, m2),
            forall|v: u64|
                #[trigger] translation(m1, before.root(), v) == translation(m0, before.root(), v),
            forall|v: u64|
                #[trigger] translation(m3, self.root(), v) == translation(m2, self.root(), v),
            forall|p: u64| self.data().contains(p) ==> #[trigger] m3.frame(p) == m2.frame(p),
        ensures
            self.area_added(before, area, data, m0, m3),
    {
        self.lemma_wf(m2);
        let last = self.areas().len() - 1;
        assert(self.areas()[last] == area);
        assert forall|v: u64| area.contains_vpn(v) implies (#[trigger] translation(
            m0,
            before.root(),
            v,
        )) is None by {
            assert(translation(m1, before.root(), v) is None);
        }
        assert forall|v: u64| !area.contains_vpn(vpn_bits(v)) implies #[trigger] translation(
            m3,
            self.root(),
            v,
        ) == translation(m0, before.root(), v) by {
            assert(translation(m2, self.root(), v) == translation(m1, before.root(), v));
        }
        if area.framed() {
            assert forall|i: int| 0 <= i < area.len() implies ({
                &&& (#[trigger] translation(m3, self.root(), (area.start.0 + i) as u64))
                    matches Some(e)
                &&& e.ppn().0 == self.data()[before.data().len() + i]
                &&& m3.frame(e.ppn().0) == expected_page(data, i)
            }) by {
                let v = (area.start.0 + i) as u64;
                assert(translation(m2, self.root(), v) is Some);
                let e = translation(m2, self.root(), v)->0;
                assert(self.data().contains(self.data()[before.data().len() + i]));
            }
        }
    }

    /// A space stays well-formed, and translates every page as before,
    /// when memory changes outside the nodes of its table.
    pub proof fn lemma_untouched(&self, m0: &PhysMemory, m1: &PhysMemory)
        requires
            self.wf(m0),
            m1.wf(),
            m1.base() == m0.base(),
            m1.frame_count() == m0.frame_count(),
            forall|p: u64| self.nodes().contains(p) ==> #[trigger] m1.frame(p) == m0.frame(p),
        ensures
            self.wf(m1),
            forall|v: u64|
                #[trigger] translation(m1, self.root(), v) == translation(m0, self.root(), v),
            forall|v: u64|
                #[trigger] missing_nodes(m1, self.root(), v) == missing_nodes(m0, self.root(), v),
    {
        assert forall|k: int| 0 <= k < self.nodes().len() implies m1.frame(
            #[trigger] self.nodes()[k],
        ) == m0.frame(self.nodes()[k]) by {
            assert(self.nodes().contains(self.nodes()[k]));
        }
        lemma_space_unchanged(
            &self.page_table,
            self.data(),
            self.areas@,
            self.trampoline,
            m0,
            m1,
        );
    }

    /// Two user spaces that own no frame in common, and map the same
    /// trampoline frame, which neither owns, share no frame but that of
    /// the trampoline: pages of the two that are mapped to one frame are
    /// the trampoline pages.
    pub proof fn lemma_isolation(&self, other: &MemorySet, mem: &PhysMemory, v: u64, w: u64)
        requires
            self.wf(mem),
            other.wf(mem),
            self.is_user_space(),
            other.is_user_space(),
            forall|p: u64| !(self.owns(p) && other.owns(p)),
            self.trampoline() is Some,
            other.trampoline() == self.trampoline(),
            !self.owns(self.trampoline_frame()),
            !other.owns(self.trampoline_frame()),
            translation(mem, self.root(), v) is Some,
            translation(mem, other.root(), w) is Some,
            translation(mem, self.root(), v)->0.ppn() == translation(mem, other.root(), w)->0.ppn(),
        ensures
            translation(mem, self.root(), v)->0.ppn() == self.trampoline()->0,
            vpn_bits(v) == TRAMPOLINE_VPN,
            vpn_bits(w) == TRAMPOLINE_VPN,
    {
        self.lemma_wf(mem);
        other.lemma_wf(mem);
        lemma_vpn_bits(v);
        lemma_vpn_bits(w);
        lemma_same_page_translation(mem, self.root(), v, vpn_bits(v));
        lemma_same_page_translation(mem, other.root(), w, vpn_bits(w));
        let shared = translation(mem, self.root(), v)->0.ppn().0;
        assert(covered(self.areas(), self.trampoline(), vpn_bits(v)));
        assert(covered(other.areas(), other.trampoline(), vpn_bits(w)));
        if exists|a: int|
            0 <= a < self.areas().len() && (#[trigger] self.areas()[a]).contains_vpn(vpn_bits(v)) {
            let a = choose|a: int|
                0 <= a < self.areas().len() && (#[trigger] self.areas()[a]).contains_vpn(
                    vpn_bits(v),
                );
            assert(self.areas()[a].framed());
            assert(self.data().contains(shared));
            assert(self.owns(shared));
        }
        if exists|b: int|
            0 <= b < other.areas().len() && (#[trigger] other.areas()[b]).contains_vpn(vpn_bits(w)) {
            let b = choose|b: int|
                0 <= b < other.areas().len() && (#[trigger] other.areas()[b]).contains_vpn(
                    vpn_bits(w),
                );
            assert(other.areas()[b].framed());
            assert(other.data().contains(shared));
            assert(other.owns(shared));
        }
    }

    /// Maps the trampoline page to the frame `ppn`, readable and
    /// executable. Refused where the space maps the page already.
    #[verifier::rlimit(50)]
    pub fn map_trampoline(
        &mut self,
        allocator: &mut StackFrameAllocator,
        mem: &mut PhysMemory,
        ppn: PhysPageNum,
    ) -> (r: Result<(), MapError>)
        requires
            old(self).wf(old(mem)),
            old(self).trampoline() is None,
            ppn.0 < 0x1000_0000_0000,
            old(allocator)@.wf(),
            old(allocator)@.covered_by(old(mem)),
            old(self).frames_allocated(old(allocator)@),
        ensures
            final(self).wf(final(mem)),
            final(allocator)@.wf(),
            final(allocator)@.covered_by(final(mem)),
            final(mem).wf(),
            final(self).frames_allocated(final(allocator)@),
            final(self).grown_from(
                old(self),
                old(allocator)@,
                final(allocator)@,
                old(mem),
                final(mem),
            ),
            final(self).areas() == old(self).areas(),
            final(self).data() == old(self).data(),
            r is Ok <==> translation(old(mem), old(self).root(), TRAMPOLINE_VPN) is None
                && missing_nodes(old(mem), old(self).root(), TRAMPOLINE_VPN) <= old(
                allocator,
            )@.free_count(),
            r == Err::<(), MapError>(MapError::AlreadyMapped) <==> translation(
                old(mem),
                old(self).root(),
                TRAMPOLINE_VPN,
            ) is Some,
            r is Ok ==> {
                &&& final(allocator)@.free_count() == old(allocator)@.free_count() - missing_nodes(
                    old(mem),
                    old(self).root(),
                    TRAMPOLINE_VPN,
                )
                &&& forall|w: u64|
                    #[trigger] missing_nodes(final(mem), final(self).root(), w)
                        == missing_after_map(
                        missing_nodes(old(mem), old(self).root(), w),
                        TRAMPOLINE_VPN,
                        w,
                    )
            },
            match r {
                Ok(_) => {
                    &&& final(self).trampoline() == Some(ppn)
                    &&& translation(old(mem), old(self).root(), TRAMPOLINE_VPN) is None
                    &&& forall|v: u64|
                        !same_page(v, TRAMPOLINE_VPN) ==> #[trigger] translation(
                            final(mem),
                            final(self).root(),
                            v,
                        ) == translation(old(mem), old(self).root(), v)
                },
                Err(e) => {
                    &&& final(self).trampoline() is None
                    &&& forall|v: u64|
                        #[trigger] translation(final(mem), final(self).root(), v) == translation(
                            old(mem),
                            old(self).root(),
                            v,
                        )
                    &&& e == MapError::AlreadyMapped || e == MapError::OutOfFrames
                },
            },
    {
        let ghost a0 = allocator@;
        let ghost table0 = self.page_table;
        let ghost data0 = self.data();
        proof {
            lemma_space_parts(&table0, data0, self.areas@, self.trampoline, old(mem));
            assert forall|j: int| 0 <= j < table0.nodes().len() implies a0.is_allocated(
                #[trigger] table0.nodes()[j],
            ) by {
                assert(table0.nodes().contains(table0.nodes()[j]));
                assert(self.owns(table0.nodes()[j]));
            }
        }
        let flags = PTEFlags::from_bits_truncate(PTEFlags::R | PTEFlags::X);
        let vpn = VirtPageNum(TRAMPOLINE_VPN);
        let mapped = if self.page_table.translate(mem, vpn).is_some() {
            proof {
                assert(table0.nodes().subrange(0, table0.nodes().len() as int)
                    =~= table0.nodes());
                assert(self.page_table.grown_from(&table0, a0, a0, old(mem), mem));
            }
            Err(MapError::AlreadyMapped)
        } else {
            self.page_table.map(allocator, mem, vpn, ppn, flags)
        };
        let ghost table3 = self.page_table;
        proof {
            table3.lemma_nodes(mem);
            assert(PageTableEntry::new(ppn, flags.union(PTEFlags { bits: PTEFlags::V }))
                == trampoline_entry(ppn));
            assert forall|p: u64| table3.nodes().contains(p) && !table0.nodes().contains(
                p,
            ) implies !a0.is_allocated(p) && a0.is_free(p) by {
                let j = choose|j: int| 0 <= j < table3.nodes().len() && table3.nodes()[j] == p;
                if j < table0.nodes().len() {
                    assert(table3.nodes().subrange(0, table0.nodes().len() as int)[j]
                        == table0.nodes()[j]);
                    assert(table0.nodes().contains(p));
                }
                assert(!a0.is_allocated(table3.nodes()[j]));
            }
            assert forall|p: u64| table0.nodes().contains(p) implies table3.nodes().contains(p) by {
                let j = choose|j: int| 0 <= j < table0.nodes().len() && table0.nodes()[j] == p;
                assert(table3.nodes().subrange(0, table0.nodes().len() as int)[j]
                    == table0.nodes()[j]);
                assert(table3.nodes()[j] == p);
            }
            assert forall|j: int| 0 <= j < data0.len() implies mem.contains(#[trigger] data0[j])
                && !table3.nodes().contains(data0[j]) by {
                assert(data0.contains(data0[j]));
                assert(old(self).owns(data0[j]));
            }
            assert forall|p: u64| #[trigger] self.owns(p) implies allocator@.is_allocated(p) by {
                if self.data().contains(p) {
                    assert(old(self).owns(p));
                }
            }
            assert forall|p: u64| #[trigger]
                allocator@.is_allocated(p) <==> a0.is_allocated(p) || self.owns(p) by {
                if table0.nodes().contains(p) {
                    assert(old(self).owns(p));
                }
                if self.data().contains(p) {
                    assert(old(self).owns(p));
                }
            }
            assert forall|p: u64|
                a0.is_allocated(p) && !table0.nodes().contains(p) implies #[trigger] mem.frame(p)
                == old(mem).frame(p) by {
                assert(!table3.nodes().contains(p));
            }
        }
        match mapped {
            Ok(_) => {
                self.trampoline = Some(ppn);
                proof {
                    lemma_trampoline_added(
                        &table0,
                        &table3,
                        data0,
                        self.areas@,
                        ppn,
                        old(mem),
                        mem,
                    );
                    assert forall|p: u64| #[trigger] self.owns(p) implies allocator@.is_allocated(
                        p,
                    ) by {
                        if self.data().contains(p) {
                            assert(old(self).owns(p));
                        }
                    }
                }
                Ok(())
            },
            Err(e) => {
                proof {
                    lemma_space_regrown(
                        &table0,
                        &table3,
                        data0,
                        self.areas@,
                        self.trampoline,
                        old(mem),
                        mem,
                    );
                }
                Err(e)
            },
        }
    }

    /// Adds the framed area of the pages that the addresses from `start_va`
    /// up to `end_va` touch, backed by fresh zero frames. Refused where the
    /// range is reversed or leaves the address space, or one of its pages
    /// is mapped already; fails where the frames run out. The space is then
    /// left as it was, but for nodes that its table may have gained.
    pub fn insert_framed_area(
        &mut self,
        allocator: &mut StackFrameAllocator,
        mem: &mut PhysMemory,
        start_va: VirtAddr,
        end_va: VirtAddr,
        permission: MapPermission,
    ) -> (r: Result<(), MapError>)
        requires
            old(self).wf(old(mem)),
            old(allocator)@.wf(),
            old(allocator)@.covered_by(old(mem)),
            old(self).frames_allocated(old(allocator)@),
        ensures
            final(self).wf(final(mem)),
            final(allocator)@.wf(),
            final(allocator)@.covered_by(final(mem)),
            final(mem).wf(),
            final(self).frames_allocated(final(allocator)@),
            final(self).grown_from(
                old(self),
                old(allocator)@,
                final(allocator)@,
                old(mem),
                final(mem),
            ),
            final(self).trampoline() == old(self).trampoline(),
            error_of(r) == if framed_area(start_va, end_va, permission).wf() {
                area_outcome(
                    missing_in(old(mem), old(self).root()),
                    taken_in(old(mem), old(self).root(), framed_area(start_va, end_va, permission)),
                    framed_area(start_va, end_va, permission),
                    old(allocator)@.free_count() as int,
                )
            } else {
                Some(MapError::InvalidRange)
            },
            r is Ok <==> {
                let area = framed_area(start_va, end_va, permission);
                &&& area.wf()
                &&& unmapped_upto(old(mem), old(self).root(), area, area.len())
                &&& frames_needed(missing_in(old(mem), old(self).root()), area, area.len()) <= old(
                    allocator,
                )@.free_count()
            },
            r is Ok ==> {
                let area = framed_area(start_va, end_va, permission);
                &&& final(allocator)@.free_count() == old(allocator)@.free_count() - frames_needed(
                    missing_in(old(mem), old(self).root()),
                    area,
                    area.len(),
                )
                &&& forall|w: u64|
                    w < 0x800_0000 ==> #[trigger] missing_nodes(final(mem), final(self).root(), w)
                        == missing_after_area(
                        missing_nodes(old(mem), old(self).root(), w),
                        area,
                        w,
                    )
            },
            match r {
                Ok(_) => {
                    &&& framed_area(start_va, end_va, permission).wf()
                    &&& final(self).area_added(
                        old(self),
                        framed_area(start_va, end_va, permission),
                        None,
                        old(mem),
                        final(mem),
                    )
                },
                Err(e) => {
                    &&& final(self).areas() == old(self).areas()
                    &&& final(self).data() == old(self).data()
                    &&& forall|v: u64|
                        #[trigger] translation(final(mem), final(self).root(), v) == translation(
                            old(mem),
                            old(self).root(),
                            v,
                        )
                },
            },
    {
        let area = MapArea::new(start_va, end_va, MapType::Framed, permission);
        if area.start.0 > area.end.0 || area.end.0 > 0x800_0000 {
            proof {
                self.lemma_wf(mem);
                self.lemma_grown_from_itself(allocator@, mem);
            }
            return Err(MapError::InvalidRange);
        }
        self.push(allocator, mem, area, None)
    }

    /// A space has grown from itself.
    pub proof fn lemma_grown_from_itself(&self, a: FrameAllocatorModel, mem: &PhysMemory)
        requires
            self.frames_allocated(a),
        ensures
            self.grown_from(self, a, a, mem, mem),
    {
    }

    /// Gives all the frames that the space owns back to the allocator.
    pub fn release(self, allocator: &mut StackFrameAllocator, mem: &PhysMemory)
        requires
            self.wf(mem),
            old(allocator)@.wf(),
            self.frames_allocated(old(allocator)@),
        ensures
            final(allocator)@.wf(),
            final(allocator)@.free_count() == old(allocator)@.free_count() + self.nodes().len()
                + self.data().len(),
            forall|p: u64|
                #[trigger] final(allocator)@.is_allocated(p) <==> old(allocator)@.is_allocated(p)
                    && !self.owns(p),
            forall|p: u64|
                #[trigger] final(allocator)@.is_free(p) <==> old(allocator)@.is_free(p)
                    || self.owns(p),
    {
        proof {
            self.lemma_wf(mem);
            assert forall|k: int| 0 <= k < self.frames@.len() implies old(allocator)@.is_allocated(
                #[trigger] crate::mm::frame_allocator::tracked_frames(self.frames@)[k],
            ) by {
                assert(self.data().contains(self.data()[k]));
                assert(self.owns(self.data()[k]));
            }
            assert forall|k: int| 0 <= k < self.nodes().len() implies old(allocator)@.is_allocated(
                #[trigger] self.nodes()[k],
            ) by {
                assert(self.nodes().contains(self.nodes()[k]));
                assert(self.owns(self.nodes()[k]));
            }
        }
        let ghost a0 = allocator@;
        crate::mm::frame_allocator::release_frames(self.frames, allocator);
        proof {
            assert forall|k: int| 0 <= k < self.nodes().len() implies allocator@.is_allocated(
                #[trigger] self.nodes()[k],
            ) by {
                assert(self.nodes().contains(self.nodes()[k]));
                assert(a0.is_allocated(self.nodes()[k]));
            }
        }
        self.page_table.release(allocator);
    }

    /// The space was built between the allocator states `a0` and `a1` and
    /// the memories `m0` and `m1`: all that it owns was free in `a0`; the
    /// frames in use in `a1` are those in use in `a0` and those that the
    /// space owns; every frame that was in use has kept its bytes.
    pub open spec fn built_from(
        &self,
        a0: FrameAllocatorModel,
        a1: FrameAllocatorModel,
        m0: &PhysMemory,
        m1: &PhysMemory,
    ) -> bool {
        &&& forall|p: u64| #[trigger] a1.is_allocated(p) <==> a0.is_allocated(p) || self.owns(p)
        &&& forall|p: u64| #[trigger] self.owns(p) ==> a0.is_free(p) && !a0.is_allocated(p)
        &&& forall|p: u64| #[trigger] a1.is_free(p) ==> a0.is_free(p)
        &&& m1.base() == m0.base()
        &&& m1.frame_count() == m0.frame_count()
        &&& forall|p: u64| a0.is_allocated(p) ==> #[trigger] m1.frame(p) == m0.frame(p)
    }

    /// A space that was built, and then has grown, was built.
    pub proof fn lemma_built_step(
        &self,
        middle: &MemorySet,
        a0: FrameAllocatorModel,
        a1: FrameAllocatorModel,
        a2: FrameAllocatorModel,
        m0: &PhysMemory,
        m1: &PhysMemory,
        m2: &PhysMemory,
    )
        requires
            middle.built_from(a0, a1, m0, m1),
            self.grown_from(middle, a1, a2, m1, m2),
        ensures
            self.built_from(a0, a2, m0, m2),
    {
        assert forall|p: u64| middle.owns(p) implies self.owns(p) by {
            if middle.nodes().contains(p) {
                assert(self.nodes().contains(p));
            } else {
                assert(self.data().contains(p));
            }
        }
        assert forall|p: u64| #[trigger]
            a2.is_allocated(p) <==> a0.is_allocated(p) || self.owns(p) by {
            assert(a1.is_allocated(p) <==> a0.is_allocated(p) || middle.owns(p));
        }
        assert forall|p: u64| #[trigger] self.owns(p) implies a0.is_free(p) && !a0.is_allocated(
            p,
        ) by {
            if !middle.owns(p) {
                assert(a1.is_free(p));
                assert(a1.is_allocated(p) <==> a0.is_allocated(p) || middle.owns(p));
            }
        }
        assert forall|p: u64| #[trigger] a2.is_free(p) implies a0.is_free(p) by {
            assert(a1.is_free(p));
        }
        assert forall|p: u64| a0.is_allocated(p) implies #[trigger] m2.frame(p) == m0.frame(p) by {
            assert(a1.is_allocated(p) <==> a0.is_allocated(p) || middle.owns(p));
            if middle.nodes().contains(p) {
                assert(middle.owns(p));
            }
            assert(m2.frame(p) == m1.frame(p));
        }
    }

    /// The pages of the segment are mapped, and hold the bytes of the
    /// segment from the start of its first page on, and zero bytes after
    /// them.
    pub open spec fn segment_loaded(&self, mem: &PhysMemory, segment: Segment) -> bool {
        forall|i: int|
            0 <= i < segment.area().len() ==> {
                &&& (#[trigger] translation(
                    mem,
                    self.root(),
                    (segment.area().start.0 + i) as u64,
                )) matches Some(e)
                &&& mem.frame(e.ppn().0) == expected_page(Some(segment.data@), i)
            }
    }

    /// A segment that was loaded stays loaded when another area is added.
    pub proof fn lemma_loaded_kept(
        &self,
        before: &MemorySet,
        a0: FrameAllocatorModel,
        a1: FrameAllocatorModel,
        m0: &PhysMemory,
        m1: &PhysMemory,
        area: MapArea,
        j: int,
        segment: Segment,
    )
        requires
            before.wf(m0),
            before.frames_allocated(a0),
            self.grown_from(before, a0, a1, m0, m1),
            forall|v: u64|
                area.contains_vpn(v) ==> (#[trigger] translation(m0, before.root(), v)) is None,
            forall|v: u64|
                !area.contains_vpn(vpn_bits(v)) ==> #[trigger] translation(m1, self.root(), v)
                    == translation(m0, before.root(), v),
            0 <= j < before.areas().len(),
            before.areas()[j] == segment.area(),
            before.segment_loaded(m0, segment),
        ensures
            self.segment_loaded(m1, segment),
    {
        before.lemma_wf(m0);
        assert forall|i: int| 0 <= i < segment.area().len() implies ({
            &&& (#[trigger] translation(m1, self.root(), (segment.area().start.0 + i) as u64))
                matches Some(e)
            &&& m1.frame(e.ppn().0) == expected_page(Some(segment.data@), i)
        }) by {
            let v = (segment.area().start.0 + i) as u64;
            assert(before.areas()[j].wf());
            assert(before.areas()[j].contains_vpn(v));
            lemma_same_page_small(v, v);
            let e = translation(m0, before.root(), v)->0;
            assert(translation(m0, before.root(), v) is Some);
            assert(!area.contains_vpn(v));
            assert(before.areas()[j].framed());
            assert(before.data().contains(e.ppn().0));
            assert(before.owns(e.ppn().0));
            assert(a0.is_allocated(e.ppn().0));
            assert(m1.frame(e.ppn().0) == m0.frame(e.ppn().0));
        }
    }

    /// A page that no area holds, and that is not the trampoline page, is
    /// not mapped.
    pub proof fn lemma_unmapped(&self, mem: &PhysMemory, v: u64)
        requires
            self.wf(mem),
            v < 0x800_0000,
            v != TRAMPOLINE_VPN,
            forall|a: int| 0 <= a < self.areas().len() ==> !(#[trigger] self.areas()[a]).contains_vpn(v),
        ensures
            translation(mem, self.root(), v) is None,
    {
        self.lemma_wf(mem);
        lemma_same_page_small(v, v);
        if translation(mem, self.root(), v) is Some {
            assert(covered(self.areas(), self.trampoline(), vpn_bits(v)));
        }
    }

    /// How making a space ends, taken over one more area: the space maps
    /// the trampoline page and the first `j` of the areas, and adding the
    /// `j`-th has ended with `r`.
    pub proof fn lemma_outcome_step(
        &self,
        mem: &PhysMemory,
        areas: Seq<MapArea>,
        ok: spec_fn(int) -> bool,
        j: int,
        free: int,
        free_now: int,
        r: Option<MapError>,
    )
        requires
            self.wf(mem),
            self.trampoline() is Some,
            0 <= j < areas.len(),
            self.areas() == areas.take(j),
            areas[j].wf(),
            ok(j),
            free_now == free - space_frames(areas, j),
            forall|w: u64|
                w < 0x800_0000 ==> #[trigger] missing_nodes(mem, self.root(), w)
                    == missing_in_space(areas, j, w),
            r == area_outcome(
                missing_in(mem, self.root()),
                taken_in(mem, self.root(), areas[j]),
                areas[j],
                free_now,
            ),
        ensures
            space_outcome_from(areas, ok, j, free) == match r {
                Some(e) => Some(e),
                None => space_outcome_from(areas, ok, j + 1, free),
            },
    {
        self.lemma_wf(mem);
        let area = areas[j];
        let m1 = missing_in(mem, self.root());
        let m2 = |w: u64| missing_in_space(areas, j, w);
        let t1 = taken_in(mem, self.root(), area);
        let t2 = taken_in_space(areas, j);
        assert forall|w: u64| w < 0x800_0000 implies #[trigger] m1(w) == m2(w) by {
            assert(missing_nodes(mem, self.root(), w) == missing_in_space(areas, j, w));
        }
        assert forall|i: int| 0 <= i < area.len() implies #[trigger] t1(i) == t2(i) by {
            let v = (area.start.0 + i) as u64;
            lemma_same_page_small(v, v);
            if translation(mem, self.root(), v) is Some {
                assert(covered(self.areas(), self.trampoline(), vpn_bits(v)));
                if exists|a: int|
                    0 <= a < self.areas().len() && (#[trigger] self.areas()[a]).contains_vpn(v) {
                    let a = choose|a: int|
                        0 <= a < self.areas().len() && (#[trigger] self.areas()[a]).contains_vpn(
                            v,
                        );
                    assert(areas[a].contains_vpn(v));
                }
                assert(covered_before(areas, j, v));
            }
            if covered_before(areas, j, v) {
                if exists|a: int| 0 <= a < j && (#[trigger] areas[a]).contains_vpn(v) {
                    let a = choose|a: int| 0 <= a < j && (#[trigger] areas[a]).contains_vpn(v);
                    assert(self.areas()[a].contains_vpn(v));
                    assert(translation(mem, self.root(), v) is Some);
                }
            }
        }
        lemma_area_outcome_same(m1, m2, t1, t2, area, free_now);
    }

    /// What building a space has left behind where it failed: the frames
    /// in use are those that were in use, and they have kept their bytes.
    pub open spec fn nothing_built(
        a0: FrameAllocatorModel,
        a1: FrameAllocatorModel,
        m0: &PhysMemory,
        m1: &PhysMemory,
    ) -> bool {
        &&& forall|p: u64| #[trigger] a1.is_allocated(p) <==> a0.is_allocated(p)
        &&& forall|p: u64| #[trigger] a1.is_free(p) ==> a0.is_free(p)
        &&& m1.base() == m0.base()
        &&& m1.frame_count() == m0.frame_count()
        &&& forall|p: u64| a0.is_allocated(p) ==> #[trigger] m1.frame(p) == m0.frame(p)
    }

    /// Gives up a space that was being built.
    fn abandon(self, allocator: &mut StackFrameAllocator, mem: &PhysMemory, Ghost(a0): Ghost<
        FrameAllocatorModel,
    >, Ghost(m0): Ghost<&PhysMemory>)
        requires
            self.wf(mem),
            old(allocator)@.wf(),
            old(allocator)@.covered_by(mem),
            self.frames_allocated(old(allocator)@),
            self.built_from(a0, old(allocator)@, m0, mem),
        ensures
            final(allocator)@.wf(),
            final(allocator)@.covered_by(mem),
            Self::nothing_built(a0, final(allocator)@, m0, mem),
    {
        proof {
            self.lemma_wf(mem);
        }
        let ghost a1 = allocator@;
        self.release(allocator, mem);
        proof {
            assert forall|p: u64| #[trigger] allocator@.is_allocated(p) <==> a0.is_allocated(p) by {
                assert(a1.is_allocated(p) <==> a0.is_allocated(p) || self.owns(p));
            }
            assert forall|p: u64| #[trigger] allocator@.is_free(p) implies a0.is_free(p) by {
                if !self.owns(p) {
                    assert(a1.is_free(p));
                }
            }
            assert forall|p: u64| #[trigger] allocator@.is_free(p) implies mem.contains(p) by {
                if !self.owns(p) {
                    assert(a1.is_free(p));
                }
            }
        }
    }

    /// The address space of the kernel: the trampoline page, and the kernel
    /// image and the physical memory after it, mapped identically with the
    /// permissions of each section.
    ///
    /// Refused where the layout is not valid; fails where the frames run
    /// out, which they do exactly where there are fewer than `frames()` of
    /// them. Whatever was allocated is then given back.
    #[verifier::rlimit(100)]
    pub fn new_kernel(
        allocator: &mut StackFrameAllocator,
        mem: &mut PhysMemory,
        layout: &KernelLayout,
        trampoline: PhysPageNum,
    ) -> (r: Result<MemorySet, MapError>)
        requires
            old(allocator)@.wf(),
            old(allocator)@.covered_by(old(mem)),
            old(mem).wf(),
            trampoline.0 < 0x1000_0000_0000,
        ensures
            final(allocator)@.wf(),
            final(allocator)@.covered_by(final(mem)),
            final(mem).wf(),
            r is Ok <==> layout.valid() && layout.frames() <= old(allocator)@.free_count(),
            error_of(r) == layout.outcome(old(allocator)@.free_count() as int),
            match r {
                Ok(space) => {
                    &&& layout.valid()
                    &&& final(allocator)@.free_count() == old(allocator)@.free_count()
                        - layout.frames()
                    &&& space.wf(final(mem))
                    &&& space.frames_allocated(final(allocator)@)
                    &&& space.built_from(old(allocator)@, final(allocator)@, old(mem), final(mem))
                    &&& space.trampoline() == Some(trampoline)
                    &&& space.areas() == layout.areas()
                    &&& space.data() == Seq::<u64>::empty()
                },
                Err(e) => {
                    &&& Self::nothing_built(
                        old(allocator)@,
                        final(allocator)@,
                        old(mem),
                        final(mem),
                    )
                    &&& (e == MapError::InvalidRange || e == MapError::AlreadyMapped)
                        ==> !layout.valid()
                },
            },
    {
        let ghost a0 = allocator@;
        let ghost areas = layout.areas();
        proof {
            lemma_allocate(a0);
            lemma_space_frames(areas, 0, 5);
        }
        let mut space = match MemorySet::new_bare(allocator, mem) {
            Some(space) => space,
            None => {
                return Err(MapError::OutOfFrames);
            },
        };
        proof {
            let root = space.root();
            assert(space.nodes()[0] == root);
            assert forall|p: u64| space.owns(p) <==> p == root by {
                if space.owns(p) {
                    let k = choose|k: int| 0 <= k < space.nodes().len() && space.nodes()[k] == p;
                }
            }
            assert(space.built_from(a0, allocator@, old(mem), mem));
        }
        let ghost bare = space;
        let ghost a_bare = allocator@;
        let ghost m_bare = *mem;
        let ghost root = space.root();
        proof {
            assert(missing_nodes(&m_bare, root, TRAMPOLINE_VPN) == 2);
            assert(translation(&m_bare, root, TRAMPOLINE_VPN) is None);
        }
        let mapped = space.map_trampoline(allocator, mem, trampoline);
        proof {
            space.lemma_built_step(&bare, a0, a_bare, allocator@, old(mem), &m_bare, mem);
            if mapped is Ok {
                assert forall|w: u64| w < 0x800_0000 implies #[trigger] missing_nodes(mem, root, w)
                    == missing_in_space(areas, 0, w) by {
                    assert(missing_nodes(&m_bare, root, w) == 2);
                }
            }
        }
        match mapped {
            Ok(_) => {},
            Err(e) => {
                space.abandon(allocator, mem, Ghost(a0), Ghost(old(mem)));
                return Err(e);
            },
        }
        let sections: [(u64, u64, u8); 5] = [
            (layout.stext, layout.etext, MapPermission::R | MapPermission::X),
            (layout.srodata, layout.erodata, MapPermission::R),
            (layout.sdata, layout.edata, MapPermission::R | MapPermission::W),
            (layout.sbss, layout.ebss, MapPermission::R | MapPermission::W),
            (layout.ekernel, layout.memory_end, MapPermission::R | MapPermission::W),
        ];
        let mut i: usize = 0;
        while i < 5
            invariant
                i <= 5,
                areas == layout.areas(),
                a0 == old(allocator)@,
                forall|j: int|
                    0 <= j < 5 ==> areas[j] == identical_area(
                        (#[trigger] sections@[j]).0,
                        sections@[j].1,
                        sections@[j].2,
                    ),
                space.wf(mem),
                allocator@.wf(),
                allocator@.covered_by(mem),
                mem.wf(),
                space.frames_allocated(allocator@),
                space.built_from(a0, allocator@, old(mem), mem),
                space.trampoline() == Some(trampoline),
                space.data() == Seq::<u64>::empty(),
                space.areas().len() == i,
                forall|j: int| 0 <= j < i ==> space.areas()[j] == areas[j],
                space.root() == root,
                a0.free_count() >= 3,
                layout.outcome(a0.free_count() as int) == space_outcome_from(
                    areas,
                    layout.passes(),
                    i as int,
                    a0.free_count() as int,
                ),
                allocator@.free_count() == a0.free_count() - space_frames(areas, i as int),
                forall|w: u64|
                    w < 0x800_0000 ==> #[trigger] missing_nodes(mem, root, w) == missing_in_space(
                        areas,
                        i as int,
                        w,
                    ),
            decreases 5 - i,
        {
            let (start, end, bits) = sections[i];
            let area = MapArea::new(
                VirtAddr(start),
                VirtAddr(end),
                MapType::Identical,
                MapPermission::from_bits_truncate(bits),
            );
            assert(area == areas[i as int]);
            if area.start.0 > area.end.0 || area.end.0 > 0x800_0000 {
                proof {
                    assert(!layout.passes()(i as int));
                }
                space.abandon(allocator, mem, Ghost(a0), Ghost(old(mem)));
                return Err(MapError::InvalidRange);
            }
            let ghost prev = space;
            let ghost a_prev = allocator@;
            let ghost m_prev = *mem;
            proof {
                lemma_space_step(areas, i as int, &m_prev, &m_prev, root);
                lemma_space_frames(areas, i + 1, 5);
                if layout.valid() {
                    assert forall|v: u64| area.contains_vpn(v) implies (#[trigger] translation(
                        &m_prev,
                        prev.root(),
                        v,
                    )) is None by {
                        assert forall|a: int| 0 <= a < prev.areas().len() implies !(
                        #[trigger] prev.areas()[a]).contains_vpn(v) by {
                            assert(areas[a].disjoint(areas[i as int]));
                        }
                        assert(!areas[i as int].contains_vpn(TRAMPOLINE_VPN));
                        prev.lemma_unmapped(&m_prev, v);
                    }
                    assert(unmapped_upto(&m_prev, root, area, area.len()));
                }
            }
            let pushed = space.push(allocator, mem, area, None);
            proof {
                space.lemma_built_step(&prev, a0, a_prev, allocator@, old(mem), &m_prev, mem);
                lemma_space_step(areas, i as int, &m_prev, mem, root);
                assert(prev.areas() =~= areas.take(i as int));
                assert(layout.passes()(i as int));
                prev.lemma_outcome_step(
                    &m_prev,
                    areas,
                    layout.passes(),
                    i as int,
                    a0.free_count() as int,
                    a_prev.free_count() as int,
                    error_of(pushed),
                );
            }
            match pushed {
                Ok(_) => {
                    proof {
                        assert forall|j: int| 0 <= j < i + 1 implies space.areas()[j] == areas[j] by {}
                    }
                },
                Err(e) => {
                    space.abandon(allocator, mem, Ghost(a0), Ghost(old(mem)));
                    return Err(e);
                },
            }
            i += 1;
        }
        proof {
            assert(space.areas() =~= layout.areas());
            space.lemma_wf(mem);
            assert(layout.valid()) by {
                assert forall|j: int| 0 <= j < 5 implies (#[trigger] layout.areas()[j]).wf() by {
                    assert(space.areas()[j].wf());
                }
                assert forall|j: int| 0 <= j < 5 implies !(#[trigger] layout.areas()[j]).contains_vpn(
                    TRAMPOLINE_VPN,
                ) by {
                    assert(!space.areas()[j].contains_vpn(TRAMPOLINE_VPN));
                }
                assert forall|j: int, k: int| 0 <= j < k < 5 implies (
                #[trigger] layout.areas()[j]).disjoint(#[trigger] layout.areas()[k]) by {
                    assert(space.areas()[j].disjoint(space.areas()[k]));
                }
            }
        }
        Ok(space)
    }

    /// The space of an application image: the trampoline page; one framed
    /// area for each segment, which holds the bytes of the segment and user
    /// mode may access; after a guard page, the user stack; and the page of
    /// the trap context. With the space come the initial stack pointer and
    /// the entry address.
    ///
    /// Refused where the image is not valid; fails where the frames run
    /// out, which they do exactly where there are fewer than `frames()` of
    /// them. Whatever was allocated is then given back.
    #[verifier::rlimit(100)]
    pub fn from_elf(
        allocator: &mut StackFrameAllocator,
        mem: &mut PhysMemory,
        image: &ElfImage,
        trampoline: PhysPageNum,
    ) -> (r: Result<(MemorySet, u64, u64), MapError>)
        requires
            old(allocator)@.wf(),
            old(allocator)@.covered_by(old(mem)),
            old(mem).wf(),
            trampoline.0 < 0x1000_0000_0000,
            !old(allocator)@.is_free(trampoline.0),
        ensures
            final(allocator)@.wf(),
            final(allocator)@.covered_by(final(mem)),
            final(mem).wf(),
            r is Ok <==> image.valid() && image.frames() <= old(allocator)@.free_count(),
            error_of(r) == image.outcome(old(allocator)@.free_count() as int),
            match r {
                Ok((space, user_sp, entry)) => {
                    &&& image.valid()
                    &&& final(allocator)@.free_count() == old(allocator)@.free_count()
                        - image.frames()
                    &&& space.wf(final(mem))
                    &&& space.frames_allocated(final(allocator)@)
                    &&& space.built_from(old(allocator)@, final(allocator)@, old(mem), final(mem))
                    &&& space.trampoline() == Some(trampoline)
                    &&& !space.owns(trampoline.0)
                    &&& space.is_user_space()
                    &&& space.areas() == image.areas()
                    &&& forall|j: int|
                        0 <= j < image.segments@.len() ==> space.segment_loaded(
                            final(mem),
                            #[trigger] image.segments@[j],
                        )
                    &&& translation(final(mem), space.root(), TRAP_CONTEXT_VPN) matches Some(e)
                        && space.data().contains(e.ppn().0) && e.flags() == trap_context_area().flags()
                        && final(mem).frame(e.ppn().0) == zero_frame()
                    &&& user_sp == (max_end_vpn(image.segments@, image.segments@.len() as int) + 3)
                        * 4096
                    &&& entry == image.entry
                },
                Err(e) => {
                    &&& Self::nothing_built(
                        old(allocator)@,
                        final(allocator)@,
                        old(mem),
                        final(mem),
                    )
                    &&& (e == MapError::InvalidRange || e == MapError::AlreadyMapped)
                        ==> !image.valid()
                },
            },
    {
        let ghost a0 = allocator@;
        let ghost segments = image.segments@;
        let ghost areas = image.areas();
        let n: usize = image.segments.len();
        proof {
            lemma_allocate(a0);
            lemma_space_frames(areas, 0, n + 2);
        }
        let mut space = match MemorySet::new_bare(allocator, mem) {
            Some(space) => space,
            None => {
                proof {
                }
                return Err(MapError::OutOfFrames);
            },
        };
        proof {
            let root = space.root();
            assert(space.nodes()[0] == root);
            assert forall|p: u64| space.owns(p) <==> p == root by {
                if space.owns(p) {
                    let k = choose|k: int| 0 <= k < space.nodes().len() && space.nodes()[k] == p;
                }
            }
            assert(space.built_from(a0, allocator@, old(mem), mem));
        }
        let ghost bare = space;
        let ghost a_bare = allocator@;
        let ghost m_bare = *mem;
        let ghost root = space.root();
        proof {
            assert(missing_nodes(&m_bare, root, TRAMPOLINE_VPN) == 2);
            assert(translation(&m_bare, root, TRAMPOLINE_VPN) is None);
        }
        match space.map_trampoline(allocator, mem, trampoline) {
            Ok(_) => {},
            Err(e) => {
                proof {
                    space.lemma_built_step(&bare, a0, a_bare, allocator@, old(mem), &m_bare, mem);
                }
                space.abandon(allocator, mem, Ghost(a0), Ghost(old(mem)));
                return Err(e);
            },
        }
        proof {
            space.lemma_built_step(&bare, a0, a_bare, allocator@, old(mem), &m_bare, mem);
            assert forall|w: u64| w < 0x800_0000 implies #[trigger] missing_nodes(mem, root, w)
                == missing_in_space(areas, 0, w) by {
                assert(missing_nodes(&m_bare, root, w) == 2);
            }
        }
        let mut max_end: u64 = 0;
        let mut s: usize = 0;
        while s < n
            invariant
                s <= n,
                n == image.segments@.len(),
                segments == image.segments@,
                a0 == old(allocator)@,
                a0.wf(),
                !a0.is_free(trampoline.0),
                space.wf(mem),
                allocator@.wf(),
                allocator@.covered_by(mem),
                mem.wf(),
                space.frames_allocated(allocator@),
                space.built_from(a0, allocator@, old(mem), mem),
                space.trampoline() == Some(trampoline),
                space.areas().len() == s,
                forall|j: int| 0 <= j < s ==> space.areas()[j] == (#[trigger] segments[j]).area(),
                forall|j: int| 0 <= j < s ==> (#[trigger] segments[j]).valid(),
                forall|j: int| 0 <= j < s ==> space.segment_loaded(mem, #[trigger] segments[j]),
                max_end == max_end_vpn(segments, s as int),
                areas == image.areas(),
                space.root() == root,
                a0.free_count() >= 3,
                image.outcome(a0.free_count() as int) == space_outcome_from(
                    areas,
                    image.passes(),
                    s as int,
                    a0.free_count() as int,
                ),
                allocator@.free_count() == a0.free_count() - space_frames(areas, s as int),
                3 <= space_frames(areas, n + 2),
                forall|w: u64|
                    w < 0x800_0000 ==> #[trigger] missing_nodes(mem, root, w) == missing_in_space(
                        areas,
                        s as int,
                        w,
                    ),
            decreases n - s,
        {
            let segment = &image.segments[s];
            if segment.mem_size > USER_LIMIT || segment.start_va > USER_LIMIT - segment.mem_size
                || segment.start_va % 4096 != 0 || segment.data.len() as u64 > segment.mem_size {
                proof {
                    assert(!segments[s as int].valid());
                    assert(!image.passes()(s as int));
                }
                space.abandon(allocator, mem, Ghost(a0), Ghost(old(mem)));
                return Err(MapError::InvalidRange);
            }
            let area = MapArea::new(
                VirtAddr(segment.start_va),
                VirtAddr(segment.start_va + segment.mem_size),
                MapType::Framed,
                MapPermission::from_bits_truncate(segment.permission.bits | MapPermission::U),
            );
            assert(area == segments[s as int].area());
            let ghost prev = space;
            let ghost a_prev = allocator@;
            let ghost m_prev = *mem;
            proof {
                assert(areas[s as int] == area);
                lemma_space_step(areas, s as int, &m_prev, &m_prev, root);
                lemma_space_frames(areas, s + 1, n + 2);
                if image.valid() {
                    assert forall|v: u64| area.contains_vpn(v) implies (#[trigger] translation(
                        &m_prev,
                        prev.root(),
                        v,
                    )) is None by {
                        assert forall|a: int| 0 <= a < prev.areas().len() implies !(
                        #[trigger] prev.areas()[a]).contains_vpn(v) by {
                            assert(segments[a].area().disjoint(segments[s as int].area()));
                        }
                        prev.lemma_unmapped(&m_prev, v);
                    }
                    assert(unmapped_upto(&m_prev, root, area, area.len()));
                }
            }
            let pushed = space.push(allocator, mem, area, Some(segment.data.as_slice()));
            proof {
                space.lemma_built_step(&prev, a0, a_prev, allocator@, old(mem), &m_prev, mem);
                lemma_space_step(areas, s as int, &m_prev, mem, root);
                assert(prev.areas() =~= areas.take(s as int));
                assert(image.passes()(s as int));
                prev.lemma_outcome_step(
                    &m_prev,
                    areas,
                    image.passes(),
                    s as int,
                    a0.free_count() as int,
                    a_prev.free_count() as int,
                    error_of(pushed),
                );
            }
            match pushed {
                Ok(_) => {
                    proof {
                        assert forall|j: int| 0 <= j < s + 1 implies space.areas()[j] == (
                        #[trigger] segments[j]).area() by {}
                        assert forall|j: int| 0 <= j < s + 1 implies space.segment_loaded(
                            mem,
                            #[trigger] segments[j],
                        ) by {
                            if j < s {
                                space.lemma_loaded_kept(
                                    &prev,
                                    a_prev,
                                    allocator@,
                                    &m_prev,
                                    mem,
                                    area,
                                    j,
                                    segments[j],
                                );
                            }
                        }
                    }
                },
                Err(e) => {
                    space.abandon(allocator, mem, Ghost(a0), Ghost(old(mem)));
                    return Err(e);
                },
            }
            if area.end.0 > max_end {
                max_end = area.end.0;
            }
            s += 1;
        }
        proof {
            assert forall|j: int| 0 <= j < n implies (#[trigger] segments[j]).area().end.0
                <= 0x7ff_fffb by {
                assert(segments[j].valid());
            }
            lemma_max_end_bound(segments, n as int);
            space.lemma_wf(mem);
            assert(image.valid()) by {
                assert forall|i: int, j: int| 0 <= i < j < segments.len() implies (
                #[trigger] segments[i]).area().disjoint((#[trigger] segments[j]).area()) by {
                    assert(space.areas()[i].disjoint(space.areas()[j]));
                }
            }
        }
        let stack = MapArea {
            start: VirtPageNum(max_end + 1),
            end: VirtPageNum(max_end + 1 + USER_STACK_SIZE / PAGE_SIZE),
            map_type: MapType::Framed,
            map_perm: MapPermission::from_bits_truncate(
                (MapPermission::R | MapPermission::W) | MapPermission::U,
            ),
        };
        assert(stack == stack_area(max_end));
        let ghost prev = space;
        let ghost a_prev = allocator@;
        let ghost m_prev = *mem;
        proof {
            assert(areas[n as int] == stack);
            lemma_space_step(areas, n as int, &m_prev, &m_prev, root);
            lemma_space_frames(areas, n + 1, n + 2);
            assert forall|v: u64| stack.contains_vpn(v) implies (#[trigger] translation(
                &m_prev,
                prev.root(),
                v,
            )) is None by {
                assert forall|a: int| 0 <= a < prev.areas().len() implies !(
                #[trigger] prev.areas()[a]).contains_vpn(v) by {
                    lemma_segment_ends(segments, n as int, a);
                }
                prev.lemma_unmapped(&m_prev, v);
            }
            assert(unmapped_upto(&m_prev, root, stack, stack.len()));
        }
        let pushed = space.push(allocator, mem, stack, None);
        proof {
            space.lemma_built_step(&prev, a0, a_prev, allocator@, old(mem), &m_prev, mem);
            lemma_space_step(areas, n as int, &m_prev, mem, root);
            assert(prev.areas() =~= areas.take(n as int));
            assert(image.passes()(n as int));
            prev.lemma_outcome_step(
                &m_prev,
                areas,
                image.passes(),
                n as int,
                a0.free_count() as int,
                a_prev.free_count() as int,
                error_of(pushed),
            );
        }
        match pushed {
            Ok(_) => {
                proof {
                    assert forall|j: int| 0 <= j < n implies space.segment_loaded(
                        mem,
                        #[trigger] segments[j],
                    ) by {
                        space.lemma_loaded_kept(
                            &prev,
                            a_prev,
                            allocator@,
                            &m_prev,
                            mem,
                            stack,
                            j,
                            segments[j],
                        );
                    }
                }
            },
            Err(e) => {
                space.abandon(allocator, mem, Ghost(a0), Ghost(old(mem)));
                return Err(e);
            },
        }
        let trap = MapArea {
            start: VirtPageNum(TRAP_CONTEXT_VPN),
            end: VirtPageNum(TRAMPOLINE_VPN),
            map_type: MapType::Framed,
            map_perm: MapPermission::from_bits_truncate(MapPermission::R | MapPermission::W),
        };
        assert(trap == trap_context_area());
        let ghost prev2 = space;
        let ghost a_prev2 = allocator@;
        let ghost m_prev2 = *mem;
        proof {
            assert(areas[n + 1] == trap);
            lemma_space_step(areas, n + 1, &m_prev2, &m_prev2, root);
            assert forall|v: u64| trap.contains_vpn(v) implies (#[trigger] translation(
                &m_prev2,
                prev2.root(),
                v,
            )) is None by {
                assert forall|a: int| 0 <= a < prev2.areas().len() implies !(
                #[trigger] prev2.areas()[a]).contains_vpn(v) by {
                    if a < n {
                        assert(segments[a].valid());
                    }
                }
                prev2.lemma_unmapped(&m_prev2, v);
            }
            assert(unmapped_upto(&m_prev2, root, trap, trap.len()));
        }
        let pushed = space.push(allocator, mem, trap, None);
        proof {
            space.lemma_built_step(&prev2, a0, a_prev2, allocator@, old(mem), &m_prev2, mem);
            lemma_space_step(areas, n + 1, &m_prev2, mem, root);
            assert(prev2.areas() =~= areas.take(n + 1)) by {
                assert(prev2.areas().len() == n + 1);
                assert forall|j: int| 0 <= j < n + 1 implies prev2.areas()[j] == areas[j] by {}
            }
            assert(image.passes()(n + 1));
            prev2.lemma_outcome_step(
                &m_prev2,
                areas,
                image.passes(),
                n + 1,
                a0.free_count() as int,
                a_prev2.free_count() as int,
                error_of(pushed),
            );
            assert(space_outcome_from(areas, image.passes(), n + 2, a0.free_count() as int)
                is None);
        }
        match pushed {
            Ok(_) => {
                proof {
                    assert forall|j: int| 0 <= j < n implies space.segment_loaded(
                        mem,
                        #[trigger] segments[j],
                    ) by {
                        space.lemma_loaded_kept(
                            &prev2,
                            a_prev2,
                            allocator@,
                            &m_prev2,
                            mem,
                            trap,
                            j,
                            segments[j],
                        );
                    }
                    assert(space.areas() =~= image.areas());
                    space.lemma_wf(mem);
                    assert(space.areas()[n + 1].contains_vpn(TRAP_CONTEXT_VPN));
                    let e = translation(mem, space.root(), TRAP_CONTEXT_VPN)->0;
                    assert(translation(mem, space.root(), (trap.start.0 + 0) as u64) is Some);
                    assert(mem.frame(e.ppn().0) == expected_page(None, 0));
                }
            },
            Err(e) => {
                space.abandon(allocator, mem, Ghost(a0), Ghost(old(mem)));
                return Err(e);
            },
        }
        Ok((space, (max_end + 1) * PAGE_SIZE + USER_STACK_SIZE, image.entry))
    }
}

} // verus!
