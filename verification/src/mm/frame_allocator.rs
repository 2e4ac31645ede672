//! The allocator of physical page frames: a watermark over a range of page
//! numbers, and a stack of frames that were given back.
use vstd::prelude::*;
use crate::mm::address::{PhysAddr, PhysPageNum};
use crate::mm::memory::{PhysMemory, zero_frame};

verus! {

/// What a frame allocator is, as a mathematical value.
pub struct FrameAllocatorModel {
    /// The watermark: the next page number that was never handed out.
    pub current: u64,
    /// The end of the managed range (exclusive).
    pub end: u64,
    /// The frames that were given back, the most recent one last.
    pub recycled: Seq<u64>,
}

impl FrameAllocatorModel {
    /// The watermark lies inside the range, which lies inside the 44-bit page
    /// number space; the recycled frames are below the watermark and pairwise
    /// distinct.
    pub open spec fn wf(self) -> bool {
        &&& self.current <= self.end
        &&& self.end <= 0x1000_0000_0000
        &&& self.recycled.no_duplicates()
        &&& forall|i: int| 0 <= i < self.recycled.len() ==> #[trigger] self.recycled[i] < self.current
    }

    /// The frame is in use: below the watermark and not given back.
    pub open spec fn is_allocated(self, ppn: u64) -> bool {
        ppn < self.current && !self.recycled.contains(ppn)
    }

    /// The frame can be handed out by a later allocation.
    pub open spec fn is_free(self, ppn: u64) -> bool {
        self.recycled.contains(ppn) || self.current <= ppn < self.end
    }

    /// The number of frames that can still be handed out.
    pub open spec fn free_count(self) -> nat {
        (self.recycled.len() + (self.end - self.current)) as nat
    }

    /// Every frame that can still be handed out is a frame of `mem`.
    pub open spec fn covered_by(self, mem: &PhysMemory) -> bool {
        forall|p: u64| #[trigger] self.is_free(p) ==> mem.contains(p)
    }

    /// The allocator after one allocation, and the frame it hands out: the
    /// frame given back last if there is one, else the watermark, which then
    /// moves up; nothing if the range is used up as well.
    pub open spec fn allocate(self) -> (Self, Option<u64>) {
        if self.recycled.len() > 0 {
            (
                FrameAllocatorModel { recycled: self.recycled.drop_last(), ..self },
                Some(self.recycled.last()),
            )
        } else if self.current == self.end {
            (self, None)
        } else {
            (FrameAllocatorModel { current: (self.current + 1) as u64, ..self }, Some(self.current))
        }
    }

    /// The allocator after `ppn` was given back, or nothing where giving it
    /// back is refused because the frame is not in use.
    pub open spec fn dealloc(self, ppn: u64) -> Option<Self> {
        if self.is_allocated(ppn) {
            Some(FrameAllocatorModel { recycled: self.recycled.push(ppn), ..self })
        } else {
            None
        }
    }
}

/// The allocator of physical frames.
pub struct StackFrameAllocator {
    current: u64,
    end: u64,
    recycled: Vec<u64>,
}

impl View for StackFrameAllocator {
    type V = FrameAllocatorModel;

    closed spec fn view(&self) -> FrameAllocatorModel {
        FrameAllocatorModel { current: self.current, end: self.end, recycled: self.recycled@ }
    }
}

impl StackFrameAllocator {
    /// An allocator that manages no frame yet.
    pub fn new() -> (r: Self)
        ensures
            r@ == (FrameAllocatorModel { current: 0, end: 0, recycled: Seq::empty() }),
            r@.wf(),
    {
        StackFrameAllocator { current: 0, end: 0, recycled: Vec::new() }
    }

    /// Hands out a frame, or nothing when none is left.
    pub fn allocate(&mut self) -> (r: Option<PhysPageNum>)
        requires
            old(self)@.wf(),
        ensures
            final(self)@ == old(self)@.allocate().0,
            r == match old(self)@.allocate().1 {
                Some(ppn) => Some(PhysPageNum(ppn)),
                None => None,
            },
            final(self)@.wf(),
            r matches Some(ppn) ==> !old(self)@.is_allocated(ppn.0) && old(self)@.is_free(ppn.0),
    {
        proof {
            lemma_allocate(self@);
        }
        if let Some(ppn) = self.recycled.pop() {
            assert(ppn & 0xfff_ffff_ffff == ppn) by (bit_vector)
                requires
                    ppn < 0x1000_0000_0000,
            ;
            Some(ppn.into())
        } else {
            if self.current == self.end {
                None
            } else {
                self.current += 1;
                let ppn: u64 = self.current - 1;
                assert(ppn & 0xfff_ffff_ffff == ppn) by (bit_vector)
                    requires
                        ppn < 0x1000_0000_0000,
                ;
                Some(ppn.into())
            }
        }
    }

    /// Whether the frame is in use: below the watermark, and not given
    /// back. Only such a frame may be given back.
    pub fn is_allocated(&self, ppn: PhysPageNum) -> (r: bool)
        ensures
            r == self@.is_allocated(ppn.0),
    {
        let ppn_value: u64 = ppn.0;
        if ppn_value >= self.current {
            return false;
        }
        let mut i: usize = 0;
        while i < self.recycled.len()
            invariant
                i <= self.recycled.len(),
                ppn_value == ppn.0,
                ppn_value < self.current,
                forall|j: int| 0 <= j < i ==> self.recycled@[j] != ppn_value,
            decreases self.recycled.len() - i,
        {
            if self.recycled[i] == ppn_value {
                assert(self.recycled@.contains(ppn_value));
                return false;
            }
            i += 1;
        }
        true
    }

    /// Takes back a frame that is in use. A frame at or above the
    /// watermark, or one that was given back already, must not be given
    /// back: that is a fault of the caller, who can test with
    /// `is_allocated`.
    pub fn dealloc(&mut self, ppn: PhysPageNum)
        requires
            old(self)@.is_allocated(ppn.0),
        ensures
            old(self)@.dealloc(ppn.0) == Some(final(self)@),
            old(self)@.wf() ==> final(self)@.wf(),
    {
        proof {
            if self@.wf() {
                lemma_dealloc(self@, ppn.0);
            }
        }
        self.recycled.push(ppn.0);
    }

    /// Makes the allocator manage the page numbers from `l` up to `r`.
    pub fn init(&mut self, l: PhysPageNum, r: PhysPageNum)
        ensures
            final(self)@ == (FrameAllocatorModel {
                current: l.0,
                end: r.0,
                recycled: old(self)@.recycled,
            }),
    {
        self.current = l.0;
        self.end = r.0;
    }
}

/// Sets up `allocator` for the memory between the end of the kernel image and
/// the end of physical memory: the frames that lie wholly inside.
pub fn init_frame_allocator(allocator: &mut StackFrameAllocator, ekernel: u64, memory_end: u64)
    ensures
        final(allocator)@ == (FrameAllocatorModel {
            current: ((crate::mm::address::pa_bits(ekernel) + 4095) / 4096) as u64,
            end: crate::mm::address::pa_bits(memory_end) / 4096,
            recycled: old(allocator)@.recycled,
        }),
{
    allocator.init(PhysAddr::from(ekernel).ceil(), PhysAddr::from(memory_end).floor());
}

/// The handle of one allocated frame. The frame is zero-filled when the
/// handle is made, and goes back to the allocator through [`frame_dealloc`].
#[derive(Debug)]
pub struct FrameTracker {
    pub ppn: PhysPageNum,
}

impl FrameTracker {
    /// Takes charge of the frame `ppn` and fills it with zero bytes.
    pub fn new(ppn: PhysPageNum, mem: &mut PhysMemory) -> (r: Self)
        requires
            old(mem).wf(),
            old(mem).contains(ppn.0),
        ensures
            r.ppn == ppn,
            final(mem).wf(),
            final(mem).agrees_except(old(mem), ppn.0),
            final(mem).frame(ppn.0) == zero_frame(),
    {
        mem.clear_frame(ppn);
        FrameTracker { ppn }
    }
}

/// Allocates a frame of `mem` and zero-fills it; nothing when no frame is left.
pub fn frame_alloc(allocator: &mut StackFrameAllocator, mem: &mut PhysMemory) -> (r: Option<
    FrameTracker,
>)
    requires
        old(allocator)@.wf(),
        old(allocator)@.covered_by(old(mem)),
        old(mem).wf(),
    ensures
        final(allocator)@ == old(allocator)@.allocate().0,
        final(allocator)@.wf(),
        final(allocator)@.covered_by(final(mem)),
        final(mem).wf(),
        match old(allocator)@.allocate().1 {
            Some(ppn) => {
                &&& r == Some(FrameTracker { ppn: PhysPageNum(ppn) })
                &&& final(mem).agrees_except(old(mem), ppn)
                &&& final(mem).frame(ppn) == zero_frame()
                &&& final(mem).contains(ppn)
            },
            None => r is None && *final(mem) == *old(mem),
        },
{
    proof {
        lemma_allocate(allocator@);
    }
    match allocator.allocate() {
        Some(ppn) => {
            assert(old(allocator)@.is_free(ppn.0));
            let tracker = FrameTracker::new(ppn, mem);
            assert forall|p: u64| #[trigger] allocator@.is_free(p) implies mem.contains(p) by {
                assert(old(allocator)@.is_free(p));
            }
            Some(tracker)
        },
        None => None,
    }
}

/// Gives the frame `ppn`, which is in use, back to `allocator`.
pub fn frame_dealloc(allocator: &mut StackFrameAllocator, ppn: PhysPageNum)
    requires
        old(allocator)@.is_allocated(ppn.0),
    ensures
        old(allocator)@.dealloc(ppn.0) == Some(final(allocator)@),
        old(allocator)@.wf() ==> final(allocator)@.wf(),
{
    allocator.dealloc(ppn);
}

/// The page numbers of the frames that the handles stand for.
pub open spec fn tracked_frames(frames: Seq<FrameTracker>) -> Seq<u64> {
    frames.map_values(|f: FrameTracker| f.ppn.0)
}

/// Gives all the frames of `frames` back to `allocator`.
pub fn release_frames(frames: Vec<FrameTracker>, allocator: &mut StackFrameAllocator)
    requires
        old(allocator)@.wf(),
        tracked_frames(frames@).no_duplicates(),
        forall|k: int|
            0 <= k < frames@.len() ==> old(allocator)@.is_allocated(
                #[trigger] tracked_frames(frames@)[k],
            ),
    ensures
        final(allocator)@.wf(),
        final(allocator)@.free_count() == old(allocator)@.free_count() + frames@.len(),
        forall|p: u64|
            #[trigger] final(allocator)@.is_allocated(p) <==> old(allocator)@.is_allocated(p)
                && !tracked_frames(frames@).contains(p),
        forall|p: u64|
            #[trigger] final(allocator)@.is_free(p) <==> old(allocator)@.is_free(p)
                || tracked_frames(frames@).contains(p),
{
    let ghost all = tracked_frames(frames@);
    let mut frames = frames;
    proof {
        assert(all.subrange(0, all.len() as int) =~= all);
    }
    while frames.len() > 0
        invariant
            allocator@.wf(),
            all.no_duplicates(),
            frames@.len() <= all.len(),
            tracked_frames(frames@) == all.subrange(0, frames@.len() as int),
            allocator@.free_count() == old(allocator)@.free_count() + all.len() - frames@.len(),
            forall|p: u64|
                #[trigger] allocator@.is_allocated(p) <==> old(allocator)@.is_allocated(p)
                    && !all.subrange(frames@.len() as int, all.len() as int).contains(p),
            forall|p: u64|
                #[trigger] allocator@.is_free(p) <==> old(allocator)@.is_free(p) || all.subrange(
                    frames@.len() as int,
                    all.len() as int,
                ).contains(p),
            forall|k: int| 0 <= k < all.len() ==> old(allocator)@.is_allocated(#[trigger] all[k]),
        decreases frames@.len(),
    {
        let ghost n = frames@.len() as int;
        let ghost before = allocator@;
        let ghost rest = all.subrange(n, all.len() as int);
        let ghost held = frames@;
        let frame = frames.pop().unwrap();
        proof {
            let p = frame.ppn.0;
            assert(tracked_frames(frames@) =~= all.subrange(0, n - 1));
            assert(tracked_frames(held)[n - 1] == p);
            assert(all.subrange(0, n)[n - 1] == p);
            assert(all[n - 1] == p);
            assert(!rest.contains(p)) by {
                if rest.contains(p) {
                    let k = choose|k: int| 0 <= k < rest.len() && rest[k] == p;
                    assert(all[n + k] == p);
                }
            }
            assert(before.is_allocated(p));
            lemma_dealloc(before, p);
        }
        frame_dealloc(allocator, frame.ppn);
        proof {
            let p = frame.ppn.0;
            let rest2 = all.subrange(n - 1, all.len() as int);
            assert forall|q: u64| rest2.contains(q) <==> (q == p || rest.contains(q)) by {
                if rest2.contains(q) {
                    let k = choose|k: int| 0 <= k < rest2.len() && rest2[k] == q;
                    if k > 0 {
                        assert(rest[k - 1] == q);
                    }
                }
                if rest.contains(q) {
                    let k = choose|k: int| 0 <= k < rest.len() && rest[k] == q;
                    assert(rest2[k + 1] == q);
                }
                if q == p {
                    assert(rest2[0] == p);
                }
            }
        }
    }
    proof {
        assert(all.subrange(0, all.len() as int) =~= all);
    }
}

/// An allocation hands out a frame that was free and not in use, marks it in
/// use and changes the state of no other frame; it fails only when no frame
/// is free, and then changes nothing.
pub proof fn lemma_allocate(m: FrameAllocatorModel)
    requires
        m.wf(),
    ensures
        m.allocate().0.wf(),
        m.allocate().1 is None <==> m.free_count() == 0,
        m.allocate().1 is None ==> m.allocate().0 == m,
        m.allocate().1 matches Some(ppn) ==> {
            &&& !m.is_allocated(ppn)
            &&& m.is_free(ppn)
            &&& ppn < m.end
            &&& m.allocate().0.is_allocated(ppn)
            &&& m.allocate().0.free_count() == m.free_count() - 1
            &&& forall|q: u64| q != ppn ==> m.allocate().0.is_allocated(q) == m.is_allocated(q)
            &&& forall|q: u64| q != ppn ==> m.allocate().0.is_free(q) == m.is_free(q)
        },
{
    let after = m.allocate().0;
    if m.recycled.len() > 0 {
        let ppn = m.recycled.last();
        let n = m.recycled.len() as int;
        assert(m.recycled[n - 1] == ppn);
        assert(after.recycled =~= m.recycled.subrange(0, n - 1));
        assert(!after.recycled.contains(ppn)) by {
            if after.recycled.contains(ppn) {
                let k = choose|k: int| 0 <= k < after.recycled.len() && after.recycled[k] == ppn;
                assert(m.recycled[k] == ppn);
            }
        }
        assert forall|q: u64| q != ppn implies after.recycled.contains(q) == m.recycled.contains(
            q,
        ) by {
            if m.recycled.contains(q) {
                let k = choose|k: int| 0 <= k < m.recycled.len() && m.recycled[k] == q;
                assert(after.recycled[k] == q);
            }
            if after.recycled.contains(q) {
                let k = choose|k: int| 0 <= k < after.recycled.len() && after.recycled[k] == q;
                assert(m.recycled[k] == q);
            }
        }
        assert forall|i: int| 0 <= i < after.recycled.len() implies #[trigger] after.recycled[i]
            < after.current by {
            assert(m.recycled[i] < m.current);
        }
    } else if m.current != m.end {
        assert forall|i: int| 0 <= i < after.recycled.len() implies #[trigger] after.recycled[i]
            < after.current by {
            assert(m.recycled[i] < m.current);
        }
    }
}

/// Giving back a frame that is in use makes it free and changes the state of
/// no other frame; giving back any other frame is refused.
pub proof fn lemma_dealloc(m: FrameAllocatorModel, ppn: u64)
    requires
        m.wf(),
    ensures
        m.dealloc(ppn) is Some <==> m.is_allocated(ppn),
        m.dealloc(ppn) matches Some(after) ==> {
            &&& after.wf()
            &&& !after.is_allocated(ppn)
            &&& after.is_free(ppn)
            &&& after.free_count() == m.free_count() + 1
            &&& forall|q: u64| q != ppn ==> after.is_allocated(q) == m.is_allocated(q)
            &&& forall|q: u64| q != ppn ==> after.is_free(q) == m.is_free(q)
        },
{
    if m.is_allocated(ppn) {
        let after = m.dealloc(ppn)->0;
        let n = m.recycled.len() as int;
        assert(after.recycled[n] == ppn);
        assert forall|q: u64| q != ppn implies after.recycled.contains(q) == m.recycled.contains(
            q,
        ) by {
            if m.recycled.contains(q) {
                let k = choose|k: int| 0 <= k < m.recycled.len() && m.recycled[k] == q;
                assert(after.recycled[k] == q);
            }
            if after.recycled.contains(q) {
                let k = choose|k: int| 0 <= k < after.recycled.len() && after.recycled[k] == q;
                assert(m.recycled[k] == q);
            }
        }
        assert forall|i: int, j: int|
            0 <= i < after.recycled.len() && 0 <= j < after.recycled.len() && i != j implies
            after.recycled[i] != after.recycled[j] by {
            if i < n {
                assert(m.recycled[i] == after.recycled[i]);
            }
            if j < n {
                assert(m.recycled[j] == after.recycled[j]);
            }
        }
        assert forall|i: int| 0 <= i < after.recycled.len() implies #[trigger] after.recycled[i]
            < after.current by {
            if i < n {
                assert(m.recycled[i] == after.recycled[i]);
            }
        }
    }
}

/// Two allocations in a row never hand out the same frame.
pub proof fn lemma_allocations_differ(m: FrameAllocatorModel)
    requires
        m.wf(),
    ensures
        ({
            let first = m.allocate();
            let second = first.0.allocate();
            first.1 is Some && second.1 is Some ==> first.1 != second.1
        }),
{
    lemma_allocate(m);
    lemma_allocate(m.allocate().0);
}

/// A frame that is in use stays in use, and is never handed out again, as
/// long as it is not given back: neither an allocation nor giving back
/// another frame changes that.
pub proof fn lemma_live_frame_stays(m: FrameAllocatorModel, live: u64, other: u64)
    requires
        m.wf(),
        m.is_allocated(live),
        other != live,
    ensures
        m.allocate().0.is_allocated(live),
        m.allocate().1 != Some(live),
        m.dealloc(other) matches Some(after) ==> after.is_allocated(live),
{
    lemma_allocate(m);
    lemma_dealloc(m, other);
}

/// The allocation that follows giving back a frame hands out that very frame
/// and restores the allocator as it was.
pub proof fn lemma_reuse_is_last_in_first_out(m: FrameAllocatorModel, ppn: u64)
    requires
        m.wf(),
        m.is_allocated(ppn),
    ensures
        m.dealloc(ppn) matches Some(after) && after.allocate() == (m, Some(ppn)),
{
    let after = m.dealloc(ppn)->0;
    assert(after.recycled.drop_last() =~= m.recycled);
}

} // verus!
