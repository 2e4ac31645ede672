//! What address spaces are made from: the images of applications, and the
//! layout of the kernel.
use vstd::prelude::*;
use crate::mm::address::VirtPageNum;
use crate::mm::map_area::{MapArea, MapPermission, MapType};
use crate::mm::page_table::MapError;
use crate::mm::space::{TRAMPOLINE_VPN, TRAP_CONTEXT_VPN, space_frames, space_outcome};

verus! {

/// The highest address, exclusive, that a segment of an image may reach:
/// it leaves room below the trap context page for the guard page and the
/// user stack.
pub const USER_LIMIT: u64 = 0x7f_ffff_b000;

/// One loadable segment of an application image.
#[derive(Clone, Debug)]
pub struct Segment {
    /// The virtual address at which the segment starts.
    pub start_va: u64,
    /// The size of the segment in memory.
    pub mem_size: u64,
    /// What may be done with its pages, user access aside.
    pub permission: MapPermission,
    /// The bytes that the segment holds from its start; the rest is zero.
    pub data: Vec<u8>,
}

impl Segment {
    /// The area that the segment takes up, which user mode may access.
    pub open spec fn area(&self) -> MapArea {
        MapArea {
            start: VirtPageNum(self.start_va / 4096),
            end: VirtPageNum(((self.start_va + self.mem_size + 4095) / 4096) as u64),
            map_type: MapType::Framed,
            map_perm: MapPermission { bits: self.permission.bits | MapPermission::U },
        }
    }

    /// The segment starts at a page boundary and ends at or below the limit
    /// for user segments, and its bytes fit into its size.
    pub open spec fn valid(&self) -> bool {
        &&& self.start_va % 4096 == 0
        &&& self.start_va + self.mem_size <= USER_LIMIT
        &&& self.data@.len() <= self.mem_size
    }
}

/// An application image as the loader hands it over.
#[derive(Clone, Debug)]
pub struct ElfImage {
    /// The address of the first instruction.
    pub entry: u64,
    /// The loadable segments.
    pub segments: Vec<Segment>,
}

/// The highest page number, exclusive, of the first `n` segments.
pub open spec fn max_end_vpn(segments: Seq<Segment>, n: int) -> u64
    decreases n,
{
    if n <= 0 {
        0
    } else if max_end_vpn(segments, n - 1) < segments[n - 1].area().end.0 {
        segments[n - 1].area().end.0
    } else {
        max_end_vpn(segments, n - 1)
    }
}

/// The area of the user stack of an image whose segments end at the page
/// `max_end`: two pages, after one guard page.
pub open spec fn stack_area(max_end: u64) -> MapArea {
    MapArea {
        start: VirtPageNum((max_end + 1) as u64),
        end: VirtPageNum((max_end + 3) as u64),
        map_type: MapType::Framed,
        map_perm: MapPermission { bits: (MapPermission::R | MapPermission::W) | MapPermission::U },
    }
}

/// The area of the page that holds the trap context.
pub open spec fn trap_context_area() -> MapArea {
    MapArea {
        start: VirtPageNum(TRAP_CONTEXT_VPN),
        end: VirtPageNum(TRAMPOLINE_VPN),
        map_type: MapType::Framed,
        map_perm: MapPermission { bits: MapPermission::R | MapPermission::W },
    }
}

impl ElfImage {
    /// Every segment is valid, and no two segments share a page.
    pub open spec fn valid(&self) -> bool {
        &&& forall|j: int| 0 <= j < self.segments@.len() ==> (#[trigger] self.segments@[j]).valid()
        &&& forall|i: int, j: int|
            0 <= i < j < self.segments@.len() ==> (#[trigger] self.segments@[i]).area().disjoint(
                (#[trigger] self.segments@[j]).area(),
            )
    }

    /// The areas of the space of the image: those of the segments, that of
    /// the user stack and that of the trap context.
    pub open spec fn areas(&self) -> Seq<MapArea> {
        Seq::new(
            self.segments@.len() + 2,
            |i: int|
                if i < self.segments@.len() {
                    self.segments@[i].area()
                } else if i == self.segments@.len() {
                    stack_area(max_end_vpn(self.segments@, self.segments@.len() as int))
                } else {
                    trap_context_area()
                },
        )
    }

    /// The number of frames that the space of the image takes.
    pub open spec fn frames(&self) -> int {
        space_frames(self.areas(), self.areas().len() as int)
    }

    /// Whether the `j`-th area of the space of the image passes the test
    /// of its range: the area of a segment does where the segment is valid.
    pub open spec fn passes(&self) -> spec_fn(int) -> bool {
        |j: int| j >= self.segments@.len() || self.segments@[j].valid()
    }

    /// How making the space of the image ends where `free` frames are
    /// free.
    pub open spec fn outcome(&self, free: int) -> Option<MapError> {
        space_outcome(self.areas(), self.passes(), free)
    }

}

/// Each of the first `n` segments ends at or below the highest of their
/// ends.
pub proof fn lemma_segment_ends(segments: Seq<Segment>, n: int, j: int)
    requires
        0 <= j < n <= segments.len(),
    ensures
        segments[j].area().end.0 <= max_end_vpn(segments, n),
    decreases n,
{
    if j < n - 1 {
        lemma_segment_ends(segments, n - 1, j);
    }
}

/// The highest end of valid segments is at or below the limit for user
/// segments.
pub proof fn lemma_max_end_bound(segments: Seq<Segment>, n: int)
    requires
        0 <= n <= segments.len(),
        forall|i: int| 0 <= i < n ==> (#[trigger] segments[i]).area().end.0 <= 0x7ff_fffb,
    ensures
        max_end_vpn(segments, n) <= 0x7ff_fffb,
    decreases n,
{
    if n > 0 {
        lemma_max_end_bound(segments, n - 1);
        assert(segments[n - 1].area().end.0 <= 0x7ff_fffb);
    }
}

/// Where the kernel image and the physical memory after it lie: the start
/// and the end of the text, of the read-only data, of the data and of the
/// zero-initialised data, the end of the image, and the end of memory.
#[derive(Copy, Clone, Debug)]
pub struct KernelLayout {
    pub stext: u64,
    pub etext: u64,
    pub srodata: u64,
    pub erodata: u64,
    pub sdata: u64,
    pub edata: u64,
    pub sbss: u64,
    pub ebss: u64,
    pub ekernel: u64,
    pub memory_end: u64,
}

/// The area of the pages that the addresses from `start` up to `end`
/// touch, each mapped to the frame with its own number.
pub open spec fn identical_area(start: u64, end: u64, bits: u8) -> MapArea {
    MapArea {
        start: VirtPageNum(start / 4096),
        end: VirtPageNum(((end + 4095) / 4096) as u64),
        map_type: MapType::Identical,
        map_perm: MapPermission { bits },
    }
}

impl KernelLayout {
    /// The areas of the address space of the kernel, each mapped
    /// identically: the text, readable and executable; the read-only data,
    /// readable; the data, the zero-initialised data and the physical
    /// memory after the image, readable and writable.
    pub open spec fn areas(&self) -> Seq<MapArea> {
        seq![
            identical_area(self.stext, self.etext, MapPermission::R | MapPermission::X),
            identical_area(self.srodata, self.erodata, MapPermission::R),
            identical_area(self.sdata, self.edata, MapPermission::R | MapPermission::W),
            identical_area(self.sbss, self.ebss, MapPermission::R | MapPermission::W),
            identical_area(self.ekernel, self.memory_end, MapPermission::R | MapPermission::W),
        ]
    }

    /// Every area is a range of the address space that is not reversed,
    /// and no two areas share a page or hold the trampoline page.
    pub open spec fn valid(&self) -> bool {
        &&& forall|i: int| 0 <= i < 5 ==> (#[trigger] self.areas()[i]).wf()
        &&& forall|i: int| 0 <= i < 5 ==> !(#[trigger] self.areas()[i]).contains_vpn(TRAMPOLINE_VPN)
        &&& forall|i: int, j: int|
            0 <= i < j < 5 ==> (#[trigger] self.areas()[i]).disjoint(#[trigger] self.areas()[j])
    }

    /// The number of frames that the address space of the kernel takes.
    pub open spec fn frames(&self) -> int {
        space_frames(self.areas(), 5)
    }

    /// Whether the `j`-th area passes the test of its range.
    pub open spec fn passes(&self) -> spec_fn(int) -> bool {
        |j: int| self.areas()[j].wf()
    }

    /// How making the address space of the kernel ends where `free`
    /// frames are free.
    pub open spec fn outcome(&self, free: int) -> Option<MapError> {
        space_outcome(self.areas(), self.passes(), free)
    }

}

} // verus!
