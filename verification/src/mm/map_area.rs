//! Areas of virtual pages, and what it takes to map them.
use vstd::prelude::*;
use crate::mm::address::{VirtAddr, VirtPageNum};
use crate::mm::memory::PhysMemory;
use crate::mm::page_table::{
    MapError,
    PTEFlags,
    missing_after_map,
    missing_nodes,
    same_last,
    same_mid,
    translation,
};

verus! {

/// What may be done with the pages of an area.
#[derive(Copy, Clone, Debug, PartialEq, Eq, Structural)]
pub struct MapPermission {
    pub bits: u8,
}

impl MapPermission {
    /// The pages can be read.
    pub const R: u8 = 0x02;

    /// The pages can be written.
    pub const W: u8 = 0x04;

    /// Instructions can be fetched from the pages.
    pub const X: u8 = 0x08;

    /// The pages can be accessed in user mode.
    pub const U: u8 = 0x10;

    /// The permission whose bits are set in `bits`.
    pub fn from_bits_truncate(bits: u8) -> (r: MapPermission)
        ensures
            r.bits == bits,
    {
        MapPermission { bits }
    }

    /// The bits of the permission.
    pub fn bits(&self) -> (r: u8)
        ensures
            r == self.bits,
    {
        self.bits
    }
}

/// How the pages of an area are backed.
#[derive(Copy, Clone, Debug, PartialEq, Eq, Structural)]
pub enum MapType {
    /// Each page is mapped to the frame with its own number.
    Identical,
    /// Each page is mapped to a frame of its own, allocated for it.
    Framed,
}

/// A range of virtual pages that are mapped alike.
#[derive(Copy, Clone, Debug, PartialEq, Eq, Structural)]
pub struct MapArea {
    pub start: VirtPageNum,
    pub end: VirtPageNum,
    pub map_type: MapType,
    pub map_perm: MapPermission,
}

impl MapArea {
    /// The area of the pages that the addresses from `start_va` up to
    /// `end_va` touch.
    pub fn new(start_va: VirtAddr, end_va: VirtAddr, map_type: MapType, map_perm: MapPermission) -> (r:
        MapArea)
        ensures
            r.start.0 == start_va.0 / 4096,
            r.end.0 == (end_va.0 + 4095) / 4096,
            r.map_type == map_type,
            r.map_perm == map_perm,
    {
        MapArea { start: start_va.floor(), end: end_va.ceil(), map_type, map_perm }
    }

    /// The range is not reversed and lies in the 27-bit page number space.
    pub open spec fn wf(&self) -> bool {
        self.start.0 <= self.end.0 <= 0x800_0000
    }

    /// The number of pages of the area.
    pub open spec fn len(&self) -> int {
        self.end.0 - self.start.0
    }

    /// The page `vpn` belongs to the area.
    pub open spec fn contains_vpn(&self, vpn: u64) -> bool {
        self.start.0 <= vpn < self.end.0
    }

    /// The two areas have no page in common.
    pub open spec fn disjoint(&self, other: MapArea) -> bool {
        self.end.0 <= other.start.0 || other.end.0 <= self.start.0 || self.start.0 >= self.end.0
            || other.start.0 >= other.end.0
    }

    /// The first `k` pages of the area.
    pub open spec fn prefix(&self, k: int) -> MapArea {
        MapArea { end: VirtPageNum((self.start.0 + k) as u64), ..*self }
    }

    /// The flags of the entries that map the pages of the area.
    pub open spec fn flags(&self) -> PTEFlags {
        PTEFlags { bits: self.map_perm.bits | PTEFlags::V }
    }

    /// The area is backed by frames of its own.
    pub open spec fn framed(&self) -> bool {
        self.map_type == MapType::Framed
    }

    /// The number of frames that back one page of the area: one where the
    /// area is framed.
    pub open spec fn page_cost(&self) -> int {
        if self.framed() {
            1
        } else {
            0
        }
    }
}

/// The number of nodes that are missing on the walk to the entry of `w`
/// after the pages of `area` were mapped, where `before` were missing
/// before: the nodes that the walk shares with the walk to a page of the
/// area exist now.
pub open spec fn missing_after_area(before: nat, area: MapArea, w: u64) -> nat {
    if area.len() <= 0 {
        before
    } else if area.contains_vpn(w) {
        0
    } else if w < area.start.0 {
        missing_after_map(before, area.start.0, w)
    } else {
        missing_after_map(before, (area.end.0 - 1) as u64, w)
    }
}

/// The number of nodes that are missing on the walk to each entry of the
/// table rooted at `root`.
pub open spec fn missing_in(mem: &PhysMemory, root: u64) -> spec_fn(u64) -> nat {
    |w: u64| missing_nodes(mem, root, w)
}

/// The number of frames that it takes to map the first `k` pages of `area`
/// in a table in which `missing` nodes are missing on the walk to each
/// entry: for each page its frame, where the area is framed, and the nodes
/// that are missing on the walk to its entry once the pages before it are
/// mapped.
pub open spec fn frames_needed(missing: spec_fn(u64) -> nat, area: MapArea, k: int) -> int
    decreases k,
{
    if k <= 0 {
        0
    } else {
        frames_needed(missing, area, k - 1) + area.page_cost() + missing_after_area(
            missing((area.start.0 + k - 1) as u64),
            area.prefix(k - 1),
            (area.start.0 + k - 1) as u64,
        )
    }
}

/// None of the first `k` pages of `area` is mapped.
pub open spec fn unmapped_upto(mem: &PhysMemory, root: u64, area: MapArea, k: int) -> bool {
    forall|i: int|
        0 <= i < k ==> (#[trigger] translation(mem, root, (area.start.0 + i) as u64)) is None
}

/// The first page of `area` that is mapped already is its `k`-th, and the
/// frames that it takes to get there are at most `free`.
pub open spec fn taken_at(mem: &PhysMemory, root: u64, area: MapArea, k: int, free: int) -> bool {
    &&& 0 <= k < area.len()
    &&& unmapped_upto(mem, root, area, k)
    &&& translation(mem, root, (area.start.0 + k) as u64) is Some
    &&& frames_needed(missing_in(mem, root), area, k) + area.page_cost() <= free
}

/// Whether each page of `area` is mapped already by the table rooted at
/// `root`, by the number of the page in the area.
pub open spec fn taken_in(mem: &PhysMemory, root: u64, area: MapArea) -> spec_fn(int) -> bool {
    |i: int| translation(mem, root, (area.start.0 + i) as u64) is Some
}

/// How adding `area` to a space ends, where `missing` nodes are missing on
/// the walk to each entry, `taken` tells the pages of the area that are
/// mapped already, and `free` frames are free. The pages are mapped in
/// their order: the area is added where none of its pages is taken and the
/// frames suffice; it is refused where a page is taken and the frames
/// suffice for the pages before it, and for its own frame; else the frames
/// run out.
pub open spec fn area_outcome(
    missing: spec_fn(u64) -> nat,
    taken: spec_fn(int) -> bool,
    area: MapArea,
    free: int,
) -> Option<MapError> {
    if (forall|i: int| 0 <= i < area.len() ==> !#[trigger] taken(i)) && frames_needed(
        missing,
        area,
        area.len(),
    ) <= free {
        None
    } else if exists|k: int|
        0 <= k < area.len() && #[trigger] taken(k) && (forall|i: int|
            0 <= i < k ==> !#[trigger] taken(i)) && frames_needed(missing, area, k)
            + area.page_cost() <= free {
        Some(MapError::AlreadyMapped)
    } else {
        Some(MapError::OutOfFrames)
    }
}

/// The error of a result, if it is one.
pub open spec fn error_of<T>(r: Result<T, MapError>) -> Option<MapError> {
    match r {
        Ok(_) => None,
        Err(e) => Some(e),
    }
}

/// How adding an area ends where it ends, in terms of the table of the
/// space.
pub proof fn lemma_area_outcome(
    mem: &PhysMemory,
    root: u64,
    area: MapArea,
    free: int,
    r: Option<MapError>,
)
    requires
        r is None <==> unmapped_upto(mem, root, area, area.len()) && frames_needed(
            missing_in(mem, root),
            area,
            area.len(),
        ) <= free,
        r == Some(MapError::AlreadyMapped) <==> exists|j: int| taken_at(mem, root, area, j, free),
        r is Some ==> r == Some(MapError::AlreadyMapped) || r == Some(MapError::OutOfFrames),
    ensures
        r == area_outcome(missing_in(mem, root), taken_in(mem, root, area), area, free),
{
    let taken = taken_in(mem, root, area);
    let missing = missing_in(mem, root);
    assert((forall|i: int| 0 <= i < area.len() ==> !#[trigger] taken(i)) <==> unmapped_upto(
        mem,
        root,
        area,
        area.len(),
    )) by {
        if unmapped_upto(mem, root, area, area.len()) {
            assert forall|i: int| 0 <= i < area.len() implies !#[trigger] taken(i) by {
                assert(translation(mem, root, (area.start.0 + i) as u64) is None);
            }
        }
        if forall|i: int| 0 <= i < area.len() ==> !#[trigger] taken(i) {
            assert forall|i: int| 0 <= i < area.len() implies (#[trigger] translation(
                mem,
                root,
                (area.start.0 + i) as u64,
            )) is None by {
                assert(!taken(i));
            }
        }
    }
    if exists|j: int| taken_at(mem, root, area, j, free) {
        let j = choose|j: int| taken_at(mem, root, area, j, free);
        assert(taken(j));
        assert forall|i: int| 0 <= i < j implies !#[trigger] taken(i) by {
            assert(translation(mem, root, (area.start.0 + i) as u64) is None);
        }
    }
    if exists|k: int|
        0 <= k < area.len() && #[trigger] taken(k) && (forall|i: int|
            0 <= i < k ==> !#[trigger] taken(i)) && frames_needed(missing, area, k)
            + area.page_cost() <= free {
        let k = choose|k: int|
            0 <= k < area.len() && #[trigger] taken(k) && (forall|i: int|
                0 <= i < k ==> !#[trigger] taken(i)) && frames_needed(missing, area, k)
                + area.page_cost() <= free;
        assert(unmapped_upto(mem, root, area, k)) by {
            assert forall|i: int| 0 <= i < k implies (#[trigger] translation(
                mem,
                root,
                (area.start.0 + i) as u64,
            )) is None by {
                assert(!taken(i));
            }
        }
        assert(taken_at(mem, root, area, k, free));
    }
}

/// Of three page numbers of at most 27 bits in their order, the first and
/// the last share a node only where the one between shares it with both.
pub proof fn lemma_shared_between(a: u64, b: u64, c: u64)
    requires
        a <= b <= c < 0x800_0000,
    ensures
        same_mid(a, c) ==> same_mid(a, b) && same_mid(b, c),
        same_last(a, c) ==> same_last(a, b) && same_last(b, c),
{
    assert((a <= b && b <= c && c < 0x800_0000 && (a >> 18) & 511 == (c >> 18) & 511) ==> ((b >> 18)
        & 511 == (c >> 18) & 511)) by (bit_vector);
    assert((a <= b && b <= c && c < 0x800_0000 && (a >> 18) & 511 == (c >> 18) & 511 && (a >> 9)
        & 511 == (c >> 9) & 511) ==> ((b >> 9) & 511 == (c >> 9) & 511)) by (bit_vector);
}

/// Mapping the next page of an area leaves missing, on the walk to any
/// entry, what mapping the area up to that page leaves missing.
pub proof fn lemma_missing_step(before: nat, area: MapArea, k: int, w: u64)
    requires
        area.wf(),
        0 <= k < area.len(),
        w < 0x800_0000,
    ensures
        missing_after_map(
            missing_after_area(before, area.prefix(k), w),
            (area.start.0 + k) as u64,
            w,
        ) == missing_after_area(before, area.prefix(k + 1), w),
{
    let s = area.start.0;
    let v = (s + k) as u64;
    if w < s {
        lemma_shared_between(w, s, v);
    } else if w > v {
        if k >= 1 {
            lemma_shared_between((v - 1) as u64, v, w);
        }
    }
}

/// The frames that it takes to map the first pages of an area are no more
/// than it takes to map more of them.
pub proof fn lemma_frames_needed(missing: spec_fn(u64) -> nat, area: MapArea, k: int, more: int)
    requires
        0 <= k <= more,
    ensures
        0 <= frames_needed(missing, area, k) <= frames_needed(missing, area, more),
    decreases more,
{
    if k < more {
        lemma_frames_needed(missing, area, k, more - 1);
    } else if k > 0 {
        lemma_frames_needed(missing, area, k - 1, k - 1);
    }
}

/// The frames that it takes to map pages of an area depend on the nodes
/// that are missing on the walks to the entries of page numbers of at most
/// 27 bits only.
pub proof fn lemma_frames_needed_same(
    a: spec_fn(u64) -> nat,
    b: spec_fn(u64) -> nat,
    area: MapArea,
    k: int,
)
    requires
        area.wf(),
        k <= area.len(),
        forall|w: u64| w < 0x800_0000 ==> #[trigger] a(w) == b(w),
    ensures
        frames_needed(a, area, k) == frames_needed(b, area, k),
    decreases k,
{
    if k > 0 {
        lemma_frames_needed_same(a, b, area, k - 1);
        let v = (area.start.0 + k - 1) as u64;
        assert(a(v) == b(v));
    }
}

/// Where mapping the pages of an area in their order has failed at the
/// `k`-th page, the area cannot be mapped; and the failure is a page that
/// is mapped already exactly where the first such page comes before the
/// frames run out.
pub proof fn lemma_push_failed(
    mem: &PhysMemory,
    root: u64,
    area: MapArea,
    k: int,
    free: int,
    taken: bool,
)
    requires
        0 <= k < area.len(),
        unmapped_upto(mem, root, area, k),
        frames_needed(missing_in(mem, root), area, k) <= free,
        taken <==> translation(mem, root, (area.start.0 + k) as u64) is Some && frames_needed(
            missing_in(mem, root),
            area,
            k,
        ) + area.page_cost() <= free,
        !taken ==> translation(mem, root, (area.start.0 + k) as u64) is Some || frames_needed(
            missing_in(mem, root),
            area,
            k + 1,
        ) > free,
    ensures
        !(unmapped_upto(mem, root, area, area.len()) && frames_needed(
            missing_in(mem, root),
            area,
            area.len(),
        ) <= free),
        taken <==> exists|j: int| taken_at(mem, root, area, j, free),
{
    if unmapped_upto(mem, root, area, area.len()) {
        assert(translation(mem, root, (area.start.0 + k) as u64) is None);
        lemma_frames_needed(missing_in(mem, root), area, k + 1, area.len());
    }
    if taken {
        assert(taken_at(mem, root, area, k, free));
    }
    if exists|j: int| taken_at(mem, root, area, j, free) {
        let j = choose|j: int| taken_at(mem, root, area, j, free);
        if j < k {
            assert(translation(mem, root, (area.start.0 + j) as u64) is None);
        } else if j > k {
            assert(translation(mem, root, (area.start.0 + k) as u64) is None);
            lemma_frames_needed(missing_in(mem, root), area, k + 1, j);
        }
    }
}


/// The framed area of the pages that the addresses from `start_va` up to
/// `end_va` touch.
pub open spec fn framed_area(start_va: VirtAddr, end_va: VirtAddr, permission: MapPermission) -> MapArea {
    MapArea {
        start: VirtPageNum(start_va.0 / 4096),
        end: VirtPageNum(((end_va.0 + 4095) / 4096) as u64),
        map_type: MapType::Framed,
        map_perm: permission,
    }
}


/// How adding an area ends depends on the nodes that are missing on the
/// walks to the entries of page numbers of at most 27 bits, and on the
/// pages of the area that are taken, only.
pub proof fn lemma_area_outcome_same(
    m1: spec_fn(u64) -> nat,
    m2: spec_fn(u64) -> nat,
    t1: spec_fn(int) -> bool,
    t2: spec_fn(int) -> bool,
    area: MapArea,
    free: int,
)
    requires
        area.wf(),
        forall|w: u64| w < 0x800_0000 ==> #[trigger] m1(w) == m2(w),
        forall|i: int| 0 <= i < area.len() ==> #[trigger] t1(i) == t2(i),
    ensures
        area_outcome(m1, t1, area, free) == area_outcome(m2, t2, area, free),
{
    lemma_frames_needed_same(m1, m2, area, area.len());
    assert((forall|i: int| 0 <= i < area.len() ==> !#[trigger] t1(i)) <==> (forall|i: int|
        0 <= i < area.len() ==> !#[trigger] t2(i))) by {
        if forall|i: int| 0 <= i < area.len() ==> !#[trigger] t1(i) {
            assert forall|i: int| 0 <= i < area.len() implies !#[trigger] t2(i) by {
                assert(t1(i) == t2(i));
            }
        }
        if forall|i: int| 0 <= i < area.len() ==> !#[trigger] t2(i) {
            assert forall|i: int| 0 <= i < area.len() implies !#[trigger] t1(i) by {
                assert(t1(i) == t2(i));
            }
        }
    }
    if exists|k: int|
        0 <= k < area.len() && #[trigger] t1(k) && (forall|i: int| 0 <= i < k ==> !#[trigger] t1(i))
            && frames_needed(m1, area, k) + area.page_cost() <= free {
        let k = choose|k: int|
            0 <= k < area.len() && #[trigger] t1(k) && (forall|i: int|
                0 <= i < k ==> !#[trigger] t1(i)) && frames_needed(m1, area, k) + area.page_cost()
                <= free;
        lemma_frames_needed_same(m1, m2, area, k);
        assert(t2(k));
        assert forall|i: int| 0 <= i < k implies !#[trigger] t2(i) by {
            assert(t1(i) == t2(i));
        }
    }
    if exists|k: int|
        0 <= k < area.len() && #[trigger] t2(k) && (forall|i: int| 0 <= i < k ==> !#[trigger] t2(i))
            && frames_needed(m2, area, k) + area.page_cost() <= free {
        let k = choose|k: int|
            0 <= k < area.len() && #[trigger] t2(k) && (forall|i: int|
                0 <= i < k ==> !#[trigger] t2(i)) && frames_needed(m2, area, k) + area.page_cost()
                <= free;
        lemma_frames_needed_same(m1, m2, area, k);
        assert(t1(k));
        assert forall|i: int| 0 <= i < k implies !#[trigger] t1(i) by {
            assert(t1(i) == t2(i));
        }
    }
}

} // verus!
