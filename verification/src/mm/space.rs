//! How the parts of an address space fit together: its table, its areas
//! and the frames that back them.
use vstd::prelude::*;
use crate::mm::address::{PhysPageNum, vpn_bits};
use crate::mm::map_area::{
    MapArea,
    area_outcome,
    frames_needed,
    lemma_frames_needed,
    lemma_frames_needed_same,
    missing_after_area,
    missing_in,
};
use crate::mm::memory::{PhysMemory, with_bytes, zero_frame};
use crate::mm::page_table::{
    MapError,
    PTEFlags,
    PageTable,
    PageTableEntry,
    lemma_entry_fields,
    lemma_same_page,
    missing_after_map,
    missing_nodes,
    same_page,
    translation,
};

verus! {

/// The virtual page number of the trampoline page: the last page of the
/// 39-bit address range.
pub const TRAMPOLINE_VPN: u64 = 0x7ff_ffff;

/// The virtual page number of the page that holds a task's trap context.
pub const TRAP_CONTEXT_VPN: u64 = 0x7ff_fffe;


/// The page `vpn` lies in one of the areas, or is the trampoline page of a
/// space that maps it.
pub open spec fn covered(areas: Seq<MapArea>, trampoline: Option<PhysPageNum>, vpn: u64) -> bool {
    ||| exists|a: int| 0 <= a < areas.len() && (#[trigger] areas[a]).contains_vpn(vpn)
    ||| (trampoline is Some && vpn == TRAMPOLINE_VPN)
}

/// The entry that maps the trampoline page to the frame `ppn`.
pub open spec fn trampoline_entry(ppn: PhysPageNum) -> PageTableEntry {
    PageTableEntry::new(ppn, PTEFlags { bits: (PTEFlags::R | PTEFlags::X) | PTEFlags::V })
}

/// The parts of an address space fit together in `mem`: the table is
/// well-formed; the data frames are pairwise distinct frames of `mem` and
/// none is a node of the table; the areas are pairwise disjoint; exactly the
/// pages of the areas and the trampoline are mapped; a page of an area is
/// mapped with the area's flags, to a data frame or to the frame with its
/// own number; two pages of framed areas never share a frame.
#[verifier::opaque]
pub open spec fn space_wf(
    table: &PageTable,
    data: Seq<u64>,
    areas: Seq<MapArea>,
    trampoline: Option<PhysPageNum>,
    mem: &PhysMemory,
) -> bool {
    &&& table.wf(mem)
    &&& data.no_duplicates()
    &&& forall|k: int|
        0 <= k < data.len() ==> mem.contains(#[trigger] data[k]) && !table.nodes().contains(data[k])
    &&& forall|a: int| 0 <= a < areas.len() ==> (#[trigger] areas[a]).wf()
    &&& forall|a: int, b: int|
        0 <= a < b < areas.len() ==> (#[trigger] areas[a]).disjoint(#[trigger] areas[b])
    &&& forall|v: u64|
        (#[trigger] translation(mem, table.root(), v)) is Some ==> covered(
            areas,
            trampoline,
            vpn_bits(v),
        )
    &&& forall|a: int, v: u64|
        0 <= a < areas.len() && (#[trigger] areas[a]).contains_vpn(v) ==> {
            &&& (#[trigger] translation(mem, table.root(), v)) matches Some(e)
            &&& e.flags() == areas[a].flags()
            &&& areas[a].framed() ==> data.contains(e.ppn().0)
            &&& !areas[a].framed() ==> e.ppn().0 == v
        }
    &&& forall|a: int, b: int, v: u64, w: u64|
        0 <= a < areas.len() && 0 <= b < areas.len() && (#[trigger] areas[a]).contains_vpn(v) && (
        #[trigger] areas[b]).contains_vpn(w) && areas[a].framed() && areas[b].framed() && v != w
            ==> (#[trigger] translation(mem, table.root(), v))->0.ppn() != (#[trigger] translation(
            mem,
            table.root(),
            w,
        ))->0.ppn()
    &&& trampoline matches Some(ppn) ==> {
        &&& translation(mem, table.root(), TRAMPOLINE_VPN) == Some(trampoline_entry(ppn))
        &&& ppn.0 < 0x1000_0000_0000
        &&& forall|a: int| 0 <= a < areas.len() ==> !(#[trigger] areas[a]).contains_vpn(TRAMPOLINE_VPN)
    }
}

/// A page number of at most 27 bits selects the same entries as another
/// such number only where the two are equal.
pub proof fn lemma_same_page_small(a: u64, b: u64)
    requires
        a < 0x800_0000,
        b < 0x800_0000,
    ensures
        same_page(a, b) <==> a == b,
        vpn_bits(a) == a,
{
    lemma_same_page(a, b);
    assert(a & 0x7ff_ffff == a) by (bit_vector)
        requires
            a < 0x800_0000,
    ;
    assert(b & 0x7ff_ffff == b) by (bit_vector)
        requires
            b < 0x800_0000,
    ;
}

/// The low 27 bits of a number are below 2^27, and select the same entries
/// as the number.
pub proof fn lemma_vpn_bits(v: u64)
    ensures
        vpn_bits(v) < 0x800_0000,
        same_page(v, vpn_bits(v)),
        vpn_bits(vpn_bits(v)) == vpn_bits(v),
{
    assert(v & 0x7ff_ffff < 0x800_0000) by (bit_vector);
    assert((v & 0x7ff_ffff) & 0x7ff_ffff == v & 0x7ff_ffff) by (bit_vector);
    lemma_same_page(v, vpn_bits(v));
}

/// Mapping the next page of the area that is being added keeps the parts of
/// a space together.
pub proof fn lemma_page_added(
    table0: &PageTable,
    table1: &PageTable,
    data0: Seq<u64>,
    data1: Seq<u64>,
    areas: Seq<MapArea>,
    area: MapArea,
    k: int,
    trampoline: Option<PhysPageNum>,
    m0: &PhysMemory,
    m1: &PhysMemory,
    target: u64,
)
    requires
        space_wf(table0, data0, areas.push(area.prefix(k)), trampoline, m0),
        area.wf(),
        0 <= k < area.len(),
        table1.wf(m1),
        table1.root() == table0.root(),
        translation(m0, table0.root(), (area.start.0 + k) as u64) is None,
        forall|v: u64|
            #[trigger] translation(m1, table1.root(), v) == if same_page(
                v,
                (area.start.0 + k) as u64,
            ) {
                Some(PageTableEntry::new(PhysPageNum(target), area.flags()))
            } else {
                translation(m0, table0.root(), v)
            },
        target < 0x1000_0000_0000,
        area.framed() ==> data1 == data0.push(target) && !data0.contains(target),
        !area.framed() ==> data1 == data0 && target == area.start.0 + k,
        forall|j: int|
            0 <= j < data1.len() ==> m1.contains(#[trigger] data1[j]) && !table1.nodes().contains(
                data1[j],
            ),
    ensures
        space_wf(table1, data1, areas.push(area.prefix(k + 1)), trampoline, m1),
{
    reveal(space_wf);
    let a0 = areas.push(area.prefix(k));
    let a1 = areas.push(area.prefix(k + 1));
    let n = areas.len() as int;
    let root = table0.root();
    let vpn = (area.start.0 + k) as u64;
    let entry = PageTableEntry::new(PhysPageNum(target), area.flags());
    lemma_entry_fields(PhysPageNum(target), area.flags());
    assert(a0[n] == area.prefix(k));
    assert(a1[n] == area.prefix(k + 1));
    assert forall|a: int| 0 <= a < n implies a1[a] == a0[a] && a0[a] == areas[a] by {}
    assert forall|a: int| 0 <= a < n implies !(#[trigger] areas[a]).contains_vpn(vpn) by {
        if areas[a].contains_vpn(vpn) {
            assert(a0[a].contains_vpn(vpn));
            assert(translation(m0, root, vpn) is Some);
        }
    }
    assert forall|v: u64| !same_page(v, vpn) implies #[trigger] translation(m1, root, v)
        == translation(m0, root, v) by {}
    assert(translation(m1, root, vpn) == Some(entry)) by {
        lemma_same_page_small(vpn, vpn);
    }
    assert forall|w: u64| w < 0x800_0000 && w != vpn implies !same_page(w, vpn) by {
        lemma_same_page_small(w, vpn);
    }
    assert(data1.no_duplicates()) by {
        if area.framed() {
            assert forall|i: int, j: int|
                0 <= i < data1.len() && 0 <= j < data1.len() && i != j implies data1[i]
                != data1[j] by {
                if i < data0.len() {
                    assert(data0[i] == data1[i]);
                    assert(data0.contains(data1[i]));
                }
                if j < data0.len() {
                    assert(data0[j] == data1[j]);
                    assert(data0.contains(data1[j]));
                }
            }
        }
    }
    assert forall|p: u64| data0.contains(p) implies data1.contains(p) by {
        let i = choose|i: int| 0 <= i < data0.len() && data0[i] == p;
        assert(data1[i] == p);
    }
    assert forall|a: int| 0 <= a < a1.len() implies (#[trigger] a1[a]).wf() by {
        if a < n {
            assert(a0[a].wf());
        }
    }
    assert forall|a: int, b: int| 0 <= a < b < a1.len() implies (#[trigger] a1[a]).disjoint(
        #[trigger] a1[b],
    ) by {
        if b < n {
            assert(a0[a].disjoint(a0[b]));
        } else {
            assert(a0[a].disjoint(a0[n]));
            assert(!areas[a].contains_vpn(vpn));
        }
    }
    assert forall|v: u64| (#[trigger] translation(m1, root, v)) is Some implies covered(
        a1,
        trampoline,
        vpn_bits(v),
    ) by {
        lemma_vpn_bits(v);
        if same_page(v, vpn) {
            lemma_same_page(v, vpn);
            lemma_same_page_small(vpn, vpn);
            assert(a1[n].contains_vpn(vpn_bits(v)));
        } else {
            assert(translation(m0, root, v) is Some);
            assert(covered(a0, trampoline, vpn_bits(v)));
            if exists|a: int| 0 <= a < a0.len() && (#[trigger] a0[a]).contains_vpn(vpn_bits(v)) {
                let a = choose|a: int| 0 <= a < a0.len() && (#[trigger] a0[a]).contains_vpn(
                    vpn_bits(v),
                );
                assert(a1[a].contains_vpn(vpn_bits(v)));
            }
        }
    }
    assert forall|a: int, v: u64| 0 <= a < a1.len() && (#[trigger] a1[a]).contains_vpn(v) implies ({
        &&& (#[trigger] translation(m1, root, v)) matches Some(e)
        &&& e.flags() == a1[a].flags()
        &&& a1[a].framed() ==> data1.contains(e.ppn().0)
        &&& !a1[a].framed() ==> e.ppn().0 == v
    }) by {
        if v == vpn {
            assert(a == n);
            if area.framed() {
                assert(data1[data0.len() as int] == target);
            }
        } else {
            assert(a0[a].contains_vpn(v));
            assert(a0[a].wf());
            assert(!same_page(v, vpn));
            let e = translation(m0, root, v)->0;
            if a0[a].framed() {
                assert(data0.contains(e.ppn().0));
            }
        }
    }
    assert forall|a: int, b: int, v: u64, w: u64|
        0 <= a < a1.len() && 0 <= b < a1.len() && (#[trigger] a1[a]).contains_vpn(v) && (
        #[trigger] a1[b]).contains_vpn(w) && a1[a].framed() && a1[b].framed() && v != w implies (
    #[trigger] translation(m1, root, v))->0.ppn() != (#[trigger] translation(m1, root, w))->0.ppn() by {
        assert(a1[a].wf() && a1[b].wf());
        if v != vpn {
            assert(a0[a].contains_vpn(v));
            assert(!same_page(v, vpn));
            assert(data0.contains(translation(m0, root, v)->0.ppn().0));
        }
        if w != vpn {
            assert(a0[b].contains_vpn(w));
            assert(!same_page(w, vpn));
            assert(data0.contains(translation(m0, root, w)->0.ppn().0));
        }
        if v != vpn && w != vpn {
            assert(translation(m0, root, v)->0.ppn() != translation(m0, root, w)->0.ppn());
        }
    }
    if trampoline is Some {
        assert(vpn != TRAMPOLINE_VPN);
        assert(!same_page(TRAMPOLINE_VPN, vpn));
        assert forall|a: int| 0 <= a < a1.len() implies !(#[trigger] a1[a]).contains_vpn(
            TRAMPOLINE_VPN,
        ) by {
            assert(!a0[a].contains_vpn(TRAMPOLINE_VPN));
        }
    }
}

/// The parts of a space stay together when memory changes outside the
/// frames of the nodes of its table.
pub proof fn lemma_space_unchanged(
    table: &PageTable,
    data: Seq<u64>,
    areas: Seq<MapArea>,
    trampoline: Option<PhysPageNum>,
    m0: &PhysMemory,
    m1: &PhysMemory,
)
    requires
        space_wf(table, data, areas, trampoline, m0),
        m1.wf(),
        m1.base() == m0.base(),
        m1.frame_count() == m0.frame_count(),
        forall|k: int|
            0 <= k < table.nodes().len() ==> m1.frame(#[trigger] table.nodes()[k]) == m0.frame(
                table.nodes()[k],
            ),
    ensures
        space_wf(table, data, areas, trampoline, m1),
        forall|v: u64|
            #[trigger] translation(m1, table.root(), v) == translation(m0, table.root(), v),
        forall|v: u64|
            #[trigger] missing_nodes(m1, table.root(), v) == missing_nodes(m0, table.root(), v),
{
    reveal(space_wf);
    table.lemma_unchanged_nodes(m0, m1);
}

/// The parts of a space stay together when its table is replaced by one
/// with the same root that translates every page alike, and that has no
/// data frame among its nodes.
pub proof fn lemma_space_regrown(
    table0: &PageTable,
    table1: &PageTable,
    data: Seq<u64>,
    areas: Seq<MapArea>,
    trampoline: Option<PhysPageNum>,
    m0: &PhysMemory,
    m1: &PhysMemory,
)
    requires
        space_wf(table0, data, areas, trampoline, m0),
        table1.wf(m1),
        table1.root() == table0.root(),
        forall|v: u64|
            #[trigger] translation(m1, table1.root(), v) == translation(m0, table0.root(), v),
        forall|j: int|
            0 <= j < data.len() ==> m1.contains(#[trigger] data[j]) && !table1.nodes().contains(
                data[j],
            ),
    ensures
        space_wf(table1, data, areas, trampoline, m1),
{
    reveal(space_wf);
    let root = table0.root();
    assert forall|a: int, v: u64| 0 <= a < areas.len() && (#[trigger] areas[a]).contains_vpn(v) implies ({
        &&& (#[trigger] translation(m1, root, v)) matches Some(e)
        &&& e.flags() == areas[a].flags()
        &&& areas[a].framed() ==> data.contains(e.ppn().0)
        &&& !areas[a].framed() ==> e.ppn().0 == v
    }) by {
        assert(translation(m1, root, v) == translation(m0, root, v));
    }
    assert forall|a: int, b: int, v: u64, w: u64|
        0 <= a < areas.len() && 0 <= b < areas.len() && (#[trigger] areas[a]).contains_vpn(v) && (
        #[trigger] areas[b]).contains_vpn(w) && areas[a].framed() && areas[b].framed() && v
            != w implies (#[trigger] translation(m1, root, v))->0.ppn() != (#[trigger] translation(
        m1,
        root,
        w,
    ))->0.ppn() by {
        assert(translation(m1, root, v) == translation(m0, root, v));
        assert(translation(m1, root, w) == translation(m0, root, w));
    }
    assert forall|v: u64| (#[trigger] translation(m1, root, v)) is Some implies covered(
        areas,
        trampoline,
        vpn_bits(v),
    ) by {
        assert(translation(m1, root, v) == translation(m0, root, v));
    }
}

/// In a space whose parts fit together the table is well-formed, and no
/// data frame is a node of the table or lies outside memory.
pub proof fn lemma_space_parts(
    table: &PageTable,
    data: Seq<u64>,
    areas: Seq<MapArea>,
    trampoline: Option<PhysPageNum>,
    mem: &PhysMemory,
)
    requires
        space_wf(table, data, areas, trampoline, mem),
    ensures
        table.wf(mem),
        mem.wf(),
        data.no_duplicates(),
        forall|k: int|
            0 <= k < data.len() ==> mem.contains(#[trigger] data[k]) && !table.nodes().contains(
                data[k],
            ),
        forall|p: u64| !(table.nodes().contains(p) && data.contains(p)),
{
    reveal(space_wf);
    table.lemma_nodes(mem);
}

/// Unmapping the last page of the area that is being added, and giving up
/// its frame, keeps the parts of a space together.
pub proof fn lemma_page_removed(
    table0: &PageTable,
    table1: &PageTable,
    data1: Seq<u64>,
    data0: Seq<u64>,
    areas: Seq<MapArea>,
    area: MapArea,
    k: int,
    trampoline: Option<PhysPageNum>,
    m0: &PhysMemory,
    m1: &PhysMemory,
)
    requires
        space_wf(table0, data1, areas.push(area.prefix(k + 1)), trampoline, m0),
        area.wf(),
        0 <= k < area.len(),
        table1.wf(m1),
        table1.root() == table0.root(),
        table1.nodes() == table0.nodes(),
        m1.base() == m0.base(),
        m1.frame_count() == m0.frame_count(),
        forall|v: u64|
            #[trigger] translation(m1, table1.root(), v) == if same_page(
                v,
                (area.start.0 + k) as u64,
            ) {
                None
            } else {
                translation(m0, table0.root(), v)
            },
        area.framed() ==> data1.len() > 0 && data0 == data1.drop_last() && translation(
            m0,
            table0.root(),
            (area.start.0 + k) as u64,
        )->0.ppn().0 == data1.last(),
        !area.framed() ==> data0 == data1,
    ensures
        space_wf(table1, data0, areas.push(area.prefix(k)), trampoline, m1),
{
    reveal(space_wf);
    let a1 = areas.push(area.prefix(k + 1));
    let a0 = areas.push(area.prefix(k));
    let n = areas.len() as int;
    let root = table0.root();
    let vpn = (area.start.0 + k) as u64;
    assert(a0[n] == area.prefix(k));
    assert(a1[n] == area.prefix(k + 1));
    assert(a1[n].contains_vpn(vpn));
    assert(a1[n].wf());
    assert forall|a: int| 0 <= a < n implies a1[a] == a0[a] && a0[a] == areas[a] by {}
    assert forall|w: u64| w < 0x800_0000 && w != vpn implies !same_page(w, vpn) by {
        lemma_same_page_small(w, vpn);
    }
    assert forall|a: int, v: u64| 0 <= a < a0.len() && #[trigger] a0[a].contains_vpn(
        v,
    ) implies v != vpn && a1[a].contains_vpn(v) && v < 0x800_0000 by {
        assert(a1[a].wf());
        if a < n {
            assert(a1[a].disjoint(a1[n]));
        }
    }
    assert forall|p: u64| data0.contains(p) implies data1.contains(p) by {
        let i = choose|i: int| 0 <= i < data0.len() && data0[i] == p;
        assert(data1[i] == p);
    }
    assert(data0.no_duplicates()) by {
        assert forall|i: int, j: int|
            0 <= i < data0.len() && 0 <= j < data0.len() && i != j implies data0[i] != data0[j] by {
            assert(data1[i] == data0[i]);
            assert(data1[j] == data0[j]);
        }
    }
    assert forall|j: int| 0 <= j < data0.len() implies m1.contains(#[trigger] data0[j])
        && !table1.nodes().contains(data0[j]) by {
        assert(data1[j] == data0[j]);
    }
    assert forall|a: int| 0 <= a < a0.len() implies (#[trigger] a0[a]).wf() by {
        assert(a1[a].wf());
    }
    assert forall|a: int, b: int| 0 <= a < b < a0.len() implies (#[trigger] a0[a]).disjoint(
        #[trigger] a0[b],
    ) by {
        assert(a1[a].disjoint(a1[b]));
    }
    assert forall|v: u64| (#[trigger] translation(m1, root, v)) is Some implies covered(
        a0,
        trampoline,
        vpn_bits(v),
    ) by {
        lemma_vpn_bits(v);
        assert(!same_page(v, vpn));
        assert(translation(m0, root, v) is Some);
        assert(covered(a1, trampoline, vpn_bits(v)));
        lemma_same_page(v, vpn);
        lemma_same_page_small(vpn, vpn);
        if exists|a: int| 0 <= a < a1.len() && (#[trigger] a1[a]).contains_vpn(vpn_bits(v)) {
            let a = choose|a: int| 0 <= a < a1.len() && (#[trigger] a1[a]).contains_vpn(
                vpn_bits(v),
            );
            assert(a0[a].contains_vpn(vpn_bits(v)));
        }
    }
    assert forall|a: int, v: u64| 0 <= a < a0.len() && (#[trigger] a0[a]).contains_vpn(v) implies ({
        &&& (#[trigger] translation(m1, root, v)) matches Some(e)
        &&& e.flags() == a0[a].flags()
        &&& a0[a].framed() ==> data0.contains(e.ppn().0)
        &&& !a0[a].framed() ==> e.ppn().0 == v
    }) by {
        assert(a1[a].contains_vpn(v));
        assert(!same_page(v, vpn));
        let e = translation(m0, root, v)->0;
        if a0[a].framed() && area.framed() {
            assert(translation(m0, root, v)->0.ppn() != translation(m0, root, vpn)->0.ppn());
            let i = choose|i: int| 0 <= i < data1.len() && data1[i] == e.ppn().0;
            assert(data0[i] == e.ppn().0);
        }
    }
    assert forall|a: int, b: int, v: u64, w: u64|
        0 <= a < a0.len() && 0 <= b < a0.len() && (#[trigger] a0[a]).contains_vpn(v) && (
        #[trigger] a0[b]).contains_vpn(w) && a0[a].framed() && a0[b].framed() && v != w implies (
    #[trigger] translation(m1, root, v))->0.ppn() != (#[trigger] translation(m1, root, w))->0.ppn() by {
        assert(a1[a].contains_vpn(v));
        assert(a1[b].contains_vpn(w));
        assert(!same_page(v, vpn));
        assert(!same_page(w, vpn));
        assert(translation(m0, root, v)->0.ppn() != translation(m0, root, w)->0.ppn());
    }
    if trampoline is Some {
        assert(!a1[n].contains_vpn(TRAMPOLINE_VPN));
        assert(!same_page(TRAMPOLINE_VPN, vpn));
        assert forall|a: int| 0 <= a < a0.len() implies !(#[trigger] a0[a]).contains_vpn(
            TRAMPOLINE_VPN,
        ) by {
            assert(!a1[a].contains_vpn(TRAMPOLINE_VPN));
        }
    }
}

/// An area without pages can be added to a space, or dropped from it.
pub proof fn lemma_empty_area(
    table: &PageTable,
    data: Seq<u64>,
    areas: Seq<MapArea>,
    area: MapArea,
    trampoline: Option<PhysPageNum>,
    mem: &PhysMemory,
)
    requires
        area.wf(),
    ensures
        space_wf(table, data, areas.push(area.prefix(0)), trampoline, mem) <==> space_wf(
            table,
            data,
            areas,
            trampoline,
            mem,
        ),
{
    reveal(space_wf);
    let more = areas.push(area.prefix(0));
    let n = areas.len() as int;
    assert(more[n] == area.prefix(0));
    assert forall|a: int| 0 <= a < n implies more[a] == areas[a] by {}
    assert forall|v: u64| !more[n].contains_vpn(v) by {}
    assert forall|v: u64|
        covered(more, trampoline, v) <==> covered(areas, trampoline, v) by {
        if exists|a: int| 0 <= a < more.len() && (#[trigger] more[a]).contains_vpn(v) {
            let a = choose|a: int| 0 <= a < more.len() && (#[trigger] more[a]).contains_vpn(v);
            assert(areas[a].contains_vpn(v));
        }
        if exists|a: int| 0 <= a < areas.len() && (#[trigger] areas[a]).contains_vpn(v) {
            let a = choose|a: int| 0 <= a < areas.len() && (#[trigger] areas[a]).contains_vpn(v);
            assert(more[a].contains_vpn(v));
        }
    }
    if space_wf(table, data, areas, trampoline, mem) {
        assert forall|a: int| 0 <= a < more.len() implies (#[trigger] more[a]).wf() by {
            if a < n {
                assert(areas[a].wf());
            }
        }
        assert forall|a: int, b: int| 0 <= a < b < more.len() implies (#[trigger] more[a]).disjoint(
            #[trigger] more[b],
        ) by {
            if b < n {
                assert(areas[a].disjoint(areas[b]));
            }
        }
        assert forall|a: int, v: u64| 0 <= a < more.len() && (#[trigger] more[a]).contains_vpn(
            v,
        ) implies ({
            &&& (#[trigger] translation(mem, table.root(), v)) matches Some(e)
            &&& e.flags() == more[a].flags()
            &&& more[a].framed() ==> data.contains(e.ppn().0)
            &&& !more[a].framed() ==> e.ppn().0 == v
        }) by {
            assert(areas[a].contains_vpn(v));
        }
        assert forall|a: int, b: int, v: u64, w: u64|
            0 <= a < more.len() && 0 <= b < more.len() && (#[trigger] more[a]).contains_vpn(v) && (
            #[trigger] more[b]).contains_vpn(w) && more[a].framed() && more[b].framed() && v
                != w implies (#[trigger] translation(mem, table.root(), v))->0.ppn() != (
        #[trigger] translation(mem, table.root(), w))->0.ppn() by {
            assert(areas[a].contains_vpn(v));
            assert(areas[b].contains_vpn(w));
        }
        if trampoline is Some {
            assert forall|a: int| 0 <= a < more.len() implies !(#[trigger] more[a]).contains_vpn(
                TRAMPOLINE_VPN,
            ) by {
                if a < n {
                    assert(!areas[a].contains_vpn(TRAMPOLINE_VPN));
                }
            }
        }
        assert(space_wf(table, data, more, trampoline, mem));
    }
    if space_wf(table, data, more, trampoline, mem) {
        assert forall|a: int| 0 <= a < areas.len() implies (#[trigger] areas[a]).wf() by {
            assert(more[a].wf());
        }
        assert forall|a: int, b: int| 0 <= a < b < areas.len() implies (
        #[trigger] areas[a]).disjoint(#[trigger] areas[b]) by {
            assert(more[a].disjoint(more[b]));
        }
        assert forall|a: int, v: u64| 0 <= a < areas.len() && (#[trigger] areas[a]).contains_vpn(
            v,
        ) implies ({
            &&& (#[trigger] translation(mem, table.root(), v)) matches Some(e)
            &&& e.flags() == areas[a].flags()
            &&& areas[a].framed() ==> data.contains(e.ppn().0)
            &&& !areas[a].framed() ==> e.ppn().0 == v
        }) by {
            assert(more[a].contains_vpn(v));
        }
        assert forall|a: int, b: int, v: u64, w: u64|
            0 <= a < areas.len() && 0 <= b < areas.len() && (#[trigger] areas[a]).contains_vpn(v)
                && (#[trigger] areas[b]).contains_vpn(w) && areas[a].framed() && areas[b].framed()
                && v != w implies (#[trigger] translation(mem, table.root(), v))->0.ppn() != (
        #[trigger] translation(mem, table.root(), w))->0.ppn() by {
            assert(more[a].contains_vpn(v));
            assert(more[b].contains_vpn(w));
        }
        if trampoline is Some {
            assert forall|a: int| 0 <= a < areas.len() implies !(#[trigger] areas[a]).contains_vpn(
                TRAMPOLINE_VPN,
            ) by {
                assert(!more[a].contains_vpn(TRAMPOLINE_VPN));
            }
        }
        assert(space_wf(table, data, areas, trampoline, mem));
    }
}

/// A page of an area of a space is mapped with the flags of the area, and
/// to a data frame where the area is framed.
pub proof fn lemma_area_page(
    table: &PageTable,
    data: Seq<u64>,
    areas: Seq<MapArea>,
    trampoline: Option<PhysPageNum>,
    mem: &PhysMemory,
    a: int,
    v: u64,
)
    requires
        space_wf(table, data, areas, trampoline, mem),
        0 <= a < areas.len(),
        areas[a].contains_vpn(v),
    ensures
        areas[a].wf(),
        translation(mem, table.root(), v) matches Some(e) && e.flags() == areas[a].flags() && (
        areas[a].framed() ==> data.contains(e.ppn().0)) && (!areas[a].framed() ==> e.ppn().0 == v),
{
    reveal(space_wf);
}

/// Two page numbers that select the same entries are translated alike.
pub proof fn lemma_same_page_translation(mem: &PhysMemory, root: u64, a: u64, b: u64)
    requires
        same_page(a, b),
    ensures
        translation(mem, root, a) == translation(mem, root, b),
        missing_nodes(mem, root, a) == missing_nodes(mem, root, b),
{
}

/// Mapping the trampoline page in a space that did not map it keeps the
/// parts of the space together.
pub proof fn lemma_trampoline_added(
    table0: &PageTable,
    table1: &PageTable,
    data: Seq<u64>,
    areas: Seq<MapArea>,
    ppn: PhysPageNum,
    m0: &PhysMemory,
    m1: &PhysMemory,
)
    requires
        space_wf(table0, data, areas, None, m0),
        table1.wf(m1),
        table1.root() == table0.root(),
        ppn.0 < 0x1000_0000_0000,
        translation(m0, table0.root(), TRAMPOLINE_VPN) is None,
        forall|v: u64|
            #[trigger] translation(m1, table1.root(), v) == if same_page(v, TRAMPOLINE_VPN) {
                Some(trampoline_entry(ppn))
            } else {
                translation(m0, table0.root(), v)
            },
        forall|j: int|
            0 <= j < data.len() ==> m1.contains(#[trigger] data[j]) && !table1.nodes().contains(
                data[j],
            ),
    ensures
        space_wf(table1, data, areas, Some(ppn), m1),
{
    reveal(space_wf);
    let root = table0.root();
    lemma_same_page_small(TRAMPOLINE_VPN, TRAMPOLINE_VPN);
    assert forall|w: u64| w < 0x800_0000 && w != TRAMPOLINE_VPN implies !same_page(
        w,
        TRAMPOLINE_VPN,
    ) by {
        lemma_same_page_small(w, TRAMPOLINE_VPN);
    }
    assert forall|a: int, v: u64| 0 <= a < areas.len() && #[trigger] areas[a].contains_vpn(
        v,
    ) implies v != TRAMPOLINE_VPN && v < 0x800_0000 by {
        assert(areas[a].wf());
        assert(translation(m0, root, v) is Some);
    }
    assert forall|v: u64| (#[trigger] translation(m1, root, v)) is Some implies covered(
        areas,
        Some(ppn),
        vpn_bits(v),
    ) by {
        lemma_vpn_bits(v);
        lemma_same_page(v, TRAMPOLINE_VPN);
        if !same_page(v, TRAMPOLINE_VPN) {
            assert(translation(m0, root, v) is Some);
            assert(covered(areas, None, vpn_bits(v)));
        }
    }
    assert forall|a: int, v: u64| 0 <= a < areas.len() && (#[trigger] areas[a]).contains_vpn(v) implies ({
        &&& (#[trigger] translation(m1, root, v)) matches Some(e)
        &&& e.flags() == areas[a].flags()
        &&& areas[a].framed() ==> data.contains(e.ppn().0)
        &&& !areas[a].framed() ==> e.ppn().0 == v
    }) by {
        assert(areas[a].contains_vpn(v));
        assert(!same_page(v, TRAMPOLINE_VPN));
    }
    assert forall|a: int, b: int, v: u64, w: u64|
        0 <= a < areas.len() && 0 <= b < areas.len() && (#[trigger] areas[a]).contains_vpn(v) && (
        #[trigger] areas[b]).contains_vpn(w) && areas[a].framed() && areas[b].framed() && v
            != w implies (#[trigger] translation(m1, root, v))->0.ppn() != (#[trigger] translation(
        m1,
        root,
        w,
    ))->0.ppn() by {
        assert(areas[a].contains_vpn(v));
        assert(areas[b].contains_vpn(w));
        assert(!same_page(v, TRAMPOLINE_VPN));
        assert(!same_page(w, TRAMPOLINE_VPN));
    }
}

/// The contents of a fresh page that was filled with `data` from its start.
pub open spec fn page_image(data: Seq<u8>) -> Seq<u8> {
    with_bytes(zero_frame(), 0, data)
}

/// The contents of page `i` of a fresh area that was filled with `data`
/// from its start: the bytes of `data` that fall into the page, and zero
/// bytes beyond them.
pub open spec fn expected_page(data: Option<Seq<u8>>, i: int) -> Seq<u8> {
    match data {
        Some(d) => if i * 4096 < d.len() {
            page_image(
                d.subrange(
                    i * 4096,
                    if d.len() < (i + 1) * 4096 {
                        d.len() as int
                    } else {
                        (i + 1) * 4096
                    },
                ),
            )
        } else {
            zero_frame()
        },
        None => zero_frame(),
    }
}


/// The number of nodes that are missing on the walk to the entry of `w` in
/// a space that was made with an empty table and maps the trampoline page
/// and the first `j` of the areas.
pub open spec fn missing_in_space(areas: Seq<MapArea>, j: int, w: u64) -> nat
    decreases j,
{
    if j <= 0 {
        missing_after_map(2, TRAMPOLINE_VPN, w)
    } else {
        missing_after_area(missing_in_space(areas, j - 1, w), areas[j - 1], w)
    }
}

/// The number of frames of a space that was made with an empty table and
/// maps the trampoline page and the first `j` of the areas: the root of
/// its table, the two nodes on the walk to the entry of the trampoline
/// page, and what each area takes after those before it.
pub open spec fn space_frames(areas: Seq<MapArea>, j: int) -> int
    decreases j,
{
    if j <= 0 {
        3
    } else {
        space_frames(areas, j - 1) + frames_needed(
            |w: u64| missing_in_space(areas, j - 1, w),
            areas[j - 1],
            areas[j - 1].len(),
        )
    }
}

/// A space takes at least three frames, and no fewer with more areas.
pub proof fn lemma_space_frames(areas: Seq<MapArea>, j: int, more: int)
    requires
        0 <= j <= more,
    ensures
        3 <= space_frames(areas, j) <= space_frames(areas, more),
    decreases more,
{
    if j < more {
        lemma_space_frames(areas, j, more - 1);
        if areas[more - 1].len() > 0 {
            lemma_frames_needed(
                |w: u64| missing_in_space(areas, more - 1, w),
                areas[more - 1],
                0,
                areas[more - 1].len(),
            );
        }
    } else if j > 0 {
        lemma_space_frames(areas, j - 1, j - 1);
        if areas[j - 1].len() > 0 {
            lemma_frames_needed(
                |w: u64| missing_in_space(areas, j - 1, w),
                areas[j - 1],
                0,
                areas[j - 1].len(),
            );
        }
    }
}

/// What adding the next area to a space that is being made takes, and
/// leaves missing: as the frames and the missing nodes of spaces go.
pub proof fn lemma_space_step(
    areas: Seq<MapArea>,
    j: int,
    before: &PhysMemory,
    after: &PhysMemory,
    root: u64,
)
    requires
        0 <= j < areas.len(),
        areas[j].wf(),
        forall|w: u64|
            w < 0x800_0000 ==> #[trigger] missing_nodes(before, root, w) == missing_in_space(
                areas,
                j,
                w,
            ),
    ensures
        frames_needed(missing_in(before, root), areas[j], areas[j].len()) == space_frames(
            areas,
            j + 1,
        ) - space_frames(areas, j),
        (forall|w: u64|
            w < 0x800_0000 ==> #[trigger] missing_nodes(after, root, w) == missing_after_area(
                missing_nodes(before, root, w),
                areas[j],
                w,
            )) ==> forall|w: u64|
            w < 0x800_0000 ==> #[trigger] missing_nodes(after, root, w) == missing_in_space(
                areas,
                j + 1,
                w,
            ),
{
    let a = missing_in(before, root);
    let b = |w: u64| missing_in_space(areas, j, w);
    assert forall|w: u64| w < 0x800_0000 implies #[trigger] a(w) == b(w) by {
        assert(missing_nodes(before, root, w) == missing_in_space(areas, j, w));
    }
    lemma_frames_needed_same(a, b, areas[j], areas[j].len());
    if forall|w: u64|
        w < 0x800_0000 ==> #[trigger] missing_nodes(after, root, w) == missing_after_area(
            missing_nodes(before, root, w),
            areas[j],
            w,
        ) {
        assert forall|w: u64| w < 0x800_0000 implies #[trigger] missing_nodes(after, root, w)
            == missing_in_space(areas, j + 1, w) by {
            assert(missing_nodes(before, root, w) == missing_in_space(areas, j, w));
        }
    }
}

/// The page `v` is mapped in a space that maps the trampoline page and the
/// first `j` of the areas: it is a page of one of them, or the trampoline
/// page.
pub open spec fn covered_before(areas: Seq<MapArea>, j: int, v: u64) -> bool {
    ||| exists|a: int| 0 <= a < j && (#[trigger] areas[a]).contains_vpn(v)
    ||| v == TRAMPOLINE_VPN
}

/// Whether each page of the `j`-th of the areas is mapped already in a
/// space that maps the trampoline page and the areas before it.
pub open spec fn taken_in_space(areas: Seq<MapArea>, j: int) -> spec_fn(int) -> bool {
    |i: int| covered_before(areas, j, (areas[j].start.0 + i) as u64)
}

/// How making a space ends from its `j`-th area on, where the trampoline
/// page and the areas before are mapped, `ok` tells the areas that pass
/// the test of their range, and `free` frames were free at the start: with
/// the first area that does not pass the test, that cannot be added, or for
/// which the frames run out.
pub open spec fn space_outcome_from(
    areas: Seq<MapArea>,
    ok: spec_fn(int) -> bool,
    j: int,
    free: int,
) -> Option<MapError>
    decreases areas.len() - j,
{
    if j < 0 || j >= areas.len() {
        None
    } else if !ok(j) {
        Some(MapError::InvalidRange)
    } else {
        match area_outcome(
            |w: u64| missing_in_space(areas, j, w),
            taken_in_space(areas, j),
            areas[j],
            free - space_frames(areas, j),
        ) {
            Some(e) => Some(e),
            None => space_outcome_from(areas, ok, j + 1, free),
        }
    }
}

/// How making a space with an empty table, the trampoline page and the
/// areas ends where `free` frames are free: the frames run out where there
/// are not three of them for the table and the trampoline page; else the
/// areas are added in their order.
pub open spec fn space_outcome(areas: Seq<MapArea>, ok: spec_fn(int) -> bool, free: int) -> Option<
    MapError,
> {
    if free < 3 {
        Some(MapError::OutOfFrames)
    } else {
        space_outcome_from(areas, ok, 0, free)
    }
}

} // verus!
