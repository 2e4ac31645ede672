//! Page-table entries and the three-level page table.
use vstd::prelude::*;
use crate::mm::address::{PhysPageNum, VirtAddr, VirtPageNum, vpn_index, vpn_bits, ppn_bits, va_bits};
use crate::mm::frame_allocator::{FrameAllocatorModel, FrameTracker, StackFrameAllocator, frame_alloc};
use crate::mm::memory::{PhysMemory, lemma_with_word, with_word, word_at, zero_frame};

verus! {

/// The permission and status bits of a page-table entry.
#[derive(Copy, Clone, Debug, PartialEq, Eq, Structural)]
pub struct PTEFlags {
    pub bits: u8,
}

impl PTEFlags {
    /// The entry is valid.
    pub const V: u8 = 0x01;

    /// The page can be read.
    pub const R: u8 = 0x02;

    /// The page can be written.
    pub const W: u8 = 0x04;

    /// Instructions can be fetched from the page.
    pub const X: u8 = 0x08;

    /// The page can be accessed in user mode.
    pub const U: u8 = 0x10;

    /// The mapping is global.
    pub const G: u8 = 0x20;

    /// The page was accessed.
    pub const A: u8 = 0x40;

    /// The page was written.
    pub const D: u8 = 0x80;

    /// The set of no flags.
    pub fn empty() -> (r: PTEFlags)
        ensures
            r.bits == 0,
    {
        PTEFlags { bits: 0 }
    }

    /// The set of the flags whose bits are set in `bits`. Every bit is a flag.
    pub fn from_bits(bits: u8) -> (r: Option<PTEFlags>)
        ensures
            r == Some(PTEFlags { bits }),
    {
        Some(PTEFlags { bits })
    }

    /// The set of the flags whose bits are set in `bits`.
    pub fn from_bits_truncate(bits: u8) -> (r: PTEFlags)
        ensures
            r.bits == bits,
    {
        PTEFlags { bits }
    }

    /// The bits of the flags.
    pub fn bits(&self) -> (r: u8)
        ensures
            r == self.bits,
    {
        self.bits
    }

    /// No flag is set.
    pub fn is_empty(&self) -> (r: bool)
        ensures
            r == (self.bits == 0),
    {
        self.bits == 0
    }

    /// The flags that either set holds.
    pub open spec fn spec_union(self, other: PTEFlags) -> PTEFlags {
        PTEFlags { bits: self.bits | other.bits }
    }

    /// The flags that either set holds.
    #[verifier::when_used_as_spec(spec_union)]
    pub fn union(self, other: PTEFlags) -> (r: PTEFlags)
        ensures
            r == self.spec_union(other),
    {
        PTEFlags { bits: self.bits | other.bits }
    }

    /// The flags that both sets hold.
    pub open spec fn spec_intersection(self, other: PTEFlags) -> PTEFlags {
        PTEFlags { bits: self.bits & other.bits }
    }

    /// The flags that both sets hold.
    #[verifier::when_used_as_spec(spec_intersection)]
    pub fn intersection(self, other: PTEFlags) -> (r: PTEFlags)
        ensures
            r == self.spec_intersection(other),
    {
        PTEFlags { bits: self.bits & other.bits }
    }

    /// Every flag of `other` is set.
    pub open spec fn spec_contains(&self, other: PTEFlags) -> bool {
        self.bits & other.bits == other.bits
    }

    /// Every flag of `other` is set.
    #[verifier::when_used_as_spec(spec_contains)]
    pub fn contains(&self, other: PTEFlags) -> (r: bool)
        ensures
            r == self.spec_contains(other),
    {
        self.bits & other.bits == other.bits
    }
}

/// One entry of a page-table node: a physical page number in the bits from
/// 10 up, and the flags in the low 8 bits.
#[derive(Copy, Clone, Debug, PartialEq, Eq, Structural)]
pub struct PageTableEntry {
    pub bits: u64,
}

impl PageTableEntry {
    /// The entry that holds `ppn` and `flags`.
    pub open spec fn spec_new(ppn: PhysPageNum, flags: PTEFlags) -> PageTableEntry {
        PageTableEntry { bits: ppn.0 << 10 | flags.bits as u64 }
    }

    /// The entry that holds `ppn` and `flags`.
    #[verifier::when_used_as_spec(spec_new)]
    pub fn new(ppn: PhysPageNum, flags: PTEFlags) -> (r: PageTableEntry)
        ensures
            r == Self::spec_new(ppn, flags),
    {
        PageTableEntry { bits: ppn.0 << 10 | flags.bits as u64 }
    }

    /// The entry of all zero bits, which is not valid.
    pub fn empty() -> (r: PageTableEntry)
        ensures
            r.bits == 0,
    {
        PageTableEntry { bits: 0 }
    }

    /// The physical page number of the entry.
    pub open spec fn spec_ppn(&self) -> PhysPageNum {
        PhysPageNum((self.bits >> 10) & 0xfff_ffff_ffff)
    }

    /// The physical page number of the entry.
    #[verifier::when_used_as_spec(spec_ppn)]
    pub fn ppn(&self) -> (r: PhysPageNum)
        ensures
            r == self.spec_ppn(),
    {
        PhysPageNum((self.bits >> 10) & 0xfff_ffff_ffff)
    }

    /// The flags of the entry.
    pub open spec fn spec_flags(&self) -> PTEFlags {
        PTEFlags { bits: (self.bits & 0xff) as u8 }
    }

    /// The flags of the entry.
    #[verifier::when_used_as_spec(spec_flags)]
    pub fn flags(&self) -> (r: PTEFlags)
        ensures
            r == self.spec_flags(),
    {
        let bits: u64 = self.bits;
        assert(bits & 0xff < 256) by (bit_vector);
        PTEFlags { bits: (self.bits & 0xff) as u8 }
    }

    /// The valid flag is set.
    pub open spec fn spec_is_valid(&self) -> bool {
        self.bits & 1 == 1
    }

    /// The valid flag is set.
    #[verifier::when_used_as_spec(spec_is_valid)]
    pub fn is_valid(&self) -> (r: bool)
        ensures
            r == self.spec_is_valid(),
    {
        let bits: u64 = self.bits;
        assert(((bits & 0xff) as u8) & 1 != 0 <==> bits & 1 == 1) by (bit_vector);
        !self.flags().intersection(PTEFlags { bits: PTEFlags::V }).is_empty()
    }
}

/// An entry made of a page number and flags holds the low 44 bits of the
/// number and all the flags; it is valid where the valid flag is among them,
/// and the entry of all zero bits is not.
pub proof fn lemma_entry_fields(ppn: PhysPageNum, flags: PTEFlags)
    ensures
        PageTableEntry::new(ppn, flags).ppn().0 == ppn_bits(ppn.0),
        ppn.0 < 0x1000_0000_0000 ==> PageTableEntry::new(ppn, flags).ppn() == ppn,
        PageTableEntry::new(ppn, flags).flags() == flags,
        PageTableEntry::new(ppn, flags).is_valid() <==> flags.contains(PTEFlags { bits: PTEFlags::V }),
        !(PageTableEntry { bits: 0 }).is_valid(),
{
    let p: u64 = ppn.0;
    let f: u8 = flags.bits;
    assert(((p << 10 | f as u64) >> 10) & 0xfff_ffff_ffff == p & 0xfff_ffff_ffff) by (bit_vector);
    assert(p < 0x1000_0000_0000 ==> p & 0xfff_ffff_ffff == p) by (bit_vector);
    assert(((p << 10 | f as u64) & 0xff) as u8 == f) by (bit_vector);
    assert(((p << 10 | f as u64) & 1 == 1) <==> (f & 1 == 1)) by (bit_vector);
    assert(0u64 & 1 != 1) by (bit_vector);
}

/// Why a mapping could not be made.
#[derive(Copy, Clone, Debug, PartialEq, Eq, Structural)]
pub enum MapError {
    /// The virtual page is mapped already.
    AlreadyMapped,
    /// No frame was left for a page-table node or for a page.
    OutOfFrames,
    /// The range of pages is empty, reversed or outside the address space.
    InvalidRange,
}

/// The entry with index `idx` of the node in frame `node`.
pub open spec fn entry_at(mem: &PhysMemory, node: u64, idx: u64) -> PageTableEntry {
    PageTableEntry { bits: mem.word(node, idx as int) }
}

/// The node that entry `idx` of the node in frame `node` leads to: the
/// entry's page number where `node` is a frame of `mem` and the entry is
/// valid.
pub open spec fn child_of(mem: &PhysMemory, node: u64, idx: u64) -> Option<u64> {
    if mem.contains(node) && entry_at(mem, node, idx).is_valid() {
        Some(entry_at(mem, node, idx).ppn().0)
    } else {
        None
    }
}

/// The last-level node that holds the entry of the page `vpn` in the table
/// rooted at `root`, where the walk from the root gets that far.
pub open spec fn leaf_node(mem: &PhysMemory, root: u64, vpn: u64) -> Option<u64> {
    match child_of(mem, root, vpn_index(vpn, 0)) {
        Some(mid) => match child_of(mem, mid, vpn_index(vpn, 1)) {
            Some(last) => if mem.contains(last) {
                Some(last)
            } else {
                None
            },
            None => None,
        },
        None => None,
    }
}

/// The entry that the table rooted at `root` maps the page `vpn` by: the
/// walk passes valid entries only, each in a frame of `mem`, and ends at a
/// valid entry.
pub open spec fn translation(mem: &PhysMemory, root: u64, vpn: u64) -> Option<PageTableEntry> {
    match leaf_node(mem, root, vpn) {
        Some(last) => if entry_at(mem, last, vpn_index(vpn, 2)).is_valid() {
            Some(entry_at(mem, last, vpn_index(vpn, 2)))
        } else {
            None
        },
        None => None,
    }
}

/// The number of nodes that are missing on the walk to the entry of `vpn`.
pub open spec fn missing_nodes(mem: &PhysMemory, root: u64, vpn: u64) -> nat {
    match child_of(mem, root, vpn_index(vpn, 0)) {
        Some(mid) => match child_of(mem, mid, vpn_index(vpn, 1)) {
            Some(last) => 0,
            None => 1,
        },
        None => 2,
    }
}

/// The token of the table rooted at `root`: the SV39 mode tag in the top
/// four bits, and the root's page number.
pub open spec fn token_of(root: u64) -> u64 {
    (8u64 << 60) | root
}

/// The root that a token names: its low 44 bits.
pub open spec fn root_of_token(satp: u64) -> u64 {
    satp & 0xfff_ffff_ffff
}

/// The token of a root of at most 44 bits names that root.
pub proof fn lemma_token_round_trip(root: u64)
    requires
        root < 0x1000_0000_0000,
    ensures
        root_of_token(token_of(root)) == root,
        token_of(root) >> 60 == 8,
{
    assert((((8u64 << 60) | root) & 0xfff_ffff_ffff) == root && (((8u64 << 60) | root) >> 60) == 8)
        by (bit_vector)
        requires
            root < 0x1000_0000_0000,
    ;
}

/// What is known of one node of a table: its level (0 for the root), and
/// the entry that leads to it.
pub struct NodeInfo {
    pub level: int,
    pub parent: u64,
    pub index: u64,
}


/// The two page numbers select the same entries at every level.
pub open spec fn same_page(a: u64, b: u64) -> bool {
    &&& vpn_index(a, 0) == vpn_index(b, 0)
    &&& vpn_index(a, 1) == vpn_index(b, 1)
    &&& vpn_index(a, 2) == vpn_index(b, 2)
}

/// Two page numbers select the same entries exactly when their low 27 bits
/// are the same.
pub proof fn lemma_same_page(a: u64, b: u64)
    ensures
        same_page(a, b) <==> vpn_bits(a) == vpn_bits(b),
{
    assert((((a >> 18) & 511) == ((b >> 18) & 511) && ((a >> 9) & 511) == ((b >> 9) & 511) && (a
        & 511) == (b & 511)) <==> (a & 0x7ff_ffff) == (b & 0x7ff_ffff)) by (bit_vector);
}

/// The nodes recorded in `info` form a tree in `mem` below `root`: every
/// node is a frame of `mem`, the root has level 0, and each valid entry of
/// a node above the last level leads to a recorded node of the next level
/// that no other entry leads to.
pub open spec fn tree_wf(info: Map<u64, NodeInfo>, root: u64, mem: &PhysMemory) -> bool {
    &&& mem.wf()
    &&& info.dom().contains(root)
    &&& info[root].level == 0
    &&& forall|p: u64| #[trigger]
        info.dom().contains(p) ==> mem.contains(p) && 0 <= info[p].level <= 2
    &&& forall|n: u64, idx: u64|
        info.dom().contains(n) && info[n].level < 2 && idx < 512 && (#[trigger] child_of(
            mem,
            n,
            idx,
        )) is Some ==> {
            let c = child_of(mem, n, idx)->0;
            &&& info.dom().contains(c)
            &&& info[c] == (NodeInfo { level: info[n].level + 1, parent: n, index: idx })
        }
}

/// The entry that leads from a node to its child `node`: the child's page
/// number and the valid flag, no other flag.
pub open spec fn link_to(node: u64) -> u64 {
    PageTableEntry::new(PhysPageNum(node), PTEFlags { bits: PTEFlags::V }).bits
}

/// `after` is `before` with one more node: the frame `fresh` is all zero,
/// entry `idx` of `node` is the link to it, and nothing else has changed.
pub open spec fn extended_by_node(
    before: &PhysMemory,
    after: &PhysMemory,
    node: u64,
    idx: u64,
    fresh: u64,
) -> bool {
    &&& after.base() == before.base()
    &&& after.frame_count() == before.frame_count()
    &&& forall|p: u64| p != node && p != fresh ==> #[trigger] after.frame(p) == before.frame(p)
    &&& forall|j: int|
        0 <= j < 512 && j != idx ==> #[trigger] after.word(node, j) == before.word(node, j)
    &&& after.word(node, idx as int) == link_to(fresh)
    &&& after.frame(node) == with_word(before.frame(node), idx as int, link_to(fresh))
    &&& after.frame(fresh) == zero_frame()
}

/// What a walk to the entry of `vpn` that makes the missing nodes leaves in
/// memory. Each node that was missing is a frame of zeroes but for what the
/// walk wrote into it; the entry above it is the link to it; the last
/// node holds `leaf` at the index of `vpn` where `leaf` is given; and no
/// other word of memory has changed.
pub open spec fn walk_made(
    before: &PhysMemory,
    after: &PhysMemory,
    root: u64,
    vpn: u64,
    leaf: Option<u64>,
) -> bool {
    let i0 = vpn_index(vpn, 0);
    let i1 = vpn_index(vpn, 1);
    let i2 = vpn_index(vpn, 2);
    let mid = child_of(after, root, i0)->0;
    let last = child_of(after, mid, i1)->0;
    let missing = missing_nodes(before, root, vpn);
    let mid_start = if missing == 2 {
        zero_frame()
    } else {
        before.frame(mid)
    };
    let last_start = if missing > 0 {
        zero_frame()
    } else {
        before.frame(last)
    };
    &&& after.base() == before.base()
    &&& after.frame_count() == before.frame_count()
    &&& child_of(after, root, i0) is Some
    &&& child_of(after, mid, i1) is Some
    &&& mid != root && last != root && last != mid
    &&& forall|p: u64|
        p != root && p != mid && p != last ==> #[trigger] after.frame(p) == before.frame(p)
    &&& after.frame(root) == if missing == 2 {
        with_word(before.frame(root), i0 as int, link_to(mid))
    } else {
        before.frame(root)
    }
    &&& after.frame(mid) == if missing > 0 {
        with_word(mid_start, i1 as int, link_to(last))
    } else {
        mid_start
    }
    &&& after.frame(last) == match leaf {
        Some(bits) => with_word(last_start, i2 as int, bits),
        None => last_start,
    }
}

/// What a walk that made the `missing` nodes on its way took from the
/// allocator, which went from `a0` to `a1`, and added to the nodes of the
/// table, which went from `n0` to `n1`: one allocation for each node that
/// was missing, the middle node `mid` before the last node `last`, and
/// each new node after the nodes that the table had.
pub open spec fn walk_took(
    a0: FrameAllocatorModel,
    a1: FrameAllocatorModel,
    n0: Seq<u64>,
    n1: Seq<u64>,
    missing: nat,
    mid: u64,
    last: u64,
) -> bool {
    if missing == 0 {
        a1 == a0 && n1 == n0
    } else if missing == 1 {
        a0.allocate() == (a1, Some(last)) && n1 == n0.push(last)
    } else {
        &&& a0.allocate().1 == Some(mid)
        &&& a0.allocate().0.allocate() == (a1, Some(last))
        &&& n1 == n0.push(mid).push(last)
    }
}

/// What a walk to the entry of `vpn` leaves behind when the frames run out
/// before its nodes exist. Where two nodes were missing and one frame was
/// free, that frame has become the first of the two, empty, and is the
/// table's newest node; otherwise nothing has changed.
pub open spec fn walk_cut(
    before: &PhysMemory,
    after: &PhysMemory,
    root: u64,
    vpn: u64,
    a0: FrameAllocatorModel,
    a1: FrameAllocatorModel,
    n0: Seq<u64>,
    n1: Seq<u64>,
) -> bool {
    if missing_nodes(before, root, vpn) == 2 && a0.free_count() == 1 {
        &&& a0.allocate().1 is Some
        &&& a1 == a0.allocate().0
        &&& n1 == n0.push(a0.allocate().1->0)
        &&& extended_by_node(before, after, root, vpn_index(vpn, 0), a0.allocate().1->0)
    } else {
        &&& *after == *before
        &&& a1 == a0
        &&& n1 == n0
    }
}

/// `after` is `before` with entry `idx` of the frame `node` replaced by
/// `bits`.
pub open spec fn entry_replaced(
    before: &PhysMemory,
    after: &PhysMemory,
    node: u64,
    idx: u64,
    bits: u64,
) -> bool {
    &&& after.agrees_except(before, node)
    &&& forall|j: int|
        0 <= j < 512 && j != idx ==> #[trigger] after.word(node, j) == before.word(node, j)
    &&& after.word(node, idx as int) == bits
}

/// Adding an empty node to a tree gives a tree that translates every page
/// as before.
pub proof fn lemma_extended_by_node(
    info: Map<u64, NodeInfo>,
    root: u64,
    before: &PhysMemory,
    after: &PhysMemory,
    node: u64,
    idx: u64,
    fresh: u64,
)
    requires
        tree_wf(info, root, before),
        info.dom().contains(node),
        info[node].level < 2,
        idx < 512,
        child_of(before, node, idx) is None,
        !info.dom().contains(fresh),
        before.contains(fresh),
        after.wf(),
        extended_by_node(before, after, node, idx, fresh),
    ensures
        tree_wf(
            info.insert(fresh, NodeInfo { level: info[node].level + 1, parent: node, index: idx }),
            root,
            after,
        ),
        child_of(after, node, idx) == Some(fresh),
        forall|j: u64| j < 512 ==> (#[trigger] child_of(after, fresh, j)) is None,
        forall|n: u64, j: u64|
            info.dom().contains(n) && j < 512 && !(n == node && j == idx) ==> #[trigger] child_of(
                after,
                n,
                j,
            ) == child_of(before, n, j),
        forall|n: u64, j: u64|
            info.dom().contains(n) && j < 512 && !(n == node && j == idx) ==> #[trigger] entry_at(
                after,
                n,
                j,
            ) == entry_at(before, n, j),
        forall|v: u64| #[trigger] translation(after, root, v) == translation(before, root, v),
{
    let info2 = info.insert(
        fresh,
        NodeInfo { level: info[node].level + 1, parent: node, index: idx },
    );
    before.lemma_frame_len(fresh);
    lemma_entry_fields(PhysPageNum(fresh), PTEFlags { bits: PTEFlags::V });
    assert(1u8 & 1u8 == 1u8) by (bit_vector);
    assert(child_of(after, node, idx) == Some(fresh));
    assert forall|j: u64| j < 512 implies (#[trigger] child_of(after, fresh, j)) is None by {
        crate::mm::memory::lemma_zero_frame_words(j as int);
    }
    assert forall|n: u64, j: u64|
        info.dom().contains(n) && j < 512 && !(n == node && j == idx) implies #[trigger] entry_at(
        after,
        n,
        j,
    ) == entry_at(before, n, j) by {
        if n != node {
            assert(after.frame(n) == before.frame(n));
        }
    }
    assert forall|n: u64, j: u64|
        info.dom().contains(n) && j < 512 && !(n == node && j == idx) implies #[trigger] child_of(
        after,
        n,
        j,
    ) == child_of(before, n, j) by {
        assert(entry_at(after, n, j) == entry_at(before, n, j));
    }
    assert forall|n: u64, j: u64|
        info2.dom().contains(n) && info2[n].level < 2 && j < 512 && (#[trigger] child_of(
            after,
            n,
            j,
        )) is Some implies ({
        let c = child_of(after, n, j)->0;
        &&& info2.dom().contains(c)
        &&& info2[c] == (NodeInfo { level: info2[n].level + 1, parent: n, index: j })
    }) by {
        if n == fresh {
            assert(child_of(after, fresh, j) is None);
        } else if n == node && j == idx {
        } else {
            assert(child_of(after, n, j) == child_of(before, n, j));
        }
    }
    assert forall|v: u64| #[trigger] translation(after, root, v) == translation(before, root, v) by {
        lemma_index_bound(v);
        let i0 = vpn_index(v, 0);
        let i1 = vpn_index(v, 1);
        let i2 = vpn_index(v, 2);
        if root == node && i0 == idx {
            assert(child_of(after, fresh, i1) is None);
        } else {
            assert(child_of(after, root, i0) == child_of(before, root, i0));
            if child_of(before, root, i0) is Some {
                let c1 = child_of(before, root, i0)->0;
                if c1 == node && i1 == idx {
                    assert(child_of(after, fresh, i2) is None);
                } else {
                    assert(child_of(after, c1, i1) == child_of(before, c1, i1));
                    if child_of(before, c1, i1) is Some {
                        let c2 = child_of(before, c1, i1)->0;
                        assert(info[c2].level == 2);
                        assert(entry_at(after, c2, i2) == entry_at(before, c2, i2));
                    }
                }
            }
        }
    }
}

/// Replacing the entry of the page `vpn` in its last-level node keeps the
/// tree, changes the translation of that page and of no other.
pub proof fn lemma_entry_replaced(
    info: Map<u64, NodeInfo>,
    root: u64,
    before: &PhysMemory,
    after: &PhysMemory,
    vpn: u64,
    bits: u64,
)
    requires
        tree_wf(info, root, before),
        leaf_node(before, root, vpn) is Some,
        after.wf(),
        entry_replaced(before, after, leaf_node(before, root, vpn)->0, vpn_index(vpn, 2), bits),
    ensures
        tree_wf(info, root, after),
        forall|n: u64, j: u64|
            info.dom().contains(n) && info[n].level < 2 && j < 512 ==> #[trigger] child_of(
                after,
                n,
                j,
            ) == child_of(before, n, j),
        forall|v: u64|
            #[trigger] translation(after, root, v) == if same_page(v, vpn) {
                if (PageTableEntry { bits }).is_valid() {
                    Some(PageTableEntry { bits })
                } else {
                    None
                }
            } else {
                translation(before, root, v)
            },
{
    lemma_index_bound(vpn);
    let last = leaf_node(before, root, vpn)->0;
    let mid = child_of(before, root, vpn_index(vpn, 0))->0;
    assert(child_of(before, mid, vpn_index(vpn, 1)) == Some(last));
    assert(info[last].level == 2);
    assert forall|n: u64, j: u64|
        info.dom().contains(n) && info[n].level < 2 && j < 512 implies #[trigger] child_of(
        after,
        n,
        j,
    ) == child_of(before, n, j) by {
        assert(after.frame(n) == before.frame(n));
    }
    assert forall|v: u64|
        #[trigger] translation(after, root, v) == if same_page(v, vpn) {
            if (PageTableEntry { bits }).is_valid() {
                Some(PageTableEntry { bits })
            } else {
                None
            }
        } else {
            translation(before, root, v)
        } by {
        lemma_index_bound(v);
        let i0 = vpn_index(v, 0);
        let i1 = vpn_index(v, 1);
        let i2 = vpn_index(v, 2);
        assert(child_of(after, root, i0) == child_of(before, root, i0));
        if child_of(before, root, i0) is Some {
            let c1 = child_of(before, root, i0)->0;
            assert(child_of(after, c1, i1) == child_of(before, c1, i1));
            if child_of(before, c1, i1) is Some {
                let c2 = child_of(before, c1, i1)->0;
                if c2 != last {
                    assert(after.frame(c2) == before.frame(c2));
                }
            }
        }
    }
}

/// A tree translates alike in two memories that hold the same bytes in the
/// frames of its nodes.
pub proof fn lemma_tree_depends_on_nodes(
    info: Map<u64, NodeInfo>,
    root: u64,
    before: &PhysMemory,
    after: &PhysMemory,
)
    requires
        tree_wf(info, root, before),
        after.wf(),
        after.base() == before.base(),
        after.frame_count() == before.frame_count(),
        forall|p: u64| info.dom().contains(p) ==> #[trigger] after.frame(p) == before.frame(p),
    ensures
        tree_wf(info, root, after),
        forall|v: u64| #[trigger] translation(after, root, v) == translation(before, root, v),
        forall|v: u64| #[trigger] missing_nodes(after, root, v) == missing_nodes(before, root, v),
{
    assert forall|n: u64, j: u64| info.dom().contains(n) implies #[trigger] child_of(after, n, j)
        == child_of(before, n, j) by {
        assert(after.frame(n) == before.frame(n));
    }
    assert forall|v: u64| #[trigger] translation(after, root, v) == translation(before, root, v) by {
        lemma_index_bound(v);
        let i0 = vpn_index(v, 0);
        let i1 = vpn_index(v, 1);
        assert(child_of(after, root, i0) == child_of(before, root, i0));
        if child_of(before, root, i0) is Some {
            let c1 = child_of(before, root, i0)->0;
            assert(child_of(after, c1, i1) == child_of(before, c1, i1));
            if child_of(before, c1, i1) is Some {
                let c2 = child_of(before, c1, i1)->0;
                assert(after.frame(c2) == before.frame(c2));
            }
        }
    }
    assert forall|v: u64| #[trigger]
        missing_nodes(after, root, v) == missing_nodes(before, root, v) by {
        lemma_index_bound(v);
        let i0 = vpn_index(v, 0);
        let i1 = vpn_index(v, 1);
        assert(child_of(after, root, i0) == child_of(before, root, i0));
        if child_of(before, root, i0) is Some {
            let c1 = child_of(before, root, i0)->0;
            assert(child_of(after, c1, i1) == child_of(before, c1, i1));
        }
    }
}

/// The two page numbers select the same entry of the root, so that their
/// entries lie below the same middle node.
pub open spec fn same_mid(a: u64, b: u64) -> bool {
    vpn_index(a, 0) == vpn_index(b, 0)
}

/// The two page numbers select the same entries of the root and of the
/// middle node, so that their entries lie in the same last-level node.
pub open spec fn same_last(a: u64, b: u64) -> bool {
    vpn_index(a, 0) == vpn_index(b, 0) && vpn_index(a, 1) == vpn_index(b, 1)
}

/// The number of nodes that are missing on the walk to the entry of `w`
/// after the page `vpn` was mapped, where `before` were missing before: the
/// nodes that the two walks share exist now.
pub open spec fn missing_after_map(before: nat, vpn: u64, w: u64) -> nat {
    if same_last(vpn, w) {
        0
    } else if same_mid(vpn, w) {
        if before < 1 {
            before
        } else {
            1
        }
    } else {
        before
    }
}

/// The nodes that are missing on any walk after the nodes on the walk to
/// the entry of `vpn` were made.
pub proof fn lemma_missing_after_map(
    info0: Map<u64, NodeInfo>,
    info1: Map<u64, NodeInfo>,
    root: u64,
    m0: &PhysMemory,
    m1: &PhysMemory,
    m2: &PhysMemory,
    vpn: u64,
    mid: u64,
)
    requires
        tree_wf(info0, root, m0),
        tree_wf(info1, root, m1),
        forall|p: u64| info0.dom().contains(p) ==> info1.dom().contains(p) && info1[p] == info0[p],
        child_of(m1, root, vpn_index(vpn, 0)) == Some(mid),
        forall|n: u64, j: u64|
            info0.dom().contains(n) && j < 512 && !(n == root && j == vpn_index(vpn, 0))
                ==> #[trigger] child_of(m1, n, j) == child_of(m0, n, j),
        child_of(m0, root, vpn_index(vpn, 0)) is None ==> forall|j: u64|
            j < 512 ==> (#[trigger] child_of(m1, mid, j)) is None,
        child_of(m0, root, vpn_index(vpn, 0)) is Some ==> child_of(m0, root, vpn_index(vpn, 0))
            == Some(mid),
        forall|n: u64, j: u64|
            info1.dom().contains(n) && j < 512 && !(n == mid && j == vpn_index(vpn, 1))
                ==> #[trigger] child_of(m2, n, j) == child_of(m1, n, j),
        child_of(m2, mid, vpn_index(vpn, 1)) is Some,
    ensures
        forall|w: u64|
            #[trigger] missing_nodes(m2, root, w) == missing_after_map(
                missing_nodes(m0, root, w),
                vpn,
                w,
            ),
{
    lemma_index_bound(vpn);
    let i0 = vpn_index(vpn, 0);
    let i1 = vpn_index(vpn, 1);
    assert(info1.dom().contains(mid) && info1[mid].level == 1 && info1[mid].index == i0);
    assert(mid != root);
    assert forall|w: u64|
        #[trigger] missing_nodes(m2, root, w) == missing_after_map(
            missing_nodes(m0, root, w),
            vpn,
            w,
        ) by {
        lemma_index_bound(w);
        let j0 = vpn_index(w, 0);
        let j1 = vpn_index(w, 1);
        assert(child_of(m2, root, j0) == child_of(m1, root, j0));
        if j0 == i0 {
            if j1 != i1 {
                assert(child_of(m2, mid, j1) == child_of(m1, mid, j1));
                if child_of(m0, root, i0) is Some {
                    assert(info0.dom().contains(mid));
                    assert(child_of(m1, mid, j1) == child_of(m0, mid, j1));
                }
            }
        } else {
            assert(child_of(m1, root, j0) == child_of(m0, root, j0));
            if child_of(m0, root, j0) is Some {
                let c = child_of(m0, root, j0)->0;
                assert(info0.dom().contains(c) && info0[c].index == j0);
                assert(info1[c] == info0[c]);
                assert(c != mid);
                assert(c != root);
                assert(child_of(m2, c, j1) == child_of(m1, c, j1));
                assert(child_of(m1, c, j1) == child_of(m0, c, j1));
            }
        }
    }
}

/// No node comes to be missing, or to be there, where the valid entries of
/// the nodes above the last level lead where they led.
pub proof fn lemma_missing_kept(
    info: Map<u64, NodeInfo>,
    root: u64,
    before: &PhysMemory,
    after: &PhysMemory,
)
    requires
        tree_wf(info, root, before),
        forall|n: u64, j: u64|
            info.dom().contains(n) && info[n].level < 2 && j < 512 ==> #[trigger] child_of(
                after,
                n,
                j,
            ) == child_of(before, n, j),
    ensures
        forall|w: u64| #[trigger] missing_nodes(after, root, w) == missing_nodes(before, root, w),
{
    assert forall|w: u64| #[trigger]
        missing_nodes(after, root, w) == missing_nodes(before, root, w) by {
        lemma_index_bound(w);
        let i0 = vpn_index(w, 0);
        let i1 = vpn_index(w, 1);
        assert(child_of(after, root, i0) == child_of(before, root, i0));
        if child_of(before, root, i0) is Some {
            let c1 = child_of(before, root, i0)->0;
            assert(child_of(after, c1, i1) == child_of(before, c1, i1));
        }
    }
}

/// A three-level page table. It owns the frames of its nodes; a table made
/// from a token owns none and can only be read.
pub struct PageTable {
    root_ppn: PhysPageNum,
    frames: Vec<FrameTracker>,
    info: Ghost<Map<u64, NodeInfo>>,
}

impl PageTable {
    /// The page number of the root node.
    pub closed spec fn root(&self) -> u64 {
        self.root_ppn.0
    }

    /// The page numbers of the frames that the table owns, the root first.
    pub closed spec fn nodes(&self) -> Seq<u64> {
        self.frames@.map_values(|f: FrameTracker| f.ppn.0)
    }

    /// The table owns its root, its nodes are pairwise distinct frames of
    /// `mem`, and they form a tree in `mem`.
    pub closed spec fn wf(&self, mem: &PhysMemory) -> bool {
        &&& tree_wf(self.info@, self.root(), mem)
        &&& self.nodes().len() >= 1
        &&& self.nodes()[0] == self.root()
        &&& self.nodes().no_duplicates()
        &&& forall|p: u64| self.info@.dom().contains(p) <==> self.nodes().contains(p)
    }

    /// Every frame that the table owns is in use in the allocator `a`.
    pub open spec fn frames_allocated(&self, a: FrameAllocatorModel) -> bool {
        forall|k: int| 0 <= k < self.nodes().len() ==> a.is_allocated(#[trigger] self.nodes()[k])
    }

    /// What the table changed when it went from `before` to `self`, with the
    /// allocator going from `a0` to `a1` and memory from `m0` to `m1`: it
    /// kept its root and its nodes and added freshly allocated ones, and
    /// touched no frame but those of its nodes.
    pub open spec fn grown_from(
        &self,
        before: &PageTable,
        a0: FrameAllocatorModel,
        a1: FrameAllocatorModel,
        m0: &PhysMemory,
        m1: &PhysMemory,
    ) -> bool {
        &&& self.root() == before.root()
        &&& before.nodes().len() <= self.nodes().len()
        &&& self.nodes().subrange(0, before.nodes().len() as int) == before.nodes()
        &&& forall|k: int|
            before.nodes().len() <= k < self.nodes().len() ==> !a0.is_allocated(
                #[trigger] self.nodes()[k],
            ) && a0.is_free(self.nodes()[k])
        &&& forall|p: u64|
            #[trigger] a1.is_allocated(p) <==> a0.is_allocated(p) || self.nodes().contains(p)
        &&& forall|p: u64| #[trigger] a1.is_free(p) ==> a0.is_free(p)
        &&& a1.free_count() == a0.free_count() - (self.nodes().len() - before.nodes().len())
        &&& m1.base() == m0.base()
        &&& m1.frame_count() == m0.frame_count()
        &&& forall|p: u64| !self.nodes().contains(p) ==> #[trigger] m1.frame(p) == m0.frame(p)
    }

    /// The nodes of a well-formed table: the root first, pairwise distinct,
    /// each a frame of `mem`.
    pub proof fn lemma_nodes(&self, mem: &PhysMemory)
        requires
            self.wf(mem),
        ensures
            mem.wf(),
            self.nodes().len() >= 1,
            self.nodes()[0] == self.root(),
            self.nodes().no_duplicates(),
            forall|k: int| 0 <= k < self.nodes().len() ==> mem.contains(#[trigger] self.nodes()[k]),
    {
        assert forall|k: int| 0 <= k < self.nodes().len() implies mem.contains(
            #[trigger] self.nodes()[k],
        ) by {
            assert(self.nodes().contains(self.nodes()[k]));
            assert(self.info@.dom().contains(self.nodes()[k]));
        }
    }

    /// The words that a walk to the entry of `vpn` leaves in the nodes it
    /// passes: the entry above each new node is the link to it, with the valid
    /// flag and no other; every other entry of a new node is zero, but for
    /// `leaf` in the last one; every other entry of a node that was there is
    /// as it was.
    pub proof fn lemma_walk_made(
        &self,
        before: &PhysMemory,
        after: &PhysMemory,
        vpn: u64,
        leaf: Option<u64>,
    )
        requires
            self.wf(before),
            walk_made(before, after, self.root(), vpn, leaf),
        ensures
            ({
                let root = self.root();
                let i0 = vpn_index(vpn, 0);
                let i1 = vpn_index(vpn, 1);
                let i2 = vpn_index(vpn, 2);
                let mid = child_of(after, root, i0)->0;
                let last = child_of(after, mid, i1)->0;
                let missing = missing_nodes(before, root, vpn);
                &&& missing == 2 ==> entry_at(after, root, i0) == PageTableEntry::new(
                    PhysPageNum(mid),
                    PTEFlags { bits: PTEFlags::V },
                ) && entry_at(after, root, i0).flags() == (PTEFlags { bits: PTEFlags::V })
                &&& missing > 0 ==> entry_at(after, mid, i1) == PageTableEntry::new(
                    PhysPageNum(last),
                    PTEFlags { bits: PTEFlags::V },
                ) && entry_at(after, mid, i1).flags() == (PTEFlags { bits: PTEFlags::V })
                &&& leaf matches Some(bits) ==> after.word(last, i2 as int) == bits
                &&& forall|j: int|
                    0 <= j < 512 && j != i0 ==> #[trigger] after.word(root, j) == before.word(root, j)
                &&& forall|j: int|
                    0 <= j < 512 && j != i1 ==> #[trigger] after.word(mid, j) == if missing == 2 {
                        0
                    } else {
                        before.word(mid, j)
                    }
                &&& forall|j: int|
                    0 <= j < 512 && !(j == i2 && leaf is Some) ==> #[trigger] after.word(last, j)
                        == if missing > 0 {
                        0
                    } else {
                        before.word(last, j)
                    }
            }),
    {
        lemma_index_bound(vpn);
        let root = self.root();
        let i0 = vpn_index(vpn, 0);
        let i1 = vpn_index(vpn, 1);
        let i2 = vpn_index(vpn, 2);
        let mid = child_of(after, root, i0)->0;
        let last = child_of(after, mid, i1)->0;
        let missing = missing_nodes(before, root, vpn);
        lemma_entry_fields(PhysPageNum(mid), PTEFlags { bits: PTEFlags::V });
        lemma_entry_fields(PhysPageNum(last), PTEFlags { bits: PTEFlags::V });
        before.lemma_frame_len(root);
        lemma_with_word(before.frame(root), i0 as int, link_to(mid));
        let mid_start = if missing == 2 {
            zero_frame()
        } else {
            before.frame(mid)
        };
        let last_start = if missing > 0 {
            zero_frame()
        } else {
            before.frame(last)
        };
        if missing < 2 {
            assert(child_of(before, root, i0) == Some(mid));
            assert(self.info@.dom().contains(mid) && self.info@[mid].level == 1);
            before.lemma_frame_len(mid);
        }
        if missing == 0 {
            assert(child_of(before, mid, i1) == Some(last));
            assert(self.info@.dom().contains(last));
            before.lemma_frame_len(last);
        }
        assert(mid_start.len() == 4096);
        assert(last_start.len() == 4096);
        lemma_with_word(mid_start, i1 as int, link_to(last));
        if leaf is Some {
            lemma_with_word(last_start, i2 as int, leaf->0);
        }
        assert forall|j: int| 0 <= j < 512 implies word_at(zero_frame(), j) == 0 by {
            crate::mm::memory::lemma_zero_frame_words(j);
        }
    }

    /// A table stays well-formed, and translates every page as before, when
    /// memory changes outside the frames of its nodes.
    pub proof fn lemma_unchanged_nodes(&self, before: &PhysMemory, after: &PhysMemory)
        requires
            self.wf(before),
            after.wf(),
            after.base() == before.base(),
            after.frame_count() == before.frame_count(),
            forall|k: int|
                0 <= k < self.nodes().len() ==> after.frame(#[trigger] self.nodes()[k])
                    == before.frame(self.nodes()[k]),
        ensures
            self.wf(after),
            forall|v: u64|
                #[trigger] translation(after, self.root(), v) == translation(
                    before,
                    self.root(),
                    v,
                ),
            forall|v: u64|
                #[trigger] missing_nodes(after, self.root(), v) == missing_nodes(
                    before,
                    self.root(),
                    v,
                ),
    {
        assert forall|p: u64| self.info@.dom().contains(p) implies #[trigger] after.frame(p)
            == before.frame(p) by {
            assert(self.nodes().contains(p));
            let k = choose|k: int| 0 <= k < self.nodes().len() && self.nodes()[k] == p;
            assert(after.frame(self.nodes()[k]) == before.frame(self.nodes()[k]));
        }
        lemma_tree_depends_on_nodes(self.info@, self.root(), before, after);
    }

    /// An empty table with a freshly allocated root; nothing when no frame
    /// is left.
    pub fn new(allocator: &mut StackFrameAllocator, mem: &mut PhysMemory) -> (r: Option<Self>)
        requires
            old(allocator)@.wf(),
            old(allocator)@.covered_by(old(mem)),
            old(mem).wf(),
        ensures
            final(allocator)@ == old(allocator)@.allocate().0,
            final(allocator)@.wf(),
            final(allocator)@.covered_by(final(mem)),
            final(mem).wf(),
            match old(allocator)@.allocate().1 {
                Some(root) => {
                    &&& r matches Some(table)
                    &&& table.root() == root
                    &&& table.nodes() == seq![root]
                    &&& table.wf(final(mem))
                    &&& table.frames_allocated(final(allocator)@)
                    &&& final(mem).agrees_except(old(mem), root)
                    &&& final(mem).frame(root) == zero_frame()
                    &&& forall|v: u64| (#[trigger] translation(final(mem), root, v)) is None
                    &&& forall|v: u64| #[trigger] missing_nodes(final(mem), root, v) == 2
                },
                None => r is None && *final(mem) == *old(mem),
            },
    {
        proof {
            crate::mm::frame_allocator::lemma_allocate(allocator@);
        }
        match frame_alloc(allocator, mem) {
            None => None,
            Some(frame) => {
                let root = frame.ppn;
                let mut frames: Vec<FrameTracker> = Vec::new();
                frames.push(frame);
                let table = PageTable {
                    root_ppn: root,
                    frames,
                    info: Ghost(
                        Map::<u64, NodeInfo>::empty().insert(
                            root.0,
                            NodeInfo { level: 0, parent: 0, index: 0 },
                        ),
                    ),
                };
                proof {
                    assert(table.nodes() =~= seq![root.0]);
                    assert forall|j: u64| j < 512 implies (#[trigger] child_of(mem, root.0, j))
                        is None by {
                        crate::mm::memory::lemma_zero_frame_words(j as int);
                        lemma_entry_fields(root, PTEFlags { bits: 0 });
                    }
                    assert forall|p: u64|
                        table.info@.dom().contains(p) <==> table.nodes().contains(p) by {
                        if p == root.0 {
                            assert(table.nodes()[0] == p);
                        }
                    }
                    assert forall|v: u64| (#[trigger] translation(mem, root.0, v)) is None by {
                        lemma_index_bound(v);
                    }
                    assert forall|v: u64| #[trigger] missing_nodes(mem, root.0, v) == 2 by {
                        lemma_index_bound(v);
                    }
                }
                Some(table)
            },
        }
    }

    /// The node that entry `idx` of `node` leads to, made first where the
    /// entry is not valid; nothing when no frame is left for it.
    fn ensure_child(
        &mut self,
        allocator: &mut StackFrameAllocator,
        mem: &mut PhysMemory,
        node: PhysPageNum,
        idx: usize,
    ) -> (r: Option<PhysPageNum>)
        requires
            old(self).wf(old(mem)),
            old(allocator)@.wf(),
            old(allocator)@.covered_by(old(mem)),
            old(self).frames_allocated(old(allocator)@),
            old(self).info@.dom().contains(node.0),
            old(self).info@[node.0].level < 2,
            idx < 512,
        ensures
            final(self).wf(final(mem)),
            final(allocator)@.wf(),
            final(allocator)@.covered_by(final(mem)),
            final(self).frames_allocated(final(allocator)@),
            final(self).grown_from(
                old(self),
                old(allocator)@,
                final(allocator)@,
                old(mem),
                final(mem),
            ),
            forall|v: u64|
                #[trigger] translation(final(mem), final(self).root(), v) == translation(
                    old(mem),
                    old(self).root(),
                    v,
                ),
            forall|n: u64, j: u64|
                old(self).info@.dom().contains(n) && j < 512 && !(n == node.0 && j == idx)
                    ==> #[trigger] child_of(final(mem), n, j) == child_of(old(mem), n, j),
            forall|p: u64| old(self).info@.dom().contains(p) ==> final(self).info@.dom().contains(p)
                && final(self).info@[p] == old(self).info@[p],
            match child_of(old(mem), node.0, idx as u64) {
                Some(c) => {
                    &&& r == Some(PhysPageNum(c))
                    &&& final(self).nodes() == old(self).nodes()
                    &&& *final(mem) == *old(mem)
                    &&& final(allocator)@ == old(allocator)@
                },
                None => match old(allocator)@.allocate().1 {
                    Some(f) => {
                        &&& r == Some(PhysPageNum(f))
                        &&& final(allocator)@ == old(allocator)@.allocate().0
                        &&& final(self).nodes() == old(self).nodes().push(f)
                        &&& child_of(final(mem), node.0, idx as u64) == Some(f)
                        &&& extended_by_node(old(mem), final(mem), node.0, idx as u64, f)
                        &&& f != node.0
                        &&& !old(self).nodes().contains(f)
                        &&& final(self).info@[f].level == old(self).info@[node.0].level + 1
                        &&& forall|j: u64| j < 512 ==> (#[trigger] child_of(final(mem), f, j)) is None
                    },
                    None => {
                        &&& r is None
                        &&& final(self).nodes() == old(self).nodes()
                        &&& *final(mem) == *old(mem)
                        &&& final(allocator)@ == old(allocator)@
                    },
                },
            },
    {
        proof {
            crate::mm::frame_allocator::lemma_allocate(allocator@);
            assert(old(self).nodes().subrange(0, old(self).nodes().len() as int) =~= old(
                self,
            ).nodes());
        }
        let pte = PageTableEntry { bits: mem.read_word(node, idx) };
        if pte.is_valid() {
            return Some(pte.ppn());
        }
        match frame_alloc(allocator, mem) {
            None => None,
            Some(frame) => {
                let child = frame.ppn;
                let ghost mem1 = *mem;
                proof {
                    assert(old(self).nodes().contains(node.0));
                    assert(child.0 != node.0) by {
                        let k = choose|k: int|
                            0 <= k < old(self).nodes().len() && old(self).nodes()[k] == node.0;
                        assert(old(allocator)@.is_allocated(old(self).nodes()[k]));
                    }
                    assert(mem1.frame(node.0) == old(mem).frame(node.0));
                }
                let entry = PageTableEntry::new(child, PTEFlags::from_bits_truncate(PTEFlags::V));
                mem.write_word(node, idx, entry.bits);
                self.frames.push(frame);
                self.info = Ghost(
                    self.info@.insert(
                        child.0,
                        NodeInfo {
                            level: self.info@[node.0].level + 1,
                            parent: node.0,
                            index: idx as u64,
                        },
                    ),
                );
                proof {
                    let f = child.0;
                    assert(self.nodes() =~= old(self).nodes().push(f));
                    assert(!old(self).info@.dom().contains(f)) by {
                        if old(self).nodes().contains(f) {
                            let k = choose|k: int|
                                0 <= k < old(self).nodes().len() && old(self).nodes()[k] == f;
                            assert(old(allocator)@.is_allocated(old(self).nodes()[k]));
                        }
                    }
                    assert(extended_by_node(old(mem), mem, node.0, idx as u64, f)) by {
                        assert forall|p: u64| p != node.0 && p != f implies #[trigger] mem.frame(p)
                            == old(mem).frame(p) by {
                            assert(mem.frame(p) == mem1.frame(p));
                            assert(mem1.frame(p) == old(mem).frame(p));
                        }
                        assert(mem.frame(f) == mem1.frame(f));
                    }
                    lemma_extended_by_node(
                        old(self).info@,
                        self.root(),
                        old(mem),
                        mem,
                        node.0,
                        idx as u64,
                        f,
                    );
                    assert forall|p: u64|
                        self.info@.dom().contains(p) <==> self.nodes().contains(p) by {
                        if self.nodes().contains(p) {
                            let k = choose|k: int| 0 <= k < self.nodes().len() && self.nodes()[k] == p;
                            if k < old(self).nodes().len() {
                                assert(old(self).nodes()[k] == p);
                                assert(old(self).nodes().contains(p));
                            }
                        }
                        if old(self).nodes().contains(p) {
                            let k = choose|k: int|
                                0 <= k < old(self).nodes().len() && old(self).nodes()[k] == p;
                            assert(self.nodes()[k] == p);
                        }
                        if p == f {
                            assert(self.nodes()[old(self).nodes().len() as int] == f);
                        }
                    }
                    assert(self.nodes().no_duplicates()) by {
                        assert forall|i: int, j: int|
                            0 <= i < self.nodes().len() && 0 <= j < self.nodes().len() && i
                                != j implies self.nodes()[i] != self.nodes()[j] by {
                            let n = old(self).nodes().len() as int;
                            if i < n {
                                assert(old(self).nodes()[i] == self.nodes()[i]);
                                assert(old(self).nodes().contains(self.nodes()[i]));
                            }
                            if j < n {
                                assert(old(self).nodes()[j] == self.nodes()[j]);
                                assert(old(self).nodes().contains(self.nodes()[j]));
                            }
                        }
                    }
                    assert(self.nodes()[0] == old(self).nodes()[0]);
                    assert(self.nodes().subrange(0, old(self).nodes().len() as int) =~= old(
                        self,
                    ).nodes());
                    assert forall|k: int| 0 <= k < self.nodes().len() implies allocator@.is_allocated(
                        #[trigger] self.nodes()[k],
                    ) by {
                        if k < old(self).nodes().len() {
                            assert(old(allocator)@.is_allocated(old(self).nodes()[k]));
                        }
                    }
                    assert forall|p: u64| #[trigger]
                        allocator@.is_allocated(p) <==> old(allocator)@.is_allocated(p)
                            || self.nodes().contains(p) by {
                        if self.nodes().contains(p) {
                            let k = choose|k: int| 0 <= k < self.nodes().len() && self.nodes()[k] == p;
                            assert(allocator@.is_allocated(self.nodes()[k]));
                        }
                        if p == f {
                            assert(self.nodes()[old(self).nodes().len() as int] == f);
                        }
                    }
                    assert forall|p: u64| !self.nodes().contains(p) implies #[trigger] mem.frame(p)
                        == old(mem).frame(p) by {
                        assert(self.nodes()[old(self).nodes().len() as int] == f);
                        assert(self.info@.dom().contains(node.0));
                    }
                }
                Some(child)
            },
        }
    }

    /// The place of the entry of `vpn`, after the nodes that were missing
    /// on the way to it were made; nothing when the frames ran out.
    fn find_pte_create(
        &mut self,
        allocator: &mut StackFrameAllocator,
        mem: &mut PhysMemory,
        vpn: VirtPageNum,
    ) -> (r: Option<(PhysPageNum, usize)>)
        requires
            old(self).wf(old(mem)),
            old(allocator)@.wf(),
            old(allocator)@.covered_by(old(mem)),
            old(self).frames_allocated(old(allocator)@),
        ensures
            final(self).wf(final(mem)),
            final(allocator)@.wf(),
            final(allocator)@.covered_by(final(mem)),
            final(self).frames_allocated(final(allocator)@),
            final(self).grown_from(
                old(self),
                old(allocator)@,
                final(allocator)@,
                old(mem),
                final(mem),
            ),
            forall|v: u64|
                #[trigger] translation(final(mem), final(self).root(), v) == translation(
                    old(mem),
                    old(self).root(),
                    v,
                ),
            missing_nodes(old(mem), old(self).root(), vpn.0) == 0 ==> {
                &&& final(self).nodes() == old(self).nodes()
                &&& *final(mem) == *old(mem)
                &&& final(allocator)@ == old(allocator)@
            },
            match r {
                Some((last, i2)) => {
                    &&& leaf_node(final(mem), final(self).root(), vpn.0) == Some(last.0)
                    &&& i2 == vpn_index(vpn.0, 2)
                    &&& final(self).nodes().len() == old(self).nodes().len() + missing_nodes(
                        old(mem),
                        old(self).root(),
                        vpn.0,
                    )
                    &&& forall|w: u64|
                        #[trigger] missing_nodes(final(mem), final(self).root(), w)
                            == missing_after_map(
                            missing_nodes(old(mem), old(self).root(), w),
                            vpn.0,
                            w,
                        )
                    &&& walk_made(old(mem), final(mem), old(self).root(), vpn.0, None)
                    &&& walk_took(
                        old(allocator)@,
                        final(allocator)@,
                        old(self).nodes(),
                        final(self).nodes(),
                        missing_nodes(old(mem), old(self).root(), vpn.0),
                        child_of(final(mem), old(self).root(), vpn_index(vpn.0, 0))->0,
                        last.0,
                    )
                },
                None => {
                    &&& missing_nodes(old(mem), old(self).root(), vpn.0) > old(
                        allocator,
                    )@.free_count()
                    &&& walk_cut(
                        old(mem),
                        final(mem),
                        old(self).root(),
                        vpn.0,
                        old(allocator)@,
                        final(allocator)@,
                        old(self).nodes(),
                        final(self).nodes(),
                    )
                },
            },
    {
        proof {
            lemma_index_bound(vpn.0);
            crate::mm::frame_allocator::lemma_allocate(allocator@);
        }
        let idxs = vpn.indexes();
        let root = self.root_ppn;
        let mid = match self.ensure_child(allocator, mem, root, idxs[0]) {
            Some(mid) => mid,
            None => {
                return None;
            },
        };
        let ghost table1 = *self;
        let ghost mem1 = *mem;
        let ghost alloc1 = allocator@;
        proof {
            crate::mm::frame_allocator::lemma_allocate(alloc1);
            assert(child_of(&mem1, root.0, vpn_index(vpn.0, 0)) == Some(mid.0));
            assert(table1.info@.dom().contains(mid.0) && table1.info@[mid.0].level == 1);
            assert(old(self).nodes().contains(root.0));
            assert(table1.nodes().contains(root.0));
            assert(table1.nodes().contains(mid.0));
        }
        let last = match self.ensure_child(allocator, mem, mid, idxs[1]) {
            Some(last) => last,
            None => {
                proof {
                    self.lemma_grown_twice(
                        &table1,
                        old(self),
                        old(allocator)@,
                        alloc1,
                        allocator@,
                        old(mem),
                        &mem1,
                        mem,
                    );
                }
                return None;
            },
        };
        proof {
            self.lemma_grown_twice(
                &table1,
                old(self),
                old(allocator)@,
                alloc1,
                allocator@,
                old(mem),
                &mem1,
                mem,
            );
            assert(child_of(mem, root.0, vpn_index(vpn.0, 0)) == child_of(
                &mem1,
                root.0,
                vpn_index(vpn.0, 0),
            ));
            assert(child_of(mem, mid.0, vpn_index(vpn.0, 1)) == Some(last.0));
            assert(self.info@.dom().contains(last.0));
            lemma_missing_after_map(
                old(self).info@,
                table1.info@,
                root.0,
                old(mem),
                &mem1,
                mem,
                vpn.0,
                mid.0,
            );
            assert(self.info@[last.0].level == 2);
            assert(self.info@[mid.0].level == 1);
            assert(self.info@[root.0].level == 0);
            assert(walk_made(old(mem), mem, root.0, vpn.0, None));
        }
        Some((last, idxs[2]))
    }

    /// Growing a table twice in a row is growing it once.
    pub proof fn lemma_grown_twice(
        &self,
        middle: &PageTable,
        before: &PageTable,
        a0: FrameAllocatorModel,
        a1: FrameAllocatorModel,
        a2: FrameAllocatorModel,
        m0: &PhysMemory,
        m1: &PhysMemory,
        m2: &PhysMemory,
    )
        requires
            middle.grown_from(before, a0, a1, m0, m1),
            self.grown_from(middle, a1, a2, m1, m2),
        ensures
            self.grown_from(before, a0, a2, m0, m2),
    {
        let n0 = before.nodes().len() as int;
        let n1 = middle.nodes().len() as int;
        assert(self.nodes().subrange(0, n0) =~= before.nodes()) by {
            assert forall|k: int| 0 <= k < n0 implies self.nodes()[k] == before.nodes()[k] by {
                assert(self.nodes().subrange(0, n1)[k] == middle.nodes()[k]);
                assert(middle.nodes().subrange(0, n0)[k] == before.nodes()[k]);
            }
        }
        assert forall|p: u64| middle.nodes().contains(p) implies self.nodes().contains(p) by {
            let k = choose|k: int| 0 <= k < n1 && middle.nodes()[k] == p;
            assert(self.nodes().subrange(0, n1)[k] == middle.nodes()[k]);
            assert(self.nodes()[k] == p);
        }
        assert forall|k: int| n0 <= k < self.nodes().len() implies !a0.is_allocated(
            #[trigger] self.nodes()[k],
        ) && a0.is_free(self.nodes()[k]) by {
            if k < n1 {
                assert(self.nodes().subrange(0, n1)[k] == middle.nodes()[k]);
                assert(!a0.is_allocated(middle.nodes()[k]));
            } else {
                assert(!a1.is_allocated(self.nodes()[k]));
                assert(a1.is_free(self.nodes()[k]));
                assert(a1.is_allocated(self.nodes()[k]) <==> a0.is_allocated(self.nodes()[k])
                    || middle.nodes().contains(self.nodes()[k]));
            }
        }
        assert forall|p: u64| #[trigger]
            a2.is_allocated(p) <==> a0.is_allocated(p) || self.nodes().contains(p) by {
            assert(a1.is_allocated(p) <==> a0.is_allocated(p) || middle.nodes().contains(p));
        }
        assert forall|p: u64| #[trigger] a2.is_free(p) implies a0.is_free(p) by {
            assert(a1.is_free(p));
        }
        assert forall|p: u64| !self.nodes().contains(p) implies #[trigger] m2.frame(p) == m0.frame(
            p,
        ) by {
            assert(m2.frame(p) == m1.frame(p));
            assert(m1.frame(p) == m0.frame(p));
        }
    }

    /// Maps the page `vpn`, which is not mapped yet, to the frame `ppn` with
    /// `flags` and the valid flag. Fails where the frames run out before the
    /// nodes on the way exist.
    pub fn map(
        &mut self,
        allocator: &mut StackFrameAllocator,
        mem: &mut PhysMemory,
        vpn: VirtPageNum,
        ppn: PhysPageNum,
        flags: PTEFlags,
    ) -> (r: Result<(), MapError>)
        requires
            old(self).wf(old(mem)),
            old(allocator)@.wf(),
            old(allocator)@.covered_by(old(mem)),
            old(self).frames_allocated(old(allocator)@),
            translation(old(mem), old(self).root(), vpn.0) is None,
        ensures
            final(self).wf(final(mem)),
            final(allocator)@.wf(),
            final(allocator)@.covered_by(final(mem)),
            final(self).frames_allocated(final(allocator)@),
            final(self).grown_from(
                old(self),
                old(allocator)@,
                final(allocator)@,
                old(mem),
                final(mem),
            ),
            match r {
                Ok(_) => {
                    &&& missing_nodes(old(mem), old(self).root(), vpn.0) <= old(
                        allocator,
                    )@.free_count()
                    &&& final(self).nodes().len() == old(self).nodes().len() + missing_nodes(
                        old(mem),
                        old(self).root(),
                        vpn.0,
                    )
                    &&& forall|v: u64|
                        #[trigger] translation(final(mem), final(self).root(), v) == if same_page(
                            v,
                            vpn.0,
                        ) {
                            Some(
                                PageTableEntry::new(
                                    ppn,
                                    flags.union(PTEFlags { bits: PTEFlags::V }),
                                ),
                            )
                        } else {
                            translation(old(mem), old(self).root(), v)
                        }
                    &&& forall|w: u64|
                        #[trigger] missing_nodes(final(mem), final(self).root(), w)
                            == missing_after_map(
                            missing_nodes(old(mem), old(self).root(), w),
                            vpn.0,
                            w,
                        )
                    &&& walk_made(
                        old(mem),
                        final(mem),
                        old(self).root(),
                        vpn.0,
                        Some(
                            PageTableEntry::new(
                                ppn,
                                flags.union(PTEFlags { bits: PTEFlags::V }),
                            ).bits,
                        ),
                    )
                    &&& walk_took(
                        old(allocator)@,
                        final(allocator)@,
                        old(self).nodes(),
                        final(self).nodes(),
                        missing_nodes(old(mem), old(self).root(), vpn.0),
                        child_of(final(mem), old(self).root(), vpn_index(vpn.0, 0))->0,
                        leaf_node(final(mem), old(self).root(), vpn.0)->0,
                    )
                },
                Err(e) => {
                    &&& e == MapError::OutOfFrames
                    &&& missing_nodes(old(mem), old(self).root(), vpn.0) > old(
                        allocator,
                    )@.free_count()
                    &&& forall|v: u64|
                        #[trigger] translation(final(mem), final(self).root(), v) == translation(
                            old(mem),
                            old(self).root(),
                            v,
                        )
                    &&& walk_cut(
                        old(mem),
                        final(mem),
                        old(self).root(),
                        vpn.0,
                        old(allocator)@,
                        final(allocator)@,
                        old(self).nodes(),
                        final(self).nodes(),
                    )
                },
            },
    {
        proof {
            lemma_index_bound(vpn.0);
        }
        let (last, idx) = match self.find_pte_create(allocator, mem, vpn) {
            Some(place) => place,
            None => {
                return Err(MapError::OutOfFrames);
            },
        };
        let ghost mem2 = *mem;
        proof {
            assert(translation(&mem2, self.root(), vpn.0) is None);
            assert(!entry_at(&mem2, last.0, idx as u64).is_valid());
        }
        let entry = PageTableEntry::new(ppn, flags.union(PTEFlags::from_bits_truncate(PTEFlags::V)));
        mem.write_word(last, idx, entry.bits);
        proof {
            lemma_entry_fields(ppn, flags.union(PTEFlags { bits: PTEFlags::V }));
            let f: u8 = flags.bits;
            assert((f | 1) & 1 == 1) by (bit_vector);
            assert(entry_replaced(&mem2, mem, last.0, idx as u64, entry.bits));
            lemma_entry_replaced(self.info@, self.root(), &mem2, mem, vpn.0, entry.bits);
            lemma_missing_kept(self.info@, self.root(), &mem2, mem);
            assert(self.nodes().contains(last.0));
            assert forall|p: u64| !self.nodes().contains(p) implies #[trigger] mem.frame(p) == old(
                mem,
            ).frame(p) by {
                assert(mem.frame(p) == mem2.frame(p));
                assert(mem2.frame(p) == old(mem).frame(p));
            }
            assert forall|p: u64| #[trigger] allocator@.is_free(p) implies mem.contains(p) by {
                assert(mem2.contains(p));
            }
            let root = self.root();
            let mid = child_of(&mem2, root, vpn_index(vpn.0, 0))->0;
            assert(mem.frame(root) == mem2.frame(root));
            assert(mem.frame(mid) == mem2.frame(mid));
            assert(child_of(mem, root, vpn_index(vpn.0, 0)) == Some(mid));
            assert(child_of(mem, mid, vpn_index(vpn.0, 1)) == Some(last.0));
            assert(walk_made(old(mem), mem, root, vpn.0, Some(entry.bits)));
        }
        Ok(())
    }

    /// Removes the mapping of the page `vpn`, which is mapped: its entry
    /// becomes zero, and no other word of memory changes.
    pub fn unmap(&mut self, mem: &mut PhysMemory, vpn: VirtPageNum)
        requires
            old(self).wf(old(mem)),
            translation(old(mem), old(self).root(), vpn.0) is Some,
        ensures
            final(self).wf(final(mem)),
            final(self).root() == old(self).root(),
            final(self).nodes() == old(self).nodes(),
            final(mem).base() == old(mem).base(),
            final(mem).frame_count() == old(mem).frame_count(),
            forall|p: u64|
                !final(self).nodes().contains(p) ==> #[trigger] final(mem).frame(p) == old(
                    mem,
                ).frame(p),
            forall|v: u64|
                #[trigger] missing_nodes(final(mem), final(self).root(), v) == missing_nodes(
                    old(mem),
                    old(self).root(),
                    v,
                ),
            forall|v: u64|
                #[trigger] translation(final(mem), final(self).root(), v) == if same_page(
                    v,
                    vpn.0,
                ) {
                    None
                } else {
                    translation(old(mem), old(self).root(), v)
                },
            entry_replaced(
                old(mem),
                final(mem),
                leaf_node(old(mem), old(self).root(), vpn.0)->0,
                vpn_index(vpn.0, 2),
                0,
            ),
    {
        proof {
            lemma_index_bound(vpn.0);
        }
        let (last, idx) = self.find_pte(mem, vpn).unwrap();
        mem.write_word(last, idx, PageTableEntry::empty().bits);
        proof {
            lemma_entry_fields(PhysPageNum(0), PTEFlags { bits: 0 });
            assert(entry_replaced(old(mem), mem, last.0, idx as u64, 0));
            lemma_entry_replaced(self.info@, self.root(), old(mem), mem, vpn.0, 0);
            let mid = child_of(old(mem), self.root(), vpn_index(vpn.0, 0))->0;
            assert(child_of(old(mem), mid, vpn_index(vpn.0, 1)) == Some(last.0));
            assert(self.info@.dom().contains(last.0));
            assert(self.nodes().contains(last.0));
            assert forall|v: u64|
                #[trigger] missing_nodes(mem, self.root(), v) == missing_nodes(
                    old(mem),
                    self.root(),
                    v,
                ) by {
                lemma_index_bound(v);
                let i0 = vpn_index(v, 0);
                let i1 = vpn_index(v, 1);
                assert(child_of(mem, self.root(), i0) == child_of(old(mem), self.root(), i0));
                if child_of(old(mem), self.root(), i0) is Some {
                    let c1 = child_of(old(mem), self.root(), i0)->0;
                    assert(child_of(mem, c1, i1) == child_of(old(mem), c1, i1));
                }
            }
        }
    }

    /// Gives the frames of all the nodes back to the allocator.
    pub fn release(self, allocator: &mut StackFrameAllocator)
        requires
            old(allocator)@.wf(),
            self.nodes().no_duplicates(),
            self.frames_allocated(old(allocator)@),
        ensures
            final(allocator)@.wf(),
            final(allocator)@.free_count() == old(allocator)@.free_count() + self.nodes().len(),
            forall|p: u64|
                #[trigger] final(allocator)@.is_allocated(p) <==> old(allocator)@.is_allocated(p)
                    && !self.nodes().contains(p),
            forall|p: u64|
                #[trigger] final(allocator)@.is_free(p) <==> old(allocator)@.is_free(p)
                    || self.nodes().contains(p),
    {
        crate::mm::frame_allocator::release_frames(self.frames, allocator);
    }

    /// The table that a token names, to read another address space by.
    pub fn from_token(satp: u64) -> (r: Self)
        ensures
            r.root() == root_of_token(satp),
            r.nodes() == Seq::<u64>::empty(),
    {
        let r = PageTable {
            root_ppn: PhysPageNum::from(satp & 0xfff_ffff_ffff),
            frames: Vec::new(),
            info: Ghost(Map::empty()),
        };
        proof {
            assert(satp & 0xfff_ffff_ffff & 0xfff_ffff_ffff == satp & 0xfff_ffff_ffff)
                by (bit_vector);
            assert(r.nodes() =~= Seq::<u64>::empty());
        }
        r
    }

    /// The token that names the table.
    pub fn token(&self) -> (r: u64)
        ensures
            r == token_of(self.root()),
    {
        8u64 << 60 | self.root_ppn.0
    }

    /// The place of the entry of `vpn`: the last-level node and the index
    /// in it, where the walk from the root gets that far.
    fn find_pte(&self, mem: &PhysMemory, vpn: VirtPageNum) -> (r: Option<(PhysPageNum, usize)>)
        requires
            mem.wf(),
        ensures
            r == match leaf_node(mem, self.root(), vpn.0) {
                Some(last) => Some((PhysPageNum(last), vpn_index(vpn.0, 2) as usize)),
                None => None,
            },
    {
        let idxs = vpn.indexes();
        let mut ppn = self.root_ppn;
        let mut i: usize = 0;
        while i < 2
            invariant
                i <= 2,
                mem.wf(),
                idxs@ == seq![
                    vpn_index(vpn.0, 0) as usize,
                    vpn_index(vpn.0, 1) as usize,
                    vpn_index(vpn.0, 2) as usize,
                ],
                i == 0 ==> ppn.0 == self.root(),
                i == 1 ==> child_of(mem, self.root(), vpn_index(vpn.0, 0)) == Some(ppn.0),
                i == 2 ==> exists|mid: u64|
                    child_of(mem, self.root(), vpn_index(vpn.0, 0)) == Some(mid) && child_of(
                        mem,
                        mid,
                        vpn_index(vpn.0, 1),
                    ) == Some(ppn.0),
            decreases 2 - i,
        {
            proof {
                lemma_index_bound(vpn.0);
            }
            if !mem.contains_frame(ppn) {
                return None;
            }
            let pte = PageTableEntry { bits: mem.read_word(ppn, idxs[i]) };
            if !pte.is_valid() {
                return None;
            }
            ppn = pte.ppn();
            i += 1;
        }
        proof {
            lemma_index_bound(vpn.0);
        }
        if !mem.contains_frame(ppn) {
            return None;
        }
        Some((ppn, idxs[2]))
    }

    /// The entry that maps `vpn`, if the page is mapped.
    pub fn translate(&self, mem: &PhysMemory, vpn: VirtPageNum) -> (r: Option<PageTableEntry>)
        requires
            mem.wf(),
        ensures
            r == translation(mem, self.root(), vpn.0),
    {
        proof {
            lemma_index_bound(vpn.0);
        }
        match self.find_pte(mem, vpn) {
            Some((node, idx)) => {
                let pte = PageTableEntry { bits: mem.read_word(node, idx) };
                if pte.is_valid() {
                    Some(pte)
                } else {
                    None
                }
            },
            None => None,
        }
    }
}

impl PhysPageNum {
    /// The 512 entries of the node in the frame with this page number.
    pub fn get_pte_array(&self, mem: &PhysMemory) -> (r: Vec<PageTableEntry>)
        requires
            mem.wf(),
            mem.contains(self.0),
        ensures
            r@.len() == 512,
            forall|i: int| 0 <= i < 512 ==> #[trigger] r@[i] == entry_at(mem, self.0, i as u64),
    {
        let mut entries: Vec<PageTableEntry> = Vec::new();
        let mut i: usize = 0;
        while i < 512
            invariant
                i <= 512,
                mem.wf(),
                mem.contains(self.0),
                entries@.len() == i,
                forall|j: int| 0 <= j < i ==> #[trigger] entries@[j] == entry_at(mem, self.0, j as u64),
            decreases 512 - i,
        {
            entries.push(PageTableEntry { bits: mem.read_word(*self, i) });
            i += 1;
        }
        entries
    }
}

/// The page of the virtual address `va` is mapped, by the table rooted at
/// `root`, to a frame of `mem`.
pub open spec fn page_readable(mem: &PhysMemory, root: u64, va: u64) -> bool {
    translation(mem, root, va_bits(va) / 4096) matches Some(e) && mem.contains(e.ppn().0)
}

/// The number of pages that the `len` bytes from address `ptr` on touch.
pub open spec fn piece_count(ptr: u64, len: u64) -> nat {
    if len == 0 {
        0
    } else {
        ((ptr + len - 1) / 4096 - ptr / 4096 + 1) as nat
    }
}

/// The address at which the part of the buffer in its `k`-th page starts.
pub open spec fn piece_start(ptr: u64, k: int) -> int {
    if k == 0 {
        ptr as int
    } else {
        (ptr / 4096 + k) * 4096
    }
}

/// The address at which the part of the buffer in its `k`-th page ends.
pub open spec fn piece_end(ptr: u64, len: u64, k: int) -> int {
    if (ptr / 4096 + k + 1) * 4096 < ptr + len {
        (ptr / 4096 + k + 1) * 4096
    } else {
        ptr + len
    }
}

/// The physical bytes that hold the part of the buffer in its `k`-th page.
pub open spec fn piece(mem: &PhysMemory, root: u64, ptr: u64, len: u64, k: int) -> Seq<u8> {
    let start = piece_start(ptr, k);
    let end = piece_end(ptr, len, k);
    let entry = translation(mem, root, va_bits(start as u64) / 4096)->0;
    mem.frame(entry.ppn().0).subrange(start % 4096, start % 4096 + (end - start))
}

/// The physical bytes behind the `len` bytes at the virtual address `ptr` of
/// the address space that `token` names, one slice for each page touched, in
/// the order of the addresses. Nothing where one of the pages is not mapped
/// to a frame of `mem`.
pub fn translated_byte_buffer<'a>(mem: &'a PhysMemory, token: u64, ptr: u64, len: u64) -> (r:
    Option<Vec<&'a [u8]>>)
    requires
        mem.wf(),
        ptr + len <= u64::MAX,
    ensures
        r is Some <==> forall|k: int|
            0 <= k < piece_count(ptr, len) ==> page_readable(
                mem,
                root_of_token(token),
                #[trigger] piece_start(ptr, k) as u64,
            ),
        r matches Some(v) ==> {
            &&& v@.len() == piece_count(ptr, len)
            &&& forall|k: int|
                0 <= k < v@.len() ==> (#[trigger] v@[k])@ == piece(
                    mem,
                    root_of_token(token),
                    ptr,
                    len,
                    k,
                )
        },
{
    let page_table = PageTable::from_token(token);
    let ghost root = root_of_token(token);
    let end: u64 = ptr + len;
    let mut start: u64 = ptr;
    let mut v: Vec<&'a [u8]> = Vec::new();
    while start < end
        invariant
            mem.wf(),
            page_table.root() == root,
            root == root_of_token(token),
            end == ptr + len,
            ptr <= start <= end,
            start == end ==> v@.len() == piece_count(ptr, len),
            start < end ==> start == piece_start(ptr, v@.len() as int) && v@.len() < piece_count(
                ptr,
                len,
            ),
            forall|k: int|
                0 <= k < v@.len() ==> page_readable(mem, root, #[trigger] piece_start(ptr, k) as u64),
            forall|k: int| 0 <= k < v@.len() ==> (#[trigger] v@[k])@ == piece(mem, root, ptr, len, k),
        decreases end - start,
    {
        let ghost k = v@.len() as int;
        let start_va = VirtAddr::from(start);
        let vpn = start_va.floor();
        let pte = match page_table.translate(mem, vpn) {
            Some(pte) => pte,
            None => {
                assert(!page_readable(mem, root, piece_start(ptr, k) as u64));
                return None;
            },
        };
        let ppn = pte.ppn();
        if !mem.contains_frame(ppn) {
            assert(!page_readable(mem, root, piece_start(ptr, k) as u64));
            return None;
        }
        assert((start & 0x7f_ffff_ffff) % 4096 == start % 4096) by (bit_vector);
        let offset: u64 = start_va.page_offset();
        let room: u64 = 4096 - offset;
        let chunk: u64 = if end - start < room {
            end - start
        } else {
            room
        };
        let bytes = mem.frame_slice(ppn, offset as usize, (offset + chunk) as usize);
        assert(start / 4096 == ptr / 4096 + k);
        assert(piece_end(ptr, len, k) == start + chunk);
        assert(bytes@ == piece(mem, root, ptr, len, k));
        v.push(bytes);
        start += chunk;
    }
    Some(v)
}

/// The three indexes of a page number are below 512.
pub proof fn lemma_index_bound(vpn: u64)
    ensures
        vpn_index(vpn, 0) < 512,
        vpn_index(vpn, 1) < 512,
        vpn_index(vpn, 2) < 512,
{
    assert((vpn >> 18) & 511 < 512 && (vpn >> 9) & 511 < 512 && vpn & 511 < 512) by (bit_vector);
}

} // verus!
