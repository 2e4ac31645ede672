//! Physical and virtual addresses and page numbers of the SV39 scheme.
use vstd::prelude::*;
use vstd::std_specs::convert::FromSpecImpl;
use crate::config::PAGE_SIZE;

verus! {

/// A physical address, at most 56 bits wide.
#[derive(Copy, Clone, Debug, PartialEq, Eq, Structural, PartialOrd, Ord)]
pub struct PhysAddr(pub u64);

/// A virtual address. Only the low 39 bits take part in translation.
#[derive(Copy, Clone, Debug, PartialEq, Eq, Structural, PartialOrd, Ord)]
pub struct VirtAddr(pub u64);

/// A physical page number, at most 44 bits wide.
#[derive(Copy, Clone, Debug, PartialEq, Eq, Structural, PartialOrd, Ord)]
pub struct PhysPageNum(pub u64);

/// A virtual page number, at most 27 bits wide.
#[derive(Copy, Clone, Debug, PartialEq, Eq, Structural, PartialOrd, Ord)]
pub struct VirtPageNum(pub u64);

/// The low 56 bits of `v`.
pub open spec fn pa_bits(v: u64) -> u64 {
    v & 0xff_ffff_ffff_ffff
}

/// The low 44 bits of `v`.
pub open spec fn ppn_bits(v: u64) -> u64 {
    v & 0xfff_ffff_ffff
}

/// The low 39 bits of `v`.
pub open spec fn va_bits(v: u64) -> u64 {
    v & 0x7f_ffff_ffff
}

/// The low 27 bits of `v`.
pub open spec fn vpn_bits(v: u64) -> u64 {
    v & 0x7ff_ffff
}

/// The index into the page-table node of the given level (0 is the root)
/// that the virtual page number `vpn` selects.
pub open spec fn vpn_index(vpn: u64, level: int) -> u64 {
    if level == 0 {
        (vpn >> 18) & 511
    } else if level == 1 {
        (vpn >> 9) & 511
    } else {
        vpn & 511
    }
}

/// The virtual page number that selects `i0` in the root, `i1` in the middle
/// node and `i2` in the last node.
pub open spec fn vpn_of_indexes(i0: u64, i1: u64, i2: u64) -> u64 {
    (i0 & 511) << 18 | (i1 & 511) << 9 | (i2 & 511)
}

impl From<u64> for PhysAddr {
    fn from(v: u64) -> (r: Self) {
        PhysAddr(v & 0xff_ffff_ffff_ffff)
    }
}

impl FromSpecImpl<u64> for PhysAddr {
    open spec fn obeys_from_spec() -> bool {
        true
    }

    open spec fn from_spec(v: u64) -> Self {
        PhysAddr(pa_bits(v))
    }
}

impl From<u64> for PhysPageNum {
    fn from(v: u64) -> (r: Self) {
        PhysPageNum(v & 0xfff_ffff_ffff)
    }
}

impl FromSpecImpl<u64> for PhysPageNum {
    open spec fn obeys_from_spec() -> bool {
        true
    }

    open spec fn from_spec(v: u64) -> Self {
        PhysPageNum(ppn_bits(v))
    }
}

impl From<u64> for VirtAddr {
    fn from(v: u64) -> (r: Self) {
        VirtAddr(v & 0x7f_ffff_ffff)
    }
}

impl FromSpecImpl<u64> for VirtAddr {
    open spec fn obeys_from_spec() -> bool {
        true
    }

    open spec fn from_spec(v: u64) -> Self {
        VirtAddr(va_bits(v))
    }
}

impl From<u64> for VirtPageNum {
    fn from(v: u64) -> (r: Self) {
        VirtPageNum(v & 0x7ff_ffff)
    }
}

impl FromSpecImpl<u64> for VirtPageNum {
    open spec fn obeys_from_spec() -> bool {
        true
    }

    open spec fn from_spec(v: u64) -> Self {
        VirtPageNum(vpn_bits(v))
    }
}

impl From<PhysAddr> for u64 {
    fn from(v: PhysAddr) -> (r: Self) {
        v.0
    }
}

impl FromSpecImpl<PhysAddr> for u64 {
    open spec fn obeys_from_spec() -> bool {
        true
    }

    open spec fn from_spec(v: PhysAddr) -> Self {
        v.0
    }
}

impl From<PhysPageNum> for u64 {
    fn from(v: PhysPageNum) -> (r: Self) {
        v.0
    }
}

impl FromSpecImpl<PhysPageNum> for u64 {
    open spec fn obeys_from_spec() -> bool {
        true
    }

    open spec fn from_spec(v: PhysPageNum) -> Self {
        v.0
    }
}

impl From<VirtAddr> for u64 {
    fn from(v: VirtAddr) -> (r: Self) {
        v.0
    }
}

impl FromSpecImpl<VirtAddr> for u64 {
    open spec fn obeys_from_spec() -> bool {
        true
    }

    open spec fn from_spec(v: VirtAddr) -> Self {
        v.0
    }
}

impl From<VirtPageNum> for u64 {
    fn from(v: VirtPageNum) -> (r: Self) {
        v.0
    }
}

impl FromSpecImpl<VirtPageNum> for u64 {
    open spec fn obeys_from_spec() -> bool {
        true
    }

    open spec fn from_spec(v: VirtPageNum) -> Self {
        v.0
    }
}

impl From<PhysPageNum> for PhysAddr {
    fn from(v: PhysPageNum) -> (r: Self) {
        PhysAddr(v.0 << 12)
    }
}

impl FromSpecImpl<PhysPageNum> for PhysAddr {
    open spec fn obeys_from_spec() -> bool {
        true
    }

    open spec fn from_spec(v: PhysPageNum) -> Self {
        PhysAddr(v.0 << 12)
    }
}

impl From<VirtPageNum> for VirtAddr {
    fn from(v: VirtPageNum) -> (r: Self) {
        VirtAddr(v.0 << 12)
    }
}

impl FromSpecImpl<VirtPageNum> for VirtAddr {
    open spec fn obeys_from_spec() -> bool {
        true
    }

    open spec fn from_spec(v: VirtPageNum) -> Self {
        VirtAddr(v.0 << 12)
    }
}

impl PhysAddr {
    /// The offset of the address inside its page.
    pub fn page_offset(&self) -> (r: u64)
        ensures
            r == self.0 % 4096,
    {
        let a: u64 = self.0;
        assert(a & 4095 == a % 4096) by (bit_vector);
        self.0 & (PAGE_SIZE - 1)
    }

    /// The number of the page that holds the address.
    pub fn floor(&self) -> (r: PhysPageNum)
        ensures
            r.0 == self.0 / 4096,
    {
        PhysPageNum(self.0 / PAGE_SIZE)
    }

    /// The number of the first page that starts at or after the address.
    pub fn ceil(&self) -> (r: PhysPageNum)
        ensures
            r.0 == (self.0 + 4095) / 4096,
    {
        let below: u64 = self.0 / PAGE_SIZE;
        if self.0 % PAGE_SIZE == 0 {
            PhysPageNum(below)
        } else {
            PhysPageNum(below + 1)
        }
    }

    /// The page number of a page-aligned address.
    pub fn page_number(&self) -> (r: PhysPageNum)
        requires
            self.0 % 4096 == 0,
        ensures
            r.0 * 4096 == self.0,
    {
        self.floor()
    }
}

impl VirtAddr {
    /// The offset of the address inside its page.
    pub fn page_offset(&self) -> (r: u64)
        ensures
            r == self.0 % 4096,
    {
        let a: u64 = self.0;
        assert(a & 4095 == a % 4096) by (bit_vector);
        self.0 & (PAGE_SIZE - 1)
    }

    /// The number of the page that holds the address.
    pub fn floor(&self) -> (r: VirtPageNum)
        ensures
            r.0 == self.0 / 4096,
    {
        VirtPageNum(self.0 / PAGE_SIZE)
    }

    /// The number of the first page that starts at or after the address.
    pub fn ceil(&self) -> (r: VirtPageNum)
        ensures
            r.0 == (self.0 + 4095) / 4096,
    {
        let below: u64 = self.0 / PAGE_SIZE;
        if self.0 % PAGE_SIZE == 0 {
            VirtPageNum(below)
        } else {
            VirtPageNum(below + 1)
        }
    }
}

impl VirtPageNum {
    /// The three 9-bit indexes of the page number, the root's index first.
    pub fn indexes(&self) -> (idx: [usize; 3])
        ensures
            idx@ == seq![
                vpn_index(self.0, 0) as usize,
                vpn_index(self.0, 1) as usize,
                vpn_index(self.0, 2) as usize,
            ],
    {
        let mut vpn: u64 = self.0;
        let mut idx: [usize; 3] = [0usize; 3];
        let mut i: usize = 3;
        while i > 0
            invariant
                i <= 3,
                i == 3 ==> vpn == self.0,
                i == 2 ==> vpn == self.0 >> 9,
                i == 1 ==> vpn == self.0 >> 18,
                i <= 2 ==> idx@[2] == vpn_index(self.0, 2),
                i <= 1 ==> idx@[1] == vpn_index(self.0, 1),
                i == 0 ==> idx@[0] == vpn_index(self.0, 0),
            decreases i,
        {
            i -= 1;
            assert(vpn & 511 < 512) by (bit_vector);
            idx[i] = (vpn & 511) as usize;
            vpn >>= 9;
            proof {
                let v: u64 = self.0;
                assert((v >> 9) >> 9 == v >> 18) by (bit_vector);
            }
        }
        assert(idx@ =~= seq![
            vpn_index(self.0, 0) as usize,
            vpn_index(self.0, 1) as usize,
            vpn_index(self.0, 2) as usize,
        ]);
        idx
    }

    /// The page number that the three indexes select, the root's index first.
    pub fn from_indexes(idx: [usize; 3]) -> (r: VirtPageNum)
        requires
            idx@[0] < 512,
            idx@[1] < 512,
            idx@[2] < 512,
        ensures
            r.0 == vpn_of_indexes(idx@[0] as u64, idx@[1] as u64, idx@[2] as u64),
    {
        let i0: u64 = idx[0] as u64;
        let i1: u64 = idx[1] as u64;
        let i2: u64 = idx[2] as u64;
        assert(i0 & 511 == i0 && i1 & 511 == i1 && i2 & 511 == i2) by (bit_vector)
            requires
                i0 < 512,
                i1 < 512,
                i2 < 512,
        ;
        VirtPageNum(i0 << 18 | i1 << 9 | i2)
    }

    /// Moves on to the next page number.
    pub fn step(&mut self)
        requires
            old(self).0 < u64::MAX,
        ensures
            final(self).0 == old(self).0 + 1,
    {
        self.0 += 1;
    }
}

/// A page number of at most 27 bits is the one that its three indexes select.
pub proof fn lemma_indexes_round_trip(vpn: u64)
    requires
        vpn < 0x800_0000,
    ensures
        vpn_of_indexes(vpn_index(vpn, 0), vpn_index(vpn, 1), vpn_index(vpn, 2)) == vpn,
{
    assert(((((vpn >> 18) & 511) & 511) << 18 | (((vpn >> 9) & 511) & 511) << 9 | ((vpn & 511)
        & 511)) == vpn) by (bit_vector)
        requires
            vpn < 0x800_0000,
    ;
}

/// Three indexes below 512 are the indexes of the page number they select,
/// and that page number has at most 27 bits.
pub proof fn lemma_indexes_of_selected(i0: u64, i1: u64, i2: u64)
    requires
        i0 < 512,
        i1 < 512,
        i2 < 512,
    ensures
        vpn_of_indexes(i0, i1, i2) < 0x800_0000,
        vpn_index(vpn_of_indexes(i0, i1, i2), 0) == i0,
        vpn_index(vpn_of_indexes(i0, i1, i2), 1) == i1,
        vpn_index(vpn_of_indexes(i0, i1, i2), 2) == i2,
{
    let v = vpn_of_indexes(i0, i1, i2);
    assert(v == ((i0 & 511) << 18 | (i1 & 511) << 9 | (i2 & 511)));
    assert(((i0 & 511) << 18 | (i1 & 511) << 9 | (i2 & 511)) < 0x800_0000 && ((((i0 & 511) << 18
        | (i1 & 511) << 9 | (i2 & 511)) >> 18) & 511) == i0 && ((((i0 & 511) << 18 | (i1 & 511)
        << 9 | (i2 & 511)) >> 9) & 511) == i1 && (((i0 & 511) << 18 | (i1 & 511) << 9 | (i2
        & 511)) & 511) == i2) by (bit_vector)
        requires
            i0 < 512,
            i1 < 512,
            i2 < 512,
    ;
}

} // verus!
