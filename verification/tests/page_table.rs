use sv39_os::mm::address::{PhysPageNum, VirtPageNum};
use sv39_os::mm::frame_allocator::StackFrameAllocator;
use sv39_os::mm::memory::PhysMemory;
use sv39_os::mm::page_table::{
    translated_byte_buffer, MapError, PTEFlags, PageTable, PageTableEntry,
};

const BASE: u64 = 0x80000;

fn machine(frames: usize) -> (StackFrameAllocator, PhysMemory) {
    let mem = PhysMemory::new(PhysPageNum(BASE), frames);
    let mut allocator = StackFrameAllocator::new();
    allocator.init(PhysPageNum(BASE), PhysPageNum(BASE + frames as u64));
    (allocator, mem)
}

fn rw() -> PTEFlags {
    PTEFlags::from_bits_truncate(PTEFlags::R | PTEFlags::W)
}

#[test]
fn flags_are_sets_of_bits() {
    let rw = PTEFlags::from_bits(PTEFlags::R | PTEFlags::W).unwrap();
    let v = PTEFlags::from_bits_truncate(PTEFlags::V);
    assert_eq!(rw.bits(), 0x06);
    assert_eq!(rw.union(v).bits(), 0x07);
    assert_eq!(rw.intersection(v), PTEFlags::empty());
    assert!(rw.union(v).contains(v));
    assert!(!rw.contains(v));
    assert!(PTEFlags::empty().is_empty());
    assert!(!v.is_empty());
    assert_eq!(
        PTEFlags::V | PTEFlags::R | PTEFlags::W | PTEFlags::X | PTEFlags::U | PTEFlags::G
            | PTEFlags::A | PTEFlags::D,
        0xff
    );
}

#[test]
fn entry_packs_page_number_and_flags() {
    let flags = PTEFlags::from_bits_truncate(PTEFlags::V | PTEFlags::R | PTEFlags::X);
    let pte = PageTableEntry::new(PhysPageNum(0x80234), flags);
    assert_eq!(pte.bits, (0x80234 << 10) | 0x0b);
    assert_eq!(pte.ppn(), PhysPageNum(0x80234));
    assert_eq!(pte.flags(), flags);
    assert!(pte.is_valid());
    let invalid = PageTableEntry::new(PhysPageNum(0x80234), rw());
    assert!(!invalid.is_valid());
    assert!(!PageTableEntry::empty().is_valid());
    assert_eq!(PageTableEntry::empty().bits, 0);
    let wide = PageTableEntry::new(PhysPageNum(0xfff_ffff_ffff), PTEFlags::empty());
    assert_eq!(wide.ppn(), PhysPageNum(0xfff_ffff_ffff));
}

#[test]
fn map_then_translate_gives_the_entry() {
    let (mut allocator, mut mem) = machine(16);
    let mut table = PageTable::new(&mut allocator, &mut mem).unwrap();
    let vpn = VirtPageNum(0x12345);
    assert_eq!(table.translate(&mem, vpn), None);
    assert_eq!(table.map(&mut allocator, &mut mem, vpn, PhysPageNum(0x80009), rw()), Ok(()));
    let pte = table.translate(&mem, vpn).unwrap();
    assert_eq!(pte.ppn(), PhysPageNum(0x80009));
    assert_eq!(pte.flags().bits(), PTEFlags::R | PTEFlags::W | PTEFlags::V);
    assert_eq!(table.translate(&mem, VirtPageNum(0x12344)), None);
    assert_eq!(table.translate(&mem, VirtPageNum(0x12346)), None);
}

#[test]
fn new_nodes_are_linked_by_entries_that_are_valid_and_nothing_else() {
    let (mut allocator, mut mem) = machine(16);
    let mut table = PageTable::new(&mut allocator, &mut mem).unwrap();
    // indexes 3, 5 and 7
    let vpn = VirtPageNum((3 << 18) | (5 << 9) | 7);
    let flags = PTEFlags::from_bits_truncate(PTEFlags::R | PTEFlags::X | PTEFlags::U);
    assert_eq!(table.map(&mut allocator, &mut mem, vpn, PhysPageNum(0x80009), flags), Ok(()));
    let root = PhysPageNum(BASE).get_pte_array(&mem);
    let mid = PhysPageNum(BASE + 1).get_pte_array(&mem);
    let last = PhysPageNum(BASE + 2).get_pte_array(&mem);
    assert_eq!(root[3].bits, ((BASE + 1) << 10) | 1);
    assert_eq!(root[3].flags().bits(), PTEFlags::V);
    assert_eq!(mid[5].bits, ((BASE + 2) << 10) | 1);
    assert_eq!(mid[5].flags().bits(), PTEFlags::V);
    assert_eq!(last[7].bits, (0x80009 << 10) | 0x1b);
    for i in 0..512usize {
        assert!(i == 3 || root[i].bits == 0);
        assert!(i == 5 || mid[i].bits == 0);
        assert!(i == 7 || last[i].bits == 0);
    }
    // one more node below the middle one, on frames that held other bytes
    mem.write_word(PhysPageNum(BASE + 3), 9, 0xdead_beef);
    let near = VirtPageNum((3 << 18) | (6 << 9) | 8);
    assert_eq!(table.map(&mut allocator, &mut mem, near, PhysPageNum(0x8000a), rw()), Ok(()));
    let mid = PhysPageNum(BASE + 1).get_pte_array(&mem);
    let newest = PhysPageNum(BASE + 3).get_pte_array(&mem);
    assert_eq!(mid[5].bits, ((BASE + 2) << 10) | 1);
    assert_eq!(mid[6].bits, ((BASE + 3) << 10) | 1);
    assert_eq!(newest[8].bits, (0x8000a << 10) | 0x07);
    for i in 0..512usize {
        assert!(i == 5 || i == 6 || mid[i].bits == 0);
        assert!(i == 8 || newest[i].bits == 0);
    }
    assert_eq!(PhysPageNum(BASE).get_pte_array(&mem), root);
    assert_eq!(PhysPageNum(BASE + 2).get_pte_array(&mem), last);
    assert_eq!(allocator.allocate(), Some(PhysPageNum(BASE + 4)));
}

#[test]
fn a_mapped_page_is_told_by_translate() {
    let (mut allocator, mut mem) = machine(16);
    let mut table = PageTable::new(&mut allocator, &mut mem).unwrap();
    let vpn = VirtPageNum(77);
    assert!(table.translate(&mem, vpn).is_none());
    assert_eq!(table.map(&mut allocator, &mut mem, vpn, PhysPageNum(0x80009), rw()), Ok(()));
    assert!(table.translate(&mem, vpn).is_some());
    assert!(table.translate(&mem, VirtPageNum(78)).is_none());
    assert_eq!(table.translate(&mem, vpn).unwrap().ppn(), PhysPageNum(0x80009));
}

#[test]
fn unmap_then_translate_gives_nothing() {
    let (mut allocator, mut mem) = machine(16);
    let mut table = PageTable::new(&mut allocator, &mut mem).unwrap();
    let vpn = VirtPageNum(77);
    let other = VirtPageNum(78);
    table.map(&mut allocator, &mut mem, vpn, PhysPageNum(0x80009), rw()).unwrap();
    table.map(&mut allocator, &mut mem, other, PhysPageNum(0x8000a), rw()).unwrap();
    table.unmap(&mut mem, vpn);
    assert_eq!(table.translate(&mem, vpn), None);
    assert_eq!(table.translate(&mem, other).unwrap().ppn(), PhysPageNum(0x8000a));
    assert_eq!(PhysPageNum(BASE + 2).get_pte_array(&mem)[77].bits, 0);
    assert_eq!(table.translate(&mem, VirtPageNum(0x7ff_0000)), None);
    assert_eq!(table.map(&mut allocator, &mut mem, vpn, PhysPageNum(0x8000b), rw()), Ok(()));
    assert_eq!(table.translate(&mem, vpn).unwrap().ppn(), PhysPageNum(0x8000b));
}

#[test]
fn nodes_are_made_on_the_way_and_shared() {
    let (mut allocator, mut mem) = machine(16);
    let mut table = PageTable::new(&mut allocator, &mut mem).unwrap();
    // root is frame 0; the first mapping makes two nodes
    table.map(&mut allocator, &mut mem, VirtPageNum(0), PhysPageNum(1), rw()).unwrap();
    assert_eq!(allocator.allocate(), Some(PhysPageNum(BASE + 3)));
    // same last-level node: no new node
    table.map(&mut allocator, &mut mem, VirtPageNum(511), PhysPageNum(2), rw()).unwrap();
    assert_eq!(allocator.allocate(), Some(PhysPageNum(BASE + 4)));
    // same middle node, another last-level node: one new node
    table.map(&mut allocator, &mut mem, VirtPageNum(512), PhysPageNum(3), rw()).unwrap();
    assert_eq!(allocator.allocate(), Some(PhysPageNum(BASE + 6)));
    // another middle node: two new nodes
    table.map(&mut allocator, &mut mem, VirtPageNum(1 << 18), PhysPageNum(4), rw()).unwrap();
    assert_eq!(allocator.allocate(), Some(PhysPageNum(BASE + 9)));
    assert_eq!(table.translate(&mem, VirtPageNum(0)).unwrap().ppn(), PhysPageNum(1));
    assert_eq!(table.translate(&mem, VirtPageNum(511)).unwrap().ppn(), PhysPageNum(2));
    assert_eq!(table.translate(&mem, VirtPageNum(512)).unwrap().ppn(), PhysPageNum(3));
    assert_eq!(table.translate(&mem, VirtPageNum(1 << 18)).unwrap().ppn(), PhysPageNum(4));
}

#[test]
fn map_fails_when_frames_run_out() {
    let (mut allocator, mut mem) = machine(2);
    let mut table = PageTable::new(&mut allocator, &mut mem).unwrap();
    assert_eq!(
        table.map(&mut allocator, &mut mem, VirtPageNum(5), PhysPageNum(1), rw()),
        Err(MapError::OutOfFrames)
    );
    assert_eq!(table.translate(&mem, VirtPageNum(5)), None);
    // the one free frame has become the middle node, empty
    assert_eq!(PhysPageNum(BASE).get_pte_array(&mem)[0].bits, ((BASE + 1) << 10) | 1);
    assert!(mem.frame_bytes(PhysPageNum(BASE + 1)).iter().all(|b| *b == 0));
    assert_eq!(allocator.allocate(), None);
    let (mut none, mut small) = machine(0);
    assert!(PageTable::new(&mut none, &mut small).is_none());
}

#[test]
fn token_names_the_root() {
    let (mut allocator, mut mem) = machine(16);
    let mut table = PageTable::new(&mut allocator, &mut mem).unwrap();
    assert_eq!(table.token(), (8u64 << 60) | BASE);
    table.map(&mut allocator, &mut mem, VirtPageNum(9), PhysPageNum(0x80005), rw()).unwrap();
    let view = PageTable::from_token(table.token());
    assert_eq!(view.token(), table.token());
    assert_eq!(view.translate(&mem, VirtPageNum(9)), table.translate(&mem, VirtPageNum(9)));
    assert_eq!(view.translate(&mem, VirtPageNum(10)), None);
}

#[test]
fn table_outside_memory_translates_nothing() {
    let (_, mem) = machine(4);
    let view = PageTable::from_token((8u64 << 60) | 0x1234);
    assert_eq!(view.translate(&mem, VirtPageNum(0)), None);
}

#[test]
fn get_pte_array_reads_the_node() {
    let (mut allocator, mut mem) = machine(16);
    let mut table = PageTable::new(&mut allocator, &mut mem).unwrap();
    table.map(&mut allocator, &mut mem, VirtPageNum(3 << 18), PhysPageNum(1), rw()).unwrap();
    let root = PhysPageNum(BASE).get_pte_array(&mem);
    assert_eq!(root.len(), 512);
    assert!(root[3].is_valid());
    assert_eq!(root[3].ppn(), PhysPageNum(BASE + 1));
    assert!(!root[2].is_valid());
}

#[test]
fn release_gives_the_nodes_back() {
    let (mut allocator, mut mem) = machine(3);
    let mut table = PageTable::new(&mut allocator, &mut mem).unwrap();
    table.map(&mut allocator, &mut mem, VirtPageNum(5), PhysPageNum(1), rw()).unwrap();
    assert_eq!(allocator.allocate(), None);
    table.release(&mut allocator);
    let mut got = vec![
        allocator.allocate().unwrap(),
        allocator.allocate().unwrap(),
        allocator.allocate().unwrap(),
    ];
    got.sort();
    assert_eq!(got, vec![PhysPageNum(BASE), PhysPageNum(BASE + 1), PhysPageNum(BASE + 2)]);
    assert_eq!(allocator.allocate(), None);
}

#[test]
fn byte_buffer_is_split_at_page_boundaries() {
    let (mut allocator, mut mem) = machine(16);
    let mut table = PageTable::new(&mut allocator, &mut mem).unwrap();
    let first = PhysPageNum(BASE + 10);
    let second = PhysPageNum(BASE + 12);
    let third = PhysPageNum(BASE + 11);
    table.map(&mut allocator, &mut mem, VirtPageNum(0x10), first, rw()).unwrap();
    table.map(&mut allocator, &mut mem, VirtPageNum(0x11), second, rw()).unwrap();
    table.map(&mut allocator, &mut mem, VirtPageNum(0x12), third, rw()).unwrap();
    mem.write_bytes(first, 4094, &[1, 2]);
    mem.write_bytes(second, 0, &[3, 4, 5]);
    mem.write_bytes(second, 4095, &[6]);
    mem.write_bytes(third, 0, &[7, 8]);
    let token = table.token();
    let pieces = translated_byte_buffer(&mem, token, 0x10ffe, 5).unwrap();
    assert_eq!(pieces, vec![&[1u8, 2][..], &[3u8, 4, 5][..]]);
    let whole = translated_byte_buffer(&mem, token, 0x10ffe, 4096 + 4).unwrap();
    assert_eq!(whole.len(), 3);
    assert_eq!(whole[0], &[1, 2]);
    assert_eq!(whole[1].len(), 4096);
    assert_eq!(whole[1][4095], 6);
    assert_eq!(whole[2], &[7, 8]);
    // a buffer that ends at a page boundary
    let exact = translated_byte_buffer(&mem, token, 0x10ffe, 2).unwrap();
    assert_eq!(exact, vec![&[1u8, 2][..]]);
    let page = translated_byte_buffer(&mem, token, 0x11000, 4096).unwrap();
    assert_eq!(page.len(), 1);
    assert_eq!(page[0].len(), 4096);
    assert_eq!(translated_byte_buffer(&mem, token, 0x11000, 0).unwrap().len(), 0);
}

#[test]
fn byte_buffer_over_an_unmapped_page_is_refused() {
    let (mut allocator, mut mem) = machine(16);
    let mut table = PageTable::new(&mut allocator, &mut mem).unwrap();
    table.map(&mut allocator, &mut mem, VirtPageNum(0x10), PhysPageNum(BASE + 10), rw()).unwrap();
    table.map(&mut allocator, &mut mem, VirtPageNum(0x12), PhysPageNum(0x1234), rw()).unwrap();
    let token = table.token();
    assert!(translated_byte_buffer(&mem, token, 0x10ff0, 16).is_some());
    assert!(translated_byte_buffer(&mem, token, 0x10ff0, 17).is_none());
    assert!(translated_byte_buffer(&mem, token, 0x12000, 1).is_none());
}
