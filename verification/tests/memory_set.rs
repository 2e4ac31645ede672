use sv39_os::mm::address::{PhysPageNum, VirtAddr, VirtPageNum};
use sv39_os::mm::frame_allocator::StackFrameAllocator;
use sv39_os::mm::memory::PhysMemory;
use sv39_os::mm::image::{ElfImage, KernelLayout, Segment};
use sv39_os::mm::map_area::{MapArea, MapPermission, MapType};
use sv39_os::mm::memory_set::MemorySet;
use sv39_os::mm::space::{TRAMPOLINE_VPN, TRAP_CONTEXT_VPN};
use sv39_os::mm::page_table::{translated_byte_buffer, MapError, PTEFlags};

const BASE: u64 = 0x80000;
const TRAMPOLINE_FRAME: PhysPageNum = PhysPageNum(0x7ffff);

fn machine(frames: usize) -> (StackFrameAllocator, PhysMemory) {
    let mem = PhysMemory::new(PhysPageNum(BASE), frames);
    let mut allocator = StackFrameAllocator::new();
    allocator.init(PhysPageNum(BASE), PhysPageNum(BASE + frames as u64));
    (allocator, mem)
}

fn perm(bits: u8) -> MapPermission {
    MapPermission::from_bits_truncate(bits)
}

fn image(entry: u64, segments: Vec<(u64, u64, u8, Vec<u8>)>) -> ElfImage {
    ElfImage {
        entry,
        segments: segments
            .into_iter()
            .map(|(start_va, mem_size, bits, data)| Segment {
                start_va,
                mem_size,
                permission: perm(bits),
                data,
            })
            .collect(),
    }
}

fn text(seed: u8, len: usize) -> Vec<u8> {
    (0..len).map(|i| seed.wrapping_add((i % 251) as u8)).collect()
}

fn two_segments(seed: u8) -> ElfImage {
    image(
        0x10000,
        vec![
            (0x10000, 0x1800, MapPermission::R | MapPermission::X, text(seed, 0x1234)),
            (0x12000, 0x1000, MapPermission::R | MapPermission::W, text(seed.wrapping_add(9), 16)),
        ],
    )
}

fn mapped_frames(space: &MemorySet, mem: &PhysMemory, pages: &[u64]) -> Vec<PhysPageNum> {
    pages.iter().map(|vpn| space.translate(mem, VirtPageNum(*vpn)).unwrap().ppn()).collect()
}

#[test]
fn map_area_covers_the_pages_touched() {
    let area = MapArea::new(VirtAddr(0x10001), VirtAddr(0x12001), MapType::Framed, perm(2));
    assert_eq!(area.start, VirtPageNum(0x10));
    assert_eq!(area.end, VirtPageNum(0x13));
    let exact = MapArea::new(VirtAddr(0x10000), VirtAddr(0x12000), MapType::Identical, perm(2));
    assert_eq!((exact.start, exact.end), (VirtPageNum(0x10), VirtPageNum(0x12)));
    assert_eq!(exact.map_type, MapType::Identical);
    assert_eq!(exact.map_perm.bits(), 2);
}

#[test]
fn bare_space_maps_nothing() {
    let (mut allocator, mut mem) = machine(8);
    let space = MemorySet::new_bare(&mut allocator, &mut mem).unwrap();
    assert_eq!(space.token(), (8u64 << 60) | BASE);
    assert_eq!(space.translate(&mem, VirtPageNum(0)), None);
    assert_eq!(space.translate(&mem, VirtPageNum(TRAMPOLINE_VPN)), None);
    let (mut none, mut small) = machine(0);
    assert!(MemorySet::new_bare(&mut none, &mut small).is_none());
}

#[test]
fn framed_area_is_backed_by_zero_frames() {
    let (mut allocator, mut mem) = machine(32);
    // dirty the frames that will be handed out
    for i in 0..32 {
        mem.write_word(PhysPageNum(BASE + i), 5, 0xffff);
    }
    let mut space = MemorySet::new_bare(&mut allocator, &mut mem).unwrap();
    let rw = perm(MapPermission::R | MapPermission::W);
    assert_eq!(
        space.insert_framed_area(&mut allocator, &mut mem, VirtAddr(0x5000), VirtAddr(0x7001), rw),
        Ok(())
    );
    let frames = mapped_frames(&space, &mem, &[5, 6, 7]);
    for (i, frame) in frames.iter().enumerate() {
        assert!(mem.frame_bytes(*frame).iter().all(|b| *b == 0));
        for other in &frames[i + 1..] {
            assert_ne!(frame, other);
        }
    }
    let pte = space.translate(&mem, VirtPageNum(6)).unwrap();
    assert_eq!(pte.flags().bits(), PTEFlags::R | PTEFlags::W | PTEFlags::V);
    assert_eq!(space.translate(&mem, VirtPageNum(4)), None);
    assert_eq!(space.translate(&mem, VirtPageNum(8)), None);
}

#[test]
fn overlapping_area_is_rejected_and_rolled_back() {
    let (mut allocator, mut mem) = machine(32);
    let mut space = MemorySet::new_bare(&mut allocator, &mut mem).unwrap();
    let rw = perm(MapPermission::R | MapPermission::W);
    space.insert_framed_area(&mut allocator, &mut mem, VirtAddr(0x7000), VirtAddr(0x8000), rw).unwrap();
    let before = space.translate(&mem, VirtPageNum(7));
    assert_eq!(
        space.insert_framed_area(&mut allocator, &mut mem, VirtAddr(0x5000), VirtAddr(0x9000), rw),
        Err(MapError::AlreadyMapped)
    );
    assert_eq!(space.translate(&mem, VirtPageNum(5)), None);
    assert_eq!(space.translate(&mem, VirtPageNum(6)), None);
    assert_eq!(space.translate(&mem, VirtPageNum(7)), before);
    assert_eq!(space.translate(&mem, VirtPageNum(8)), None);
    // the frames of the pages that were mapped on the way are free again
    assert_eq!(
        space.insert_framed_area(&mut allocator, &mut mem, VirtAddr(0x5000), VirtAddr(0x7000), rw),
        Ok(())
    );
    assert!(space.translate(&mem, VirtPageNum(5)).is_some());
}

#[test]
fn area_too_large_for_the_frames_is_rolled_back() {
    let (mut allocator, mut mem) = machine(6);
    let mut space = MemorySet::new_bare(&mut allocator, &mut mem).unwrap();
    let rw = perm(MapPermission::R | MapPermission::W);
    // root + 2 nodes + 3 pages fit; a fourth page does not
    assert_eq!(
        space.insert_framed_area(&mut allocator, &mut mem, VirtAddr(0), VirtAddr(0x4000), rw),
        Err(MapError::OutOfFrames)
    );
    for vpn in 0..4 {
        assert_eq!(space.translate(&mem, VirtPageNum(vpn)), None);
    }
    assert_eq!(
        space.insert_framed_area(&mut allocator, &mut mem, VirtAddr(0), VirtAddr(0x3000), rw),
        Ok(())
    );
    assert_eq!(allocator.allocate(), None);
}

#[test]
fn reversed_or_far_range_is_invalid() {
    let (mut allocator, mut mem) = machine(8);
    let mut space = MemorySet::new_bare(&mut allocator, &mut mem).unwrap();
    let r = perm(MapPermission::R);
    assert_eq!(
        space.insert_framed_area(&mut allocator, &mut mem, VirtAddr(0x5000), VirtAddr(0x3000), r),
        Err(MapError::InvalidRange)
    );
    assert_eq!(
        space.insert_framed_area(&mut allocator, &mut mem, VirtAddr(0), VirtAddr((1 << 39) + 1), r),
        Err(MapError::InvalidRange)
    );
    // an empty range adds an empty area
    assert_eq!(
        space.insert_framed_area(&mut allocator, &mut mem, VirtAddr(0x5000), VirtAddr(0x5000), r),
        Ok(())
    );
    assert_eq!(space.translate(&mem, VirtPageNum(5)), None);
}

#[test]
fn trampoline_is_mapped_readable_and_executable() {
    let (mut allocator, mut mem) = machine(8);
    let mut space = MemorySet::new_bare(&mut allocator, &mut mem).unwrap();
    assert_eq!(space.get_trampoline(), None);
    assert_eq!(space.map_trampoline(&mut allocator, &mut mem, TRAMPOLINE_FRAME), Ok(()));
    assert_eq!(space.get_trampoline(), Some(TRAMPOLINE_FRAME));
    let pte = space.translate(&mem, VirtPageNum(TRAMPOLINE_VPN)).unwrap();
    assert_eq!(pte.ppn(), TRAMPOLINE_FRAME);
    assert_eq!(pte.flags().bits(), PTEFlags::R | PTEFlags::X | PTEFlags::V);
}

#[test]
fn space_of_an_image_holds_its_segments() {
    let (mut allocator, mut mem) = machine(64);
    let app = two_segments(3);
    let (space, user_sp, entry) =
        MemorySet::from_elf(&mut allocator, &mut mem, &app, TRAMPOLINE_FRAME).unwrap();
    assert_eq!(entry, 0x10000);
    // segments end at page 0x13; one guard page; two pages of stack
    assert_eq!(user_sp, 0x16000);
    let code = space.translate(&mem, VirtPageNum(0x10)).unwrap();
    assert_eq!(code.flags().bits(), PTEFlags::R | PTEFlags::X | PTEFlags::U | PTEFlags::V);
    let data = space.translate(&mem, VirtPageNum(0x12)).unwrap();
    assert_eq!(data.flags().bits(), PTEFlags::R | PTEFlags::W | PTEFlags::U | PTEFlags::V);
    assert_eq!(space.translate(&mem, VirtPageNum(0x13)), None);
    let stack = space.translate(&mem, VirtPageNum(0x14)).unwrap();
    assert_eq!(stack.flags().bits(), PTEFlags::R | PTEFlags::W | PTEFlags::U | PTEFlags::V);
    assert!(space.translate(&mem, VirtPageNum(0x15)).is_some());
    assert_eq!(space.translate(&mem, VirtPageNum(0x16)), None);
    let trap = space.translate(&mem, VirtPageNum(TRAP_CONTEXT_VPN)).unwrap();
    assert_eq!(trap.flags().bits(), PTEFlags::R | PTEFlags::W | PTEFlags::V);
    let trampoline = space.translate(&mem, VirtPageNum(TRAMPOLINE_VPN)).unwrap();
    assert_eq!(trampoline.ppn(), TRAMPOLINE_FRAME);
    // the bytes of the first segment, read through the page table
    let pieces = translated_byte_buffer(&mem, space.token(), 0x10000, 0x1800).unwrap();
    let bytes: Vec<u8> = pieces.concat();
    let mut expected = text(3, 0x1234);
    expected.resize(0x1800, 0);
    assert_eq!(bytes, expected);
    let second = translated_byte_buffer(&mem, space.token(), 0x12000, 32).unwrap().concat();
    let mut expected = text(12, 16);
    expected.resize(32, 0);
    assert_eq!(second, expected);
}

#[test]
fn two_spaces_share_no_frame_but_the_trampoline() {
    let (mut allocator, mut mem) = machine(128);
    let first = two_segments(1);
    let second = two_segments(2);
    let (a, _, _) = MemorySet::from_elf(&mut allocator, &mut mem, &first, TRAMPOLINE_FRAME).unwrap();
    let (b, _, _) = MemorySet::from_elf(&mut allocator, &mut mem, &second, TRAMPOLINE_FRAME).unwrap();
    let pages = [0x10, 0x11, 0x12, 0x14, 0x15, TRAP_CONTEXT_VPN, TRAMPOLINE_VPN];
    let frames_a = mapped_frames(&a, &mem, &pages);
    let frames_b = mapped_frames(&b, &mem, &pages);
    for frame in &frames_a {
        if frames_b.contains(frame) {
            assert_eq!(*frame, TRAMPOLINE_FRAME);
        }
    }
    assert_eq!(frames_a[6], TRAMPOLINE_FRAME);
    assert_eq!(frames_b[6], TRAMPOLINE_FRAME);
    assert_ne!(a.token(), b.token());
    // building the second space has left the first as it was
    let bytes = translated_byte_buffer(&mem, a.token(), 0x10000, 0x1234).unwrap().concat();
    assert_eq!(bytes, text(1, 0x1234));
    let bytes = translated_byte_buffer(&mem, b.token(), 0x10000, 0x1234).unwrap().concat();
    assert_eq!(bytes, text(2, 0x1234));
}

#[test]
fn invalid_image_is_refused_and_leaves_no_frame_in_use() {
    let (mut allocator, mut mem) = machine(64);
    let overlapping = image(
        0x10000,
        vec![
            (0x10000, 0x2000, MapPermission::R, vec![1]),
            (0x11000, 0x1000, MapPermission::R, vec![2]),
        ],
    );
    assert_eq!(
        MemorySet::from_elf(&mut allocator, &mut mem, &overlapping, TRAMPOLINE_FRAME).err(),
        Some(MapError::AlreadyMapped)
    );
    let too_high = image(0, vec![(0x7f_ffff_b000, 1, MapPermission::R, vec![])]);
    assert_eq!(
        MemorySet::from_elf(&mut allocator, &mut mem, &too_high, TRAMPOLINE_FRAME).err(),
        Some(MapError::InvalidRange)
    );
    let too_long = image(0, vec![(0x1000, 0x800, MapPermission::R, vec![0; 0x801])]);
    assert_eq!(
        MemorySet::from_elf(&mut allocator, &mut mem, &too_long, TRAMPOLINE_FRAME).err(),
        Some(MapError::InvalidRange)
    );
    let unaligned = image(0, vec![(0x1008, 0x800, MapPermission::R, vec![0; 8])]);
    assert_eq!(
        MemorySet::from_elf(&mut allocator, &mut mem, &unaligned, TRAMPOLINE_FRAME).err(),
        Some(MapError::InvalidRange)
    );
    let mut free = 0;
    while allocator.allocate().is_some() {
        free += 1;
    }
    assert_eq!(free, 64);
}

#[test]
fn image_too_large_for_the_frames_fails_and_leaves_no_frame_in_use() {
    let (mut allocator, mut mem) = machine(9);
    let app = two_segments(3);
    assert_eq!(
        MemorySet::from_elf(&mut allocator, &mut mem, &app, TRAMPOLINE_FRAME).err(),
        Some(MapError::OutOfFrames)
    );
    let mut free = 0;
    while allocator.allocate().is_some() {
        free += 1;
    }
    assert_eq!(free, 9);
}

#[test]
fn image_without_segments_has_stack_and_trap_context() {
    let (mut allocator, mut mem) = machine(64);
    let empty = image(0x42, vec![]);
    let (space, user_sp, entry) =
        MemorySet::from_elf(&mut allocator, &mut mem, &empty, TRAMPOLINE_FRAME).unwrap();
    assert_eq!(entry, 0x42);
    assert_eq!(user_sp, 0x3000);
    assert_eq!(space.translate(&mem, VirtPageNum(0)), None);
    assert!(space.translate(&mem, VirtPageNum(1)).is_some());
    assert!(space.translate(&mem, VirtPageNum(2)).is_some());
    assert!(space.translate(&mem, VirtPageNum(TRAP_CONTEXT_VPN)).is_some());
}

#[test]
fn released_space_gives_all_its_frames_back() {
    let (mut allocator, mut mem) = machine(64);
    let app = two_segments(3);
    let (space, _, _) =
        MemorySet::from_elf(&mut allocator, &mut mem, &app, TRAMPOLINE_FRAME).unwrap();
    space.release(&mut allocator, &mem);
    let mut free = 0;
    while allocator.allocate().is_some() {
        free += 1;
    }
    assert_eq!(free, 64);
}

#[test]
fn space_of_an_image_takes_exactly_its_frames() {
    // the root; two nodes for the trampoline page; six pages of segments,
    // stack and trap context; two nodes for the pages in the low addresses
    let app = two_segments(3);
    let (mut allocator, mut mem) = machine(11);
    let built = MemorySet::from_elf(&mut allocator, &mut mem, &app, TRAMPOLINE_FRAME);
    assert!(built.is_ok());
    assert_eq!(allocator.allocate(), None);
    let (mut allocator, mut mem) = machine(10);
    assert_eq!(
        MemorySet::from_elf(&mut allocator, &mut mem, &app, TRAMPOLINE_FRAME).err(),
        Some(MapError::OutOfFrames)
    );
    let (mut allocator, mut mem) = machine(2);
    assert_eq!(
        MemorySet::from_elf(&mut allocator, &mut mem, &app, TRAMPOLINE_FRAME).err(),
        Some(MapError::OutOfFrames)
    );
}

#[test]
fn first_failure_decides_the_error() {
    // the second segment is not valid, the third overlaps the first
    let mixed = image(
        0,
        vec![
            (0x10000, 0x1000, MapPermission::R, vec![1]),
            (0x20001, 0x1000, MapPermission::R, vec![2]),
            (0x10000, 0x1000, MapPermission::R, vec![3]),
        ],
    );
    let (mut allocator, mut mem) = machine(64);
    assert_eq!(
        MemorySet::from_elf(&mut allocator, &mut mem, &mixed, TRAMPOLINE_FRAME).err(),
        Some(MapError::InvalidRange)
    );
    // with too few frames for the first segment, the frames run out first
    let (mut allocator, mut mem) = machine(4);
    assert_eq!(
        MemorySet::from_elf(&mut allocator, &mut mem, &mixed, TRAMPOLINE_FRAME).err(),
        Some(MapError::OutOfFrames)
    );
    // a page that is taken needs a frame before it is found to be taken
    let (mut allocator, mut mem) = machine(4);
    let mut space = MemorySet::new_bare(&mut allocator, &mut mem).unwrap();
    let r = perm(MapPermission::R);
    space.insert_framed_area(&mut allocator, &mut mem, VirtAddr(0), VirtAddr(0x1000), r).unwrap();
    assert_eq!(
        space.insert_framed_area(&mut allocator, &mut mem, VirtAddr(0), VirtAddr(0x1000), r),
        Err(MapError::OutOfFrames)
    );
    let (mut allocator, mut mem) = machine(5);
    let mut space = MemorySet::new_bare(&mut allocator, &mut mem).unwrap();
    space.insert_framed_area(&mut allocator, &mut mem, VirtAddr(0), VirtAddr(0x1000), r).unwrap();
    assert_eq!(
        space.insert_framed_area(&mut allocator, &mut mem, VirtAddr(0), VirtAddr(0x1000), r),
        Err(MapError::AlreadyMapped)
    );
}

fn layout() -> KernelLayout {
    KernelLayout {
        stext: 0x8020_0000,
        etext: 0x8020_2000,
        srodata: 0x8020_2000,
        erodata: 0x8020_3000,
        sdata: 0x8020_3000,
        edata: 0x8020_4000,
        sbss: 0x8020_4000,
        ebss: 0x8020_5800,
        ekernel: 0x8020_6000,
        memory_end: 0x8024_0000,
    }
}

fn kernel_machine(frames: usize) -> (StackFrameAllocator, PhysMemory) {
    let mem = PhysMemory::new(PhysPageNum(0x80206), frames);
    let mut allocator = StackFrameAllocator::new();
    allocator.init(PhysPageNum(0x80206), PhysPageNum(0x80206 + frames as u64));
    (allocator, mem)
}

#[test]
fn kernel_space_maps_the_image_and_memory_identically() {
    let (mut allocator, mut mem) = kernel_machine(58);
    let trampoline = PhysPageNum(0x80201);
    let kernel = MemorySet::new_kernel(&mut allocator, &mut mem, &layout(), trampoline).unwrap();
    let flags = |vpn: u64| {
        let pte = kernel.translate(&mem, VirtPageNum(vpn)).unwrap();
        assert_eq!(pte.ppn(), PhysPageNum(vpn));
        pte.flags().bits()
    };
    assert_eq!(flags(0x80200), PTEFlags::R | PTEFlags::X | PTEFlags::V);
    assert_eq!(flags(0x80201), PTEFlags::R | PTEFlags::X | PTEFlags::V);
    assert_eq!(flags(0x80202), PTEFlags::R | PTEFlags::V);
    assert_eq!(flags(0x80203), PTEFlags::R | PTEFlags::W | PTEFlags::V);
    assert_eq!(flags(0x80204), PTEFlags::R | PTEFlags::W | PTEFlags::V);
    assert_eq!(flags(0x80205), PTEFlags::R | PTEFlags::W | PTEFlags::V);
    assert_eq!(flags(0x80206), PTEFlags::R | PTEFlags::W | PTEFlags::V);
    assert_eq!(flags(0x8023f), PTEFlags::R | PTEFlags::W | PTEFlags::V);
    assert_eq!(kernel.translate(&mem, VirtPageNum(0x80240)), None);
    assert_eq!(kernel.translate(&mem, VirtPageNum(0x801ff)), None);
    let pte = kernel.translate(&mem, VirtPageNum(TRAMPOLINE_VPN)).unwrap();
    assert_eq!(pte.ppn(), trampoline);
    // the root, two nodes for the trampoline page, two for the image and memory
    assert_eq!(allocator.allocate(), Some(PhysPageNum(0x80206 + 5)));
}

#[test]
fn kernel_space_with_a_bad_layout_is_refused() {
    let (mut allocator, mut mem) = kernel_machine(58);
    let trampoline = PhysPageNum(0x80201);
    let reversed = KernelLayout { etext: 0x8010_0000, ..layout() };
    assert_eq!(
        MemorySet::new_kernel(&mut allocator, &mut mem, &reversed, trampoline).err(),
        Some(MapError::InvalidRange)
    );
    let overlapping = KernelLayout { srodata: 0x8020_1000, ..layout() };
    assert_eq!(
        MemorySet::new_kernel(&mut allocator, &mut mem, &overlapping, trampoline).err(),
        Some(MapError::AlreadyMapped)
    );
    let (mut few, mut small) = kernel_machine(4);
    assert_eq!(
        MemorySet::new_kernel(&mut few, &mut small, &layout(), trampoline).err(),
        Some(MapError::OutOfFrames)
    );
    let mut free = 0;
    while allocator.allocate().is_some() {
        free += 1;
    }
    assert_eq!(free, 58);
}
