use sv39_os::mm::address::PhysPageNum;
use sv39_os::mm::frame_allocator::{
    frame_alloc, frame_dealloc, init_frame_allocator, StackFrameAllocator,
};
use sv39_os::mm::memory::PhysMemory;

fn allocator(l: u64, r: u64) -> StackFrameAllocator {
    let mut a = StackFrameAllocator::new();
    a.init(PhysPageNum(l), PhysPageNum(r));
    a
}

#[test]
fn new_allocator_has_no_frame() {
    let mut a = StackFrameAllocator::new();
    assert_eq!(a.allocate(), None);
}

#[test]
fn allocations_advance_the_watermark() {
    let mut a = allocator(10, 13);
    assert_eq!(a.allocate(), Some(PhysPageNum(10)));
    assert_eq!(a.allocate(), Some(PhysPageNum(11)));
    assert_eq!(a.allocate(), Some(PhysPageNum(12)));
    assert_eq!(a.allocate(), None);
    assert_eq!(a.allocate(), None);
}

#[test]
fn live_allocations_are_pairwise_distinct() {
    let mut a = allocator(100, 164);
    let mut seen: Vec<PhysPageNum> = Vec::new();
    for round in 0..200u64 {
        if round % 3 == 2 {
            let back = seen.remove((round as usize * 7) % seen.len());
            assert!(a.is_allocated(back));
            a.dealloc(back);
        } else if let Some(ppn) = a.allocate() {
            assert!(!seen.contains(&ppn));
            seen.push(ppn);
        }
    }
}

#[test]
fn freed_frame_is_reused_last_in_first_out() {
    let mut a = allocator(10, 20);
    let first = a.allocate().unwrap();
    let second = a.allocate().unwrap();
    let third = a.allocate().unwrap();
    a.dealloc(first);
    a.dealloc(third);
    assert_eq!(a.allocate(), Some(third));
    assert_eq!(a.allocate(), Some(first));
    assert_eq!(a.allocate(), Some(PhysPageNum(13)));
    assert_ne!(second, first);
}

#[test]
fn a_frame_above_the_watermark_is_not_allocated() {
    let mut a = allocator(10, 20);
    assert!(!a.is_allocated(PhysPageNum(10)));
    a.allocate().unwrap();
    assert!(a.is_allocated(PhysPageNum(10)));
    assert!(!a.is_allocated(PhysPageNum(11)));
    assert!(!a.is_allocated(PhysPageNum(500)));
    assert_eq!(a.allocate(), Some(PhysPageNum(11)));
    assert!(a.is_allocated(PhysPageNum(11)));
}

#[test]
fn a_freed_frame_is_not_allocated_until_it_is_given_out_again() {
    let mut a = allocator(10, 20);
    let ppn = a.allocate().unwrap();
    let other = a.allocate().unwrap();
    a.dealloc(ppn);
    assert!(!a.is_allocated(ppn));
    assert!(a.is_allocated(other));
    assert_eq!(a.allocate(), Some(ppn));
    assert!(a.is_allocated(ppn));
    assert_eq!(a.allocate(), Some(PhysPageNum(12)));
}

#[test]
fn init_frame_allocator_takes_the_whole_frames_between() {
    let mut a = StackFrameAllocator::new();
    init_frame_allocator(&mut a, 0x8020_0001, 0x8020_3fff);
    assert_eq!(a.allocate(), Some(PhysPageNum(0x80201)));
    assert_eq!(a.allocate(), Some(PhysPageNum(0x80202)));
    assert_eq!(a.allocate(), None);
}

#[test]
fn frame_alloc_zero_fills_the_frame() {
    let mut mem = PhysMemory::new(PhysPageNum(10), 4);
    let mut a = allocator(10, 14);
    mem.write_bytes(PhysPageNum(10), 5, &[1, 2, 3]);
    mem.write_word(PhysPageNum(11), 7, 0xdead_beef);
    let frame = frame_alloc(&mut a, &mut mem).unwrap();
    assert_eq!(frame.ppn, PhysPageNum(10));
    assert!(mem.frame_bytes(PhysPageNum(10)).iter().all(|b| *b == 0));
    assert_eq!(mem.read_word(PhysPageNum(11), 7), 0xdead_beef);
    frame_dealloc(&mut a, frame.ppn);
    assert!(!a.is_allocated(PhysPageNum(10)));
    mem.write_word(PhysPageNum(10), 0, 77);
    let again = frame_alloc(&mut a, &mut mem).unwrap();
    assert_eq!(again.ppn, PhysPageNum(10));
    assert_eq!(mem.read_word(PhysPageNum(10), 0), 0);
}

#[test]
fn frame_alloc_gives_nothing_when_exhausted() {
    let mut mem = PhysMemory::new(PhysPageNum(10), 1);
    let mut a = allocator(10, 11);
    assert!(frame_alloc(&mut a, &mut mem).is_some());
    assert!(frame_alloc(&mut a, &mut mem).is_none());
}

#[test]
fn only_the_watermark_and_the_recycled_frames_are_tested() {
    // a frame below the range is below the watermark, and so counts as in use
    let mut a = allocator(10, 20);
    assert!(a.is_allocated(PhysPageNum(5)));
    a.dealloc(PhysPageNum(5));
    assert_eq!(a.allocate(), Some(PhysPageNum(5)));
    assert_eq!(a.allocate(), Some(PhysPageNum(10)));
}
