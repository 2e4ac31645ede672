use sv39_os::mm::address::PhysPageNum;
use sv39_os::mm::memory::PhysMemory;

#[test]
fn new_memory_is_zero() {
    let mem = PhysMemory::new(PhysPageNum(0x80000), 3);
    assert_eq!(mem.base_ppn(), PhysPageNum(0x80000));
    assert_eq!(mem.frames(), 3);
    for ppn in 0x80000u64..0x80003 {
        assert!(mem.contains_frame(PhysPageNum(ppn)));
        assert!(mem.frame_bytes(PhysPageNum(ppn)).iter().all(|b| *b == 0));
        assert_eq!(mem.frame_bytes(PhysPageNum(ppn)).len(), 4096);
    }
    assert!(!mem.contains_frame(PhysPageNum(0x7ffff)));
    assert!(!mem.contains_frame(PhysPageNum(0x80003)));
}

#[test]
fn words_are_stored_least_significant_byte_first() {
    let mut mem = PhysMemory::new(PhysPageNum(4), 2);
    mem.write_word(PhysPageNum(5), 3, 0x0102_0304_0506_0708);
    assert_eq!(mem.read_word(PhysPageNum(5), 3), 0x0102_0304_0506_0708);
    assert_eq!(
        mem.frame_slice(PhysPageNum(5), 24, 32),
        &[0x08, 0x07, 0x06, 0x05, 0x04, 0x03, 0x02, 0x01]
    );
    assert_eq!(mem.read_word(PhysPageNum(5), 2), 0);
    assert_eq!(mem.read_word(PhysPageNum(5), 4), 0);
    assert_eq!(mem.read_word(PhysPageNum(4), 3), 0);
}

#[test]
fn bytes_written_are_read_back_as_words() {
    let mut mem = PhysMemory::new(PhysPageNum(0), 1);
    mem.write_bytes(PhysPageNum(0), 8, &[0xef, 0xbe, 0xad, 0xde, 0, 0, 0, 0x80]);
    assert_eq!(mem.read_word(PhysPageNum(0), 1), 0x8000_0000_dead_beef);
    mem.write_bytes(PhysPageNum(0), 4093, &[1, 2, 3]);
    assert_eq!(mem.read_word(PhysPageNum(0), 511), 0x0302_0100_0000_0000);
}

#[test]
fn last_word_of_a_frame_does_not_touch_the_next_frame() {
    let mut mem = PhysMemory::new(PhysPageNum(9), 2);
    mem.write_word(PhysPageNum(9), 511, u64::MAX);
    assert_eq!(mem.read_word(PhysPageNum(9), 511), u64::MAX);
    assert_eq!(mem.read_word(PhysPageNum(10), 0), 0);
    assert_eq!(mem.read_word(PhysPageNum(9), 510), 0);
}

#[test]
fn clear_frame_zeroes_one_frame_only() {
    let mut mem = PhysMemory::new(PhysPageNum(9), 2);
    mem.write_word(PhysPageNum(9), 1, 11);
    mem.write_word(PhysPageNum(10), 1, 22);
    mem.clear_frame(PhysPageNum(9));
    assert_eq!(mem.read_word(PhysPageNum(9), 1), 0);
    assert_eq!(mem.read_word(PhysPageNum(10), 1), 22);
}

#[test]
fn get_bytes_array_is_the_frame() {
    let mut mem = PhysMemory::new(PhysPageNum(9), 2);
    mem.write_bytes(PhysPageNum(10), 0, &[7, 8, 9]);
    let bytes = PhysPageNum(10).get_bytes_array(&mem);
    assert_eq!(bytes.len(), 4096);
    assert_eq!(&bytes[..4], &[7, 8, 9, 0]);
}
