use sv39_os::mm::address::{PhysAddr, PhysPageNum, VirtAddr, VirtPageNum};

#[test]
fn phys_addr_keeps_56_bits() {
    assert_eq!(PhysAddr::from(u64::MAX), PhysAddr(0x00ff_ffff_ffff_ffff));
    assert_eq!(PhysAddr::from(0x8020_0000), PhysAddr(0x8020_0000));
}

#[test]
fn page_numbers_keep_their_width() {
    assert_eq!(PhysPageNum::from(u64::MAX), PhysPageNum(0xfff_ffff_ffff));
    assert_eq!(VirtPageNum::from(u64::MAX), VirtPageNum(0x7ff_ffff));
    assert_eq!(VirtAddr::from(u64::MAX), VirtAddr(0x7f_ffff_ffff));
    assert_eq!(VirtAddr::from(0xffff_ffff_ffff_f000), VirtAddr(0x7f_ffff_f000));
}

#[test]
fn conversions_back_to_numbers() {
    assert_eq!(u64::from(PhysAddr(0x1234)), 0x1234);
    assert_eq!(u64::from(PhysPageNum(7)), 7);
    assert_eq!(u64::from(VirtAddr(0x1234)), 0x1234);
    assert_eq!(u64::from(VirtPageNum(7)), 7);
    assert_eq!(PhysAddr::from(PhysPageNum(0x80200)), PhysAddr(0x8020_0000));
    assert_eq!(VirtAddr::from(VirtPageNum(3)), VirtAddr(0x3000));
}

#[test]
fn page_offset_floor_and_ceil() {
    let pa = PhysAddr(0x8020_0abc);
    assert_eq!(pa.page_offset(), 0xabc);
    assert_eq!(pa.floor(), PhysPageNum(0x80200));
    assert_eq!(pa.ceil(), PhysPageNum(0x80201));
    let aligned = PhysAddr(0x8020_0000);
    assert_eq!(aligned.page_offset(), 0);
    assert_eq!(aligned.floor(), PhysPageNum(0x80200));
    assert_eq!(aligned.ceil(), PhysPageNum(0x80200));
    assert_eq!(aligned.page_number(), PhysPageNum(0x80200));
    assert_eq!(PhysAddr(0).ceil(), PhysPageNum(0));
    assert_eq!(PhysAddr(u64::MAX).ceil(), PhysPageNum(0x10_0000_0000_0000));
    let va = VirtAddr(0x1001);
    assert_eq!(va.page_offset(), 1);
    assert_eq!(va.floor(), VirtPageNum(1));
    assert_eq!(va.ceil(), VirtPageNum(2));
}

#[test]
fn indexes_split_the_page_number() {
    let vpn = VirtPageNum((3 << 18) | (5 << 9) | 7);
    assert_eq!(vpn.indexes(), [3, 5, 7]);
    assert_eq!(VirtPageNum::from_indexes([3, 5, 7]), vpn);
    assert_eq!(VirtPageNum(0x7ff_ffff).indexes(), [511, 511, 511]);
    assert_eq!(VirtPageNum(0).indexes(), [0, 0, 0]);
}

#[test]
fn page_number_is_rebuilt_from_its_indexes() {
    for vpn in [0u64, 1, 511, 512, 0x3_ffff, 0x4_0000, 0x123_4567, 0x7ff_ffff] {
        let idx = VirtPageNum(vpn).indexes();
        assert_eq!(VirtPageNum::from_indexes(idx), VirtPageNum(vpn));
    }
}

#[test]
fn indexes_ignore_the_bits_above_27() {
    assert_eq!(VirtPageNum(0xffff_ffff_ffff_ffff).indexes(), [511, 511, 511]);
    assert_eq!(VirtPageNum(1 << 27).indexes(), [0, 0, 0]);
}

#[test]
fn step_moves_to_the_next_page() {
    let mut vpn = VirtPageNum(41);
    vpn.step();
    assert_eq!(vpn, VirtPageNum(42));
}
