use sv39_os::sync::UPSafeCell;

#[test]
fn cell_gives_exclusive_access_to_its_value() {
    let mut cell = UPSafeCell::new(vec![1, 2, 3]);
    cell.exclusive_access().push(4);
    {
        let inner = cell.exclusive_access();
        inner[0] = 10;
    }
    assert_eq!(cell.exclusive_access().len(), 4);
    assert_eq!(cell.into_inner(), vec![10, 2, 3, 4]);
}
