use noodles::virtual_position::VirtualPosition;

#[test]
fn test_from_u64_for_virtual_position() {
    let pos = VirtualPosition::from(88384945211);
    assert_eq!(pos.compressed(), 1348647);
    assert_eq!(pos.uncompressed(), 15419);

    let pos = VirtualPosition::from(188049630896);
    assert_eq!(pos.compressed(), 2869409);
    assert_eq!(pos.uncompressed(), 42672);

    let pos = VirtualPosition::from(26155658182977);
    assert_eq!(pos.compressed(), 399103671);
    assert_eq!(pos.uncompressed(), 321);
}

#[test]
fn test_from_virtual_position_for_u64() {
    assert_eq!(u64::from(VirtualPosition::from(88384945211)), 88384945211);
    assert_eq!(u64::from(VirtualPosition::from(188049630896)), 188049630896);
    assert_eq!(
        u64::from(VirtualPosition::from(26155658182977)),
        26155658182977
    );
}

#[test]
fn recompose_gives_back_the_value() {
    for v in [0u64, 1, 0xffff, 0x1_0000, 88384945211, u64::MAX] {
        let pos = VirtualPosition::from(v);
        let again = VirtualPosition::new(pos.compressed(), pos.uncompressed()).unwrap();
        assert_eq!(u64::from(again), v);
    }
}

#[test]
fn new_packs_both_parts() {
    let pos = VirtualPosition::new(1348647, 15419).unwrap();
    assert_eq!(pos.get(), 88384945211);
}

#[test]
fn new_refuses_parts_that_do_not_fit() {
    assert!(VirtualPosition::new(1 << 48, 0).is_none());
    assert!(VirtualPosition::new(0, 1 << 16).is_none());
    assert!(VirtualPosition::new((1 << 48) - 1, 0xffff).is_some());
}

#[test]
fn positions_order_by_block_then_offset() {
    let a = VirtualPosition::new(1, 0xffff).unwrap();
    let b = VirtualPosition::new(2, 0).unwrap();
    assert!(a < b);
}
