use ui2d::applet::{CommonArguments, COMMON_ARGUMENTS_SIZE};

#[test]
fn common_arguments_fields() {
    let a = CommonArguments::new(1, 0x20000, 0, false, 0x1122_3344_5566_7788);
    assert_eq!(a.version, 1);
    assert_eq!(a.size, 32);
    assert_eq!(COMMON_ARGUMENTS_SIZE, 32);
    assert_eq!(a.la_api_version, 0x20000);
    assert_eq!(a.pad, [0u8; 7]);
    assert_eq!(a.system_tick, 0x1122_3344_5566_7788);
}

#[test]
fn common_arguments_bytes() {
    let a = CommonArguments::new(1, 0x20000, 0xAABB_CCDD, true, 0x1122_3344_5566_7788);
    let b = a.to_bytes();
    assert_eq!(
        b,
        vec![
            1, 0, 0, 0, 32, 0, 0, 0, 0, 0, 2, 0, 0xDD, 0xCC, 0xBB, 0xAA, 1, 0, 0, 0, 0, 0, 0, 0,
            0x88, 0x77, 0x66, 0x55, 0x44, 0x33, 0x22, 0x11,
        ]
    );
}
