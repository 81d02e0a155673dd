use graph_store::offset_int::offset_u128_checked;
use graph_store::offset_int::offset_u16_checked;
use graph_store::offset_int::offset_u32_checked;
use graph_store::offset_int::offset_u64_checked;
use graph_store::offset_int::offset_u8_checked;
use graph_store::offset_int::offset_usize_checked;

#[test]
fn it_works() {
    // Test overflow from MAX
    assert_eq!(offset_u8_checked(u8::MAX, 1), None);
    // Test underflow from MIN
    assert_eq!(offset_u8_checked(u8::MIN, -1), None);
    // Test regular functionality
    assert_eq!(offset_u8_checked(0, 10), Some(10));
    assert_eq!(offset_u8_checked(10, -10), Some(0));

    assert_eq!(offset_u16_checked(u16::MAX, 1), None);
    assert_eq!(offset_u16_checked(u16::MIN, -1), None);
    assert_eq!(offset_u16_checked(0, 10), Some(10));
    assert_eq!(offset_u16_checked(10, -10), Some(0));

    assert_eq!(offset_u32_checked(u32::MAX, 1), None);
    assert_eq!(offset_u32_checked(u32::MIN, -1), None);
    assert_eq!(offset_u32_checked(0, 10), Some(10));
    assert_eq!(offset_u32_checked(10, -10), Some(0));

    assert_eq!(offset_u64_checked(u64::MAX, 1), None);
    assert_eq!(offset_u64_checked(u64::MIN, -1), None);
    assert_eq!(offset_u64_checked(0, 10), Some(10));
    assert_eq!(offset_u64_checked(10, -10), Some(0));

    assert_eq!(offset_u128_checked(u128::MAX, 1), None);
    assert_eq!(offset_u128_checked(u128::MIN, -1), None);
    assert_eq!(offset_u128_checked(0, 10), Some(10));
    assert_eq!(offset_u128_checked(10, -10), Some(0));

    assert_eq!(offset_usize_checked(usize::MAX, 1), None);
    assert_eq!(offset_usize_checked(usize::MIN, -1), None);
    assert_eq!(offset_usize_checked(0, 10), Some(10));
    assert_eq!(offset_usize_checked(10, -10), Some(0));
}
