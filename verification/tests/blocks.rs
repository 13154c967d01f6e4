use rb_mumble_protocol::block::{double_block, xor_block, BLOCK_SIZE, KEY_SIZE};

#[test]
fn block_and_key_are_sixteen_bytes() {
    assert_eq!(BLOCK_SIZE, 16);
    assert_eq!(KEY_SIZE, 16);
}

#[test]
fn xor_block_is_bytewise() {
    let a: [u8; 16] = [
        0x00, 0xff, 0x0f, 0xf0, 0xaa, 0x55, 0x01, 0x80, 0x12, 0x34, 0x56, 0x78, 0x9a, 0xbc, 0xde,
        0xf0,
    ];
    let b: [u8; 16] = [
        0xff, 0xff, 0xff, 0x0f, 0x55, 0x55, 0x01, 0x01, 0x21, 0x43, 0x65, 0x87, 0xa9, 0xcb, 0xed,
        0x0f,
    ];
    let expected: [u8; 16] = [
        0xff, 0x00, 0xf0, 0xff, 0xff, 0x00, 0x00, 0x81, 0x33, 0x77, 0x33, 0xff, 0x33, 0x77, 0x33,
        0xff,
    ];
    assert_eq!(xor_block(&a, &b), expected);
}

#[test]
fn xor_block_with_itself_is_zero() {
    let a: [u8; 16] = [7, 1, 2, 3, 4, 5, 6, 7, 8, 9, 10, 11, 12, 13, 14, 200];
    assert_eq!(xor_block(&a, &a), [0u8; 16]);
}

#[test]
fn double_block_shifts_left_by_one_bit() {
    let mut a = [0u8; 16];
    a[15] = 0x01;
    let mut expected = [0u8; 16];
    expected[15] = 0x02;
    assert_eq!(double_block(&a), expected);
}

#[test]
fn double_block_moves_bits_across_bytes() {
    let mut a = [0u8; 16];
    a[1] = 0x80;
    a[15] = 0x81;
    let mut expected = [0u8; 16];
    expected[0] = 0x01;
    expected[14] = 0x01;
    expected[15] = 0x02;
    assert_eq!(double_block(&a), expected);
}

#[test]
fn double_block_folds_the_top_bit_back() {
    let mut a = [0u8; 16];
    a[0] = 0x80;
    let mut expected = [0u8; 16];
    expected[15] = 0x87;
    assert_eq!(double_block(&a), expected);
}

#[test]
fn double_block_of_all_ones() {
    let mut expected = [0xffu8; 16];
    expected[15] = 0x79;
    assert_eq!(double_block(&[0xffu8; 16]), expected);
}

#[test]
fn double_block_of_zero_is_zero() {
    assert_eq!(double_block(&[0u8; 16]), [0u8; 16]);
}
