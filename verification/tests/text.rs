use ckb::text::{push_decimal, push_hex_fixed, push_hex_u32_padded, read_le};

#[test]
fn decimal_rendering() {
    let mut s = String::from("n=");
    push_decimal(&mut s, 0);
    push_decimal(&mut s, 1234567890);
    push_decimal(&mut s, u64::MAX);
    assert_eq!(s, format!("n=0{}{}", 1234567890u64, u64::MAX));
}

#[test]
fn hex_rendering() {
    let mut s = String::new();
    push_hex_u32_padded(&mut s, 0xab);
    assert_eq!(s, format!("{:#010x}", 0xabu32));
    let mut t = String::new();
    push_hex_fixed(&mut t, 0x1234, 2);
    assert_eq!(t, "34");
}

#[test]
fn little_endian() {
    let bytes = [1u8, 2, 3, 4, 5, 6, 7, 8, 9];
    assert_eq!(read_le(&bytes, 0, 8), u64::from_le_bytes([1, 2, 3, 4, 5, 6, 7, 8]));
    assert_eq!(read_le(&bytes, 1, 4), 0x0504_0302);
    assert_eq!(read_le(&bytes, 3, 0), 0);
}
