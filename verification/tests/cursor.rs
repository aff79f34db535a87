use eterm::reader::Reader;

#[test]
fn read_u8_advances() {
    let mut r = Reader::from(vec![7, 8]);
    assert_eq!(r.read_u8(), Some(7));
    assert_eq!(r.read_u8(), Some(8));
    assert_eq!(r.read_u8(), None);
}

#[test]
fn read_u16_both_orders() {
    let mut r = Reader::from(vec![1, 2]);
    assert_eq!(r.read_u16(true), Some(0x0102));
    let mut r2 = Reader::from(vec![1, 2]);
    assert_eq!(r2.read_u16(false), Some(0x0201));
}

#[test]
fn read_u32_both_orders() {
    let mut r = Reader::from(vec![1, 2, 3, 4]);
    assert_eq!(r.read_u32(true), Some(0x0102_0304));
    let mut r2 = Reader::from(vec![1, 2, 3, 4]);
    assert_eq!(r2.read_u32(false), Some(0x0403_0201));
}

#[test]
fn read_i32_negative() {
    let mut r = Reader::from(vec![255, 255, 255, 214]);
    assert_eq!(r.read_i32(true), Some(-42));
}

#[test]
fn read_i32_min_and_max() {
    let mut r = Reader::from(vec![128, 0, 0, 0, 127, 255, 255, 255]);
    assert_eq!(r.read_i32(true), Some(i32::MIN));
    assert_eq!(r.read_i32(true), Some(i32::MAX));
}

#[test]
fn read_u64_big_endian() {
    let mut r = Reader::from(vec![0, 0, 0, 1, 0, 0, 0, 2]);
    assert_eq!(r.read_u64(true), Some(0x0000_0001_0000_0002));
}

#[test]
fn read_u64_little_endian() {
    let mut r = Reader::from(vec![1, 0, 0, 0, 0, 0, 0, 0]);
    assert_eq!(r.read_u64(false), Some(1));
}

#[test]
fn short_read_leaves_cursor_in_place() {
    // A failed multi-byte read consumes nothing: the next byte-wide read
    // still sees the untouched remainder.
    let mut r = Reader::from(vec![9]);
    assert_eq!(r.read_u32(true), None);
    assert_eq!(r.read_u16(true), None);
    assert_eq!(r.read_u8(), Some(9));
}

#[test]
fn read_bytes_verbatim() {
    let mut r = Reader::from(vec![1, 2, 3, 4, 5]);
    assert_eq!(r.read_bytes(3), Some(vec![1, 2, 3]));
    assert_eq!(r.read_bytes(3), None);
    assert_eq!(r.read_bytes(2), Some(vec![4, 5]));
    assert_eq!(r.read_bytes(0), Some(vec![]));
}
