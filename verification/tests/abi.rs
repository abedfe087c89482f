use monokakido::abi::LE32;
use monokakido::Error;

#[test]
fn le32_reads_little_endian() {
    let bytes = [0x78, 0x56, 0x34, 0x12, 0xAA];
    let (v, tail) = LE32::from(&bytes).unwrap();
    assert_eq!(v.read(), 0x12345678);
    assert_eq!(v.us(), 0x12345678usize);
    assert_eq!(tail, &[0xAA]);
    assert!(matches!(LE32::from(tail), Err(Error::BufferTooSmall)));
}

#[test]
fn le32_round_trips_through_its_value() {
    let v = LE32(7);
    assert_eq!(v.read(), 7);
    assert_eq!(v.us(), 7);
}
