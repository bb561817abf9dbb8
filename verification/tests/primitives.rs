use rain_drops::primitives::TxHash;

#[test]
fn hashes_with_the_same_bytes_are_equal() {
    let a = TxHash::new([7u8; 32]);
    let b = TxHash::new([7u8; 32]);
    assert!(a.equals(&b));
}

#[test]
fn hashes_that_differ_in_the_last_byte_are_not_equal() {
    let a = TxHash::new([7u8; 32]);
    let mut bytes = [7u8; 32];
    bytes[31] = 8;
    let b = TxHash::new(bytes);
    assert!(!a.equals(&b));
    assert!(!b.equals(&a));
}
