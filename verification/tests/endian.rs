use b2::endian::{push_be, read_be};

#[test]
fn push_be_appends_most_significant_first() {
    let mut out = vec![0xaau8];
    push_be(&mut out, 0x0102, 2);
    assert_eq!(out, vec![0xaa, 0x01, 0x02]);
    push_be(&mut out, 5, 4);
    assert_eq!(out, vec![0xaa, 0x01, 0x02, 0, 0, 0, 5]);
}

#[test]
fn push_be_keeps_the_low_bytes_only() {
    let mut out = Vec::new();
    push_be(&mut out, 0x01_0203, 2);
    assert_eq!(out, vec![0x02, 0x03]);
    let mut none = vec![1u8];
    push_be(&mut none, 99, 0);
    assert_eq!(none, vec![1u8]);
}

#[test]
fn read_be_reads_what_push_be_wrote() {
    let mut out = vec![9u8, 9];
    push_be(&mut out, u128::MAX - 5, 16);
    push_be(&mut out, 0xdead_beef, 4);
    assert_eq!(read_be(&out, 2, 16), u128::MAX - 5);
    assert_eq!(read_be(&out, 18, 4), 0xdead_beef);
    assert_eq!(read_be(&out, 0, 0), 0);
    assert_eq!(read_be(&[0x12, 0x34], 0, 2), 0x1234);
}
