use lsm_core::key_order::key_eq;
use lsm_core::key_order::key_lt;
use lsm_core::wire::put_u64;
use lsm_core::wire::read_u64;

#[test]
fn keys_compare_byte_by_byte() {
    assert!(key_lt(b"a", b"b"));
    assert!(!key_lt(b"b", b"a"));
    assert!(!key_lt(b"a", b"a"));
    assert!(key_lt(b"abc", b"abd"));
    assert!(key_lt(b"ab", b"b"));
}

#[test]
fn a_prefix_sorts_before_its_extensions() {
    assert!(key_lt(b"", b"a"));
    assert!(key_lt(b"ab", b"abc"));
    assert!(!key_lt(b"abc", b"ab"));
    assert!(!key_lt(b"", b""));
}

#[test]
fn keys_compare_as_unsigned_bytes() {
    assert!(key_lt(&[0x7f], &[0x80]));
    assert!(key_lt(&[0x00, 0xff], &[0x01]));
    assert!(key_lt(&[0xfe, 0xff], &[0xff]));
    assert!(!key_lt(&[0xff], &[0x00, 0x00]));
}

#[test]
fn key_order_agrees_with_slices() {
    let keys: Vec<Vec<u8>> = vec![
        vec![],
        vec![0],
        vec![0, 0],
        vec![0, 255],
        vec![1],
        vec![127, 3],
        vec![128],
        vec![200, 1, 2],
        vec![255],
        vec![255, 255],
    ];
    for a in &keys {
        for b in &keys {
            assert_eq!(key_lt(a, b), a < b);
            assert_eq!(key_eq(a, b), a == b);
        }
    }
}

#[test]
fn keys_are_equal_when_all_bytes_are() {
    assert!(key_eq(b"", b""));
    assert!(key_eq(b"abc", b"abc"));
    assert!(!key_eq(b"abc", b"abd"));
    assert!(!key_eq(b"abc", b"ab"));
    assert!(!key_eq(b"", b"a"));
}

#[test]
fn u64_is_written_most_significant_byte_first() {
    let mut buf = vec![9u8];
    put_u64(&mut buf, 0x0102_0304_0506_0708);
    assert_eq!(buf, vec![9, 1, 2, 3, 4, 5, 6, 7, 8]);
    put_u64(&mut buf, 258);
    assert_eq!(&buf[9..], &[0, 0, 0, 0, 0, 0, 1, 2]);
}

#[test]
fn u64_round_trips() {
    for v in [0u64, 1, 255, 256, 65535, 1 << 32, u64::MAX - 1, u64::MAX] {
        let mut buf = Vec::new();
        put_u64(&mut buf, v);
        assert_eq!(buf.len(), 8);
        assert_eq!(buf, v.to_be_bytes().to_vec());
        assert_eq!(read_u64(&buf, 0), v);
    }
}

#[test]
fn u64_is_read_at_the_position() {
    let data = [7u8, 0, 0, 0, 0, 0, 0, 1, 0, 5];
    assert_eq!(read_u64(&data, 0), 0x0700_0000_0000_0001);
    assert_eq!(read_u64(&data, 1), 0x100);
    assert_eq!(read_u64(&data, 2), 0x1_0005);
}
