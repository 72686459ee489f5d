use runison::error::Error;
use runison::index::Index;
use runison::node::Node;
use runison::snapshot::{decode_index, encode_index};

fn snap_file(key: &str, len: u64, secs: u64, nanos: u32, inode: u64) -> Node {
    Node {
        is_dir: false,
        is_file: true,
        is_symlink: false,
        name: String::from(key),
        path: format!("/A/{}", key),
        relative_path: String::from(key),
        len,
        mod_seconds: secs,
        mod_nano: nanos,
        inode,
    }
}

fn snap_bytes_of_f1() -> Vec<u8> {
    let mut bytes: Vec<u8> = Vec::new();
    bytes.extend_from_slice(&[1, 0, 0, 0, 0, 0, 0, 0]); // count
    bytes.extend_from_slice(&[2, 0, 0, 0, 0, 0, 0, 0]); // key_len
    bytes.extend_from_slice(b"f1");
    bytes.extend_from_slice(&[0, 1, 0]); // is_dir, is_file, is_symlink
    bytes.extend_from_slice(&[2, 0, 0, 0, 0, 0, 0, 0]); // name_len
    bytes.extend_from_slice(b"f1");
    bytes.extend_from_slice(&[5, 0, 0, 0, 0, 0, 0, 0]); // path_len
    bytes.extend_from_slice(b"/A/f1");
    bytes.extend_from_slice(&[10, 0, 0, 0, 0, 0, 0, 0]); // len
    bytes.extend_from_slice(&[100, 0, 0, 0, 0, 0, 0, 0]); // mod_secs
    bytes.extend_from_slice(&[0x15, 0xcd, 0x5b, 0x07]); // mod_nanos = 123456789
    bytes.extend_from_slice(&[7, 1, 0, 0, 0, 0, 0, 0]); // inode = 263
    bytes
}

#[test]
fn snapshot_is_bit_exact() {
    let mut index = Index::new();
    index.insert(snap_file("f1", 10, 100, 123_456_789, 263));
    assert_eq!(encode_index(&index), snap_bytes_of_f1());
}

#[test]
fn snapshot_of_the_empty_index_is_its_count() {
    assert_eq!(encode_index(&Index::new()), vec![0u8; 8]);
    assert_eq!(decode_index(&[0u8; 8]), Ok(Index::new()));
}

#[test]
fn decode_reads_what_encode_wrote() {
    let decoded = decode_index(&snap_bytes_of_f1()).unwrap();
    assert_eq!(decoded.len(), 1);
    assert_eq!(decoded.get("f1"), Some(&snap_file("f1", 10, 100, 123_456_789, 263)));
}

#[test]
fn round_trip_of_an_index() {
    let mut index = Index::new();
    index.insert(snap_file("z", 1, u64::MAX, 999_999_999, u64::MAX));
    index.insert(snap_file("a", 0, 0, 0, 0));
    index.insert(snap_file("sub/\u{e9}\u{20ac}", 3, 1_700_000_000, 1, 9));
    index.insert(Node {
        is_dir: true,
        is_file: false,
        is_symlink: false,
        name: String::from("A"),
        path: String::from("/A"),
        relative_path: String::from("/A"),
        len: 4096,
        mod_seconds: 5,
        mod_nano: 6,
        inode: 2,
    });
    let bytes = encode_index(&index);
    assert_eq!(decode_index(&bytes), Ok(index));
}

#[test]
fn timestamp_survives_without_truncation() {
    let mut index = Index::new();
    index.insert(snap_file("f", 1, 0x0102_0304_0506_0708, 0x0a0b_0c0d, 1));
    let decoded = decode_index(&encode_index(&index)).unwrap();
    assert_eq!(decoded.node(0).mod_seconds, 0x0102_0304_0506_0708);
    assert_eq!(decoded.node(0).mod_nano, 0x0a0b_0c0d);
}

#[test]
fn same_index_same_bytes_whatever_the_order_of_insertion() {
    let mut first = Index::new();
    let mut second = Index::new();
    for key in ["a", "b", "c", "d"] {
        first.insert(snap_file(key, 1, 1, 1, 1));
    }
    for key in ["d", "b", "a", "c"] {
        second.insert(snap_file(key, 1, 1, 1, 1));
    }
    assert_eq!(encode_index(&first), encode_index(&second));
}

#[test]
fn truncated_snapshot_is_a_decode_error() {
    let bytes = snap_bytes_of_f1();
    let mut cut = 0;
    while cut < bytes.len() {
        assert_eq!(decode_index(&bytes[..cut]), Err(Error::SnapshotDecodeError));
        cut += 1;
    }
}

#[test]
fn trailing_bytes_are_a_decode_error() {
    let mut bytes = snap_bytes_of_f1();
    bytes.push(0);
    assert_eq!(decode_index(&bytes), Err(Error::SnapshotDecodeError));
}

#[test]
fn flag_that_is_neither_zero_nor_one_is_a_decode_error() {
    let mut bytes = snap_bytes_of_f1();
    bytes[8 + 8 + 2 + 1] = 2;
    assert_eq!(decode_index(&bytes), Err(Error::SnapshotDecodeError));
}

#[test]
fn key_that_is_not_utf8_is_a_decode_error() {
    let mut bytes = snap_bytes_of_f1();
    bytes[8 + 8] = 0xff;
    assert_eq!(decode_index(&bytes), Err(Error::SnapshotDecodeError));
}

#[test]
fn length_beyond_the_input_is_a_decode_error() {
    let mut bytes = snap_bytes_of_f1();
    bytes[8 + 7] = 0x80; // key_len with its top bit set
    assert_eq!(decode_index(&bytes), Err(Error::SnapshotDecodeError));
    let mut count = snap_bytes_of_f1();
    count[0] = 2; // two entries announced, one present
    assert_eq!(decode_index(&count), Err(Error::SnapshotDecodeError));
}

#[test]
fn keys_out_of_order_are_a_decode_error() {
    let mut a = Index::new();
    a.insert(snap_file("a", 1, 1, 1, 1));
    let mut b = Index::new();
    b.insert(snap_file("b", 1, 1, 1, 1));
    let entry_a = encode_index(&a)[8..].to_vec();
    let entry_b = encode_index(&b)[8..].to_vec();
    let mut ordered = vec![2u8, 0, 0, 0, 0, 0, 0, 0];
    ordered.extend_from_slice(&entry_a);
    ordered.extend_from_slice(&entry_b);
    assert!(decode_index(&ordered).is_ok());
    let mut swapped = vec![2u8, 0, 0, 0, 0, 0, 0, 0];
    swapped.extend_from_slice(&entry_b);
    swapped.extend_from_slice(&entry_a);
    assert_eq!(decode_index(&swapped), Err(Error::SnapshotDecodeError));
    let mut twice = vec![2u8, 0, 0, 0, 0, 0, 0, 0];
    twice.extend_from_slice(&entry_a);
    twice.extend_from_slice(&entry_a);
    assert_eq!(decode_index(&twice), Err(Error::SnapshotDecodeError));
}
