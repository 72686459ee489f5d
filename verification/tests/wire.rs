use runison::codec::{
    read_addr, read_change, read_kind, read_peer, read_status, write_addr, write_change,
    write_kind, write_peer, write_status,
};
use runison::diff::{Change, ChangeType};
use runison::message::{Peer, SocketAddress};
use runison::node::Node;
use runison::snapshot::{read_entry, read_listing, read_node, write_entry, write_listing, write_node};
use runison::index::Index;
use runison::synchronizer::Status;
use runison::wire::{
    read_blob, read_bool, read_text, read_u128, read_u16, read_u32, read_u64, read_u8, write_blob,
    write_bool, write_text, write_u128, write_u16, write_u32, write_u64, write_u8,
};

fn wire_node(key: &str) -> Node {
    Node {
        is_dir: false,
        is_file: true,
        is_symlink: false,
        name: String::from("n"),
        path: String::from("/A/n"),
        relative_path: String::from(key),
        len: 1,
        mod_seconds: 2,
        mod_nano: 3,
        inode: 4,
    }
}

#[test]
fn integers_are_little_endian() {
    let mut out = vec![0xee];
    write_u8(&mut out, 0x12);
    write_u16(&mut out, 0x1234);
    write_u32(&mut out, 0x1234_5678);
    write_u64(&mut out, 0x0102_0304_0506_0708);
    write_u128(&mut out, 0x0102_0304_0506_0708_090a_0b0c_0d0e_0f10);
    assert_eq!(
        out,
        vec![
            0xee, 0x12, 0x34, 0x12, 0x78, 0x56, 0x34, 0x12, 8, 7, 6, 5, 4, 3, 2, 1, 0x10, 0x0f,
            0x0e, 0x0d, 0x0c, 0x0b, 0x0a, 9, 8, 7, 6, 5, 4, 3, 2, 1
        ]
    );
    assert_eq!(read_u8(&out, 1), Some((0x12, 2)));
    assert_eq!(read_u16(&out, 2), Some((0x1234, 4)));
    assert_eq!(read_u32(&out, 4), Some((0x1234_5678, 8)));
    assert_eq!(read_u64(&out, 8), Some((0x0102_0304_0506_0708, 16)));
    assert_eq!(read_u128(&out, 16), Some((0x0102_0304_0506_0708_090a_0b0c_0d0e_0f10, 32)));
}

#[test]
fn reading_past_the_end_gives_nothing() {
    let bytes = [1u8, 2, 3];
    assert_eq!(read_u8(&bytes, 3), None);
    assert_eq!(read_u16(&bytes, 2), None);
    assert_eq!(read_u32(&bytes, 0), None);
    assert_eq!(read_u64(&bytes, 0), None);
    assert_eq!(read_u128(&bytes, 0), None);
    assert_eq!(read_bool(&bytes, 3), None);
    assert_eq!(read_blob(&bytes, 0), None);
    assert_eq!(read_text(&bytes, 0), None);
}

#[test]
fn booleans_are_zero_or_one() {
    let mut out = Vec::new();
    write_bool(&mut out, false);
    write_bool(&mut out, true);
    assert_eq!(out, vec![0, 1]);
    assert_eq!(read_bool(&out, 0), Some((false, 1)));
    assert_eq!(read_bool(&out, 1), Some((true, 2)));
    assert_eq!(read_bool(&[2], 0), None);
    assert_eq!(read_bool(&[255], 0), None);
}

#[test]
fn text_is_its_utf8_bytes_after_their_count() {
    let mut out = Vec::new();
    write_text(&mut out, "a\u{e9}\u{20ac}");
    assert_eq!(out, vec![6, 0, 0, 0, 0, 0, 0, 0, b'a', 0xc3, 0xa9, 0xe2, 0x82, 0xac]);
    assert_eq!(read_text(&out, 0), Some((String::from("a\u{e9}\u{20ac}"), 14)));
    let mut empty = Vec::new();
    write_text(&mut empty, "");
    assert_eq!(empty, vec![0; 8]);
    assert_eq!(read_text(&empty, 0), Some((String::new(), 8)));
}

#[test]
fn text_that_is_not_utf8_is_refused() {
    // a lone continuation byte, a truncated sequence, an overlong form, a surrogate
    for bad in [vec![0x80u8], vec![0xe2, 0x82], vec![0xc0, 0x80], vec![0xed, 0xa0, 0x80]] {
        let mut bytes = Vec::new();
        write_blob(&mut bytes, &bad);
        assert_eq!(read_blob(&bytes, 0), Some((bad.clone(), bytes.len())));
        assert_eq!(read_text(&bytes, 0), None);
    }
}

#[test]
fn blob_with_a_count_beyond_the_input_is_refused() {
    assert_eq!(read_blob(&[2, 0, 0, 0, 0, 0, 0, 0, 1], 0), None);
    assert_eq!(read_blob(&[0xff; 9], 0), None);
    assert_eq!(read_blob(&[1, 0, 0, 0, 0, 0, 0, 0, 7, 8], 0), Some((vec![7], 9)));
}

#[test]
fn addresses_status_and_kinds() {
    let mut out = Vec::new();
    write_addr(&mut out, &SocketAddress::V4(0xc0a8_0001, 80));
    assert_eq!(out, vec![4, 1, 0, 0xa8, 0xc0, 80, 0]);
    assert_eq!(read_addr(&out, 0), Some((SocketAddress::V4(0xc0a8_0001, 80), 7)));
    let mut six = Vec::new();
    write_addr(&mut six, &SocketAddress::V6(1, 0x1f90));
    assert_eq!(six.len(), 1 + 16 + 2);
    assert_eq!(six[0], 6);
    assert_eq!(read_addr(&six, 0), Some((SocketAddress::V6(1, 0x1f90), 19)));
    assert_eq!(read_addr(&[5, 0, 0, 0, 0, 0, 0], 0), None);

    for (status, tag) in [
        (Status::Starting, 0u8),
        (Status::Indexing, 1),
        (Status::Running, 2),
        (Status::Stopping, 3),
    ] {
        let mut bytes = Vec::new();
        write_status(&mut bytes, status);
        assert_eq!(bytes, vec![tag]);
        assert_eq!(read_status(&bytes, 0), Some((status, 1)));
    }
    assert_eq!(read_status(&[4], 0), None);

    for (kind, tag) in
        [(ChangeType::Added, 0u8), (ChangeType::Modified, 1), (ChangeType::Deleted, 2)]
    {
        let mut bytes = Vec::new();
        write_kind(&mut bytes, kind);
        assert_eq!(bytes, vec![tag]);
        assert_eq!(read_kind(&bytes, 0), Some((kind, 1)));
    }
    assert_eq!(read_kind(&[3], 0), None);
}

#[test]
fn peers_changes_and_entries() {
    let peer = Peer { name: String::from("alice"), addr: SocketAddress::V4(1, 2) };
    let mut out = Vec::new();
    write_peer(&mut out, &peer);
    assert_eq!(read_peer(&out, 0), Some((peer, out.len())));

    let change = Change { change_type: ChangeType::Modified, node: wire_node("k") };
    let mut bytes = vec![9, 9];
    write_change(&mut bytes, &change);
    assert_eq!(bytes[2], 1);
    assert_eq!(read_change(&bytes, 2), Some((change, bytes.len())));

    let mut entry = Vec::new();
    write_entry(&mut entry, &wire_node("k"));
    assert_eq!(read_entry(&entry, 0), Some((wire_node("k"), entry.len())));
    let mut node = Vec::new();
    write_node(&mut node, &wire_node("k"));
    assert_eq!(entry[9..], node[..]);
    // the key comes from the one who reads the record
    assert_eq!(read_node(&node, 0, String::from("other")), Some((wire_node("other"), node.len())));
}

#[test]
fn listing_in_the_middle_of_a_buffer() {
    let mut index = Index::new();
    index.insert(wire_node("b"));
    index.insert(wire_node("a"));
    let mut bytes = vec![1, 2, 3];
    write_listing(&mut bytes, &index);
    let end = bytes.len();
    bytes.extend_from_slice(&[4, 5]);
    assert_eq!(read_listing(&bytes, 3), Some((index, end)));
}
