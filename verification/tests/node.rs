use runison::node::{Metadata, Node};

fn file_meta(len: u64, secs: u64, nanos: u32, inode: u64) -> Metadata {
    Metadata {
        is_dir: false,
        is_file: true,
        is_symlink: false,
        len,
        mod_seconds: secs,
        mod_nano: nanos,
        inode,
    }
}

#[test]
fn new_keeps_every_field() {
    let node = Node::new(
        false,
        true,
        false,
        String::from("f1"),
        String::from("/A/f1"),
        String::from("f1"),
        10,
        100,
        5,
        42,
    );
    assert_eq!(
        node,
        Some(Node {
            is_dir: false,
            is_file: true,
            is_symlink: false,
            name: String::from("f1"),
            path: String::from("/A/f1"),
            relative_path: String::from("f1"),
            len: 10,
            mod_seconds: 100,
            mod_nano: 5,
            inode: 42,
        })
    );
}

#[test]
fn new_wants_exactly_one_kind() {
    let make = |d: bool, f: bool, s: bool| {
        Node::new(d, f, s, String::from("n"), String::from("/A/n"), String::from("n"), 0, 0, 0, 0)
    };
    assert!(make(true, false, false).is_some());
    assert!(make(false, true, false).is_some());
    assert!(make(false, false, true).is_some());
    assert!(make(false, false, false).is_none());
    assert!(make(true, true, false).is_none());
    assert!(make(true, false, true).is_none());
    assert!(make(false, true, true).is_none());
    assert!(make(true, true, true).is_none());
}

#[test]
fn from_path_joins_the_key_to_the_root() {
    let node = Node::from_path("/A", "sub/f1", &file_meta(10, 100, 7, 3)).unwrap();
    assert_eq!(node.path, "/A/sub/f1");
    assert_eq!(node.relative_path, "sub/f1");
    assert_eq!(node.name, "f1");
    assert!(node.is_file && !node.is_dir && !node.is_symlink);
    assert_eq!((node.len, node.mod_seconds, node.mod_nano, node.inode), (10, 100, 7, 3));
}

#[test]
fn from_path_of_the_root_key_is_the_root() {
    let meta = Metadata {
        is_dir: true,
        is_file: false,
        is_symlink: false,
        len: 4096,
        mod_seconds: 1,
        mod_nano: 2,
        inode: 2,
    };
    let node = Node::from_path("/A", "/A", &meta).unwrap();
    assert_eq!(node.path, "/A");
    assert_eq!(node.relative_path, "/A");
    assert_eq!(node.name, "A");
    assert!(node.is_dir);
}

#[test]
fn from_path_has_no_record_for_an_entry_of_no_kind() {
    let meta = Metadata {
        is_dir: false,
        is_file: false,
        is_symlink: false,
        len: 0,
        mod_seconds: 0,
        mod_nano: 0,
        inode: 0,
    };
    assert_eq!(Node::from_path("/A", "socket", &meta), None);
}

#[test]
fn modification_times_compare_by_seconds_then_nanoseconds() {
    let a = Node::from_path("/A", "f", &file_meta(1, 100, 5, 1)).unwrap();
    let b = Node::from_path("/A", "f", &file_meta(1, 100, 6, 1)).unwrap();
    let c = Node::from_path("/A", "f", &file_meta(1, 101, 0, 1)).unwrap();
    assert!(a.same_time(&a));
    assert!(!a.same_time(&b));
    assert!(b.newer_than(&a));
    assert!(!a.newer_than(&b));
    assert!(c.newer_than(&b));
    assert!(!a.newer_than(&a));
}

#[test]
fn copy_of_a_node_is_the_same_node() {
    let a = Node::from_path("/A", "f", &file_meta(1, 100, 5, 1)).unwrap();
    assert_eq!(a.clone(), a);
}
