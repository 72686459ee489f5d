use runison::diff::{diff, diff_newer, Change, ChangeType};
use runison::index::Index;
use runison::node::Node;
use std::collections::BTreeMap;

fn diff_file(key: &str, secs: u64) -> Node {
    Node {
        is_dir: false,
        is_file: true,
        is_symlink: false,
        name: String::from(key),
        path: format!("/A/{}", key),
        relative_path: String::from(key),
        len: 1,
        mod_seconds: secs,
        mod_nano: 0,
        inode: 0,
    }
}

fn diff_dir(key: &str, secs: u64) -> Node {
    Node { is_dir: true, is_file: false, ..diff_file(key, secs) }
}

fn diff_index(nodes: Vec<Node>) -> Index {
    let mut index = Index::new();
    for node in nodes {
        index.insert(node);
    }
    index
}

fn change(kind: ChangeType, node: Node) -> Change {
    Change { change_type: kind, node }
}

fn diff_map(index: &Index) -> BTreeMap<String, Node> {
    let mut map = BTreeMap::new();
    let mut i = 0;
    while i < index.len() {
        map.insert(index.node(i).relative_path.clone(), index.node(i).clone());
        i += 1;
    }
    map
}

fn diff_apply(older: &Index, changes: &Vec<Change>) -> BTreeMap<String, Node> {
    let mut map = diff_map(older);
    for c in changes {
        match c.change_type {
            ChangeType::Added | ChangeType::Modified => {
                map.insert(c.node.relative_path.clone(), c.node.clone());
            }
            ChangeType::Deleted => {
                map.remove(&c.node.relative_path);
            }
        }
    }
    map
}

fn diff_reverse(changes: Vec<Change>) -> Vec<Change> {
    changes
        .into_iter()
        .map(|c| Change {
            change_type: match c.change_type {
                ChangeType::Added => ChangeType::Deleted,
                ChangeType::Modified => ChangeType::Modified,
                ChangeType::Deleted => ChangeType::Added,
            },
            node: c.node,
        })
        .collect()
}

#[test]
fn local_modification_is_detected() {
    let previous = diff_index(vec![diff_file("f1", 100)]);
    let current = diff_index(vec![diff_file("f1", 200)]);
    assert_eq!(diff(&previous, &current), vec![change(ChangeType::Modified, diff_file("f1", 200))]);
}

#[test]
fn deletion_is_detected() {
    let previous = diff_index(vec![diff_file("f1", 1), diff_file("f2", 1)]);
    let current = diff_index(vec![diff_file("f1", 1)]);
    assert_eq!(diff(&previous, &current), vec![change(ChangeType::Deleted, diff_file("f2", 1))]);
}

#[test]
fn addition_is_detected() {
    let previous = diff_index(vec![]);
    let current = diff_index(vec![diff_file("f1", 1)]);
    assert_eq!(diff(&previous, &current), vec![change(ChangeType::Added, diff_file("f1", 1))]);
}

#[test]
fn equal_indices_have_no_changes() {
    let a = diff_index(vec![diff_file("f1", 1), diff_dir("d", 2)]);
    assert_eq!(diff(&a, &a.clone()), Vec::<Change>::new());
}

#[test]
fn first_scan_comes_before_second_scan_each_in_key_order() {
    let older = diff_index(vec![diff_file("a", 1), diff_file("c", 1), diff_file("e", 1), diff_file("z", 1)]);
    let newer = diff_index(vec![diff_file("b", 1), diff_file("c", 2), diff_file("d", 1), diff_file("z", 1)]);
    assert_eq!(
        diff(&older, &newer),
        vec![
            change(ChangeType::Added, diff_file("b", 1)),
            change(ChangeType::Modified, diff_file("c", 2)),
            change(ChangeType::Added, diff_file("d", 1)),
            change(ChangeType::Deleted, diff_file("a", 1)),
            change(ChangeType::Deleted, diff_file("e", 1)),
        ]
    );
}

#[test]
fn directories_are_added_and_deleted_but_never_modified() {
    let older = diff_index(vec![diff_dir("both", 1), diff_dir("gone", 1)]);
    let newer = diff_index(vec![diff_dir("both", 2), diff_dir("new", 1)]);
    assert_eq!(
        diff(&older, &newer),
        vec![
            change(ChangeType::Added, diff_dir("new", 1)),
            change(ChangeType::Deleted, diff_dir("gone", 1)),
        ]
    );
}

#[test]
fn symlinks_are_compared_by_time_like_files() {
    let link = |secs: u64| Node { is_file: false, is_symlink: true, ..diff_file("l", secs) };
    let older = diff_index(vec![link(1)]);
    let newer = diff_index(vec![link(2)]);
    assert_eq!(diff(&older, &newer), vec![change(ChangeType::Modified, link(2))]);
}

#[test]
fn nanoseconds_count_and_other_fields_do_not() {
    let mut later = diff_file("f", 5);
    later.mod_nano = 1;
    let older = diff_index(vec![diff_file("f", 5)]);
    assert_eq!(diff(&older, &diff_index(vec![later.clone()])), vec![change(ChangeType::Modified, later)]);
    let mut longer = diff_file("f", 5);
    longer.len = 99;
    longer.inode = 7;
    assert_eq!(diff(&older, &diff_index(vec![longer])), Vec::<Change>::new());
}

#[test]
fn modified_reports_an_older_time_too() {
    let older = diff_index(vec![diff_file("f", 9)]);
    let newer = diff_index(vec![diff_file("f", 3)]);
    assert_eq!(diff(&older, &newer), vec![change(ChangeType::Modified, diff_file("f", 3))]);
    assert_eq!(diff_newer(&older, &newer), Vec::<Change>::new());
    assert_eq!(diff_newer(&newer, &older), vec![change(ChangeType::Modified, diff_file("f", 9))]);
}

#[test]
fn applying_the_diff_to_the_older_index_gives_the_newer() {
    let older = diff_index(vec![diff_file("a", 1), diff_file("c", 1), diff_dir("d", 1), diff_file("e", 1)]);
    let newer = diff_index(vec![diff_file("b", 1), diff_file("c", 2), diff_dir("d", 1), diff_dir("n", 3)]);
    let changes = diff(&older, &newer);
    assert_eq!(diff_apply(&older, &changes), diff_map(&newer));
}

#[test]
fn applying_the_diff_keeps_what_the_diff_passes_over() {
    // a directory with another time and a file with the same time but another length
    let mut longer = diff_file("f", 1);
    longer.len = 2;
    let older = diff_index(vec![diff_dir("d", 1), diff_file("f", 1)]);
    let newer = diff_index(vec![diff_dir("d", 2), longer, diff_file("g", 1)]);
    let applied = diff_apply(&older, &diff(&older, &newer));
    let keys: Vec<&String> = applied.keys().collect();
    assert_eq!(keys, vec!["d", "f", "g"]);
    assert_eq!(applied["d"], diff_dir("d", 1));
    assert_eq!(applied["f"], diff_file("f", 1));
    assert_eq!(applied["g"], diff_file("g", 1));
}

#[test]
fn diff_backwards_reverses_the_kinds_where_one_side_holds_the_other() {
    let small = diff_index(vec![diff_file("b", 1)]);
    let large = diff_index(vec![diff_file("a", 1), diff_file("b", 1), diff_file("c", 1)]);
    assert_eq!(diff(&small, &large), diff_reverse(diff(&large, &small)));
    assert_eq!(diff(&large, &small), diff_reverse(diff(&small, &large)));
}

#[test]
fn diff_backwards_differs_in_order_when_both_sides_have_their_own() {
    let a = diff_index(vec![diff_file("a", 1)]);
    let b = diff_index(vec![diff_file("b", 1)]);
    let forward = diff(&a, &b);
    let backward = diff_reverse(diff(&b, &a));
    assert_ne!(forward, backward);
    assert_eq!(forward, vec![change(ChangeType::Added, diff_file("b", 1)), change(ChangeType::Deleted, diff_file("a", 1))]);
    assert_eq!(backward, vec![change(ChangeType::Deleted, diff_file("a", 1)), change(ChangeType::Added, diff_file("b", 1))]);
}

#[test]
fn added_one_way_is_deleted_the_other_way() {
    let a = diff_index(vec![diff_file("a", 1), diff_file("m", 1)]);
    let b = diff_index(vec![diff_file("b", 1), diff_file("m", 2)]);
    let forward = diff(&a, &b);
    let backward = diff(&b, &a);
    assert!(forward.contains(&change(ChangeType::Added, diff_file("b", 1))));
    assert!(backward.contains(&change(ChangeType::Deleted, diff_file("b", 1))));
    assert!(forward.contains(&change(ChangeType::Deleted, diff_file("a", 1))));
    assert!(backward.contains(&change(ChangeType::Added, diff_file("a", 1))));
    assert!(forward.contains(&change(ChangeType::Modified, diff_file("m", 2))));
    assert!(backward.contains(&change(ChangeType::Modified, diff_file("m", 1))));
}
