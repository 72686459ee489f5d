use runison::config::{Config, Ignore, Path, Root};
use runison::diff::{Change, ChangeType};
use runison::error::Error;
use runison::index::Index;
use runison::node::{Metadata, Node};
use runison::snapshot::{decode_index, encode_index};
use runison::server::SynchronizerService;
use runison::synchronizer::{
    Rename, Status, Synchronizer, Visit, Walked, CURRENT_SNAPSHOT, PREVIOUS_SNAPSHOT,
    STAGED_SNAPSHOT,
};

fn sync_config(root: &str, names: Vec<&str>, paths: Vec<&str>) -> Config {
    Config {
        root: Root { path: String::from(root) },
        path: Path { directories: Vec::new() },
        ignore: Ignore {
            name: names.into_iter().map(String::from).collect(),
            path: paths.into_iter().map(String::from).collect(),
        },
    }
}

fn sync_file_meta(len: u64, secs: u64) -> Metadata {
    Metadata {
        is_dir: false,
        is_file: true,
        is_symlink: false,
        len,
        mod_seconds: secs,
        mod_nano: 0,
        inode: 1,
    }
}

fn sync_dir_meta() -> Metadata {
    Metadata {
        is_dir: true,
        is_file: false,
        is_symlink: false,
        len: 4096,
        mod_seconds: 1,
        mod_nano: 0,
        inode: 2,
    }
}

fn walked(path: &str, meta: Option<Metadata>) -> Walked {
    Walked { path: String::from(path), meta }
}

fn sync_keys(index: &Index) -> Vec<String> {
    let mut keys = Vec::new();
    let mut i = 0;
    while i < index.len() {
        keys.push(index.node(i).relative_path.clone());
        i += 1;
    }
    keys
}

fn sync_file(root: &str, key: &str, len: u64, secs: u64) -> Node {
    Node::from_path(root, key, &sync_file_meta(len, secs)).unwrap()
}

#[test]
fn new_synchronizer_is_empty_and_not_on_a_first_run() {
    let sync = Synchronizer::new(sync_config("/A", vec![], vec![])).unwrap();
    assert_eq!(sync.entries().len(), 0);
    assert!(!sync.first_run());
    assert_eq!(sync.config(), &sync_config("/A", vec![], vec![]));
}

#[test]
fn no_synchronizer_for_an_invalid_config() {
    assert!(Synchronizer::new(sync_config("A", vec![], vec![])).is_none());
    assert!(Synchronizer::new(sync_config("/A", vec!["[x"], vec![])).is_none());
    assert!(Synchronizer::new(sync_config("/A", vec![], vec!["a**"])).is_none());
}

#[test]
fn rotation_renames_current_to_previous() {
    let mut sync = Synchronizer::new(sync_config("/A", vec![], vec![])).unwrap();
    assert_eq!(
        sync.move_index(),
        Some(Rename {
            from: String::from("/A/.runison-current"),
            to: String::from("/A/.runison-previous"),
        })
    );
    sync.index_moved(true);
    assert!(!sync.first_run());
    sync.index_moved(false);
    assert!(sync.first_run());
    // once it is a first run, it stays one and nothing is renamed
    assert_eq!(sync.move_index(), None);
    sync.index_moved(true);
    assert!(sync.first_run());
}

#[test]
fn names_of_the_snapshot_files() {
    assert_eq!(CURRENT_SNAPSHOT, ".runison-current");
    assert_eq!(PREVIOUS_SNAPSHOT, ".runison-previous");
    let sync = Synchronizer::new(sync_config("/A", vec![], vec![])).unwrap();
    assert_eq!(sync.path_below_root(STAGED_SNAPSHOT), "/A/.runison-staged");
    assert!(sync.ignores("/A/.runison-staged"));
}

#[test]
fn ignore_keeps_entries_out_of_the_snapshot() {
    let mut sync = Synchronizer::new(sync_config("/A", vec!["*.tmp"], vec![])).unwrap();
    let snapshot = sync.index(
        true,
        &vec![
            walked("/A", Some(sync_dir_meta())),
            walked("/A/a.txt", Some(sync_file_meta(1, 1))),
            walked("/A/b.tmp", Some(sync_file_meta(1, 1))),
        ],
    );
    assert_eq!(sync_keys(sync.entries()), vec!["/A", "a.txt"]);
    assert_eq!(sync_keys(&decode_index(&snapshot).unwrap()), vec!["/A", "a.txt"]);
}

#[test]
fn every_kind_of_ignore_glob_keeps_entries_out() {
    let mut sync = Synchronizer::new(sync_config("/A", vec!["*.swp"], vec!["*/cache/*"])).unwrap();
    sync.index(
        true,
        &vec![
            walked("/A/keep", Some(sync_file_meta(1, 1))),
            walked("/A/x.swp", Some(sync_file_meta(1, 1))),
            walked("/A/cache/y", Some(sync_file_meta(1, 1))),
            walked("/A/.runison-current", Some(sync_file_meta(1, 1))),
        ],
    );
    assert_eq!(sync_keys(sync.entries()), vec!["keep"]);
}

#[test]
fn ignored_directory_prunes_its_subtree() {
    let mut sync = Synchronizer::new(sync_config("/A", vec!["skip*"], vec!["/A/out"])).unwrap();
    sync.index(
        true,
        &vec![
            walked("/A/keep", Some(sync_dir_meta())),
            walked("/A/keep/f", Some(sync_file_meta(1, 1))),
            walked("/A/skipped", Some(sync_dir_meta())),
            walked("/A/skipped/f", Some(sync_file_meta(1, 1))),
            walked("/A/skipped/deep/down/f", Some(sync_file_meta(1, 1))),
            walked("/A/keep/skip.d/f", Some(sync_file_meta(1, 1))),
            walked("/A/out/f", Some(sync_file_meta(1, 1))),
            walked("/A/outside", Some(sync_file_meta(1, 1))),
        ],
    );
    assert_eq!(sync_keys(sync.entries()), vec!["keep", "keep/f", "outside"]);
    assert!(sync.prunes("skipped/f"));
    assert!(sync.prunes("keep/skip.d/f"));
    assert!(sync.prunes("out/f"));
    assert!(!sync.prunes("keep/f"));
    assert!(!sync.prunes("skipped"));
    assert!(!sync.prunes("/A"));
    assert_eq!(sync.visit(&walked("/A/skipped/f", None)), Ok(Visit::Ignored));
}

#[test]
fn ignored_root_prunes_everything() {
    let mut sync = Synchronizer::new(sync_config("/A", vec!["A"], vec![])).unwrap();
    sync.index(
        true,
        &vec![walked("/A", Some(sync_dir_meta())), walked("/A/f", Some(sync_file_meta(1, 1)))],
    );
    assert_eq!(sync_keys(sync.entries()), Vec::<String>::new());
    assert!(sync.prunes("f"));
}

#[test]
fn visit_says_what_became_of_the_entry() {
    let mut sync = Synchronizer::new(sync_config("/A", vec!["*.tmp"], vec![])).unwrap();
    assert_eq!(sync.visit(&walked("/A/f", Some(sync_file_meta(1, 1)))), Ok(Visit::Indexed));
    assert_eq!(sync.visit(&walked("/A/f.tmp", Some(sync_file_meta(1, 1)))), Ok(Visit::Ignored));
    assert_eq!(sync.visit(&walked("/A/f.tmp", None)), Ok(Visit::Ignored));
    assert_eq!(sync.visit(&walked("/B/f", Some(sync_file_meta(1, 1)))), Ok(Visit::Outside));
    assert_eq!(sync.visit(&walked("/B/f", None)), Ok(Visit::Outside));
    assert_eq!(sync.visit(&walked("/A/g", None)), Err(Error::NodeUnreadable));
    let nothing = Metadata { is_file: false, ..sync_file_meta(1, 1) };
    assert_eq!(sync.visit(&walked("/A/h", Some(nothing))), Err(Error::NodeUnreadable));
    assert_eq!(sync_keys(sync.entries()), vec!["f"]);
    assert_eq!(sync.unreadable(), &vec![String::from("/A/g"), String::from("/A/h")]);
    assert_eq!(sync.entries().get("f"), Some(&sync_file("/A", "f", 1, 1)));
}

#[test]
fn unreadable_entry_is_skipped_and_the_walk_goes_on() {
    let mut sync = Synchronizer::new(sync_config("/A", vec![], vec![])).unwrap();
    sync.index(
        true,
        &vec![
            walked("/A/a", Some(sync_file_meta(1, 1))),
            walked("/A/broken-link", None),
            walked("/A/c", Some(sync_file_meta(1, 1))),
        ],
    );
    assert_eq!(sync_keys(sync.entries()), vec!["a", "c"]);
    assert_eq!(sync.unreadable(), &vec![String::from("/A/broken-link")]);
    // the record is of the last walk only
    sync.index(true, &vec![walked("/A/a", Some(sync_file_meta(1, 1)))]);
    assert_eq!(sync.unreadable(), &Vec::<String>::new());
}

#[test]
fn root_is_indexed_under_its_own_path() {
    let mut sync = Synchronizer::new(sync_config("/A", vec![], vec![])).unwrap();
    sync.index(
        true,
        &vec![
            walked("/A", Some(sync_dir_meta())),
            walked("/A/sub", Some(sync_dir_meta())),
            walked("/A/sub/f", Some(sync_file_meta(1, 1))),
        ],
    );
    assert_eq!(sync_keys(sync.entries()), vec!["/A", "sub", "sub/f"]);
    let root = sync.entries().get("/A").unwrap();
    assert_eq!(root.path, "/A");
    assert_eq!(root.name, "A");
    assert!(root.is_dir);
}

#[test]
fn index_starts_from_nothing_each_time() {
    let mut sync = Synchronizer::new(sync_config("/A", vec![], vec![])).unwrap();
    sync.index(true, &vec![walked("/A/old", Some(sync_file_meta(1, 1)))]);
    sync.index(true, &vec![walked("/A/new", Some(sync_file_meta(1, 1)))]);
    assert_eq!(sync_keys(sync.entries()), vec!["new"]);
}

#[test]
fn index_twice_over_the_same_tree_gives_the_same_bytes() {
    let tree = vec![
        walked("/A", Some(sync_dir_meta())),
        walked("/A/b", Some(sync_file_meta(2, 20))),
        walked("/A/a", Some(sync_file_meta(1, 10))),
    ];
    let mut first = Synchronizer::new(sync_config("/A", vec![], vec![])).unwrap();
    let mut second = Synchronizer::new(sync_config("/A", vec![], vec![])).unwrap();
    let bytes = first.index(true, &tree);
    assert_eq!(bytes, second.index(false, &tree));
    assert_eq!(bytes, first.snapshot());
    // the order of the walk does not matter
    let shuffled = vec![
        walked("/A/a", Some(sync_file_meta(1, 10))),
        walked("/A/b", Some(sync_file_meta(2, 20))),
        walked("/A", Some(sync_dir_meta())),
    ];
    assert_eq!(bytes, second.index(true, &shuffled));
}

#[test]
fn index_says_whether_this_is_a_first_run() {
    let mut sync = Synchronizer::new(sync_config("/A", vec![], vec![])).unwrap();
    sync.index(false, &vec![]);
    assert!(sync.first_run());
    let mut again = Synchronizer::new(sync_config("/A", vec![], vec![])).unwrap();
    again.index(true, &vec![]);
    assert!(!again.first_run());
}

#[test]
fn first_run_has_no_change_set() {
    let mut sync = Synchronizer::new(sync_config("/A", vec![], vec![])).unwrap();
    let current = sync.index(false, &vec![walked("/A/f1", Some(sync_file_meta(1, 1)))]);
    assert_eq!(sync.local_changes(None, &current), Ok(None));
    // even if a previous snapshot is handed in
    assert_eq!(sync.local_changes(Some(&current[..]), &current), Ok(None));
}

#[test]
fn missing_previous_snapshot_has_no_change_set() {
    let mut sync = Synchronizer::new(sync_config("/A", vec![], vec![])).unwrap();
    let current = sync.index(true, &vec![]);
    assert_eq!(sync.local_changes(None, &current), Ok(None));
}

#[test]
fn unchanged_tree_has_an_empty_change_set() {
    let mut sync = Synchronizer::new(sync_config("/A", vec![], vec![])).unwrap();
    let current = sync.index(true, &vec![walked("/A/f1", Some(sync_file_meta(1, 1)))]);
    assert_eq!(sync.local_changes(Some(&current[..]), &current), Ok(Some(Vec::new())));
}

#[test]
fn local_changes_from_two_snapshots() {
    let mut before = Synchronizer::new(sync_config("/A", vec![], vec![])).unwrap();
    let previous = before.index(
        true,
        &vec![walked("/A/f1", Some(sync_file_meta(1, 100))), walked("/A/f2", Some(sync_file_meta(1, 1)))],
    );
    let mut sync = Synchronizer::new(sync_config("/A", vec![], vec![])).unwrap();
    let current = sync.index(
        true,
        &vec![walked("/A/f1", Some(sync_file_meta(1, 200))), walked("/A/f3", Some(sync_file_meta(1, 1)))],
    );
    assert_eq!(
        sync.local_changes(Some(&previous[..]), &current),
        Ok(Some(vec![
            Change { change_type: ChangeType::Modified, node: sync_file("/A", "f1", 1, 200) },
            Change { change_type: ChangeType::Added, node: sync_file("/A", "f3", 1, 1) },
            Change { change_type: ChangeType::Deleted, node: sync_file("/A", "f2", 1, 1) },
        ]))
    );
}

#[test]
fn corrupt_snapshot_is_fatal_for_local_changes() {
    let mut sync = Synchronizer::new(sync_config("/A", vec![], vec![])).unwrap();
    let current = sync.index(true, &vec![walked("/A/f1", Some(sync_file_meta(1, 1)))]);
    let corrupt = vec![1u8, 2, 3];
    assert_eq!(sync.local_changes(Some(&corrupt[..]), &current), Err(Error::SnapshotDecodeError));
    assert_eq!(sync.local_changes(Some(&current[..]), &corrupt), Err(Error::SnapshotDecodeError));
}

#[test]
fn remote_changes_against_an_empty_remote() {
    let mut sync = Synchronizer::new(sync_config("/A", vec![], vec![])).unwrap();
    sync.index(true, &vec![walked("/A/f1", Some(sync_file_meta(10, 100)))]);
    assert_eq!(
        sync.remote_changes(&Index::new()),
        Some(vec![Change { change_type: ChangeType::Added, node: sync_file("/A", "f1", 10, 100) }])
    );
}

#[test]
fn remote_changes_report_only_what_is_newer_here() {
    let mut sync = Synchronizer::new(sync_config("/A", vec![], vec![])).unwrap();
    sync.index(
        true,
        &vec![
            walked("/A/newer-here", Some(sync_file_meta(1, 200))),
            walked("/A/older-here", Some(sync_file_meta(1, 100))),
            walked("/A/same", Some(sync_file_meta(1, 100))),
        ],
    );
    let mut remote = Index::new();
    remote.insert(sync_file("/B", "newer-here", 1, 100));
    remote.insert(sync_file("/B", "older-here", 1, 200));
    remote.insert(sync_file("/B", "same", 1, 100));
    remote.insert(sync_file("/B", "remote-only", 1, 100));
    assert_eq!(
        sync.remote_changes(&remote),
        Some(vec![
            Change { change_type: ChangeType::Modified, node: sync_file("/A", "newer-here", 1, 200) },
            Change { change_type: ChangeType::Deleted, node: sync_file("/B", "remote-only", 1, 100) },
        ])
    );
}

#[test]
fn no_remote_changes_is_no_change_set() {
    let mut sync = Synchronizer::new(sync_config("/A", vec![], vec![])).unwrap();
    sync.index(true, &vec![walked("/A/f", Some(sync_file_meta(1, 100)))]);
    let mut remote = Index::new();
    remote.insert(sync_file("/B", "f", 1, 100));
    assert_eq!(sync.remote_changes(&remote), None);
    assert_eq!(SynchronizerService { synchronizer: &sync }.get_change_set(&remote), None);
    assert_eq!(
        SynchronizerService { synchronizer: &sync }.get_change_set(&Index::new()),
        sync.remote_changes(&Index::new())
    );
}

#[test]
fn snapshot_is_the_encoding_of_the_entries() {
    let mut sync = Synchronizer::new(sync_config("/A", vec![], vec![])).unwrap();
    sync.index(true, &vec![walked("/A/f", Some(sync_file_meta(1, 100)))]);
    assert_eq!(sync.snapshot(), encode_index(sync.entries()));
}

#[test]
fn status_has_four_values() {
    let all = [Status::Starting, Status::Indexing, Status::Running, Status::Stopping];
    assert_eq!(all.len(), 4);
    assert_ne!(Status::Starting, Status::Running);
}
