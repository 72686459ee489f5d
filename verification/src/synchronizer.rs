//! The index store of one peer.
//!
//! A synchronizer owns the index of the tree below its root. The caller
//! walks the tree and reads metadata and snapshot files; the synchronizer
//! decides which entries are indexed and under which key, what the
//! snapshot holds, and which changes separate two indices.

use crate::config::{texts, Config, ConfigView};
use crate::diff::{change_views, changes_between, diff, diff_newer, spec_diff, Change, ChangeView};
use crate::error::Error;
use crate::filter::Entry;
use crate::index::{as_map, ascending, lemma_position, position, Index};
use crate::node::{one_kind, Metadata, Node, NodeView};
use crate::snapshot::{decode_index, encode_index, parse_index, ser_index};
use crate::text::{
    chars_of, entry_key, join_path, lemma_join_restores_path, same_text, spec_base_name,
    spec_entry_key, spec_join,
};
use vstd::prelude::*;

pub use crate::filter::ignored;

verus! {

/// Operational status of a peer.
#[derive(Clone, Copy, Debug, PartialEq, Eq, Structural)]
pub enum Status {
    Starting,
    Indexing,
    Running,
    Stopping,
}

/// The file that holds the snapshot of this run, below the root.
pub const CURRENT_SNAPSHOT: &'static str = ".runison-current";

/// The file that holds the snapshot of the run before, below the root.
pub const PREVIOUS_SNAPSHOT: &'static str = ".runison-previous";

/// The file that a snapshot is written to before it takes the place of
/// the current one, below the root.
pub const STAGED_SNAPSHOT: &'static str = ".runison-staged";

/// A rename that the caller is asked to perform.
#[derive(Debug, PartialEq, Eq)]
pub struct Rename {
    pub from: String,
    pub to: String,
}

/// One entry that the walk of the tree met: its full path and, where they
/// could be read, its metadata.
#[derive(Debug, PartialEq, Eq)]
pub struct Walked {
    pub path: String,
    pub meta: Option<Metadata>,
}

/// The mathematical content of a [`Walked`].
pub struct WalkedView {
    pub path: Seq<char>,
    pub meta: Option<Metadata>,
}

impl View for Walked {
    type V = WalkedView;

    open spec fn view(&self) -> WalkedView {
        WalkedView { path: self.path@, meta: self.meta }
    }
}

/// A list of walked entries, each taken by its content.
pub open spec fn walked_views(s: Seq<Walked>) -> Seq<WalkedView> {
    Seq::new(s.len(), |i: int| s[i]@)
}

/// What became of a walked entry.
#[derive(Clone, Copy, Debug, PartialEq, Eq, Structural)]
pub enum Visit {
    /// The entry is in the index now.
    Indexed,
    /// An ignore glob matches the entry or a directory above it; if the
    /// entry is a directory, nothing below it is to be walked.
    Ignored,
    /// The entry does not lie below the root.
    Outside,
}

/// Whether the metadata describe an entry of exactly one kind.
pub open spec fn readable(meta: Option<Metadata>) -> bool {
    meta is Some && one_kind(meta.unwrap().is_dir, meta.unwrap().is_file, meta.unwrap().is_symlink)
}

/// Whether the filter skips the entry at `path`, named by its last
/// component.
pub open spec fn ignores_at(cfg: ConfigView, path: Seq<char>) -> bool {
    cfg.ignores(path, spec_base_name(path))
}

/// Whether the entry under `key` lies in a subtree that is pruned: the
/// filter skips the root, or a directory on the way from the root down
/// to the entry.
pub open spec fn pruned(cfg: ConfigView, key: Seq<char>) -> bool {
    key != cfg.root && (ignores_at(cfg, cfg.root) || exists|n: int|
        0 < n < key.len() && key[n] == '/' && ignores_at(
            cfg,
            spec_join(cfg.root, #[trigger] key.take(n)),
        ))
}

/// What becomes of a walked entry: the filter comes first, then the key
/// and the directories above the entry, then the metadata. An entry whose
/// metadata could not be read, or describe no entry of exactly one kind,
/// is unreadable.
pub open spec fn outcome(cfg: ConfigView, w: WalkedView) -> Result<Visit, Error> {
    if ignores_at(cfg, w.path) {
        Ok(Visit::Ignored)
    } else if spec_entry_key(cfg.root, w.path) is None {
        Ok(Visit::Outside)
    } else if pruned(cfg, spec_entry_key(cfg.root, w.path).unwrap()) {
        Ok(Visit::Ignored)
    } else if !readable(w.meta) {
        Err(Error::NodeUnreadable)
    } else {
        Ok(Visit::Indexed)
    }
}

/// Whether the walked entry is indexed.
pub open spec fn indexes(cfg: ConfigView, w: WalkedView) -> bool {
    outcome(cfg, w) == Ok::<Visit, Error>(Visit::Indexed)
}

/// The record of a walked entry that is indexed.
pub open spec fn record(cfg: ConfigView, w: WalkedView) -> NodeView {
    Node::spec_from_path(cfg.root, spec_entry_key(cfg.root, w.path).unwrap(), w.meta.unwrap())
}

/// The index after a walked entry was visited.
pub open spec fn visited(cfg: ConfigView, m: Map<Seq<char>, NodeView>, w: WalkedView) -> Map<
    Seq<char>,
    NodeView,
> {
    if indexes(cfg, w) {
        m.insert(record(cfg, w).relative_path, record(cfg, w))
    } else {
        m
    }
}

/// The record of failures after a walked entry was visited: the path of
/// an unreadable entry is added.
pub open spec fn noted(cfg: ConfigView, failures: Seq<Seq<char>>, w: WalkedView) -> Seq<Seq<char>> {
    if outcome(cfg, w) is Err {
        failures.push(w.path)
    } else {
        failures
    }
}

/// The paths of the entries of a walk that could not be read, in the
/// order of the walk.
pub open spec fn failures(cfg: ConfigView, ws: Seq<WalkedView>) -> Seq<Seq<char>>
    decreases ws.len(),
{
    if ws.len() == 0 {
        Seq::empty()
    } else {
        noted(cfg, failures(cfg, ws.drop_last()), ws.last())
    }
}

/// The index of a walk: every entry visited in turn, from no entries.
pub open spec fn walk(cfg: ConfigView, ws: Seq<WalkedView>) -> Map<Seq<char>, NodeView>
    decreases ws.len(),
{
    if ws.len() == 0 {
        Map::empty()
    } else {
        visited(cfg, walk(cfg, ws.drop_last()), ws.last())
    }
}

/// What holds of every record that a synchronizer indexes: it is of
/// exactly one kind, it stands under the key of its path, it is named by
/// the last component of its path, no ignore glob matches it, and it
/// lies in no subtree that is pruned.
pub open spec fn indexable(cfg: ConfigView, n: NodeView) -> bool {
    &&& n.well_formed()
    &&& spec_entry_key(cfg.root, n.path) == Some(n.relative_path)
    &&& n.name == spec_base_name(n.path)
    &&& !cfg.ignores(n.path, n.name)
    &&& !pruned(cfg, n.relative_path)
}

/// The mathematical content of a [`Synchronizer`].
pub struct SynchronizerView {
    pub entries: Seq<NodeView>,
    pub config: ConfigView,
    pub first_run: bool,
    /// The paths of the entries that could not be read when the index
    /// was built, in the order of the walk.
    pub unreadable: Seq<Seq<char>>,
}

impl SynchronizerView {
    /// The configuration is valid, the keys ascend and every record is
    /// indexable.
    pub open spec fn sound(self) -> bool {
        &&& self.config.valid()
        &&& ascending(self.entries)
        &&& forall|i: int| 0 <= i < self.entries.len() ==> indexable(
            self.config,
            #[trigger] self.entries[i],
        )
    }
}

/// The changes since the run before, from the two snapshot files.
///
/// On a first run, and where there is no previous snapshot, there is no
/// change set, which is not the same as an empty one. Otherwise both
/// snapshots must decode, and the change set leads from the previous one
/// to the current one.
pub open spec fn spec_local_changes(
    first_run: bool,
    previous: Option<Seq<u8>>,
    current: Seq<u8>,
) -> Result<Option<Seq<ChangeView>>, Error> {
    if first_run || previous is None {
        Ok(None)
    } else if parse_index(current) is None || parse_index(previous.unwrap()) is None {
        Err(Error::SnapshotDecodeError)
    } else {
        Ok(Some(spec_diff(parse_index(previous.unwrap()).unwrap(), parse_index(current).unwrap())))
    }
}

/// The outcome of [`Synchronizer::local_changes`], taken by its content.
pub open spec fn local_changes_view(r: Result<Option<Vec<Change>>, Error>) -> Result<
    Option<Seq<ChangeView>>,
    Error,
> {
    match r {
        Ok(Some(changes)) => Ok(Some(change_views(changes@))),
        Ok(None) => Ok(None),
        Err(e) => Err(e),
    }
}

/// The bytes of an optional byte string.
pub open spec fn bytes_view(bytes: Option<&[u8]>) -> Option<Seq<u8>> {
    match bytes {
        Some(bytes) => Some(bytes@),
        None => None,
    }
}

/// The index store of one peer.
pub struct Synchronizer {
    entries: Index,
    config: Config,
    first_run: bool,
    unreadable: Vec<String>,
}

impl View for Synchronizer {
    type V = SynchronizerView;

    closed spec fn view(&self) -> SynchronizerView {
        SynchronizerView {
            entries: self.entries@,
            config: self.config@,
            first_run: self.first_run,
            unreadable: texts(self.unreadable@),
        }
    }
}

/// The record of a walked entry is indexable.
pub proof fn lemma_record_indexable(cfg: ConfigView, w: WalkedView)
    requires
        cfg.valid(),
        indexes(cfg, w),
    ensures
        indexable(cfg, record(cfg, w)),
        record(cfg, w).path == w.path,
{
    lemma_join_restores_path(cfg.root, w.path);
}

/// Inserting an indexable record keeps every record indexable.
proof fn lemma_insert_keeps_indexable(
    cfg: ConfigView,
    before: Seq<NodeView>,
    after: Seq<NodeView>,
    n: NodeView,
)
    requires
        ascending(before),
        ascending(after),
        forall|i: int| 0 <= i < before.len() ==> indexable(cfg, #[trigger] before[i]),
        indexable(cfg, n),
        as_map(after) == as_map(before).insert(n.relative_path, n),
    ensures
        forall|i: int| 0 <= i < after.len() ==> indexable(cfg, #[trigger] after[i]),
{
    assert forall|i: int| 0 <= i < after.len() implies indexable(cfg, #[trigger] after[i]) by {
        lemma_position(after, i);
        let key = after[i].relative_path;
        if key != n.relative_path {
            assert(as_map(before).dom().contains(key));
            let j = position(before, key);
            lemma_position(before, j);
        }
    }
}

impl Synchronizer {
    /// What holds of every synchronizer.
    #[verifier::type_invariant]
    pub open spec fn well_formed(&self) -> bool {
        self@.sound()
    }

    /// A synchronizer for a valid configuration, with an empty index.
    /// There is none for a configuration whose root is not absolute or
    /// whose globs do not all compile.
    pub fn new(config: Config) -> (made: Option<Synchronizer>)
        ensures
            made is Some <==> config@.valid(),
            made is Some ==> made.unwrap()@ == (SynchronizerView {
                entries: Seq::empty(),
                config: config@,
                first_run: false,
                unreadable: Seq::empty(),
            }),
    {
        match config.check() {
            Ok(()) => {
                let made = Synchronizer {
                    entries: Index::new(),
                    config,
                    first_run: false,
                    unreadable: Vec::new(),
                };
                assert(made@.unreadable =~= Seq::empty());
                Some(made)
            },
            Err(_) => None,
        }
    }

    /// The index.
    pub fn entries(&self) -> (index: &Index)
        ensures
            index@ == self@.entries,
            self@.sound(),
    {
        proof {
            use_type_invariant(self);
        }
        &self.entries
    }

    /// The configuration.
    pub fn config(&self) -> (config: &Config)
        ensures
            config@ == self@.config,
            self@.sound(),
    {
        proof {
            use_type_invariant(self);
        }
        &self.config
    }

    /// The paths of the entries that could not be read when the index
    /// was built, in the order of the walk.
    pub fn unreadable(&self) -> (paths: &Vec<String>)
        ensures
            texts(paths@) == self@.unreadable,
    {
        &self.unreadable
    }

    /// Whether no snapshot of an earlier run was found.
    pub fn first_run(&self) -> (first: bool)
        ensures
            first == self@.first_run,
    {
        self.first_run
    }

    /// The path of a file directly below the root.
    pub fn path_below_root(&self, name: &str) -> (path: String)
        ensures
            path@ == spec_join(self@.config.root, name@),
    {
        join_path(self.config.root.path.as_str(), name)
    }

    /// The rename that rotates the snapshot of the last run out of the
    /// way: the current snapshot becomes the previous one. Nothing is to
    /// be renamed once it is known that this is a first run.
    pub fn move_index(&self) -> (rename: Option<Rename>)
        ensures
            rename is Some <==> !self@.first_run,
            rename is Some ==> rename.unwrap().from@ == spec_join(
                self@.config.root,
                CURRENT_SNAPSHOT@,
            ) && rename.unwrap().to@ == spec_join(self@.config.root, PREVIOUS_SNAPSHOT@),
    {
        if self.first_run {
            None
        } else {
            Some(
                Rename {
                    from: self.path_below_root(CURRENT_SNAPSHOT),
                    to: self.path_below_root(PREVIOUS_SNAPSHOT),
                },
            )
        }
    }

    /// Takes note of how the rotation went: where the current snapshot
    /// could not be renamed, this is a first run.
    pub fn index_moved(&mut self, renamed: bool)
        ensures
            final(self)@ == (SynchronizerView {
                first_run: old(self)@.first_run || !renamed,
                ..old(self)@
            }),
    {
        proof {
            use_type_invariant(&*self);
        }
        if !renamed {
            self.first_run = true;
        }
    }

    /// Whether the walk is to skip the entry at `path`, and with it
    /// everything below it.
    pub fn ignores(&self, path: &str) -> (skip: bool)
        ensures
            skip == ignores_at(self@.config, path@),
    {
        proof {
            use_type_invariant(self);
        }
        let entry = Entry::from_path(path);
        ignored(&entry, &self.config)
    }

    /// Whether the entry under `key` lies in a subtree that is pruned.
    pub fn prunes(&self, key: &str) -> (skip: bool)
        ensures
            skip == pruned(self@.config, key@),
    {
        let root = self.config.root.path.as_str();
        if same_text(key, root) {
            return false;
        }
        if self.ignores(root) {
            return true;
        }
        let k = chars_of(key);
        let mut n: usize = 1;
        while n < k.len()
            invariant
                1 <= n,
                k@ == key@,
                root@ == self@.config.root,
                key@ != self@.config.root,
                !ignores_at(self@.config, self@.config.root),
                forall|m: int|
                    0 < m < n && m < key@.len() && key@[m] == '/' ==> !ignores_at(
                        self@.config,
                        spec_join(self@.config.root, #[trigger] key@.take(m)),
                    ),
            decreases k.len() - n,
        {
            if k[n] == '/' {
                let above = key.substring_char(0, n);
                assert(above@ =~= key@.take(n as int));
                let path = join_path(root, above);
                if self.ignores(path.as_str()) {
                    assert(ignores_at(
                        self@.config,
                        spec_join(self@.config.root, key@.take(n as int)),
                    ));
                    return true;
                }
            }
            n += 1;
        }
        false
    }

    /// Visits one walked entry: indexes it under its key unless it is
    /// ignored or lies outside the root. An entry that cannot be read is
    /// an error; its path is put on record and the index stays as it is.
    pub fn visit(&mut self, walked: &Walked) -> (visit: Result<Visit, Error>)
        ensures
            visit == outcome(old(self)@.config, walked@),
            final(self)@.config == old(self)@.config,
            final(self)@.first_run == old(self)@.first_run,
            as_map(final(self)@.entries) == visited(
                old(self)@.config,
                as_map(old(self)@.entries),
                walked@,
            ),
            final(self)@.unreadable == noted(old(self)@.config, old(self)@.unreadable, walked@),
            final(self)@.sound(),
    {
        proof {
            use_type_invariant(&*self);
        }
        let path = walked.path.as_str();
        if self.ignores(path) {
            return Ok(Visit::Ignored);
        }
        let root = self.config.root.path.as_str();
        let key = match entry_key(root, path) {
            Some(key) => key,
            None => { return Ok(Visit::Outside); },
        };
        if self.prunes(key.as_str()) {
            return Ok(Visit::Ignored);
        }
        let made = match &walked.meta {
            Some(meta) => Node::from_path(root, key.as_str(), meta),
            None => None,
        };
        let node = match made {
            Some(node) => node,
            None => {
                let ghost before = texts(self.unreadable@);
                let mut unreadable: Vec<String> = Vec::new();
                std::mem::swap(&mut self.unreadable, &mut unreadable);
                unreadable.push(walked.path.clone());
                assert(texts(unreadable@) =~= before.push(walked@.path));
                self.unreadable = unreadable;
                return Err(Error::NodeUnreadable);
            },
        };
        proof {
            lemma_record_indexable(self@.config, walked@);
        }
        let ghost before = self@.entries;
        let ghost added = node@;
        let mut entries = Index::new();
        std::mem::swap(&mut self.entries, &mut entries);
        entries.insert(node);
        proof {
            use_type_invariant(&entries);
            lemma_insert_keeps_indexable(self@.config, before, entries@, added);
        }
        self.entries = entries;
        Ok(Visit::Indexed)
    }

    /// Builds the index from a walk of the tree and hands back its
    /// snapshot.
    ///
    /// `renamed` says how the rotation that [`Synchronizer::move_index`]
    /// asked for went. The index is built from nothing: what it held
    /// before is dropped, and so is the record of unreadable entries. An
    /// entry that cannot be read is put on record and skipped, and the
    /// walk goes on.
    pub fn index(&mut self, renamed: bool, walked: &Vec<Walked>) -> (snapshot: Vec<u8>)
        ensures
            final(self)@.config == old(self)@.config,
            final(self)@.first_run == (old(self)@.first_run || !renamed),
            as_map(final(self)@.entries) == walk(old(self)@.config, walked_views(walked@)),
            final(self)@.unreadable == failures(old(self)@.config, walked_views(walked@)),
            snapshot@ == ser_index(final(self)@.entries),
            parse_index(snapshot@) == Some(final(self)@.entries),
            final(self)@.sound(),
    {
        proof {
            use_type_invariant(&*self);
        }
        self.index_moved(renamed);
        self.entries = Index::new();
        self.unreadable = Vec::new();
        let ghost cfg = self@.config;
        let mut i: usize = 0;
        assert(walked_views(walked@).take(0) =~= Seq::empty());
        assert(as_map(self@.entries) =~= Map::empty());
        assert(self@.unreadable =~= Seq::empty());
        while i < walked.len()
            invariant
                i <= walked.len(),
                self@.config == cfg,
                self@.first_run == (old(self)@.first_run || !renamed),
                self@.sound(),
                as_map(self@.entries) == walk(cfg, walked_views(walked@).take(i as int)),
                self@.unreadable == failures(cfg, walked_views(walked@).take(i as int)),
            decreases walked.len() - i,
        {
            proof {
                let ws = walked_views(walked@);
                assert(ws.take(i + 1).drop_last() =~= ws.take(i as int));
                assert(ws.take(i + 1).last() == walked@[i as int]@);
            }
            let _ = self.visit(&walked[i]);
            i += 1;
        }
        assert(walked_views(walked@).take(walked.len() as int) =~= walked_views(walked@));
        encode_index(&self.entries)
    }

    /// The snapshot of the index as it stands; decoding it gives the
    /// index back.
    pub fn snapshot(&self) -> (bytes: Vec<u8>)
        ensures
            bytes@ == ser_index(self@.entries),
            parse_index(bytes@) == Some(self@.entries),
    {
        encode_index(&self.entries)
    }

    /// The changes on this peer since the run before, from the two
    /// snapshot files: `previous` is nothing where there is no previous
    /// snapshot.
    pub fn local_changes(&self, previous: Option<&[u8]>, current: &[u8]) -> (r: Result<
        Option<Vec<Change>>,
        Error,
    >)
        ensures
            local_changes_view(r) == spec_local_changes(
                self@.first_run,
                bytes_view(previous),
                current@,
            ),
    {
        if self.first_run {
            return Ok(None);
        }
        let previous = match previous {
            Some(bytes) => bytes,
            None => { return Ok(None); },
        };
        let newer = match decode_index(current) {
            Ok(index) => index,
            Err(e) => { return Err(e); },
        };
        let older = match decode_index(previous) {
            Ok(index) => index,
            Err(e) => { return Err(e); },
        };
        Ok(Some(diff(&older, &newer)))
    }

    /// The changes that separate a remote tree from this peer's tree:
    /// what this peer has and the remote lacks is added, what the remote
    /// has and this peer lacks is deleted, and a file is modified where
    /// this peer's copy was modified strictly later. There is no change
    /// set where the list would be empty.
    pub fn remote_changes(&self, remote_tree: &Index) -> (r: Option<Vec<Change>>)
        ensures
            r is Some <==> changes_between(remote_tree@, self@.entries, true).len() > 0,
            r is Some ==> change_views(r.unwrap()@) == changes_between(
                remote_tree@,
                self@.entries,
                true,
            ),
    {
        let changes = diff_newer(remote_tree, &self.entries);
        if changes.len() > 0 {
            Some(changes)
        } else {
            None
        }
    }
}

} // verus!
