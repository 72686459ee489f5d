//! The metadata record of one entry of a tree.

use crate::text::{base_name, join_path, spec_base_name, spec_join};
use vstd::prelude::*;

verus! {

/// What the file system reports of one entry, with symbolic links followed.
#[derive(Clone, Copy, Debug, PartialEq, Eq)]
pub struct Metadata {
    pub is_dir: bool,
    pub is_file: bool,
    pub is_symlink: bool,
    /// Length in bytes.
    pub len: u64,
    /// Whole seconds of the modification time since the epoch.
    pub mod_seconds: u64,
    /// Nanoseconds of the modification time beyond the whole seconds.
    pub mod_nano: u32,
    pub inode: u64,
}

/// Exactly one of the three kinds holds.
pub open spec fn one_kind(is_dir: bool, is_file: bool, is_symlink: bool) -> bool {
    ||| is_dir && !is_file && !is_symlink
    ||| !is_dir && is_file && !is_symlink
    ||| !is_dir && !is_file && is_symlink
}

/// One entry of a tree, as an index records it.
#[derive(Debug, PartialEq, Eq)]
pub struct Node {
    pub is_dir: bool,
    pub is_file: bool,
    pub is_symlink: bool,
    /// The base name of the entry.
    pub name: String,
    /// The path of the entry on the host that owns it.
    pub path: String,
    /// The key of the entry: its path below the root, or the root's own
    /// path for the root.
    pub relative_path: String,
    /// Length in bytes; it means something for files only.
    pub len: u64,
    pub mod_seconds: u64,
    pub mod_nano: u32,
    /// Identity of the entry on its own host.
    pub inode: u64,
}

/// The mathematical content of a [`Node`].
pub struct NodeView {
    pub is_dir: bool,
    pub is_file: bool,
    pub is_symlink: bool,
    pub name: Seq<char>,
    pub path: Seq<char>,
    pub relative_path: Seq<char>,
    pub len: u64,
    pub mod_seconds: u64,
    pub mod_nano: u32,
    pub inode: u64,
}

impl NodeView {
    /// The entry is of exactly one kind.
    pub open spec fn well_formed(self) -> bool {
        one_kind(self.is_dir, self.is_file, self.is_symlink)
    }

    /// Both entries were last modified at the same instant.
    pub open spec fn same_time(self, other: NodeView) -> bool {
        self.mod_seconds == other.mod_seconds && self.mod_nano == other.mod_nano
    }

    /// This entry was modified strictly later than the other.
    pub open spec fn newer_than(self, other: NodeView) -> bool {
        self.mod_seconds > other.mod_seconds || (self.mod_seconds == other.mod_seconds
            && self.mod_nano > other.mod_nano)
    }
}

impl View for Node {
    type V = NodeView;

    open spec fn view(&self) -> NodeView {
        NodeView {
            is_dir: self.is_dir,
            is_file: self.is_file,
            is_symlink: self.is_symlink,
            name: self.name@,
            path: self.path@,
            relative_path: self.relative_path@,
            len: self.len,
            mod_seconds: self.mod_seconds,
            mod_nano: self.mod_nano,
            inode: self.inode,
        }
    }
}

impl Clone for Node {
    fn clone(&self) -> (copy: Self)
        ensures
            copy == *self,
    {
        Node {
            is_dir: self.is_dir,
            is_file: self.is_file,
            is_symlink: self.is_symlink,
            name: self.name.clone(),
            path: self.path.clone(),
            relative_path: self.relative_path.clone(),
            len: self.len,
            mod_seconds: self.mod_seconds,
            mod_nano: self.mod_nano,
            inode: self.inode,
        }
    }
}

impl Node {
    /// Builds a record from its fields, provided that they describe an
    /// entry of exactly one kind.
    pub fn new(
        is_dir: bool,
        is_file: bool,
        is_symlink: bool,
        name: String,
        path: String,
        relative_path: String,
        len: u64,
        mod_seconds: u64,
        mod_nano: u32,
        inode: u64,
    ) -> (node: Option<Node>)
        ensures
            node is Some <==> one_kind(is_dir, is_file, is_symlink),
            node is Some ==> node.unwrap() == (Node {
                is_dir,
                is_file,
                is_symlink,
                name,
                path,
                relative_path,
                len,
                mod_seconds,
                mod_nano,
                inode,
            }),
    {
        let kinds: u8 = (if is_dir {
            1u8
        } else {
            0u8
        }) + (if is_file {
            1u8
        } else {
            0u8
        }) + (if is_symlink {
            1u8
        } else {
            0u8
        });
        if kinds == 1 {
            Some(
                Node {
                    is_dir,
                    is_file,
                    is_symlink,
                    name,
                    path,
                    relative_path,
                    len,
                    mod_seconds,
                    mod_nano,
                    inode,
                },
            )
        } else {
            None
        }
    }

    /// The record that [`Node::from_path`] builds.
    pub open spec fn spec_from_path(
        root_path: Seq<char>,
        path: Seq<char>,
        meta: Metadata,
    ) -> NodeView {
        NodeView {
            is_dir: meta.is_dir,
            is_file: meta.is_file,
            is_symlink: meta.is_symlink,
            name: spec_base_name(spec_join(root_path, path)),
            path: spec_join(root_path, path),
            relative_path: path,
            len: meta.len,
            mod_seconds: meta.mod_seconds,
            mod_nano: meta.mod_nano,
            inode: meta.inode,
        }
    }

    /// Builds the record of the entry that is indexed under the key `path`
    /// below `root_path`, from the metadata read at the joined path.
    ///
    /// There is no record for an entry that is not of exactly one kind.
    pub fn from_path(root_path: &str, path: &str, meta: &Metadata) -> (node: Option<Node>)
        ensures
            node is Some <==> one_kind(meta.is_dir, meta.is_file, meta.is_symlink),
            node is Some ==> node.unwrap()@ == Node::spec_from_path(root_path@, path@, *meta),
    {
        let joined = join_path(root_path, path);
        let name = base_name(joined.as_str());
        Node::new(
            meta.is_dir,
            meta.is_file,
            meta.is_symlink,
            name,
            joined,
            path.to_owned(),
            meta.len,
            meta.mod_seconds,
            meta.mod_nano,
            meta.inode,
        )
    }

    /// Whether both entries were last modified at the same instant.
    pub fn same_time(&self, other: &Node) -> (same: bool)
        ensures
            same == self@.same_time(other@),
    {
        self.mod_seconds == other.mod_seconds && self.mod_nano == other.mod_nano
    }

    /// Whether this entry was modified strictly later than the other.
    pub fn newer_than(&self, other: &Node) -> (newer: bool)
        ensures
            newer == self@.newer_than(other@),
    {
        self.mod_seconds > other.mod_seconds || (self.mod_seconds == other.mod_seconds
            && self.mod_nano > other.mod_nano)
    }
}

} // verus!
