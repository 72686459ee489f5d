//! The diff engine: the change set that leads from one index to another.
//!
//! A change set is produced by two scans. The first goes through the newer
//! index in the order of its keys and reports what was added and what was
//! modified; the second goes through the older index and reports what was
//! deleted. Directories are added and deleted but never modified, and equal
//! modification times are no change.

use crate::index::{as_map, has_key, Index};
use crate::node::{Node, NodeView};
use vstd::prelude::*;

verus! {

/// The kind of a change.
#[derive(Clone, Copy, Debug, PartialEq, Eq, Structural)]
pub enum ChangeType {
    /// The key is in the newer index only.
    Added,
    /// The key is in both indices, the entry is no directory and its
    /// modification time differs.
    Modified,
    /// The key is in the older index only.
    Deleted,
}

/// One change: its kind and the record it is about.
#[derive(Debug, PartialEq, Eq)]
pub struct Change {
    pub change_type: ChangeType,
    pub node: Node,
}

/// The mathematical content of a [`Change`].
pub struct ChangeView {
    pub change_type: ChangeType,
    pub node: NodeView,
}

impl View for Change {
    type V = ChangeView;

    open spec fn view(&self) -> ChangeView {
        ChangeView { change_type: self.change_type, node: self.node@ }
    }
}

impl Clone for Change {
    fn clone(&self) -> (copy: Self)
        ensures
            copy == *self,
    {
        Change { change_type: self.change_type, node: self.node.clone() }
    }
}

/// A list of changes, each taken by its content.
pub open spec fn change_views(s: Seq<Change>) -> Seq<ChangeView> {
    Seq::new(s.len(), |i: int| s[i]@)
}

/// What the first scan reports of the entry `n` of the newer index.
///
/// With `newer_only`, a modification is reported only where the entry of
/// the newer index was modified strictly later than its counterpart.
pub open spec fn forward_change(older: Seq<NodeView>, n: NodeView, newer_only: bool) -> Option<
    ChangeView,
> {
    if !has_key(older, n.relative_path) {
        Some(ChangeView { change_type: ChangeType::Added, node: n })
    } else {
        let before = as_map(older)[n.relative_path];
        if !n.is_dir && !n.same_time(before) && (!newer_only || n.newer_than(before)) {
            Some(ChangeView { change_type: ChangeType::Modified, node: n })
        } else {
            None
        }
    }
}

/// What the second scan reports of the entry `n` of the older index.
pub open spec fn backward_change(newer: Seq<NodeView>, n: NodeView) -> Option<ChangeView> {
    if !has_key(newer, n.relative_path) {
        Some(ChangeView { change_type: ChangeType::Deleted, node: n })
    } else {
        None
    }
}

/// The list of at most one change.
pub open spec fn listed(c: Option<ChangeView>) -> Seq<ChangeView> {
    match c {
        Some(c) => seq![c],
        None => Seq::empty(),
    }
}

/// The reports of the first scan over `newer`, in order.
pub open spec fn forward_scan(older: Seq<NodeView>, newer: Seq<NodeView>, newer_only: bool) -> Seq<
    ChangeView,
>
    decreases newer.len(),
{
    if newer.len() == 0 {
        Seq::empty()
    } else {
        forward_scan(older, newer.drop_last(), newer_only) + listed(
            forward_change(older, newer.last(), newer_only),
        )
    }
}

/// The reports of the second scan over `older`, in order.
pub open spec fn backward_scan(older: Seq<NodeView>, newer: Seq<NodeView>) -> Seq<ChangeView>
    decreases older.len(),
{
    if older.len() == 0 {
        Seq::empty()
    } else {
        backward_scan(older.drop_last(), newer) + listed(backward_change(newer, older.last()))
    }
}

/// The change set from `older` to `newer`: the first scan, then the
/// second.
pub open spec fn changes_between(
    older: Seq<NodeView>,
    newer: Seq<NodeView>,
    newer_only: bool,
) -> Seq<ChangeView> {
    forward_scan(older, newer, newer_only) + backward_scan(older, newer)
}

/// The change set that leads from `older` to `newer`.
pub open spec fn spec_diff(older: Seq<NodeView>, newer: Seq<NodeView>) -> Seq<ChangeView> {
    changes_between(older, newer, false)
}

fn collect_changes(older: &Index, newer: &Index, newer_only: bool) -> (changes: Vec<Change>)
    ensures
        change_views(changes@) == changes_between(older@, newer@, newer_only),
{
    let mut changes: Vec<Change> = Vec::new();
    let n = newer.len();
    let mut i: usize = 0;
    assert(newer@.take(0) =~= Seq::empty());
    assert(change_views(changes@) =~= Seq::empty());
    while i < n
        invariant
            i <= n == newer@.len(),
            change_views(changes@) == forward_scan(older@, newer@.take(i as int), newer_only),
        decreases n - i,
    {
        let node = newer.node(i);
        let ghost seen = change_views(changes@);
        proof {
            assert(newer@.take(i + 1).drop_last() =~= newer@.take(i as int));
            assert(newer@.take(i + 1).last() == newer@[i as int]);
        }
        match older.get(node.relative_path.as_str()) {
            None => {
                changes.push(Change { change_type: ChangeType::Added, node: node.clone() });
                assert(change_views(changes@) =~= seen + listed(
                    forward_change(older@, node@, newer_only),
                ));
            },
            Some(before) => {
                if !node.is_dir && !node.same_time(before) && (!newer_only || node.newer_than(
                    before,
                )) {
                    changes.push(Change { change_type: ChangeType::Modified, node: node.clone() });
                    assert(change_views(changes@) =~= seen + listed(
                        forward_change(older@, node@, newer_only),
                    ));
                } else {
                    assert(seen =~= seen + listed(forward_change(older@, node@, newer_only)));
                }
            },
        }
        i += 1;
    }
    assert(newer@.take(n as int) =~= newer@);
    let ghost first = change_views(changes@);
    let m = older.len();
    let mut j: usize = 0;
    assert(older@.take(0) =~= Seq::empty());
    assert(first =~= first + backward_scan(older@.take(0), newer@));
    while j < m
        invariant
            j <= m == older@.len(),
            change_views(changes@) == first + backward_scan(older@.take(j as int), newer@),
        decreases m - j,
    {
        let node = older.node(j);
        let ghost seen = backward_scan(older@.take(j as int), newer@);
        proof {
            assert(older@.take(j + 1).drop_last() =~= older@.take(j as int));
            assert(older@.take(j + 1).last() == older@[j as int]);
        }
        let ghost prior = change_views(changes@);
        if !newer.contains_key(node.relative_path.as_str()) {
            changes.push(Change { change_type: ChangeType::Deleted, node: node.clone() });
            assert(change_views(changes@) =~= prior.push(
                ChangeView { change_type: ChangeType::Deleted, node: node@ },
            ));
            assert(change_views(changes@) =~= first + (seen + listed(
                backward_change(newer@, node@),
            )));
        } else {
            assert(seen =~= seen + listed(backward_change(newer@, node@)));
        }
        j += 1;
    }
    assert(older@.take(m as int) =~= older@);
    changes
}

/// Computes the change set that leads from `older` to `newer`.
pub fn diff(older: &Index, newer: &Index) -> (changes: Vec<Change>)
    ensures
        change_views(changes@) == spec_diff(older@, newer@),
{
    collect_changes(older, newer, false)
}

/// Computes the change set that leads from `older` to `newer`, with a
/// modification reported only where the newer side was modified last.
pub fn diff_newer(older: &Index, newer: &Index) -> (changes: Vec<Change>)
    ensures
        change_views(changes@) == changes_between(older@, newer@, true),
{
    collect_changes(older, newer, true)
}

} // verus!
