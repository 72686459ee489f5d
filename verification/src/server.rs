//! The change-set service.

use crate::diff::{change_views, changes_between, Change};
use crate::index::Index;
use crate::synchronizer::Synchronizer;
use vstd::prelude::*;

verus! {

/// The change-set service of a peer: answers for one synchronizer.
pub struct SynchronizerService<'a> {
    pub synchronizer: &'a Synchronizer,
}

impl<'a> SynchronizerService<'a> {
    /// The changes that separate the tree of the one who asks from the
    /// tree that is served.
    pub fn get_change_set(&self, remote_tree: &Index) -> (r: Option<Vec<Change>>)
        ensures
            r is Some <==> changes_between(remote_tree@, self.synchronizer@.entries, true).len()
                > 0,
            r is Some ==> change_views(r.unwrap()@) == changes_between(
                remote_tree@,
                self.synchronizer@.entries,
                true,
            ),
    {
        self.synchronizer.remote_changes(remote_tree)
    }
}

} // verus!
