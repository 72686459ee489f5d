//! What holds of every index that a walk builds, and of its snapshot.

use crate::config::ConfigView;
use crate::index::{as_map, ascending, lemma_map_determines_order};
use crate::node::NodeView;
use crate::snapshot::{entries_fit, lemma_snapshot_round_trip, parse_index, ser_index};
use crate::synchronizer::{
    ignores_at, indexable, indexes, lemma_record_indexable, pruned, record, walk,
    SynchronizerView, WalkedView,
};
use crate::text::{lemma_join_restores_path, lemma_root_key_unique, spec_base_name, spec_join};
use vstd::prelude::*;

verus! {

/// Every record of a walk is indexable and stands under its own key.
pub proof fn lemma_walk_indexable(cfg: ConfigView, ws: Seq<WalkedView>)
    requires
        cfg.valid(),
    ensures
        forall|key: Seq<char>|
            #![trigger walk(cfg, ws).dom().contains(key)]
            walk(cfg, ws).dom().contains(key) ==> indexable(cfg, walk(cfg, ws)[key]) && walk(
                cfg,
                ws,
            )[key].relative_path == key,
    decreases ws.len(),
{
    if ws.len() > 0 {
        let before = walk(cfg, ws.drop_last());
        lemma_walk_indexable(cfg, ws.drop_last());
        if indexes(cfg, ws.last()) {
            lemma_record_indexable(cfg, ws.last());
        }
        assert forall|key: Seq<char>|
            #![trigger walk(cfg, ws).dom().contains(key)]
            walk(cfg, ws).dom().contains(key) implies indexable(cfg, walk(cfg, ws)[key]) && walk(
            cfg,
            ws,
        )[key].relative_path == key by {
            if !(indexes(cfg, ws.last()) && key == record(
                cfg,
                ws.last(),
            ).relative_path) {
                assert(before.dom().contains(key));
            }
        }
    }
}

/// The index of a walk determines its snapshot: two indices that hold the
/// same records under the same keys serialize to the same bytes.
pub proof fn lemma_snapshot_determined(a: Seq<NodeView>, b: Seq<NodeView>)
    requires
        ascending(a),
        ascending(b),
        as_map(a) == as_map(b),
    ensures
        ser_index(a) == ser_index(b),
{
    lemma_map_determines_order(a, b);
}

/// No path is walked twice.
pub open spec fn paths_distinct(ws: Seq<WalkedView>) -> bool {
    forall|i: int, j: int|
        0 <= i < j < ws.len() ==> (#[trigger] ws[i]).path != (#[trigger] ws[j]).path
}

/// Two walked entries that are indexed under the same key have the same
/// path.
proof fn lemma_key_determines_path(cfg: ConfigView, v: WalkedView, w: WalkedView)
    requires
        cfg.valid(),
        indexes(cfg, v),
        indexes(cfg, w),
        record(cfg, v).relative_path == record(cfg, w).relative_path,
    ensures
        v.path == w.path,
{
    lemma_join_restores_path(cfg.root, v.path);
    lemma_join_restores_path(cfg.root, w.path);
}

/// The index of a walk that meets no path twice holds exactly the records
/// of the walked entries that are indexed, each under its key.
pub proof fn lemma_walk_members(cfg: ConfigView, ws: Seq<WalkedView>)
    requires
        cfg.valid(),
        paths_distinct(ws),
    ensures
        forall|key: Seq<char>|
            #![trigger walk(cfg, ws).dom().contains(key)]
            walk(cfg, ws).dom().contains(key) <==> exists|j: int|
                0 <= j < ws.len() && indexes(cfg, #[trigger] ws[j]) && record(
                    cfg,
                    ws[j],
                ).relative_path == key,
        forall|j: int|
            0 <= j < ws.len() && indexes(cfg, #[trigger] ws[j]) ==> walk(
                cfg,
                ws,
            ).dom().contains(record(cfg, ws[j]).relative_path) && walk(cfg, ws)[record(
                cfg,
                ws[j],
            ).relative_path] == record(cfg, ws[j]),
    decreases ws.len(),
{
    if ws.len() > 0 {
        let head = ws.drop_last();
        let last = ws.last();
        assert forall|i: int, j: int| 0 <= i < j < head.len() implies (#[trigger] head[i]).path != (
        #[trigger] head[j]).path by {
            assert(head[i] == ws[i] && head[j] == ws[j]);
        }
        lemma_walk_members(cfg, head);
        assert forall|key: Seq<char>|
            #![trigger walk(cfg, ws).dom().contains(key)]
            walk(cfg, ws).dom().contains(key) <==> exists|j: int|
                0 <= j < ws.len() && indexes(cfg, #[trigger] ws[j]) && record(
                    cfg,
                    ws[j],
                ).relative_path == key by {
            if walk(cfg, ws).dom().contains(key) {
                if walk(cfg, head).dom().contains(key) {
                    let j = choose|j: int|
                        0 <= j < head.len() && indexes(cfg, #[trigger] head[j])
                            && record(cfg, head[j]).relative_path == key;
                    assert(ws[j] == head[j]);
                } else {
                    assert(indexes(cfg, ws[ws.len() - 1]));
                }
            }
            if exists|j: int|
                0 <= j < ws.len() && indexes(cfg, #[trigger] ws[j]) && record(
                    cfg,
                    ws[j],
                ).relative_path == key {
                let j = choose|j: int|
                    0 <= j < ws.len() && indexes(cfg, #[trigger] ws[j])
                        && record(cfg, ws[j]).relative_path == key;
                if j < head.len() {
                    assert(head[j] == ws[j]);
                    assert(walk(cfg, head).dom().contains(key));
                }
            }
        }
        assert forall|j: int|
            0 <= j < ws.len() && indexes(cfg, #[trigger] ws[j]) implies walk(
            cfg,
            ws,
        ).dom().contains(record(cfg, ws[j]).relative_path) && walk(cfg, ws)[record(
            cfg,
            ws[j],
        ).relative_path] == record(cfg, ws[j]) by {
            if j < head.len() {
                assert(head[j] == ws[j]);
                if indexes(cfg, last) && record(cfg, last).relative_path
                    == record(cfg, ws[j]).relative_path {
                    lemma_key_determines_path(cfg, ws[j], last);
                    assert(ws[j].path != ws[ws.len() - 1].path);
                }
            }
        }
    }
}

/// The index of a walk does not depend on the order of the walk: two
/// walks that meet the same entries, none of them twice, build the same
/// index.
pub proof fn lemma_walk_order_independent(
    cfg: ConfigView,
    a: Seq<WalkedView>,
    b: Seq<WalkedView>,
)
    requires
        cfg.valid(),
        paths_distinct(a),
        paths_distinct(b),
        forall|w: WalkedView| a.contains(w) <==> b.contains(w),
    ensures
        walk(cfg, a) == walk(cfg, b),
{
    lemma_walk_members(cfg, a);
    lemma_walk_members(cfg, b);
    assert forall|key: Seq<char>| walk(cfg, a).dom().contains(key) implies walk(
        cfg,
        b,
    ).dom().contains(key) && walk(cfg, a)[key] == walk(cfg, b)[key] by {
        let j = choose|j: int|
            0 <= j < a.len() && indexes(cfg, #[trigger] a[j]) && record(
                cfg,
                a[j],
            ).relative_path == key;
        assert(a.contains(a[j]));
        assert(b.contains(a[j]));
        let k = choose|k: int| 0 <= k < b.len() && b[k] == a[j];
        assert(indexes(cfg, b[k]));
    }
    assert forall|key: Seq<char>| walk(cfg, b).dom().contains(key) implies walk(
        cfg,
        a,
    ).dom().contains(key) by {
        let j = choose|j: int|
            0 <= j < b.len() && indexes(cfg, #[trigger] b[j]) && record(
                cfg,
                b[j],
            ).relative_path == key;
        assert(b.contains(b[j]));
        assert(a.contains(b[j]));
        let k = choose|k: int| 0 <= k < a.len() && a[k] == b[j];
        assert(indexes(cfg, a[k]));
    }
    assert(walk(cfg, a) =~= walk(cfg, b));
}

/// Indexing the same walk twice under the same configuration gives the
/// same snapshot, byte for byte.
pub proof fn lemma_index_deterministic(
    first: SynchronizerView,
    second: SynchronizerView,
    cfg: ConfigView,
    ws: Seq<WalkedView>,
)
    requires
        first.sound(),
        second.sound(),
        as_map(first.entries) == walk(cfg, ws),
        as_map(second.entries) == walk(cfg, ws),
    ensures
        ser_index(first.entries) == ser_index(second.entries),
{
    lemma_snapshot_determined(first.entries, second.entries);
}

/// Indexing the same tree twice gives the same snapshot, byte for byte,
/// even if the two walks meet the entries in different orders.
pub proof fn lemma_index_deterministic_in_any_order(
    first: SynchronizerView,
    second: SynchronizerView,
    cfg: ConfigView,
    a: Seq<WalkedView>,
    b: Seq<WalkedView>,
)
    requires
        cfg.valid(),
        first.sound(),
        second.sound(),
        as_map(first.entries) == walk(cfg, a),
        as_map(second.entries) == walk(cfg, b),
        paths_distinct(a),
        paths_distinct(b),
        forall|w: WalkedView| a.contains(w) <==> b.contains(w),
    ensures
        ser_index(first.entries) == ser_index(second.entries),
{
    lemma_walk_order_independent(cfg, a, b);
    lemma_snapshot_determined(first.entries, second.entries);
}

/// No record of a synchronizer, and so no entry of its snapshot, is
/// matched by an ignore glob: not by a path glob on its path, and not by
/// the built-in glob or a name glob on its name.
pub proof fn lemma_nothing_ignored_in_snapshot(s: SynchronizerView)
    requires
        s.sound(),
        entries_fit(s.entries),
    ensures
        parse_index(ser_index(s.entries)) == Some(s.entries),
        forall|i: int|
            0 <= i < s.entries.len() ==> !s.config.ignores(
                (#[trigger] s.entries[i]).path,
                s.entries[i].name,
            ),
{
    lemma_snapshot_round_trip(s.entries);
}

/// A walked entry that an ignore glob matches is not in the index of the
/// walk, wherever in the walk it stands.
pub proof fn lemma_ignored_never_indexed(cfg: ConfigView, ws: Seq<WalkedView>, path: Seq<char>)
    requires
        cfg.valid(),
        cfg.ignores(path, spec_base_name(path)),
    ensures
        forall|key: Seq<char>|
            #![trigger walk(cfg, ws).dom().contains(key)]
            walk(cfg, ws).dom().contains(key) ==> walk(cfg, ws)[key].path != path,
{
    lemma_walk_indexable(cfg, ws);
}

/// An entry whose key has the key of a directory and a separator at its
/// front lies in the subtree of that directory: if the filter skips the
/// directory, the entry is pruned.
pub proof fn lemma_below_is_pruned(cfg: ConfigView, dir: Seq<char>, key: Seq<char>)
    requires
        0 < dir.len() < key.len(),
        key.take(dir.len() as int) == dir,
        key[dir.len() as int] == '/',
        key != cfg.root,
        ignores_at(cfg, spec_join(cfg.root, dir)),
    ensures
        pruned(cfg, key),
{
}

/// Skipping a directory prunes its whole subtree: no record of a walk
/// stands under a key that is pruned, whether or not the walk went below
/// the directory.
pub proof fn lemma_pruned_never_indexed(cfg: ConfigView, ws: Seq<WalkedView>, key: Seq<char>)
    requires
        cfg.valid(),
        pruned(cfg, key),
    ensures
        !walk(cfg, ws).dom().contains(key),
{
    lemma_walk_indexable(cfg, ws);
}

/// Only the root stands under the root's key.
pub proof fn lemma_root_key_is_roots(cfg: ConfigView, n: NodeView)
    requires
        cfg.valid(),
        indexable(cfg, n),
    ensures
        n.relative_path == cfg.root <==> n.path == cfg.root,
{
    lemma_root_key_unique(cfg.root, n.path);
}

/// Once the walk has indexed the root, the index holds the root under
/// the root's own path, whatever is walked afterwards.
pub proof fn lemma_root_stays_indexed(cfg: ConfigView, ws: Seq<WalkedView>, j: int)
    requires
        cfg.valid(),
        0 <= j < ws.len(),
        ws[j].path == cfg.root,
        indexes(cfg, ws[j]),
    ensures
        walk(cfg, ws).dom().contains(cfg.root),
        walk(cfg, ws)[cfg.root].path == cfg.root,
        walk(cfg, ws)[cfg.root].relative_path == cfg.root,
    decreases ws.len(),
{
    lemma_walk_indexable(cfg, ws);
    let last = ws.last();
    if j == ws.len() - 1 {
        lemma_record_indexable(cfg, last);
        lemma_root_key_unique(cfg.root, last.path);
    } else {
        assert(ws.drop_last()[j] == ws[j]);
        lemma_root_stays_indexed(cfg, ws.drop_last(), j);
    }
    assert(walk(cfg, ws).dom().contains(cfg.root));
    lemma_root_key_is_roots(cfg, walk(cfg, ws)[cfg.root]);
}

} // verus!
