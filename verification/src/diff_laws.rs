//! What holds of every change set.

use crate::diff::{
    backward_change, backward_scan, forward_change, forward_scan, listed, spec_diff, ChangeType,
    ChangeView,
};
use crate::index::{as_map, ascending, has_key, lemma_position, position};
use crate::node::NodeView;
use crate::text::text_lt;
use vstd::prelude::*;

verus! {

/// The effect of one change on a map from keys to records: an added or a
/// modified record is bound to its key, a deleted one is dropped.
pub open spec fn apply_change(m: Map<Seq<char>, NodeView>, c: ChangeView) -> Map<
    Seq<char>,
    NodeView,
> {
    match c.change_type {
        ChangeType::Added => m.insert(c.node.relative_path, c.node),
        ChangeType::Modified => m.insert(c.node.relative_path, c.node),
        ChangeType::Deleted => m.remove(c.node.relative_path),
    }
}

/// The effect of a change set, applied from its first change to its last.
pub open spec fn apply_changes(m: Map<Seq<char>, NodeView>, cs: Seq<ChangeView>) -> Map<
    Seq<char>,
    NodeView,
>
    decreases cs.len(),
{
    if cs.len() == 0 {
        m
    } else {
        apply_change(apply_changes(m, cs.drop_last()), cs.last())
    }
}

/// Whether the diff passes over the entry under `key`: it is in both
/// indices and either is a directory in the newer one or has the same
/// modification time in both.
pub open spec fn passed_over(older: Seq<NodeView>, newer: Seq<NodeView>, key: Seq<char>) -> bool {
    &&& has_key(older, key)
    &&& has_key(newer, key)
    &&& (as_map(newer)[key].is_dir || as_map(newer)[key].same_time(as_map(older)[key]))
}

/// Applying two change sets one after the other is applying them as one.
proof fn lemma_apply_concat(m: Map<Seq<char>, NodeView>, s: Seq<ChangeView>, t: Seq<ChangeView>)
    ensures
        apply_changes(m, s + t) == apply_changes(apply_changes(m, s), t),
    decreases t.len(),
{
    if t.len() == 0 {
        assert(s + t =~= s);
    } else {
        assert((s + t).drop_last() =~= s + t.drop_last());
        assert((s + t).last() == t.last());
        lemma_apply_concat(m, s, t.drop_last());
    }
}

/// Applying a change set and at most one more change.
proof fn lemma_apply_listed(m: Map<Seq<char>, NodeView>, s: Seq<ChangeView>, c: Option<ChangeView>)
    ensures
        apply_changes(m, s + listed(c)) == match c {
            Some(c) => apply_change(apply_changes(m, s), c),
            None => apply_changes(m, s),
        },
{
    match c {
        Some(c) => {
            assert((s + seq![c]).drop_last() =~= s);
            assert((s + seq![c]).last() == c);
        },
        None => {
            assert(s + Seq::<ChangeView>::empty() =~= s);
        },
    }
}

/// An ascending sequence without its last entry is ascending, lacks the
/// key of that entry and agrees with the whole on every other key.
proof fn lemma_prefix_ascending(s: Seq<NodeView>)
    requires
        ascending(s),
        s.len() > 0,
    ensures
        ascending(s.drop_last()),
        !has_key(s.drop_last(), s.last().relative_path),
        forall|k: Seq<char>|
            has_key(s, k) <==> (has_key(s.drop_last(), k) || k == s.last().relative_path),
        forall|k: Seq<char>|
            has_key(s.drop_last(), k) ==> as_map(s.drop_last())[k] == as_map(s)[k],
{
    let p = s.drop_last();
    let top = s.last().relative_path;
    assert forall|i: int, j: int| 0 <= i < j < p.len() implies text_lt(
        (#[trigger] p[i]).relative_path,
        (#[trigger] p[j]).relative_path,
    ) by {
        assert(p[i] == s[i] && p[j] == s[j]);
    }
    crate::text::lemma_text_lt_strict_total(top, top, top);
    if has_key(p, top) {
        let i = position(p, top);
        assert(p[i] == s[i]);
        assert(text_lt(s[i].relative_path, s[s.len() - 1].relative_path));
    }
    assert forall|k: Seq<char>| has_key(s, k) <==> (has_key(p, k) || k == top) by {
        if has_key(s, k) {
            let i = position(s, k);
            if i < p.len() {
                assert(p[i].relative_path == k);
            }
        }
        if has_key(p, k) {
            let i = position(p, k);
            assert(s[i].relative_path == k);
        }
        if k == top {
            assert(s[s.len() - 1].relative_path == k);
        }
    }
    assert forall|k: Seq<char>| has_key(p, k) implies as_map(p)[k] == as_map(s)[k] by {
        let i = position(p, k);
        lemma_position(p, i);
        assert(s[i] == p[i]);
        lemma_position(s, i);
    }
}

/// After the first scan over a part `p` of the newer index, every entry
/// of `p` that the scan reported is bound to its key, and nothing else
/// has changed.
proof fn lemma_forward_applied(m: Map<Seq<char>, NodeView>, a: Seq<NodeView>, p: Seq<NodeView>)
    requires
        ascending(p),
    ensures
        ({
            let r = apply_changes(m, forward_scan(a, p, false));
            &&& forall|k: Seq<char>|
                #![trigger r.dom().contains(k)]
                r.dom().contains(k) <==> (m.dom().contains(k) || (has_key(p, k) && forward_change(
                    a,
                    as_map(p)[k],
                    false,
                ) is Some))
            &&& forall|k: Seq<char>|
                r.dom().contains(k) ==> #[trigger] r[k] == if has_key(p, k) && forward_change(
                    a,
                    as_map(p)[k],
                    false,
                ) is Some {
                    as_map(p)[k]
                } else {
                    m[k]
                }
        }),
    decreases p.len(),
{
    if p.len() == 0 {
        assert forall|k: Seq<char>| !has_key(p, k) by {}
    } else {
        let q = p.drop_last();
        let last = p.last();
        lemma_prefix_ascending(p);
        lemma_forward_applied(m, a, q);
        lemma_apply_listed(m, forward_scan(a, q, false), forward_change(a, last, false));
        lemma_position(p, p.len() - 1);
    }
}

/// After the second scan over a part `q` of the older index, the keys of
/// `q` that the newer index lacks are gone, and nothing else has changed.
proof fn lemma_backward_applied(m: Map<Seq<char>, NodeView>, q: Seq<NodeView>, b: Seq<NodeView>)
    requires
        ascending(q),
    ensures
        ({
            let r = apply_changes(m, backward_scan(q, b));
            &&& forall|k: Seq<char>|
                #![trigger r.dom().contains(k)]
                r.dom().contains(k) <==> (m.dom().contains(k) && !(has_key(q, k) && !has_key(b, k)))
            &&& forall|k: Seq<char>| r.dom().contains(k) ==> #[trigger] r[k] == m[k]
        }),
    decreases q.len(),
{
    if q.len() == 0 {
        let r = apply_changes(m, backward_scan(q, b));
        assert(r == m);
        assert forall|k: Seq<char>|
            #![trigger r.dom().contains(k)]
            r.dom().contains(k) <==> (m.dom().contains(k) && !(has_key(q, k) && !has_key(
                b,
                k,
            ))) by {
            assert(!has_key(q, k));
        }
    } else {
        let p = q.drop_last();
        let last = q.last();
        let top = last.relative_path;
        lemma_prefix_ascending(q);
        lemma_backward_applied(m, p, b);
        lemma_apply_listed(m, backward_scan(p, b), backward_change(b, last));
        let r0 = apply_changes(m, backward_scan(p, b));
        let r = apply_changes(m, backward_scan(q, b));
        assert(r == if has_key(b, top) {
            r0
        } else {
            r0.remove(top)
        });
        assert forall|k: Seq<char>|
            #![trigger r.dom().contains(k)]
            r.dom().contains(k) <==> (m.dom().contains(k) && !(has_key(q, k) && !has_key(
                b,
                k,
            ))) by {
            assert(has_key(q, k) <==> (has_key(p, k) || k == top));
            assert(r0.dom().contains(k) <==> (m.dom().contains(k) && !(has_key(p, k) && !has_key(
                b,
                k,
            ))));
        }
        assert forall|k: Seq<char>| r.dom().contains(k) implies #[trigger] r[k] == m[k] by {
            assert(r0.dom().contains(k));
            assert(r0[k] == m[k]);
        }
    }
}

/// Applying the change set from `older` to `newer` to the older index
/// gives the newer index, except for what the diff passes over: an entry
/// that is in both indices and is a directory, or has the same
/// modification time in both, stays as the older index has it.
pub proof fn lemma_diff_complete(older: Seq<NodeView>, newer: Seq<NodeView>)
    requires
        ascending(older),
        ascending(newer),
    ensures
        ({
            let result = apply_changes(as_map(older), spec_diff(older, newer));
            &&& result.dom() == as_map(newer).dom()
            &&& forall|key: Seq<char>|
                result.dom().contains(key) ==> #[trigger] result[key] == if passed_over(
                    older,
                    newer,
                    key,
                ) {
                    as_map(older)[key]
                } else {
                    as_map(newer)[key]
                }
        }),
{
    let first = forward_scan(older, newer, false);
    let second = backward_scan(older, newer);
    let middle = apply_changes(as_map(older), first);
    let result = apply_changes(as_map(older), spec_diff(older, newer));
    lemma_apply_concat(as_map(older), first, second);
    lemma_forward_applied(as_map(older), older, newer);
    lemma_backward_applied(middle, older, newer);
    assert(result.dom() =~= as_map(newer).dom());
}

/// Where the diff passes over nothing but entries that agree, applying
/// the change set to the older index gives exactly the newer index.
pub proof fn lemma_diff_reaches_newer(older: Seq<NodeView>, newer: Seq<NodeView>)
    requires
        ascending(older),
        ascending(newer),
        forall|key: Seq<char>|
            passed_over(older, newer, key) ==> as_map(older)[key] == as_map(newer)[key],
    ensures
        apply_changes(as_map(older), spec_diff(older, newer)) == as_map(newer),
{
    lemma_diff_complete(older, newer);
    assert(apply_changes(as_map(older), spec_diff(older, newer)) =~= as_map(newer));
}

/// The kind that stands for a change when the two indices trade places.
pub open spec fn reversed_kind(kind: ChangeType) -> ChangeType {
    match kind {
        ChangeType::Added => ChangeType::Deleted,
        ChangeType::Modified => ChangeType::Modified,
        ChangeType::Deleted => ChangeType::Added,
    }
}

/// The change set with every kind reversed.
pub open spec fn reverse_kinds(s: Seq<ChangeView>) -> Seq<ChangeView> {
    Seq::new(
        s.len(),
        |i: int| ChangeView { change_type: reversed_kind(s[i].change_type), node: s[i].node },
    )
}

/// The change that adds the record.
pub open spec fn added(n: NodeView) -> ChangeView {
    ChangeView { change_type: ChangeType::Added, node: n }
}

/// The change that modifies the record.
pub open spec fn modified(n: NodeView) -> ChangeView {
    ChangeView { change_type: ChangeType::Modified, node: n }
}

/// The change that deletes the record.
pub open spec fn deleted(n: NodeView) -> ChangeView {
    ChangeView { change_type: ChangeType::Deleted, node: n }
}

/// Whether the diff from `older` reports the entry `n` as modified.
pub open spec fn modified_since(older: Seq<NodeView>, n: NodeView) -> bool {
    &&& has_key(older, n.relative_path)
    &&& !n.is_dir
    &&& !n.same_time(as_map(older)[n.relative_path])
}

/// No entry of `newer` is reported as modified.
pub open spec fn none_modified(older: Seq<NodeView>, newer: Seq<NodeView>) -> bool {
    forall|i: int| 0 <= i < newer.len() ==> !modified_since(older, #[trigger] newer[i])
}

/// Every key of `a` is a key of `b`.
pub open spec fn keys_within(a: Seq<NodeView>, b: Seq<NodeView>) -> bool {
    forall|i: int| 0 <= i < a.len() ==> has_key(b, (#[trigger] a[i]).relative_path)
}

/// Reversing the kinds of two lists and joining them is reversing the
/// kinds of the joined list.
proof fn lemma_reverse_concat(s: Seq<ChangeView>, t: Seq<ChangeView>)
    ensures
        reverse_kinds(s + t) == reverse_kinds(s) + reverse_kinds(t),
{
    assert(reverse_kinds(s + t) =~= reverse_kinds(s) + reverse_kinds(t));
}

/// Reversing the kinds twice changes nothing.
proof fn lemma_reverse_twice(s: Seq<ChangeView>)
    ensures
        reverse_kinds(reverse_kinds(s)) == s,
{
    assert(reverse_kinds(reverse_kinds(s)) =~= s);
}

/// Where nothing was modified, the first scan over `p` reports as added
/// what the second scan, with the indices in each other's place, reports
/// as deleted.
proof fn lemma_scans_mirror(a: Seq<NodeView>, p: Seq<NodeView>)
    requires
        none_modified(a, p),
    ensures
        forward_scan(a, p, false) == reverse_kinds(backward_scan(p, a)),
    decreases p.len(),
{
    if p.len() == 0 {
        assert(forward_scan(a, p, false) =~= reverse_kinds(backward_scan(p, a)));
    } else {
        let q = p.drop_last();
        assert forall|i: int| 0 <= i < q.len() implies !modified_since(a, #[trigger] q[i]) by {
            assert(q[i] == p[i]);
        }
        lemma_scans_mirror(a, q);
        assert(!modified_since(a, p[p.len() - 1]));
        lemma_reverse_concat(backward_scan(q, a), listed(backward_change(a, p.last())));
        assert(listed(forward_change(a, p.last(), false)) =~= reverse_kinds(
            listed(backward_change(a, p.last())),
        ));
    }
}

/// The first scan reports nothing where every key is known and nothing
/// was modified.
proof fn lemma_forward_silent(a: Seq<NodeView>, p: Seq<NodeView>)
    requires
        keys_within(p, a),
        none_modified(a, p),
    ensures
        forward_scan(a, p, false) == Seq::<ChangeView>::empty(),
    decreases p.len(),
{
    if p.len() > 0 {
        let q = p.drop_last();
        assert forall|i: int| 0 <= i < q.len() implies !modified_since(a, #[trigger] q[i])
            && has_key(a, q[i].relative_path) by {
            assert(q[i] == p[i]);
        }
        lemma_forward_silent(a, q);
        assert(!modified_since(a, p[p.len() - 1]));
        assert(has_key(a, p[p.len() - 1].relative_path));
        assert(forward_scan(a, p, false) =~= Seq::<ChangeView>::empty());
    }
}

/// The second scan reports nothing where every key is still there.
proof fn lemma_backward_silent(q: Seq<NodeView>, b: Seq<NodeView>)
    requires
        keys_within(q, b),
    ensures
        backward_scan(q, b) == Seq::<ChangeView>::empty(),
    decreases q.len(),
{
    if q.len() > 0 {
        let p = q.drop_last();
        assert forall|i: int| 0 <= i < p.len() implies has_key(
            b,
            (#[trigger] p[i]).relative_path,
        ) by {
            assert(p[i] == q[i]);
        }
        lemma_backward_silent(p, b);
        assert(has_key(b, q[q.len() - 1].relative_path));
        assert(backward_scan(q, b) =~= Seq::<ChangeView>::empty());
    }
}

/// The change set from `a` to `b` is the change set from `b` to `a` with
/// added and deleted in each other's place, provided that neither
/// direction reports a modification and that one index has every key of
/// the other.
///
/// Without the provisos the two lists differ: a modification carries the
/// record of the newer side, and additions come before deletions in both
/// directions.
pub proof fn lemma_diff_asymmetry(a: Seq<NodeView>, b: Seq<NodeView>)
    requires
        none_modified(a, b),
        none_modified(b, a),
        keys_within(a, b) || keys_within(b, a),
    ensures
        spec_diff(a, b) == reverse_kinds(spec_diff(b, a)),
{
    lemma_scans_mirror(a, b);
    lemma_scans_mirror(b, a);
    lemma_reverse_twice(backward_scan(a, b));
    lemma_reverse_concat(forward_scan(b, a, false), backward_scan(b, a));
    if keys_within(a, b) {
        lemma_backward_silent(a, b);
        lemma_forward_silent(b, a);
        assert(spec_diff(a, b) =~= forward_scan(a, b, false));
        assert(reverse_kinds(spec_diff(b, a)) =~= reverse_kinds(backward_scan(b, a)));
    } else {
        lemma_backward_silent(b, a);
        lemma_forward_silent(a, b);
        assert(spec_diff(a, b) =~= backward_scan(a, b));
        assert(reverse_kinds(spec_diff(b, a)) =~= reverse_kinds(forward_scan(b, a, false)));
    }
}

/// A change is among the reports of the first scan exactly if the scan
/// reports it of some entry.
proof fn lemma_forward_members(a: Seq<NodeView>, p: Seq<NodeView>, c: ChangeView)
    ensures
        forward_scan(a, p, false).contains(c) <==> exists|j: int|
            0 <= j < p.len() && forward_change(a, #[trigger] p[j], false) == Some(c),
    decreases p.len(),
{
    if p.len() > 0 {
        let q = p.drop_last();
        let tail = listed(forward_change(a, p.last(), false));
        let head = forward_scan(a, q, false);
        lemma_forward_members(a, q, c);
        if forward_scan(a, p, false).contains(c) {
            let i = choose|i: int| 0 <= i < (head + tail).len() && (head + tail)[i] == c;
            if i < head.len() {
                assert(head[i] == c);
                assert(head.contains(c));
                let j = choose|j: int|
                    0 <= j < q.len() && forward_change(a, #[trigger] q[j], false) == Some(c);
                assert(p[j] == q[j]);
            } else {
                assert(tail[i - head.len()] == c);
                assert(forward_change(a, p[p.len() - 1], false) == Some(c));
            }
        }
        if exists|j: int| 0 <= j < p.len() && forward_change(a, #[trigger] p[j], false) == Some(c) {
            let j = choose|j: int|
                0 <= j < p.len() && forward_change(a, #[trigger] p[j], false) == Some(c);
            if j < q.len() {
                assert(q[j] == p[j]);
                assert(head.contains(c));
                let i = choose|i: int| 0 <= i < head.len() && head[i] == c;
                assert((head + tail)[i] == c);
            } else {
                assert((head + tail)[head.len() as int] == c);
            }
        }
    }
}

/// A change is among the reports of the second scan exactly if the scan
/// reports it of some entry.
proof fn lemma_backward_members(q: Seq<NodeView>, b: Seq<NodeView>, c: ChangeView)
    ensures
        backward_scan(q, b).contains(c) <==> exists|j: int|
            0 <= j < q.len() && backward_change(b, #[trigger] q[j]) == Some(c),
    decreases q.len(),
{
    if q.len() > 0 {
        let p = q.drop_last();
        let tail = listed(backward_change(b, q.last()));
        let head = backward_scan(p, b);
        lemma_backward_members(p, b, c);
        if backward_scan(q, b).contains(c) {
            let i = choose|i: int| 0 <= i < (head + tail).len() && (head + tail)[i] == c;
            if i < head.len() {
                assert(head[i] == c);
                assert(head.contains(c));
                let j = choose|j: int|
                    0 <= j < p.len() && backward_change(b, #[trigger] p[j]) == Some(c);
                assert(q[j] == p[j]);
            } else {
                assert(tail[i - head.len()] == c);
                assert(backward_change(b, q[q.len() - 1]) == Some(c));
            }
        }
        if exists|j: int| 0 <= j < q.len() && backward_change(b, #[trigger] q[j]) == Some(c) {
            let j = choose|j: int|
                0 <= j < q.len() && backward_change(b, #[trigger] q[j]) == Some(c);
            if j < p.len() {
                assert(p[j] == q[j]);
                assert(head.contains(c));
                let i = choose|i: int| 0 <= i < head.len() && head[i] == c;
                assert((head + tail)[i] == c);
            } else {
                assert((head + tail)[head.len() as int] == c);
            }
        }
    }
}

/// The first scan reports additions and modifications only.
proof fn lemma_forward_kinds(a: Seq<NodeView>, p: Seq<NodeView>, i: int)
    requires
        0 <= i < forward_scan(a, p, false).len(),
    ensures
        forward_scan(a, p, false)[i].change_type != ChangeType::Deleted,
        none_modified(a, p) ==> forward_scan(a, p, false)[i].change_type == ChangeType::Added,
{
    let c = forward_scan(a, p, false)[i];
    assert(forward_scan(a, p, false).contains(c));
    lemma_forward_members(a, p, c);
    let j = choose|j: int| 0 <= j < p.len() && forward_change(a, #[trigger] p[j], false) == Some(c);
    if none_modified(a, p) {
        assert(!modified_since(a, p[j]));
    }
}

/// What a change set holds: the reports of its two scans.
pub proof fn lemma_diff_members(older: Seq<NodeView>, newer: Seq<NodeView>, c: ChangeView)
    ensures
        spec_diff(older, newer).contains(c) <==> ((exists|j: int|
            0 <= j < newer.len() && forward_change(older, #[trigger] newer[j], false) == Some(c))
            || (exists|j: int|
            0 <= j < older.len() && backward_change(newer, #[trigger] older[j]) == Some(c))),
{
    let first = forward_scan(older, newer, false);
    let second = backward_scan(older, newer);
    lemma_forward_members(older, newer, c);
    lemma_backward_members(older, newer, c);
    if (first + second).contains(c) {
        let i = choose|i: int| 0 <= i < (first + second).len() && (first + second)[i] == c;
        if i < first.len() {
            assert(first[i] == c);
        } else {
            assert(second[i - first.len()] == c);
        }
    }
    if first.contains(c) {
        let i = choose|i: int| 0 <= i < first.len() && first[i] == c;
        assert((first + second)[i] == c);
    }
    if second.contains(c) {
        let i = choose|i: int| 0 <= i < second.len() && second[i] == c;
        assert((first + second)[first.len() + i] == c);
    }
}

/// With the two indices in each other's place, what was added is deleted
/// and what was deleted is added.
pub proof fn lemma_diff_mirror(a: Seq<NodeView>, b: Seq<NodeView>, n: NodeView)
    ensures
        spec_diff(a, b).contains(added(n)) <==> spec_diff(b, a).contains(deleted(n)),
        spec_diff(a, b).contains(deleted(n)) <==> spec_diff(b, a).contains(added(n)),
{
    lemma_diff_members(a, b, added(n));
    lemma_diff_members(b, a, deleted(n));
    lemma_diff_members(a, b, deleted(n));
    lemma_diff_members(b, a, added(n));
    if spec_diff(a, b).contains(added(n)) {
        let j = choose|j: int|
            0 <= j < b.len() && forward_change(a, #[trigger] b[j], false) == Some(added(n));
        assert(backward_change(a, b[j]) == Some(deleted(n)));
    }
    if spec_diff(b, a).contains(deleted(n)) {
        let j = choose|j: int|
            0 <= j < b.len() && backward_change(a, #[trigger] b[j]) == Some(deleted(n));
        assert(forward_change(a, b[j], false) == Some(added(n)));
    }
    if spec_diff(a, b).contains(deleted(n)) {
        let j = choose|j: int|
            0 <= j < a.len() && backward_change(b, #[trigger] a[j]) == Some(deleted(n));
        assert(forward_change(b, a[j], false) == Some(added(n)));
    }
    if spec_diff(b, a).contains(added(n)) {
        let j = choose|j: int|
            0 <= j < a.len() && forward_change(b, #[trigger] a[j], false) == Some(added(n));
        assert(backward_change(b, a[j]) == Some(deleted(n)));
    }
}

/// An entry that is of the same kind in both indices is reported as
/// modified in one direction exactly if it is in the other; each
/// direction reports the record of its own newer side.
pub proof fn lemma_diff_mirror_modified(a: Seq<NodeView>, b: Seq<NodeView>, key: Seq<char>)
    requires
        ascending(a),
        ascending(b),
        has_key(a, key),
        has_key(b, key),
        as_map(a)[key].is_dir == as_map(b)[key].is_dir,
    ensures
        spec_diff(a, b).contains(modified(as_map(b)[key])) <==> spec_diff(b, a).contains(
            modified(as_map(a)[key]),
        ),
{
    let i = position(a, key);
    let j = position(b, key);
    lemma_position(a, i);
    lemma_position(b, j);
    lemma_diff_members(a, b, modified(b[j]));
    lemma_diff_members(b, a, modified(a[i]));
    if spec_diff(a, b).contains(modified(b[j])) {
        let k = choose|k: int|
            0 <= k < b.len() && forward_change(a, #[trigger] b[k], false) == Some(modified(b[j]));
        assert(b[k] == b[j]);
        assert(forward_change(b, a[i], false) == Some(modified(a[i])));
    }
    if spec_diff(b, a).contains(modified(a[i])) {
        let k = choose|k: int|
            0 <= k < a.len() && forward_change(b, #[trigger] a[k], false) == Some(modified(a[i]));
        assert(a[k] == a[i]);
        assert(forward_change(a, b[j], false) == Some(modified(b[j])));
    }
}

/// The provisos of [`lemma_diff_asymmetry`] are all that can be hoped
/// for: where the change set from `a` to `b` is the change set from `b`
/// to `a` with the kinds reversed, neither direction reports a
/// modification and one index has every key of the other.
pub proof fn lemma_diff_asymmetry_only_then(a: Seq<NodeView>, b: Seq<NodeView>)
    requires
        ascending(a),
        ascending(b),
        spec_diff(a, b) == reverse_kinds(spec_diff(b, a)),
    ensures
        none_modified(a, b),
        none_modified(b, a),
        keys_within(a, b) || keys_within(b, a),
{
    let forth = spec_diff(a, b);
    let back = spec_diff(b, a);
    let turned = reverse_kinds(back);
    assert forall|j: int| 0 <= j < b.len() implies !modified_since(a, #[trigger] b[j]) by {
        if modified_since(a, b[j]) {
            let c = modified(b[j]);
            lemma_diff_members(a, b, c);
            assert(forth.contains(c));
            let i = choose|i: int| 0 <= i < turned.len() && turned[i] == c;
            assert(back[i] == c);
            assert(back.contains(c));
            lemma_diff_members(b, a, c);
            let k = choose|k: int|
                0 <= k < a.len() && forward_change(b, #[trigger] a[k], false) == Some(c);
            lemma_position(b, j);
            assert(a[k] == b[j]);
        }
    }
    assert forall|i: int| 0 <= i < a.len() implies !modified_since(b, #[trigger] a[i]) by {
        if modified_since(b, a[i]) {
            let c = modified(a[i]);
            lemma_diff_members(b, a, c);
            assert(back.contains(c));
            let n = choose|n: int| 0 <= n < back.len() && back[n] == c;
            assert(turned[n] == c);
            assert(forth.contains(c));
            lemma_diff_members(a, b, c);
            let k = choose|k: int|
                0 <= k < b.len() && forward_change(a, #[trigger] b[k], false) == Some(c);
            lemma_position(a, i);
            assert(b[k] == a[i]);
        }
    }
    if !keys_within(a, b) && !keys_within(b, a) {
        let i = choose|i: int| 0 <= i < a.len() && !has_key(b, (#[trigger] a[i]).relative_path);
        let j = choose|j: int| 0 <= j < b.len() && !has_key(a, (#[trigger] b[j]).relative_path);
        let first = forward_scan(a, b, false);
        let first_back = forward_scan(b, a, false);
        lemma_forward_members(a, b, added(b[j]));
        assert(forward_change(a, b[j], false) == Some(added(b[j])));
        assert(first.contains(added(b[j])));
        lemma_forward_members(b, a, added(a[i]));
        assert(forward_change(b, a[i], false) == Some(added(a[i])));
        assert(first_back.contains(added(a[i])));
        lemma_forward_kinds(a, b, 0);
        lemma_forward_kinds(b, a, 0);
        assert(forth[0] == first[0]);
        assert(back[0] == first_back[0]);
        assert(turned[0].change_type == ChangeType::Deleted);
        assert(forth[0].change_type == ChangeType::Added);
    }
}

} // verus!
