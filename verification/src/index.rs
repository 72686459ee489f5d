//! The index of a tree: its entries, ordered by key.
//!
//! An index maps each key to the record of one entry. It keeps its entries
//! in the order of their keys, so that two indices of the same tree are
//! the same sequence and serialize to the same bytes.

use crate::node::{Node, NodeView};
use crate::text::{compare_text, lemma_text_lt_strict_total, text_lt, Order};
use vstd::prelude::*;

verus! {

/// The keys of the entries ascend strictly; in particular no key occurs
/// twice.
pub open spec fn ascending(s: Seq<NodeView>) -> bool {
    forall|i: int, j: int|
        0 <= i < j < s.len() ==> text_lt(
            (#[trigger] s[i]).relative_path,
            (#[trigger] s[j]).relative_path,
        )
}

/// Whether some entry has this key.
pub open spec fn has_key(s: Seq<NodeView>, key: Seq<char>) -> bool {
    exists|i: int| 0 <= i < s.len() && (#[trigger] s[i]).relative_path == key
}

/// Where the entry with this key stands.
pub open spec fn position(s: Seq<NodeView>, key: Seq<char>) -> int {
    choose|i: int| 0 <= i < s.len() && (#[trigger] s[i]).relative_path == key
}

/// The entries as a map from key to record.
pub open spec fn as_map(s: Seq<NodeView>) -> Map<Seq<char>, NodeView> {
    Map::new(|key: Seq<char>| has_key(s, key), |key: Seq<char>| s[position(s, key)])
}

/// How many entries come before `key`: every entry before this place has
/// a smaller key, and no entry from this place on has.
pub open spec fn is_rank(s: Seq<NodeView>, key: Seq<char>, r: int) -> bool {
    &&& 0 <= r <= s.len()
    &&& forall|j: int| 0 <= j < r ==> text_lt((#[trigger] s[j]).relative_path, key)
    &&& forall|j: int| r <= j < s.len() ==> !text_lt((#[trigger] s[j]).relative_path, key)
}

/// In an ascending sequence a key is found at one place only.
pub proof fn lemma_position(s: Seq<NodeView>, i: int)
    requires
        ascending(s),
        0 <= i < s.len(),
    ensures
        has_key(s, s[i].relative_path),
        position(s, s[i].relative_path) == i,
        as_map(s).dom().contains(s[i].relative_path),
        as_map(s)[s[i].relative_path] == s[i],
{
    let key = s[i].relative_path;
    let p = position(s, key);
    lemma_text_lt_strict_total(key, key, key);
    if p < i {
        assert(text_lt(s[p].relative_path, s[i].relative_path));
    } else if i < p {
        assert(text_lt(s[i].relative_path, s[p].relative_path));
    }
}

/// A key that is present stands at its rank.
pub proof fn lemma_rank_finds(s: Seq<NodeView>, key: Seq<char>, r: int)
    requires
        ascending(s),
        is_rank(s, key, r),
    ensures
        has_key(s, key) <==> (r < s.len() && s[r].relative_path == key),
{
    lemma_text_lt_strict_total(key, key, key);
    if has_key(s, key) {
        let p = position(s, key);
        if p < r {
            assert(text_lt(s[p].relative_path, key));
        } else if r < p {
            assert(text_lt(s[r].relative_path, s[p].relative_path));
            assert(!text_lt(s[r].relative_path, key));
        }
    }
}

/// Putting a record with a new key at the rank of its key keeps the order
/// and adds one pair to the map.
pub proof fn lemma_insert_new(s: Seq<NodeView>, node: NodeView, r: int)
    requires
        ascending(s),
        is_rank(s, node.relative_path, r),
        !has_key(s, node.relative_path),
    ensures
        ascending(s.insert(r, node)),
        as_map(s.insert(r, node)) == as_map(s).insert(node.relative_path, node),
{
    let key = node.relative_path;
    let t = s.insert(r, node);
    assert forall|i: int, j: int| 0 <= i < j < t.len() implies text_lt(
        (#[trigger] t[i]).relative_path,
        (#[trigger] t[j]).relative_path,
    ) by {
        if j == r {
            assert(t[i] == s[i]);
        } else if i == r {
            assert(t[j] == s[j - 1]);
            lemma_text_lt_strict_total(s[j - 1].relative_path, key, key);
            assert(s[j - 1].relative_path != key);
        } else {
            let si = if i < r { i } else { i - 1 };
            let sj = if j < r { j } else { j - 1 };
            assert(t[i] == s[si] && t[j] == s[sj]);
        }
    }
    assert forall|k: Seq<char>| has_key(t, k) <==> (has_key(s, k) || k == key) by {
        if has_key(t, k) {
            let p = position(t, k);
            if p < r {
                assert(s[p].relative_path == k);
            } else if p > r {
                assert(s[p - 1].relative_path == k);
            }
        }
        if has_key(s, k) {
            let p = position(s, k);
            if p < r {
                assert(t[p].relative_path == k);
            } else {
                assert(t[p + 1].relative_path == k);
            }
        }
        if k == key {
            assert(t[r].relative_path == k);
        }
    }
    assert forall|k: Seq<char>| has_key(t, k) implies #[trigger] as_map(t)[k] == as_map(s).insert(
        key,
        node,
    )[k] by {
        let p = position(t, k);
        lemma_position(t, p);
        lemma_text_lt_strict_total(k, key, k);
        if p < r {
            lemma_position(s, p);
            assert(text_lt(t[p].relative_path, t[r].relative_path));
        } else if p > r {
            lemma_position(s, p - 1);
            assert(text_lt(t[r].relative_path, t[p].relative_path));
        }
    }
    assert(as_map(t) =~= as_map(s).insert(key, node));
}

/// Replacing the record of a key keeps the order and rebinds the key in
/// the map.
pub proof fn lemma_replace(s: Seq<NodeView>, node: NodeView, r: int)
    requires
        ascending(s),
        0 <= r < s.len(),
        s[r].relative_path == node.relative_path,
    ensures
        ascending(s.update(r, node)),
        as_map(s.update(r, node)) == as_map(s).insert(node.relative_path, node),
{
    let key = node.relative_path;
    let t = s.update(r, node);
    assert forall|i: int, j: int| 0 <= i < j < t.len() implies text_lt(
        (#[trigger] t[i]).relative_path,
        (#[trigger] t[j]).relative_path,
    ) by {
        assert(t[i].relative_path == s[i].relative_path);
        assert(t[j].relative_path == s[j].relative_path);
    }
    assert forall|k: Seq<char>| has_key(t, k) <==> has_key(s, k) by {
        if has_key(t, k) {
            let p = position(t, k);
            assert(s[p].relative_path == k);
        }
        if has_key(s, k) {
            let p = position(s, k);
            assert(t[p].relative_path == k);
        }
    }
    assert(s[r].relative_path == key);
    assert forall|k: Seq<char>| has_key(t, k) implies #[trigger] as_map(t)[k] == as_map(s).insert(
        key,
        node,
    )[k] by {
        let p = position(t, k);
        lemma_position(t, p);
        lemma_position(s, p);
        lemma_text_lt_strict_total(k, key, k);
        if p < r {
            assert(text_lt(s[p].relative_path, s[r].relative_path));
        } else if p > r {
            assert(text_lt(s[r].relative_path, s[p].relative_path));
        }
    }
    assert(as_map(t) =~= as_map(s).insert(key, node));
}

/// Two ascending sequences that hold the same map are the same sequence.
pub proof fn lemma_map_determines_order(a: Seq<NodeView>, b: Seq<NodeView>)
    requires
        ascending(a),
        ascending(b),
        as_map(a) == as_map(b),
    ensures
        a == b,
    decreases a.len(),
{
    if a.len() == 0 {
        if b.len() > 0 {
            lemma_position(b, 0);
            assert(as_map(a).dom().contains(b[0].relative_path));
        }
        assert(a =~= b);
    } else {
        let last = a.last();
        lemma_position(a, a.len() - 1);
        assert(as_map(b).dom().contains(last.relative_path));
        let p = position(b, last.relative_path);
        lemma_position(b, p);
        if p < b.len() - 1 {
            // the last of `b` is greater than every key of `a`
            let top = b.last();
            lemma_position(b, b.len() - 1);
            assert(as_map(a).dom().contains(top.relative_path));
            let q = position(a, top.relative_path);
            lemma_position(a, q);
            assert(text_lt(b[p].relative_path, top.relative_path));
            lemma_text_lt_strict_total(last.relative_path, top.relative_path, last.relative_path);
            if q < a.len() - 1 {
                assert(text_lt(a[q].relative_path, last.relative_path));
            }
        }
        assert(b.last() == last);
        let a0 = a.drop_last();
        let b0 = b.drop_last();
        assert forall|k: Seq<char>| has_key(a0, k) <==> has_key(b0, k) by {
            lemma_text_lt_strict_total(k, k, k);
            if has_key(a0, k) {
                let i = position(a0, k);
                assert(a[i].relative_path == k);
                lemma_position(a, i);
                let j = position(b, k);
                lemma_position(b, j);
                assert(text_lt(a[i].relative_path, last.relative_path));
                assert(j < b.len() - 1);
                assert(b0[j].relative_path == k);
            }
            if has_key(b0, k) {
                let j = position(b0, k);
                assert(b[j].relative_path == k);
                lemma_position(b, j);
                let i = position(a, k);
                lemma_position(a, i);
                assert(text_lt(b[j].relative_path, last.relative_path));
                assert(i < a.len() - 1);
                assert(a0[i].relative_path == k);
            }
        }
        assert forall|k: Seq<char>| has_key(a0, k) implies #[trigger] as_map(a0)[k] == as_map(
            b0,
        )[k] by {
            let i = position(a0, k);
            lemma_position(a0, i);
            lemma_position(a, i);
            let j = position(b0, k);
            lemma_position(b0, j);
            lemma_position(b, j);
        }
        assert(as_map(a0) =~= as_map(b0));
        lemma_map_determines_order(a0, b0);
        assert(a =~= a0.push(last));
        assert(b =~= b0.push(last));
    }
}

/// An index: the records of a tree in ascending order of their keys.
#[derive(Debug, PartialEq, Eq)]
pub struct Index {
    nodes: Vec<Node>,
}

impl View for Index {
    type V = Seq<NodeView>;

    closed spec fn view(&self) -> Seq<NodeView> {
        Seq::new(self.nodes@.len(), |i: int| self.nodes@[i]@)
    }
}

impl Index {
    /// What holds of every index: its keys ascend strictly.
    #[verifier::type_invariant]
    pub open spec fn well_formed(&self) -> bool {
        ascending(self@)
    }

    /// The index without entries.
    pub fn new() -> (index: Index)
        ensures
            index@ == Seq::<NodeView>::empty(),
    {
        let index = Index { nodes: Vec::new() };
        assert(index@ =~= Seq::<NodeView>::empty());
        index
    }

    /// The number of entries.
    pub fn len(&self) -> (n: usize)
        ensures
            n == self@.len(),
            ascending(self@),
    {
        proof {
            use_type_invariant(self);
        }
        self.nodes.len()
    }

    /// The entry at place `i` in the order of keys.
    pub fn node(&self, i: usize) -> (node: &Node)
        requires
            i < self@.len(),
        ensures
            node@ == self@[i as int],
    {
        &self.nodes[i]
    }

    /// The number of entries whose key comes before `key`.
    pub fn rank(&self, key: &str) -> (r: usize)
        ensures
            is_rank(self@, key@, r as int),
    {
        proof {
            use_type_invariant(self);
        }
        let mut low: usize = 0;
        let mut high: usize = self.nodes.len();
        while low < high
            invariant
                low <= high <= self@.len(),
                self@.len() == self.nodes@.len(),
                forall|i: int| 0 <= i < self@.len() ==> (#[trigger] self@[i]) == self.nodes@[i]@,
                ascending(self@),
                forall|j: int| 0 <= j < low ==> text_lt((#[trigger] self@[j]).relative_path, key@),
                forall|j: int|
                    high <= j < self@.len() ==> !text_lt((#[trigger] self@[j]).relative_path, key@),
            decreases high - low,
        {
            let mid: usize = low + (high - low) / 2;
            let there = self.nodes[mid].relative_path.as_str();
            match compare_text(there, key) {
                Order::Less => {
                    assert forall|j: int| 0 <= j < mid + 1 implies text_lt(
                        (#[trigger] self@[j]).relative_path,
                        key@,
                    ) by {
                        if j < mid {
                            assert(text_lt(
                                self@[j].relative_path,
                                self@[mid as int].relative_path,
                            ));
                            lemma_text_lt_strict_total(
                                self@[j].relative_path,
                                self@[mid as int].relative_path,
                                key@,
                            );
                        }
                    }
                    low = mid + 1;
                },
                _ => {
                    assert forall|j: int| mid <= j < self@.len() implies !text_lt(
                        (#[trigger] self@[j]).relative_path,
                        key@,
                    ) by {
                        lemma_text_lt_strict_total(there@, key@, there@);
                        if mid < j {
                            assert(text_lt(
                                self@[mid as int].relative_path,
                                self@[j].relative_path,
                            ));
                            lemma_text_lt_strict_total(
                                self@[mid as int].relative_path,
                                self@[j].relative_path,
                                key@,
                            );
                            lemma_text_lt_strict_total(key@, there@, key@);
                        }
                    }
                    high = mid;
                },
            }
        }
        low
    }

    /// Where the entry with this key stands, if there is one.
    pub fn find(&self, key: &str) -> (place: Option<usize>)
        ensures
            place is Some <==> has_key(self@, key@),
            place is Some ==> place.unwrap() < self@.len() && place.unwrap() == position(
                self@,
                key@,
            ),
    {
        proof {
            use_type_invariant(self);
        }
        let r = self.rank(key);
        proof {
            lemma_rank_finds(self@, key@, r as int);
        }
        if r < self.nodes.len() {
            match compare_text(self.nodes[r].relative_path.as_str(), key) {
                Order::Equal => {
                    proof {
                        lemma_position(self@, r as int);
                    }
                    Some(r)
                },
                _ => None,
            }
        } else {
            None
        }
    }

    /// Whether the index has an entry under this key.
    pub fn contains_key(&self, key: &str) -> (yes: bool)
        ensures
            yes == as_map(self@).dom().contains(key@),
    {
        self.find(key).is_some()
    }

    /// The record under this key.
    pub fn get(&self, key: &str) -> (node: Option<&Node>)
        ensures
            node is Some <==> as_map(self@).dom().contains(key@),
            node is Some ==> node.unwrap()@ == as_map(self@)[key@],
    {
        match self.find(key) {
            Some(i) => Some(&self.nodes[i]),
            None => None,
        }
    }

    /// Adds `node` at the end, provided that its key comes after every
    /// key of the index; otherwise the index stays as it is.
    pub fn push_back(&mut self, node: Node) -> (ok: bool)
        ensures
            ok <==> (old(self)@.len() == 0 || text_lt(
                old(self)@.last().relative_path,
                node@.relative_path,
            )),
            ok ==> final(self)@ == old(self)@.push(node@),
            !ok ==> final(self)@ == old(self)@,
            ascending(final(self)@),
    {
        proof {
            use_type_invariant(&*self);
        }
        let n = self.nodes.len();
        let ghost before = self@;
        if n > 0 {
            match compare_text(
                self.nodes[n - 1].relative_path.as_str(),
                node.relative_path.as_str(),
            ) {
                Order::Less => {},
                _ => {
                    proof {
                        lemma_text_lt_strict_total(
                            before.last().relative_path,
                            node@.relative_path,
                            before.last().relative_path,
                        );
                    }
                    return false;
                },
            }
        }
        let mut nodes: Vec<Node> = Vec::new();
        std::mem::swap(&mut self.nodes, &mut nodes);
        nodes.push(node);
        let ghost after = Seq::new(nodes@.len(), |i: int| nodes@[i]@);
        assert(after =~= before.push(node@));
        assert forall|i: int, j: int| 0 <= i < j < after.len() implies text_lt(
            (#[trigger] after[i]).relative_path,
            (#[trigger] after[j]).relative_path,
        ) by {
            if j == after.len() - 1 {
                if i < n - 1 {
                    assert(text_lt(before[i].relative_path, before[n - 1].relative_path));
                    lemma_text_lt_strict_total(
                        before[i].relative_path,
                        before[n - 1].relative_path,
                        node@.relative_path,
                    );
                }
            } else {
                assert(after[i] == before[i] && after[j] == before[j]);
            }
        }
        self.nodes = nodes;
        true
    }

    /// Binds the key of `node` to `node` and hands back the record that
    /// was bound to it before.
    pub fn insert(&mut self, node: Node) -> (previous: Option<Node>)
        ensures
            as_map(final(self)@) == as_map(old(self)@).insert(node@.relative_path, node@),
            previous is Some <==> has_key(old(self)@, node@.relative_path),
            previous is Some ==> previous.unwrap()@ == as_map(old(self)@)[node@.relative_path],
            ascending(final(self)@),
    {
        proof {
            use_type_invariant(&*self);
        }
        let r = self.rank(node.relative_path.as_str());
        let found = r < self.nodes.len() && same_key(&self.nodes[r], &node);
        proof {
            lemma_rank_finds(self@, node@.relative_path, r as int);
        }
        let ghost before = self@;
        let mut nodes: Vec<Node> = Vec::new();
        std::mem::swap(&mut self.nodes, &mut nodes);
        assert(Seq::new(nodes@.len(), |i: int| nodes@[i]@) =~= before);
        if found {
            proof {
                lemma_position(before, r as int);
                lemma_replace(before, node@, r as int);
            }
            let mut node = node;
            std::mem::swap(&mut nodes[r], &mut node);
            assert(Seq::new(nodes@.len(), |i: int| nodes@[i]@) =~= before.update(
                r as int,
                nodes@[r as int]@,
            ));
            self.nodes = nodes;
            Some(node)
        } else {
            proof {
                lemma_insert_new(before, node@, r as int);
            }
            nodes.insert(r, node);
            assert(Seq::new(nodes@.len(), |i: int| nodes@[i]@) =~= before.insert(r as int, node@));
            self.nodes = nodes;
            None
        }
    }
}

impl Clone for Index {
    fn clone(&self) -> (copy: Self)
        ensures
            copy@ == self@,
    {
        proof {
            use_type_invariant(self);
        }
        let mut nodes: Vec<Node> = Vec::new();
        let mut i: usize = 0;
        while i < self.nodes.len()
            invariant
                i <= self.nodes.len(),
                nodes.len() == i,
                forall|j: int| 0 <= j < i ==> nodes@[j] == self.nodes@[j],
            decreases self.nodes.len() - i,
        {
            nodes.push(self.nodes[i].clone());
            i += 1;
        }
        assert(Seq::new(nodes@.len(), |i: int| nodes@[i]@) =~= self@);
        Index { nodes }
    }
}

fn same_key(a: &Node, b: &Node) -> (same: bool)
    ensures
        same == (a@.relative_path == b@.relative_path),
{
    crate::text::same_text(a.relative_path.as_str(), b.relative_path.as_str())
}

} // verus!
