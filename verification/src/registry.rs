//! The participant registry: who is registered, under which unique name.

use crate::message::{peer_views, Endpoint, Peer, PeerView, SocketAddress};
use crate::text::same_text;
use vstd::prelude::*;

verus! {

/// One registered participant: its name, the address of its gossip
/// socket and the endpoint it is reached through.
#[derive(Debug, PartialEq, Eq)]
pub struct ParticipantInfo {
    pub name: String,
    pub addr: SocketAddress,
    pub endpoint: Endpoint,
}

/// The mathematical content of a [`ParticipantInfo`].
pub struct ParticipantView {
    pub name: Seq<char>,
    pub addr: SocketAddress,
    pub endpoint: Endpoint,
}

impl View for ParticipantInfo {
    type V = ParticipantView;

    open spec fn view(&self) -> ParticipantView {
        ParticipantView { name: self.name@, addr: self.addr, endpoint: self.endpoint }
    }
}

impl Clone for ParticipantInfo {
    fn clone(&self) -> (copy: Self)
        ensures
            copy == *self,
    {
        ParticipantInfo { name: self.name.clone(), addr: self.addr, endpoint: self.endpoint }
    }
}

/// A list of participants, each taken by its content.
pub open spec fn participant_views(s: Seq<ParticipantInfo>) -> Seq<ParticipantView> {
    Seq::new(s.len(), |i: int| s[i]@)
}

/// No name occurs twice.
pub open spec fn names_distinct(ps: Seq<ParticipantView>) -> bool {
    forall|i: int, j: int|
        0 <= i < j < ps.len() ==> (#[trigger] ps[i]).name != (#[trigger] ps[j]).name
}

/// Whether a participant is registered under this name.
pub open spec fn registered(ps: Seq<ParticipantView>, name: Seq<char>) -> bool {
    exists|i: int| 0 <= i < ps.len() && (#[trigger] ps[i]).name == name
}

/// Whether a participant is reached through this endpoint.
pub open spec fn bound(ps: Seq<ParticipantView>, endpoint: Endpoint) -> bool {
    exists|i: int| 0 <= i < ps.len() && (#[trigger] ps[i]).endpoint == endpoint
}

/// The participants without the one registered under this name.
pub open spec fn without_name(ps: Seq<ParticipantView>, name: Seq<char>) -> Seq<ParticipantView>
    decreases ps.len(),
{
    if ps.len() == 0 {
        Seq::empty()
    } else if ps.last().name == name {
        without_name(ps.drop_last(), name)
    } else {
        without_name(ps.drop_last(), name).push(ps.last())
    }
}

/// The participants that are reached through this endpoint, if `bound`,
/// or the others, if not; in the order of their registration.
pub open spec fn split_by_endpoint(
    ps: Seq<ParticipantView>,
    endpoint: Endpoint,
    bound: bool,
) -> Seq<ParticipantView>
    decreases ps.len(),
{
    if ps.len() == 0 {
        Seq::empty()
    } else if (ps.last().endpoint == endpoint) == bound {
        split_by_endpoint(ps.drop_last(), endpoint, bound).push(ps.last())
    } else {
        split_by_endpoint(ps.drop_last(), endpoint, bound)
    }
}

/// The participants as the registry announces them.
pub open spec fn peers_of(ps: Seq<ParticipantView>) -> Seq<PeerView> {
    Seq::new(ps.len(), |i: int| PeerView { name: ps[i].name, addr: ps[i].addr })
}

/// Whatever is left after a name was struck was there before, nobody
/// else is gone, and the name is.
pub proof fn lemma_without_name(ps: Seq<ParticipantView>, name: Seq<char>)
    ensures
        forall|p: ParticipantView|
            #![trigger without_name(ps, name).contains(p)]
            #![trigger ps.contains(p)]
            without_name(ps, name).contains(p) <==> (ps.contains(p) && p.name != name),
        !registered(without_name(ps, name), name),
        names_distinct(ps) ==> names_distinct(without_name(ps, name)),
        without_name(ps, name).len() <= ps.len(),
        !registered(ps, name) ==> without_name(ps, name) == ps,
    decreases ps.len(),
{
    let out = without_name(ps, name);
    if ps.len() > 0 {
        let head = ps.drop_last();
        let last = ps.last();
        let sub = without_name(head, name);
        lemma_without_name(head, name);
        assert forall|p: ParticipantView|
            #![trigger out.contains(p)]
            #![trigger ps.contains(p)]
            out.contains(p) <==> (ps.contains(p) && p.name != name) by {
            if out.contains(p) {
                let i = choose|i: int| 0 <= i < out.len() && out[i] == p;
                if i < sub.len() {
                    assert(sub[i] == p);
                    assert(sub.contains(p));
                    let j = choose|j: int| 0 <= j < head.len() && head[j] == p;
                    assert(ps[j] == p);
                } else {
                    assert(ps[ps.len() - 1] == p);
                }
            }
            if ps.contains(p) && p.name != name {
                let j = choose|j: int| 0 <= j < ps.len() && ps[j] == p;
                if j < head.len() {
                    assert(head[j] == p);
                    assert(head.contains(p));
                    let i = choose|i: int| 0 <= i < sub.len() && sub[i] == p;
                    assert(out[i] == p);
                } else {
                    assert(out[out.len() - 1] == p);
                }
            }
        }
        if registered(out, name) {
            let i = choose|i: int| 0 <= i < out.len() && (#[trigger] out[i]).name == name;
            assert(out.contains(out[i]));
        }
        if names_distinct(ps) {
            assert forall|i: int, j: int| 0 <= i < j < head.len() implies (#[trigger] head[i]).name
                != (#[trigger] head[j]).name by {
                assert(head[i] == ps[i] && head[j] == ps[j]);
            }
            assert forall|i: int, j: int| 0 <= i < j < out.len() implies (#[trigger] out[i]).name
                != (#[trigger] out[j]).name by {
                if j < sub.len() {
                    assert(out[i] == sub[i] && out[j] == sub[j]);
                } else {
                    assert(out[j] == last);
                    assert(out[i] == sub[i]);
                    assert(sub.contains(sub[i]));
                    assert(head.contains(sub[i]));
                    let k = choose|k: int| 0 <= k < head.len() && head[k] == sub[i];
                    assert(ps[k].name != ps[ps.len() - 1].name);
                }
            }
        }
        if !registered(ps, name) {
            assert(ps[ps.len() - 1].name != name);
            if registered(head, name) {
                let i = choose|i: int| 0 <= i < head.len() && (#[trigger] head[i]).name == name;
                assert(ps[i].name == name);
            }
            assert(out =~= ps);
        }
    } else {
        assert(out =~= ps);
    }
}

/// Splitting by endpoint loses nobody and invents nobody.
pub proof fn lemma_split_by_endpoint(ps: Seq<ParticipantView>, endpoint: Endpoint, flag: bool)
    ensures
        forall|p: ParticipantView|
            #![trigger split_by_endpoint(ps, endpoint, flag).contains(p)]
            #![trigger ps.contains(p)]
            split_by_endpoint(ps, endpoint, flag).contains(p) <==> (ps.contains(p) && (p.endpoint
                == endpoint) == flag),
        names_distinct(ps) ==> names_distinct(split_by_endpoint(ps, endpoint, flag)),
        split_by_endpoint(ps, endpoint, flag).len() <= ps.len(),
        !flag ==> !bound(split_by_endpoint(ps, endpoint, flag), endpoint),
    decreases ps.len(),
{
    let out = split_by_endpoint(ps, endpoint, flag);
    if ps.len() > 0 {
        let head = ps.drop_last();
        let last = ps.last();
        let sub = split_by_endpoint(head, endpoint, flag);
        lemma_split_by_endpoint(head, endpoint, flag);
        assert forall|p: ParticipantView|
            #![trigger out.contains(p)]
            #![trigger ps.contains(p)]
            out.contains(p) <==> (ps.contains(p) && (p.endpoint == endpoint) == flag) by {
            if out.contains(p) {
                let i = choose|i: int| 0 <= i < out.len() && out[i] == p;
                if i < sub.len() {
                    assert(sub[i] == p);
                    assert(sub.contains(p));
                    let j = choose|j: int| 0 <= j < head.len() && head[j] == p;
                    assert(ps[j] == p);
                } else {
                    assert(ps[ps.len() - 1] == p);
                }
            }
            if ps.contains(p) && (p.endpoint == endpoint) == flag {
                let j = choose|j: int| 0 <= j < ps.len() && ps[j] == p;
                if j < head.len() {
                    assert(head[j] == p);
                    assert(head.contains(p));
                    let i = choose|i: int| 0 <= i < sub.len() && sub[i] == p;
                    assert(out[i] == p);
                } else {
                    assert(out[out.len() - 1] == p);
                }
            }
        }
        if names_distinct(ps) {
            assert forall|i: int, j: int| 0 <= i < j < head.len() implies (#[trigger] head[i]).name
                != (#[trigger] head[j]).name by {
                assert(head[i] == ps[i] && head[j] == ps[j]);
            }
            assert forall|i: int, j: int| 0 <= i < j < out.len() implies (#[trigger] out[i]).name
                != (#[trigger] out[j]).name by {
                if j < sub.len() {
                    assert(out[i] == sub[i] && out[j] == sub[j]);
                } else {
                    assert(out[j] == last);
                    assert(out[i] == sub[i]);
                    assert(sub.contains(sub[i]));
                    assert(head.contains(sub[i]));
                    let k = choose|k: int| 0 <= k < head.len() && head[k] == sub[i];
                    assert(ps[k].name != ps[ps.len() - 1].name);
                }
            }
        }
        if !flag && bound(out, endpoint) {
            let i = choose|i: int| 0 <= i < out.len() && (#[trigger] out[i]).endpoint == endpoint;
            assert(out.contains(out[i]));
        }
    }
}

/// The participant registry. No two of its entries have the same name,
/// and the entries stand in the order of their registration.
pub struct Registry {
    entries: Vec<ParticipantInfo>,
}

impl View for Registry {
    type V = Seq<ParticipantView>;

    closed spec fn view(&self) -> Seq<ParticipantView> {
        participant_views(self.entries@)
    }
}

impl Registry {
    /// What holds of every registry.
    #[verifier::type_invariant]
    pub open spec fn well_formed(&self) -> bool {
        names_distinct(self@)
    }

    /// The registry without entries.
    pub fn new() -> (registry: Registry)
        ensures
            registry@ == Seq::<ParticipantView>::empty(),
    {
        let registry = Registry { entries: Vec::new() };
        assert(registry@ =~= Seq::<ParticipantView>::empty());
        registry
    }

    /// The number of entries.
    pub fn len(&self) -> (n: usize)
        ensures
            n == self@.len(),
            names_distinct(self@),
    {
        proof {
            use_type_invariant(self);
        }
        self.entries.len()
    }

    /// The entry at place `i` in the order of registration.
    pub fn entry(&self, i: usize) -> (info: &ParticipantInfo)
        requires
            i < self@.len(),
        ensures
            info@ == self@[i as int],
    {
        &self.entries[i]
    }

    /// Where the participant of this name stands, if it is registered.
    pub fn find(&self, name: &str) -> (place: Option<usize>)
        ensures
            place is Some <==> registered(self@, name@),
            place matches Some(i) ==> i < self@.len() && self@[i as int].name == name@,
    {
        let mut i: usize = 0;
        while i < self.entries.len()
            invariant
                i <= self.entries.len(),
                self@ == participant_views(self.entries@),
                forall|j: int| 0 <= j < i ==> (#[trigger] self@[j]).name != name@,
            decreases self.entries.len() - i,
        {
            if same_text(self.entries[i].name.as_str(), name) {
                assert(self@[i as int].name == name@);
                return Some(i);
            }
            i += 1;
        }
        None
    }

    /// Whether a participant is registered under this name.
    pub fn contains(&self, name: &str) -> (yes: bool)
        ensures
            yes == registered(self@, name@),
    {
        self.find(name).is_some()
    }

    /// Registers a participant, unless its name is taken: then the
    /// registry stays as it is.
    pub fn add(&mut self, info: ParticipantInfo) -> (added: bool)
        ensures
            added == !registered(old(self)@, info@.name),
            added ==> final(self)@ == old(self)@.push(info@),
            !added ==> final(self)@ == old(self)@,
    {
        proof {
            use_type_invariant(&*self);
        }
        if self.contains(info.name.as_str()) {
            return false;
        }
        let ghost before = self@;
        let mut entries: Vec<ParticipantInfo> = Vec::new();
        std::mem::swap(&mut self.entries, &mut entries);
        entries.push(info);
        let ghost after = participant_views(entries@);
        assert(after =~= before.push(info@));
        assert forall|i: int, j: int| 0 <= i < j < after.len() implies (#[trigger] after[i]).name
            != (#[trigger] after[j]).name by {
            if j == after.len() - 1 {
                assert(before[i].name != info@.name);
            } else {
                assert(after[i] == before[i] && after[j] == before[j]);
            }
        }
        self.entries = entries;
        true
    }

    /// Strikes the participant of this name and hands its entry back.
    pub fn remove(&mut self, name: &str) -> (removed: Option<ParticipantInfo>)
        ensures
            removed is Some <==> registered(old(self)@, name@),
            removed matches Some(info) ==> info@.name == name@ && old(self)@.contains(info@),
            final(self)@ == without_name(old(self)@, name@),
    {
        proof {
            use_type_invariant(&*self);
        }
        let ghost before = self@;
        let mut entries: Vec<ParticipantInfo> = Vec::new();
        std::mem::swap(&mut self.entries, &mut entries);
        let mut kept: Vec<ParticipantInfo> = Vec::new();
        let mut removed: Option<ParticipantInfo> = None;
        let n = entries.len();
        proof {
            lemma_without_name(before, name@);
        }
        let mut j: usize = 0;
        assert(before.take(0) =~= Seq::empty());
        while j < n
            invariant
                j <= n == entries.len(),
                before == participant_views(entries@),
                participant_views(kept@) == without_name(before.take(j as int), name@),
                removed is Some <==> registered(before.take(j as int), name@),
                removed matches Some(info) ==> info@.name == name@ && before.contains(info@),
            decreases n - j,
        {
            proof {
                assert(before.take(j + 1).drop_last() =~= before.take(j as int));
                assert(before.take(j + 1).last() == before[j as int]);
                assert(before.take(j + 1)[j as int] == before[j as int]);
                if registered(before.take(j as int), name@) {
                    let k = choose|k: int|
                        0 <= k < j && (#[trigger] before.take(j as int)[k]).name == name@;
                    assert(before.take(j + 1)[k].name == name@);
                }
                if registered(before.take(j + 1), name@) && before[j as int].name != name@ {
                    let k = choose|k: int|
                        0 <= k < j + 1 && (#[trigger] before.take(j + 1)[k]).name == name@;
                    assert(before.take(j as int)[k].name == name@);
                }
            }
            let entry = entries[j].clone();
            if same_text(entry.name.as_str(), name) {
                removed = Some(entry);
            } else {
                let ghost prior = participant_views(kept@);
                kept.push(entry);
                assert(participant_views(kept@) =~= prior.push(before[j as int]));
            }
            j += 1;
        }
        assert(before.take(n as int) =~= before);
        self.entries = kept;
        removed
    }

    /// Strikes every participant that is reached through this endpoint
    /// and hands their entries back, in the order of their registration.
    pub fn remove_endpoint(&mut self, endpoint: Endpoint) -> (removed: Vec<ParticipantInfo>)
        ensures
            participant_views(removed@) == split_by_endpoint(old(self)@, endpoint, true),
            final(self)@ == split_by_endpoint(old(self)@, endpoint, false),
    {
        proof {
            use_type_invariant(&*self);
        }
        let ghost before = self@;
        let mut entries: Vec<ParticipantInfo> = Vec::new();
        std::mem::swap(&mut self.entries, &mut entries);
        let mut kept: Vec<ParticipantInfo> = Vec::new();
        let mut removed: Vec<ParticipantInfo> = Vec::new();
        let n = entries.len();
        let mut j: usize = 0;
        assert(before.take(0) =~= Seq::empty());
        assert(participant_views(kept@) =~= Seq::empty());
        assert(participant_views(removed@) =~= Seq::empty());
        while j < n
            invariant
                j <= n == entries.len(),
                before == participant_views(entries@),
                participant_views(kept@) == split_by_endpoint(
                    before.take(j as int),
                    endpoint,
                    false,
                ),
                participant_views(removed@) == split_by_endpoint(
                    before.take(j as int),
                    endpoint,
                    true,
                ),
            decreases n - j,
        {
            proof {
                assert(before.take(j + 1).drop_last() =~= before.take(j as int));
                assert(before.take(j + 1).last() == before[j as int]);
            }
            let entry = entries[j].clone();
            if entry.endpoint == endpoint {
                let ghost prior = participant_views(removed@);
                removed.push(entry);
                assert(participant_views(removed@) =~= prior.push(before[j as int]));
            } else {
                let ghost prior = participant_views(kept@);
                kept.push(entry);
                assert(participant_views(kept@) =~= prior.push(before[j as int]));
            }
            j += 1;
        }
        proof {
            assert(before.take(n as int) =~= before);
            lemma_split_by_endpoint(before, endpoint, false);
        }
        self.entries = kept;
        removed
    }

    /// The participants as the registry announces them.
    pub fn peers(&self) -> (peers: Vec<Peer>)
        ensures
            peer_views(peers@) == peers_of(self@),
    {
        let mut peers: Vec<Peer> = Vec::new();
        let mut i: usize = 0;
        while i < self.entries.len()
            invariant
                i <= self.entries.len(),
                peers.len() == i,
                self@ == participant_views(self.entries@),
                forall|j: int| 0 <= j < i ==> (#[trigger] peers@[j])@ == peers_of(self@)[j],
            decreases self.entries.len() - i,
        {
            let entry = &self.entries[i];
            peers.push(Peer { name: entry.name.clone(), addr: entry.addr });
            i += 1;
        }
        assert(peer_views(peers@) =~= peers_of(self@));
        peers
    }
}

} // verus!
