//! The messages that peers exchange.

use crate::diff::{change_views, Change, ChangeView};
use crate::index::Index;
use crate::node::NodeView;
use crate::synchronizer::Status;
use vstd::prelude::*;

verus! {

/// The largest payload of a chunk message.
pub const CHUNK_SIZE: usize = 65536;

/// One end of a connection, as the transport numbers it.
#[derive(Clone, Copy, Debug, PartialEq, Eq, Hash, Structural)]
pub struct Endpoint {
    pub id: u64,
}

/// The address of a socket: an IP address, as the integer that its
/// octets spell in network order, and a port.
#[derive(Clone, Copy, Debug, PartialEq, Eq, Hash, Structural)]
pub enum SocketAddress {
    /// An IPv4 address and a port.
    V4(u32, u16),
    /// An IPv6 address and a port.
    V6(u128, u16),
}

/// A participant as the registry announces it: its name and the address
/// of its gossip socket.
#[derive(Debug, PartialEq, Eq)]
pub struct Peer {
    pub name: String,
    pub addr: SocketAddress,
}

/// The mathematical content of a [`Peer`].
pub struct PeerView {
    pub name: Seq<char>,
    pub addr: SocketAddress,
}

impl View for Peer {
    type V = PeerView;

    open spec fn view(&self) -> PeerView {
        PeerView { name: self.name@, addr: self.addr }
    }
}

impl Clone for Peer {
    fn clone(&self) -> (copy: Self)
        ensures
            copy == *self,
    {
        Peer { name: self.name.clone(), addr: self.addr }
    }
}

/// A list of peers, each taken by its content.
pub open spec fn peer_views(s: Seq<Peer>) -> Seq<PeerView> {
    Seq::new(s.len(), |i: int| s[i]@)
}

/// The alphabet of the wire.
#[derive(Debug, PartialEq, Eq)]
pub enum Message {
    // To the discovery server
    RegisterParticipant(String, SocketAddress),
    UnregisterParticipant(String),
    GetStatus,
    GetNodes,
    GetChangeset(Index),
    /// Asks for the file under this key.
    SendMe(String),
    // From the discovery server
    ParticipantList(Vec<Peer>),
    ParticipantNotificationAdded(String, SocketAddress),
    ParticipantNotificationRemoved(String),
    ServerStatus(Status),
    NodeList(Index),
    Changeset(Vec<Change>),
    // File transfer
    /// Announces a file by name and size.
    FileRequest(String, u64),
    /// A piece of a file, from sender to receiver.
    Chunk(Vec<u8>),
    /// From receiver to sender.
    CanReceive(bool),
    // From participant to participant
    /// A name and a greeting.
    Greetings(String, String),
}

/// The mathematical content of a [`Message`].
pub enum MessageView {
    RegisterParticipant(Seq<char>, SocketAddress),
    UnregisterParticipant(Seq<char>),
    GetStatus,
    GetNodes,
    GetChangeset(Seq<NodeView>),
    SendMe(Seq<char>),
    ParticipantList(Seq<PeerView>),
    ParticipantNotificationAdded(Seq<char>, SocketAddress),
    ParticipantNotificationRemoved(Seq<char>),
    ServerStatus(Status),
    NodeList(Seq<NodeView>),
    Changeset(Seq<ChangeView>),
    FileRequest(Seq<char>, u64),
    Chunk(Seq<u8>),
    CanReceive(bool),
    Greetings(Seq<char>, Seq<char>),
}

impl View for Message {
    type V = MessageView;

    open spec fn view(&self) -> MessageView {
        match self {
            Message::RegisterParticipant(name, addr) => MessageView::RegisterParticipant(
                name@,
                *addr,
            ),
            Message::UnregisterParticipant(name) => MessageView::UnregisterParticipant(name@),
            Message::GetStatus => MessageView::GetStatus,
            Message::GetNodes => MessageView::GetNodes,
            Message::GetChangeset(tree) => MessageView::GetChangeset(tree@),
            Message::SendMe(key) => MessageView::SendMe(key@),
            Message::ParticipantList(peers) => MessageView::ParticipantList(peer_views(peers@)),
            Message::ParticipantNotificationAdded(name, addr) => {
                MessageView::ParticipantNotificationAdded(name@, *addr)
            },
            Message::ParticipantNotificationRemoved(name) => {
                MessageView::ParticipantNotificationRemoved(name@)
            },
            Message::ServerStatus(status) => MessageView::ServerStatus(*status),
            Message::NodeList(tree) => MessageView::NodeList(tree@),
            Message::Changeset(changes) => MessageView::Changeset(change_views(changes@)),
            Message::FileRequest(name, size) => MessageView::FileRequest(name@, *size),
            Message::Chunk(data) => MessageView::Chunk(data@),
            Message::CanReceive(yes) => MessageView::CanReceive(*yes),
            Message::Greetings(name, text) => MessageView::Greetings(name@, text@),
        }
    }
}

/// Copies a list of peers.
pub fn copy_peers(peers: &Vec<Peer>) -> (copy: Vec<Peer>)
    ensures
        peer_views(copy@) == peer_views(peers@),
{
    let mut copy: Vec<Peer> = Vec::new();
    let mut i: usize = 0;
    while i < peers.len()
        invariant
            i <= peers.len(),
            copy.len() == i,
            forall|j: int| 0 <= j < i ==> copy@[j] == peers@[j],
        decreases peers.len() - i,
    {
        copy.push(peers[i].clone());
        i += 1;
    }
    assert(peer_views(copy@) =~= peer_views(peers@));
    copy
}

/// Copies a list of changes.
pub fn copy_changes(changes: &Vec<Change>) -> (copy: Vec<Change>)
    ensures
        change_views(copy@) == change_views(changes@),
{
    let mut copy: Vec<Change> = Vec::new();
    let mut i: usize = 0;
    while i < changes.len()
        invariant
            i <= changes.len(),
            copy.len() == i,
            forall|j: int| 0 <= j < i ==> copy@[j] == changes@[j],
        decreases changes.len() - i,
    {
        copy.push(changes[i].clone());
        i += 1;
    }
    assert(change_views(copy@) =~= change_views(changes@));
    copy
}

/// Copies a byte string.
pub fn copy_bytes(bytes: &Vec<u8>) -> (copy: Vec<u8>)
    ensures
        copy@ == bytes@,
{
    vstd::slice::slice_to_vec(bytes.as_slice())
}

impl Clone for Message {
    fn clone(&self) -> (copy: Self)
        ensures
            copy@ == self@,
    {
        match self {
            Message::RegisterParticipant(name, addr) => Message::RegisterParticipant(
                name.clone(),
                *addr,
            ),
            Message::UnregisterParticipant(name) => Message::UnregisterParticipant(name.clone()),
            Message::GetStatus => Message::GetStatus,
            Message::GetNodes => Message::GetNodes,
            Message::GetChangeset(tree) => Message::GetChangeset(tree.clone()),
            Message::SendMe(key) => Message::SendMe(key.clone()),
            Message::ParticipantList(peers) => Message::ParticipantList(copy_peers(peers)),
            Message::ParticipantNotificationAdded(name, addr) => {
                Message::ParticipantNotificationAdded(name.clone(), *addr)
            },
            Message::ParticipantNotificationRemoved(name) => {
                Message::ParticipantNotificationRemoved(name.clone())
            },
            Message::ServerStatus(status) => Message::ServerStatus(*status),
            Message::NodeList(tree) => Message::NodeList(tree.clone()),
            Message::Changeset(changes) => Message::Changeset(copy_changes(changes)),
            Message::FileRequest(name, size) => Message::FileRequest(name.clone(), *size),
            Message::Chunk(data) => Message::Chunk(copy_bytes(data)),
            Message::CanReceive(yes) => Message::CanReceive(*yes),
            Message::Greetings(name, text) => Message::Greetings(name.clone(), text.clone()),
        }
    }
}

} // verus!
