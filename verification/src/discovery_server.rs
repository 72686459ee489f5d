//! The discovery server as a state machine.
//!
//! The server owns the authoritative tree. It keeps the registry of
//! participants, reports its status, serves its index and the change set
//! against a remote tree, and streams the files it is asked for in
//! chunks. The caller runs the event loop: it hands every event to
//! [`DiscoveryServer::handle`] and carries out the actions that come back.

use crate::config::Config;
use crate::diff::changes_between;
use crate::error::Error;
use crate::index::as_map;
use crate::message::{Endpoint, Message, MessageView, SocketAddress};
use crate::node::{Metadata, NodeView};
use crate::registry::{
    lemma_without_name, participant_views, peers_of, registered, split_by_endpoint, without_name,
    ParticipantInfo, ParticipantView, Registry,
};
use crate::server::SynchronizerService;
use crate::snapshot::ser_index;
use crate::synchronizer::{
    failures, walk, walked_views, Rename, Status, Synchronizer, SynchronizerView, Walked,
};
use crate::text::{key_stays_below, same_text, spec_join, stays_below};
use crate::transfer::{transfer_views, Transfer, TransferView};
use vstd::prelude::*;

verus! {

/// What the event loop of the server is told.
#[derive(Debug, PartialEq, Eq)]
pub enum ServerEvent {
    /// A message arrived from an endpoint.
    Message(Endpoint, Message),
    /// A connection was accepted.
    AddedEndpoint(Endpoint),
    /// A connection was lost.
    RemovedEndpoint(Endpoint),
    /// An endpoint delivered a frame that is no message.
    DeserializationError(Endpoint),
    /// The next chunk of the named file is due for the endpoint. The
    /// server asks for this event itself, see [`ServerAction::Enqueue`].
    SendChunk(Endpoint, String),
    /// The answer to [`ServerAction::Open`]: the metadata of the opened
    /// file, or nothing if it could not be opened.
    FileOpened(Endpoint, String, Option<Metadata>),
    /// The answer to [`ServerAction::Read`]: the bytes that were read, none
    /// at the end of the file.
    ChunkRead(Endpoint, String, Vec<u8>),
}

/// The mathematical content of a [`ServerEvent`].
pub enum ServerEventView {
    Message(Endpoint, MessageView),
    AddedEndpoint(Endpoint),
    RemovedEndpoint(Endpoint),
    DeserializationError(Endpoint),
    SendChunk(Endpoint, Seq<char>),
    FileOpened(Endpoint, Seq<char>, Option<Metadata>),
    ChunkRead(Endpoint, Seq<char>, Seq<u8>),
}

impl View for ServerEvent {
    type V = ServerEventView;

    open spec fn view(&self) -> ServerEventView {
        match self {
            ServerEvent::Message(endpoint, message) => ServerEventView::Message(
                *endpoint,
                message@,
            ),
            ServerEvent::AddedEndpoint(endpoint) => ServerEventView::AddedEndpoint(*endpoint),
            ServerEvent::RemovedEndpoint(endpoint) => ServerEventView::RemovedEndpoint(*endpoint),
            ServerEvent::DeserializationError(endpoint) => ServerEventView::DeserializationError(
                *endpoint,
            ),
            ServerEvent::SendChunk(endpoint, name) => ServerEventView::SendChunk(*endpoint, name@),
            ServerEvent::FileOpened(endpoint, name, meta) => ServerEventView::FileOpened(
                *endpoint,
                name@,
                *meta,
            ),
            ServerEvent::ChunkRead(endpoint, name, data) => ServerEventView::ChunkRead(
                *endpoint,
                name@,
                data@,
            ),
        }
    }
}

/// What the server asks its caller to do.
#[derive(Debug, PartialEq, Eq)]
pub enum ServerAction {
    /// Send the message to the endpoint.
    Send(Endpoint, Message),
    /// Open the file at the path (the third field) for the endpoint, under
    /// the name it was asked for (the second), and answer with
    /// [`ServerEvent::FileOpened`].
    Open(Endpoint, String, String),
    /// Read at most so many bytes from where the file of this transfer
    /// stands, and answer with [`ServerEvent::ChunkRead`].
    Read(Endpoint, String, u64),
    /// Close the file of this transfer.
    Close(Endpoint, String),
    /// Put [`ServerEvent::SendChunk`] for this transfer at the tail of the
    /// event queue.
    Enqueue(Endpoint, String),
    /// Note that a request was turned down, and why. Nothing is sent.
    Reject(Error),
}

/// The mathematical content of a [`ServerAction`].
pub enum ServerActionView {
    Send(Endpoint, MessageView),
    Open(Endpoint, Seq<char>, Seq<char>),
    Read(Endpoint, Seq<char>, u64),
    Close(Endpoint, Seq<char>),
    Enqueue(Endpoint, Seq<char>),
    Reject(Error),
}

impl View for ServerAction {
    type V = ServerActionView;

    open spec fn view(&self) -> ServerActionView {
        match self {
            ServerAction::Send(endpoint, message) => ServerActionView::Send(*endpoint, message@),
            ServerAction::Open(endpoint, name, path) => ServerActionView::Open(
                *endpoint,
                name@,
                path@,
            ),
            ServerAction::Read(endpoint, name, len) => ServerActionView::Read(
                *endpoint,
                name@,
                *len,
            ),
            ServerAction::Close(endpoint, name) => ServerActionView::Close(*endpoint, name@),
            ServerAction::Enqueue(endpoint, name) => ServerActionView::Enqueue(*endpoint, name@),
            ServerAction::Reject(error) => ServerActionView::Reject(*error),
        }
    }
}

/// A list of actions, each taken by its content.
pub open spec fn action_views(s: Seq<ServerAction>) -> Seq<ServerActionView> {
    Seq::new(s.len(), |i: int| s[i]@)
}

/// The mathematical content of a [`DiscoveryServer`].
pub struct ServerView {
    pub synchronizer: SynchronizerView,
    /// The registry, in the order of registration.
    pub participants: Seq<ParticipantView>,
    pub status: Status,
    /// The files that are being sent, in the order in which they were
    /// asked for.
    pub outbound: Seq<TransferView>,
    /// How much the caller is to report.
    pub verbosity: u64,
    /// Whether the caller is to report every event.
    pub debug: bool,
}

/// The message, sent to every participant of the list.
pub open spec fn notify_all(ps: Seq<ParticipantView>, m: MessageView) -> Seq<ServerActionView> {
    Seq::new(ps.len(), |i: int| ServerActionView::Send(ps[i].endpoint, m))
}

/// For every participant that is gone, in turn, the notice of its removal
/// to every participant that is left.
pub open spec fn removal_notices(left: Seq<ParticipantView>, gone: Seq<ParticipantView>) -> Seq<
    ServerActionView,
>
    decreases gone.len(),
{
    if gone.len() == 0 {
        Seq::empty()
    } else {
        removal_notices(left, gone.drop_last()) + notify_all(
            left,
            MessageView::ParticipantNotificationRemoved(gone.last().name),
        )
    }
}

/// Where the first transfer of this name to this endpoint stands.
pub open spec fn first_transfer(
    ts: Seq<TransferView>,
    endpoint: Endpoint,
    name: Seq<char>,
) -> Option<int>
    decreases ts.len(),
{
    if ts.len() == 0 {
        None
    } else if ts[0].endpoint == endpoint && ts[0].name == name {
        Some(0)
    } else {
        match first_transfer(ts.drop_first(), endpoint, name) {
            Some(i) => Some(i + 1),
            None => None,
        }
    }
}

/// The transfers to this endpoint, if `to`, or the others, if not.
pub open spec fn transfers_split(ts: Seq<TransferView>, endpoint: Endpoint, to: bool) -> Seq<
    TransferView,
>
    decreases ts.len(),
{
    if ts.len() == 0 {
        Seq::empty()
    } else if (ts.last().endpoint == endpoint) == to {
        transfers_split(ts.drop_last(), endpoint, to).push(ts.last())
    } else {
        transfers_split(ts.drop_last(), endpoint, to)
    }
}

/// The request to close the file of every transfer of the list.
pub open spec fn closes(ts: Seq<TransferView>) -> Seq<ServerActionView> {
    Seq::new(ts.len(), |i: int| ServerActionView::Close(ts[i].endpoint, ts[i].name))
}

/// A registration. A free name is registered: the newcomer gets the list
/// of those who were there, and each of them is told of the newcomer. A
/// taken name is turned down and nothing changes.
pub open spec fn on_register(
    s: ServerView,
    endpoint: Endpoint,
    name: Seq<char>,
    addr: SocketAddress,
) -> (ServerView, Seq<ServerActionView>) {
    if registered(s.participants, name) {
        (s, seq![ServerActionView::Reject(Error::DuplicateName)])
    } else {
        (
            ServerView {
                participants: s.participants.push(ParticipantView { name, addr, endpoint }),
                ..s
            },
            seq![
                ServerActionView::Send(
                    endpoint,
                    MessageView::ParticipantList(peers_of(s.participants)),
                ),
            ] + notify_all(s.participants, MessageView::ParticipantNotificationAdded(name, addr)),
        )
    }
}

/// The end of a registration: the entry is struck and everyone who is
/// left is told. A name that is not registered changes nothing.
pub open spec fn on_unregister(s: ServerView, name: Seq<char>) -> (
    ServerView,
    Seq<ServerActionView>,
) {
    if registered(s.participants, name) {
        let left = without_name(s.participants, name);
        (
            ServerView { participants: left, ..s },
            notify_all(left, MessageView::ParticipantNotificationRemoved(name)),
        )
    } else {
        (s, Seq::empty())
    }
}

/// The status, sent to the endpoint: the answer to a request for it, and
/// to every request that only a running server serves.
pub open spec fn status_reply(s: ServerView, endpoint: Endpoint) -> Seq<ServerActionView> {
    seq![ServerActionView::Send(endpoint, MessageView::ServerStatus(s.status))]
}

/// A request for the list of nodes.
pub open spec fn on_get_nodes(s: ServerView, endpoint: Endpoint) -> Seq<ServerActionView> {
    if s.status == Status::Running {
        seq![ServerActionView::Send(endpoint, MessageView::NodeList(s.synchronizer.entries))]
    } else {
        status_reply(s, endpoint)
    }
}

/// A request for the change set against a remote tree: it is answered
/// unless the change set is empty.
pub open spec fn on_get_changeset(s: ServerView, endpoint: Endpoint, tree: Seq<NodeView>) -> Seq<
    ServerActionView,
> {
    if s.status == Status::Running {
        let changes = changes_between(tree, s.synchronizer.entries, true);
        if changes.len() > 0 {
            seq![ServerActionView::Send(endpoint, MessageView::Changeset(changes))]
        } else {
            Seq::empty()
        }
    } else {
        status_reply(s, endpoint)
    }
}

/// A request for a file: the file under the root is to be opened. A key
/// that would lead out of the root is dropped in silence.
pub open spec fn on_send_me(s: ServerView, endpoint: Endpoint, key: Seq<char>) -> Seq<
    ServerActionView,
> {
    if stays_below(key) {
        seq![ServerActionView::Open(endpoint, key, spec_join(s.synchronizer.config.root, key))]
    } else {
        Seq::empty()
    }
}

/// The outcome of opening a file. A regular file becomes a transfer, of
/// which the first chunk is due; anything else that was opened is closed
/// again; what could not be opened is dropped in silence.
pub open spec fn on_file_opened(
    s: ServerView,
    endpoint: Endpoint,
    name: Seq<char>,
    meta: Option<Metadata>,
) -> (ServerView, Seq<ServerActionView>) {
    match meta {
        Some(meta) => if meta.is_file {
            (
                ServerView {
                    outbound: s.outbound.push(
                        TransferView {
                            endpoint,
                            name,
                            current_size: 0,
                            expected_size: meta.len,
                        },
                    ),
                    ..s
                },
                seq![ServerActionView::Enqueue(endpoint, name)],
            )
        } else {
            (s, seq![ServerActionView::Close(endpoint, name)])
        },
        None => (s, Seq::empty()),
    }
}

/// A chunk is due. The transfer that has passed all its bytes is over;
/// of any other the next piece is to be read. Without a transfer nothing
/// happens.
pub open spec fn on_send_chunk(s: ServerView, endpoint: Endpoint, name: Seq<char>) -> (
    ServerView,
    Seq<ServerActionView>,
) {
    match first_transfer(s.outbound, endpoint, name) {
        Some(i) => if s.outbound[i].complete() {
            (
                ServerView { outbound: s.outbound.remove(i), ..s },
                seq![ServerActionView::Close(endpoint, name)],
            )
        } else {
            (s, seq![ServerActionView::Read(endpoint, name, s.outbound[i].next_len() as u64)])
        },
        None => (s, Seq::empty()),
    }
}

/// A piece was read. It is sent as a chunk and the next chunk is due;
/// the end of the file, or more bytes than were asked for, end the
/// transfer.
pub open spec fn on_chunk_read(
    s: ServerView,
    endpoint: Endpoint,
    name: Seq<char>,
    data: Seq<u8>,
) -> (ServerView, Seq<ServerActionView>) {
    match first_transfer(s.outbound, endpoint, name) {
        Some(i) => if data.len() == 0 || data.len() > s.outbound[i].next_len() {
            (
                ServerView { outbound: s.outbound.remove(i), ..s },
                seq![ServerActionView::Close(endpoint, name)],
            )
        } else {
            (
                ServerView {
                    outbound: s.outbound.update(i, s.outbound[i].advanced(data.len() as int)),
                    ..s
                },
                seq![
                    ServerActionView::Send(endpoint, MessageView::Chunk(data)),
                    ServerActionView::Enqueue(endpoint, name),
                ],
            )
        },
        None => (s, Seq::empty()),
    }
}

/// The loss of an endpoint: every participant behind it is struck and
/// everyone who is left is told of each, and every transfer to it is
/// dropped and its file closed.
pub open spec fn on_removed_endpoint(s: ServerView, endpoint: Endpoint) -> (
    ServerView,
    Seq<ServerActionView>,
) {
    let gone = split_by_endpoint(s.participants, endpoint, true);
    let left = split_by_endpoint(s.participants, endpoint, false);
    (
        ServerView {
            participants: left,
            outbound: transfers_split(s.outbound, endpoint, false),
            ..s
        },
        removal_notices(left, gone) + closes(transfers_split(s.outbound, endpoint, true)),
    )
}

/// What a message makes of the server.
pub open spec fn on_message(s: ServerView, endpoint: Endpoint, m: MessageView) -> (
    ServerView,
    Seq<ServerActionView>,
) {
    match m {
        MessageView::RegisterParticipant(name, addr) => on_register(s, endpoint, name, addr),
        MessageView::UnregisterParticipant(name) => on_unregister(s, name),
        MessageView::GetStatus => (s, status_reply(s, endpoint)),
        MessageView::GetNodes => (s, on_get_nodes(s, endpoint)),
        MessageView::GetChangeset(tree) => (s, on_get_changeset(s, endpoint, tree)),
        MessageView::SendMe(key) => (s, on_send_me(s, endpoint, key)),
        _ => (s, Seq::empty()),
    }
}

/// One turn of the event loop: the state after the event, and the
/// actions it calls for.
pub open spec fn step(s: ServerView, e: ServerEventView) -> (
    ServerView,
    Seq<ServerActionView>,
) {
    match e {
        ServerEventView::Message(endpoint, m) => on_message(s, endpoint, m),
        ServerEventView::AddedEndpoint(_) => (s, Seq::empty()),
        ServerEventView::RemovedEndpoint(endpoint) => on_removed_endpoint(s, endpoint),
        ServerEventView::DeserializationError(_) => (s, Seq::empty()),
        ServerEventView::SendChunk(endpoint, name) => on_send_chunk(s, endpoint, name),
        ServerEventView::FileOpened(endpoint, name, meta) => on_file_opened(
            s,
            endpoint,
            name,
            meta,
        ),
        ServerEventView::ChunkRead(endpoint, name, data) => on_chunk_read(
            s,
            endpoint,
            name,
            data,
        ),
    }
}

/// The transfers that do not match come before the first that does.
pub proof fn lemma_first_transfer(
    ts: Seq<TransferView>,
    endpoint: Endpoint,
    name: Seq<char>,
    i: int,
)
    requires
        0 <= i <= ts.len(),
        forall|j: int|
            0 <= j < i ==> !((#[trigger] ts[j]).endpoint == endpoint && ts[j].name == name),
        i < ts.len() ==> ts[i].endpoint == endpoint && ts[i].name == name,
    ensures
        first_transfer(ts, endpoint, name) == if i < ts.len() {
            Some(i)
        } else {
            None
        },
    decreases ts.len(),
{
    if ts.len() > 0 && i > 0 {
        let rest = ts.drop_first();
        assert forall|j: int| 0 <= j < i - 1 implies !((#[trigger] rest[j]).endpoint == endpoint
            && rest[j].name == name) by {
            assert(rest[j] == ts[j + 1]);
        }
        assert(!(ts[0].endpoint == endpoint && ts[0].name == name));
        lemma_first_transfer(rest, endpoint, name, i - 1);
    }
}

/// The first match is a match, and nothing before it is.
pub proof fn lemma_first_transfer_found(ts: Seq<TransferView>, endpoint: Endpoint, name: Seq<char>)
    ensures
        match first_transfer(ts, endpoint, name) {
            Some(i) => {
                &&& 0 <= i < ts.len()
                &&& ts[i].endpoint == endpoint
                &&& ts[i].name == name
                &&& forall|j: int|
                    0 <= j < i ==> !((#[trigger] ts[j]).endpoint == endpoint && ts[j].name == name)
            },
            None => forall|j: int|
                0 <= j < ts.len() ==> !((#[trigger] ts[j]).endpoint == endpoint && ts[j].name
                    == name),
        },
    decreases ts.len(),
{
    if ts.len() > 0 && !(ts[0].endpoint == endpoint && ts[0].name == name) {
        let rest = ts.drop_first();
        lemma_first_transfer_found(rest, endpoint, name);
        match first_transfer(rest, endpoint, name) {
            Some(i) => {
                assert(rest[i] == ts[i + 1]);
                assert forall|j: int| 0 <= j < i + 1 implies !((#[trigger] ts[j]).endpoint
                    == endpoint && ts[j].name == name) by {
                    if j > 0 {
                        assert(rest[j - 1] == ts[j]);
                    }
                }
            },
            None => {
                assert forall|j: int| 0 <= j < ts.len() implies !((#[trigger] ts[j]).endpoint
                    == endpoint && ts[j].name == name) by {
                    if j > 0 {
                        assert(rest[j - 1] == ts[j]);
                    }
                }
            },
        }
    }
}

/// A list of events, each taken by its content.
pub open spec fn event_views(s: Seq<ServerEvent>) -> Seq<ServerEventView> {
    Seq::new(s.len(), |i: int| s[i]@)
}

/// The events handled in turn: the state after the last, and all the
/// actions in the order in which they were called for.
pub open spec fn steps(s: ServerView, es: Seq<ServerEventView>) -> (
    ServerView,
    Seq<ServerActionView>,
)
    decreases es.len(),
{
    if es.len() == 0 {
        (s, Seq::empty())
    } else {
        let (mid, first) = steps(s, es.drop_last());
        let (end, last) = step(mid, es.last());
        (end, first + last)
    }
}

/// The discovery server.
pub struct DiscoveryServer {
    synchronizer: Synchronizer,
    participants: Registry,
    status: Status,
    verbosity: u64,
    debug: bool,
    outbound: Vec<Transfer>,
}

impl View for DiscoveryServer {
    type V = ServerView;

    closed spec fn view(&self) -> ServerView {
        ServerView {
            synchronizer: self.synchronizer@,
            participants: self.participants@,
            status: self.status,
            outbound: transfer_views(self.outbound@),
            verbosity: self.verbosity,
            debug: self.debug,
        }
    }
}

/// Adds the message for every participant of the registry.
fn notify(registry: &Registry, message: &Message, actions: &mut Vec<ServerAction>)
    ensures
        action_views(final(actions)@) == action_views(old(actions)@) + notify_all(
            registry@,
            message@,
        ),
{
    let n = registry.len();
    let mut i: usize = 0;
    let ghost start = action_views(actions@);
    assert(start =~= start + notify_all(registry@, message@).take(0));
    while i < n
        invariant
            i <= n == registry@.len(),
            action_views(actions@) == start + notify_all(registry@, message@).take(i as int),
        decreases n - i,
    {
        let ghost prior = action_views(actions@);
        actions.push(ServerAction::Send(registry.entry(i).endpoint, message.clone()));
        proof {
            let all = notify_all(registry@, message@);
            assert(action_views(actions@) =~= prior.push(all[i as int]));
            assert(all.take(i + 1) =~= all.take(i as int).push(all[i as int]));
            assert(start + all.take(i + 1) =~= (start + all.take(i as int)).push(all[i as int]));
        }
        i += 1;
    }
    assert(notify_all(registry@, message@).take(n as int) =~= notify_all(registry@, message@));
}

impl DiscoveryServer {
    /// A server for a valid configuration: starting, with an empty index,
    /// nobody registered and nothing in flight.
    pub fn new(config: Config, verbosity: u64, debug: bool) -> (made: Option<DiscoveryServer>)
        ensures
            made is Some <==> config@.valid(),
            made is Some ==> made.unwrap()@ == (ServerView {
                synchronizer: SynchronizerView {
                    entries: Seq::empty(),
                    config: config@,
                    first_run: false,
                    unreadable: Seq::empty(),
                },
                participants: Seq::empty(),
                status: Status::Starting,
                outbound: Seq::empty(),
                verbosity,
                debug,
            }),
    {
        match Synchronizer::new(config) {
            Some(synchronizer) => {
                let server = DiscoveryServer {
                    synchronizer,
                    participants: Registry::new(),
                    status: Status::Starting,
                    verbosity,
                    debug,
                    outbound: Vec::new(),
                };
                assert(server@.outbound =~= Seq::empty());
                Some(server)
            },
            None => None,
        }
    }

    /// The operational status.
    pub fn status(&self) -> (status: Status)
        ensures
            status == self@.status,
    {
        self.status
    }

    /// How much the caller is to report.
    pub fn verbosity(&self) -> (verbosity: u64)
        ensures
            verbosity == self@.verbosity,
    {
        self.verbosity
    }

    /// Whether the caller is to report every event.
    pub fn debug(&self) -> (debug: bool)
        ensures
            debug == self@.debug,
    {
        self.debug
    }

    /// The index store.
    pub fn synchronizer(&self) -> (synchronizer: &Synchronizer)
        ensures
            synchronizer@ == self@.synchronizer,
    {
        &self.synchronizer
    }

    /// The registry.
    pub fn participants(&self) -> (registry: &Registry)
        ensures
            registry@ == self@.participants,
    {
        &self.participants
    }

    /// The files that are being sent.
    pub fn outbound(&self) -> (transfers: &Vec<Transfer>)
        ensures
            transfer_views(transfers@) == self@.outbound,
    {
        &self.outbound
    }

    /// Enters the indexing state and says which rename rotates the
    /// snapshots.
    pub fn begin_indexing(&mut self) -> (rename: Option<Rename>)
        ensures
            final(self)@ == (ServerView { status: Status::Indexing, ..old(self)@ }),
            rename is Some <==> !old(self)@.synchronizer.first_run,
            rename is Some ==> rename.unwrap().from@ == spec_join(
                old(self)@.synchronizer.config.root,
                crate::synchronizer::CURRENT_SNAPSHOT@,
            ) && rename.unwrap().to@ == spec_join(
                old(self)@.synchronizer.config.root,
                crate::synchronizer::PREVIOUS_SNAPSHOT@,
            ),
    {
        self.status = Status::Indexing;
        self.synchronizer.move_index()
    }

    /// Builds the index from a walk of the tree, enters the running state
    /// and hands back the snapshot to write.
    pub fn finish_indexing(&mut self, renamed: bool, walked: &Vec<Walked>) -> (snapshot: Vec<u8>)
        ensures
            final(self)@ == (ServerView {
                status: Status::Running,
                synchronizer: final(self)@.synchronizer,
                ..old(self)@
            }),
            final(self)@.synchronizer.config == old(self)@.synchronizer.config,
            final(self)@.synchronizer.first_run == (old(self)@.synchronizer.first_run || !renamed),
            as_map(final(self)@.synchronizer.entries) == walk(
                old(self)@.synchronizer.config,
                walked_views(walked@),
            ),
            final(self)@.synchronizer.unreadable == failures(
                old(self)@.synchronizer.config,
                walked_views(walked@),
            ),
            snapshot@ == ser_index(final(self)@.synchronizer.entries),
    {
        let snapshot = self.synchronizer.index(renamed, walked);
        self.status = Status::Running;
        snapshot
    }

    /// Enters the stopping state.
    pub fn stop(&mut self)
        ensures
            final(self)@ == (ServerView { status: Status::Stopping, ..old(self)@ }),
    {
        self.status = Status::Stopping;
    }

    /// Handles a registration.
    pub fn register(&mut self, name: &str, addr: SocketAddress, endpoint: Endpoint) -> (actions:
        Vec<ServerAction>)
        ensures
            (final(self)@, action_views(actions@)) == on_register(
                old(self)@,
                endpoint,
                name@,
                addr,
            ),
    {
        let mut actions: Vec<ServerAction> = Vec::new();
        if self.participants.contains(name) {
            actions.push(ServerAction::Reject(Error::DuplicateName));
            assert(action_views(actions@) =~= seq![ServerActionView::Reject(Error::DuplicateName)]);
            return actions;
        }
        let list = Message::ParticipantList(self.participants.peers());
        actions.push(ServerAction::Send(endpoint, list));
        assert(action_views(actions@) =~= seq![
            ServerActionView::Send(
                endpoint,
                MessageView::ParticipantList(peers_of(self@.participants)),
            ),
        ]);
        let news = Message::ParticipantNotificationAdded(name.to_owned(), addr);
        notify(&self.participants, &news, &mut actions);
        self.participants.add(ParticipantInfo { name: name.to_owned(), addr, endpoint });
        actions
    }

    /// Handles the end of a registration.
    pub fn unregister(&mut self, name: &str) -> (actions: Vec<ServerAction>)
        ensures
            (final(self)@, action_views(actions@)) == on_unregister(old(self)@, name@),
    {
        let mut actions: Vec<ServerAction> = Vec::new();
        assert(action_views(actions@) =~= Seq::empty());
        proof {
            lemma_without_name(self@.participants, name@);
        }
        match self.participants.remove(name) {
            Some(_) => {
                let news = Message::ParticipantNotificationRemoved(name.to_owned());
                notify(&self.participants, &news, &mut actions);
                assert(Seq::<ServerActionView>::empty() + notify_all(
                    self@.participants,
                    news@,
                ) =~= notify_all(self@.participants, news@));
            },
            None => {},
        }
        actions
    }

    /// Where the first transfer of this name to this endpoint stands.
    fn find_transfer(&self, endpoint: Endpoint, name: &str) -> (place: Option<usize>)
        ensures
            place is Some <==> first_transfer(self@.outbound, endpoint, name@) is Some,
            place matches Some(i) ==> i < self@.outbound.len() && first_transfer(
                self@.outbound,
                endpoint,
                name@,
            ) == Some(i as int),
    {
        let mut i: usize = 0;
        while i < self.outbound.len()
            invariant
                i <= self.outbound.len(),
                self@.outbound == transfer_views(self.outbound@),
                forall|j: int|
                    0 <= j < i ==> !((#[trigger] self@.outbound[j]).endpoint == endpoint
                        && self@.outbound[j].name == name@),
            decreases self.outbound.len() - i,
        {
            let transfer = &self.outbound[i];
            if transfer.endpoint() == endpoint && same_text(transfer.name().as_str(), name) {
                proof {
                    lemma_first_transfer(self@.outbound, endpoint, name@, i as int);
                }
                return Some(i);
            }
            i += 1;
        }
        proof {
            lemma_first_transfer(self@.outbound, endpoint, name@, i as int);
        }
        None
    }

    /// Drops the transfer at place `i` and asks for its file to be closed.
    fn end_transfer(&mut self, i: usize, endpoint: Endpoint, name: &str) -> (actions: Vec<
        ServerAction,
    >)
        requires
            i < old(self)@.outbound.len(),
        ensures
            final(self)@ == (ServerView {
                outbound: old(self)@.outbound.remove(i as int),
                ..old(self)@
            }),
            action_views(actions@) == seq![ServerActionView::Close(endpoint, name@)],
    {
        self.outbound.remove(i);
        assert(transfer_views(self.outbound@) =~= old(self)@.outbound.remove(i as int));
        let mut actions: Vec<ServerAction> = Vec::new();
        actions.push(ServerAction::Close(endpoint, name.to_owned()));
        assert(action_views(actions@) =~= seq![ServerActionView::Close(endpoint, name@)]);
        actions
    }

    /// Handles the loss of an endpoint.
    pub fn remove_endpoint(&mut self, endpoint: Endpoint) -> (actions: Vec<ServerAction>)
        ensures
            (final(self)@, action_views(actions@)) == on_removed_endpoint(old(self)@, endpoint),
    {
        let mut actions: Vec<ServerAction> = Vec::new();
        let gone = self.participants.remove_endpoint(endpoint);
        let ghost left = self@.participants;
        let ghost gone_views = participant_views(gone@);
        let mut i: usize = 0;
        assert(gone_views.take(0) =~= Seq::empty());
        assert(action_views(actions@) =~= Seq::empty());
        while i < gone.len()
            invariant
                i <= gone.len(),
                gone_views == participant_views(gone@),
                self.participants@ == left,
                action_views(actions@) == removal_notices(left, gone_views.take(i as int)),
            decreases gone.len() - i,
        {
            proof {
                assert(gone_views.take(i + 1).drop_last() =~= gone_views.take(i as int));
                assert(gone_views.take(i + 1).last() == gone_views[i as int]);
            }
            let news = Message::ParticipantNotificationRemoved(gone[i].name.clone());
            notify(&self.participants, &news, &mut actions);
            i += 1;
        }
        assert(gone_views.take(gone.len() as int) =~= gone_views);
        let ghost notices = action_views(actions@);
        let ghost before = self@.outbound;
        let mut kept: Vec<Transfer> = Vec::new();
        let n = self.outbound.len();
        let mut j: usize = 0;
        assert(before.take(0) =~= Seq::empty());
        assert(transfer_views(kept@) =~= Seq::empty());
        assert(notices =~= notices + closes(transfers_split(before.take(0), endpoint, true)));
        while j < n
            invariant
                j <= n == self.outbound.len(),
                before == transfer_views(self.outbound@),
                transfer_views(kept@) == transfers_split(before.take(j as int), endpoint, false),
                action_views(actions@) == notices + closes(
                    transfers_split(before.take(j as int), endpoint, true),
                ),
            decreases n - j,
        {
            proof {
                assert(before.take(j + 1).drop_last() =~= before.take(j as int));
                assert(before.take(j + 1).last() == before[j as int]);
            }
            let transfer = &self.outbound[j];
            if transfer.endpoint() == endpoint {
                let ghost prior = action_views(actions@);
                let ghost dropped = transfers_split(before.take(j as int), endpoint, true);
                actions.push(ServerAction::Close(endpoint, transfer.name().clone()));
                proof {
                    let close = ServerActionView::Close(endpoint, before[j as int].name);
                    assert(action_views(actions@) =~= prior.push(close));
                    assert(closes(dropped.push(before[j as int])) =~= closes(dropped).push(close));
                    assert(notices + closes(dropped).push(close) =~= (notices + closes(
                        dropped,
                    )).push(close));
                }
            } else {
                let ghost prior = transfer_views(kept@);
                kept.push(transfer.clone());
                assert(transfer_views(kept@) =~= prior.push(before[j as int]));
            }
            j += 1;
        }
        assert(before.take(n as int) =~= before);
        self.outbound = kept;
        actions
    }

    /// Handles a message from an endpoint.
    pub fn receive(&mut self, endpoint: Endpoint, message: &Message) -> (actions: Vec<ServerAction>)
        ensures
            (final(self)@, action_views(actions@)) == on_message(old(self)@, endpoint, message@),
    {
        let mut actions: Vec<ServerAction> = Vec::new();
        assert(action_views(actions@) =~= Seq::empty());
        match message {
            Message::RegisterParticipant(name, addr) => {
                return self.register(name.as_str(), *addr, endpoint);
            },
            Message::UnregisterParticipant(name) => {
                return self.unregister(name.as_str());
            },
            Message::GetStatus => {
                actions.push(ServerAction::Send(endpoint, Message::ServerStatus(self.status)));
                assert(action_views(actions@) =~= status_reply(self@, endpoint));
            },
            Message::GetNodes => {
                if self.status == Status::Running {
                    let list = Message::NodeList(self.synchronizer.entries().clone());
                    actions.push(ServerAction::Send(endpoint, list));
                    assert(action_views(actions@) =~= on_get_nodes(self@, endpoint));
                } else {
                    actions.push(ServerAction::Send(endpoint, Message::ServerStatus(self.status)));
                    assert(action_views(actions@) =~= status_reply(self@, endpoint));
                }
            },
            Message::GetChangeset(tree) => {
                if self.status == Status::Running {
                    let service = SynchronizerService { synchronizer: &self.synchronizer };
                    match service.get_change_set(tree) {
                        Some(changes) => {
                            actions.push(ServerAction::Send(endpoint, Message::Changeset(changes)));
                            assert(action_views(actions@) =~= on_get_changeset(
                                self@,
                                endpoint,
                                tree@,
                            ));
                        },
                        None => {},
                    }
                } else {
                    actions.push(ServerAction::Send(endpoint, Message::ServerStatus(self.status)));
                    assert(action_views(actions@) =~= status_reply(self@, endpoint));
                }
            },
            Message::SendMe(key) => {
                if key_stays_below(key.as_str()) {
                    let path = self.synchronizer.path_below_root(key.as_str());
                    actions.push(ServerAction::Open(endpoint, key.clone(), path));
                    assert(action_views(actions@) =~= on_send_me(self@, endpoint, key@));
                }
            },
            _ => {},
        }
        actions
    }

    /// The event loop over the events that have arrived: handles them in
    /// turn.
    pub fn run(&mut self, events: &Vec<ServerEvent>) -> (actions: Vec<ServerAction>)
        ensures
            (final(self)@, action_views(actions@)) == steps(old(self)@, event_views(events@)),
    {
        let mut actions: Vec<ServerAction> = Vec::new();
        let ghost es = event_views(events@);
        let mut i: usize = 0;
        assert(es.take(0) =~= Seq::empty());
        assert(action_views(actions@) =~= Seq::empty());
        while i < events.len()
            invariant
                i <= events.len(),
                es == event_views(events@),
                (self@, action_views(actions@)) == steps(old(self)@, es.take(i as int)),
            decreases events.len() - i,
        {
            proof {
                assert(es.take(i + 1).drop_last() =~= es.take(i as int));
                assert(es.take(i + 1).last() == events@[i as int]@);
            }
            let ghost prior = action_views(actions@);
            let mut more = self.handle(&events[i]);
            let ghost added = action_views(more@);
            actions.append(&mut more);
            assert(action_views(actions@) =~= prior + added);
            i += 1;
        }
        assert(es.take(events.len() as int) =~= es);
        actions
    }

    /// One turn of the event loop: takes an event, changes the state and
    /// says what is to be done.
    pub fn handle(&mut self, event: &ServerEvent) -> (actions: Vec<ServerAction>)
        ensures
            (final(self)@, action_views(actions@)) == step(old(self)@, event@),
    {
        let mut actions: Vec<ServerAction> = Vec::new();
        assert(action_views(actions@) =~= Seq::empty());
        match event {
            ServerEvent::Message(endpoint, message) => {
                return self.receive(*endpoint, message);
            },
            ServerEvent::AddedEndpoint(_) => {},
            ServerEvent::RemovedEndpoint(endpoint) => {
                return self.remove_endpoint(*endpoint);
            },
            ServerEvent::DeserializationError(_) => {},
            ServerEvent::SendChunk(endpoint, name) => {
                match self.find_transfer(*endpoint, name.as_str()) {
                    Some(i) => {
                        if self.outbound[i].is_complete() {
                            return self.end_transfer(i, *endpoint, name.as_str());
                        }
                        let len = self.outbound[i].next_len();
                        actions.push(ServerAction::Read(*endpoint, name.clone(), len));
                        assert(action_views(actions@) =~= seq![
                            ServerActionView::Read(*endpoint, name@, len),
                        ]);
                    },
                    None => {},
                }
            },
            ServerEvent::FileOpened(endpoint, name, meta) => {
                match meta {
                    Some(meta) => {
                        if meta.is_file {
                            let ghost before = self@.outbound;
                            let transfer = Transfer::new(*endpoint, name.clone(), meta.len);
                            self.outbound.push(transfer);
                            assert(transfer_views(self.outbound@) =~= before.push(
                                TransferView {
                                    endpoint: *endpoint,
                                    name: name@,
                                    current_size: 0,
                                    expected_size: meta.len,
                                },
                            ));
                            actions.push(ServerAction::Enqueue(*endpoint, name.clone()));
                            assert(action_views(actions@) =~= seq![
                                ServerActionView::Enqueue(*endpoint, name@),
                            ]);
                        } else {
                            actions.push(ServerAction::Close(*endpoint, name.clone()));
                            assert(action_views(actions@) =~= seq![
                                ServerActionView::Close(*endpoint, name@),
                            ]);
                        }
                    },
                    None => {},
                }
            },
            ServerEvent::ChunkRead(endpoint, name, data) => {
                match self.find_transfer(*endpoint, name.as_str()) {
                    Some(i) => {
                        let len = self.outbound[i].next_len();
                        if data.len() == 0 || data.len() as u64 > len {
                            return self.end_transfer(i, *endpoint, name.as_str());
                        }
                        let ghost before = self@.outbound;
                        let mut transfer = self.outbound[i].clone();
                        transfer.advance(data.len() as u64);
                        self.outbound.set(i, transfer);
                        assert(transfer_views(self.outbound@) =~= before.update(
                            i as int,
                            before[i as int].advanced(data@.len() as int),
                        ));
                        actions.push(
                            ServerAction::Send(
                                *endpoint,
                                Message::Chunk(crate::message::copy_bytes(data)),
                            ),
                        );
                        actions.push(ServerAction::Enqueue(*endpoint, name.clone()));
                        assert(action_views(actions@) =~= seq![
                            ServerActionView::Send(*endpoint, MessageView::Chunk(data@)),
                            ServerActionView::Enqueue(*endpoint, name@),
                        ]);
                    },
                    None => {},
                }
            },
        }
        actions
    }
}

} // verus!
