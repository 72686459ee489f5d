//! A participant as a state machine.
//!
//! A participant holds its own copy of the tree. It registers with the
//! discovery server, greets the other participants, asks the server for
//! the files that the change set names and puts the chunks it receives
//! together again. The caller runs the event loop: it hands every event
//! to [`Participant::handle`] and carries out the actions that come back.

use crate::config::Config;
use crate::diff::{change_views, Change, ChangeType, ChangeView};
use crate::error::Error;
use crate::index::{as_map, has_key, Index};
use crate::message::{peer_views, Endpoint, Message, MessageView, PeerView, SocketAddress};
use crate::node::NodeView;
use crate::registry::{
    lemma_without_name, registered, without_name, ParticipantInfo, ParticipantView, Registry,
};
use crate::snapshot::ser_index;
use crate::synchronizer::{
    bytes_view, failures, local_changes_view, spec_local_changes, walk, walked_views, Rename,
    Status, Synchronizer, SynchronizerView, Walked,
};
use crate::text::{key_stays_below, spec_join, stays_below};
use crate::transfer::{Transfer, TransferView};
use vstd::prelude::*;
use vstd::string::*;

verus! {

/// What a participant says to those it finds in the participant list.
pub const LIST_GREETING: &'static str = "I see you in the participant list";

/// What a participant says to a newcomer.
pub const WELCOME_GREETING: &'static str = "welcome to the network!";

/// What the event loop of a participant is told.
#[derive(Debug, PartialEq, Eq)]
pub enum ParticipantEvent {
    /// A message arrived from an endpoint.
    Message(Endpoint, Message),
    /// A connection was accepted.
    AddedEndpoint(Endpoint),
    /// A connection was lost.
    RemovedEndpoint(Endpoint),
    /// An endpoint delivered a frame that is no message.
    DeserializationError(Endpoint),
    /// The answer to [`ParticipantAction::Greet`]: the gossip endpoint
    /// that was opened to the participant of this name and address, or
    /// nothing if none could be opened.
    GossipOpened(String, SocketAddress, Option<Endpoint>),
}

/// The mathematical content of a [`ParticipantEvent`].
pub enum ParticipantEventView {
    Message(Endpoint, MessageView),
    AddedEndpoint(Endpoint),
    RemovedEndpoint(Endpoint),
    DeserializationError(Endpoint),
    GossipOpened(Seq<char>, SocketAddress, Option<Endpoint>),
}

impl View for ParticipantEvent {
    type V = ParticipantEventView;

    open spec fn view(&self) -> ParticipantEventView {
        match self {
            ParticipantEvent::Message(endpoint, message) => ParticipantEventView::Message(
                *endpoint,
                message@,
            ),
            ParticipantEvent::AddedEndpoint(endpoint) => ParticipantEventView::AddedEndpoint(
                *endpoint,
            ),
            ParticipantEvent::RemovedEndpoint(endpoint) => ParticipantEventView::RemovedEndpoint(
                *endpoint,
            ),
            ParticipantEvent::DeserializationError(endpoint) => {
                ParticipantEventView::DeserializationError(*endpoint)
            },
            ParticipantEvent::GossipOpened(name, addr, endpoint) => {
                ParticipantEventView::GossipOpened(name@, *addr, *endpoint)
            },
        }
    }
}

/// What a participant asks its caller to do.
#[derive(Debug, PartialEq, Eq)]
pub enum ParticipantAction {
    /// Send the message to the endpoint.
    Send(Endpoint, Message),
    /// Send the message to the endpoint after a pause.
    Retry(Endpoint, Message),
    /// Open a gossip endpoint to the participant of this name at this
    /// address, send the message through it and answer with
    /// [`ParticipantEvent::GossipOpened`].
    Greet(String, SocketAddress, Message),
    /// Release the gossip endpoint.
    Release(Endpoint),
    /// Show that the participant of this name says this.
    Display(String, String),
    /// Show that the key of the remote tree is here too, under this name.
    Present(String, String),
    /// Show that the key of the remote tree is missing here.
    Missing(String),
    /// Create the file of this name at this path, empty.
    Create(String, String),
    /// Append the bytes to the file of this name.
    Write(String, Vec<u8>),
    /// Close the file of this name.
    Close(String),
    /// End the session.
    Terminate,
}

/// The mathematical content of a [`ParticipantAction`].
pub enum ParticipantActionView {
    Send(Endpoint, MessageView),
    Retry(Endpoint, MessageView),
    Greet(Seq<char>, SocketAddress, MessageView),
    Release(Endpoint),
    Display(Seq<char>, Seq<char>),
    Present(Seq<char>, Seq<char>),
    Missing(Seq<char>),
    Create(Seq<char>, Seq<char>),
    Write(Seq<char>, Seq<u8>),
    Close(Seq<char>),
    Terminate,
}

impl View for ParticipantAction {
    type V = ParticipantActionView;

    open spec fn view(&self) -> ParticipantActionView {
        match self {
            ParticipantAction::Send(endpoint, message) => ParticipantActionView::Send(
                *endpoint,
                message@,
            ),
            ParticipantAction::Retry(endpoint, message) => ParticipantActionView::Retry(
                *endpoint,
                message@,
            ),
            ParticipantAction::Greet(name, addr, message) => ParticipantActionView::Greet(
                name@,
                *addr,
                message@,
            ),
            ParticipantAction::Release(endpoint) => ParticipantActionView::Release(*endpoint),
            ParticipantAction::Display(name, text) => ParticipantActionView::Display(name@, text@),
            ParticipantAction::Present(key, name) => ParticipantActionView::Present(key@, name@),
            ParticipantAction::Missing(key) => ParticipantActionView::Missing(key@),
            ParticipantAction::Create(name, path) => ParticipantActionView::Create(name@, path@),
            ParticipantAction::Write(name, data) => ParticipantActionView::Write(name@, data@),
            ParticipantAction::Close(name) => ParticipantActionView::Close(name@),
            ParticipantAction::Terminate => ParticipantActionView::Terminate,
        }
    }
}

/// A list of actions, each taken by its content.
pub open spec fn action_views(s: Seq<ParticipantAction>) -> Seq<ParticipantActionView> {
    Seq::new(s.len(), |i: int| s[i]@)
}

/// A file that was asked for and has not begun to arrive.
#[derive(Debug, PartialEq, Eq)]
pub struct Expected {
    pub name: String,
    pub size: u64,
}

/// The mathematical content of an [`Expected`].
pub struct ExpectedView {
    pub name: Seq<char>,
    pub size: u64,
}

impl View for Expected {
    type V = ExpectedView;

    open spec fn view(&self) -> ExpectedView {
        ExpectedView { name: self.name@, size: self.size }
    }
}

/// A list of expected files, each taken by its content.
pub open spec fn expected_views(s: Seq<Expected>) -> Seq<ExpectedView> {
    Seq::new(s.len(), |i: int| s[i]@)
}

/// The mathematical content of a [`Participant`].
pub struct ParticipantState {
    pub synchronizer: SynchronizerView,
    pub name: Seq<char>,
    pub status: Status,
    /// The connection to the discovery server.
    pub discovery: Endpoint,
    /// The address of the gossip socket.
    pub public_addr: SocketAddress,
    /// The participants that were greeted, with their gossip endpoints.
    pub known: Seq<ParticipantView>,
    /// The files that were asked for and have not begun to arrive, in
    /// the order in which they were asked for.
    pub expected: Seq<ExpectedView>,
    /// The file that is arriving.
    pub inbound: Option<TransferView>,
    /// How much the caller is to report.
    pub verbosity: u64,
    /// Whether the caller is to report every event.
    pub debug: bool,
}

/// The greeting for the participant of this name.
pub open spec fn spec_greeting(name: Seq<char>, message: Seq<char>) -> Seq<char> {
    "Hi '"@ + name + "', "@ + message
}

/// The greeting of the participant `s` for a participant it has
/// discovered.
pub open spec fn greet(
    s: ParticipantState,
    name: Seq<char>,
    addr: SocketAddress,
    message: Seq<char>,
) -> ParticipantActionView {
    ParticipantActionView::Greet(
        name,
        addr,
        MessageView::Greetings(s.name, spec_greeting(name, message)),
    )
}

/// What a participant does first: it registers, on a first run it asks
/// for the change set against its own tree, and it asks for the status.
pub open spec fn announcement(s: ParticipantState) -> Seq<ParticipantActionView> {
    let register = ParticipantActionView::Send(
        s.discovery,
        MessageView::RegisterParticipant(s.name, s.public_addr),
    );
    let status = ParticipantActionView::Send(s.discovery, MessageView::GetStatus);
    if s.synchronizer.first_run {
        seq![
            register,
            ParticipantActionView::Send(
                s.discovery,
                MessageView::GetChangeset(s.synchronizer.entries),
            ),
            status,
        ]
    } else {
        seq![register, status]
    }
}

/// For every key of the remote tree, whether it is here too.
pub open spec fn reconciliation(local: Seq<NodeView>, remote: Seq<NodeView>) -> Seq<
    ParticipantActionView,
> {
    Seq::new(
        remote.len(),
        |i: int|
            if has_key(local, remote[i].relative_path) {
                ParticipantActionView::Present(
                    remote[i].relative_path,
                    as_map(local)[remote[i].relative_path].name,
                )
            } else {
                ParticipantActionView::Missing(remote[i].relative_path)
            },
    )
}

/// Whether the change brings a file with content: it is no deletion, its
/// record is that of a file that is not empty, and its key stays below
/// the root.
pub open spec fn brings_file(c: ChangeView) -> bool {
    &&& c.change_type != ChangeType::Deleted
    &&& c.node.is_file
    &&& c.node.len > 0
    &&& stays_below(c.node.relative_path)
}

/// The files that the changes bring, in the order of the changes.
pub open spec fn files_of(changes: Seq<ChangeView>) -> Seq<ExpectedView>
    decreases changes.len(),
{
    if changes.len() == 0 {
        Seq::empty()
    } else if brings_file(changes.last()) {
        files_of(changes.drop_last()).push(
            ExpectedView { name: changes.last().node.relative_path, size: changes.last().node.len },
        )
    } else {
        files_of(changes.drop_last())
    }
}

/// The request for the file of every change.
pub open spec fn requests(s: ParticipantState, changes: Seq<ChangeView>) -> Seq<
    ParticipantActionView,
> {
    Seq::new(
        changes.len(),
        |i: int|
            ParticipantActionView::Send(
                s.discovery,
                MessageView::SendMe(changes[i].node.relative_path),
            ),
    )
}

/// The greeting for everyone in the participant list.
pub open spec fn greetings(s: ParticipantState, peers: Seq<PeerView>) -> Seq<
    ParticipantActionView,
> {
    Seq::new(peers.len(), |i: int| greet(s, peers[i].name, peers[i].addr, LIST_GREETING@))
}

/// The removal of a participant: its gossip endpoint is released.
pub open spec fn on_removed(s: ParticipantState, name: Seq<char>) -> (
    ParticipantState,
    Seq<ParticipantActionView>,
) {
    if registered(s.known, name) {
        let gone = choose|i: int| 0 <= i < s.known.len() && (#[trigger] s.known[i]).name == name;
        (
            ParticipantState { known: without_name(s.known, name), ..s },
            seq![ParticipantActionView::Release(s.known[gone].endpoint)],
        )
    } else {
        (s, Seq::empty())
    }
}

/// The outcome of a greeting: the gossip endpoint is kept under the name
/// of the participant, in the place of one that was kept under that name
/// before, which is released.
pub open spec fn on_gossip_opened(
    s: ParticipantState,
    name: Seq<char>,
    addr: SocketAddress,
    endpoint: Option<Endpoint>,
) -> (ParticipantState, Seq<ParticipantActionView>) {
    match endpoint {
        Some(endpoint) => {
            let (mid, released) = on_removed(s, name);
            (
                ParticipantState {
                    known: mid.known.push(ParticipantView { name, addr, endpoint }),
                    ..mid
                },
                released,
            )
        },
        None => (s, Seq::empty()),
    }
}

/// The status of the server: a running server is asked for its nodes,
/// any other is asked again later.
pub open spec fn on_status(s: ParticipantState, status: Status) -> Seq<ParticipantActionView> {
    if status == Status::Running {
        seq![ParticipantActionView::Send(s.discovery, MessageView::GetNodes)]
    } else {
        seq![ParticipantActionView::Retry(s.discovery, MessageView::GetStatus)]
    }
}

/// A change set: the file of every change is asked for, and the files
/// that the changes bring are expected.
pub open spec fn on_changeset(s: ParticipantState, changes: Seq<ChangeView>) -> (
    ParticipantState,
    Seq<ParticipantActionView>,
) {
    (ParticipantState { expected: s.expected + files_of(changes), ..s }, requests(s, changes))
}

/// A chunk from the server. It belongs to the file that is arriving or,
/// if none is, to the first file that is expected, which is created. It
/// is written to the file, and a file that has all its bytes is closed.
/// A chunk that nothing is expected for is dropped, and a chunk with
/// more bytes than the file still lacks ends the file.
pub open spec fn on_chunk(s: ParticipantState, data: Seq<u8>) -> (
    ParticipantState,
    Seq<ParticipantActionView>,
) {
    if s.inbound is None && s.expected.len() == 0 {
        (s, Seq::empty())
    } else {
        let (t, expected, created) = if s.inbound is Some {
            (s.inbound.unwrap(), s.expected, Seq::empty())
        } else {
            (
                TransferView {
                    endpoint: s.discovery,
                    name: s.expected[0].name,
                    current_size: 0,
                    expected_size: s.expected[0].size,
                },
                s.expected.drop_first(),
                seq![
                    ParticipantActionView::Create(
                        s.expected[0].name,
                        spec_join(s.synchronizer.config.root, s.expected[0].name),
                    ),
                ],
            )
        };
        if data.len() > t.remaining() {
            (
                ParticipantState { expected, inbound: None, ..s },
                created + seq![ParticipantActionView::Close(t.name)],
            )
        } else if t.advanced(data.len() as int).complete() {
            (
                ParticipantState { expected, inbound: None, ..s },
                created + seq![
                    ParticipantActionView::Write(t.name, data),
                    ParticipantActionView::Close(t.name),
                ],
            )
        } else {
            (
                ParticipantState {
                    expected,
                    inbound: Some(t.advanced(data.len() as int)),
                    ..s
                },
                created + seq![ParticipantActionView::Write(t.name, data)],
            )
        }
    }
}

/// The loss of an endpoint. The loss of the discovery server ends the
/// session: the file that is arriving is closed. The loss of any other
/// endpoint changes nothing.
pub open spec fn on_removed_endpoint(s: ParticipantState, endpoint: Endpoint) -> (
    ParticipantState,
    Seq<ParticipantActionView>,
) {
    if endpoint == s.discovery {
        (
            ParticipantState { status: Status::Stopping, inbound: None, ..s },
            match s.inbound {
                Some(t) => seq![
                    ParticipantActionView::Close(t.name),
                    ParticipantActionView::Terminate,
                ],
                None => seq![ParticipantActionView::Terminate],
            },
        )
    } else {
        (s, Seq::empty())
    }
}

/// What a message makes of the participant.
pub open spec fn on_message(s: ParticipantState, endpoint: Endpoint, m: MessageView) -> (
    ParticipantState,
    Seq<ParticipantActionView>,
) {
    match m {
        MessageView::ParticipantList(peers) => (s, greetings(s, peers)),
        MessageView::ParticipantNotificationAdded(name, addr) => (
            s,
            seq![greet(s, name, addr, WELCOME_GREETING@)],
        ),
        MessageView::ParticipantNotificationRemoved(name) => on_removed(s, name),
        MessageView::Greetings(name, text) => (s, seq![ParticipantActionView::Display(name, text)]),
        MessageView::ServerStatus(status) => (s, on_status(s, status)),
        MessageView::NodeList(tree) => (s, reconciliation(s.synchronizer.entries, tree)),
        MessageView::Changeset(changes) => on_changeset(s, changes),
        MessageView::Chunk(data) => if endpoint == s.discovery {
            on_chunk(s, data)
        } else {
            (s, Seq::empty())
        },
        _ => (s, Seq::empty()),
    }
}

/// One turn of the event loop: the state after the event, and the
/// actions it calls for.
pub open spec fn step(s: ParticipantState, e: ParticipantEventView) -> (
    ParticipantState,
    Seq<ParticipantActionView>,
) {
    match e {
        ParticipantEventView::Message(endpoint, m) => on_message(s, endpoint, m),
        ParticipantEventView::AddedEndpoint(_) => (s, Seq::empty()),
        ParticipantEventView::RemovedEndpoint(endpoint) => on_removed_endpoint(s, endpoint),
        ParticipantEventView::DeserializationError(_) => (s, Seq::empty()),
        ParticipantEventView::GossipOpened(name, addr, endpoint) => on_gossip_opened(
            s,
            name,
            addr,
            endpoint,
        ),
    }
}

/// A list of events, each taken by its content.
pub open spec fn event_views(s: Seq<ParticipantEvent>) -> Seq<ParticipantEventView> {
    Seq::new(s.len(), |i: int| s[i]@)
}

/// The events handled in turn: the state after the last, and all the
/// actions in the order in which they were called for.
pub open spec fn steps(s: ParticipantState, es: Seq<ParticipantEventView>) -> (
    ParticipantState,
    Seq<ParticipantActionView>,
)
    decreases es.len(),
{
    if es.len() == 0 {
        (s, Seq::empty())
    } else {
        let (mid, first) = steps(s, es.drop_last());
        let (end, last) = step(mid, es.last());
        (end, first + last)
    }
}

/// Builds the greeting for the participant of this name.
pub fn greeting(name: &str, message: &str) -> (text: String)
    ensures
        text@ == spec_greeting(name@, message@),
{
    let mut text = String::from_str("Hi '");
    text.append(name);
    text.append("', ");
    text.append(message);
    text
}

/// A participant.
pub struct Participant {
    synchronizer: Synchronizer,
    name: String,
    debug: bool,
    verbosity: u64,
    status: Status,
    discovery_endpoint: Endpoint,
    public_addr: SocketAddress,
    known_participants: Registry,
    expected: Vec<Expected>,
    inbound: Option<Transfer>,
}

/// The content of the file that is arriving, if one is.
pub open spec fn inbound_view(inbound: Option<Transfer>) -> Option<TransferView> {
    match inbound {
        Some(t) => Some(t@),
        None => None,
    }
}

impl View for Participant {
    type V = ParticipantState;

    closed spec fn view(&self) -> ParticipantState {
        ParticipantState {
            synchronizer: self.synchronizer@,
            name: self.name@,
            status: self.status,
            discovery: self.discovery_endpoint,
            public_addr: self.public_addr,
            known: self.known_participants@,
            expected: expected_views(self.expected@),
            inbound: inbound_view(self.inbound),
            verbosity: self.verbosity,
            debug: self.debug,
        }
    }
}

impl Participant {
    /// A participant for a valid configuration, with the connection to
    /// the discovery server and the address of its gossip socket:
    /// starting, with an empty index, knowing nobody and expecting
    /// nothing.
    pub fn new(
        config: Config,
        name: &str,
        debug: bool,
        verbosity: u64,
        discovery_endpoint: Endpoint,
        public_addr: SocketAddress,
    ) -> (made: Option<Participant>)
        ensures
            made is Some <==> config@.valid(),
            made is Some ==> made.unwrap()@ == (ParticipantState {
                synchronizer: SynchronizerView {
                    entries: Seq::empty(),
                    config: config@,
                    first_run: false,
                    unreadable: Seq::empty(),
                },
                name: name@,
                status: Status::Starting,
                discovery: discovery_endpoint,
                public_addr,
                known: Seq::empty(),
                expected: Seq::empty(),
                inbound: None,
                verbosity,
                debug,
            }),
    {
        match Synchronizer::new(config) {
            Some(synchronizer) => {
                let participant = Participant {
                    synchronizer,
                    name: name.to_owned(),
                    debug,
                    verbosity,
                    status: Status::Starting,
                    discovery_endpoint,
                    public_addr,
                    known_participants: Registry::new(),
                    expected: Vec::new(),
                    inbound: None,
                };
                assert(participant@.expected =~= Seq::empty());
                Some(participant)
            },
            None => None,
        }
    }

    /// The operational status.
    pub fn status(&self) -> (status: Status)
        ensures
            status == self@.status,
    {
        self.status
    }

    /// How much the caller is to report.
    pub fn verbosity(&self) -> (verbosity: u64)
        ensures
            verbosity == self@.verbosity,
    {
        self.verbosity
    }

    /// Whether the caller is to report every event.
    pub fn debug(&self) -> (debug: bool)
        ensures
            debug == self@.debug,
    {
        self.debug
    }

    /// The name.
    pub fn name(&self) -> (name: &String)
        ensures
            name@ == self@.name,
    {
        &self.name
    }

    /// The index store.
    pub fn synchronizer(&self) -> (synchronizer: &Synchronizer)
        ensures
            synchronizer@ == self@.synchronizer,
    {
        &self.synchronizer
    }

    /// The participants that were greeted, with their gossip endpoints.
    pub fn known_participants(&self) -> (registry: &Registry)
        ensures
            registry@ == self@.known,
    {
        &self.known_participants
    }

    /// Enters the indexing state and says which rename rotates the
    /// snapshots.
    pub fn begin_indexing(&mut self) -> (rename: Option<Rename>)
        ensures
            final(self)@ == (ParticipantState { status: Status::Indexing, ..old(self)@ }),
            rename is Some <==> !old(self)@.synchronizer.first_run,
            rename is Some ==> rename.unwrap().from@ == spec_join(
                old(self)@.synchronizer.config.root,
                crate::synchronizer::CURRENT_SNAPSHOT@,
            ) && rename.unwrap().to@ == spec_join(
                old(self)@.synchronizer.config.root,
                crate::synchronizer::PREVIOUS_SNAPSHOT@,
            ),
    {
        self.status = Status::Indexing;
        self.synchronizer.move_index()
    }

    /// Builds the index from a walk of the tree, enters the running state
    /// and hands back the snapshot to write.
    pub fn finish_indexing(&mut self, renamed: bool, walked: &Vec<Walked>) -> (snapshot: Vec<u8>)
        ensures
            final(self)@ == (ParticipantState {
                status: Status::Running,
                synchronizer: final(self)@.synchronizer,
                ..old(self)@
            }),
            final(self)@.synchronizer.config == old(self)@.synchronizer.config,
            final(self)@.synchronizer.first_run == (old(self)@.synchronizer.first_run || !renamed),
            as_map(final(self)@.synchronizer.entries) == walk(
                old(self)@.synchronizer.config,
                walked_views(walked@),
            ),
            final(self)@.synchronizer.unreadable == failures(
                old(self)@.synchronizer.config,
                walked_views(walked@),
            ),
            snapshot@ == ser_index(final(self)@.synchronizer.entries),
    {
        let snapshot = self.synchronizer.index(renamed, walked);
        self.status = Status::Running;
        snapshot
    }

    /// The changes on this peer since the run before; see
    /// [`Synchronizer::local_changes`].
    pub fn local_changes(&self, previous: Option<&[u8]>, current: &[u8]) -> (r: Result<
        Option<Vec<Change>>,
        Error,
    >)
        ensures
            local_changes_view(r) == spec_local_changes(
                self@.synchronizer.first_run,
                bytes_view(previous),
                current@,
            ),
    {
        self.synchronizer.local_changes(previous, current)
    }

    /// What the participant does first.
    pub fn announce(&self) -> (actions: Vec<ParticipantAction>)
        ensures
            action_views(actions@) == announcement(self@),
    {
        let mut actions: Vec<ParticipantAction> = Vec::new();
        let register = Message::RegisterParticipant(self.name.clone(), self.public_addr);
        actions.push(ParticipantAction::Send(self.discovery_endpoint, register));
        if self.synchronizer.first_run() {
            let tree = Message::GetChangeset(self.synchronizer.entries().clone());
            actions.push(ParticipantAction::Send(self.discovery_endpoint, tree));
        }
        actions.push(ParticipantAction::Send(self.discovery_endpoint, Message::GetStatus));
        assert(action_views(actions@) =~= announcement(self@));
        actions
    }

    /// The greeting for a participant that was discovered.
    pub fn discovered_participant(&self, name: &str, addr: SocketAddress, message: &str) -> (action:
        ParticipantAction)
        ensures
            action@ == greet(self@, name@, addr, message@),
    {
        let text = greeting(name, message);
        ParticipantAction::Greet(
            name.to_owned(),
            addr,
            Message::Greetings(self.name.clone(), text),
        )
    }

    /// Goes through the keys of the remote tree and says of each whether
    /// it is here too.
    pub fn reconcile(&self, other: &Index) -> (actions: Vec<ParticipantAction>)
        ensures
            action_views(actions@) == reconciliation(self@.synchronizer.entries, other@),
    {
        let mut actions: Vec<ParticipantAction> = Vec::new();
        let local = self.synchronizer.entries();
        let n = other.len();
        let mut i: usize = 0;
        while i < n
            invariant
                i <= n == other@.len(),
                local@ == self@.synchronizer.entries,
                actions.len() == i,
                forall|j: int|
                    0 <= j < i ==> (#[trigger] actions@[j])@ == reconciliation(local@, other@)[j],
            decreases n - i,
        {
            let key = &other.node(i).relative_path;
            match local.get(key.as_str()) {
                Some(node) => {
                    actions.push(ParticipantAction::Present(key.clone(), node.name.clone()));
                },
                None => {
                    actions.push(ParticipantAction::Missing(key.clone()));
                },
            }
            i += 1;
        }
        assert(action_views(actions@) =~= reconciliation(local@, other@));
        actions
    }

    /// Handles the removal of a participant.
    fn forget(&mut self, name: &str) -> (actions: Vec<ParticipantAction>)
        ensures
            (final(self)@, action_views(actions@)) == on_removed(old(self)@, name@),
    {
        let mut actions: Vec<ParticipantAction> = Vec::new();
        assert(action_views(actions@) =~= Seq::empty());
        let ghost known = self@.known;
        let _ = self.known_participants.len();
        match self.known_participants.remove(name) {
            Some(info) => {
                proof {
                    let gone = choose|i: int|
                        0 <= i < known.len() && (#[trigger] known[i]).name == name@;
                    let at = choose|i: int| 0 <= i < known.len() && known[i] == info@;
                    if gone < at {
                        assert(known[gone].name != known[at].name);
                    } else if at < gone {
                        assert(known[at].name != known[gone].name);
                    }
                }
                actions.push(ParticipantAction::Release(info.endpoint));
                assert(action_views(actions@) =~= seq![
                    ParticipantActionView::Release(info.endpoint),
                ]);
            },
            None => {
                proof {
                    lemma_without_name(known, name@);
                }
            },
        }
        actions
    }

    /// Handles a change set.
    fn request_files(&mut self, changes: &Vec<Change>) -> (actions: Vec<ParticipantAction>)
        ensures
            (final(self)@, action_views(actions@)) == on_changeset(
                old(self)@,
                change_views(changes@),
            ),
    {
        let mut actions: Vec<ParticipantAction> = Vec::new();
        let ghost cs = change_views(changes@);
        let ghost before = self@.expected;
        let mut i: usize = 0;
        assert(cs.take(0) =~= Seq::empty());
        assert(before =~= before + files_of(cs.take(0)));
        while i < changes.len()
            invariant
                i <= changes.len(),
                cs == change_views(changes@),
                self@ == (ParticipantState {
                    expected: before + files_of(cs.take(i as int)),
                    ..old(self)@
                }),
                actions.len() == i,
                forall|j: int|
                    0 <= j < i ==> (#[trigger] actions@[j])@ == requests(old(self)@, cs)[j],
            decreases changes.len() - i,
        {
            proof {
                assert(cs.take(i + 1).drop_last() =~= cs.take(i as int));
                assert(cs.take(i + 1).last() == cs[i as int]);
            }
            let change = &changes[i];
            let key = &change.node.relative_path;
            actions.push(
                ParticipantAction::Send(self.discovery_endpoint, Message::SendMe(key.clone())),
            );
            let brings = match change.change_type {
                ChangeType::Deleted => false,
                _ => change.node.is_file && change.node.len > 0 && key_stays_below(key.as_str()),
            };
            if brings {
                let ghost prior = expected_views(self.expected@);
                self.expected.push(Expected { name: key.clone(), size: change.node.len });
                proof {
                    let file = ExpectedView { name: key@, size: change.node.len };
                    assert(expected_views(self.expected@) =~= prior.push(file));
                    assert(before + files_of(cs.take(i as int)).push(file) =~= (before + files_of(
                        cs.take(i as int),
                    )).push(file));
                }
            }
            i += 1;
        }
        assert(cs.take(changes.len() as int) =~= cs);
        assert(action_views(actions@) =~= requests(old(self)@, cs));
        actions
    }

    /// Handles a chunk from the server.
    fn take_chunk(&mut self, data: &Vec<u8>) -> (actions: Vec<ParticipantAction>)
        ensures
            (final(self)@, action_views(actions@)) == on_chunk(old(self)@, data@),
    {
        let mut actions: Vec<ParticipantAction> = Vec::new();
        assert(action_views(actions@) =~= Seq::empty());
        let mut transfer = match self.inbound.take() {
            Some(transfer) => transfer,
            None => {
                if self.expected.len() == 0 {
                    return actions;
                }
                let ghost before = expected_views(self.expected@);
                let first = self.expected.remove(0);
                assert(expected_views(self.expected@) =~= before.drop_first());
                let path = self.synchronizer.path_below_root(first.name.as_str());
                actions.push(ParticipantAction::Create(first.name.clone(), path));
                assert(action_views(actions@) =~= seq![
                    ParticipantActionView::Create(
                        first.name@,
                        spec_join(self@.synchronizer.config.root, first.name@),
                    ),
                ]);
                Transfer::new(self.discovery_endpoint, first.name, first.size)
            },
        };
        let ghost created = action_views(actions@);
        let ghost t = transfer@;
        if !transfer.advance(data.len() as u64) {
            actions.push(ParticipantAction::Close(transfer.name().clone()));
            assert(action_views(actions@) =~= created + seq![ParticipantActionView::Close(t.name)]);
            return actions;
        }
        actions.push(
            ParticipantAction::Write(transfer.name().clone(), crate::message::copy_bytes(data)),
        );
        if transfer.is_complete() {
            actions.push(ParticipantAction::Close(transfer.name().clone()));
            assert(action_views(actions@) =~= created + seq![
                ParticipantActionView::Write(t.name, data@),
                ParticipantActionView::Close(t.name),
            ]);
        } else {
            assert(action_views(actions@) =~= created + seq![
                ParticipantActionView::Write(t.name, data@),
            ]);
            self.inbound = Some(transfer);
        }
        actions
    }

    /// Handles a message from an endpoint.
    pub fn receive(&mut self, endpoint: Endpoint, message: &Message) -> (actions: Vec<
        ParticipantAction,
    >)
        ensures
            (final(self)@, action_views(actions@)) == on_message(old(self)@, endpoint, message@),
    {
        let mut actions: Vec<ParticipantAction> = Vec::new();
        assert(action_views(actions@) =~= Seq::empty());
        match message {
            Message::ParticipantList(peers) => {
                let mut i: usize = 0;
                while i < peers.len()
                    invariant
                        i <= peers.len(),
                        self@ == old(self)@,
                        actions.len() == i,
                        forall|j: int|
                            0 <= j < i ==> (#[trigger] actions@[j])@ == greetings(
                                self@,
                                peer_views(peers@),
                            )[j],
                    decreases peers.len() - i,
                {
                    let peer = &peers[i];
                    actions.push(
                        self.discovered_participant(peer.name.as_str(), peer.addr, LIST_GREETING),
                    );
                    i += 1;
                }
                assert(action_views(actions@) =~= greetings(self@, peer_views(peers@)));
            },
            Message::ParticipantNotificationAdded(name, addr) => {
                actions.push(self.discovered_participant(name.as_str(), *addr, WELCOME_GREETING));
                assert(action_views(actions@) =~= seq![
                    greet(self@, name@, *addr, WELCOME_GREETING@),
                ]);
            },
            Message::ParticipantNotificationRemoved(name) => {
                return self.forget(name.as_str());
            },
            Message::Greetings(name, text) => {
                actions.push(ParticipantAction::Display(name.clone(), text.clone()));
                assert(action_views(actions@) =~= seq![
                    ParticipantActionView::Display(name@, text@),
                ]);
            },
            Message::ServerStatus(status) => {
                match status {
                    Status::Running => {
                        actions.push(
                            ParticipantAction::Send(self.discovery_endpoint, Message::GetNodes),
                        );
                    },
                    _ => {
                        actions.push(
                            ParticipantAction::Retry(self.discovery_endpoint, Message::GetStatus),
                        );
                    },
                }
                assert(action_views(actions@) =~= on_status(self@, *status));
            },
            Message::NodeList(tree) => {
                return self.reconcile(tree);
            },
            Message::Changeset(changes) => {
                return self.request_files(changes);
            },
            Message::Chunk(data) => {
                if endpoint == self.discovery_endpoint {
                    return self.take_chunk(data);
                }
            },
            _ => {},
        }
        actions
    }

    /// Handles the outcome of a greeting.
    pub fn gossip_opened(
        &mut self,
        name: &str,
        addr: SocketAddress,
        endpoint: Option<Endpoint>,
    ) -> (actions: Vec<ParticipantAction>)
        ensures
            (final(self)@, action_views(actions@)) == on_gossip_opened(
                old(self)@,
                name@,
                addr,
                endpoint,
            ),
    {
        match endpoint {
            Some(endpoint) => {
                let actions = self.forget(name);
                proof {
                    lemma_without_name(old(self)@.known, name@);
                }
                self.known_participants.add(
                    ParticipantInfo { name: name.to_owned(), addr, endpoint },
                );
                actions
            },
            None => {
                let actions: Vec<ParticipantAction> = Vec::new();
                assert(action_views(actions@) =~= Seq::empty());
                actions
            },
        }
    }

    /// Handles the loss of an endpoint.
    pub fn remove_endpoint(&mut self, endpoint: Endpoint) -> (actions: Vec<ParticipantAction>)
        ensures
            (final(self)@, action_views(actions@)) == on_removed_endpoint(old(self)@, endpoint),
    {
        let mut actions: Vec<ParticipantAction> = Vec::new();
        assert(action_views(actions@) =~= Seq::empty());
        if endpoint == self.discovery_endpoint {
            self.status = Status::Stopping;
            match self.inbound.take() {
                Some(transfer) => {
                    actions.push(ParticipantAction::Close(transfer.name().clone()));
                    actions.push(ParticipantAction::Terminate);
                    assert(action_views(actions@) =~= seq![
                        ParticipantActionView::Close(transfer@.name),
                        ParticipantActionView::Terminate,
                    ]);
                },
                None => {
                    actions.push(ParticipantAction::Terminate);
                    assert(action_views(actions@) =~= seq![ParticipantActionView::Terminate]);
                },
            }
        }
        actions
    }

    /// One turn of the event loop: takes an event, changes the state and
    /// says what is to be done.
    pub fn handle(&mut self, event: &ParticipantEvent) -> (actions: Vec<ParticipantAction>)
        ensures
            (final(self)@, action_views(actions@)) == step(old(self)@, event@),
    {
        match event {
            ParticipantEvent::Message(endpoint, message) => self.receive(*endpoint, message),
            ParticipantEvent::RemovedEndpoint(endpoint) => self.remove_endpoint(*endpoint),
            ParticipantEvent::GossipOpened(name, addr, endpoint) => self.gossip_opened(
                name.as_str(),
                *addr,
                *endpoint,
            ),
            _ => {
                let actions: Vec<ParticipantAction> = Vec::new();
                assert(action_views(actions@) =~= Seq::empty());
                actions
            },
        }
    }

    /// The event loop over the events that have arrived: handles them in
    /// turn.
    pub fn run(&mut self, events: &Vec<ParticipantEvent>) -> (actions: Vec<ParticipantAction>)
        ensures
            (final(self)@, action_views(actions@)) == steps(old(self)@, event_views(events@)),
    {
        let mut actions: Vec<ParticipantAction> = Vec::new();
        let ghost es = event_views(events@);
        let mut i: usize = 0;
        assert(es.take(0) =~= Seq::empty());
        assert(action_views(actions@) =~= Seq::empty());
        while i < events.len()
            invariant
                i <= events.len(),
                es == event_views(events@),
                (self@, action_views(actions@)) == steps(old(self)@, es.take(i as int)),
            decreases events.len() - i,
        {
            proof {
                assert(es.take(i + 1).drop_last() =~= es.take(i as int));
                assert(es.take(i + 1).last() == events@[i as int]@);
            }
            let ghost prior = action_views(actions@);
            let mut more = self.handle(&events[i]);
            let ghost added = action_views(more@);
            actions.append(&mut more);
            assert(action_views(actions@) =~= prior + added);
            i += 1;
        }
        assert(es.take(events.len() as int) =~= es);
        actions
    }
}

} // verus!
