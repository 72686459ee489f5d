use runison::config::{Config, Ignore, Path, Root};
use runison::diff::{Change, ChangeType};
use runison::index::Index;
use runison::message::{Endpoint, Message, Peer, SocketAddress};
use runison::node::{Metadata, Node};
use runison::participant::{
    greeting, Participant, ParticipantAction, ParticipantEvent, LIST_GREETING, WELCOME_GREETING,
};
use runison::synchronizer::{Status, Walked};

const SERVER: Endpoint = Endpoint { id: 1 };

fn part_config() -> Config {
    Config {
        root: Root { path: String::from("/B") },
        path: Path { directories: Vec::new() },
        ignore: Ignore { name: Vec::new(), path: Vec::new() },
    }
}

fn part_addr(port: u16) -> SocketAddress {
    SocketAddress::V4(0x7f00_0001, port)
}

fn part_meta(len: u64, secs: u64) -> Metadata {
    Metadata {
        is_dir: false,
        is_file: true,
        is_symlink: false,
        len,
        mod_seconds: secs,
        mod_nano: 0,
        inode: 1,
    }
}

fn bob(files: Vec<(&str, u64, u64)>, renamed: bool) -> Participant {
    let mut participant =
        Participant::new(part_config(), "bob", false, 0, SERVER, part_addr(2002)).unwrap();
    participant.begin_indexing();
    let walked: Vec<Walked> = files
        .into_iter()
        .map(|(path, len, secs)| Walked { path: String::from(path), meta: Some(part_meta(len, secs)) })
        .collect();
    participant.finish_indexing(renamed, &walked);
    participant
}

fn remote_file(key: &str, len: u64) -> Node {
    Node::from_path("/A", key, &part_meta(len, 100)).unwrap()
}

fn from_server(message: Message) -> ParticipantEvent {
    ParticipantEvent::Message(SERVER, message)
}

fn added(node: Node) -> Change {
    Change { change_type: ChangeType::Added, node }
}

#[test]
fn new_participant_is_starting() {
    let participant =
        Participant::new(part_config(), "bob", true, 2, SERVER, part_addr(2002)).unwrap();
    assert_eq!(participant.status(), Status::Starting);
    assert_eq!(participant.name(), "bob");
    assert!(participant.debug());
    assert_eq!(participant.verbosity(), 2);
    assert_eq!(participant.known_participants().len(), 0);
    assert_eq!(participant.synchronizer().entries().len(), 0);
}

#[test]
fn no_participant_for_an_invalid_config() {
    let mut config = part_config();
    config.root.path = String::from("B");
    assert!(Participant::new(config, "bob", false, 0, SERVER, part_addr(1)).is_none());
}

#[test]
fn participant_runs_after_indexing() {
    let mut participant =
        Participant::new(part_config(), "bob", false, 0, SERVER, part_addr(2002)).unwrap();
    assert!(participant.begin_indexing().is_some());
    assert_eq!(participant.status(), Status::Indexing);
    let snapshot = participant.finish_indexing(
        true,
        &vec![Walked { path: String::from("/B/f"), meta: Some(part_meta(1, 1)) }],
    );
    assert_eq!(participant.status(), Status::Running);
    assert_eq!(snapshot, participant.synchronizer().snapshot());
    assert_eq!(participant.local_changes(None, &snapshot), Ok(None));
    assert_eq!(participant.local_changes(Some(&snapshot[..]), &snapshot), Ok(Some(Vec::new())));
}

#[test]
fn announcement_registers_and_asks_for_the_status() {
    let participant = bob(vec![], true);
    assert_eq!(
        participant.announce(),
        vec![
            ParticipantAction::Send(
                SERVER,
                Message::RegisterParticipant(String::from("bob"), part_addr(2002))
            ),
            ParticipantAction::Send(SERVER, Message::GetStatus),
        ]
    );
}

#[test]
fn announcement_on_a_first_run_asks_for_the_change_set() {
    let participant = bob(vec![("/B/mine", 1, 1)], false);
    assert_eq!(
        participant.announce(),
        vec![
            ParticipantAction::Send(
                SERVER,
                Message::RegisterParticipant(String::from("bob"), part_addr(2002))
            ),
            ParticipantAction::Send(
                SERVER,
                Message::GetChangeset(participant.synchronizer().entries().clone())
            ),
            ParticipantAction::Send(SERVER, Message::GetStatus),
        ]
    );
}

#[test]
fn greeting_names_the_one_who_is_greeted() {
    assert_eq!(greeting("alice", "welcome to the network!"), "Hi 'alice', welcome to the network!");
    assert_eq!(greeting("", ""), "Hi '', ");
    assert_eq!(LIST_GREETING, "I see you in the participant list");
    assert_eq!(WELCOME_GREETING, "welcome to the network!");
}

#[test]
fn everyone_in_the_list_is_greeted() {
    let mut participant = bob(vec![], true);
    let actions = participant.handle(&from_server(Message::ParticipantList(vec![
        Peer { name: String::from("alice"), addr: part_addr(1001) },
        Peer { name: String::from("carol"), addr: part_addr(1003) },
    ])));
    assert_eq!(
        actions,
        vec![
            ParticipantAction::Greet(
                String::from("alice"),
                part_addr(1001),
                Message::Greetings(
                    String::from("bob"),
                    String::from("Hi 'alice', I see you in the participant list")
                )
            ),
            ParticipantAction::Greet(
                String::from("carol"),
                part_addr(1003),
                Message::Greetings(
                    String::from("bob"),
                    String::from("Hi 'carol', I see you in the participant list")
                )
            ),
        ]
    );
    assert_eq!(participant.known_participants().len(), 0);
}

#[test]
fn newcomer_is_welcomed() {
    let mut participant = bob(vec![], true);
    assert_eq!(
        participant.handle(&from_server(Message::ParticipantNotificationAdded(
            String::from("dave"),
            part_addr(1004)
        ))),
        vec![ParticipantAction::Greet(
            String::from("dave"),
            part_addr(1004),
            Message::Greetings(String::from("bob"), String::from("Hi 'dave', welcome to the network!"))
        )]
    );
    assert_eq!(
        participant.discovered_participant("dave", part_addr(1004), "welcome to the network!"),
        ParticipantAction::Greet(
            String::from("dave"),
            part_addr(1004),
            Message::Greetings(String::from("bob"), String::from("Hi 'dave', welcome to the network!"))
        )
    );
}

#[test]
fn gossip_endpoint_is_kept_until_the_participant_is_removed() {
    let mut participant = bob(vec![], true);
    let opened = ParticipantEvent::GossipOpened(
        String::from("alice"),
        part_addr(1001),
        Some(Endpoint { id: 7 }),
    );
    assert_eq!(participant.handle(&opened), Vec::new());
    assert_eq!(participant.known_participants().len(), 1);
    assert_eq!(participant.known_participants().entry(0).endpoint, Endpoint { id: 7 });
    assert_eq!(
        participant.handle(&from_server(Message::ParticipantNotificationRemoved(String::from("alice")))),
        vec![ParticipantAction::Release(Endpoint { id: 7 })]
    );
    assert_eq!(participant.known_participants().len(), 0);
    // a second removal finds nothing to release
    assert_eq!(
        participant.handle(&from_server(Message::ParticipantNotificationRemoved(String::from("alice")))),
        Vec::new()
    );
}

#[test]
fn gossip_endpoint_that_could_not_be_opened_is_not_kept() {
    let mut participant = bob(vec![], true);
    let failed = ParticipantEvent::GossipOpened(String::from("alice"), part_addr(1001), None);
    assert_eq!(participant.handle(&failed), Vec::new());
    assert_eq!(participant.known_participants().len(), 0);
}

#[test]
fn newer_gossip_endpoint_takes_the_place_of_the_older() {
    let mut participant = bob(vec![], true);
    participant.gossip_opened("alice", part_addr(1001), Some(Endpoint { id: 7 }));
    assert_eq!(
        participant.gossip_opened("alice", part_addr(1009), Some(Endpoint { id: 8 })),
        vec![ParticipantAction::Release(Endpoint { id: 7 })]
    );
    assert_eq!(participant.known_participants().len(), 1);
    assert_eq!(participant.known_participants().entry(0).endpoint, Endpoint { id: 8 });
    assert_eq!(participant.known_participants().entry(0).addr, part_addr(1009));
}

#[test]
fn greetings_are_displayed() {
    let mut participant = bob(vec![], true);
    assert_eq!(
        participant.handle(&ParticipantEvent::Message(
            Endpoint { id: 7 },
            Message::Greetings(String::from("alice"), String::from("Hi 'bob', welcome"))
        )),
        vec![ParticipantAction::Display(String::from("alice"), String::from("Hi 'bob', welcome"))]
    );
}

#[test]
fn running_server_is_asked_for_its_nodes() {
    let mut participant = bob(vec![], true);
    assert_eq!(
        participant.handle(&from_server(Message::ServerStatus(Status::Running))),
        vec![ParticipantAction::Send(SERVER, Message::GetNodes)]
    );
}

#[test]
fn server_that_is_not_ready_is_asked_again_later() {
    let mut participant = bob(vec![], true);
    for status in [Status::Starting, Status::Indexing, Status::Stopping] {
        assert_eq!(
            participant.handle(&from_server(Message::ServerStatus(status))),
            vec![ParticipantAction::Retry(SERVER, Message::GetStatus)]
        );
    }
}

#[test]
fn reconciliation_goes_through_the_remote_keys() {
    let mut participant = bob(vec![("/B/both", 1, 1), ("/B/mine", 1, 1)], true);
    let mut remote = Index::new();
    remote.insert(remote_file("both", 1));
    remote.insert(remote_file("sub/theirs", 1));
    let expected = vec![
        ParticipantAction::Present(String::from("both"), String::from("both")),
        ParticipantAction::Missing(String::from("sub/theirs")),
    ];
    assert_eq!(participant.reconcile(&remote), expected);
    assert_eq!(participant.handle(&from_server(Message::NodeList(remote))), expected);
}

#[test]
fn every_change_is_asked_for() {
    let mut participant = bob(vec![], true);
    let changes = vec![
        added(remote_file("a", 3)),
        Change { change_type: ChangeType::Modified, node: remote_file("sub/b", 3) },
        Change { change_type: ChangeType::Deleted, node: remote_file("c", 3) },
    ];
    assert_eq!(
        participant.handle(&from_server(Message::Changeset(changes))),
        vec![
            ParticipantAction::Send(SERVER, Message::SendMe(String::from("a"))),
            ParticipantAction::Send(SERVER, Message::SendMe(String::from("sub/b"))),
            ParticipantAction::Send(SERVER, Message::SendMe(String::from("c"))),
        ]
    );
}

#[test]
fn chunks_are_written_to_the_expected_file() {
    let mut participant = bob(vec![], true);
    participant.handle(&from_server(Message::Changeset(vec![added(remote_file("f1", 5))])));
    assert_eq!(
        participant.handle(&from_server(Message::Chunk(vec![1, 2, 3]))),
        vec![
            ParticipantAction::Create(String::from("f1"), String::from("/B/f1")),
            ParticipantAction::Write(String::from("f1"), vec![1, 2, 3]),
        ]
    );
    assert_eq!(
        participant.handle(&from_server(Message::Chunk(vec![4, 5]))),
        vec![
            ParticipantAction::Write(String::from("f1"), vec![4, 5]),
            ParticipantAction::Close(String::from("f1")),
        ]
    );
    // nothing more is expected
    assert_eq!(participant.handle(&from_server(Message::Chunk(vec![6]))), Vec::new());
}

#[test]
fn files_arrive_in_the_order_in_which_they_were_asked_for() {
    let mut participant = bob(vec![], true);
    let dir = Node {
        is_dir: true,
        is_file: false,
        ..remote_file("d", 4096)
    };
    participant.handle(&from_server(Message::Changeset(vec![
        added(dir),
        added(remote_file("empty", 0)),
        Change { change_type: ChangeType::Deleted, node: remote_file("gone", 9) },
        added(remote_file("one", 1)),
        Change { change_type: ChangeType::Modified, node: remote_file("two", 2) },
    ])));
    assert_eq!(
        participant.handle(&from_server(Message::Chunk(vec![1]))),
        vec![
            ParticipantAction::Create(String::from("one"), String::from("/B/one")),
            ParticipantAction::Write(String::from("one"), vec![1]),
            ParticipantAction::Close(String::from("one")),
        ]
    );
    assert_eq!(
        participant.handle(&from_server(Message::Chunk(vec![2, 2]))),
        vec![
            ParticipantAction::Create(String::from("two"), String::from("/B/two")),
            ParticipantAction::Write(String::from("two"), vec![2, 2]),
            ParticipantAction::Close(String::from("two")),
        ]
    );
}

#[test]
fn file_whose_key_leaves_the_root_is_never_written() {
    let mut participant = bob(vec![], true);
    let mut outside = remote_file("x", 3);
    outside.relative_path = String::from("../x");
    assert_eq!(
        participant.handle(&from_server(Message::Changeset(vec![added(outside)]))),
        vec![ParticipantAction::Send(SERVER, Message::SendMe(String::from("../x")))]
    );
    assert_eq!(participant.handle(&from_server(Message::Chunk(vec![1, 2, 3]))), Vec::new());
}

#[test]
fn chunk_with_too_many_bytes_ends_the_file() {
    let mut participant = bob(vec![], true);
    participant.handle(&from_server(Message::Changeset(vec![added(remote_file("f1", 2))])));
    assert_eq!(
        participant.handle(&from_server(Message::Chunk(vec![1, 2, 3]))),
        vec![
            ParticipantAction::Create(String::from("f1"), String::from("/B/f1")),
            ParticipantAction::Close(String::from("f1")),
        ]
    );
    assert_eq!(participant.handle(&from_server(Message::Chunk(vec![1]))), Vec::new());
}

#[test]
fn chunks_from_others_than_the_server_are_dropped() {
    let mut participant = bob(vec![], true);
    participant.handle(&from_server(Message::Changeset(vec![added(remote_file("f1", 2))])));
    assert_eq!(
        participant.handle(&ParticipantEvent::Message(Endpoint { id: 9 }, Message::Chunk(vec![1, 2]))),
        Vec::new()
    );
}

#[test]
fn loss_of_the_server_ends_the_session() {
    let mut participant = bob(vec![], true);
    assert_eq!(
        participant.handle(&ParticipantEvent::RemovedEndpoint(Endpoint { id: 9 })),
        Vec::new()
    );
    assert_eq!(participant.status(), Status::Running);
    assert_eq!(
        participant.handle(&ParticipantEvent::RemovedEndpoint(SERVER)),
        vec![ParticipantAction::Terminate]
    );
    assert_eq!(participant.status(), Status::Stopping);
}

#[test]
fn loss_of_the_server_closes_the_file_that_is_arriving() {
    let mut participant = bob(vec![], true);
    participant.handle(&from_server(Message::Changeset(vec![added(remote_file("f1", 5))])));
    participant.handle(&from_server(Message::Chunk(vec![1])));
    assert_eq!(
        participant.remove_endpoint(SERVER),
        vec![ParticipantAction::Close(String::from("f1")), ParticipantAction::Terminate]
    );
}

#[test]
fn other_events_change_nothing() {
    let mut participant = bob(vec![], true);
    assert_eq!(participant.handle(&ParticipantEvent::AddedEndpoint(Endpoint { id: 3 })), Vec::new());
    assert_eq!(participant.handle(&ParticipantEvent::DeserializationError(SERVER)), Vec::new());
    for message in [
        Message::RegisterParticipant(String::from("x"), part_addr(1)),
        Message::UnregisterParticipant(String::from("x")),
        Message::GetStatus,
        Message::GetNodes,
        Message::GetChangeset(Index::new()),
        Message::SendMe(String::from("f")),
        Message::FileRequest(String::from("f"), 1),
        Message::CanReceive(true),
    ] {
        assert_eq!(participant.handle(&from_server(message)), Vec::new());
    }
    assert_eq!(participant.status(), Status::Running);
}

#[test]
fn participant_run_handles_the_events_in_turn() {
    let mut participant = bob(vec![], true);
    let actions = participant.run(&vec![
        from_server(Message::ServerStatus(Status::Indexing)),
        from_server(Message::ServerStatus(Status::Running)),
        ParticipantEvent::RemovedEndpoint(SERVER),
    ]);
    assert_eq!(
        actions,
        vec![
            ParticipantAction::Retry(SERVER, Message::GetStatus),
            ParticipantAction::Send(SERVER, Message::GetNodes),
            ParticipantAction::Terminate,
        ]
    );
}
