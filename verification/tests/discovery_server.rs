use runison::config::{Config, Ignore, Path, Root};
use runison::diff::{Change, ChangeType};
use runison::error::Error;
use runison::index::Index;
use runison::message::{Endpoint, Message, Peer, SocketAddress};
use runison::node::{Metadata, Node};
use runison::discovery_server::{DiscoveryServer, ServerAction, ServerEvent};
use runison::synchronizer::{Rename, Status, Walked};

fn server_config() -> Config {
    Config {
        root: Root { path: String::from("/A") },
        path: Path { directories: Vec::new() },
        ignore: Ignore { name: Vec::new(), path: Vec::new() },
    }
}

fn server_meta(len: u64, secs: u64) -> Metadata {
    Metadata {
        is_dir: false,
        is_file: true,
        is_symlink: false,
        len,
        mod_seconds: secs,
        mod_nano: 0,
        inode: 1,
    }
}

fn running_server(files: Vec<(&str, u64, u64)>) -> DiscoveryServer {
    let mut server = DiscoveryServer::new(server_config(), 0, false).unwrap();
    server.begin_indexing();
    let walked: Vec<Walked> = files
        .into_iter()
        .map(|(path, len, secs)| Walked { path: String::from(path), meta: Some(server_meta(len, secs)) })
        .collect();
    server.finish_indexing(true, &walked);
    server
}

fn ep(id: u64) -> Endpoint {
    Endpoint { id }
}

fn addr(port: u16) -> SocketAddress {
    SocketAddress::V4(0x7f00_0001, port)
}

fn register(server: &mut DiscoveryServer, endpoint: u64, name: &str, port: u16) -> Vec<ServerAction> {
    server.handle(&ServerEvent::Message(
        ep(endpoint),
        Message::RegisterParticipant(String::from(name), addr(port)),
    ))
}

fn registered_names(server: &DiscoveryServer) -> Vec<String> {
    let registry = server.participants();
    let mut names = Vec::new();
    let mut i = 0;
    while i < registry.len() {
        names.push(registry.entry(i).name.clone());
        i += 1;
    }
    names
}

fn chunk_sizes(actions: &Vec<ServerAction>) -> Vec<usize> {
    let mut sizes = Vec::new();
    for action in actions {
        if let ServerAction::Send(_, Message::Chunk(data)) = action {
            sizes.push(data.len());
        }
    }
    sizes
}

/// Plays the transfer of `file` to its end, reading from `content` as the
/// caller of the server would.
fn stream(server: &mut DiscoveryServer, endpoint: u64, file: &str, content: &[u8]) -> Vec<ServerAction> {
    let mut sent = Vec::new();
    let mut offset = 0usize;
    let mut due = vec![ServerEvent::SendChunk(ep(endpoint), String::from(file))];
    while let Some(event) = due.pop() {
        for action in server.handle(&event) {
            match action {
                ServerAction::Read(e, name, len) => {
                    let end = (offset + len as usize).min(content.len());
                    due.push(ServerEvent::ChunkRead(e, name, content[offset..end].to_vec()));
                    offset = end;
                }
                ServerAction::Enqueue(e, name) => {
                    sent.push(ServerAction::Enqueue(e, name.clone()));
                    due.push(ServerEvent::SendChunk(e, name));
                }
                other => sent.push(other),
            }
        }
    }
    sent
}

#[test]
fn new_server_is_starting() {
    let server = DiscoveryServer::new(server_config(), 3, true).unwrap();
    assert_eq!(server.status(), Status::Starting);
    assert_eq!(server.verbosity(), 3);
    assert!(server.debug());
    assert_eq!(server.participants().len(), 0);
    assert_eq!(server.outbound().len(), 0);
    assert_eq!(server.synchronizer().entries().len(), 0);
}

#[test]
fn no_server_for_an_invalid_config() {
    let mut config = server_config();
    config.ignore.name.push(String::from("[x"));
    assert!(DiscoveryServer::new(config, 0, false).is_none());
}

#[test]
fn server_goes_from_starting_through_indexing_to_running() {
    let mut server = DiscoveryServer::new(server_config(), 0, false).unwrap();
    let rename = server.begin_indexing();
    assert_eq!(
        rename,
        Some(Rename {
            from: String::from("/A/.runison-current"),
            to: String::from("/A/.runison-previous"),
        })
    );
    assert_eq!(server.status(), Status::Indexing);
    let snapshot = server.finish_indexing(
        false,
        &vec![Walked { path: String::from("/A/f1"), meta: Some(server_meta(10, 100)) }],
    );
    assert_eq!(server.status(), Status::Running);
    assert!(server.synchronizer().first_run());
    assert_eq!(snapshot, server.synchronizer().snapshot());
    server.stop();
    assert_eq!(server.status(), Status::Stopping);
}

#[test]
fn first_registration_gets_an_empty_list() {
    let mut server = running_server(vec![]);
    assert_eq!(
        register(&mut server, 1, "alice", 1001),
        vec![ServerAction::Send(ep(1), Message::ParticipantList(Vec::new()))]
    );
    assert_eq!(registered_names(&server), vec!["alice"]);
}

#[test]
fn registration_tells_the_newcomer_and_everyone_else() {
    let mut server = running_server(vec![]);
    register(&mut server, 1, "alice", 1001);
    register(&mut server, 2, "bob", 1002);
    assert_eq!(
        register(&mut server, 3, "carol", 1003),
        vec![
            ServerAction::Send(
                ep(3),
                Message::ParticipantList(vec![
                    Peer { name: String::from("alice"), addr: addr(1001) },
                    Peer { name: String::from("bob"), addr: addr(1002) },
                ])
            ),
            ServerAction::Send(
                ep(1),
                Message::ParticipantNotificationAdded(String::from("carol"), addr(1003))
            ),
            ServerAction::Send(
                ep(2),
                Message::ParticipantNotificationAdded(String::from("carol"), addr(1003))
            ),
        ]
    );
    assert_eq!(registered_names(&server), vec!["alice", "bob", "carol"]);
}

#[test]
fn duplicate_registration_is_rejected() {
    let mut server = running_server(vec![]);
    register(&mut server, 1, "alice", 1001);
    let actions = register(&mut server, 2, "alice", 1002);
    assert_eq!(actions, vec![ServerAction::Reject(Error::DuplicateName)]);
    assert_eq!(server.participants().len(), 1);
    assert_eq!(server.participants().entry(0).endpoint, ep(1));
    assert_eq!(server.participants().entry(0).addr, addr(1001));
}

#[test]
fn unregistration_tells_everyone_who_is_left() {
    let mut server = running_server(vec![]);
    register(&mut server, 1, "alice", 1001);
    register(&mut server, 2, "bob", 1002);
    register(&mut server, 3, "carol", 1003);
    let actions = server.handle(&ServerEvent::Message(
        ep(2),
        Message::UnregisterParticipant(String::from("bob")),
    ));
    assert_eq!(
        actions,
        vec![
            ServerAction::Send(ep(1), Message::ParticipantNotificationRemoved(String::from("bob"))),
            ServerAction::Send(ep(3), Message::ParticipantNotificationRemoved(String::from("bob"))),
        ]
    );
    assert_eq!(registered_names(&server), vec!["alice", "carol"]);
}

#[test]
fn unknown_name_is_ignored_on_unregistration() {
    let mut server = running_server(vec![]);
    register(&mut server, 1, "alice", 1001);
    let actions = server.handle(&ServerEvent::Message(
        ep(9),
        Message::UnregisterParticipant(String::from("nobody")),
    ));
    assert_eq!(actions, Vec::new());
    assert_eq!(registered_names(&server), vec!["alice"]);
}

#[test]
fn name_is_free_again_after_unregistration() {
    let mut server = running_server(vec![]);
    register(&mut server, 1, "alice", 1001);
    server.unregister("alice");
    assert_eq!(
        server.register("alice", addr(1002), ep(2)),
        vec![ServerAction::Send(ep(2), Message::ParticipantList(Vec::new()))]
    );
}

#[test]
fn status_is_reported_in_every_state() {
    let mut server = DiscoveryServer::new(server_config(), 0, false).unwrap();
    let ask = ServerEvent::Message(ep(1), Message::GetStatus);
    assert_eq!(
        server.handle(&ask),
        vec![ServerAction::Send(ep(1), Message::ServerStatus(Status::Starting))]
    );
    server.begin_indexing();
    assert_eq!(
        server.handle(&ask),
        vec![ServerAction::Send(ep(1), Message::ServerStatus(Status::Indexing))]
    );
    server.finish_indexing(true, &Vec::new());
    assert_eq!(
        server.handle(&ask),
        vec![ServerAction::Send(ep(1), Message::ServerStatus(Status::Running))]
    );
}

#[test]
fn nodes_and_change_sets_wait_for_the_index() {
    let mut server = DiscoveryServer::new(server_config(), 0, false).unwrap();
    server.begin_indexing();
    let busy = vec![ServerAction::Send(ep(1), Message::ServerStatus(Status::Indexing))];
    assert_eq!(server.handle(&ServerEvent::Message(ep(1), Message::GetNodes)), busy);
    assert_eq!(
        server.handle(&ServerEvent::Message(ep(1), Message::GetChangeset(Index::new()))),
        busy
    );
}

#[test]
fn running_server_serves_its_nodes() {
    let mut server = running_server(vec![("/A/f1", 10, 100)]);
    let actions = server.handle(&ServerEvent::Message(ep(1), Message::GetNodes));
    assert_eq!(
        actions,
        vec![ServerAction::Send(ep(1), Message::NodeList(server.synchronizer().entries().clone()))]
    );
}

#[test]
fn change_set_is_sent_unless_it_is_empty() {
    let mut server = running_server(vec![("/A/f1", 10, 100)]);
    let f1 = Node::from_path("/A", "f1", &server_meta(10, 100)).unwrap();
    assert_eq!(
        server.handle(&ServerEvent::Message(ep(1), Message::GetChangeset(Index::new()))),
        vec![ServerAction::Send(
            ep(1),
            Message::Changeset(vec![Change { change_type: ChangeType::Added, node: f1.clone() }])
        )]
    );
    let mut same = Index::new();
    same.insert(f1);
    assert_eq!(
        server.handle(&ServerEvent::Message(ep(1), Message::GetChangeset(same))),
        Vec::new()
    );
}

#[test]
fn send_me_opens_the_file_under_the_root() {
    let mut server = running_server(vec![]);
    assert_eq!(
        server.handle(&ServerEvent::Message(ep(1), Message::SendMe(String::from("sub/f1")))),
        vec![ServerAction::Open(ep(1), String::from("sub/f1"), String::from("/A/sub/f1"))]
    );
    assert_eq!(server.outbound().len(), 0);
}

#[test]
fn send_me_never_leaves_the_root() {
    let mut server = running_server(vec![]);
    for key in ["../secret", "sub/../../secret", "/etc/passwd", "..", "", "/A"] {
        assert_eq!(
            server.handle(&ServerEvent::Message(ep(1), Message::SendMe(String::from(key)))),
            Vec::new()
        );
    }
    assert_eq!(
        server.handle(&ServerEvent::Message(ep(1), Message::SendMe(String::from("a..b/c")))),
        vec![ServerAction::Open(ep(1), String::from("a..b/c"), String::from("/A/a..b/c"))]
    );
}

#[test]
fn file_that_cannot_be_opened_is_dropped_in_silence() {
    let mut server = running_server(vec![]);
    assert_eq!(
        server.handle(&ServerEvent::FileOpened(ep(1), String::from("f1"), None)),
        Vec::new()
    );
    assert_eq!(server.outbound().len(), 0);
}

#[test]
fn directory_is_no_transfer() {
    let mut server = running_server(vec![]);
    let dir = Metadata { is_dir: true, is_file: false, ..server_meta(4096, 1) };
    assert_eq!(
        server.handle(&ServerEvent::FileOpened(ep(1), String::from("d"), Some(dir))),
        vec![ServerAction::Close(ep(1), String::from("d"))]
    );
    assert_eq!(server.outbound().len(), 0);
}

#[test]
fn opened_file_becomes_a_transfer() {
    let mut server = running_server(vec![]);
    assert_eq!(
        server.handle(&ServerEvent::FileOpened(ep(1), String::from("f1"), Some(server_meta(10, 1)))),
        vec![ServerAction::Enqueue(ep(1), String::from("f1"))]
    );
    assert_eq!(server.outbound().len(), 1);
    let transfer = &server.outbound()[0];
    assert_eq!(transfer.endpoint(), ep(1));
    assert_eq!(transfer.name(), "f1");
    assert_eq!((transfer.current_size(), transfer.expected_size()), (0, 10));
}

#[test]
fn chunk_boundary() {
    let mut server = running_server(vec![]);
    let content = vec![7u8; 65537];
    server.handle(&ServerEvent::FileOpened(ep(1), String::from("big"), Some(server_meta(65537, 1))));
    let sent = stream(&mut server, 1, "big", &content);
    assert_eq!(chunk_sizes(&sent), vec![65536, 1]);
    assert_eq!(sent.last(), Some(&ServerAction::Close(ep(1), String::from("big"))));
    assert_eq!(server.outbound().len(), 0);
}

#[test]
fn chunks_put_together_are_the_file() {
    let mut server = running_server(vec![]);
    let content: Vec<u8> = (0..200_000u32).map(|i| (i % 251) as u8).collect();
    server.handle(&ServerEvent::FileOpened(
        ep(1),
        String::from("f"),
        Some(server_meta(content.len() as u64, 1)),
    ));
    let sent = stream(&mut server, 1, "f", &content);
    let mut received: Vec<u8> = Vec::new();
    for action in &sent {
        if let ServerAction::Send(to, Message::Chunk(data)) = action {
            assert_eq!(*to, ep(1));
            received.extend_from_slice(data);
        }
    }
    assert_eq!(received, content);
    assert_eq!(chunk_sizes(&sent), vec![65536, 65536, 65536, 200_000 - 3 * 65536]);
}

#[test]
fn one_turn_reads_one_chunk() {
    let mut server = running_server(vec![]);
    server.handle(&ServerEvent::FileOpened(ep(1), String::from("f"), Some(server_meta(70_000, 1))));
    assert_eq!(
        server.handle(&ServerEvent::SendChunk(ep(1), String::from("f"))),
        vec![ServerAction::Read(ep(1), String::from("f"), 65536)]
    );
    assert_eq!(
        server.handle(&ServerEvent::ChunkRead(ep(1), String::from("f"), vec![1; 65536])),
        vec![
            ServerAction::Send(ep(1), Message::Chunk(vec![1; 65536])),
            ServerAction::Enqueue(ep(1), String::from("f")),
        ]
    );
    assert_eq!(server.outbound()[0].current_size(), 65536);
    assert_eq!(
        server.handle(&ServerEvent::SendChunk(ep(1), String::from("f"))),
        vec![ServerAction::Read(ep(1), String::from("f"), 70_000 - 65536)]
    );
}

#[test]
fn empty_file_is_complete_without_a_chunk() {
    let mut server = running_server(vec![]);
    server.handle(&ServerEvent::FileOpened(ep(1), String::from("e"), Some(server_meta(0, 1))));
    assert_eq!(
        server.handle(&ServerEvent::SendChunk(ep(1), String::from("e"))),
        vec![ServerAction::Close(ep(1), String::from("e"))]
    );
    assert_eq!(server.outbound().len(), 0);
}

#[test]
fn end_of_file_ends_the_transfer() {
    let mut server = running_server(vec![]);
    server.handle(&ServerEvent::FileOpened(ep(1), String::from("f"), Some(server_meta(10, 1))));
    assert_eq!(
        server.handle(&ServerEvent::ChunkRead(ep(1), String::from("f"), Vec::new())),
        vec![ServerAction::Close(ep(1), String::from("f"))]
    );
    assert_eq!(server.outbound().len(), 0);
}

#[test]
fn more_bytes_than_asked_for_end_the_transfer() {
    let mut server = running_server(vec![]);
    server.handle(&ServerEvent::FileOpened(ep(1), String::from("f"), Some(server_meta(10, 1))));
    assert_eq!(
        server.handle(&ServerEvent::ChunkRead(ep(1), String::from("f"), vec![0; 11])),
        vec![ServerAction::Close(ep(1), String::from("f"))]
    );
    assert_eq!(server.outbound().len(), 0);
}

#[test]
fn chunk_events_without_a_transfer_do_nothing() {
    let mut server = running_server(vec![]);
    assert_eq!(server.handle(&ServerEvent::SendChunk(ep(1), String::from("f"))), Vec::new());
    assert_eq!(
        server.handle(&ServerEvent::ChunkRead(ep(1), String::from("f"), vec![1])),
        Vec::new()
    );
    // a transfer to another endpoint or of another name does not match
    server.handle(&ServerEvent::FileOpened(ep(1), String::from("f"), Some(server_meta(10, 1))));
    assert_eq!(server.handle(&ServerEvent::SendChunk(ep(2), String::from("f"))), Vec::new());
    assert_eq!(server.handle(&ServerEvent::SendChunk(ep(1), String::from("g"))), Vec::new());
}

#[test]
fn transfers_to_different_endpoints_do_not_disturb_each_other() {
    let mut server = running_server(vec![]);
    server.handle(&ServerEvent::FileOpened(ep(1), String::from("f"), Some(server_meta(3, 1))));
    server.handle(&ServerEvent::FileOpened(ep(2), String::from("f"), Some(server_meta(5, 1))));
    server.handle(&ServerEvent::ChunkRead(ep(2), String::from("f"), vec![9; 5]));
    assert_eq!(server.outbound()[0].current_size(), 0);
    assert_eq!(server.outbound()[1].current_size(), 5);
    assert_eq!(
        server.handle(&ServerEvent::SendChunk(ep(2), String::from("f"))),
        vec![ServerAction::Close(ep(2), String::from("f"))]
    );
    assert_eq!(server.outbound().len(), 1);
    assert_eq!(server.outbound()[0].endpoint(), ep(1));
}

#[test]
fn lost_endpoint_is_cleaned_up() {
    let mut server = running_server(vec![]);
    register(&mut server, 1, "alice", 1001);
    register(&mut server, 2, "bob", 1002);
    register(&mut server, 1, "alias", 1003);
    server.handle(&ServerEvent::FileOpened(ep(1), String::from("f"), Some(server_meta(10, 1))));
    server.handle(&ServerEvent::FileOpened(ep(2), String::from("g"), Some(server_meta(10, 1))));
    server.handle(&ServerEvent::FileOpened(ep(1), String::from("h"), Some(server_meta(10, 1))));
    let actions = server.handle(&ServerEvent::RemovedEndpoint(ep(1)));
    assert_eq!(
        actions,
        vec![
            ServerAction::Send(ep(2), Message::ParticipantNotificationRemoved(String::from("alice"))),
            ServerAction::Send(ep(2), Message::ParticipantNotificationRemoved(String::from("alias"))),
            ServerAction::Close(ep(1), String::from("f")),
            ServerAction::Close(ep(1), String::from("h")),
        ]
    );
    assert_eq!(registered_names(&server), vec!["bob"]);
    assert_eq!(server.outbound().len(), 1);
    assert_eq!(server.outbound()[0].endpoint(), ep(2));
}

#[test]
fn loss_of_an_unknown_endpoint_changes_nothing() {
    let mut server = running_server(vec![]);
    register(&mut server, 1, "alice", 1001);
    assert_eq!(server.handle(&ServerEvent::RemovedEndpoint(ep(5))), Vec::new());
    assert_eq!(registered_names(&server), vec!["alice"]);
}

#[test]
fn deserialization_error_keeps_the_connection() {
    let mut server = running_server(vec![]);
    register(&mut server, 1, "alice", 1001);
    assert_eq!(server.handle(&ServerEvent::DeserializationError(ep(1))), Vec::new());
    assert_eq!(server.handle(&ServerEvent::AddedEndpoint(ep(2))), Vec::new());
    assert_eq!(registered_names(&server), vec!["alice"]);
}

#[test]
fn messages_for_participants_are_ignored_by_the_server() {
    let mut server = running_server(vec![]);
    for message in [
        Message::ParticipantList(Vec::new()),
        Message::ParticipantNotificationAdded(String::from("x"), addr(1)),
        Message::ParticipantNotificationRemoved(String::from("x")),
        Message::ServerStatus(Status::Running),
        Message::NodeList(Index::new()),
        Message::Changeset(Vec::new()),
        Message::FileRequest(String::from("f"), 1),
        Message::Chunk(vec![1]),
        Message::CanReceive(true),
        Message::Greetings(String::from("a"), String::from("b")),
    ] {
        assert_eq!(server.handle(&ServerEvent::Message(ep(1), message)), Vec::new());
    }
}

#[test]
fn run_handles_the_events_in_turn() {
    let mut server = running_server(vec![]);
    let actions = server.run(&vec![
        ServerEvent::Message(ep(1), Message::RegisterParticipant(String::from("alice"), addr(1))),
        ServerEvent::Message(ep(2), Message::RegisterParticipant(String::from("alice"), addr(2))),
        ServerEvent::Message(ep(2), Message::GetStatus),
    ]);
    assert_eq!(
        actions,
        vec![
            ServerAction::Send(ep(1), Message::ParticipantList(Vec::new())),
            ServerAction::Reject(Error::DuplicateName),
            ServerAction::Send(ep(2), Message::ServerStatus(Status::Running)),
        ]
    );
}
