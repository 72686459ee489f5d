use runison::message::{Endpoint, Peer, SocketAddress};
use runison::registry::{ParticipantInfo, Registry};
use runison::transfer::Transfer;

fn info(name: &str, port: u16, endpoint: u64) -> ParticipantInfo {
    ParticipantInfo {
        name: String::from(name),
        addr: SocketAddress::V4(0x7f00_0001, port),
        endpoint: Endpoint { id: endpoint },
    }
}

fn names(registry: &Registry) -> Vec<String> {
    let mut names = Vec::new();
    let mut i = 0;
    while i < registry.len() {
        names.push(registry.entry(i).name.clone());
        i += 1;
    }
    names
}

#[test]
fn registry_keeps_names_unique() {
    let mut registry = Registry::new();
    assert!(registry.add(info("alice", 1, 1)));
    assert!(registry.add(info("bob", 2, 2)));
    assert!(!registry.add(info("alice", 3, 3)));
    assert_eq!(registry.len(), 2);
    assert_eq!(registry.entry(0), &info("alice", 1, 1));
    assert!(registry.contains("alice"));
    assert!(!registry.contains("carol"));
    assert_eq!(registry.find("bob"), Some(1));
    assert_eq!(registry.find("carol"), None);
}

#[test]
fn registry_removes_by_name() {
    let mut registry = Registry::new();
    registry.add(info("alice", 1, 1));
    registry.add(info("bob", 2, 2));
    registry.add(info("carol", 3, 3));
    assert_eq!(registry.remove("bob"), Some(info("bob", 2, 2)));
    assert_eq!(registry.remove("bob"), None);
    assert_eq!(names(&registry), vec!["alice", "carol"]);
}

#[test]
fn registry_removes_by_endpoint() {
    let mut registry = Registry::new();
    registry.add(info("alice", 1, 7));
    registry.add(info("bob", 2, 8));
    registry.add(info("carol", 3, 7));
    let gone = registry.remove_endpoint(Endpoint { id: 7 });
    assert_eq!(gone, vec![info("alice", 1, 7), info("carol", 3, 7)]);
    assert_eq!(names(&registry), vec!["bob"]);
    assert_eq!(registry.remove_endpoint(Endpoint { id: 7 }), Vec::new());
}

#[test]
fn registry_announces_names_and_addresses() {
    let mut registry = Registry::new();
    registry.add(info("alice", 1, 7));
    registry.add(info("bob", 2, 8));
    assert_eq!(
        registry.peers(),
        vec![
            Peer { name: String::from("alice"), addr: SocketAddress::V4(0x7f00_0001, 1) },
            Peer { name: String::from("bob"), addr: SocketAddress::V4(0x7f00_0001, 2) },
        ]
    );
}

#[test]
fn transfer_counts_bytes_up_to_its_size() {
    let mut transfer = Transfer::new(Endpoint { id: 1 }, String::from("f1"), 65537);
    assert_eq!(transfer.endpoint(), Endpoint { id: 1 });
    assert_eq!(transfer.name(), "f1");
    assert_eq!((transfer.current_size(), transfer.expected_size()), (0, 65537));
    assert!(!transfer.is_complete());
    assert_eq!(transfer.next_len(), 65536);
    assert!(transfer.advance(65536));
    assert_eq!(transfer.next_len(), 1);
    assert!(!transfer.advance(2));
    assert_eq!(transfer.current_size(), 65536);
    assert!(transfer.advance(1));
    assert!(transfer.is_complete());
    assert_eq!(transfer.next_len(), 0);
    assert!(transfer.advance(0));
    assert!(!transfer.advance(1));
    assert_eq!(transfer.clone(), transfer);
}

#[test]
fn transfer_of_an_empty_file_is_complete_at_once() {
    let transfer = Transfer::new(Endpoint { id: 1 }, String::from("empty"), 0);
    assert!(transfer.is_complete());
    assert_eq!(transfer.next_len(), 0);
}
