use runison::diff::{Change, ChangeType};
use runison::error::Error;
use runison::frame::{
    decode_frame, decode_message, encode_frame, encode_message, FrameBuffer, MAX_FRAME_LEN,
};
use runison::index::Index;
use runison::message::{Message, Peer, SocketAddress, CHUNK_SIZE};
use runison::node::Node;
use runison::synchronizer::Status;

fn frame_file(key: &str) -> Node {
    Node {
        is_dir: false,
        is_file: true,
        is_symlink: false,
        name: String::from(key),
        path: format!("/A/{}", key),
        relative_path: String::from(key),
        len: 3,
        mod_seconds: 100,
        mod_nano: 7,
        inode: 9,
    }
}

fn frame_tree() -> Index {
    let mut index = Index::new();
    index.insert(frame_file("b"));
    index.insert(frame_file("a"));
    index
}

fn every_message() -> Vec<Message> {
    vec![
        Message::RegisterParticipant(String::from("alice"), SocketAddress::V4(0x7f00_0001, 5150)),
        Message::RegisterParticipant(String::from("bob"), SocketAddress::V6(1, 65535)),
        Message::UnregisterParticipant(String::from("alice")),
        Message::GetStatus,
        Message::GetNodes,
        Message::GetChangeset(frame_tree()),
        Message::GetChangeset(Index::new()),
        Message::SendMe(String::from("sub/f1")),
        Message::ParticipantList(vec![
            Peer { name: String::from("alice"), addr: SocketAddress::V4(1, 2) },
            Peer { name: String::from("bob"), addr: SocketAddress::V6(u128::MAX, 0) },
        ]),
        Message::ParticipantList(Vec::new()),
        Message::ParticipantNotificationAdded(String::from("carol"), SocketAddress::V4(3, 4)),
        Message::ParticipantNotificationRemoved(String::from("carol")),
        Message::ServerStatus(Status::Starting),
        Message::ServerStatus(Status::Indexing),
        Message::ServerStatus(Status::Running),
        Message::ServerStatus(Status::Stopping),
        Message::NodeList(frame_tree()),
        Message::Changeset(vec![
            Change { change_type: ChangeType::Added, node: frame_file("a") },
            Change { change_type: ChangeType::Modified, node: frame_file("b") },
            Change { change_type: ChangeType::Deleted, node: frame_file("c") },
        ]),
        Message::FileRequest(String::from("f1"), u64::MAX),
        Message::Chunk(vec![1, 2, 3]),
        Message::Chunk(Vec::new()),
        Message::Chunk(vec![0xab; CHUNK_SIZE]),
        Message::CanReceive(true),
        Message::CanReceive(false),
        Message::Greetings(String::from("alice"), String::from("Hi 'bob', welcome")),
    ]
}

#[test]
fn message_bytes_are_tag_and_payload() {
    assert_eq!(encode_message(&Message::GetStatus), vec![2]);
    assert_eq!(encode_message(&Message::GetNodes), vec![3]);
    assert_eq!(encode_message(&Message::CanReceive(true)), vec![14, 1]);
    assert_eq!(encode_message(&Message::ServerStatus(Status::Running)), vec![9, 2]);
    assert_eq!(
        encode_message(&Message::SendMe(String::from("f1"))),
        vec![5, 2, 0, 0, 0, 0, 0, 0, 0, b'f', b'1']
    );
    assert_eq!(
        encode_message(&Message::RegisterParticipant(
            String::from("al"),
            SocketAddress::V4(0x7f00_0001, 0x141e)
        )),
        vec![0, 2, 0, 0, 0, 0, 0, 0, 0, b'a', b'l', 4, 1, 0, 0, 0x7f, 0x1e, 0x14]
    );
    assert_eq!(
        encode_message(&Message::Chunk(vec![9, 8])),
        vec![13, 2, 0, 0, 0, 0, 0, 0, 0, 9, 8]
    );
    assert_eq!(
        encode_message(&Message::FileRequest(String::from("f"), 0x0102)),
        vec![12, 1, 0, 0, 0, 0, 0, 0, 0, b'f', 2, 1, 0, 0, 0, 0, 0, 0]
    );
}

#[test]
fn every_message_comes_back_from_its_bytes() {
    for message in every_message() {
        let bytes = encode_message(&message);
        assert_eq!(decode_message(&bytes), Ok(message));
    }
}

#[test]
fn copy_of_a_message_is_the_same_message() {
    for message in every_message() {
        assert_eq!(message.clone(), message);
    }
}

#[test]
fn unknown_tag_is_rejected() {
    assert_eq!(decode_message(&[16]), Err(Error::DeserializationError));
    assert_eq!(decode_message(&[255, 0, 0]), Err(Error::DeserializationError));
    assert_eq!(decode_message(&[]), Err(Error::DeserializationError));
}

#[test]
fn trailing_and_missing_bytes_are_rejected() {
    for message in every_message() {
        let mut bytes = encode_message(&message);
        bytes.push(0);
        assert_eq!(decode_message(&bytes), Err(Error::DeserializationError));
        bytes.pop();
        if bytes.len() > 1 {
            bytes.pop();
            assert_eq!(decode_message(&bytes), Err(Error::DeserializationError));
        }
    }
}

#[test]
fn chunk_beyond_its_limit_is_rejected() {
    let bytes = encode_message(&Message::Chunk(vec![0; CHUNK_SIZE + 1]));
    assert_eq!(decode_message(&bytes), Err(Error::DeserializationError));
    assert_eq!(CHUNK_SIZE, 65536);
}

#[test]
fn malformed_payloads_are_rejected() {
    assert_eq!(decode_message(&[9, 4]), Err(Error::DeserializationError)); // no such status
    assert_eq!(decode_message(&[14, 2]), Err(Error::DeserializationError)); // no such bool
    // no such address family
    assert_eq!(
        decode_message(&[0, 0, 0, 0, 0, 0, 0, 0, 0, 5, 0, 0, 0, 0, 0, 0]),
        Err(Error::DeserializationError)
    );
    // no such kind of change
    let mut changes = encode_message(&Message::Changeset(vec![Change {
        change_type: ChangeType::Added,
        node: frame_file("a"),
    }]));
    changes[9] = 3;
    assert_eq!(decode_message(&changes), Err(Error::DeserializationError));
    // a name that is not UTF-8
    assert_eq!(
        decode_message(&[1, 1, 0, 0, 0, 0, 0, 0, 0, 0xff]),
        Err(Error::DeserializationError)
    );
}

#[test]
fn frame_is_length_then_message() {
    let frame = encode_frame(&Message::SendMe(String::from("f1"))).unwrap();
    assert_eq!(frame, vec![11, 0, 0, 0, 5, 2, 0, 0, 0, 0, 0, 0, 0, b'f', b'1']);
    assert_eq!(decode_frame(&frame), Ok(Message::SendMe(String::from("f1"))));
}

#[test]
fn datagram_holds_exactly_one_frame() {
    let mut frame = encode_frame(&Message::GetStatus).unwrap();
    frame.push(0);
    assert_eq!(decode_frame(&frame), Err(Error::DeserializationError));
    assert_eq!(decode_frame(&[1, 0, 0]), Err(Error::DeserializationError));
    assert_eq!(decode_frame(&[2, 0, 0, 0, 2]), Err(Error::DeserializationError));
    assert_eq!(decode_frame(&[1, 0, 0, 0, 99]), Err(Error::DeserializationError));
}

#[test]
fn buffer_gives_frames_as_they_complete() {
    let first = encode_frame(&Message::GetStatus).unwrap();
    let second = encode_frame(&Message::SendMe(String::from("f1"))).unwrap();
    let mut stream = first.clone();
    stream.extend_from_slice(&second);
    let mut buffer = FrameBuffer::new();
    assert_eq!(buffer.pop(), None);
    // byte by byte
    let mut frames: Vec<Vec<u8>> = Vec::new();
    for byte in &stream {
        buffer.push(&[*byte]);
        while let Some(frame) = buffer.pop() {
            frames.push(frame.unwrap());
        }
    }
    assert_eq!(frames, vec![first[4..].to_vec(), second[4..].to_vec()]);
    // all at once
    buffer.push(&stream);
    assert_eq!(buffer.pop(), Some(Ok(vec![2])));
    assert_eq!(decode_message(&buffer.pop().unwrap().unwrap()), Ok(Message::SendMe(String::from("f1"))));
    assert_eq!(buffer.pop(), None);
}

#[test]
fn oversized_frame_is_rejected_and_the_buffer_emptied() {
    let mut buffer = FrameBuffer::new();
    let too_long = (MAX_FRAME_LEN as u32 + 1).to_le_bytes();
    buffer.push(&too_long);
    buffer.push(&[1, 2, 3]);
    assert_eq!(buffer.pop(), Some(Err(Error::DeserializationError)));
    assert_eq!(buffer.pop(), None);
    // the buffer works again afterwards
    buffer.push(&encode_frame(&Message::GetNodes).unwrap());
    assert_eq!(buffer.pop(), Some(Ok(vec![3])));
}

#[test]
fn frame_of_the_greatest_length_is_taken() {
    let mut buffer = FrameBuffer::new();
    buffer.push(&(MAX_FRAME_LEN as u32).to_le_bytes());
    assert_eq!(buffer.pop(), None);
    assert_eq!(MAX_FRAME_LEN, 64 * 1024 * 1024);
}

#[test]
fn no_frame_for_a_message_that_is_too_long() {
    // 1025 chunks' worth of records make more than the limit
    let mut index = Index::new();
    let long = "x".repeat(1 << 20);
    let mut i = 0;
    while i < 33 {
        let mut node = frame_file(&format!("{:04}", i));
        node.name = long.clone();
        node.path = long.clone();
        index.insert(node);
        i += 1;
    }
    assert_eq!(encode_frame(&Message::NodeList(index)), None);
}
