//! Messages on the wire.
//!
//! A message is one byte that tags its variant, followed by its payload.
//! On a connection every message travels in a frame: the length of the
//! message as a 32-bit little-endian integer, then the message. A frame
//! that announces more than [`MAX_FRAME_LEN`] bytes is refused.

use crate::codec::{
    changes_fit, lemma_parse_ser_addr, lemma_parse_ser_change_list, lemma_parse_ser_peer_list,
    lemma_parse_ser_status, lemma_ser_parse_addr, lemma_ser_parse_change_list,
    lemma_ser_parse_peer_list, lemma_ser_parse_status, parse_addr, parse_change_list,
    parse_peer_list, parse_status, peers_fit, read_addr, read_change_list, read_peer_list,
    read_status, ser_addr, ser_change_list, ser_peer_list, ser_status, write_addr,
    write_change_list, write_peer_list, write_status,
};
use crate::diff::change_views;
use crate::error::Error;
use crate::index::ascending;
use crate::message::{peer_views, Message, MessageView, SocketAddress, CHUNK_SIZE};
use crate::snapshot::{
    entries_fit, lemma_parse_ser_listing, lemma_ser_parse_listing, parse_listing, read_listing,
    ser_index, write_listing,
};
use crate::wire::{
    lemma_parse_ser_blob, lemma_parse_ser_bool, lemma_parse_ser_text, lemma_parse_ser_u32,
    lemma_parse_ser_u64, lemma_parse_ser_u8, lemma_regroup, lemma_ser_parse_blob,
    lemma_ser_parse_bool, lemma_ser_parse_text, lemma_ser_parse_u64, lemma_ser_parse_u8,
    parse_blob, parse_bool, parse_text, parse_u32, parse_u64, parse_u8, read_blob, read_bool,
    read_text, read_u32, read_u64, read_u8, ser_blob, ser_bool, ser_text, ser_u32, ser_u64,
    ser_u8, text_fits, write_blob, write_bool, write_text, write_u32, write_u64, write_u8,
};
use vstd::prelude::*;
use vstd::slice::{slice_subrange, slice_to_vec};

verus! {

/// The longest message that a frame may carry.
pub const MAX_FRAME_LEN: usize = 0x0400_0000;

/// The byte that tags the variant of a message.
pub open spec fn tag_of(m: MessageView) -> u8 {
    match m {
        MessageView::RegisterParticipant(_, _) => 0,
        MessageView::UnregisterParticipant(_) => 1,
        MessageView::GetStatus => 2,
        MessageView::GetNodes => 3,
        MessageView::GetChangeset(_) => 4,
        MessageView::SendMe(_) => 5,
        MessageView::ParticipantList(_) => 6,
        MessageView::ParticipantNotificationAdded(_, _) => 7,
        MessageView::ParticipantNotificationRemoved(_) => 8,
        MessageView::ServerStatus(_) => 9,
        MessageView::NodeList(_) => 10,
        MessageView::Changeset(_) => 11,
        MessageView::FileRequest(_, _) => 12,
        MessageView::Chunk(_) => 13,
        MessageView::CanReceive(_) => 14,
        MessageView::Greetings(_, _) => 15,
    }
}

/// What follows the tag.
pub open spec fn ser_payload(m: MessageView) -> Seq<u8> {
    match m {
        MessageView::RegisterParticipant(name, addr) => ser_text(name) + ser_addr(addr),
        MessageView::UnregisterParticipant(name) => ser_text(name),
        MessageView::GetStatus => Seq::empty(),
        MessageView::GetNodes => Seq::empty(),
        MessageView::GetChangeset(tree) => ser_index(tree),
        MessageView::SendMe(key) => ser_text(key),
        MessageView::ParticipantList(peers) => ser_peer_list(peers),
        MessageView::ParticipantNotificationAdded(name, addr) => ser_text(name) + ser_addr(addr),
        MessageView::ParticipantNotificationRemoved(name) => ser_text(name),
        MessageView::ServerStatus(status) => ser_status(status),
        MessageView::NodeList(tree) => ser_index(tree),
        MessageView::Changeset(changes) => ser_change_list(changes),
        MessageView::FileRequest(name, size) => ser_text(name) + ser_u64(size),
        MessageView::Chunk(data) => ser_blob(data),
        MessageView::CanReceive(yes) => ser_bool(yes),
        MessageView::Greetings(name, text) => ser_text(name) + ser_text(text),
    }
}

/// The message as bytes.
pub open spec fn ser_message(m: MessageView) -> Seq<u8> {
    ser_u8(tag_of(m)) + ser_payload(m)
}

/// A name and an address from the front of a byte string, and the bytes
/// after it.
pub open spec fn parse_name_addr(b: Seq<u8>) -> Option<((Seq<char>, SocketAddress), Seq<u8>)> {
    match parse_text(b) {
        Some((name, r)) => match parse_addr(r) {
            Some((addr, r2)) => Some(((name, addr), r2)),
            None => None,
        },
        None => None,
    }
}

/// A name and a size from the front of a byte string, and the bytes after
/// it.
pub open spec fn parse_name_size(b: Seq<u8>) -> Option<((Seq<char>, u64), Seq<u8>)> {
    match parse_text(b) {
        Some((name, r)) => match parse_u64(r) {
            Some((size, r2)) => Some(((name, size), r2)),
            None => None,
        },
        None => None,
    }
}

/// Two texts from the front of a byte string, and the bytes after it.
pub open spec fn parse_two_texts(b: Seq<u8>) -> Option<((Seq<char>, Seq<char>), Seq<u8>)> {
    match parse_text(b) {
        Some((first, r)) => match parse_text(r) {
            Some((second, r2)) => Some(((first, second), r2)),
            None => None,
        },
        None => None,
    }
}

/// A chunk is a blob of at most [`CHUNK_SIZE`] bytes.
pub open spec fn parse_chunk(b: Seq<u8>) -> Option<(Seq<u8>, Seq<u8>)> {
    match parse_blob(b) {
        Some((data, r)) => if data.len() <= CHUNK_SIZE {
            Some((data, r))
        } else {
            None
        },
        None => None,
    }
}

/// Parses the payload of the variant that `tag` stands for. A tag that
/// stands for no variant parses as nothing.
pub open spec fn parse_payload(tag: u8, b: Seq<u8>) -> Option<(MessageView, Seq<u8>)> {
    if tag == 0 {
        match parse_name_addr(b) {
            Some(((name, addr), r)) => Some((MessageView::RegisterParticipant(name, addr), r)),
            None => None,
        }
    } else if tag == 1 {
        match parse_text(b) {
            Some((name, r)) => Some((MessageView::UnregisterParticipant(name), r)),
            None => None,
        }
    } else if tag == 2 {
        Some((MessageView::GetStatus, b))
    } else if tag == 3 {
        Some((MessageView::GetNodes, b))
    } else if tag == 4 {
        match parse_listing(b) {
            Some((tree, r)) => Some((MessageView::GetChangeset(tree), r)),
            None => None,
        }
    } else if tag == 5 {
        match parse_text(b) {
            Some((key, r)) => Some((MessageView::SendMe(key), r)),
            None => None,
        }
    } else if tag == 6 {
        match parse_peer_list(b) {
            Some((peers, r)) => Some((MessageView::ParticipantList(peers), r)),
            None => None,
        }
    } else if tag == 7 {
        match parse_name_addr(b) {
            Some(((name, addr), r)) => Some(
                (MessageView::ParticipantNotificationAdded(name, addr), r),
            ),
            None => None,
        }
    } else if tag == 8 {
        match parse_text(b) {
            Some((name, r)) => Some((MessageView::ParticipantNotificationRemoved(name), r)),
            None => None,
        }
    } else if tag == 9 {
        match parse_status(b) {
            Some((status, r)) => Some((MessageView::ServerStatus(status), r)),
            None => None,
        }
    } else if tag == 10 {
        match parse_listing(b) {
            Some((tree, r)) => Some((MessageView::NodeList(tree), r)),
            None => None,
        }
    } else if tag == 11 {
        match parse_change_list(b) {
            Some((changes, r)) => Some((MessageView::Changeset(changes), r)),
            None => None,
        }
    } else if tag == 12 {
        match parse_name_size(b) {
            Some(((name, size), r)) => Some((MessageView::FileRequest(name, size), r)),
            None => None,
        }
    } else if tag == 13 {
        match parse_chunk(b) {
            Some((data, r)) => Some((MessageView::Chunk(data), r)),
            None => None,
        }
    } else if tag == 14 {
        match parse_bool(b) {
            Some((yes, r)) => Some((MessageView::CanReceive(yes), r)),
            None => None,
        }
    } else if tag == 15 {
        match parse_two_texts(b) {
            Some(((name, text), r)) => Some((MessageView::Greetings(name, text), r)),
            None => None,
        }
    } else {
        None
    }
}

/// The message that `b` is the bytes of, if it is one to the last byte.
pub open spec fn parse_message(b: Seq<u8>) -> Option<MessageView> {
    match parse_u8(b) {
        Some((tag, r)) => match parse_payload(tag, r) {
            Some((m, rest)) => if rest.len() == 0 {
                Some(m)
            } else {
                None
            },
            None => None,
        },
        None => None,
    }
}

/// The message can be sent: its lists and texts can be counted in 64
/// bits, its trees are in the order of their keys, and a chunk is no
/// longer than [`CHUNK_SIZE`].
pub open spec fn sendable(m: MessageView) -> bool {
    match m {
        MessageView::RegisterParticipant(name, _) => text_fits(name),
        MessageView::UnregisterParticipant(name) => text_fits(name),
        MessageView::GetStatus => true,
        MessageView::GetNodes => true,
        MessageView::GetChangeset(tree) => ascending(tree) && entries_fit(tree),
        MessageView::SendMe(key) => text_fits(key),
        MessageView::ParticipantList(peers) => peers_fit(peers),
        MessageView::ParticipantNotificationAdded(name, _) => text_fits(name),
        MessageView::ParticipantNotificationRemoved(name) => text_fits(name),
        MessageView::ServerStatus(_) => true,
        MessageView::NodeList(tree) => ascending(tree) && entries_fit(tree),
        MessageView::Changeset(changes) => changes_fit(changes),
        MessageView::FileRequest(name, _) => text_fits(name),
        MessageView::Chunk(data) => data.len() <= CHUNK_SIZE,
        MessageView::CanReceive(_) => true,
        MessageView::Greetings(name, text) => text_fits(name) && text_fits(text),
    }
}

/// Parsing the payload of a message gives the message back.
pub proof fn lemma_parse_ser_payload(m: MessageView, rest: Seq<u8>)
    requires
        sendable(m),
    ensures
        parse_payload(tag_of(m), ser_payload(m) + rest) == Some((m, rest)),
{
    match m {
        MessageView::RegisterParticipant(name, addr) => {
            lemma_regroup(ser_text(name), ser_addr(addr), rest);
            lemma_parse_ser_text(name, ser_addr(addr) + rest);
            lemma_parse_ser_addr(addr, rest);
        },
        MessageView::UnregisterParticipant(name) => {
            lemma_parse_ser_text(name, rest);
        },
        MessageView::GetStatus => {
            assert(Seq::<u8>::empty() + rest =~= rest);
        },
        MessageView::GetNodes => {
            assert(Seq::<u8>::empty() + rest =~= rest);
        },
        MessageView::GetChangeset(tree) => {
            lemma_parse_ser_listing(tree, rest);
        },
        MessageView::SendMe(key) => {
            lemma_parse_ser_text(key, rest);
        },
        MessageView::ParticipantList(peers) => {
            lemma_parse_ser_peer_list(peers, rest);
        },
        MessageView::ParticipantNotificationAdded(name, addr) => {
            lemma_regroup(ser_text(name), ser_addr(addr), rest);
            lemma_parse_ser_text(name, ser_addr(addr) + rest);
            lemma_parse_ser_addr(addr, rest);
        },
        MessageView::ParticipantNotificationRemoved(name) => {
            lemma_parse_ser_text(name, rest);
        },
        MessageView::ServerStatus(status) => {
            lemma_parse_ser_status(status, rest);
        },
        MessageView::NodeList(tree) => {
            lemma_parse_ser_listing(tree, rest);
        },
        MessageView::Changeset(changes) => {
            lemma_parse_ser_change_list(changes, rest);
        },
        MessageView::FileRequest(name, size) => {
            lemma_regroup(ser_text(name), ser_u64(size), rest);
            lemma_parse_ser_text(name, ser_u64(size) + rest);
            lemma_parse_ser_u64(size, rest);
        },
        MessageView::Chunk(data) => {
            lemma_parse_ser_blob(data, rest);
        },
        MessageView::CanReceive(yes) => {
            lemma_parse_ser_bool(yes, rest);
        },
        MessageView::Greetings(name, text) => {
            lemma_regroup(ser_text(name), ser_text(text), rest);
            lemma_parse_ser_text(name, ser_text(text) + rest);
            lemma_parse_ser_text(text, rest);
        },
    }
}

/// Decoding the bytes of a message gives the message back.
pub proof fn lemma_message_round_trip(m: MessageView)
    requires
        sendable(m),
    ensures
        parse_message(ser_message(m)) == Some(m),
{
    lemma_parse_ser_u8(tag_of(m), ser_payload(m));
    lemma_parse_ser_payload(m, Seq::empty());
    assert(ser_payload(m) + Seq::<u8>::empty() =~= ser_payload(m));
}

/// What parses as the payload of a variant is the payload of the message
/// that comes out, which is of that variant and can be sent.
pub proof fn lemma_ser_parse_payload(tag: u8, b: Seq<u8>)
    requires
        parse_payload(tag, b) is Some,
    ensures
        tag == tag_of(parse_payload(tag, b).unwrap().0),
        b == ser_payload(parse_payload(tag, b).unwrap().0) + parse_payload(tag, b).unwrap().1,
        sendable(parse_payload(tag, b).unwrap().0),
{
    if tag == 0 || tag == 7 {
        lemma_ser_parse_text(b);
        let (name, r) = parse_text(b).unwrap();
        lemma_ser_parse_addr(r);
        let (addr, r2) = parse_addr(r).unwrap();
        lemma_regroup(ser_text(name), ser_addr(addr), r2);
    } else if tag == 1 || tag == 5 || tag == 8 {
        lemma_ser_parse_text(b);
    } else if tag == 2 || tag == 3 {
        assert(b =~= Seq::<u8>::empty() + b);
    } else if tag == 4 || tag == 10 {
        lemma_ser_parse_listing(b);
    } else if tag == 6 {
        lemma_ser_parse_peer_list(b);
    } else if tag == 9 {
        lemma_ser_parse_status(b);
    } else if tag == 11 {
        lemma_ser_parse_change_list(b);
    } else if tag == 12 {
        lemma_ser_parse_text(b);
        let (name, r) = parse_text(b).unwrap();
        lemma_ser_parse_u64(r);
        let (size, r2) = parse_u64(r).unwrap();
        lemma_regroup(ser_text(name), ser_u64(size), r2);
    } else if tag == 13 {
        lemma_ser_parse_blob(b);
    } else if tag == 14 {
        lemma_ser_parse_bool(b);
    } else {
        lemma_ser_parse_text(b);
        let (name, r) = parse_text(b).unwrap();
        lemma_ser_parse_text(r);
        let (text, r2) = parse_text(r).unwrap();
        lemma_regroup(ser_text(name), ser_text(text), r2);
    }
}

/// Bytes that decode are the bytes of the message that comes out, and of
/// no other message.
pub proof fn lemma_message_canonical(b: Seq<u8>)
    requires
        parse_message(b) is Some,
    ensures
        ser_message(parse_message(b).unwrap()) == b,
        sendable(parse_message(b).unwrap()),
{
    lemma_ser_parse_u8(b);
    let (tag, r) = parse_u8(b).unwrap();
    lemma_ser_parse_payload(tag, r);
    let (m, rest) = parse_payload(tag, r).unwrap();
    assert(ser_payload(m) + rest =~= ser_payload(m));
}

/// Appends the bytes of the message.
pub fn write_message(out: &mut Vec<u8>, msg: &Message)
    ensures
        final(out)@ == old(out)@ + ser_message(msg@),
        (msg@ matches MessageView::Chunk(data) ==> data.len() <= CHUNK_SIZE) ==> sendable(msg@),
{
    let ghost start = old(out)@;
    match msg {
        Message::RegisterParticipant(name, addr) => {
            write_u8(out, 0);
            write_text(out, name.as_str());
            write_addr(out, addr);
            proof {
                lemma_regroup(start + ser_u8(0), ser_text(name@), ser_addr(*addr));
                lemma_regroup(start, ser_u8(0), ser_text(name@) + ser_addr(*addr));
            }
        },
        Message::UnregisterParticipant(name) => {
            write_u8(out, 1);
            write_text(out, name.as_str());
            proof {
                lemma_regroup(start, ser_u8(1), ser_text(name@));
            }
        },
        Message::GetStatus => {
            write_u8(out, 2);
            assert(ser_u8(2) + Seq::<u8>::empty() =~= ser_u8(2));
        },
        Message::GetNodes => {
            write_u8(out, 3);
            assert(ser_u8(3) + Seq::<u8>::empty() =~= ser_u8(3));
        },
        Message::GetChangeset(tree) => {
            write_u8(out, 4);
            write_listing(out, tree);
            proof {
                lemma_regroup(start, ser_u8(4), ser_index(tree@));
            }
        },
        Message::SendMe(key) => {
            write_u8(out, 5);
            write_text(out, key.as_str());
            proof {
                lemma_regroup(start, ser_u8(5), ser_text(key@));
            }
        },
        Message::ParticipantList(peers) => {
            write_u8(out, 6);
            write_peer_list(out, peers);
            proof {
                lemma_regroup(start, ser_u8(6), ser_peer_list(peer_views(peers@)));
            }
        },
        Message::ParticipantNotificationAdded(name, addr) => {
            write_u8(out, 7);
            write_text(out, name.as_str());
            write_addr(out, addr);
            proof {
                lemma_regroup(start + ser_u8(7), ser_text(name@), ser_addr(*addr));
                lemma_regroup(start, ser_u8(7), ser_text(name@) + ser_addr(*addr));
            }
        },
        Message::ParticipantNotificationRemoved(name) => {
            write_u8(out, 8);
            write_text(out, name.as_str());
            proof {
                lemma_regroup(start, ser_u8(8), ser_text(name@));
            }
        },
        Message::ServerStatus(status) => {
            write_u8(out, 9);
            write_status(out, *status);
            proof {
                lemma_regroup(start, ser_u8(9), ser_status(*status));
            }
        },
        Message::NodeList(tree) => {
            write_u8(out, 10);
            write_listing(out, tree);
            proof {
                lemma_regroup(start, ser_u8(10), ser_index(tree@));
            }
        },
        Message::Changeset(changes) => {
            write_u8(out, 11);
            write_change_list(out, changes);
            proof {
                lemma_regroup(start, ser_u8(11), ser_change_list(change_views(changes@)));
            }
        },
        Message::FileRequest(name, size) => {
            write_u8(out, 12);
            write_text(out, name.as_str());
            write_u64(out, *size);
            proof {
                lemma_regroup(start + ser_u8(12), ser_text(name@), ser_u64(*size));
                lemma_regroup(start, ser_u8(12), ser_text(name@) + ser_u64(*size));
            }
        },
        Message::Chunk(data) => {
            write_u8(out, 13);
            write_blob(out, data.as_slice());
            proof {
                lemma_regroup(start, ser_u8(13), ser_blob(data@));
            }
        },
        Message::CanReceive(yes) => {
            write_u8(out, 14);
            write_bool(out, *yes);
            proof {
                lemma_regroup(start, ser_u8(14), ser_bool(*yes));
            }
        },
        Message::Greetings(name, text) => {
            write_u8(out, 15);
            write_text(out, name.as_str());
            write_text(out, text.as_str());
            proof {
                lemma_regroup(start + ser_u8(15), ser_text(name@), ser_text(text@));
                lemma_regroup(start, ser_u8(15), ser_text(name@) + ser_text(text@));
            }
        },
    }
}

/// The bytes of the message; decoding them gives the message back,
/// unless it is a chunk of more than [`CHUNK_SIZE`] bytes.
pub fn encode_message(msg: &Message) -> (bytes: Vec<u8>)
    ensures
        bytes@ == ser_message(msg@),
        parse_message(bytes@) == if msg@ matches MessageView::Chunk(data) && data.len()
            > CHUNK_SIZE {
            None
        } else {
            Some(msg@)
        },
{
    let mut bytes: Vec<u8> = Vec::new();
    write_message(&mut bytes, msg);
    assert(Seq::<u8>::empty() + ser_message(msg@) =~= ser_message(msg@));
    match msg {
        Message::Chunk(data) => {
            assert(data@.len() == data.len());
        },
        _ => {},
    }
    proof {
        match msg@ {
            MessageView::Chunk(data) => {
                if data.len() > CHUNK_SIZE {
                    lemma_parse_ser_u8(13, ser_blob(data));
                    assert(ser_blob(data) + Seq::<u8>::empty() =~= ser_blob(data));
                    lemma_parse_ser_blob(data, Seq::empty());
                } else {
                    lemma_message_round_trip(msg@);
                }
            },
            _ => {
                lemma_message_round_trip(msg@);
            },
        }
    }
    bytes
}

/// Reads the payload of the variant that `tag` stands for.
pub fn read_payload(tag: u8, buf: &[u8], at: usize) -> (r: Option<(Message, usize)>)
    requires
        at <= buf.len(),
    ensures
        r is Some <==> parse_payload(tag, buf@.skip(at as int)) is Some,
        r is Some ==> at <= r.unwrap().1 <= buf.len() && parse_payload(tag, buf@.skip(at as int))
            == Some((r.unwrap().0@, buf@.skip(r.unwrap().1 as int))),
{
    if tag == 0 || tag == 7 {
        let (name, next) = match read_text(buf, at) {
            Some(pair) => pair,
            None => { return None; },
        };
        let (addr, end) = match read_addr(buf, next) {
            Some(pair) => pair,
            None => { return None; },
        };
        if tag == 0 {
            Some((Message::RegisterParticipant(name, addr), end))
        } else {
            Some((Message::ParticipantNotificationAdded(name, addr), end))
        }
    } else if tag == 1 || tag == 5 || tag == 8 {
        let (text, end) = match read_text(buf, at) {
            Some(pair) => pair,
            None => { return None; },
        };
        if tag == 1 {
            Some((Message::UnregisterParticipant(text), end))
        } else if tag == 5 {
            Some((Message::SendMe(text), end))
        } else {
            Some((Message::ParticipantNotificationRemoved(text), end))
        }
    } else if tag == 2 {
        Some((Message::GetStatus, at))
    } else if tag == 3 {
        Some((Message::GetNodes, at))
    } else if tag == 4 || tag == 10 {
        let (tree, end) = match read_listing(buf, at) {
            Some(pair) => pair,
            None => { return None; },
        };
        if tag == 4 {
            Some((Message::GetChangeset(tree), end))
        } else {
            Some((Message::NodeList(tree), end))
        }
    } else if tag == 6 {
        match read_peer_list(buf, at) {
            Some((peers, end)) => Some((Message::ParticipantList(peers), end)),
            None => None,
        }
    } else if tag == 9 {
        match read_status(buf, at) {
            Some((status, end)) => Some((Message::ServerStatus(status), end)),
            None => None,
        }
    } else if tag == 11 {
        match read_change_list(buf, at) {
            Some((changes, end)) => Some((Message::Changeset(changes), end)),
            None => None,
        }
    } else if tag == 12 {
        let (name, next) = match read_text(buf, at) {
            Some(pair) => pair,
            None => { return None; },
        };
        match read_u64(buf, next) {
            Some((size, end)) => Some((Message::FileRequest(name, size), end)),
            None => None,
        }
    } else if tag == 13 {
        match read_blob(buf, at) {
            Some((data, end)) => {
                if data.len() <= CHUNK_SIZE {
                    Some((Message::Chunk(data), end))
                } else {
                    None
                }
            },
            None => None,
        }
    } else if tag == 14 {
        match read_bool(buf, at) {
            Some((yes, end)) => Some((Message::CanReceive(yes), end)),
            None => None,
        }
    } else if tag == 15 {
        let (name, next) = match read_text(buf, at) {
            Some(pair) => pair,
            None => { return None; },
        };
        match read_text(buf, next) {
            Some((text, end)) => Some((Message::Greetings(name, text), end)),
            None => None,
        }
    } else {
        None
    }
}

/// Decodes a message. The bytes must be one message, to the last byte;
/// anything else is a deserialization error.
pub fn decode_message(bytes: &[u8]) -> (r: Result<Message, Error>)
    ensures
        r is Ok <==> parse_message(bytes@) is Some,
        r matches Ok(msg) ==> parse_message(bytes@) == Some(msg@),
        r matches Ok(msg) ==> ser_message(msg@) == bytes@,
        r is Err ==> r matches Err(Error::DeserializationError),
{
    assert(bytes@.skip(0) =~= bytes@);
    proof {
        if parse_message(bytes@) is Some {
            lemma_message_canonical(bytes@);
        }
    }
    let (tag, at) = match read_u8(bytes, 0) {
        Some(pair) => pair,
        None => { return Err(Error::DeserializationError); },
    };
    match read_payload(tag, bytes, at) {
        Some((msg, end)) => {
            if end == bytes.len() {
                Ok(msg)
            } else {
                Err(Error::DeserializationError)
            }
        },
        None => Err(Error::DeserializationError),
    }
}

/// A message in its frame.
pub open spec fn ser_frame(body: Seq<u8>) -> Seq<u8> {
    ser_u32(body.len() as u32) + body
}

/// What stands at the front of the bytes that a connection has delivered.
pub enum Framed {
    /// Not yet a whole frame.
    Incomplete,
    /// A frame that announces more than [`MAX_FRAME_LEN`] bytes.
    Oversized,
    /// A whole frame: the message it carries, and the bytes after it.
    Whole(Seq<u8>, Seq<u8>),
}

/// What stands at the front of the bytes that have arrived.
pub open spec fn next_frame(pending: Seq<u8>) -> Framed {
    match parse_u32(pending) {
        Some((n, r)) => if n > MAX_FRAME_LEN {
            Framed::Oversized
        } else if r.len() < n {
            Framed::Incomplete
        } else {
            Framed::Whole(r.subrange(0, n as int), r.skip(n as int))
        },
        None => Framed::Incomplete,
    }
}

/// A frame comes out of the stream as it went in.
pub proof fn lemma_frame_round_trip(body: Seq<u8>, rest: Seq<u8>)
    requires
        body.len() <= MAX_FRAME_LEN,
    ensures
        next_frame(ser_frame(body) + rest) == Framed::Whole(body, rest),
{
    let n = body.len() as u32;
    lemma_regroup(ser_u32(n), body, rest);
    lemma_parse_ser_u32(n, body + rest);
    assert((body + rest).subrange(0, n as int) =~= body);
    assert((body + rest).skip(n as int) =~= rest);
}

/// Puts the message into its frame. There is no frame for a message of
/// more than [`MAX_FRAME_LEN`] bytes.
pub fn encode_frame(msg: &Message) -> (frame: Option<Vec<u8>>)
    ensures
        frame is Some <==> ser_message(msg@).len() <= MAX_FRAME_LEN,
        frame is Some ==> frame.unwrap()@ == ser_frame(ser_message(msg@)),
{
    let mut body = encode_message(msg);
    if body.len() > MAX_FRAME_LEN {
        return None;
    }
    let mut frame: Vec<u8> = Vec::new();
    write_u32(&mut frame, body.len() as u32);
    frame.append(&mut body);
    assert(frame@ =~= ser_frame(ser_message(msg@)));
    Some(frame)
}

/// The message that a datagram carries: it must hold exactly one frame.
pub open spec fn parse_datagram(datagram: Seq<u8>) -> Option<MessageView> {
    match next_frame(datagram) {
        Framed::Whole(body, rest) => if rest.len() == 0 {
            parse_message(body)
        } else {
            None
        },
        _ => None,
    }
}

/// Takes a message out of a datagram, which holds exactly one frame.
pub fn decode_frame(datagram: &[u8]) -> (r: Result<Message, Error>)
    ensures
        r is Ok <==> parse_datagram(datagram@) is Some,
        r matches Ok(msg) ==> parse_datagram(datagram@) == Some(msg@),
        r is Err ==> r matches Err(Error::DeserializationError),
{
    assert(datagram@.skip(0) =~= datagram@);
    let (n, at) = match read_u32(datagram, 0) {
        Some(pair) => pair,
        None => { return Err(Error::DeserializationError); },
    };
    if n as usize > MAX_FRAME_LEN || datagram.len() - at != n as usize {
        return Err(Error::DeserializationError);
    }
    let body = slice_subrange(datagram, at, datagram.len());
    assert(datagram@.skip(at as int).subrange(0, n as int) =~= body@);
    decode_message(body)
}

/// The bytes that a connection has delivered and that are not yet taken
/// out as frames.
pub struct FrameBuffer {
    pending: Vec<u8>,
}

impl View for FrameBuffer {
    type V = Seq<u8>;

    closed spec fn view(&self) -> Seq<u8> {
        self.pending@
    }
}

impl FrameBuffer {
    /// A buffer without bytes.
    pub fn new() -> (buffer: FrameBuffer)
        ensures
            buffer@ == Seq::<u8>::empty(),
    {
        FrameBuffer { pending: Vec::new() }
    }

    /// Adds bytes as they arrive.
    pub fn push(&mut self, bytes: &[u8])
        ensures
            final(self)@ == old(self)@ + bytes@,
    {
        let mut more = slice_to_vec(bytes);
        self.pending.append(&mut more);
    }

    /// Takes the next frame out, if a whole one has arrived.
    ///
    /// An oversized frame is a deserialization error; the stream cannot
    /// be followed past it, so the buffered bytes are dropped.
    pub fn pop(&mut self) -> (r: Option<Result<Vec<u8>, Error>>)
        ensures
            match next_frame(old(self)@) {
                Framed::Incomplete => r is None && final(self)@ == old(self)@,
                Framed::Oversized => {
                    &&& r matches Some(Err(Error::DeserializationError))
                    &&& final(self)@ == Seq::<u8>::empty()
                },
                Framed::Whole(body, rest) => {
                    &&& r matches Some(Ok(frame)) && frame@ == body
                    &&& final(self)@ == rest
                },
            },
    {
        let total = self.pending.len();
        assert(self.pending@.skip(0) =~= self.pending@);
        let (n, at) = match read_u32(self.pending.as_slice(), 0) {
            Some(pair) => pair,
            None => { return None; },
        };
        if n as usize > MAX_FRAME_LEN {
            self.pending = Vec::new();
            return Some(Err(Error::DeserializationError));
        }
        if total - at < n as usize {
            return None;
        }
        let end: usize = at + n as usize;
        let body = slice_to_vec(slice_subrange(self.pending.as_slice(), at, end));
        let rest = slice_to_vec(slice_subrange(self.pending.as_slice(), end, total));
        assert(self.pending@.skip(at as int).subrange(0, n as int) =~= body@);
        assert(self.pending@.skip(at as int).skip(n as int) =~= rest@);
        self.pending = rest;
        Some(Ok(body))
    }
}

} // verus!
