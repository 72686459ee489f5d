//! The binary form of the parts that messages are made of.
//!
//! A socket address is its family (4 or 6) as one byte, the address as a
//! little-endian integer of 4 or 16 bytes, and the port. A status and the
//! kind of a change are one byte. A change is its kind and the entry of
//! its record, as a snapshot writes it. A list is its length as a 64-bit
//! integer and its items.

use crate::diff::{change_views, Change, ChangeType, ChangeView};
use crate::message::{peer_views, Peer, PeerView, SocketAddress};
use crate::snapshot::{
    lemma_parse_ser_entry, lemma_ser_parse_entry, node_fits, parse_entry, read_entry, ser_entry,
    write_entry,
};
use crate::synchronizer::Status;
use crate::wire::{
    lemma_parse_ser_text, lemma_parse_ser_u128, lemma_parse_ser_u16, lemma_parse_ser_u32,
    lemma_parse_ser_u64, lemma_parse_ser_u8, lemma_regroup, lemma_ser_parse_text,
    lemma_ser_parse_u128, lemma_ser_parse_u16, lemma_ser_parse_u32, lemma_ser_parse_u64,
    lemma_ser_parse_u8, parse_text, parse_u128, parse_u16, parse_u32, parse_u64, parse_u8,
    read_text, read_u128, read_u16, read_u32, read_u64, read_u8, ser_text, ser_u128, ser_u16,
    ser_u32, ser_u64, ser_u8, text_fits, write_text, write_u128, write_u16, write_u32, write_u64,
    write_u8,
};
use vstd::prelude::*;

verus! {

/// A socket address as bytes.
#[verifier::opaque]
pub open spec fn ser_addr(a: SocketAddress) -> Seq<u8> {
    match a {
        SocketAddress::V4(ip, port) => ser_u8(4) + ser_u32(ip) + ser_u16(port),
        SocketAddress::V6(ip, port) => ser_u8(6) + ser_u128(ip) + ser_u16(port),
    }
}

/// A socket address from the front of a byte string, and the bytes after
/// it.
#[verifier::opaque]
pub open spec fn parse_addr(b: Seq<u8>) -> Option<(SocketAddress, Seq<u8>)> {
    match parse_u8(b) {
        Some((family, r)) => if family == 4 {
            match parse_u32(r) {
                Some((ip, r2)) => match parse_u16(r2) {
                    Some((port, r3)) => Some((SocketAddress::V4(ip, port), r3)),
                    None => None,
                },
                None => None,
            }
        } else if family == 6 {
            match parse_u128(r) {
                Some((ip, r2)) => match parse_u16(r2) {
                    Some((port, r3)) => Some((SocketAddress::V6(ip, port), r3)),
                    None => None,
                },
                None => None,
            }
        } else {
            None
        },
        None => None,
    }
}

/// The byte that stands for a status.
pub open spec fn status_tag(s: Status) -> u8 {
    match s {
        Status::Starting => 0,
        Status::Indexing => 1,
        Status::Running => 2,
        Status::Stopping => 3,
    }
}

/// A status as bytes.
pub open spec fn ser_status(s: Status) -> Seq<u8> {
    ser_u8(status_tag(s))
}

/// A status from the front of a byte string, and the bytes after it.
pub open spec fn parse_status(b: Seq<u8>) -> Option<(Status, Seq<u8>)> {
    match parse_u8(b) {
        Some((tag, r)) => if tag == 0 {
            Some((Status::Starting, r))
        } else if tag == 1 {
            Some((Status::Indexing, r))
        } else if tag == 2 {
            Some((Status::Running, r))
        } else if tag == 3 {
            Some((Status::Stopping, r))
        } else {
            None
        },
        None => None,
    }
}

/// The byte that stands for the kind of a change.
pub open spec fn kind_tag(k: ChangeType) -> u8 {
    match k {
        ChangeType::Added => 0,
        ChangeType::Modified => 1,
        ChangeType::Deleted => 2,
    }
}

/// The kind of a change as bytes.
pub open spec fn ser_kind(k: ChangeType) -> Seq<u8> {
    ser_u8(kind_tag(k))
}

/// The kind of a change from the front of a byte string, and the bytes
/// after it.
pub open spec fn parse_kind(b: Seq<u8>) -> Option<(ChangeType, Seq<u8>)> {
    match parse_u8(b) {
        Some((tag, r)) => if tag == 0 {
            Some((ChangeType::Added, r))
        } else if tag == 1 {
            Some((ChangeType::Modified, r))
        } else if tag == 2 {
            Some((ChangeType::Deleted, r))
        } else {
            None
        },
        None => None,
    }
}

/// A change as bytes.
pub open spec fn ser_change(c: ChangeView) -> Seq<u8> {
    ser_kind(c.change_type) + ser_entry(c.node)
}

/// A change from the front of a byte string, and the bytes after it.
pub open spec fn parse_change(b: Seq<u8>) -> Option<(ChangeView, Seq<u8>)> {
    match parse_kind(b) {
        Some((change_type, r)) => match parse_entry(r) {
            Some((node, r2)) => Some((ChangeView { change_type, node }, r2)),
            None => None,
        },
        None => None,
    }
}

/// A run of changes as bytes.
pub open spec fn ser_changes(s: Seq<ChangeView>) -> Seq<u8>
    decreases s.len(),
{
    if s.len() == 0 {
        Seq::empty()
    } else {
        ser_change(s[0]) + ser_changes(s.drop_first())
    }
}

/// A run of changes from the front of a byte string, and the bytes after
/// it.
pub open spec fn parse_changes(count: nat, b: Seq<u8>) -> Option<(Seq<ChangeView>, Seq<u8>)>
    decreases count,
{
    if count == 0 {
        Some((Seq::empty(), b))
    } else {
        match parse_change(b) {
            Some((c, r)) => match parse_changes((count - 1) as nat, r) {
                Some((rest, r2)) => Some((seq![c] + rest, r2)),
                None => None,
            },
            None => None,
        }
    }
}

/// A list of changes as bytes.
pub open spec fn ser_change_list(s: Seq<ChangeView>) -> Seq<u8> {
    ser_u64(s.len() as u64) + ser_changes(s)
}

/// A list of changes from the front of a byte string, and the bytes after
/// it.
pub open spec fn parse_change_list(b: Seq<u8>) -> Option<(Seq<ChangeView>, Seq<u8>)> {
    match parse_u64(b) {
        Some((count, r)) => parse_changes(count as nat, r),
        None => None,
    }
}

/// A peer as bytes.
pub open spec fn ser_peer(p: PeerView) -> Seq<u8> {
    ser_text(p.name) + ser_addr(p.addr)
}

/// A peer from the front of a byte string, and the bytes after it.
pub open spec fn parse_peer(b: Seq<u8>) -> Option<(PeerView, Seq<u8>)> {
    match parse_text(b) {
        Some((name, r)) => match parse_addr(r) {
            Some((addr, r2)) => Some((PeerView { name, addr }, r2)),
            None => None,
        },
        None => None,
    }
}

/// A run of peers as bytes.
pub open spec fn ser_peers(s: Seq<PeerView>) -> Seq<u8>
    decreases s.len(),
{
    if s.len() == 0 {
        Seq::empty()
    } else {
        ser_peer(s[0]) + ser_peers(s.drop_first())
    }
}

/// A run of peers from the front of a byte string, and the bytes after it.
pub open spec fn parse_peers(count: nat, b: Seq<u8>) -> Option<(Seq<PeerView>, Seq<u8>)>
    decreases count,
{
    if count == 0 {
        Some((Seq::empty(), b))
    } else {
        match parse_peer(b) {
            Some((p, r)) => match parse_peers((count - 1) as nat, r) {
                Some((rest, r2)) => Some((seq![p] + rest, r2)),
                None => None,
            },
            None => None,
        }
    }
}

/// A list of peers as bytes.
pub open spec fn ser_peer_list(s: Seq<PeerView>) -> Seq<u8> {
    ser_u64(s.len() as u64) + ser_peers(s)
}

/// A list of peers from the front of a byte string, and the bytes after it.
pub open spec fn parse_peer_list(b: Seq<u8>) -> Option<(Seq<PeerView>, Seq<u8>)> {
    match parse_u64(b) {
        Some((count, r)) => parse_peers(count as nat, r),
        None => None,
    }
}

/// The list and the texts of its records can be counted in 64 bits.
pub open spec fn changes_fit(s: Seq<ChangeView>) -> bool {
    s.len() <= u64::MAX && forall|i: int| 0 <= i < s.len() ==> node_fits((#[trigger] s[i]).node)
}

/// The list and its names can be counted in 64 bits.
pub open spec fn peers_fit(s: Seq<PeerView>) -> bool {
    s.len() <= u64::MAX && forall|i: int| 0 <= i < s.len() ==> text_fits((#[trigger] s[i]).name)
}

/// Parsing the bytes of a socket address gives it back and leaves what
/// followed.
pub proof fn lemma_parse_ser_addr(a: SocketAddress, rest: Seq<u8>)
    ensures
        parse_addr(ser_addr(a) + rest) == Some((a, rest)),
{
    reveal(ser_addr);
    reveal(parse_addr);
    match a {
        SocketAddress::V4(ip, port) => {
            lemma_regroup(ser_u8(4) + ser_u32(ip), ser_u16(port), rest);
            lemma_regroup(ser_u8(4), ser_u32(ip), ser_u16(port) + rest);
            lemma_parse_ser_u8(4, ser_u32(ip) + (ser_u16(port) + rest));
            lemma_parse_ser_u32(ip, ser_u16(port) + rest);
            lemma_parse_ser_u16(port, rest);
        },
        SocketAddress::V6(ip, port) => {
            lemma_regroup(ser_u8(6) + ser_u128(ip), ser_u16(port), rest);
            lemma_regroup(ser_u8(6), ser_u128(ip), ser_u16(port) + rest);
            lemma_parse_ser_u8(6, ser_u128(ip) + (ser_u16(port) + rest));
            lemma_parse_ser_u128(ip, ser_u16(port) + rest);
            lemma_parse_ser_u16(port, rest);
        },
    }
}

/// Parsing the bytes of a status gives it back and leaves what followed.
pub proof fn lemma_parse_ser_status(s: Status, rest: Seq<u8>)
    ensures
        parse_status(ser_status(s) + rest) == Some((s, rest)),
{
    lemma_parse_ser_u8(status_tag(s), rest);
}

/// Parsing the bytes of the kind of a change gives it back and leaves what
/// followed.
pub proof fn lemma_parse_ser_kind(k: ChangeType, rest: Seq<u8>)
    ensures
        parse_kind(ser_kind(k) + rest) == Some((k, rest)),
{
    lemma_parse_ser_u8(kind_tag(k), rest);
}

/// Parsing the bytes of a change gives it back and leaves what followed.
pub proof fn lemma_parse_ser_change(c: ChangeView, rest: Seq<u8>)
    requires
        node_fits(c.node),
    ensures
        parse_change(ser_change(c) + rest) == Some((c, rest)),
{
    lemma_regroup(ser_kind(c.change_type), ser_entry(c.node), rest);
    lemma_parse_ser_kind(c.change_type, ser_entry(c.node) + rest);
    lemma_parse_ser_entry(c.node, rest);
}

/// Parsing the bytes of a peer gives it back and leaves what followed.
pub proof fn lemma_parse_ser_peer(p: PeerView, rest: Seq<u8>)
    requires
        text_fits(p.name),
    ensures
        parse_peer(ser_peer(p) + rest) == Some((p, rest)),
{
    lemma_regroup(ser_text(p.name), ser_addr(p.addr), rest);
    lemma_parse_ser_text(p.name, ser_addr(p.addr) + rest);
    lemma_parse_ser_addr(p.addr, rest);
}

/// The bytes of a run with one more item are the bytes of the run and of
/// the item.
pub proof fn lemma_ser_changes_push(s: Seq<ChangeView>, c: ChangeView)
    ensures
        ser_changes(s.push(c)) == ser_changes(s) + ser_change(c),
    decreases s.len(),
{
    if s.len() == 0 {
        assert(s.push(c).drop_first() =~= s);
        assert(ser_changes(s.push(c)) =~= ser_changes(s) + ser_change(c));
    } else {
        assert(s.push(c).drop_first() =~= s.drop_first().push(c));
        lemma_ser_changes_push(s.drop_first(), c);
        lemma_regroup(ser_change(s[0]), ser_changes(s.drop_first()), ser_change(c));
    }
}

/// The bytes of a run with one more item are the bytes of the run and of
/// the item.
pub proof fn lemma_ser_peers_push(s: Seq<PeerView>, p: PeerView)
    ensures
        ser_peers(s.push(p)) == ser_peers(s) + ser_peer(p),
    decreases s.len(),
{
    if s.len() == 0 {
        assert(s.push(p).drop_first() =~= s);
        assert(ser_peers(s.push(p)) =~= ser_peers(s) + ser_peer(p));
    } else {
        assert(s.push(p).drop_first() =~= s.drop_first().push(p));
        lemma_ser_peers_push(s.drop_first(), p);
        lemma_regroup(ser_peer(s[0]), ser_peers(s.drop_first()), ser_peer(p));
    }
}

/// Parsing the bytes of a run of changes gives it back and leaves what
/// followed.
pub proof fn lemma_parse_ser_changes(s: Seq<ChangeView>, rest: Seq<u8>)
    requires
        changes_fit(s),
    ensures
        parse_changes(s.len(), ser_changes(s) + rest) == Some((s, rest)),
    decreases s.len(),
{
    if s.len() == 0 {
        assert(ser_changes(s) + rest =~= rest);
        assert(s =~= Seq::empty());
    } else {
        let tail = s.drop_first();
        lemma_regroup(ser_change(s[0]), ser_changes(tail), rest);
        lemma_parse_ser_change(s[0], ser_changes(tail) + rest);
        assert(changes_fit(tail)) by {
            assert forall|i: int| 0 <= i < tail.len() implies node_fits(
                (#[trigger] tail[i]).node,
            ) by {
                assert(tail[i] == s[i + 1]);
            }
        }
        lemma_parse_ser_changes(tail, rest);
        assert(seq![s[0]] + tail =~= s);
    }
}

/// Parsing the bytes of a run of peers gives it back and leaves what
/// followed.
pub proof fn lemma_parse_ser_peers(s: Seq<PeerView>, rest: Seq<u8>)
    requires
        peers_fit(s),
    ensures
        parse_peers(s.len(), ser_peers(s) + rest) == Some((s, rest)),
    decreases s.len(),
{
    if s.len() == 0 {
        assert(ser_peers(s) + rest =~= rest);
        assert(s =~= Seq::empty());
    } else {
        let tail = s.drop_first();
        lemma_regroup(ser_peer(s[0]), ser_peers(tail), rest);
        lemma_parse_ser_peer(s[0], ser_peers(tail) + rest);
        assert(peers_fit(tail)) by {
            assert forall|i: int| 0 <= i < tail.len() implies text_fits(
                (#[trigger] tail[i]).name,
            ) by {
                assert(tail[i] == s[i + 1]);
            }
        }
        lemma_parse_ser_peers(tail, rest);
        assert(seq![s[0]] + tail =~= s);
    }
}

/// Parsing the bytes of a list of changes gives it back and leaves what
/// followed.
pub proof fn lemma_parse_ser_change_list(s: Seq<ChangeView>, rest: Seq<u8>)
    requires
        changes_fit(s),
    ensures
        parse_change_list(ser_change_list(s) + rest) == Some((s, rest)),
{
    lemma_regroup(ser_u64(s.len() as u64), ser_changes(s), rest);
    lemma_parse_ser_u64(s.len() as u64, ser_changes(s) + rest);
    lemma_parse_ser_changes(s, rest);
}

/// Parsing the bytes of a list of peers gives it back and leaves what
/// followed.
pub proof fn lemma_parse_ser_peer_list(s: Seq<PeerView>, rest: Seq<u8>)
    requires
        peers_fit(s),
    ensures
        parse_peer_list(ser_peer_list(s) + rest) == Some((s, rest)),
{
    lemma_regroup(ser_u64(s.len() as u64), ser_peers(s), rest);
    lemma_parse_ser_u64(s.len() as u64, ser_peers(s) + rest);
    lemma_parse_ser_peers(s, rest);
}

/// What parses as an address is the serialization of that address.
pub proof fn lemma_ser_parse_addr(b: Seq<u8>)
    requires
        parse_addr(b) is Some,
    ensures
        b == ser_addr(parse_addr(b).unwrap().0) + parse_addr(b).unwrap().1,
{
    reveal(ser_addr);
    reveal(parse_addr);
    lemma_ser_parse_u8(b);
    let (family, r) = parse_u8(b).unwrap();
    if family == 4 {
        lemma_ser_parse_u32(r);
        let (ip, r2) = parse_u32(r).unwrap();
        lemma_ser_parse_u16(r2);
        let (port, r3) = parse_u16(r2).unwrap();
        lemma_regroup(ser_u8(4), ser_u32(ip), r2);
        lemma_regroup(ser_u8(4) + ser_u32(ip), ser_u16(port), r3);
    } else {
        lemma_ser_parse_u128(r);
        let (ip, r2) = parse_u128(r).unwrap();
        lemma_ser_parse_u16(r2);
        let (port, r3) = parse_u16(r2).unwrap();
        lemma_regroup(ser_u8(6), ser_u128(ip), r2);
        lemma_regroup(ser_u8(6) + ser_u128(ip), ser_u16(port), r3);
    }
}

/// What parses as a status is the bytes of what comes out.
pub proof fn lemma_ser_parse_status(b: Seq<u8>)
    requires
        parse_status(b) is Some,
    ensures
        b == ser_status(parse_status(b).unwrap().0) + parse_status(b).unwrap().1,
{
    lemma_ser_parse_u8(b);
}

/// What parses as the kind of a change is the bytes of what comes out.
pub proof fn lemma_ser_parse_kind(b: Seq<u8>)
    requires
        parse_kind(b) is Some,
    ensures
        b == ser_kind(parse_kind(b).unwrap().0) + parse_kind(b).unwrap().1,
{
    lemma_ser_parse_u8(b);
}

/// What parses as a change is the bytes of what comes out.
pub proof fn lemma_ser_parse_change(b: Seq<u8>)
    requires
        parse_change(b) is Some,
    ensures
        b == ser_change(parse_change(b).unwrap().0) + parse_change(b).unwrap().1,
        node_fits(parse_change(b).unwrap().0.node),
{
    lemma_ser_parse_kind(b);
    let (kind, r) = parse_kind(b).unwrap();
    lemma_ser_parse_entry(r);
    let (node, r2) = parse_entry(r).unwrap();
    lemma_regroup(ser_kind(kind), ser_entry(node), r2);
}

/// What parses as a peer is the bytes of what comes out.
pub proof fn lemma_ser_parse_peer(b: Seq<u8>)
    requires
        parse_peer(b) is Some,
    ensures
        b == ser_peer(parse_peer(b).unwrap().0) + parse_peer(b).unwrap().1,
        text_fits(parse_peer(b).unwrap().0.name),
{
    lemma_ser_parse_text(b);
    let (name, r) = parse_text(b).unwrap();
    lemma_ser_parse_addr(r);
    let (addr, r2) = parse_addr(r).unwrap();
    lemma_regroup(ser_text(name), ser_addr(addr), r2);
}

/// What parses as a run of changes is the bytes of what comes out.
pub proof fn lemma_ser_parse_changes(count: nat, b: Seq<u8>)
    requires
        parse_changes(count, b) is Some,
        count <= u64::MAX,
    ensures
        ({
            let (s, rest) = parse_changes(count, b).unwrap();
            &&& s.len() == count
            &&& b == ser_changes(s) + rest
            &&& changes_fit(s)
        }),
    decreases count,
{
    let (s, rest) = parse_changes(count, b).unwrap();
    if count == 0 {
        assert(b =~= ser_changes(s) + rest);
    } else {
        lemma_ser_parse_change(b);
        let (c, r) = parse_change(b).unwrap();
        lemma_ser_parse_changes((count - 1) as nat, r);
        let (tail, r2) = parse_changes((count - 1) as nat, r).unwrap();
        assert(s == seq![c] + tail);
        assert(s.drop_first() =~= tail);
        lemma_regroup(ser_change(c), ser_changes(tail), rest);
        assert forall|i: int| 0 <= i < s.len() implies node_fits((#[trigger] s[i]).node) by {
            if i > 0 {
                assert(s[i] == tail[i - 1]);
            }
        }
    }
}

/// What parses as a run of peers is the bytes of what comes out.
pub proof fn lemma_ser_parse_peers(count: nat, b: Seq<u8>)
    requires
        parse_peers(count, b) is Some,
        count <= u64::MAX,
    ensures
        ({
            let (s, rest) = parse_peers(count, b).unwrap();
            &&& s.len() == count
            &&& b == ser_peers(s) + rest
            &&& peers_fit(s)
        }),
    decreases count,
{
    let (s, rest) = parse_peers(count, b).unwrap();
    if count == 0 {
        assert(b =~= ser_peers(s) + rest);
    } else {
        lemma_ser_parse_peer(b);
        let (p, r) = parse_peer(b).unwrap();
        lemma_ser_parse_peers((count - 1) as nat, r);
        let (tail, r2) = parse_peers((count - 1) as nat, r).unwrap();
        assert(s == seq![p] + tail);
        assert(s.drop_first() =~= tail);
        lemma_regroup(ser_peer(p), ser_peers(tail), rest);
        assert forall|i: int| 0 <= i < s.len() implies text_fits((#[trigger] s[i]).name) by {
            if i > 0 {
                assert(s[i] == tail[i - 1]);
            }
        }
    }
}

/// What parses as a list of changes is the bytes of what comes out.
pub proof fn lemma_ser_parse_change_list(b: Seq<u8>)
    requires
        parse_change_list(b) is Some,
    ensures
        b == ser_change_list(parse_change_list(b).unwrap().0) + parse_change_list(b).unwrap().1,
        changes_fit(parse_change_list(b).unwrap().0),
{
    lemma_ser_parse_u64(b);
    let (count, r) = parse_u64(b).unwrap();
    lemma_ser_parse_changes(count as nat, r);
    let (s, rest) = parse_changes(count as nat, r).unwrap();
    lemma_regroup(ser_u64(count), ser_changes(s), rest);
}

/// What parses as a list of peers is the bytes of what comes out.
pub proof fn lemma_ser_parse_peer_list(b: Seq<u8>)
    requires
        parse_peer_list(b) is Some,
    ensures
        b == ser_peer_list(parse_peer_list(b).unwrap().0) + parse_peer_list(b).unwrap().1,
        peers_fit(parse_peer_list(b).unwrap().0),
{
    lemma_ser_parse_u64(b);
    let (count, r) = parse_u64(b).unwrap();
    lemma_ser_parse_peers(count as nat, r);
    let (s, rest) = parse_peers(count as nat, r).unwrap();
    lemma_regroup(ser_u64(count), ser_peers(s), rest);
}

/// Appends a socket address.
pub fn write_addr(out: &mut Vec<u8>, a: &SocketAddress)
    ensures
        final(out)@ == old(out)@ + ser_addr(*a),
{
    proof {
        reveal(ser_addr);
    }
    match a {
        SocketAddress::V4(ip, port) => {
            write_u8(out, 4);
            write_u32(out, *ip);
            write_u16(out, *port);
            proof {
                lemma_regroup(old(out)@, ser_u8(4), ser_u32(*ip));
                lemma_regroup(old(out)@, ser_u8(4) + ser_u32(*ip), ser_u16(*port));
            }
        },
        SocketAddress::V6(ip, port) => {
            write_u8(out, 6);
            write_u128(out, *ip);
            write_u16(out, *port);
            proof {
                lemma_regroup(old(out)@, ser_u8(6), ser_u128(*ip));
                lemma_regroup(old(out)@, ser_u8(6) + ser_u128(*ip), ser_u16(*port));
            }
        },
    }
}

/// Reads a socket address from `buf` at `at` and says where it ends.
pub fn read_addr(buf: &[u8], at: usize) -> (r: Option<(SocketAddress, usize)>)
    requires
        at <= buf.len(),
    ensures
        r is Some <==> parse_addr(buf@.skip(at as int)) is Some,
        r is Some ==> at <= r.unwrap().1 <= buf.len() && parse_addr(buf@.skip(at as int)) == Some(
            (r.unwrap().0, buf@.skip(r.unwrap().1 as int)),
        ),
{
    proof {
        reveal(parse_addr);
    }
    let (family, at) = match read_u8(buf, at) {
        Some(pair) => pair,
        None => { return None; },
    };
    if family == 4 {
        let (ip, at) = match read_u32(buf, at) {
            Some(pair) => pair,
            None => { return None; },
        };
        let (port, at) = match read_u16(buf, at) {
            Some(pair) => pair,
            None => { return None; },
        };
        Some((SocketAddress::V4(ip, port), at))
    } else if family == 6 {
        let (ip, at) = match read_u128(buf, at) {
            Some(pair) => pair,
            None => { return None; },
        };
        let (port, at) = match read_u16(buf, at) {
            Some(pair) => pair,
            None => { return None; },
        };
        Some((SocketAddress::V6(ip, port), at))
    } else {
        None
    }
}

/// Appends a status.
pub fn write_status(out: &mut Vec<u8>, s: Status)
    ensures
        final(out)@ == old(out)@ + ser_status(s),
{
    let tag: u8 = match s {
        Status::Starting => 0,
        Status::Indexing => 1,
        Status::Running => 2,
        Status::Stopping => 3,
    };
    write_u8(out, tag);
}

/// Reads a status from `buf` at `at` and says where it ends.
pub fn read_status(buf: &[u8], at: usize) -> (r: Option<(Status, usize)>)
    requires
        at <= buf.len(),
    ensures
        r is Some <==> parse_status(buf@.skip(at as int)) is Some,
        r is Some ==> at <= r.unwrap().1 <= buf.len() && parse_status(buf@.skip(at as int))
            == Some((r.unwrap().0, buf@.skip(r.unwrap().1 as int))),
{
    let (tag, at) = match read_u8(buf, at) {
        Some(pair) => pair,
        None => { return None; },
    };
    if tag == 0 {
        Some((Status::Starting, at))
    } else if tag == 1 {
        Some((Status::Indexing, at))
    } else if tag == 2 {
        Some((Status::Running, at))
    } else if tag == 3 {
        Some((Status::Stopping, at))
    } else {
        None
    }
}

/// Appends the kind of a change.
pub fn write_kind(out: &mut Vec<u8>, k: ChangeType)
    ensures
        final(out)@ == old(out)@ + ser_kind(k),
{
    let tag: u8 = match k {
        ChangeType::Added => 0,
        ChangeType::Modified => 1,
        ChangeType::Deleted => 2,
    };
    write_u8(out, tag);
}

/// Reads the kind of a change from `buf` at `at` and says where it ends.
pub fn read_kind(buf: &[u8], at: usize) -> (r: Option<(ChangeType, usize)>)
    requires
        at <= buf.len(),
    ensures
        r is Some <==> parse_kind(buf@.skip(at as int)) is Some,
        r is Some ==> at <= r.unwrap().1 <= buf.len() && parse_kind(buf@.skip(at as int)) == Some(
            (r.unwrap().0, buf@.skip(r.unwrap().1 as int)),
        ),
{
    let (tag, at) = match read_u8(buf, at) {
        Some(pair) => pair,
        None => { return None; },
    };
    if tag == 0 {
        Some((ChangeType::Added, at))
    } else if tag == 1 {
        Some((ChangeType::Modified, at))
    } else if tag == 2 {
        Some((ChangeType::Deleted, at))
    } else {
        None
    }
}

/// Appends a change.
pub fn write_change(out: &mut Vec<u8>, c: &Change)
    ensures
        final(out)@ == old(out)@ + ser_change(c@),
        node_fits(c@.node),
{
    write_kind(out, c.change_type);
    write_entry(out, &c.node);
    proof {
        lemma_regroup(old(out)@, ser_kind(c@.change_type), ser_entry(c@.node));
    }
}

/// Reads a change from `buf` at `at` and says where it ends.
pub fn read_change(buf: &[u8], at: usize) -> (r: Option<(Change, usize)>)
    requires
        at <= buf.len(),
    ensures
        r is Some <==> parse_change(buf@.skip(at as int)) is Some,
        r is Some ==> at <= r.unwrap().1 <= buf.len() && parse_change(buf@.skip(at as int))
            == Some((r.unwrap().0@, buf@.skip(r.unwrap().1 as int))),
{
    let (change_type, at) = match read_kind(buf, at) {
        Some(pair) => pair,
        None => { return None; },
    };
    match read_entry(buf, at) {
        Some((node, next)) => Some((Change { change_type, node }, next)),
        None => None,
    }
}

/// Appends a peer.
pub fn write_peer(out: &mut Vec<u8>, p: &Peer)
    ensures
        final(out)@ == old(out)@ + ser_peer(p@),
        text_fits(p@.name),
{
    write_text(out, p.name.as_str());
    write_addr(out, &p.addr);
    proof {
        lemma_regroup(old(out)@, ser_text(p@.name), ser_addr(p@.addr));
    }
}

/// Reads a peer from `buf` at `at` and says where it ends.
pub fn read_peer(buf: &[u8], at: usize) -> (r: Option<(Peer, usize)>)
    requires
        at <= buf.len(),
    ensures
        r is Some <==> parse_peer(buf@.skip(at as int)) is Some,
        r is Some ==> at <= r.unwrap().1 <= buf.len() && parse_peer(buf@.skip(at as int)) == Some(
            (r.unwrap().0@, buf@.skip(r.unwrap().1 as int)),
        ),
{
    let (name, at) = match read_text(buf, at) {
        Some(pair) => pair,
        None => { return None; },
    };
    match read_addr(buf, at) {
        Some((addr, next)) => Some((Peer { name, addr }, next)),
        None => None,
    }
}

/// A parse of the changes that follow, put behind the changes already
/// read.
pub open spec fn changes_behind(
    acc: Seq<ChangeView>,
    tail: Option<(Seq<ChangeView>, Seq<u8>)>,
) -> Option<(Seq<ChangeView>, Seq<u8>)> {
    match tail {
        Some((rest, r)) => Some((acc + rest, r)),
        None => None,
    }
}

/// A parse of the peers that follow, put behind the peers already read.
pub open spec fn peers_behind(acc: Seq<PeerView>, tail: Option<(Seq<PeerView>, Seq<u8>)>) -> Option<
    (Seq<PeerView>, Seq<u8>),
> {
    match tail {
        Some((rest, r)) => Some((acc + rest, r)),
        None => None,
    }
}

/// Appends a list of changes.
pub fn write_change_list(out: &mut Vec<u8>, changes: &Vec<Change>)
    ensures
        final(out)@ == old(out)@ + ser_change_list(change_views(changes@)),
        changes_fit(change_views(changes@)),
{
    let n = changes.len();
    let ghost s = change_views(changes@);
    write_u64(out, n as u64);
    let ghost start = out@;
    let mut i: usize = 0;
    assert(s.take(0) =~= Seq::empty());
    while i < n
        invariant
            i <= n == changes.len(),
            s == change_views(changes@),
            out@ == start + ser_changes(s.take(i as int)),
            forall|j: int| 0 <= j < i ==> node_fits((#[trigger] s[j]).node),
        decreases n - i,
    {
        write_change(out, &changes[i]);
        proof {
            lemma_ser_changes_push(s.take(i as int), s[i as int]);
            assert(s.take(i + 1) =~= s.take(i as int).push(s[i as int]));
            lemma_regroup(start, ser_changes(s.take(i as int)), ser_change(s[i as int]));
        }
        i += 1;
    }
    proof {
        assert(s.take(n as int) =~= s);
        lemma_regroup(old(out)@, ser_u64(n as u64), ser_changes(s));
    }
}

/// Reads a list of changes from `buf` at `at` and says where it ends.
pub fn read_change_list(buf: &[u8], at: usize) -> (r: Option<(Vec<Change>, usize)>)
    requires
        at <= buf.len(),
    ensures
        r is Some <==> parse_change_list(buf@.skip(at as int)) is Some,
        r is Some ==> at <= r.unwrap().1 <= buf.len() && parse_change_list(buf@.skip(at as int))
            == Some((change_views(r.unwrap().0@), buf@.skip(r.unwrap().1 as int))),
{
    let (count, start) = match read_u64(buf, at) {
        Some(pair) => pair,
        None => { return None; },
    };
    let ghost whole = parse_changes(count as nat, buf@.skip(start as int));
    let mut changes: Vec<Change> = Vec::new();
    let mut i: u64 = 0;
    let mut pos: usize = start;
    proof {
        assert(change_views(changes@) =~= Seq::empty());
        if whole is Some {
            assert(Seq::<ChangeView>::empty() + whole.unwrap().0 =~= whole.unwrap().0);
        }
    }
    while i < count
        invariant
            i <= count,
            at <= start <= pos <= buf.len(),
            parse_change_list(buf@.skip(at as int)) == whole,
            whole == changes_behind(
                change_views(changes@),
                parse_changes((count - i) as nat, buf@.skip(pos as int)),
            ),
        decreases count - i,
    {
        let ghost acc = change_views(changes@);
        let (change, next) = match read_change(buf, pos) {
            Some(pair) => pair,
            None => { return None; },
        };
        let ghost c = change@;
        changes.push(change);
        proof {
            assert(change_views(changes@) =~= acc.push(c));
            let tail = parse_changes((count - i - 1) as nat, buf@.skip(next as int));
            if tail is Some {
                assert(acc + (seq![c] + tail.unwrap().0) =~= acc.push(c) + tail.unwrap().0);
            }
        }
        pos = next;
        i += 1;
    }
    assert(change_views(changes@) + Seq::<ChangeView>::empty() =~= change_views(changes@));
    Some((changes, pos))
}

/// Appends a list of peers.
pub fn write_peer_list(out: &mut Vec<u8>, peers: &Vec<Peer>)
    ensures
        final(out)@ == old(out)@ + ser_peer_list(peer_views(peers@)),
        peers_fit(peer_views(peers@)),
{
    let n = peers.len();
    let ghost s = peer_views(peers@);
    write_u64(out, n as u64);
    let ghost start = out@;
    let mut i: usize = 0;
    assert(s.take(0) =~= Seq::empty());
    while i < n
        invariant
            i <= n == peers.len(),
            s == peer_views(peers@),
            out@ == start + ser_peers(s.take(i as int)),
            forall|j: int| 0 <= j < i ==> text_fits((#[trigger] s[j]).name),
        decreases n - i,
    {
        write_peer(out, &peers[i]);
        proof {
            lemma_ser_peers_push(s.take(i as int), s[i as int]);
            assert(s.take(i + 1) =~= s.take(i as int).push(s[i as int]));
            lemma_regroup(start, ser_peers(s.take(i as int)), ser_peer(s[i as int]));
        }
        i += 1;
    }
    proof {
        assert(s.take(n as int) =~= s);
        lemma_regroup(old(out)@, ser_u64(n as u64), ser_peers(s));
    }
}

/// Reads a list of peers from `buf` at `at` and says where it ends.
pub fn read_peer_list(buf: &[u8], at: usize) -> (r: Option<(Vec<Peer>, usize)>)
    requires
        at <= buf.len(),
    ensures
        r is Some <==> parse_peer_list(buf@.skip(at as int)) is Some,
        r is Some ==> at <= r.unwrap().1 <= buf.len() && parse_peer_list(buf@.skip(at as int))
            == Some((peer_views(r.unwrap().0@), buf@.skip(r.unwrap().1 as int))),
{
    let (count, start) = match read_u64(buf, at) {
        Some(pair) => pair,
        None => { return None; },
    };
    let ghost whole = parse_peers(count as nat, buf@.skip(start as int));
    let mut peers: Vec<Peer> = Vec::new();
    let mut i: u64 = 0;
    let mut pos: usize = start;
    proof {
        assert(peer_views(peers@) =~= Seq::empty());
        if whole is Some {
            assert(Seq::<PeerView>::empty() + whole.unwrap().0 =~= whole.unwrap().0);
        }
    }
    while i < count
        invariant
            i <= count,
            at <= start <= pos <= buf.len(),
            parse_peer_list(buf@.skip(at as int)) == whole,
            whole == peers_behind(
                peer_views(peers@),
                parse_peers((count - i) as nat, buf@.skip(pos as int)),
            ),
        decreases count - i,
    {
        let ghost acc = peer_views(peers@);
        let (peer, next) = match read_peer(buf, pos) {
            Some(pair) => pair,
            None => { return None; },
        };
        let ghost p = peer@;
        peers.push(peer);
        proof {
            assert(peer_views(peers@) =~= acc.push(p));
            let tail = parse_peers((count - i - 1) as nat, buf@.skip(next as int));
            if tail is Some {
                assert(acc + (seq![p] + tail.unwrap().0) =~= acc.push(p) + tail.unwrap().0);
            }
        }
        pos = next;
        i += 1;
    }
    assert(peer_views(peers@) + Seq::<PeerView>::empty() =~= peer_views(peers@));
    Some((peers, pos))
}

} // verus!
