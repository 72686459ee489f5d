//! The binary snapshot of an index.
//!
//! ```text
//! snapshot := u64 count, { entry } x count
//! entry    := u64 key_len, key_bytes, node
//! node     := u8 is_dir, u8 is_file, u8 is_symlink,
//!             u64 name_len, name_bytes,
//!             u64 path_len, path_bytes,
//!             u64 len,
//!             u64 mod_secs, u32 mod_nanos,
//!             u64 inode
//! ```
//!
//! All integers are little-endian, nothing is padded, and the entries
//! stand in ascending order of their keys. A byte string is a snapshot of
//! at most one index, and an index has exactly one snapshot.

use crate::error::Error;
use crate::index::{ascending, Index};
use crate::node::{Node, NodeView};
use crate::text::text_lt;
use crate::wire::{
    lemma_parse_ser_bool, lemma_parse_ser_text, lemma_parse_ser_u32, lemma_parse_ser_u64,
    lemma_regroup, lemma_ser_parse_bool, lemma_ser_parse_text, lemma_ser_parse_u32,
    lemma_ser_parse_u64, parse_bool, parse_text, parse_u32, parse_u64, read_bool, read_text,
    read_u32, read_u64, ser_bool, ser_text, ser_u32, ser_u64, text_fits, write_bool, write_text,
    write_u32, write_u64,
};
use vstd::prelude::*;

verus! {

/// A record without its key as bytes.
#[verifier::opaque]
pub open spec fn ser_node(n: NodeView) -> Seq<u8> {
    ser_bool(n.is_dir) + ser_bool(n.is_file) + ser_bool(n.is_symlink) + ser_text(n.name)
        + ser_text(n.path) + ser_u64(n.len) + ser_u64(n.mod_seconds) + ser_u32(n.mod_nano)
        + ser_u64(n.inode)
}

/// Parses the record that is indexed under `key`.
#[verifier::opaque]
pub open spec fn parse_node(key: Seq<char>, b: Seq<u8>) -> Option<(NodeView, Seq<u8>)> {
    match parse_bool(b) {
        Some((is_dir, b1)) => match parse_bool(b1) {
            Some((is_file, b2)) => match parse_bool(b2) {
                Some((is_symlink, b3)) => match parse_text(b3) {
                    Some((name, b4)) => match parse_text(b4) {
                        Some((path, b5)) => match parse_u64(b5) {
                            Some((len, b6)) => match parse_u64(b6) {
                                Some((mod_seconds, b7)) => match parse_u32(b7) {
                                    Some((mod_nano, b8)) => match parse_u64(b8) {
                                        Some((inode, b9)) => Some(
                                            (
                                                NodeView {
                                                    is_dir,
                                                    is_file,
                                                    is_symlink,
                                                    name,
                                                    path,
                                                    relative_path: key,
                                                    len,
                                                    mod_seconds,
                                                    mod_nano,
                                                    inode,
                                                },
                                                b9,
                                            ),
                                        ),
                                        None => None,
                                    },
                                    None => None,
                                },
                                None => None,
                            },
                            None => None,
                        },
                        None => None,
                    },
                    None => None,
                },
                None => None,
            },
            None => None,
        },
        None => None,
    }
}

/// A key and its record as bytes.
pub open spec fn ser_entry(n: NodeView) -> Seq<u8> {
    ser_text(n.relative_path) + ser_node(n)
}

/// A key and its record from the front of a byte string, and the bytes
/// after it.
pub open spec fn parse_entry(b: Seq<u8>) -> Option<(NodeView, Seq<u8>)> {
    match parse_text(b) {
        Some((key, r)) => parse_node(key, r),
        None => None,
    }
}

/// A run of entries as bytes.
pub open spec fn ser_entries(s: Seq<NodeView>) -> Seq<u8>
    decreases s.len(),
{
    if s.len() == 0 {
        Seq::empty()
    } else {
        ser_entry(s[0]) + ser_entries(s.drop_first())
    }
}

/// Whether `key` may follow an entry whose key is `floor`.
pub open spec fn above(floor: Option<Seq<char>>, key: Seq<char>) -> bool {
    floor is None || text_lt(floor.unwrap(), key)
}

/// Parses `count` entries whose keys ascend from above `floor`.
pub open spec fn parse_entries(count: nat, b: Seq<u8>, floor: Option<Seq<char>>) -> Option<
    (Seq<NodeView>, Seq<u8>),
>
    decreases count,
{
    if count == 0 {
        Some((Seq::empty(), b))
    } else {
        match parse_entry(b) {
            Some((n, r)) => if above(floor, n.relative_path) {
                match parse_entries((count - 1) as nat, r, Some(n.relative_path)) {
                    Some((rest, r2)) => Some((seq![n] + rest, r2)),
                    None => None,
                }
            } else {
                None
            },
            None => None,
        }
    }
}

/// The snapshot of the entries `s`.
pub open spec fn ser_index(s: Seq<NodeView>) -> Seq<u8> {
    ser_u64(s.len() as u64) + ser_entries(s)
}

/// Parses a snapshot from the front of `b`.
pub open spec fn parse_listing(b: Seq<u8>) -> Option<(Seq<NodeView>, Seq<u8>)> {
    match parse_u64(b) {
        Some((count, r)) => parse_entries(count as nat, r, None),
        None => None,
    }
}

/// The entries that `b` is the snapshot of, if it is one.
pub open spec fn parse_index(b: Seq<u8>) -> Option<Seq<NodeView>> {
    match parse_listing(b) {
        Some((s, rest)) => if rest.len() == 0 {
            Some(s)
        } else {
            None
        },
        None => None,
    }
}

/// The texts of the record can be counted in 64 bits.
pub open spec fn node_fits(n: NodeView) -> bool {
    text_fits(n.name) && text_fits(n.path) && text_fits(n.relative_path)
}

/// The entries and their texts can be counted in 64 bits, as everything
/// can that fits into memory.
pub open spec fn entries_fit(s: Seq<NodeView>) -> bool {
    s.len() <= u64::MAX && forall|i: int| 0 <= i < s.len() ==> node_fits(#[trigger] s[i])
}

/// Parsing the bytes of a record without its key gives it back and leaves
/// what followed.
pub proof fn lemma_parse_ser_node(n: NodeView, rest: Seq<u8>)
    requires
        node_fits(n),
    ensures
        parse_node(n.relative_path, ser_node(n) + rest) == Some((n, rest)),
{
    reveal(ser_node);
    reveal(parse_node);
    let t9 = rest;
    let t8 = ser_u64(n.inode) + t9;
    let t7 = ser_u32(n.mod_nano) + t8;
    let t6 = ser_u64(n.mod_seconds) + t7;
    let t5 = ser_u64(n.len) + t6;
    let t4 = ser_text(n.path) + t5;
    let t3 = ser_text(n.name) + t4;
    let t2 = ser_bool(n.is_symlink) + t3;
    let t1 = ser_bool(n.is_file) + t2;
    let x1 = ser_bool(n.is_dir);
    let x2 = x1 + ser_bool(n.is_file);
    let x3 = x2 + ser_bool(n.is_symlink);
    let x4 = x3 + ser_text(n.name);
    let x5 = x4 + ser_text(n.path);
    let x6 = x5 + ser_u64(n.len);
    let x7 = x6 + ser_u64(n.mod_seconds);
    let x8 = x7 + ser_u32(n.mod_nano);
    lemma_regroup(x8, ser_u64(n.inode), rest);
    lemma_regroup(x7, ser_u32(n.mod_nano), t8);
    lemma_regroup(x6, ser_u64(n.mod_seconds), t7);
    lemma_regroup(x5, ser_u64(n.len), t6);
    lemma_regroup(x4, ser_text(n.path), t5);
    lemma_regroup(x3, ser_text(n.name), t4);
    lemma_regroup(x2, ser_bool(n.is_symlink), t3);
    lemma_regroup(x1, ser_bool(n.is_file), t2);
    assert(ser_node(n) + rest == ser_bool(n.is_dir) + t1);
    lemma_parse_ser_bool(n.is_dir, t1);
    lemma_parse_ser_bool(n.is_file, t2);
    lemma_parse_ser_bool(n.is_symlink, t3);
    lemma_parse_ser_text(n.name, t4);
    lemma_parse_ser_text(n.path, t5);
    lemma_parse_ser_u64(n.len, t6);
    lemma_parse_ser_u64(n.mod_seconds, t7);
    lemma_parse_ser_u32(n.mod_nano, t8);
    lemma_parse_ser_u64(n.inode, t9);
}

/// What parses as a record without its key is the bytes of what comes out.
pub proof fn lemma_ser_parse_node(key: Seq<char>, b: Seq<u8>)
    requires
        parse_node(key, b) is Some,
        text_fits(key),
    ensures
        b == ser_node(parse_node(key, b).unwrap().0) + parse_node(key, b).unwrap().1,
        parse_node(key, b).unwrap().0.relative_path == key,
        node_fits(parse_node(key, b).unwrap().0),
{
    reveal(ser_node);
    reveal(parse_node);
    let (n, rest) = parse_node(key, b).unwrap();
    lemma_ser_parse_bool(b);
    let b1 = parse_bool(b).unwrap().1;
    lemma_ser_parse_bool(b1);
    let b2 = parse_bool(b1).unwrap().1;
    lemma_ser_parse_bool(b2);
    let b3 = parse_bool(b2).unwrap().1;
    lemma_ser_parse_text(b3);
    let b4 = parse_text(b3).unwrap().1;
    lemma_ser_parse_text(b4);
    let b5 = parse_text(b4).unwrap().1;
    lemma_ser_parse_u64(b5);
    let b6 = parse_u64(b5).unwrap().1;
    lemma_ser_parse_u64(b6);
    let b7 = parse_u64(b6).unwrap().1;
    lemma_ser_parse_u32(b7);
    let b8 = parse_u32(b7).unwrap().1;
    lemma_ser_parse_u64(b8);
    let x1 = ser_bool(n.is_dir);
    let x2 = x1 + ser_bool(n.is_file);
    let x3 = x2 + ser_bool(n.is_symlink);
    let x4 = x3 + ser_text(n.name);
    let x5 = x4 + ser_text(n.path);
    let x6 = x5 + ser_u64(n.len);
    let x7 = x6 + ser_u64(n.mod_seconds);
    let x8 = x7 + ser_u32(n.mod_nano);
    assert(b == x1 + b1);
    lemma_regroup(x1, ser_bool(n.is_file), b2);
    assert(b == x2 + b2);
    lemma_regroup(x2, ser_bool(n.is_symlink), b3);
    assert(b == x3 + b3);
    lemma_regroup(x3, ser_text(n.name), b4);
    assert(b == x4 + b4);
    lemma_regroup(x4, ser_text(n.path), b5);
    assert(b == x5 + b5);
    lemma_regroup(x5, ser_u64(n.len), b6);
    assert(b == x6 + b6);
    lemma_regroup(x6, ser_u64(n.mod_seconds), b7);
    assert(b == x7 + b7);
    lemma_regroup(x7, ser_u32(n.mod_nano), b8);
    assert(b == x8 + b8);
    lemma_regroup(x8, ser_u64(n.inode), rest);
}

/// Parsing the bytes of a key and its record gives it back and leaves what
/// followed.
pub proof fn lemma_parse_ser_entry(n: NodeView, rest: Seq<u8>)
    requires
        node_fits(n),
    ensures
        parse_entry(ser_entry(n) + rest) == Some((n, rest)),
{
    assert(ser_entry(n) + rest =~= ser_text(n.relative_path) + (ser_node(n) + rest));
    lemma_parse_ser_text(n.relative_path, ser_node(n) + rest);
    lemma_parse_ser_node(n, rest);
}

/// What parses as a key and its record is the bytes of what comes out.
pub proof fn lemma_ser_parse_entry(b: Seq<u8>)
    requires
        parse_entry(b) is Some,
    ensures
        b == ser_entry(parse_entry(b).unwrap().0) + parse_entry(b).unwrap().1,
        node_fits(parse_entry(b).unwrap().0),
{
    lemma_ser_parse_text(b);
    let (key, r) = parse_text(b).unwrap();
    lemma_ser_parse_node(key, r);
    let (n, rest) = parse_node(key, r).unwrap();
    assert(b =~= ser_text(key) + ser_node(n) + rest);
}

/// The bytes of a run with one more item are the bytes of the run and of
/// the item.
pub proof fn lemma_ser_entries_push(s: Seq<NodeView>, n: NodeView)
    ensures
        ser_entries(s.push(n)) == ser_entries(s) + ser_entry(n),
    decreases s.len(),
{
    if s.len() == 0 {
        assert(s.push(n).drop_first() =~= s);
        assert(ser_entries(s.push(n)) =~= ser_entries(s) + ser_entry(n));
    } else {
        assert(s.push(n).drop_first() =~= s.drop_first().push(n));
        lemma_ser_entries_push(s.drop_first(), n);
        assert(ser_entries(s.push(n)) =~= ser_entries(s) + ser_entry(n));
    }
}

/// Parsing the bytes of a run of entries gives it back and leaves what
/// followed.
pub proof fn lemma_parse_ser_entries(s: Seq<NodeView>, rest: Seq<u8>, floor: Option<Seq<char>>)
    requires
        ascending(s),
        entries_fit(s),
        s.len() > 0 ==> above(floor, s[0].relative_path),
    ensures
        parse_entries(s.len(), ser_entries(s) + rest, floor) == Some((s, rest)),
    decreases s.len(),
{
    if s.len() == 0 {
        assert(ser_entries(s) + rest =~= rest);
        assert(s =~= Seq::empty());
    } else {
        let tail = s.drop_first();
        assert(ser_entries(s) + rest =~= ser_entry(s[0]) + (ser_entries(tail) + rest));
        lemma_parse_ser_entry(s[0], ser_entries(tail) + rest);
        assert(ascending(tail)) by {
            assert forall|i: int, j: int| 0 <= i < j < tail.len() implies text_lt(
                (#[trigger] tail[i]).relative_path,
                (#[trigger] tail[j]).relative_path,
            ) by {
                assert(tail[i] == s[i + 1] && tail[j] == s[j + 1]);
            }
        }
        assert(entries_fit(tail)) by {
            assert forall|i: int| 0 <= i < tail.len() implies node_fits(#[trigger] tail[i]) by {
                assert(tail[i] == s[i + 1]);
            }
        }
        if tail.len() > 0 {
            assert(tail[0] == s[1]);
        }
        lemma_parse_ser_entries(tail, rest, Some(s[0].relative_path));
        assert(seq![s[0]] + tail =~= s);
    }
}

/// What parses as entries is their serialization, and the entries are in
/// ascending order above the floor.
pub proof fn lemma_ser_parse_entries(count: nat, b: Seq<u8>, floor: Option<Seq<char>>)
    requires
        parse_entries(count, b, floor) is Some,
        count <= u64::MAX,
    ensures
        ({
            let (s, rest) = parse_entries(count, b, floor).unwrap();
            &&& s.len() == count
            &&& b == ser_entries(s) + rest
            &&& ascending(s)
            &&& entries_fit(s)
            &&& s.len() > 0 ==> above(floor, s[0].relative_path)
        }),
    decreases count,
{
    let (s, rest) = parse_entries(count, b, floor).unwrap();
    if count == 0 {
        assert(b =~= ser_entries(s) + rest);
    } else {
        lemma_ser_parse_entry(b);
        let (n, r) = parse_entry(b).unwrap();
        let key = n.relative_path;
        lemma_ser_parse_entries((count - 1) as nat, r, Some(key));
        let (tail, r2) = parse_entries((count - 1) as nat, r, Some(key)).unwrap();
        assert(s == seq![n] + tail);
        assert(s.drop_first() =~= tail);
        assert(b =~= ser_entries(s) + rest);
        assert forall|i: int, j: int| 0 <= i < j < s.len() implies text_lt(
            (#[trigger] s[i]).relative_path,
            (#[trigger] s[j]).relative_path,
        ) by {
            assert(s[j] == tail[j - 1]);
            if i == 0 {
                if j > 1 {
                    assert(text_lt(tail[0].relative_path, tail[j - 1].relative_path));
                    crate::text::lemma_text_lt_strict_total(
                        key,
                        tail[0].relative_path,
                        tail[j - 1].relative_path,
                    );
                }
            } else {
                assert(s[i] == tail[i - 1]);
            }
        }
        assert forall|i: int| 0 <= i < s.len() implies node_fits(#[trigger] s[i]) by {
            if i > 0 {
                assert(s[i] == tail[i - 1]);
            }
        }
    }
}

/// Parsing the bytes of a snapshot gives it back and leaves what followed.
pub proof fn lemma_parse_ser_listing(s: Seq<NodeView>, rest: Seq<u8>)
    requires
        ascending(s),
        entries_fit(s),
    ensures
        parse_listing(ser_index(s) + rest) == Some((s, rest)),
{
    lemma_regroup(ser_u64(s.len() as u64), ser_entries(s), rest);
    lemma_parse_ser_u64(s.len() as u64, ser_entries(s) + rest);
    lemma_parse_ser_entries(s, rest, None);
}

/// What parses as a snapshot is the bytes of what comes out.
pub proof fn lemma_ser_parse_listing(b: Seq<u8>)
    requires
        parse_listing(b) is Some,
    ensures
        b == ser_index(parse_listing(b).unwrap().0) + parse_listing(b).unwrap().1,
        ascending(parse_listing(b).unwrap().0),
        entries_fit(parse_listing(b).unwrap().0),
{
    lemma_ser_parse_u64(b);
    let (count, r) = parse_u64(b).unwrap();
    lemma_ser_parse_entries(count as nat, r, None);
    let (s, rest) = parse_entries(count as nat, r, None).unwrap();
    lemma_regroup(ser_u64(count), ser_entries(s), rest);
}

/// Decoding the snapshot of an index gives the index back.
pub proof fn lemma_snapshot_round_trip(s: Seq<NodeView>)
    requires
        ascending(s),
        entries_fit(s),
    ensures
        parse_index(ser_index(s)) == Some(s),
{
    lemma_parse_ser_listing(s, Seq::empty());
    assert(ser_index(s) + Seq::<u8>::empty() =~= ser_index(s));
}

/// A byte string that decodes is the snapshot of what it decodes to, so
/// no two byte strings decode to the same index.
pub proof fn lemma_snapshot_canonical(b: Seq<u8>)
    requires
        parse_index(b) is Some,
    ensures
        ser_index(parse_index(b).unwrap()) == b,
        ascending(parse_index(b).unwrap()),
        entries_fit(parse_index(b).unwrap()),
{
    lemma_ser_parse_listing(b);
    let (s, rest) = parse_listing(b).unwrap();
    assert(ser_index(s) + rest =~= ser_index(s));
}

/// A parse of the entries that follow, put behind the entries already
/// read.
pub open spec fn behind(acc: Seq<NodeView>, tail: Option<(Seq<NodeView>, Seq<u8>)>) -> Option<
    (Seq<NodeView>, Seq<u8>),
> {
    match tail {
        Some((rest, r)) => Some((acc + rest, r)),
        None => None,
    }
}

/// The key of the last entry read so far.
pub open spec fn floor_of(acc: Seq<NodeView>) -> Option<Seq<char>> {
    if acc.len() == 0 {
        None
    } else {
        Some(acc.last().relative_path)
    }
}

/// Appends the serialization of the record, without its key.
pub fn write_node(out: &mut Vec<u8>, node: &Node)
    ensures
        final(out)@ == old(out)@ + ser_node(node@),
        text_fits(node@.name),
        text_fits(node@.path),
{
    proof {
        reveal(ser_node);
    }
    let ghost x0 = out@;
    write_bool(out, node.is_dir);
    write_bool(out, node.is_file);
    write_bool(out, node.is_symlink);
    write_text(out, node.name.as_str());
    write_text(out, node.path.as_str());
    write_u64(out, node.len);
    write_u64(out, node.mod_seconds);
    write_u32(out, node.mod_nano);
    write_u64(out, node.inode);
    proof {
        let n = node@;
        let x1 = ser_bool(n.is_dir);
        let x2 = x1 + ser_bool(n.is_file);
        let x3 = x2 + ser_bool(n.is_symlink);
        let x4 = x3 + ser_text(n.name);
        let x5 = x4 + ser_text(n.path);
        let x6 = x5 + ser_u64(n.len);
        let x7 = x6 + ser_u64(n.mod_seconds);
        let x8 = x7 + ser_u32(n.mod_nano);
        lemma_regroup(x0, x1, ser_bool(n.is_file));
        lemma_regroup(x0, x2, ser_bool(n.is_symlink));
        lemma_regroup(x0, x3, ser_text(n.name));
        lemma_regroup(x0, x4, ser_text(n.path));
        lemma_regroup(x0, x5, ser_u64(n.len));
        lemma_regroup(x0, x6, ser_u64(n.mod_seconds));
        lemma_regroup(x0, x7, ser_u32(n.mod_nano));
        lemma_regroup(x0, x8, ser_u64(n.inode));
    }
}

/// Appends the serialization of the record after its key.
pub fn write_entry(out: &mut Vec<u8>, node: &Node)
    ensures
        final(out)@ == old(out)@ + ser_entry(node@),
        node_fits(node@),
{
    write_text(out, node.relative_path.as_str());
    write_node(out, node);
    proof {
        lemma_regroup(old(out)@, ser_text(node@.relative_path), ser_node(node@));
    }
}

/// Appends the snapshot of the index.
pub fn write_listing(out: &mut Vec<u8>, index: &Index)
    ensures
        final(out)@ == old(out)@ + ser_index(index@),
        ascending(index@),
        entries_fit(index@),
{
    let n = index.len();
    write_u64(out, n as u64);
    let ghost start = out@;
    let mut i: usize = 0;
    assert(index@.take(0) =~= Seq::empty());
    while i < n
        invariant
            i <= n == index@.len(),
            out@ == start + ser_entries(index@.take(i as int)),
            forall|j: int| 0 <= j < i ==> node_fits(#[trigger] index@[j]),
        decreases n - i,
    {
        write_entry(out, index.node(i));
        proof {
            lemma_ser_entries_push(index@.take(i as int), index@[i as int]);
            assert(index@.take(i + 1) =~= index@.take(i as int).push(index@[i as int]));
            lemma_regroup(
                start,
                ser_entries(index@.take(i as int)),
                ser_entry(index@[i as int]),
            );
        }
        i += 1;
    }
    proof {
        assert(index@.take(n as int) =~= index@);
        lemma_regroup(old(out)@, ser_u64(n as u64), ser_entries(index@));
    }
}

/// The snapshot of the index; decoding it gives the index back.
pub fn encode_index(index: &Index) -> (bytes: Vec<u8>)
    ensures
        bytes@ == ser_index(index@),
        parse_index(bytes@) == Some(index@),
{
    let mut bytes: Vec<u8> = Vec::new();
    write_listing(&mut bytes, index);
    assert(bytes@ =~= ser_index(index@));
    proof {
        lemma_snapshot_round_trip(index@);
    }
    bytes
}

/// Reads the record that is indexed under `key`.
pub fn read_node(buf: &[u8], at: usize, key: String) -> (r: Option<(Node, usize)>)
    requires
        at <= buf.len(),
    ensures
        r is Some <==> parse_node(key@, buf@.skip(at as int)) is Some,
        r is Some ==> at <= r.unwrap().1 <= buf.len() && parse_node(key@, buf@.skip(at as int))
            == Some((r.unwrap().0@, buf@.skip(r.unwrap().1 as int))),
{
    proof {
        reveal(parse_node);
    }
    let (is_dir, at) = match read_bool(buf, at) {
        Some(pair) => pair,
        None => { return None; },
    };
    let (is_file, at) = match read_bool(buf, at) {
        Some(pair) => pair,
        None => { return None; },
    };
    let (is_symlink, at) = match read_bool(buf, at) {
        Some(pair) => pair,
        None => { return None; },
    };
    let (name, at) = match read_text(buf, at) {
        Some(pair) => pair,
        None => { return None; },
    };
    let (path, at) = match read_text(buf, at) {
        Some(pair) => pair,
        None => { return None; },
    };
    let (len, at) = match read_u64(buf, at) {
        Some(pair) => pair,
        None => { return None; },
    };
    let (mod_seconds, at) = match read_u64(buf, at) {
        Some(pair) => pair,
        None => { return None; },
    };
    let (mod_nano, at) = match read_u32(buf, at) {
        Some(pair) => pair,
        None => { return None; },
    };
    let (inode, at) = match read_u64(buf, at) {
        Some(pair) => pair,
        None => { return None; },
    };
    Some(
        (
            Node {
                is_dir,
                is_file,
                is_symlink,
                name,
                path,
                relative_path: key,
                len,
                mod_seconds,
                mod_nano,
                inode,
            },
            at,
        ),
    )
}

/// Reads a key and the record that is indexed under it.
pub fn read_entry(buf: &[u8], at: usize) -> (r: Option<(Node, usize)>)
    requires
        at <= buf.len(),
    ensures
        r is Some <==> parse_entry(buf@.skip(at as int)) is Some,
        r is Some ==> at <= r.unwrap().1 <= buf.len() && parse_entry(buf@.skip(at as int))
            == Some((r.unwrap().0@, buf@.skip(r.unwrap().1 as int))),
{
    match read_text(buf, at) {
        Some((key, next)) => read_node(buf, next, key),
        None => None,
    }
}

/// Reads a snapshot from `buf` at `at` and says where it ends.
pub fn read_listing(buf: &[u8], at: usize) -> (r: Option<(Index, usize)>)
    requires
        at <= buf.len(),
    ensures
        r is Some <==> parse_listing(buf@.skip(at as int)) is Some,
        r is Some ==> at <= r.unwrap().1 <= buf.len() && parse_listing(buf@.skip(at as int))
            == Some((r.unwrap().0@, buf@.skip(r.unwrap().1 as int))),
{
    let (count, start) = match read_u64(buf, at) {
        Some(pair) => pair,
        None => { return None; },
    };
    let ghost whole = parse_entries(count as nat, buf@.skip(start as int), None);
    let mut index = Index::new();
    let mut i: u64 = 0;
    let mut pos: usize = start;
    proof {
        if whole is Some {
            assert(Seq::<NodeView>::empty() + whole.unwrap().0 =~= whole.unwrap().0);
        }
    }
    while i < count
        invariant
            i <= count,
            at <= start <= pos <= buf.len(),
            parse_listing(buf@.skip(at as int)) == whole,
            index@.len() == i,
            whole == behind(
                index@,
                parse_entries((count - i) as nat, buf@.skip(pos as int), floor_of(index@)),
            ),
        decreases count - i,
    {
        let ghost acc = index@;
        let (node, next) = match read_entry(buf, pos) {
            Some(pair) => pair,
            None => { return None; },
        };
        let ghost n = node@;
        if !index.push_back(node) {
            return None;
        }
        proof {
            let tail = parse_entries((count - i - 1) as nat, buf@.skip(next as int), Some(
                n.relative_path,
            ));
            if tail is Some {
                assert(acc + (seq![n] + tail.unwrap().0) =~= acc.push(n) + tail.unwrap().0);
            }
        }
        pos = next;
        i += 1;
    }
    assert(index@ + Seq::<NodeView>::empty() =~= index@);
    Some((index, pos))
}

/// Decodes a snapshot. The bytes must be the snapshot of an index, to the
/// last byte; then they are the snapshot of the index that comes out, and
/// of no other.
pub fn decode_index(bytes: &[u8]) -> (r: Result<Index, Error>)
    ensures
        r is Ok <==> parse_index(bytes@) is Some,
        r is Ok ==> parse_index(bytes@) == Some(r.unwrap()@),
        r is Ok ==> ser_index(r.unwrap()@) == bytes@,
        r is Err ==> r matches Err(Error::SnapshotDecodeError),
{
    assert(bytes@.skip(0) =~= bytes@);
    proof {
        if parse_index(bytes@) is Some {
            lemma_snapshot_canonical(bytes@);
        }
    }
    match read_listing(bytes, 0) {
        Some((index, end)) => {
            if end == bytes.len() {
                Ok(index)
            } else {
                Err(Error::SnapshotDecodeError)
            }
        },
        None => Err(Error::SnapshotDecodeError),
    }
}

} // verus!
