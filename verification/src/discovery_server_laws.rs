//! What holds of every run of the discovery server.

use crate::discovery_server::{
    first_transfer, lemma_first_transfer, lemma_first_transfer_found, on_file_opened, on_message,
    step, steps, transfers_split, ServerActionView, ServerEventView, ServerView,
};
use crate::error::Error;
use crate::message::{Endpoint, MessageView, SocketAddress, CHUNK_SIZE};
use crate::registry::{
    bound, lemma_split_by_endpoint, lemma_without_name, names_distinct, registered,
};
use crate::transfer::{concat, lemma_pieces, pieces, TransferView};
use vstd::prelude::*;

verus! {

/// A registration under a name that is in use leaves the server as it
/// was and calls for nothing but the note that it was turned down: no
/// list goes to the newcomer and nobody is told of it.
pub proof fn lemma_duplicate_name_rejected(
    s: ServerView,
    endpoint: Endpoint,
    name: Seq<char>,
    addr: SocketAddress,
)
    requires
        registered(s.participants, name),
    ensures
        step(
            s,
            ServerEventView::Message(endpoint, MessageView::RegisterParticipant(name, addr)),
        ) == (s, seq![ServerActionView::Reject(Error::DuplicateName)]),
{
}

/// Of two registrations under one name the second is turned down,
/// whatever became of the first and whoever sent them.
pub proof fn lemma_second_registration_rejected(
    s: ServerView,
    first: Endpoint,
    second: Endpoint,
    name: Seq<char>,
    addr1: SocketAddress,
    addr2: SocketAddress,
)
    ensures
        ({
            let after = step(
                s,
                ServerEventView::Message(first, MessageView::RegisterParticipant(name, addr1)),
            ).0;
            step(
                after,
                ServerEventView::Message(second, MessageView::RegisterParticipant(name, addr2)),
            ) == (after, seq![ServerActionView::Reject(Error::DuplicateName)])
        }),
{
    let after = step(
        s,
        ServerEventView::Message(first, MessageView::RegisterParticipant(name, addr1)),
    ).0;
    if !registered(s.participants, name) {
        assert(after.participants[s.participants.len() as int].name == name);
    }
}

/// Whether a transfer goes to this endpoint.
pub open spec fn sending_to(ts: Seq<TransferView>, endpoint: Endpoint) -> bool {
    exists|i: int| 0 <= i < ts.len() && (#[trigger] ts[i]).endpoint == endpoint
}

/// What is left when the transfers to an endpoint are dropped was there
/// before, and none of it goes to the endpoint.
proof fn lemma_transfers_split(ts: Seq<TransferView>, endpoint: Endpoint)
    ensures
        !sending_to(transfers_split(ts, endpoint, false), endpoint),
        forall|i: int|
            0 <= i < transfers_split(ts, endpoint, false).len() ==> ts.contains(
                #[trigger] transfers_split(ts, endpoint, false)[i],
            ),
    decreases ts.len(),
{
    let out = transfers_split(ts, endpoint, false);
    if ts.len() > 0 {
        let head = ts.drop_last();
        let sub = transfers_split(head, endpoint, false);
        lemma_transfers_split(head, endpoint);
        if sending_to(out, endpoint) {
            let i = choose|i: int| 0 <= i < out.len() && (#[trigger] out[i]).endpoint == endpoint;
            if i < sub.len() {
                assert(sub[i].endpoint == endpoint);
            }
        }
        assert forall|i: int| 0 <= i < out.len() implies ts.contains(#[trigger] out[i]) by {
            if i < sub.len() {
                assert(out[i] == sub[i]);
                assert(head.contains(sub[i]));
                let j = choose|j: int| 0 <= j < head.len() && head[j] == sub[i];
                assert(ts[j] == out[i]);
            } else {
                assert(ts[ts.len() - 1] == out[i]);
            }
        }
    }
}

/// After an endpoint is lost, nobody in the registry is reached through
/// it and no transfer goes to it.
pub proof fn lemma_endpoint_cleanup(s: ServerView, endpoint: Endpoint)
    ensures
        !bound(step(s, ServerEventView::RemovedEndpoint(endpoint)).0.participants, endpoint),
        !sending_to(step(s, ServerEventView::RemovedEndpoint(endpoint)).0.outbound, endpoint),
{
    lemma_split_by_endpoint(s.participants, endpoint, false);
    lemma_transfers_split(s.outbound, endpoint);
}

/// The names of the registry are distinct, and no transfer has passed
/// its expected size.
pub open spec fn sound(s: ServerView) -> bool {
    &&& names_distinct(s.participants)
    &&& forall|i: int|
        0 <= i < s.outbound.len() ==> (#[trigger] s.outbound[i]).current_size
            <= s.outbound[i].expected_size
}

/// Every turn of the event loop keeps the state sound.
pub proof fn lemma_step_keeps_sound(s: ServerView, e: ServerEventView)
    requires
        sound(s),
    ensures
        sound(step(s, e).0),
{
    let after = step(s, e).0;
    match e {
        ServerEventView::Message(endpoint, m) => {
            match m {
                MessageView::RegisterParticipant(name, addr) => {
                    if !registered(s.participants, name) {
                        let ps = after.participants;
                        assert forall|i: int, j: int| 0 <= i < j < ps.len() implies (
                        #[trigger] ps[i]).name != (#[trigger] ps[j]).name by {
                            if j == ps.len() - 1 {
                                assert(s.participants[i].name != name);
                            } else {
                                assert(ps[i] == s.participants[i] && ps[j] == s.participants[j]);
                            }
                        }
                    }
                },
                MessageView::UnregisterParticipant(name) => {
                    lemma_without_name(s.participants, name);
                },
                _ => {},
            }
        },
        ServerEventView::RemovedEndpoint(endpoint) => {
            lemma_split_by_endpoint(s.participants, endpoint, false);
            lemma_transfers_split(s.outbound, endpoint);
            let out = after.outbound;
            assert forall|i: int| 0 <= i < out.len() implies (#[trigger] out[i]).current_size
                <= out[i].expected_size by {
                assert(s.outbound.contains(out[i]));
                let j = choose|j: int| 0 <= j < s.outbound.len() && s.outbound[j] == out[i];
                assert(s.outbound[j].current_size <= s.outbound[j].expected_size);
            }
        },
        ServerEventView::SendChunk(endpoint, name) => {
            lemma_first_transfer_found(s.outbound, endpoint, name);
            let out = after.outbound;
            assert forall|i: int| 0 <= i < out.len() implies (#[trigger] out[i]).current_size
                <= out[i].expected_size by {
                if out != s.outbound {
                    let k = first_transfer(s.outbound, endpoint, name).unwrap();
                    if i < k {
                        assert(out[i] == s.outbound[i]);
                    } else {
                        assert(out[i] == s.outbound[i + 1]);
                    }
                }
            }
        },
        ServerEventView::FileOpened(endpoint, name, meta) => {
            let out = after.outbound;
            assert forall|i: int| 0 <= i < out.len() implies (#[trigger] out[i]).current_size
                <= out[i].expected_size by {
                if i < s.outbound.len() {
                    assert(out[i] == s.outbound[i]);
                }
            }
        },
        ServerEventView::ChunkRead(endpoint, name, data) => {
            lemma_first_transfer_found(s.outbound, endpoint, name);
            let out = after.outbound;
            assert forall|i: int| 0 <= i < out.len() implies (#[trigger] out[i]).current_size
                <= out[i].expected_size by {
                if out != s.outbound {
                    let k = first_transfer(s.outbound, endpoint, name).unwrap();
                    assert(s.outbound[k].current_size <= s.outbound[k].expected_size);
                    if out.len() == s.outbound.len() {
                        if i != k {
                            assert(out[i] == s.outbound[i]);
                        }
                    } else if i < k {
                        assert(out[i] == s.outbound[i]);
                    } else {
                        assert(out[i] == s.outbound[i + 1]);
                    }
                }
            }
        },
        _ => {},
    }
}

/// However many events are handled, the state stays sound.
pub proof fn lemma_steps_keep_sound(s: ServerView, es: Seq<ServerEventView>)
    requires
        sound(s),
    ensures
        sound(steps(s, es).0),
    decreases es.len(),
{
    if es.len() > 0 {
        lemma_steps_keep_sound(s, es.drop_last());
        lemma_step_keeps_sound(steps(s, es.drop_last()).0, es.last());
    }
}

/// Whether the event touches the transfer of this name to this endpoint:
/// a chunk of it is due or was read, or its endpoint is lost.
pub open spec fn concerns(e: ServerEventView, endpoint: Endpoint, name: Seq<char>) -> bool {
    match e {
        ServerEventView::SendChunk(to, file) => to == endpoint && file == name,
        ServerEventView::ChunkRead(to, file, _) => to == endpoint && file == name,
        ServerEventView::RemovedEndpoint(to) => to == endpoint,
        _ => false,
    }
}

/// A transfer goes on undisturbed while other things happen: an event
/// that does not touch it leaves it first among the transfers of its
/// name to its endpoint, and as far on as it was. So the chunks of a
/// transfer come in the order of the file, whatever comes between them.
pub proof fn lemma_other_events_spare_transfer(
    s: ServerView,
    e: ServerEventView,
    endpoint: Endpoint,
    name: Seq<char>,
)
    requires
        first_transfer(s.outbound, endpoint, name) is Some,
        !concerns(e, endpoint, name),
    ensures
        first_transfer(step(s, e).0.outbound, endpoint, name) is Some,
        step(s, e).0.outbound[first_transfer(step(s, e).0.outbound, endpoint, name).unwrap()]
            == s.outbound[first_transfer(s.outbound, endpoint, name).unwrap()],
{
    lemma_first_transfer_found(s.outbound, endpoint, name);
    let i = first_transfer(s.outbound, endpoint, name).unwrap();
    let after = step(s, e).0.outbound;
    match e {
        ServerEventView::FileOpened(to, file, meta) => {
            assert(step(s, e) == on_file_opened(s, to, file, meta));
            if meta is Some && meta.unwrap().is_file {
                assert(after.len() == s.outbound.len() + 1);
                assert forall|j: int| 0 <= j < i implies !((#[trigger] after[j]).endpoint
                    == endpoint && after[j].name == name) by {
                    assert(after[j] == s.outbound[j]);
                }
                assert(after[i] == s.outbound[i]);
                lemma_first_transfer(after, endpoint, name, i);
            } else {
                assert(after == s.outbound);
            }
        },
        ServerEventView::SendChunk(to, file) => {
            lemma_first_transfer_found(s.outbound, to, file);
            lemma_spared(s.outbound, after, endpoint, name, to, file);
        },
        ServerEventView::ChunkRead(to, file, data) => {
            lemma_first_transfer_found(s.outbound, to, file);
            lemma_spared(s.outbound, after, endpoint, name, to, file);
        },
        ServerEventView::Message(from, m) => {
            assert(on_message(s, from, m).0.outbound == s.outbound);
        },
        ServerEventView::RemovedEndpoint(other) => {
            let head = s.outbound.take(i);
            let tail = s.outbound.skip(i + 1);
            assert(s.outbound =~= head + seq![s.outbound[i]] + tail);
            lemma_split_concat(head + seq![s.outbound[i]], tail, other);
            lemma_split_concat(head, seq![s.outbound[i]], other);
            let one = seq![s.outbound[i]];
            assert(one.drop_last() =~= Seq::<TransferView>::empty());
            assert(one.last() == s.outbound[i]);
            assert(transfers_split(one.drop_last(), other, false) =~= Seq::<TransferView>::empty());
            assert(s.outbound[i].endpoint != other);
            assert(transfers_split(one, other, false) =~= one);
            lemma_transfers_split(head, other);
            let kept = transfers_split(head, other, false);
            assert forall|j: int| 0 <= j < kept.len() implies !((#[trigger] after[j]).endpoint
                == endpoint && after[j].name == name) by {
                assert(after[j] == kept[j]);
                assert(head.contains(kept[j]));
                let k = choose|k: int| 0 <= k < head.len() && head[k] == kept[j];
                assert(s.outbound[k] == kept[j]);
            }
            assert(after[kept.len() as int] == s.outbound[i]);
            lemma_first_transfer(after, endpoint, name, kept.len() as int);
        },
        _ => {},
    }
}

/// Dropping the transfers to an endpoint from two lists and joining what
/// is left is dropping them from the joined list.
proof fn lemma_split_concat(a: Seq<TransferView>, b: Seq<TransferView>, endpoint: Endpoint)
    ensures
        transfers_split(a + b, endpoint, false) == transfers_split(a, endpoint, false)
            + transfers_split(b, endpoint, false),
    decreases b.len(),
{
    if b.len() == 0 {
        assert(a + b =~= a);
        assert(transfers_split(a, endpoint, false) + transfers_split(b, endpoint, false)
            =~= transfers_split(a, endpoint, false));
    } else {
        assert((a + b).drop_last() =~= a + b.drop_last());
        assert((a + b).last() == b.last());
        lemma_split_concat(a, b.drop_last(), endpoint);
        assert(transfers_split(a + b, endpoint, false) =~= transfers_split(a, endpoint, false)
            + transfers_split(b, endpoint, false));
    }
}

/// Ending or advancing the first transfer of another name or to another
/// endpoint leaves the first transfer of this name to this endpoint
/// first, and as it was.
proof fn lemma_spared(
    before: Seq<TransferView>,
    after: Seq<TransferView>,
    endpoint: Endpoint,
    name: Seq<char>,
    other: Endpoint,
    file: Seq<char>,
)
    requires
        first_transfer(before, endpoint, name) is Some,
        !(other == endpoint && file == name),
        after == before || (first_transfer(before, other, file) is Some && (after == before.remove(
            first_transfer(before, other, file).unwrap(),
        ) || (after.len() == before.len() && after[first_transfer(
            before,
            other,
            file,
        ).unwrap()].endpoint == other && after[first_transfer(before, other, file).unwrap()].name
            == file && forall|j: int|
            0 <= j < before.len() && j != first_transfer(before, other, file).unwrap()
                ==> #[trigger] after[j] == before[j]))),
    ensures
        first_transfer(after, endpoint, name) is Some,
        after[first_transfer(after, endpoint, name).unwrap()] == before[first_transfer(
            before,
            endpoint,
            name,
        ).unwrap()],
{
    lemma_first_transfer_found(before, endpoint, name);
    let i = first_transfer(before, endpoint, name).unwrap();
    if after != before {
        lemma_first_transfer_found(before, other, file);
        let k = first_transfer(before, other, file).unwrap();
        if after.len() == before.len() {
            assert forall|j: int| 0 <= j < i implies !((#[trigger] after[j]).endpoint == endpoint
                && after[j].name == name) by {
                if j != k {
                    assert(after[j] == before[j]);
                }
            }
            assert(after[i] == before[i]);
            lemma_first_transfer(after, endpoint, name, i);
        } else if k < i {
            assert forall|j: int| 0 <= j < i - 1 implies !((#[trigger] after[j]).endpoint
                == endpoint && after[j].name == name) by {
                if j < k {
                    assert(after[j] == before[j]);
                } else {
                    assert(after[j] == before[j + 1]);
                }
            }
            assert(after[i - 1] == before[i]);
            lemma_first_transfer(after, endpoint, name, i - 1);
        } else {
            assert forall|j: int| 0 <= j < i implies !((#[trigger] after[j]).endpoint == endpoint
                && after[j].name == name) by {
                assert(after[j] == before[j]);
            }
            assert(after[i] == before[i]);
            lemma_first_transfer(after, endpoint, name, i);
        }
    }
}

/// The chunks that reach the endpoint of a transfer while the server
/// sends it and every piece it asks for is read from `file` where the
/// transfer stands: their payloads, in the order in which they are sent.
/// At most `rounds` chunks are followed.
pub open spec fn chunks_sent(
    s: ServerView,
    endpoint: Endpoint,
    name: Seq<char>,
    file: Seq<u8>,
    rounds: nat,
) -> Seq<Seq<u8>>
    decreases rounds,
{
    if rounds == 0 {
        Seq::empty()
    } else {
        match first_transfer(s.outbound, endpoint, name) {
            Some(i) => {
                let due = step(s, ServerEventView::SendChunk(endpoint, name));
                if due.1 == seq![
                    ServerActionView::Read(endpoint, name, s.outbound[i].next_len() as u64),
                ] {
                    let from = s.outbound[i].current_size as int;
                    let data = file.subrange(from, from + s.outbound[i].next_len());
                    let read = step(due.0, ServerEventView::ChunkRead(endpoint, name, data));
                    if read.1 == seq![
                        ServerActionView::Send(endpoint, MessageView::Chunk(data)),
                        ServerActionView::Enqueue(endpoint, name),
                    ] {
                        seq![data] + chunks_sent(read.0, endpoint, name, file, (rounds - 1) as nat)
                    } else {
                        Seq::empty()
                    }
                } else {
                    Seq::empty()
                }
            },
            None => Seq::empty(),
        }
    }
}

/// The chunks of a transfer are the pieces of the file from where the
/// transfer stands to the end, in order: whole chunks and, at the end,
/// what is left.
pub proof fn lemma_chunks_are_pieces(
    s: ServerView,
    endpoint: Endpoint,
    name: Seq<char>,
    file: Seq<u8>,
    rounds: nat,
)
    requires
        first_transfer(s.outbound, endpoint, name) is Some,
        ({
            let t = s.outbound[first_transfer(s.outbound, endpoint, name).unwrap()];
            &&& t.current_size <= t.expected_size
            &&& t.expected_size == file.len()
            &&& rounds * CHUNK_SIZE >= t.expected_size - t.current_size
        }),
    ensures
        chunks_sent(s, endpoint, name, file, rounds) == pieces(
            file,
            s.outbound[first_transfer(s.outbound, endpoint, name).unwrap()].current_size as int,
        ),
    decreases rounds,
{
    lemma_first_transfer_found(s.outbound, endpoint, name);
    let i = first_transfer(s.outbound, endpoint, name).unwrap();
    let t = s.outbound[i];
    let from = t.current_size as int;
    if rounds == 0 {
    } else if t.complete() {
        let due = step(s, ServerEventView::SendChunk(endpoint, name));
        assert(due.1[0] == ServerActionView::Close(endpoint, name));
    } else {
        let len = t.next_len();
        let data = file.subrange(from, from + len);
        let due = step(s, ServerEventView::SendChunk(endpoint, name));
        assert(due.0 == s);
        let read = step(s, ServerEventView::ChunkRead(endpoint, name, data));
        let next = read.0;
        assert(next.outbound == s.outbound.update(i, t.advanced(len)));
        assert forall|j: int| 0 <= j < i implies !((#[trigger] next.outbound[j]).endpoint
            == endpoint && next.outbound[j].name == name) by {
            assert(next.outbound[j] == s.outbound[j]);
        }
        lemma_first_transfer(next.outbound, endpoint, name, i);
        assert(rounds * CHUNK_SIZE - CHUNK_SIZE == (rounds - 1) * CHUNK_SIZE) by (nonlinear_arith);
        lemma_chunks_are_pieces(next, endpoint, name, file, (rounds - 1) as nat);
        assert(next.outbound[i].current_size == from + len);
        assert(due.1 == seq![ServerActionView::Read(endpoint, name, len as u64)]);
        assert(read.1 == seq![
            ServerActionView::Send(endpoint, MessageView::Chunk(data)),
            ServerActionView::Enqueue(endpoint, name),
        ]);
        if file.len() - from <= CHUNK_SIZE {
            assert(data =~= file.skip(from));
            assert(pieces(file, from + len) =~= Seq::<Seq<u8>>::empty());
            assert(seq![data] + Seq::<Seq<u8>>::empty() =~= seq![data]);
        }
    }
}

/// The chunks of a transfer, put together in the order in which they are
/// sent, are the bytes of the file from where the transfer stands to the
/// end; for a transfer that has just begun, the whole file.
pub proof fn lemma_chunks_deliver_file(
    s: ServerView,
    endpoint: Endpoint,
    name: Seq<char>,
    file: Seq<u8>,
    rounds: nat,
)
    requires
        first_transfer(s.outbound, endpoint, name) is Some,
        ({
            let t = s.outbound[first_transfer(s.outbound, endpoint, name).unwrap()];
            &&& t.current_size <= t.expected_size
            &&& t.expected_size == file.len()
            &&& rounds * CHUNK_SIZE >= t.expected_size - t.current_size
        }),
    ensures
        concat(chunks_sent(s, endpoint, name, file, rounds)) == file.skip(
            s.outbound[first_transfer(s.outbound, endpoint, name).unwrap()].current_size as int,
        ),
{
    lemma_first_transfer_found(s.outbound, endpoint, name);
    lemma_chunks_are_pieces(s, endpoint, name, file, rounds);
    let i = first_transfer(s.outbound, endpoint, name).unwrap();
    lemma_pieces(file, s.outbound[i].current_size as int);
}

} // verus!
