//! What holds of every run of a participant.

use crate::message::{Endpoint, MessageView};
use crate::participant::{
    step, steps, ParticipantActionView, ParticipantEventView, ParticipantState,
};
use crate::registry::{lemma_without_name, names_distinct, without_name};
use crate::text::spec_join;
use crate::transfer::{concat, lemma_concat_front, lemma_pieces, pieces, TransferView};
use vstd::prelude::*;

verus! {

/// The names of the known participants are distinct, and the file that
/// is arriving has not passed its expected size.
pub open spec fn sound(s: ParticipantState) -> bool {
    &&& names_distinct(s.known)
    &&& s.inbound is Some ==> s.inbound.unwrap().current_size <= s.inbound.unwrap().expected_size
}

/// Every turn of the event loop keeps the state sound.
pub proof fn lemma_step_keeps_sound(s: ParticipantState, e: ParticipantEventView)
    requires
        sound(s),
    ensures
        sound(step(s, e).0),
{
    let after = step(s, e).0;
    match e {
        ParticipantEventView::Message(endpoint, m) => {
            match m {
                MessageView::ParticipantNotificationRemoved(name) => {
                    lemma_without_name(s.known, name);
                },
                _ => {},
            }
        },
        ParticipantEventView::GossipOpened(name, addr, endpoint) => {
            lemma_without_name(s.known, name);
            if endpoint is Some {
                let left = without_name(s.known, name);
                let known = after.known;
                assert(known == left.push(known.last()));
                assert forall|i: int, j: int| 0 <= i < j < known.len() implies (
                #[trigger] known[i]).name != (#[trigger] known[j]).name by {
                    if j == known.len() - 1 {
                        assert(left[i].name != name);
                    } else {
                        assert(known[i] == left[i] && known[j] == left[j]);
                    }
                }
            }
        },
        _ => {},
    }
}

/// However many events are handled, the state stays sound.
pub proof fn lemma_steps_keep_sound(s: ParticipantState, es: Seq<ParticipantEventView>)
    requires
        sound(s),
    ensures
        sound(steps(s, es).0),
    decreases es.len(),
{
    if es.len() > 0 {
        lemma_steps_keep_sound(s, es.drop_last());
        lemma_step_keeps_sound(steps(s, es.drop_last()).0, es.last());
    }
}

/// Handling two lists of events one after the other is handling them as
/// one list.
pub proof fn lemma_steps_concat(
    s: ParticipantState,
    a: Seq<ParticipantEventView>,
    b: Seq<ParticipantEventView>,
)
    ensures
        steps(s, a + b) == ({
            let (mid, first) = steps(s, a);
            let (end, second) = steps(mid, b);
            (end, first + second)
        }),
    decreases b.len(),
{
    if b.len() == 0 {
        assert(a + b =~= a);
        assert(steps(s, a).1 + Seq::<ParticipantActionView>::empty() =~= steps(s, a).1);
    } else {
        assert((a + b).drop_last() =~= a + b.drop_last());
        assert((a + b).last() == b.last());
        lemma_steps_concat(s, a, b.drop_last());
        let (mid, first) = steps(s, a);
        let (almost, second) = steps(mid, b.drop_last());
        let (end, last) = step(almost, b.last());
        assert((first + second) + last =~= first + (second + last));
    }
}

/// A list of one event is handled in one turn.
pub proof fn lemma_steps_single(s: ParticipantState, e: ParticipantEventView)
    ensures
        steps(s, seq![e]) == step(s, e),
{
    let none = Seq::<ParticipantEventView>::empty();
    assert(seq![e].drop_last() =~= none);
    assert(seq![e].last() == e);
    assert(steps(s, none) == (s, Seq::<ParticipantActionView>::empty()));
    assert(Seq::<ParticipantActionView>::empty() + step(s, e).1 =~= step(s, e).1);
}

/// The chunks as they arrive from an endpoint.
pub open spec fn chunk_events(from: Endpoint, chunks: Seq<Seq<u8>>) -> Seq<ParticipantEventView> {
    Seq::new(
        chunks.len(),
        |i: int| ParticipantEventView::Message(from, MessageView::Chunk(chunks[i])),
    )
}

/// The chunks as they are written to the file of this name.
pub open spec fn writes(name: Seq<char>, chunks: Seq<Seq<u8>>) -> Seq<ParticipantActionView> {
    Seq::new(chunks.len(), |i: int| ParticipantActionView::Write(name, chunks[i]))
}

/// What a list of byte strings puts together is as long as its parts.
proof fn lemma_concat_len(chunks: Seq<Seq<u8>>)
    ensures
        chunks.len() > 0 ==> concat(chunks).len() == concat(chunks.drop_last()).len()
            + chunks.last().len(),
        chunks.len() > 0 ==> concat(chunks).len() >= chunks[0].len(),
    decreases chunks.len(),
{
    if chunks.len() > 1 {
        lemma_concat_len(chunks.drop_last());
        assert(chunks.drop_last()[0] == chunks[0]);
    } else if chunks.len() == 1 {
        assert(concat(chunks.drop_last()) =~= Seq::<u8>::empty());
    }
}

/// While a file is arriving and the chunks do not complete it, every
/// chunk is written to it and counted.
proof fn lemma_chunks_in_progress(s: ParticipantState, chunks: Seq<Seq<u8>>)
    requires
        s.inbound is Some,
        s.inbound.unwrap().current_size + concat(chunks).len() < s.inbound.unwrap().expected_size,
    ensures
        steps(s, chunk_events(s.discovery, chunks)) == (
            ParticipantState {
                inbound: Some(s.inbound.unwrap().advanced(concat(chunks).len() as int)),
                ..s
            },
            writes(s.inbound.unwrap().name, chunks),
        ),
    decreases chunks.len(),
{
    let t = s.inbound.unwrap();
    let events = chunk_events(s.discovery, chunks);
    if chunks.len() == 0 {
        assert(t.advanced(0) == t);
        assert(writes(t.name, chunks) =~= Seq::<ParticipantActionView>::empty());
    } else {
        let head = chunks.drop_last();
        let last = chunks.last();
        lemma_concat_len(chunks);
        lemma_chunks_in_progress(s, head);
        assert(events.drop_last() =~= chunk_events(s.discovery, head));
        assert(events.last() == ParticipantEventView::Message(
            s.discovery,
            MessageView::Chunk(last),
        ));
        let mid = steps(s, events.drop_last()).0;
        let done = concat(head).len() as int;
        assert(mid.inbound == Some(t.advanced(done)));
        assert(t.advanced(done).advanced(last.len() as int) == t.advanced(
            concat(chunks).len() as int,
        ));
        assert(Seq::<ParticipantActionView>::empty() + seq![
            ParticipantActionView::Write(t.name, last),
        ] =~= seq![ParticipantActionView::Write(t.name, last)]);
        assert(writes(t.name, head) + seq![ParticipantActionView::Write(t.name, last)]
            =~= writes(t.name, chunks));
    }
}

/// The chunks that bring a file that is arriving to its expected size
/// are all written to it, and then the file is closed.
pub proof fn lemma_chunks_complete_file(s: ParticipantState, chunks: Seq<Seq<u8>>)
    requires
        s.inbound is Some,
        chunks.len() > 0,
        forall|i: int| 0 <= i < chunks.len() ==> (#[trigger] chunks[i]).len() > 0,
        s.inbound.unwrap().current_size + concat(chunks).len() == s.inbound.unwrap().expected_size,
    ensures
        steps(s, chunk_events(s.discovery, chunks)) == (
            ParticipantState { inbound: None, ..s },
            writes(s.inbound.unwrap().name, chunks) + seq![
                ParticipantActionView::Close(s.inbound.unwrap().name),
            ],
        ),
{
    let t = s.inbound.unwrap();
    let events = chunk_events(s.discovery, chunks);
    let head = chunks.drop_last();
    let last = chunks.last();
    lemma_concat_len(chunks);
    assert(chunks[chunks.len() - 1].len() > 0);
    lemma_chunks_in_progress(s, head);
    assert(events.drop_last() =~= chunk_events(s.discovery, head));
    assert(events.last() == ParticipantEventView::Message(s.discovery, MessageView::Chunk(last)));
    let mid = steps(s, events.drop_last()).0;
    let done = concat(head).len() as int;
    assert(mid.inbound == Some(t.advanced(done)));
    assert(t.advanced(done).advanced(last.len() as int).complete());
    let closing = seq![
        ParticipantActionView::Write(t.name, last),
        ParticipantActionView::Close(t.name),
    ];
    assert(Seq::<ParticipantActionView>::empty() + closing =~= closing);
    assert(writes(t.name, head) + closing =~= writes(t.name, chunks) + seq![
        ParticipantActionView::Close(t.name),
    ]);
}

/// With no file arriving, the chunks of the first expected file rebuild
/// it: the file is created, every chunk is written to it in the order
/// of its arrival, and the file is closed when the last chunk has
/// brought it to its expected size.
pub proof fn lemma_chunks_rebuild_file(s: ParticipantState, chunks: Seq<Seq<u8>>)
    requires
        s.inbound is None,
        s.expected.len() > 0,
        chunks.len() > 0,
        forall|i: int| 0 <= i < chunks.len() ==> (#[trigger] chunks[i]).len() > 0,
        concat(chunks).len() == s.expected[0].size,
    ensures
        steps(s, chunk_events(s.discovery, chunks)) == (
            ParticipantState { expected: s.expected.drop_first(), inbound: None, ..s },
            seq![
                ParticipantActionView::Create(
                    s.expected[0].name,
                    spec_join(s.synchronizer.config.root, s.expected[0].name),
                ),
            ] + writes(s.expected[0].name, chunks) + seq![
                ParticipantActionView::Close(s.expected[0].name),
            ],
        ),
{
    let name = s.expected[0].name;
    let create = ParticipantActionView::Create(name, spec_join(s.synchronizer.config.root, name));
    let close = ParticipantActionView::Close(name);
    let events = chunk_events(s.discovery, chunks);
    let first = chunks[0];
    let rest = chunks.drop_first();
    let e0 = ParticipantEventView::Message(s.discovery, MessageView::Chunk(first));
    assert(chunks =~= seq![first] + rest);
    lemma_concat_front(first, rest);
    lemma_steps_single(s, e0);
    let begun = TransferView {
        endpoint: s.discovery,
        name,
        current_size: 0,
        expected_size: s.expected[0].size,
    };
    if rest.len() == 0 {
        assert(concat(rest) =~= Seq::<u8>::empty());
        assert(events =~= seq![e0]);
        assert(begun.advanced(first.len() as int).complete());
        assert(seq![create] + seq![ParticipantActionView::Write(name, first), close] =~= seq![
            create,
        ] + writes(name, chunks) + seq![close]);
    } else {
        assert forall|i: int| 0 <= i < rest.len() implies (#[trigger] rest[i]).len() > 0 by {
            assert(rest[i] == chunks[i + 1]);
        }
        lemma_concat_len(rest);
        assert(rest[rest.len() - 1].len() > 0);
        let s1 = step(s, e0).0;
        assert(s1 == ParticipantState {
            expected: s.expected.drop_first(),
            inbound: Some(begun.advanced(first.len() as int)),
            ..s
        });
        assert(step(s, e0).1 =~= seq![create, ParticipantActionView::Write(name, first)]);
        lemma_chunks_complete_file(s1, rest);
        assert(events =~= seq![e0] + chunk_events(s.discovery, rest));
        lemma_steps_concat(s, seq![e0], chunk_events(s.discovery, rest));
        assert(seq![create, ParticipantActionView::Write(name, first)] + (writes(name, rest)
            + seq![close]) =~= seq![create] + writes(name, chunks) + seq![close]);
    }
}

/// A file that the server sends in its pieces arrives whole: with no
/// file arriving and the file first among the expected ones, its pieces
/// are written in order to the file that is created for it, which is
/// closed after the last, and the pieces put together are the file.
pub proof fn lemma_file_arrives_whole(s: ParticipantState, file: Seq<u8>)
    requires
        s.inbound is None,
        s.expected.len() > 0,
        file.len() > 0,
        file.len() == s.expected[0].size,
    ensures
        concat(pieces(file, 0)) == file,
        steps(s, chunk_events(s.discovery, pieces(file, 0))) == (
            ParticipantState { expected: s.expected.drop_first(), inbound: None, ..s },
            seq![
                ParticipantActionView::Create(
                    s.expected[0].name,
                    spec_join(s.synchronizer.config.root, s.expected[0].name),
                ),
            ] + writes(s.expected[0].name, pieces(file, 0)) + seq![
                ParticipantActionView::Close(s.expected[0].name),
            ],
        ),
{
    lemma_pieces(file, 0);
    assert(file.skip(0) =~= file);
    lemma_chunks_rebuild_file(s, pieces(file, 0));
}

} // verus!
