//! One file on its way from a sender to a receiver.

use crate::message::{Endpoint, CHUNK_SIZE};
use vstd::prelude::*;

verus! {

/// The mathematical content of a [`Transfer`].
pub struct TransferView {
    pub endpoint: Endpoint,
    pub name: Seq<char>,
    pub current_size: u64,
    pub expected_size: u64,
}

impl TransferView {
    /// The bytes that are still to come.
    pub open spec fn remaining(self) -> int {
        self.expected_size - self.current_size
    }

    /// Every expected byte has passed.
    pub open spec fn complete(self) -> bool {
        self.current_size == self.expected_size
    }

    /// The length of the next piece: a whole chunk, or what is left.
    pub open spec fn next_len(self) -> int {
        if self.remaining() < CHUNK_SIZE {
            self.remaining()
        } else {
            CHUNK_SIZE as int
        }
    }

    /// The transfer after `n` more bytes have passed.
    pub open spec fn advanced(self, n: int) -> TransferView {
        TransferView { current_size: (self.current_size + n) as u64, ..self }
    }
}

/// A file in flight: whom it goes to or comes from, its name, how many
/// bytes have passed and how many are expected in all. The bytes that
/// have passed never exceed the bytes expected.
#[derive(Debug, PartialEq, Eq)]
pub struct Transfer {
    endpoint: Endpoint,
    name: String,
    current_size: u64,
    expected_size: u64,
}

impl View for Transfer {
    type V = TransferView;

    closed spec fn view(&self) -> TransferView {
        TransferView {
            endpoint: self.endpoint,
            name: self.name@,
            current_size: self.current_size,
            expected_size: self.expected_size,
        }
    }
}

impl Clone for Transfer {
    fn clone(&self) -> (copy: Self)
        ensures
            copy@ == self@,
    {
        proof {
            use_type_invariant(self);
        }
        Transfer {
            endpoint: self.endpoint,
            name: self.name.clone(),
            current_size: self.current_size,
            expected_size: self.expected_size,
        }
    }
}

impl Transfer {
    /// What holds of every transfer.
    #[verifier::type_invariant]
    pub open spec fn well_formed(&self) -> bool {
        self@.current_size <= self@.expected_size
    }

    /// A transfer of which no byte has passed yet.
    pub fn new(endpoint: Endpoint, name: String, expected_size: u64) -> (transfer: Transfer)
        ensures
            transfer@ == (TransferView {
                endpoint,
                name: name@,
                current_size: 0,
                expected_size,
            }),
    {
        Transfer { endpoint, name, current_size: 0, expected_size }
    }

    /// Whom the file goes to or comes from.
    pub fn endpoint(&self) -> (endpoint: Endpoint)
        ensures
            endpoint == self@.endpoint,
    {
        self.endpoint
    }

    /// The name.
    pub fn name(&self) -> (name: &String)
        ensures
            name@ == self@.name,
    {
        &self.name
    }

    /// How many bytes have passed.
    pub fn current_size(&self) -> (n: u64)
        ensures
            n == self@.current_size,
            self@.current_size <= self@.expected_size,
    {
        proof {
            use_type_invariant(self);
        }
        self.current_size
    }

    /// How many bytes are expected in all.
    pub fn expected_size(&self) -> (n: u64)
        ensures
            n == self@.expected_size,
            self@.current_size <= self@.expected_size,
    {
        proof {
            use_type_invariant(self);
        }
        self.expected_size
    }

    /// Whether every expected byte has passed.
    pub fn is_complete(&self) -> (done: bool)
        ensures
            done == self@.complete(),
    {
        self.current_size == self.expected_size
    }

    /// The length of the next piece: a whole chunk, or what is left.
    pub fn next_len(&self) -> (len: u64)
        ensures
            len == self@.next_len(),
            len <= CHUNK_SIZE,
    {
        proof {
            use_type_invariant(self);
        }
        let remaining = self.expected_size - self.current_size;
        if remaining < CHUNK_SIZE as u64 {
            remaining
        } else {
            CHUNK_SIZE as u64
        }
    }

    /// Counts `n` more bytes as passed, unless that would be more than
    /// what is still to come; then the transfer stays as it is.
    pub fn advance(&mut self, n: u64) -> (ok: bool)
        ensures
            ok == (n <= old(self)@.remaining()),
            ok ==> final(self)@ == old(self)@.advanced(n as int),
            !ok ==> final(self)@ == old(self)@,
    {
        proof {
            use_type_invariant(&*self);
        }
        if n <= self.expected_size - self.current_size {
            self.current_size = self.current_size + n;
            true
        } else {
            false
        }
    }
}

/// A list of transfers, each taken by its content.
pub open spec fn transfer_views(s: Seq<Transfer>) -> Seq<TransferView> {
    Seq::new(s.len(), |i: int| s[i]@)
}

/// Byte strings put one after the other.
pub open spec fn concat(parts: Seq<Seq<u8>>) -> Seq<u8>
    decreases parts.len(),
{
    if parts.len() == 0 {
        Seq::empty()
    } else {
        concat(parts.drop_last()) + parts.last()
    }
}

/// The pieces that the bytes of `file` from `from` on are sent in: whole
/// chunks, and one shorter piece at the end if what is left is no
/// multiple of a chunk.
pub open spec fn pieces(file: Seq<u8>, from: int) -> Seq<Seq<u8>>
    decreases file.len() - from,
{
    if from < 0 || from >= file.len() {
        Seq::empty()
    } else if file.len() - from <= CHUNK_SIZE {
        seq![file.skip(from)]
    } else {
        seq![file.subrange(from, from + CHUNK_SIZE)] + pieces(file, from + CHUNK_SIZE)
    }
}

/// Putting a byte string in front of a list puts it in front of what the
/// list puts together.
pub proof fn lemma_concat_front(first: Seq<u8>, rest: Seq<Seq<u8>>)
    ensures
        concat(seq![first] + rest) == first + concat(rest),
    decreases rest.len(),
{
    let all = seq![first] + rest;
    if rest.len() == 0 {
        assert(all.drop_last() =~= Seq::<Seq<u8>>::empty());
        assert(concat(all.drop_last()) =~= Seq::<u8>::empty());
        assert(all.last() == first);
        assert(concat(all) =~= first + concat(rest));
    } else {
        assert(all.drop_last() =~= seq![first] + rest.drop_last());
        lemma_concat_front(first, rest.drop_last());
        assert(concat(all) =~= first + concat(rest));
    }
}

/// The pieces of a file are not empty and no longer than a chunk, and put
/// together they are the file.
pub proof fn lemma_pieces(file: Seq<u8>, from: int)
    requires
        0 <= from <= file.len(),
    ensures
        concat(pieces(file, from)) == file.skip(from),
        forall|i: int|
            0 <= i < pieces(file, from).len() ==> 0 < (#[trigger] pieces(file, from)[i]).len()
                <= CHUNK_SIZE,
        from < file.len() ==> pieces(file, from).len() > 0,
    decreases file.len() - from,
{
    if from >= file.len() {
        assert(file.skip(from) =~= Seq::<u8>::empty());
    } else if file.len() - from <= CHUNK_SIZE {
        lemma_concat_front(file.skip(from), Seq::empty());
        assert(seq![file.skip(from)] + Seq::<Seq<u8>>::empty() =~= seq![file.skip(from)]);
        assert(file.skip(from) + Seq::<u8>::empty() =~= file.skip(from));
    } else {
        let first = file.subrange(from, from + CHUNK_SIZE);
        let rest = pieces(file, from + CHUNK_SIZE);
        lemma_pieces(file, from + CHUNK_SIZE);
        lemma_concat_front(first, rest);
        assert(first + file.skip(from + CHUNK_SIZE) =~= file.skip(from));
        assert forall|i: int| 0 <= i < pieces(file, from).len() implies 0 < (#[trigger] pieces(
            file,
            from,
        )[i]).len() <= CHUNK_SIZE by {
            if i > 0 {
                assert(pieces(file, from)[i] == rest[i - 1]);
            }
        }
    }
}

} // verus!
