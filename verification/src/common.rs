//! What both kinds of peer have in common: the messages they exchange and
//! the transfers they keep.

pub use crate::message::{Endpoint, Message, MessageView, Peer, PeerView, SocketAddress, CHUNK_SIZE};
pub use crate::transfer::{Transfer, TransferView};
