//! Core of a bidirectional file-tree synchronizer.
//!
//! Two kinds of peer keep a directory tree in agreement: a discovery server
//! that owns the authoritative tree, and participants that hold their own
//! copies. Every peer indexes its tree, persists the index as a binary
//! snapshot, derives change sets from pairs of indices and exchanges
//! messages and file chunks with the other side.
//!
//! This crate holds the decisions of that system as functions from plain
//! values to plain values; reading directories, files and sockets is left
//! to the caller.

pub mod codec;
pub mod common;
pub mod config;
pub mod diff;
pub mod diff_laws;
pub mod discovery_server;
pub mod discovery_server_laws;
pub mod error;
pub mod filter;
pub mod frame;
pub mod index;
pub mod message;
pub mod node;
pub mod participant;
pub mod participant_laws;
pub mod pattern;
pub mod registry;
pub mod server;
pub mod snapshot;
pub mod synchronizer;
pub mod text;
pub mod transfer;
pub mod walk_laws;
pub mod wire;
