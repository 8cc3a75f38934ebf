//! A verified implementation of a message broker's network-facing protocol
//! layer: the compact binary wire codec, the framed message envelope, the
//! two supported request schemas (capability negotiation and metadata
//! describe), the metadata-log decoder, and the request resolver.
//!
//! Every encoder and decoder is pinned to a spec-level counterpart, and each
//! codec type proves the round-trip law tying the two directions together.
//! The surrounding program supplies the bytes: sockets, threads and the log
//! file itself stay outside this crate.

pub mod broker;
pub mod errors;
pub mod kafka_protocol;
pub mod kafka_record;
pub mod primitive_types;
pub mod traits;
pub mod wire;
