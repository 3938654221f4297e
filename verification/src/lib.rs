//! The signaling core of a peer-to-peer walkie-talkie.
//!
//! Peers of a room find each other through a relay, negotiate one transport
//! per pair, and talk in groups. This crate holds the decisions: the wire
//! format ([`wire`]), the relay's directory ([`websocket`]), the negotiation
//! with one peer ([`session`]), the fan-out to groups ([`router`]), the
//! consumer's end of the audio ([`inbound`]) and the client that ties them
//! together ([`communication`], with what holds of it at all times in
//! [`invariants`]). It does no I/O: whoever uses it owns the sockets and the
//! transports, feeds it events and does what it answers.
//!
//! Beside the core stand the room metadata ([`metadata`]) and the names of
//! a room on the local network ([`discovery`]).

pub mod communication;
pub mod discovery;
pub mod inbound;
pub mod invariants;
pub mod metadata;
pub mod router;
pub mod seqs;
pub mod session;
pub mod text;
pub mod websocket;
pub mod wire;
