//! A loss-tolerant, low-latency sliding-window datagram protocol.
//!
//! A `Sender` pulls fixed-size application messages from a `Source` and
//! emits one encrypted datagram per tick, carrying the current slot and
//! the previous `window_size - 1` slots for redundancy; a `Receiver`
//! validates, deduplicates and decrypts incoming datagrams — in any order,
//! with any amount of duplication — and hands each message to its `Sink`
//! at most once, advancing its cycle strictly forward.  There are no
//! acknowledgements and no retransmissions: loss tolerance comes entirely
//! from the overlapping windows.

pub mod bytes;
pub mod cipher;
pub mod constants;
pub mod heartbeat;
pub mod laws;
pub mod mirroring;
pub mod receiver;
pub mod schema;
pub mod sender;
pub mod source;

pub use cipher::Cipher;
pub use constants::Constants;
pub use constants::ProtocolError;
pub use heartbeat::{encode_mapper_heartbeat, encode_session_heartbeat, parse_mapper_heartbeat,
    parse_session_heartbeat};
pub use mirroring::Mirroring;
pub use receiver::{MaxCounterSink, Receiver, Sink};
pub use schema::{ClientToServerSchema, PortSet, ServerToClientSchema};
pub use sender::Sender;
pub use source::{CounterSource, Source};
