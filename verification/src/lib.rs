//! A slim, unencrypted reliable transport over UDP.
//!
//! The crate is the protocol itself, free of sockets, clocks and tasks:
//!
//! - reliable channel: a handshake that agrees on a connection id, chunks with
//!   increasing sequence numbers, cumulative acknowledgements, fast retransmission
//!   after duplicate acknowledgements, and go-back-N after a timeout;
//! - best-effort channel: single datagrams, neither acknowledged nor sent again, for
//!   such things as frequent heartbeats;
//! - batching: frames share a datagram for as long as they fit;
//! - encoding: the compact binary form of `bitcode`.
//!
//! An owner of a socket holds a `DriverState`, hands it each datagram that arrives
//! (`handle_packet`, and `handle_handshake` for handshakes), gives it a turn whenever there is
//! something to send or some time has passed (`turn`), and sends the datagrams that come back.
//! Each connection holds the queues between itself and its user: the commands that wait to be
//! carried out, and the messages and datagrams that wait to be picked up.
//!
//! Times are nanoseconds on a clock that the owner picks and passes in. Peer addresses are
//! any `Copy` type.
//!
//! Every function states what it does over a model of its data: `FrameView` and `Batch` for
//! the wire, `InnerView` and `ConnView` for a connection, `DriverView` for an endpoint. The
//! modules `stream` and `laws` state what follows for the library as a whole; `law_delivery`
//! and `law_complete_delivery` in `stream` are what the reliable channel is for, and
//! `law_datagram_delivery` in `besteffort` is what the best-effort channel is for. `receiving`,
//! `sending` and `packing` say of each field of a connection, and of each frame, what arriving
//! datagrams and turns do; `registry` says the same of the connections of an endpoint.

pub mod besteffort;
pub mod codec;
pub mod command;
pub mod conn;
pub mod endpoint;
pub mod error;
pub mod frame;
pub mod inner;
pub mod laws;
pub mod packing;
pub mod payload;
pub mod receiving;
pub mod registry;
pub mod send;
pub mod sending;
pub mod stream;

pub use command::SendCmd;
pub use conn::ConnShared;
pub use endpoint::{
    handshake_deadline, handshake_wait, Accepted, ConnectStep, DriverState, Entry, Handled,
    Handshakes, Turn, Waited, ACCEPT_QUEUE_CAP, SEND_TICK,
};
pub use error::Error;
pub use frame::{
    decode_packet, encode_packet, Frame, OutPacket, Packer, HANDSHAKE_CID, MAX_DATAGRAM_SIZE,
    MAX_RELIABLE_CHUNK,
};
pub use inner::{
    enqueue_reliable, ConnInner, DATAGRAM_QUEUE_CAP, DUP_ACK_THRESHOLD, HANDSHAKE_TIMEOUT,
    IDLE_TIMEOUT, MAX_INFLIGHT_BYTES, MAX_INFLIGHT_MSGS, MAX_MESSAGE_SIZE, PING_INTERVAL,
    RELIABLE_QUEUE_CAP, RTO_INIT, RTO_MAX, SEND_QUEUE_CAP,
};
pub use send::Round;
