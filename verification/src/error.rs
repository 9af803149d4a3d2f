//! The errors that the library reports.

use bitcode::Error as BitcodeError;
use vstd::prelude::*;

verus! {

/// Why an operation failed.
#[derive(Debug)]
pub enum Error {
    /// The frames of a datagram could not be decoded.
    Decode(BitcodeError),
    /// The connection is closed.
    Closed,
    /// The peer did not answer the handshake in time.
    HandshakeTimeout,
    /// An argument was out of range (such as a datagram that is too long).
    InvalidParam(&'static str),
}

} // verus!
