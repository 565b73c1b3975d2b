//! A reliable, ordered, fragmenting datagram transport core.
//!
//! The crate implements the session layer of a RakNet-family protocol:
//! bit-exact wire codecs, a receive queue (ACK/NACK aggregation, ordered
//! delivery, fragment reassembly), a send queue (framing, fragmentation,
//! retransmission, CUBIC congestion control, RTO estimation) and the
//! connection state machine.  All state machines are pure: they consume
//! bytes and millisecond timestamps and produce datagrams and events, so
//! the socket and the clock stay outside the library.

use vstd::prelude::*;

pub mod codec;
pub mod conn;
pub mod handshake;
pub mod packets;
pub mod cubic;
pub mod receive;
pub mod send;
pub mod system_packets;

verus! {

/// User-visible failure classes of the transport.
#[derive(Clone, Copy, PartialEq, Eq, Structural, Debug)]
pub enum Error {
    /// The offline handshake was exhausted without a reply.
    NotConnected,
    /// The peer sent a disconnection notification.
    ConnectionReset,
    /// Retransmission was exhausted.
    TimedOut,
    /// A malformed packet at a decode gate.
    InvalidData,
}

/// Protocol version carried in the offline handshake.
pub const PROTOCOL_VERSION: u8 = 0xA;

/// Largest MTU a session will negotiate.
pub const MAX_MTU_SIZE: u16 = 1400;

/// Smallest MTU a session accepts.  Each datagram pays 32 bytes of UDP
/// header allowance, 4 bytes of datagram framing and up to 23 bytes of
/// frame header, and the smallest size the client's probe ladder actually
/// offers is 584; 576, the customary minimum-datagram bound just beneath
/// that probe, keeps every session clear of those fixed costs.
pub const MIN_MTU_SIZE: u16 = 576;

/// Clamp a peer-announced MTU to the negotiable maximum.
pub fn mtu(old: u16) -> (r: u16)
    ensures
        r == if old > MAX_MTU_SIZE {
            MAX_MTU_SIZE
        } else {
            old
        },
{
    if old > MAX_MTU_SIZE {
        return MAX_MTU_SIZE;
    }
    old
}

} // verus!
