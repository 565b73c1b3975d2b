//! Offline handshake: discovery pings, the two open-connection exchanges,
//! and the connected-level session admission.
//!
//! Every function here is a pure decision step: bytes in, reply bytes out.
//! The caller owns the socket, retries and timeouts.

use vstd::prelude::*;
use crate::codec::Address;
use crate::system_packets::{
    ConnectionRequest, ConnectionRequestAccepted, IncompatibleProtocolVersion,
    NewIncomingConnections, OpenConnectionReply1, OpenConnectionReply2, OpenConnectionRequest1,
    OpenConnectionRequest2, UnconnectedPing, UnconnectedPong, CONNECTION_REQUEST_ID,
    NEW_INCOMING_CONNECTIONS_ID,
};
use crate::{mtu, Error, MAX_MTU_SIZE, MIN_MTU_SIZE, PROTOCOL_VERSION};

verus! {

/// MTU sizes the client probes with, four attempts each, largest first.
pub fn probe_mtu(attempt: usize) -> (r: u16)
    ensures
        r == (if attempt / 4 == 0 {
            1496u16
        } else if attempt / 4 == 1 {
            1204u16
        } else if attempt / 4 == 2 {
            584u16
        } else {
            0u16
        }),
{
    match attempt / 4 {
        0 => 1496,
        1 => 1204,
        2 => 584,
        _ => 0,
    }
}

/// The client's first open-connection probe at the given MTU.
pub fn build_ocrequest1(mtu_size: u16) -> (r: Vec<u8>)
    ensures
        r@ == (OpenConnectionRequest1 {
            protocol_version: PROTOCOL_VERSION,
            mtu_size,
        }).wire(),
{
    let p = OpenConnectionRequest1 { protocol_version: PROTOCOL_VERSION, mtu_size };
    let mut out: Vec<u8> = Vec::new();
    p.encode(&mut out);
    out
}

/// The client's second open-connection request, committing to an MTU.
pub fn build_ocrequest2(server: Address, mtu_size: u16, guid: u64) -> (r: Vec<u8>)
    ensures
        r@ == (OpenConnectionRequest2 { address: server, mtu: mtu_size, guid }).wire(),
{
    let p = OpenConnectionRequest2 { address: server, mtu: mtu_size, guid };
    let mut out: Vec<u8> = Vec::new();
    p.encode(&mut out);
    out
}

/// The connection request sent reliably-ordered once the session exists.
pub fn build_connection_request(guid: u64, now_ms: u64) -> (r: Vec<u8>)
    ensures
        r@ == (ConnectionRequest { guid, time: now_ms, use_encryption: false }).wire(),
{
    let p = ConnectionRequest { guid, time: now_ms, use_encryption: false };
    let mut out: Vec<u8> = Vec::new();
    p.encode(&mut out);
    out
}

/// Server reply to a discovery ping: a pong echoing the ping's timestamp
/// and advertising this listener's guid and name.
pub fn handle_ping(bytes: &Vec<u8>, guid: u64, motd: &String) -> (r: Result<Vec<u8>, Error>)
    requires
        vstd::utf8::encode_utf8(motd@).len() <= 0xffff,
    ensures
        (match r {
            Ok(v) => bytes@.len() >= 33 && bytes@[0] == crate::system_packets::UNCONNECTED_PING_ID
                && (exists|p: UnconnectedPong|
                p.time == crate::codec::be64_val(bytes@.subrange(1, 9)) && p.guid == guid && p.motd@
                    == motd@ && v@ == #[trigger] p.wire()),
            Err(e) => e == Error::InvalidData && !(bytes@.len() >= 33 && bytes@[0]
                == crate::system_packets::UNCONNECTED_PING_ID),
        }),
{
    let ping = match UnconnectedPing::decode(bytes) {
        Ok(p) => p,
        Err(e) => {
            return Err(e);
        },
    };
    let pong = UnconnectedPong { time: ping.time_stamp, guid, motd: motd.clone() };
    let mut out: Vec<u8> = Vec::new();
    pong.encode(&mut out);
    proof {
        assert(pong.time == crate::codec::be64_val(bytes@.subrange(1, 9)) && pong.guid == guid
            && pong.motd@ == motd@ && out@ == pong.wire());
    }
    Ok(out)
}

/// Server reply to the first open-connection probe: the protocol version is
/// checked, and the probed MTU is clamped to the negotiable maximum.
pub fn handle_ocrequest1(bytes: &Vec<u8>, guid: u64) -> (r: Result<Vec<u8>, Error>)
    ensures
        (match r {
            Ok(v) => {
                &&& bytes@.len() >= 18
                &&& bytes@[0] == crate::system_packets::OPEN_CONNECTION_REQUEST1_ID
                &&& (if bytes@[17] != PROTOCOL_VERSION {
                    v@ == (IncompatibleProtocolVersion {
                        server_protocol: PROTOCOL_VERSION,
                        server_guid: guid,
                    }).wire()
                } else {
                    v@ == (OpenConnectionReply1 {
                        guid,
                        use_encryption: false,
                        mtu_size: (if (bytes@.len() + 32) % 0x10000 > MAX_MTU_SIZE {
                            MAX_MTU_SIZE as int
                        } else {
                            ((bytes@.len() + 32) % 0x10000) as int
                        }) as u16,
                    }).wire()
                })
            },
            Err(e) => e == Error::InvalidData && !(bytes@.len() >= 18 && bytes@[0]
                == crate::system_packets::OPEN_CONNECTION_REQUEST1_ID),
        }),
{
    let req = match OpenConnectionRequest1::decode(bytes) {
        Ok(p) => p,
        Err(e) => {
            return Err(e);
        },
    };
    if req.protocol_version != PROTOCOL_VERSION {
        let reply = IncompatibleProtocolVersion {
            server_protocol: PROTOCOL_VERSION,
            server_guid: guid,
        };
        let mut out: Vec<u8> = Vec::new();
        reply.encode(&mut out);
        return Ok(out);
    }
    let reply = OpenConnectionReply1 { guid, use_encryption: false, mtu_size: mtu(req.mtu_size) };
    let mut out: Vec<u8> = Vec::new();
    reply.encode(&mut out);
    Ok(out)
}

/// Server reply to the second open-connection request.  Returns the reply
/// bytes and the negotiated MTU the new session will use.  Requests whose
/// clamped MTU is below the minimum are rejected: the fixed headers would
/// leave no room for payload.
pub fn handle_ocrequest2(bytes: &Vec<u8>, guid: u64, src: Address) -> (r: Result<
    (Vec<u8>, u16),
    Error,
>)
    ensures
        (match r {
            Ok((v, m)) => {
                &&& bytes@.len() >= 34
                &&& bytes@[0] == crate::system_packets::OPEN_CONNECTION_REQUEST2_ID
                &&& m == (if crate::codec::be16_val(bytes@.subrange(24, 26)) > MAX_MTU_SIZE {
                    MAX_MTU_SIZE
                } else {
                    crate::codec::be16_val(bytes@.subrange(24, 26))
                })
                &&& MIN_MTU_SIZE <= m <= MAX_MTU_SIZE
                &&& v@ == (OpenConnectionReply2 {
                    guid,
                    address: src,
                    mtu: m,
                    use_encryption: false,
                }).wire()
            },
            Err(e) => e == Error::InvalidData && !(bytes@.len() >= 34 && bytes@[0]
                == crate::system_packets::OPEN_CONNECTION_REQUEST2_ID && bytes@[17] == 4 && (
            if crate::codec::be16_val(bytes@.subrange(24, 26)) > MAX_MTU_SIZE {
                MAX_MTU_SIZE
            } else {
                crate::codec::be16_val(bytes@.subrange(24, 26))
            }) >= MIN_MTU_SIZE),
        }),
{
    let req = match OpenConnectionRequest2::decode(bytes) {
        Ok(p) => p,
        Err(e) => {
            return Err(e);
        },
    };
    let m = mtu(req.mtu);
    if m < MIN_MTU_SIZE {
        return Err(Error::InvalidData);
    }
    let reply = OpenConnectionReply2 { guid, address: src, mtu: m, use_encryption: false };
    let mut out: Vec<u8> = Vec::new();
    reply.encode(&mut out);
    Ok((out, m))
}

/// The client's reply to an accepted connection request: echo the two
/// timestamps back in a `NewIncomingConnections`.
pub fn client_accept(bytes: &Vec<u8>, server: Address) -> (r: Result<Vec<u8>, Error>)
    ensures
        (match r {
            Ok(v) => bytes@.len() >= 26 && bytes@[0]
                == crate::system_packets::CONNECTION_REQUEST_ACCEPTED_ID && v@
                == (NewIncomingConnections {
                server_address: server,
                request_timestamp: crate::codec::be64_val(
                    bytes@.subrange(bytes@.len() - 16, bytes@.len() - 8),
                ),
                accepted_timestamp: crate::codec::be64_val(
                    bytes@.subrange(bytes@.len() - 8, bytes@.len() as int),
                ),
            }).wire(),
            Err(e) => e == Error::InvalidData && !(bytes@.len() >= 26 && bytes@[0]
                == crate::system_packets::CONNECTION_REQUEST_ACCEPTED_ID && bytes@[1] == 4),
        }),
{
    let accepted = match ConnectionRequestAccepted::decode(bytes) {
        Ok(p) => p,
        Err(e) => {
            return Err(e);
        },
    };
    let reply = NewIncomingConnections {
        server_address: server,
        request_timestamp: accepted.request_timestamp,
        accepted_timestamp: accepted.accepted_timestamp,
    };
    let mut out: Vec<u8> = Vec::new();
    reply.encode(&mut out);
    Ok(out)
}

/// One step of the server-side session admission.
pub enum ServerStep {
    /// Send these bytes reliably-ordered and keep waiting.
    Reply(Vec<u8>),
    /// The client confirmed; the session is connected.
    Connected,
    /// Not a handshake message; keep waiting.
    Ignored,
}

/// Server-side admission: answer the client's `ConnectionRequest` with an
/// acceptance, and report the session connected when the client confirms
/// with `NewIncomingConnections`.
pub fn into_session_step(bytes: &Vec<u8>, client: Address, now_ms: u64) -> (r: Result<
    ServerStep,
    Error,
>)
    ensures
        (match r {
            Ok(step) => match step {
                ServerStep::Reply(v) => bytes@.len() >= 18 && bytes@[0] == CONNECTION_REQUEST_ID
                    && v@ == (ConnectionRequestAccepted {
                    client_address: client,
                    system_index: 0,
                    request_timestamp: crate::codec::be64_val(bytes@.subrange(9, 17)),
                    accepted_timestamp: now_ms,
                }).wire(),
                ServerStep::Connected => bytes@.len() >= 1 && bytes@[0]
                    == NEW_INCOMING_CONNECTIONS_ID,
                ServerStep::Ignored => bytes@.len() == 0 || (bytes@[0] != CONNECTION_REQUEST_ID
                    && bytes@[0] != NEW_INCOMING_CONNECTIONS_ID),
            },
            Err(e) => e == Error::InvalidData && bytes@.len() >= 1 && bytes@[0]
                == CONNECTION_REQUEST_ID && bytes@.len() < 18,
        }),
{
    if bytes.len() == 0 {
        return Ok(ServerStep::Ignored);
    }
    if bytes[0] == CONNECTION_REQUEST_ID {
        let request = match ConnectionRequest::decode(bytes) {
            Ok(p) => p,
            Err(e) => {
                return Err(e);
            },
        };
        let accept = ConnectionRequestAccepted {
            client_address: client,
            system_index: 0,
            request_timestamp: request.time,
            accepted_timestamp: now_ms,
        };
        let mut out: Vec<u8> = Vec::new();
        accept.encode(&mut out);
        return Ok(ServerStep::Reply(out));
    }
    if bytes[0] == NEW_INCOMING_CONNECTIONS_ID {
        return Ok(ServerStep::Connected);
    }
    Ok(ServerStep::Ignored)
}

} // verus!
