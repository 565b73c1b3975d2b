//! System packets: the offline handshake and connected control messages,
//! each with a bit-exact wire description, encoder and decoder.
//!
//! Every packet is prefixed by its one-byte ID on the wire; `encode`
//! appends the ID and the fields, `decode` checks the ID and reads them.

use vstd::prelude::*;
use crate::codec::{
    be16, be16_val, be64, be64_val, le24, le24_val, magic_bytes, addr_wire, string_wire, Address,
    Big, U24, MAGIC, put_u8, put_bool, get_u8, get_bool, get_address, put_address, put_string,
    get_string, lemma_be16_roundtrip, lemma_be64_roundtrip, lemma_le24_roundtrip,
    lemma_addr_roundtrip,
};
use crate::Error;

verus! {

pub const CONNECTED_PING_ID: u8 = 0x00;

pub const UNCONNECTED_PING_ID: u8 = 0x01;

pub const CONNECTED_PONG_ID: u8 = 0x03;

pub const OPEN_CONNECTION_REQUEST1_ID: u8 = 0x05;

pub const OPEN_CONNECTION_REPLY1_ID: u8 = 0x06;

pub const OPEN_CONNECTION_REQUEST2_ID: u8 = 0x07;

pub const OPEN_CONNECTION_REPLY2_ID: u8 = 0x08;

pub const CONNECTION_REQUEST_ID: u8 = 0x09;

pub const CONNECTION_REQUEST_ACCEPTED_ID: u8 = 0x10;

pub const NEW_INCOMING_CONNECTIONS_ID: u8 = 0x13;

pub const DISCONNECTION_NOTIFICATION_ID: u8 = 0x15;

pub const INCOMPATIBLE_PROTOCOL_VERSION_ID: u8 = 0x19;

pub const UNCONNECTED_PONG_ID: u8 = 0x1c;

pub const ACK_ID: u8 = 0xc0;

pub const NACK_ID: u8 = 0xa0;

/// Keep-alive probe on a connected session.
#[derive(Clone, Copy, PartialEq, Eq, Structural, Debug)]
pub struct ConnectedPing {
    pub client_timestamp: u64,
}

impl ConnectedPing {
    pub open spec fn wire(self) -> Seq<u8> {
        seq![CONNECTED_PING_ID] + be64(self.client_timestamp)
    }

    pub fn encode(&self, out: &mut Vec<u8>)
        ensures
            final(out)@ == old(out)@ + self.wire(),
    {
        put_u8(out, CONNECTED_PING_ID);
        Big::put_u64(out, self.client_timestamp);
        proof {
            assert(out@ =~= old(out)@ + self.wire());
        }
    }

    pub fn decode(b: &Vec<u8>) -> (r: Result<Self, Error>)
        ensures
            (match r {
                Ok(p) => b@.len() >= 9 && b@[0] == CONNECTED_PING_ID && p.client_timestamp
                    == be64_val(b@.subrange(1, 9)),
                Err(e) => e == Error::InvalidData && !(b@.len() >= 9 && b@[0]
                    == CONNECTED_PING_ID),
            }),
    {
        if b.len() < 9 || b[0] != CONNECTED_PING_ID {
            return Err(Error::InvalidData);
        }
        let (ts, _) = match Big::get_u64(b, 1) {
            Some(x) => x,
            None => {
                return Err(Error::InvalidData);
            },
        };
        Ok(ConnectedPing { client_timestamp: ts })
    }
}

/// Decoding an encoded ping gives the ping back.
pub proof fn lemma_connected_ping_roundtrip(p: ConnectedPing)
    ensures
        p.wire().len() == 9,
        p.wire()[0] == CONNECTED_PING_ID,
        be64_val(p.wire().subrange(1, 9)) == p.client_timestamp,
{
    lemma_be64_roundtrip(p.client_timestamp);
    assert(p.wire().subrange(1, 9) =~= be64(p.client_timestamp));
}

/// Reply to a keep-alive probe.
#[derive(Clone, Copy, PartialEq, Eq, Structural, Debug)]
pub struct ConnectedPong {
    pub client_timestamp: u64,
    pub server_timestamp: u64,
}

impl ConnectedPong {
    pub open spec fn wire(self) -> Seq<u8> {
        seq![CONNECTED_PONG_ID] + be64(self.client_timestamp) + be64(self.server_timestamp)
    }

    pub fn encode(&self, out: &mut Vec<u8>)
        ensures
            final(out)@ == old(out)@ + self.wire(),
    {
        put_u8(out, CONNECTED_PONG_ID);
        Big::put_u64(out, self.client_timestamp);
        Big::put_u64(out, self.server_timestamp);
        proof {
            assert(out@ =~= old(out)@ + self.wire());
        }
    }

    pub fn decode(b: &Vec<u8>) -> (r: Result<Self, Error>)
        ensures
            (match r {
                Ok(p) => b@.len() >= 17 && b@[0] == CONNECTED_PONG_ID && p.client_timestamp
                    == be64_val(b@.subrange(1, 9)) && p.server_timestamp == be64_val(
                    b@.subrange(9, 17),
                ),
                Err(e) => e == Error::InvalidData && !(b@.len() >= 17 && b@[0]
                    == CONNECTED_PONG_ID),
            }),
    {
        if b.len() < 17 || b[0] != CONNECTED_PONG_ID {
            return Err(Error::InvalidData);
        }
        let (c, p) = match Big::get_u64(b, 1) {
            Some(x) => x,
            None => {
                return Err(Error::InvalidData);
            },
        };
        let (sv, _) = match Big::get_u64(b, p) {
            Some(x) => x,
            None => {
                return Err(Error::InvalidData);
            },
        };
        Ok(ConnectedPong { client_timestamp: c, server_timestamp: sv })
    }
}

pub proof fn lemma_connected_pong_roundtrip(p: ConnectedPong)
    ensures
        p.wire().len() == 17,
        p.wire()[0] == CONNECTED_PONG_ID,
        be64_val(p.wire().subrange(1, 9)) == p.client_timestamp,
        be64_val(p.wire().subrange(9, 17)) == p.server_timestamp,
{
    lemma_be64_roundtrip(p.client_timestamp);
    lemma_be64_roundtrip(p.server_timestamp);
    assert(p.wire().subrange(1, 9) =~= be64(p.client_timestamp));
    assert(p.wire().subrange(9, 17) =~= be64(p.server_timestamp));
}

/// Unconnected discovery probe.
#[derive(Clone, Copy, PartialEq, Eq, Structural, Debug)]
pub struct UnconnectedPing {
    pub time_stamp: u64,
    pub guid: u64,
}

impl UnconnectedPing {
    pub open spec fn wire(self) -> Seq<u8> {
        seq![UNCONNECTED_PING_ID] + be64(self.time_stamp) + magic_bytes() + be64(self.guid)
    }

    pub fn encode(&self, out: &mut Vec<u8>)
        ensures
            final(out)@ == old(out)@ + self.wire(),
    {
        put_u8(out, UNCONNECTED_PING_ID);
        Big::put_u64(out, self.time_stamp);
        MAGIC::put(out);
        Big::put_u64(out, self.guid);
        proof {
            assert(out@ =~= old(out)@ + self.wire());
        }
    }

    pub fn decode(b: &Vec<u8>) -> (r: Result<Self, Error>)
        ensures
            (match r {
                Ok(p) => b@.len() >= 33 && b@[0] == UNCONNECTED_PING_ID && p.time_stamp == be64_val(
                    b@.subrange(1, 9),
                ) && p.guid == be64_val(b@.subrange(25, 33)),
                Err(e) => e == Error::InvalidData && !(b@.len() >= 33 && b@[0]
                    == UNCONNECTED_PING_ID),
            }),
    {
        if b.len() < 33 || b[0] != UNCONNECTED_PING_ID {
            return Err(Error::InvalidData);
        }
        let (ts, _) = match Big::get_u64(b, 1) {
            Some(x) => x,
            None => {
                return Err(Error::InvalidData);
            },
        };
        let (guid, _) = match Big::get_u64(b, 25) {
            Some(x) => x,
            None => {
                return Err(Error::InvalidData);
            },
        };
        Ok(UnconnectedPing { time_stamp: ts, guid })
    }
}

pub proof fn lemma_unconnected_ping_roundtrip(p: UnconnectedPing)
    ensures
        p.wire().len() == 33,
        p.wire()[0] == UNCONNECTED_PING_ID,
        be64_val(p.wire().subrange(1, 9)) == p.time_stamp,
        be64_val(p.wire().subrange(25, 33)) == p.guid,
{
    lemma_be64_roundtrip(p.time_stamp);
    lemma_be64_roundtrip(p.guid);
    assert(p.wire().subrange(1, 9) =~= be64(p.time_stamp));
    assert(p.wire().subrange(25, 33) =~= be64(p.guid));
}

/// First open-connection reply: the server's guid and its MTU offer.
#[derive(Clone, Copy, PartialEq, Eq, Structural, Debug)]
pub struct OpenConnectionReply1 {
    pub guid: u64,
    pub use_encryption: bool,
    pub mtu_size: u16,
}

impl OpenConnectionReply1 {
    pub open spec fn wire(self) -> Seq<u8> {
        seq![OPEN_CONNECTION_REPLY1_ID] + magic_bytes() + be64(self.guid) + seq![
            if self.use_encryption {
                1u8
            } else {
                0u8
            },
        ] + be16(self.mtu_size)
    }

    pub fn encode(&self, out: &mut Vec<u8>)
        ensures
            final(out)@ == old(out)@ + self.wire(),
    {
        put_u8(out, OPEN_CONNECTION_REPLY1_ID);
        MAGIC::put(out);
        Big::put_u64(out, self.guid);
        put_bool(out, self.use_encryption);
        Big::put_u16(out, self.mtu_size);
        proof {
            assert(out@ =~= old(out)@ + self.wire());
        }
    }

    pub fn decode(b: &Vec<u8>) -> (r: Result<Self, Error>)
        ensures
            (match r {
                Ok(p) => b@.len() >= 28 && b@[0] == OPEN_CONNECTION_REPLY1_ID && p.guid == be64_val(
                    b@.subrange(17, 25),
                ) && p.use_encryption == (b@[25] != 0) && p.mtu_size == be16_val(
                    b@.subrange(26, 28),
                ),
                Err(e) => e == Error::InvalidData && !(b@.len() >= 28 && b@[0]
                    == OPEN_CONNECTION_REPLY1_ID),
            }),
    {
        if b.len() < 28 || b[0] != OPEN_CONNECTION_REPLY1_ID {
            return Err(Error::InvalidData);
        }
        let (guid, p) = match Big::get_u64(b, 17) {
            Some(x) => x,
            None => {
                return Err(Error::InvalidData);
            },
        };
        let (enc, p) = match get_bool(b, p) {
            Some(x) => x,
            None => {
                return Err(Error::InvalidData);
            },
        };
        let (mtu, _) = match Big::get_u16(b, p) {
            Some(x) => x,
            None => {
                return Err(Error::InvalidData);
            },
        };
        Ok(OpenConnectionReply1 { guid, use_encryption: enc, mtu_size: mtu })
    }
}

pub proof fn lemma_open_connection_reply1_roundtrip(p: OpenConnectionReply1)
    ensures
        p.wire().len() == 28,
        p.wire()[0] == OPEN_CONNECTION_REPLY1_ID,
        be64_val(p.wire().subrange(17, 25)) == p.guid,
        (p.wire()[25] != 0) == p.use_encryption,
        be16_val(p.wire().subrange(26, 28)) == p.mtu_size,
{
    lemma_be64_roundtrip(p.guid);
    lemma_be16_roundtrip(p.mtu_size);
    assert(p.wire().subrange(17, 25) =~= be64(p.guid));
    assert(p.wire().subrange(26, 28) =~= be16(p.mtu_size));
}

/// Second open-connection request: the client commits to an MTU.
#[derive(Clone, Copy, PartialEq, Eq, Structural, Debug)]
pub struct OpenConnectionRequest2 {
    pub address: Address,
    pub mtu: u16,
    pub guid: u64,
}

impl OpenConnectionRequest2 {
    pub open spec fn wire(self) -> Seq<u8> {
        seq![OPEN_CONNECTION_REQUEST2_ID] + magic_bytes() + addr_wire(self.address) + be16(self.mtu)
            + be64(self.guid)
    }

    pub fn encode(&self, out: &mut Vec<u8>)
        ensures
            final(out)@ == old(out)@ + self.wire(),
    {
        put_u8(out, OPEN_CONNECTION_REQUEST2_ID);
        MAGIC::put(out);
        put_address(out, &self.address);
        Big::put_u16(out, self.mtu);
        Big::put_u64(out, self.guid);
        proof {
            assert(out@ =~= old(out)@ + self.wire());
        }
    }

    pub fn decode(b: &Vec<u8>) -> (r: Result<Self, Error>)
        ensures
            (match r {
                Ok(p) => b@.len() >= 34 && b@[0] == OPEN_CONNECTION_REQUEST2_ID && b@[17] == 4
                    && p.address.a == 0xff - b@[18] && p.address.b == 0xff - b@[19] && p.address.c
                    == 0xff - b@[20] && p.address.d == 0xff - b@[21] && p.address.port == be16_val(
                    b@.subrange(22, 24),
                ) && p.mtu == be16_val(b@.subrange(24, 26)) && p.guid == be64_val(
                    b@.subrange(26, 34),
                ),
                Err(e) => e == Error::InvalidData && !(b@.len() >= 34 && b@[0]
                    == OPEN_CONNECTION_REQUEST2_ID && b@[17] == 4),
            }),
    {
        if b.len() < 34 || b[0] != OPEN_CONNECTION_REQUEST2_ID {
            return Err(Error::InvalidData);
        }
        let (address, p) = match get_address(b, 17) {
            Some(x) => x,
            None => {
                return Err(Error::InvalidData);
            },
        };
        let (mtu, p) = match Big::get_u16(b, p) {
            Some(x) => x,
            None => {
                return Err(Error::InvalidData);
            },
        };
        let (guid, _) = match Big::get_u64(b, p) {
            Some(x) => x,
            None => {
                return Err(Error::InvalidData);
            },
        };
        Ok(OpenConnectionRequest2 { address, mtu, guid })
    }
}

pub proof fn lemma_open_connection_request2_roundtrip(p: OpenConnectionRequest2)
    ensures
        p.wire().len() == 34,
        p.wire()[0] == OPEN_CONNECTION_REQUEST2_ID,
        p.wire()[17] == 4,
        0xff - p.wire()[18] == p.address.a,
        0xff - p.wire()[19] == p.address.b,
        0xff - p.wire()[20] == p.address.c,
        0xff - p.wire()[21] == p.address.d,
        be16_val(p.wire().subrange(22, 24)) == p.address.port,
        be16_val(p.wire().subrange(24, 26)) == p.mtu,
        be64_val(p.wire().subrange(26, 34)) == p.guid,
{
    lemma_addr_roundtrip(p.address);
    lemma_be16_roundtrip(p.mtu);
    lemma_be16_roundtrip(p.address.port);
    lemma_be64_roundtrip(p.guid);
    assert(p.wire().subrange(22, 24) =~= be16(p.address.port));
    assert(p.wire().subrange(24, 26) =~= be16(p.mtu));
    assert(p.wire().subrange(26, 34) =~= be64(p.guid));
}

/// Second open-connection reply: the session is created.
#[derive(Clone, Copy, PartialEq, Eq, Structural, Debug)]
pub struct OpenConnectionReply2 {
    pub guid: u64,
    pub address: Address,
    pub mtu: u16,
    pub use_encryption: bool,
}

impl OpenConnectionReply2 {
    pub open spec fn wire(self) -> Seq<u8> {
        seq![OPEN_CONNECTION_REPLY2_ID] + magic_bytes() + be64(self.guid) + addr_wire(self.address)
            + be16(self.mtu) + seq![
            if self.use_encryption {
                1u8
            } else {
                0u8
            },
        ]
    }

    pub fn encode(&self, out: &mut Vec<u8>)
        ensures
            final(out)@ == old(out)@ + self.wire(),
    {
        put_u8(out, OPEN_CONNECTION_REPLY2_ID);
        MAGIC::put(out);
        Big::put_u64(out, self.guid);
        put_address(out, &self.address);
        Big::put_u16(out, self.mtu);
        put_bool(out, self.use_encryption);
        proof {
            assert(out@ =~= old(out)@ + self.wire());
        }
    }

    pub fn decode(b: &Vec<u8>) -> (r: Result<Self, Error>)
        ensures
            (match r {
                Ok(p) => b@.len() >= 35 && b@[0] == OPEN_CONNECTION_REPLY2_ID && b@[25] == 4
                    && p.guid == be64_val(b@.subrange(17, 25)) && p.address.a == 0xff - b@[26]
                    && p.address.b == 0xff - b@[27] && p.address.c == 0xff - b@[28] && p.address.d
                    == 0xff - b@[29] && p.address.port == be16_val(b@.subrange(30, 32)) && p.mtu
                    == be16_val(b@.subrange(32, 34)) && p.use_encryption == (b@[34] != 0),
                Err(e) => e == Error::InvalidData && !(b@.len() >= 35 && b@[0]
                    == OPEN_CONNECTION_REPLY2_ID && b@[25] == 4),
            }),
    {
        if b.len() < 35 || b[0] != OPEN_CONNECTION_REPLY2_ID {
            return Err(Error::InvalidData);
        }
        let (guid, p) = match Big::get_u64(b, 17) {
            Some(x) => x,
            None => {
                return Err(Error::InvalidData);
            },
        };
        let (address, p) = match get_address(b, p) {
            Some(x) => x,
            None => {
                return Err(Error::InvalidData);
            },
        };
        let (mtu, p) = match Big::get_u16(b, p) {
            Some(x) => x,
            None => {
                return Err(Error::InvalidData);
            },
        };
        let (enc, _) = match get_bool(b, p) {
            Some(x) => x,
            None => {
                return Err(Error::InvalidData);
            },
        };
        Ok(OpenConnectionReply2 { guid, address, mtu, use_encryption: enc })
    }
}

pub proof fn lemma_open_connection_reply2_roundtrip(p: OpenConnectionReply2)
    ensures
        p.wire().len() == 35,
        p.wire()[0] == OPEN_CONNECTION_REPLY2_ID,
        p.wire()[25] == 4,
        be64_val(p.wire().subrange(17, 25)) == p.guid,
        0xff - p.wire()[26] == p.address.a,
        0xff - p.wire()[27] == p.address.b,
        0xff - p.wire()[28] == p.address.c,
        0xff - p.wire()[29] == p.address.d,
        be16_val(p.wire().subrange(30, 32)) == p.address.port,
        be16_val(p.wire().subrange(32, 34)) == p.mtu,
        (p.wire()[34] != 0) == p.use_encryption,
{
    lemma_addr_roundtrip(p.address);
    lemma_be16_roundtrip(p.mtu);
    lemma_be16_roundtrip(p.address.port);
    lemma_be64_roundtrip(p.guid);
    assert(p.wire().subrange(17, 25) =~= be64(p.guid));
    assert(p.wire().subrange(30, 32) =~= be16(p.address.port));
    assert(p.wire().subrange(32, 34) =~= be16(p.mtu));
}

/// Connection request on a freshly created session.
#[derive(Clone, Copy, PartialEq, Eq, Structural, Debug)]
pub struct ConnectionRequest {
    pub guid: u64,
    pub time: u64,
    pub use_encryption: bool,
}

impl ConnectionRequest {
    pub open spec fn wire(self) -> Seq<u8> {
        seq![CONNECTION_REQUEST_ID] + be64(self.guid) + be64(self.time) + seq![
            if self.use_encryption {
                1u8
            } else {
                0u8
            },
        ]
    }

    pub fn encode(&self, out: &mut Vec<u8>)
        ensures
            final(out)@ == old(out)@ + self.wire(),
    {
        put_u8(out, CONNECTION_REQUEST_ID);
        Big::put_u64(out, self.guid);
        Big::put_u64(out, self.time);
        put_bool(out, self.use_encryption);
        proof {
            assert(out@ =~= old(out)@ + self.wire());
        }
    }

    pub fn decode(b: &Vec<u8>) -> (r: Result<Self, Error>)
        ensures
            (match r {
                Ok(p) => b@.len() >= 18 && b@[0] == CONNECTION_REQUEST_ID && p.guid == be64_val(
                    b@.subrange(1, 9),
                ) && p.time == be64_val(b@.subrange(9, 17)) && p.use_encryption == (b@[17] != 0),
                Err(e) => e == Error::InvalidData && !(b@.len() >= 18 && b@[0]
                    == CONNECTION_REQUEST_ID),
            }),
    {
        if b.len() < 18 || b[0] != CONNECTION_REQUEST_ID {
            return Err(Error::InvalidData);
        }
        let (guid, p) = match Big::get_u64(b, 1) {
            Some(x) => x,
            None => {
                return Err(Error::InvalidData);
            },
        };
        let (time, p) = match Big::get_u64(b, p) {
            Some(x) => x,
            None => {
                return Err(Error::InvalidData);
            },
        };
        let (enc, _) = match get_bool(b, p) {
            Some(x) => x,
            None => {
                return Err(Error::InvalidData);
            },
        };
        Ok(ConnectionRequest { guid, time, use_encryption: enc })
    }
}

pub proof fn lemma_connection_request_roundtrip(p: ConnectionRequest)
    ensures
        p.wire().len() == 18,
        p.wire()[0] == CONNECTION_REQUEST_ID,
        be64_val(p.wire().subrange(1, 9)) == p.guid,
        be64_val(p.wire().subrange(9, 17)) == p.time,
        (p.wire()[17] != 0) == p.use_encryption,
{
    lemma_be64_roundtrip(p.guid);
    lemma_be64_roundtrip(p.time);
    assert(p.wire().subrange(1, 9) =~= be64(p.guid));
    assert(p.wire().subrange(9, 17) =~= be64(p.time));
}

/// Rejection of a handshake with the wrong protocol version.
#[derive(Clone, Copy, PartialEq, Eq, Structural, Debug)]
pub struct IncompatibleProtocolVersion {
    pub server_protocol: u8,
    pub server_guid: u64,
}

impl IncompatibleProtocolVersion {
    pub open spec fn wire(self) -> Seq<u8> {
        seq![INCOMPATIBLE_PROTOCOL_VERSION_ID, self.server_protocol] + magic_bytes() + be64(
            self.server_guid,
        )
    }

    pub fn encode(&self, out: &mut Vec<u8>)
        ensures
            final(out)@ == old(out)@ + self.wire(),
    {
        put_u8(out, INCOMPATIBLE_PROTOCOL_VERSION_ID);
        put_u8(out, self.server_protocol);
        MAGIC::put(out);
        Big::put_u64(out, self.server_guid);
        proof {
            assert(out@ =~= old(out)@ + self.wire());
        }
    }

    pub fn decode(b: &Vec<u8>) -> (r: Result<Self, Error>)
        ensures
            (match r {
                Ok(p) => b@.len() >= 26 && b@[0] == INCOMPATIBLE_PROTOCOL_VERSION_ID
                    && p.server_protocol == b@[1] && p.server_guid == be64_val(
                    b@.subrange(18, 26),
                ),
                Err(e) => e == Error::InvalidData && !(b@.len() >= 26 && b@[0]
                    == INCOMPATIBLE_PROTOCOL_VERSION_ID),
            }),
    {
        if b.len() < 26 || b[0] != INCOMPATIBLE_PROTOCOL_VERSION_ID {
            return Err(Error::InvalidData);
        }
        let proto = b[1];
        let (guid, _) = match Big::get_u64(b, 18) {
            Some(x) => x,
            None => {
                return Err(Error::InvalidData);
            },
        };
        Ok(IncompatibleProtocolVersion { server_protocol: proto, server_guid: guid })
    }
}

pub proof fn lemma_incompatible_protocol_version_roundtrip(p: IncompatibleProtocolVersion)
    ensures
        p.wire().len() == 26,
        p.wire()[0] == INCOMPATIBLE_PROTOCOL_VERSION_ID,
        p.wire()[1] == p.server_protocol,
        be64_val(p.wire().subrange(18, 26)) == p.server_guid,
{
    lemma_be64_roundtrip(p.server_guid);
    assert(p.wire().subrange(18, 26) =~= be64(p.server_guid));
}

/// Orderly teardown of a connected session.
#[derive(Clone, Copy, PartialEq, Eq, Structural, Debug)]
pub struct DisconnectionNotification {
}

impl DisconnectionNotification {
    pub open spec fn wire(self) -> Seq<u8> {
        seq![DISCONNECTION_NOTIFICATION_ID]
    }

    pub fn encode(&self, out: &mut Vec<u8>)
        ensures
            final(out)@ == old(out)@ + self.wire(),
    {
        put_u8(out, DISCONNECTION_NOTIFICATION_ID);
        proof {
            assert(out@ =~= old(out)@ + self.wire());
        }
    }

    pub fn decode(b: &Vec<u8>) -> (r: Result<Self, Error>)
        ensures
            (match r {
                Ok(_) => b@.len() >= 1 && b@[0] == DISCONNECTION_NOTIFICATION_ID,
                Err(e) => e == Error::InvalidData && !(b@.len() >= 1 && b@[0]
                    == DISCONNECTION_NOTIFICATION_ID),
            }),
    {
        if b.len() < 1 || b[0] != DISCONNECTION_NOTIFICATION_ID {
            return Err(Error::InvalidData);
        }
        Ok(DisconnectionNotification {  })
    }
}


/// `count` zero bytes.
pub open spec fn zeros(count: int) -> Seq<u8> {
    Seq::new(
        (if count >= 0 {
            count
        } else {
            0
        }) as nat,
        |i: int| 0u8,
    )
}

/// `count` filler bytes of 0x06.
pub open spec fn filler(count: int) -> Seq<u8> {
    Seq::new(
        (if count >= 0 {
            count
        } else {
            0
        }) as nat,
        |i: int| 6u8,
    )
}

/// First open-connection request.  It is padded with zero bytes so that the
/// whole UDP datagram probes the path MTU; the receiver recovers the probed
/// MTU from the datagram length plus the fixed UDP header allowance.
#[derive(Clone, Copy, PartialEq, Eq, Structural, Debug)]
pub struct OpenConnectionRequest1 {
    pub protocol_version: u8,
    pub mtu_size: u16,
}

impl OpenConnectionRequest1 {
    /// Padding: the probed MTU minus the UDP header allowance (32) and the
    /// fixed preamble (18); absent when the MTU is smaller than those.
    pub open spec fn pad_len(self) -> int {
        if self.mtu_size >= 50 {
            self.mtu_size - 50
        } else {
            0
        }
    }

    pub open spec fn wire(self) -> Seq<u8> {
        seq![OPEN_CONNECTION_REQUEST1_ID] + magic_bytes() + seq![self.protocol_version] + zeros(
            self.pad_len(),
        )
    }

    pub fn encode(&self, out: &mut Vec<u8>)
        ensures
            final(out)@ == old(out)@ + self.wire(),
    {
        put_u8(out, OPEN_CONNECTION_REQUEST1_ID);
        MAGIC::put(out);
        put_u8(out, self.protocol_version);
        let pad: usize = if self.mtu_size >= 50 {
            (self.mtu_size - 50) as usize
        } else {
            0
        };
        let ghost mid = out@;
        let mut i: usize = 0;
        #[verifier::loop_isolation(false)]
        while i < pad
            invariant
                i <= pad,
                out@ == mid + zeros(i as int),
            decreases pad - i,
        {
            out.push(0);
            i += 1;
            proof {
                assert(out@ =~= mid + zeros(i as int));
            }
        }
        proof {
            assert(out@ =~= old(out)@ + self.wire());
        }
    }

    /// The decoded MTU is the encoded length plus the UDP header allowance;
    /// lengths beyond a u16 wrap, as the cast does.
    pub fn decode(b: &Vec<u8>) -> (r: Result<Self, Error>)
        ensures
            (match r {
                Ok(p) => b@.len() >= 18 && b@[0] == OPEN_CONNECTION_REQUEST1_ID
                    && p.protocol_version == b@[17] && p.mtu_size == ((b@.len() + 32) % 0x10000),
                Err(e) => e == Error::InvalidData && !(b@.len() >= 18 && b@[0]
                    == OPEN_CONNECTION_REQUEST1_ID),
            }),
    {
        if b.len() < 18 || b[0] != OPEN_CONNECTION_REQUEST1_ID {
            return Err(Error::InvalidData);
        }
        let mtu: u16 = ((b.len() % 0x10000 + 32) % 0x10000) as u16;
        proof {
            let l = b@.len() as int;
            assert((l % 0x10000 + 32) % 0x10000 == (l + 32) % 0x10000) by (nonlinear_arith);
        }
        Ok(OpenConnectionRequest1 { protocol_version: b[17], mtu_size: mtu })
    }
}

/// The padded probe decodes back to its protocol version, and to its own
/// MTU whenever the MTU covers the preamble.
pub proof fn lemma_open_connection_request1_roundtrip(p: OpenConnectionRequest1)
    ensures
        p.wire().len() == 18 + p.pad_len(),
        p.wire()[0] == OPEN_CONNECTION_REQUEST1_ID,
        p.wire()[17] == p.protocol_version,
        p.mtu_size >= 50 ==> (p.wire().len() + 32) % 0x10000 == p.mtu_size,
{
}

/// Unconnected discovery reply carrying the server's advertised name.
#[derive(Clone, PartialEq, Eq, Debug)]
pub struct UnconnectedPong {
    pub time: u64,
    pub guid: u64,
    pub motd: String,
}

impl UnconnectedPong {
    pub open spec fn wire(self) -> Seq<u8> {
        seq![UNCONNECTED_PONG_ID] + be64(self.time) + be64(self.guid) + magic_bytes() + string_wire(
            self.motd@,
        )
    }

    pub fn encode(&self, out: &mut Vec<u8>)
        requires
            vstd::utf8::encode_utf8(self.motd@).len() <= 0xffff,
        ensures
            final(out)@ == old(out)@ + self.wire(),
    {
        put_u8(out, UNCONNECTED_PONG_ID);
        Big::put_u64(out, self.time);
        Big::put_u64(out, self.guid);
        MAGIC::put(out);
        put_string(out, &self.motd);
        proof {
            assert(out@ =~= old(out)@ + self.wire());
        }
    }

    pub fn decode(b: &Vec<u8>) -> (r: Result<Self, Error>)
        ensures
            (match r {
                Ok(p) => b@.len() >= 35 && b@[0] == UNCONNECTED_PONG_ID && p.time == be64_val(
                    b@.subrange(1, 9),
                ) && p.guid == be64_val(b@.subrange(9, 17)) && ({
                    let n = be16_val(b@.subrange(33, 35)) as int;
                    &&& b@.len() >= 35 + n
                    &&& vstd::utf8::valid_utf8(b@.subrange(35, 35 + n))
                    &&& p.motd@ == vstd::utf8::decode_utf8(b@.subrange(35, 35 + n))
                }),
                Err(e) => e == Error::InvalidData && !(b@.len() >= 35 && b@[0]
                    == UNCONNECTED_PONG_ID && ({
                    let n = be16_val(b@.subrange(33, 35)) as int;
                    b@.len() >= 35 + n && vstd::utf8::valid_utf8(b@.subrange(35, 35 + n))
                })),
            }),
    {
        if b.len() < 35 || b[0] != UNCONNECTED_PONG_ID {
            return Err(Error::InvalidData);
        }
        let (time, p) = match Big::get_u64(b, 1) {
            Some(x) => x,
            None => {
                return Err(Error::InvalidData);
            },
        };
        let (guid, _) = match Big::get_u64(b, p) {
            Some(x) => x,
            None => {
                return Err(Error::InvalidData);
            },
        };
        let (motd, _) = match get_string(b, 33) {
            Some(x) => x,
            None => {
                return Err(Error::InvalidData);
            },
        };
        Ok(UnconnectedPong { time, guid, motd })
    }
}

/// The pong's fields, its advertised name included, survive the wire.
pub proof fn lemma_unconnected_pong_roundtrip(p: UnconnectedPong)
    requires
        vstd::utf8::encode_utf8(p.motd@).len() <= 0xffff,
    ensures
        ({
            let w = p.wire();
            let n = vstd::utf8::encode_utf8(p.motd@).len() as int;
            &&& w.len() == 35 + n
            &&& w[0] == UNCONNECTED_PONG_ID
            &&& be64_val(w.subrange(1, 9)) == p.time
            &&& be64_val(w.subrange(9, 17)) == p.guid
            &&& be16_val(w.subrange(33, 35)) == n
            &&& vstd::utf8::valid_utf8(w.subrange(35, 35 + n))
            &&& vstd::utf8::decode_utf8(w.subrange(35, 35 + n)) == p.motd@
        }),
{
    broadcast use vstd::utf8::encode_utf8_valid_utf8, vstd::utf8::encode_utf8_decode_utf8;

    let w = p.wire();
    let n = vstd::utf8::encode_utf8(p.motd@).len() as int;
    lemma_be64_roundtrip(p.time);
    lemma_be64_roundtrip(p.guid);
    lemma_be16_roundtrip(n as u16);
    assert(w.subrange(1, 9) =~= be64(p.time));
    assert(w.subrange(9, 17) =~= be64(p.guid));
    assert(w.subrange(33, 35) =~= be16(n as u16));
    assert(w.subrange(35, 35 + n) =~= vstd::utf8::encode_utf8(p.motd@));
}

/// Acceptance of a connection request, echoed back to the client.
#[derive(Clone, Copy, PartialEq, Eq, Structural, Debug)]
pub struct ConnectionRequestAccepted {
    pub client_address: Address,
    pub system_index: u16,
    pub request_timestamp: u64,
    pub accepted_timestamp: u64,
}

impl ConnectionRequestAccepted {
    pub open spec fn wire(self) -> Seq<u8> {
        seq![CONNECTION_REQUEST_ACCEPTED_ID] + addr_wire(self.client_address) + be16(
            self.system_index,
        ) + filler(10) + be64(self.request_timestamp) + be64(self.accepted_timestamp)
    }

    pub fn encode(&self, out: &mut Vec<u8>)
        ensures
            final(out)@ == old(out)@ + self.wire(),
    {
        put_u8(out, CONNECTION_REQUEST_ACCEPTED_ID);
        put_address(out, &self.client_address);
        Big::put_u16(out, self.system_index);
        let mut i: usize = 0;
        let ghost mid = out@;
        #[verifier::loop_isolation(false)]
        while i < 10
            invariant
                i <= 10,
                out@ == mid + filler(i as int),
            decreases 10 - i,
        {
            out.push(6);
            i += 1;
            proof {
                assert(out@ =~= mid + filler(i as int));
            }
        }
        Big::put_u64(out, self.request_timestamp);
        Big::put_u64(out, self.accepted_timestamp);
        proof {
            assert(out@ =~= old(out)@ + self.wire());
        }
    }

    /// The timestamps are read from the end of the packet: the cursor skips
    /// to sixteen bytes before the end, whatever padding sits in between.
    pub fn decode(b: &Vec<u8>) -> (r: Result<Self, Error>)
        ensures
            (match r {
                Ok(p) => b@.len() >= 26 && b@[0] == CONNECTION_REQUEST_ACCEPTED_ID && b@[1] == 4
                    && p.client_address.a == 0xff - b@[2] && p.client_address.b == 0xff - b@[3]
                    && p.client_address.c == 0xff - b@[4] && p.client_address.d == 0xff - b@[5]
                    && p.client_address.port == be16_val(b@.subrange(6, 8)) && p.system_index
                    == be16_val(b@.subrange(8, 10)) && p.request_timestamp == be64_val(
                    b@.subrange(b@.len() - 16, b@.len() - 8),
                ) && p.accepted_timestamp == be64_val(b@.subrange(b@.len() - 8, b@.len() as int)),
                Err(e) => e == Error::InvalidData && !(b@.len() >= 26 && b@[0]
                    == CONNECTION_REQUEST_ACCEPTED_ID && b@[1] == 4),
            }),
    {
        if b.len() < 26 || b[0] != CONNECTION_REQUEST_ACCEPTED_ID {
            return Err(Error::InvalidData);
        }
        let (client_address, p) = match get_address(b, 1) {
            Some(x) => x,
            None => {
                return Err(Error::InvalidData);
            },
        };
        let (system_index, _) = match Big::get_u16(b, p) {
            Some(x) => x,
            None => {
                return Err(Error::InvalidData);
            },
        };
        let (request_timestamp, p) = match Big::get_u64(b, b.len() - 16) {
            Some(x) => x,
            None => {
                return Err(Error::InvalidData);
            },
        };
        let (accepted_timestamp, _) = match Big::get_u64(b, p) {
            Some(x) => x,
            None => {
                return Err(Error::InvalidData);
            },
        };
        Ok(
            ConnectionRequestAccepted {
                client_address,
                system_index,
                request_timestamp,
                accepted_timestamp,
            },
        )
    }
}

pub proof fn lemma_connection_request_accepted_roundtrip(p: ConnectionRequestAccepted)
    ensures
        ({
            let w = p.wire();
            &&& w.len() == 36
            &&& w[0] == CONNECTION_REQUEST_ACCEPTED_ID
            &&& w[1] == 4
            &&& 0xff - w[2] == p.client_address.a
            &&& 0xff - w[3] == p.client_address.b
            &&& 0xff - w[4] == p.client_address.c
            &&& 0xff - w[5] == p.client_address.d
            &&& be16_val(w.subrange(6, 8)) == p.client_address.port
            &&& be16_val(w.subrange(8, 10)) == p.system_index
            &&& be64_val(w.subrange(20, 28)) == p.request_timestamp
            &&& be64_val(w.subrange(28, 36)) == p.accepted_timestamp
        }),
{
    let w = p.wire();
    lemma_addr_roundtrip(p.client_address);
    lemma_be16_roundtrip(p.client_address.port);
    lemma_be16_roundtrip(p.system_index);
    lemma_be64_roundtrip(p.request_timestamp);
    lemma_be64_roundtrip(p.accepted_timestamp);
    assert(w.subrange(6, 8) =~= be16(p.client_address.port));
    assert(w.subrange(8, 10) =~= be16(p.system_index));
    assert(w.subrange(20, 28) =~= be64(p.request_timestamp));
    assert(w.subrange(28, 36) =~= be64(p.accepted_timestamp));
}

/// The client's final handshake message on a freshly accepted session.
#[derive(Clone, Copy, PartialEq, Eq, Structural, Debug)]
pub struct NewIncomingConnections {
    pub server_address: Address,
    pub request_timestamp: u64,
    pub accepted_timestamp: u64,
}

impl NewIncomingConnections {
    pub open spec fn wire(self) -> Seq<u8> {
        seq![NEW_INCOMING_CONNECTIONS_ID] + addr_wire(self.server_address) + filler(10) + be64(
            self.request_timestamp,
        ) + be64(self.accepted_timestamp)
    }

    pub fn encode(&self, out: &mut Vec<u8>)
        ensures
            final(out)@ == old(out)@ + self.wire(),
    {
        put_u8(out, NEW_INCOMING_CONNECTIONS_ID);
        put_address(out, &self.server_address);
        let mut i: usize = 0;
        let ghost mid = out@;
        #[verifier::loop_isolation(false)]
        while i < 10
            invariant
                i <= 10,
                out@ == mid + filler(i as int),
            decreases 10 - i,
        {
            out.push(6);
            i += 1;
            proof {
                assert(out@ =~= mid + filler(i as int));
            }
        }
        Big::put_u64(out, self.request_timestamp);
        Big::put_u64(out, self.accepted_timestamp);
        proof {
            assert(out@ =~= old(out)@ + self.wire());
        }
    }

    pub fn decode(b: &Vec<u8>) -> (r: Result<Self, Error>)
        ensures
            (match r {
                Ok(p) => b@.len() >= 24 && b@[0] == NEW_INCOMING_CONNECTIONS_ID && b@[1] == 4
                    && p.server_address.a == 0xff - b@[2] && p.server_address.b == 0xff - b@[3]
                    && p.server_address.c == 0xff - b@[4] && p.server_address.d == 0xff - b@[5]
                    && p.server_address.port == be16_val(b@.subrange(6, 8)) && p.request_timestamp
                    == be64_val(b@.subrange(b@.len() - 16, b@.len() - 8)) && p.accepted_timestamp
                    == be64_val(b@.subrange(b@.len() - 8, b@.len() as int)),
                Err(e) => e == Error::InvalidData && !(b@.len() >= 24 && b@[0]
                    == NEW_INCOMING_CONNECTIONS_ID && b@[1] == 4),
            }),
    {
        if b.len() < 24 || b[0] != NEW_INCOMING_CONNECTIONS_ID {
            return Err(Error::InvalidData);
        }
        let (server_address, _) = match get_address(b, 1) {
            Some(x) => x,
            None => {
                return Err(Error::InvalidData);
            },
        };
        let (request_timestamp, p) = match Big::get_u64(b, b.len() - 16) {
            Some(x) => x,
            None => {
                return Err(Error::InvalidData);
            },
        };
        let (accepted_timestamp, _) = match Big::get_u64(b, p) {
            Some(x) => x,
            None => {
                return Err(Error::InvalidData);
            },
        };
        Ok(NewIncomingConnections { server_address, request_timestamp, accepted_timestamp })
    }
}

pub proof fn lemma_new_incoming_connections_roundtrip(p: NewIncomingConnections)
    ensures
        ({
            let w = p.wire();
            &&& w.len() == 34
            &&& w[0] == NEW_INCOMING_CONNECTIONS_ID
            &&& w[1] == 4
            &&& 0xff - w[2] == p.server_address.a
            &&& 0xff - w[3] == p.server_address.b
            &&& 0xff - w[4] == p.server_address.c
            &&& 0xff - w[5] == p.server_address.d
            &&& be16_val(w.subrange(6, 8)) == p.server_address.port
            &&& be64_val(w.subrange(18, 26)) == p.request_timestamp
            &&& be64_val(w.subrange(26, 34)) == p.accepted_timestamp
        }),
{
    let w = p.wire();
    lemma_addr_roundtrip(p.server_address);
    lemma_be16_roundtrip(p.server_address.port);
    lemma_be64_roundtrip(p.request_timestamp);
    lemma_be64_roundtrip(p.accepted_timestamp);
    assert(w.subrange(6, 8) =~= be16(p.server_address.port));
    assert(w.subrange(18, 26) =~= be64(p.request_timestamp));
    assert(w.subrange(26, 34) =~= be64(p.accepted_timestamp));
}

/// One run-length-coded acknowledgement range.
#[derive(Clone, Copy, PartialEq, Eq, Debug)]
pub struct Acknowledge {
    pub record_count: u16,
    pub max_equals_min: bool,
    pub sequences: (u32, u32),
}

impl Acknowledge {
    pub open spec fn wf(self) -> bool {
        &&& self.sequences.0 < 0x1000000
        &&& self.sequences.1 < 0x1000000
        &&& self.max_equals_min ==> self.sequences.0 == self.sequences.1
    }

    pub open spec fn wire(self) -> Seq<u8> {
        be16(self.record_count) + seq![
            if self.max_equals_min {
                1u8
            } else {
                0u8
            },
        ] + le24(self.sequences.0) + (if self.max_equals_min {
            Seq::<u8>::empty()
        } else {
            le24(self.sequences.1)
        })
    }

    pub fn encode(&self, out: &mut Vec<u8>)
        requires
            self.wf(),
        ensures
            final(out)@ == old(out)@ + self.wire(),
    {
        Big::put_u16(out, self.record_count);
        put_bool(out, self.max_equals_min);
        U24::put(out, self.sequences.0);
        if !self.max_equals_min {
            U24::put(out, self.sequences.1);
        }
        proof {
            assert(out@ =~= old(out)@ + self.wire());
        }
    }

    /// Read one range at `pos`; a single-sequence record stands for the
    /// pair `(s, s)`.
    pub fn decode(b: &Vec<u8>, pos: usize) -> (r: Result<(Self, usize), Error>)
        ensures
            (match r {
                Ok((p, p2)) => {
                    &&& pos + 6 <= b.len()
                    &&& p.record_count == be16_val(b@.subrange(pos as int, pos + 2))
                    &&& p.max_equals_min == (b@[pos + 2] != 0)
                    &&& p.sequences.0 == le24_val(b@.subrange(pos + 3, pos + 6))
                    &&& (if p.max_equals_min {
                        p.sequences.1 == p.sequences.0 && p2 == pos + 6
                    } else {
                        pos + 9 <= b.len() && p.sequences.1 == le24_val(b@.subrange(pos + 6, pos + 9))
                            && p2 == pos + 9
                    })
                    &&& p.sequences.0 < 0x1000000
                    &&& p.sequences.1 < 0x1000000
                },
                Err(e) => e == Error::InvalidData && !(pos + 6 <= b@.len() && (b@[pos + 2] != 0
                    || pos + 9 <= b@.len())),
            }),
    {
        let (record_count, p) = match Big::get_u16(b, pos) {
            Some(x) => x,
            None => {
                return Err(Error::InvalidData);
            },
        };
        let (flag, p) = match get_bool(b, p) {
            Some(x) => x,
            None => {
                return Err(Error::InvalidData);
            },
        };
        let (s0, p) = match U24::get(b, p) {
            Some(x) => x,
            None => {
                return Err(Error::InvalidData);
            },
        };
        if flag {
            Ok((Acknowledge { record_count, max_equals_min: flag, sequences: (s0, s0) }, p))
        } else {
            let (s1, p) = match U24::get(b, p) {
                Some(x) => x,
                None => {
                    return Err(Error::InvalidData);
                },
            };
            Ok((Acknowledge { record_count, max_equals_min: flag, sequences: (s0, s1) }, p))
        }
    }
}

pub proof fn lemma_acknowledge_roundtrip(p: Acknowledge)
    requires
        p.wf(),
    ensures
        ({
            let w = p.wire();
            &&& w.len() == (if p.max_equals_min {
                6int
            } else {
                9int
            })
            &&& be16_val(w.subrange(0, 2)) == p.record_count
            &&& (w[2] != 0) == p.max_equals_min
            &&& le24_val(w.subrange(3, 6)) == p.sequences.0
            &&& !p.max_equals_min ==> le24_val(w.subrange(6, 9)) == p.sequences.1
        }),
{
    let w = p.wire();
    lemma_be16_roundtrip(p.record_count);
    lemma_le24_roundtrip(p.sequences.0);
    assert(w.subrange(0, 2) =~= be16(p.record_count));
    assert(w.subrange(3, 6) =~= le24(p.sequences.0));
    if !p.max_equals_min {
        lemma_le24_roundtrip(p.sequences.1);
        assert(w.subrange(6, 9) =~= le24(p.sequences.1));
    }
}


/// The bytes decode as an acknowledgement-range packet with the given
/// leading ID: long enough for the header and one sequence, and for the
/// second sequence when the single-range flag is clear.
pub open spec fn range_packet_decodes(s: Seq<u8>, id: u8) -> bool {
    s.len() >= 7 && s[0] == id && (s[3] != 0 || s.len() >= 10)
}

/// The inclusive range such a packet carries.
pub open spec fn range_of(s: Seq<u8>) -> (u32, u32) {
    let lo = le24_val(s.subrange(4, 7));
    (
        lo,
        if s[3] != 0 {
            lo
        } else {
            le24_val(s.subrange(7, 10))
        },
    )
}

/// Positive acknowledgement datagram.
#[derive(Clone, Copy, PartialEq, Eq, Debug)]
pub struct Ack {
    pub ack: Acknowledge,
}

impl Ack {
    pub open spec fn wire(self) -> Seq<u8> {
        seq![ACK_ID] + self.ack.wire()
    }

    pub fn encode(&self, out: &mut Vec<u8>)
        requires
            self.ack.wf(),
        ensures
            final(out)@ == old(out)@ + self.wire(),
    {
        put_u8(out, ACK_ID);
        self.ack.encode(out);
        proof {
            assert(out@ =~= old(out)@ + self.wire());
        }
    }

    pub fn decode(b: &Vec<u8>) -> (r: Result<Self, Error>)
        ensures
            (match r {
                Ok(p) => b@.len() >= 1 && b@[0] == ACK_ID && ({
                    &&& p.ack.record_count == be16_val(b@.subrange(1, 3))
                    &&& p.ack.max_equals_min == (b@[3] != 0)
                    &&& p.ack.sequences.0 == le24_val(b@.subrange(4, 7))
                    &&& (if p.ack.max_equals_min {
                        p.ack.sequences.1 == p.ack.sequences.0
                    } else {
                        p.ack.sequences.1 == le24_val(b@.subrange(7, 10))
                    })
                    &&& p.ack.sequences.0 < 0x1000000 && p.ack.sequences.1 < 0x1000000
                    &&& range_packet_decodes(b@, ACK_ID)
                }),
                Err(e) => e == Error::InvalidData && !(b@.len() >= 7 && b@[0] == ACK_ID && (
                b@[3] != 0 || b@.len() >= 10)),
            }),
    {
        if b.len() < 1 || b[0] != ACK_ID {
            return Err(Error::InvalidData);
        }
        let (ack, _) = match Acknowledge::decode(b, 1) {
            Ok(x) => x,
            Err(e) => {
                return Err(e);
            },
        };
        Ok(Ack { ack })
    }
}

/// Negative acknowledgement datagram.
#[derive(Clone, Copy, PartialEq, Eq, Debug)]
pub struct Nack {
    pub nack: Acknowledge,
}

impl Nack {
    pub open spec fn wire(self) -> Seq<u8> {
        seq![NACK_ID] + self.nack.wire()
    }

    pub fn encode(&self, out: &mut Vec<u8>)
        requires
            self.nack.wf(),
        ensures
            final(out)@ == old(out)@ + self.wire(),
    {
        put_u8(out, NACK_ID);
        self.nack.encode(out);
        proof {
            assert(out@ =~= old(out)@ + self.wire());
        }
    }

    pub fn decode(b: &Vec<u8>) -> (r: Result<Self, Error>)
        ensures
            (match r {
                Ok(p) => b@.len() >= 1 && b@[0] == NACK_ID && ({
                    &&& p.nack.record_count == be16_val(b@.subrange(1, 3))
                    &&& p.nack.max_equals_min == (b@[3] != 0)
                    &&& p.nack.sequences.0 == le24_val(b@.subrange(4, 7))
                    &&& (if p.nack.max_equals_min {
                        p.nack.sequences.1 == p.nack.sequences.0
                    } else {
                        p.nack.sequences.1 == le24_val(b@.subrange(7, 10))
                    })
                    &&& p.nack.sequences.0 < 0x1000000 && p.nack.sequences.1 < 0x1000000
                    &&& range_packet_decodes(b@, NACK_ID)
                }),
                Err(e) => e == Error::InvalidData && !(b@.len() >= 7 && b@[0] == NACK_ID && (
                b@[3] != 0 || b@.len() >= 10)),
            }),
    {
        if b.len() < 1 || b[0] != NACK_ID {
            return Err(Error::InvalidData);
        }
        let (nack, _) = match Acknowledge::decode(b, 1) {
            Ok(x) => x,
            Err(e) => {
                return Err(e);
            },
        };
        Ok(Nack { nack })
    }
}

} // verus!
