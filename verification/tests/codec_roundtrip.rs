//! Codec round trips: decoding an encoded packet gives the packet back
//! (modulo padding), and the address octets are complemented on the wire.

use ucp::codec::{get_address, put_address, Address};
use ucp::system_packets::{
    Ack, Acknowledge, ConnectedPing, ConnectedPong, ConnectionRequest, ConnectionRequestAccepted,
    DisconnectionNotification, IncompatibleProtocolVersion, Nack, NewIncomingConnections,
    OpenConnectionReply1, OpenConnectionReply2, OpenConnectionRequest1, OpenConnectionRequest2,
    UnconnectedPing, UnconnectedPong,
};

fn addr() -> Address {
    Address { a: 192, b: 168, c: 1, d: 7, port: 19132 }
}

#[test]
fn socket_addr_roundtrip_and_complement() {
    let v4 = Address { a: 10, b: 20, c: 30, d: 40, port: 4242 };
    let mut out = vec![];
    put_address(&mut out, &v4);
    // on-wire octets are 0xff minus the address bytes
    assert_eq!(out[0], 4);
    assert_eq!(out[1], 0xff - 10);
    assert_eq!(out[2], 0xff - 20);
    assert_eq!(out[3], 0xff - 30);
    assert_eq!(out[4], 0xff - 40);
    let (back, used) = get_address(&out, 0).unwrap();
    assert_eq!(used, 7);
    assert_eq!(back, v4);
}

#[test]
fn unconnected_ping_roundtrip() {
    let p = UnconnectedPing { time_stamp: 0x0102030405060708, guid: 0x114514 };
    let mut out = vec![];
    p.encode(&mut out);
    assert_eq!(UnconnectedPing::decode(&out).unwrap(), p);
}

#[test]
fn unconnected_pong_roundtrip() {
    let p = UnconnectedPong { time: 77, guid: 0x114514, motd: String::from("a server") };
    let mut out = vec![];
    p.encode(&mut out);
    assert_eq!(UnconnectedPong::decode(&out).unwrap(), p);
}

#[test]
fn connected_ping_pong_roundtrip() {
    let ping = ConnectedPing { client_timestamp: 123456789 };
    let mut out = vec![];
    ping.encode(&mut out);
    assert_eq!(ConnectedPing::decode(&out).unwrap(), ping);

    let pong = ConnectedPong { client_timestamp: 123456789, server_timestamp: 987654321 };
    let mut out = vec![];
    pong.encode(&mut out);
    assert_eq!(ConnectedPong::decode(&out).unwrap(), pong);
}

#[test]
fn open_connection_request1_roundtrip_mtu_sizes() {
    for mtu in [576u16, 1204, 1400] {
        let p = OpenConnectionRequest1 { protocol_version: 0xA, mtu_size: mtu };
        let mut out = vec![];
        p.encode(&mut out);
        // the padding probes the path: the whole packet is MTU minus the UDP header
        assert_eq!(out.len(), (mtu - 32) as usize);
        let back = OpenConnectionRequest1::decode(&out).unwrap();
        assert_eq!(back, p);
    }
}

#[test]
fn open_connection_reply1_roundtrip() {
    let p = OpenConnectionReply1 { guid: 0x114514, use_encryption: false, mtu_size: 1400 };
    let mut out = vec![];
    p.encode(&mut out);
    assert_eq!(OpenConnectionReply1::decode(&out).unwrap(), p);
}

#[test]
fn open_connection_request2_roundtrip() {
    let p = OpenConnectionRequest2 { address: addr(), mtu: 1400, guid: 7 };
    let mut out = vec![];
    p.encode(&mut out);
    assert_eq!(OpenConnectionRequest2::decode(&out).unwrap(), p);
}

#[test]
fn open_connection_reply2_roundtrip() {
    let p = OpenConnectionReply2 { guid: 9, address: addr(), mtu: 1280, use_encryption: false };
    let mut out = vec![];
    p.encode(&mut out);
    assert_eq!(OpenConnectionReply2::decode(&out).unwrap(), p);
}

#[test]
fn connection_request_roundtrip() {
    let p = ConnectionRequest { guid: 0xdead, time: 0xbeef, use_encryption: false };
    let mut out = vec![];
    p.encode(&mut out);
    assert_eq!(ConnectionRequest::decode(&out).unwrap(), p);
}

#[test]
fn connection_request_accepted_roundtrip_ipv4() {
    let p = ConnectionRequestAccepted {
        client_address: addr(),
        system_index: 0,
        request_timestamp: 1111,
        accepted_timestamp: 2222,
    };
    let mut out = vec![];
    p.encode(&mut out);
    assert_eq!(out.len(), 36);
    assert_eq!(ConnectionRequestAccepted::decode(&out).unwrap(), p);
}

#[test]
fn new_incoming_connections_roundtrip() {
    let p = NewIncomingConnections {
        server_address: addr(),
        request_timestamp: 1111,
        accepted_timestamp: 2222,
    };
    let mut out = vec![];
    p.encode(&mut out);
    assert_eq!(NewIncomingConnections::decode(&out).unwrap(), p);
}

#[test]
fn incompatible_protocol_version_roundtrip() {
    let p = IncompatibleProtocolVersion { server_protocol: 0xA, server_guid: 0x114514 };
    let mut out = vec![];
    p.encode(&mut out);
    assert_eq!(IncompatibleProtocolVersion::decode(&out).unwrap(), p);
}

#[test]
fn disconnection_notification_roundtrip() {
    let p = DisconnectionNotification {};
    let mut out = vec![];
    p.encode(&mut out);
    assert_eq!(out, vec![0x15]);
    assert!(DisconnectionNotification::decode(&out).is_ok());
}

#[test]
fn ack_nack_roundtrip() {
    let one = Acknowledge { record_count: 1, max_equals_min: true, sequences: (5, 5) };
    let mut out = vec![];
    let a = Ack { ack: one };
    a.encode(&mut out);
    assert_eq!(out.len(), 7);
    assert_eq!(Ack::decode(&out).unwrap(), a);

    let range = Acknowledge { record_count: 1, max_equals_min: false, sequences: (3, 9) };
    let mut out = vec![];
    let n = Nack { nack: range };
    n.encode(&mut out);
    assert_eq!(out.len(), 10);
    assert_eq!(Nack::decode(&out).unwrap(), n);
}

#[test]
fn decode_rejects_wrong_id() {
    let p = ConnectedPing { client_timestamp: 3 };
    let mut out = vec![];
    p.encode(&mut out);
    out[0] = 0x42;
    assert_eq!(ConnectedPing::decode(&out).unwrap_err(), ucp::Error::InvalidData);
}

#[test]
fn decode_rejects_short_buffer() {
    let out = vec![0x09u8, 1, 2];
    assert_eq!(ConnectionRequest::decode(&out).unwrap_err(), ucp::Error::InvalidData);
}

#[test]
fn pong_decode_rejects_invalid_utf8() {
    let p = UnconnectedPong { time: 1, guid: 2, motd: String::from("ab") };
    let mut out = vec![];
    p.encode(&mut out);
    let n = out.len();
    out[n - 2] = 0xff;
    out[n - 1] = 0xfe;
    assert_eq!(UnconnectedPong::decode(&out).unwrap_err(), ucp::Error::InvalidData);
}
