//! End-to-end session scenarios: two connections wired back to back in
//! memory, with the test loop standing in for the socket and the clock.

use ucp::codec::Address;
use ucp::conn::{Conn, ConnEvent};
use ucp::handshake;
use ucp::packets::Reliability;
use ucp::system_packets::{
    DisconnectionNotification, OpenConnectionReply1, OpenConnectionReply2,
};

/// Deliver every datagram queued at `from` into `to`.
fn pump(from: &mut Conn, to: &mut Conn, now: u64) {
    for d in from.take_outgoing() {
        let _ = to.handle(&d, now);
    }
}

/// Collect payload events.
fn packets(events: Vec<ConnEvent>) -> Vec<Vec<u8>> {
    let mut out = vec![];
    for e in events {
        if let ConnEvent::Packet(p) = e {
            out.push(p);
        }
    }
    out
}

#[test]
fn offline_handshake_negotiates_mtu() {
    let client_addr = Address { a: 127, b: 0, c: 0, d: 1, port: 54321 };
    let server_guid = 0x114514u64;
    let client_guid = 0x42u64;

    // client probes, server answers with its clamped MTU offer
    let probe = handshake::build_ocrequest1(handshake::probe_mtu(0));
    let reply1_bytes = handshake::handle_ocrequest1(&probe, server_guid).unwrap();
    let reply1 = OpenConnectionReply1::decode(&reply1_bytes).unwrap();
    assert_eq!(reply1.guid, server_guid);
    assert_eq!(reply1.mtu_size, 1400); // 1496 clamped to the maximum
    assert!(!reply1.use_encryption);

    // client commits, server creates the session
    let req2 = handshake::build_ocrequest2(
        Address { a: 127, b: 0, c: 0, d: 1, port: 19132 },
        reply1.mtu_size,
        client_guid,
    );
    let (reply2_bytes, mtu) = handshake::handle_ocrequest2(&req2, server_guid, client_addr).unwrap();
    let reply2 = OpenConnectionReply2::decode(&reply2_bytes).unwrap();
    assert_eq!(mtu, 1400);
    assert_eq!(reply2.mtu, 1400);
    assert_eq!(reply2.address, client_addr);

    // connected-level admission
    let request = handshake::build_connection_request(client_guid, 100);
    let step = handshake::into_session_step(&request, client_addr, 200).unwrap();
    let accepted_bytes = match step {
        handshake::ServerStep::Reply(v) => v,
        _ => panic!("expected an acceptance"),
    };
    let confirm = handshake::client_accept(&accepted_bytes, Address {
        a: 127,
        b: 0,
        c: 0,
        d: 1,
        port: 19132,
    })
    .unwrap();
    match handshake::into_session_step(&confirm, client_addr, 300).unwrap() {
        handshake::ServerStep::Connected => {}
        _ => panic!("expected the session to connect"),
    }
}

#[test]
fn echo_reliable_ordered() {
    let mut client = Conn::new(1400, 0);
    let mut server = Conn::new(1400, 0);
    client.set_nodelay(true);
    server.set_nodelay(true);

    let msg = vec![0xfeu8, 1, 2, 3];
    client.send(&msg, Reliability::ReliableOrdered, 10);
    pump(&mut client, &mut server, 11);
    let got = packets(server.take_events());
    assert_eq!(got, vec![msg.clone()]);
    assert_eq!(got[0][0], 0xfe);

    // the server echoes the payload back
    server.send(&got[0], Reliability::ReliableOrdered, 20);
    pump(&mut server, &mut client, 21);
    let back = packets(client.take_events());
    assert_eq!(back, vec![msg]);
    assert_eq!(back[0][0], 0xfe);
}

#[test]
fn large_payload_reassembles_in_one_delivery() {
    let mut client = Conn::new(1400, 0);
    let mut server = Conn::new(1400, 0);
    client.set_nodelay(true);
    server.set_nodelay(true);

    // keep the first byte clear of the connected system-packet ids
    let mut payload = vec![0u8; 32768];
    for (i, b) in payload.iter_mut().enumerate() {
        *b = 0xfe_u8.wrapping_sub((i % 251) as u8);
    }
    server.send(&payload, Reliability::ReliableOrdered, 1);

    let mut received: Vec<Vec<u8>> = vec![];
    let mut now = 1u64;
    for _ in 0..2000 {
        now += 50;
        pump(&mut server, &mut client, now);
        client.update(now);
        pump(&mut client, &mut server, now);
        server.update(now);
        received.extend(packets(client.take_events()));
        if !received.is_empty() {
            break;
        }
    }
    assert_eq!(received.len(), 1);
    assert_eq!(received[0], payload);
}

#[test]
fn silence_past_retransmission_limit_times_out() {
    let mut client = Conn::new(1400, 0);
    client.set_nodelay(true);
    // the client writes reliably, but every datagram is dropped
    client.send(&vec![1, 2, 3], Reliability::ReliableOrdered, 0);
    client.take_outgoing();

    let mut now = 0u64;
    let mut timed_out = false;
    for _ in 0..50 {
        now += 60000; // far past any backed-off timeout
        client.update(now);
        client.take_outgoing();
        if client.take_events().contains(&ConnEvent::Timeout) {
            timed_out = true;
            break;
        }
    }
    assert!(timed_out);
}

#[test]
fn disconnection_notification_reaches_application() {
    let mut client = Conn::new(1400, 0);
    let mut server = Conn::new(1400, 0);
    client.set_nodelay(true);
    server.set_nodelay(true);

    let mut note = vec![];
    DisconnectionNotification {}.encode(&mut note);
    server.send(&note, Reliability::ReliableOrdered, 5);
    pump(&mut server, &mut client, 6);
    assert!(client.take_events().contains(&ConnEvent::Disconnected));
}

#[test]
fn ping_is_answered_with_pong() {
    let mut a = Conn::new(1400, 0);
    let mut b = Conn::new(1400, 0);
    a.set_nodelay(true);
    b.set_nodelay(true);

    // after enough silence the next update pings
    a.update(6000);
    pump(&mut a, &mut b, 6001);
    // the peer answers without raising anything to the application
    assert_eq!(b.take_events(), vec![]);
    pump(&mut b, &mut a, 6002);
    assert_eq!(a.take_events(), vec![]);
}

#[test]
fn acks_flow_back_and_clear_the_send_queue() {
    let mut a = Conn::new(1400, 0);
    let mut b = Conn::new(1400, 0);
    a.set_nodelay(true);
    b.set_nodelay(true);

    a.send(&vec![42], Reliability::Reliable, 0);
    pump(&mut a, &mut b, 1);
    assert_eq!(a.send.buffer.len(), 1); // in flight, awaiting acknowledgement
    b.update(2); // flushes the ACK range
    pump(&mut b, &mut a, 3);
    assert_eq!(a.send.buffer.len(), 0);
}

#[test]
fn sequenced_frames_unsupported_by_order_never_block_ordered_channel() {
    let mut a = Conn::new(1400, 0);
    let mut b = Conn::new(1400, 0);
    a.set_nodelay(true);
    b.set_nodelay(true);
    a.send(&vec![9, 9, 9], Reliability::Unreliable, 0);
    pump(&mut a, &mut b, 1);
    assert_eq!(packets(b.take_events()), vec![vec![9, 9, 9]]);
}
