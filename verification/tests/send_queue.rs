//! Send-queue behavior: fragmentation at the MTU, NACK retransmission, and
//! the coalescing rule.

use ucp::packets::Reliability;
use ucp::send::DatagramSender;

#[test]
fn mtu_splitting_produces_ceil_count_with_shared_oindex() {
    let mut s = DatagramSender::new(1400);
    s.set_nodelay(true);
    let payload = vec![0xabu8; 8192];
    s.send_ref(&payload, Reliability::ReliableOrdered, 0);

    // header of a fragmented reliable-ordered frame: 3 + 3 + 4 + 10 = 20
    let payload_size = (1400 - 32 - 4) - 20;
    let expected = (8192 + payload_size - 1) / payload_size;
    assert_eq!(payload_size, 1344);
    assert_eq!(expected, 7);

    let mut pieces = vec![];
    for g in &s.buffer {
        for p in &g.packets {
            pieces.push(p.frame);
        }
    }
    assert_eq!(pieces.len(), expected);
    let mut total = 0usize;
    for (i, f) in pieces.iter().enumerate() {
        // each piece has its own reliable index, all share the ordered index
        assert_eq!(f.mindex, i as u32);
        assert_eq!(f.oindex, 0);
        let h = f.fragment.unwrap();
        assert_eq!(h.size, expected as u32);
        assert_eq!(h.index, i as u32);
        assert_eq!(h.id, 0);
        total += f.length as usize;
    }
    assert_eq!(total, 8192);
    // the next fragmented write takes the next group id and ordered index
    assert_eq!(s.fragment_id, 1);
    assert_eq!(s.oindex, 1);
    assert_eq!(s.mindex, expected as u32);
}

#[test]
fn unreliable_is_upgraded_when_fragmented() {
    let mut s = DatagramSender::new(1400);
    let payload = vec![1u8; 5000];
    s.send_ref(&payload, Reliability::Unreliable, 0);
    for g in &s.buffer {
        for p in &g.packets {
            assert_eq!(p.frame.reliability, Reliability::Reliable);
        }
    }
}

#[test]
fn nack_keeps_reliable_frames_and_reassigns_sequence() {
    let mut s = DatagramSender::new(1400);
    s.set_nodelay(true);
    // two small frames coalesce into one datagram group
    s.send(vec![1, 2, 3], Reliability::Unreliable, 0);
    let first = s.take_outgoing();
    assert_eq!(first.len(), 1);
    assert_eq!(first[0][1..4], [0, 0, 0]); // sequence 0
    s.send(vec![4, 5, 6], Reliability::Reliable, 0);
    let second = s.take_outgoing();
    assert_eq!(second.len(), 1);
    assert_eq!(second[0][1..4], [1, 0, 0]); // sequence 1

    // both datagrams are reported missing
    s.nack(0, 1, 10);
    s.refill(10);
    let resent = s.take_outgoing();
    // the unreliable frame is dropped: its group is retransmitted empty,
    // the reliable frame rides again under a new sequence
    assert_eq!(resent.len(), 2);
    assert_eq!(resent[0][1..4], [2, 0, 0]);
    assert_eq!(resent[1][1..4], [3, 0, 0]);
    assert_eq!(resent[0].len(), 4); // flag + sequence, no frames left
    assert!(resent[1].len() > 4); // the reliable frame is retransmitted
    assert_eq!(*resent[1].last().unwrap(), 6);
}

#[test]
fn tick_retransmits_reliable_frames_only() {
    let mut s = DatagramSender::new(1400);
    s.set_nodelay(true);
    s.send(vec![9, 9], Reliability::Reliable, 0);
    assert_eq!(s.take_outgoing().len(), 1);
    // well past the initial RTO of one second
    assert!(!s.tick(5000));
    s.refill(5000);
    let resent = s.take_outgoing();
    assert_eq!(resent.len(), 1);
    assert_eq!(resent[0][1..4], [1, 0, 0]);
    assert_eq!(s.buffer[0].resend_count, Some(1));
}

#[test]
fn tick_reports_loss_after_retransmission_limit() {
    let mut s = DatagramSender::new(1400);
    s.set_nodelay(true);
    s.send(vec![7], Reliability::Reliable, 0);
    let mut now = 0u64;
    let mut lost = false;
    for _ in 0..8 {
        now += 60000;
        if s.tick(now) {
            lost = true;
            break;
        }
        s.refill(now);
        s.take_outgoing();
    }
    assert!(lost);
}

#[test]
fn nodelay_off_still_sends_sole_message_with_nothing_in_flight() {
    let mut s = DatagramSender::new(1400);
    s.set_nodelay(false);
    assert!(!s.nodelay());
    // a single small message, nothing in flight: it goes out at once
    s.send(vec![0xfe, 1], Reliability::ReliableOrdered, 0);
    let out = s.take_outgoing();
    assert_eq!(out.len(), 1);
    assert_eq!(*out[0].last().unwrap(), 1);
}

#[test]
fn nodelay_off_holds_back_last_group_while_in_flight() {
    let mut s = DatagramSender::new(1400);
    s.set_nodelay(false);
    s.send(vec![1], Reliability::Reliable, 0);
    assert_eq!(s.take_outgoing().len(), 1);
    // the first group is in flight and unacknowledged: a fresh lone group waits
    s.send(vec![2], Reliability::Reliable, 0);
    assert_eq!(s.take_outgoing().len(), 0);
    // an acknowledgement frees the window and the refill releases it
    s.ack(0, 0, 5);
    s.refill(5);
    assert_eq!(s.take_outgoing().len(), 1);
}

#[test]
fn ack_removes_groups_and_samples_rtt() {
    let mut s = DatagramSender::new(1400);
    s.set_nodelay(true);
    s.send(vec![1], Reliability::Reliable, 0);
    s.send(vec![2], Reliability::Reliable, 0);
    assert_eq!(s.take_outgoing().len(), 2);
    assert_eq!(s.buffer.len(), 2);
    s.ack(0, 1, 250);
    assert_eq!(s.buffer.len(), 0);
    assert!(s.rto.has_sample);
    assert_eq!(s.rto.srtt_ms, 250);
}
