//! Receive-queue behavior: ACK/NACK range aggregation, in-order delivery,
//! and fragment reassembly.

use ucp::packets::{FragmentHeader, Frame, Reliability};
use ucp::receive::ReceiveQueue;

fn plain_frame(rel: Reliability, oindex: u32) -> Frame {
    Frame { reliability: rel, length: 0, mindex: 0, sindex: 0, oindex, fragment: None }
}

fn frag_frame(rel: Reliability, oindex: u32, size: u32, id: u16, index: u32) -> Frame {
    Frame {
        reliability: rel,
        length: 0,
        mindex: 0,
        sindex: 0,
        oindex,
        fragment: Some(FragmentHeader { size, id, index }),
    }
}

#[test]
fn ack_aggregation() {
    let mut q = ReceiveQueue::new();
    for s in [0u32, 1, 2, 3, 6, 7, 8, 9] {
        q.received(s);
    }
    assert_eq!(q.get_ack(), Some((0, 3)));
    assert_eq!(q.get_ack(), Some((6, 9)));
    assert_eq!(q.get_ack(), None);
    assert_eq!(q.get_nack(), Some((4, 5)));
    assert_eq!(q.get_nack(), None);
}

#[test]
fn duplicate_datagram_below_watermark_is_ignored() {
    let mut q = ReceiveQueue::new();
    q.received(0);
    assert_eq!(q.get_ack(), Some((0, 0)));
    q.received(0);
    assert_eq!(q.get_ack(), None);
}

#[test]
fn ordered_delivery() {
    let mut q = ReceiveQueue::new();
    for oindex in [0u32, 1, 4] {
        q.ordered(plain_frame(Reliability::ReliableOrdered, oindex), &vec![oindex as u8]);
    }
    assert_eq!(q.next_ordered(), Some(vec![0]));
    assert_eq!(q.next_ordered(), Some(vec![1]));
    assert_eq!(q.next_ordered(), None);
    for oindex in [2u32, 3] {
        q.ordered(plain_frame(Reliability::ReliableOrdered, oindex), &vec![oindex as u8]);
    }
    assert_eq!(q.next_ordered(), Some(vec![2]));
    assert_eq!(q.next_ordered(), Some(vec![3]));
    assert_eq!(q.next_ordered(), Some(vec![4]));
    assert_eq!(q.next_ordered(), None);
}

#[test]
fn fragment_reassembly_out_of_order() {
    let mut q = ReceiveQueue::new();
    let pieces: [&[u8]; 3] = [b"aa", b"bb", b"cc"];
    // deliver out of order: third, first, second
    assert_eq!(q.fragmented(frag_frame(Reliability::Reliable, 0, 3, 1, 2), &pieces[2].to_vec()), None);
    assert_eq!(q.fragmented(frag_frame(Reliability::Reliable, 0, 3, 1, 0), &pieces[0].to_vec()), None);
    let got = q.fragmented(frag_frame(Reliability::Reliable, 0, 3, 1, 1), &pieces[1].to_vec());
    assert_eq!(got, Some(b"aabbcc".to_vec()));
    // the reassembly happens exactly once; a late duplicate starts a new group
    assert_eq!(q.fragmented(frag_frame(Reliability::Reliable, 0, 3, 1, 1), &pieces[1].to_vec()), None);
}

#[test]
fn duplicate_pieces_are_idempotent() {
    let mut q = ReceiveQueue::new();
    assert_eq!(q.fragmented(frag_frame(Reliability::Reliable, 0, 2, 9, 0), &b"xx".to_vec()), None);
    assert_eq!(q.fragmented(frag_frame(Reliability::Reliable, 0, 2, 9, 0), &b"xx".to_vec()), None);
    assert_eq!(q.fragmented(frag_frame(Reliability::Reliable, 0, 2, 9, 0), &b"yy".to_vec()), None);
    let got = q.fragmented(frag_frame(Reliability::Reliable, 0, 2, 9, 1), &b"zz".to_vec());
    assert_eq!(got, Some(b"xxzz".to_vec()));
}

#[test]
fn fragmented_ordered_waits_for_predecessors() {
    let mut q = ReceiveQueue::new();
    // an ordered message with ordered index 1 arrives fragmented and complete
    assert_eq!(
        q.fragmented(frag_frame(Reliability::ReliableOrdered, 1, 2, 4, 0), &b"he".to_vec()),
        None
    );
    assert_eq!(
        q.fragmented(frag_frame(Reliability::ReliableOrdered, 1, 2, 4, 1), &b"yo".to_vec()),
        None
    );
    // not deliverable until index 0 arrives
    assert_eq!(q.next_ordered(), None);
    q.ordered(plain_frame(Reliability::ReliableOrdered, 0), &b"first".to_vec());
    assert_eq!(q.next_ordered(), Some(b"first".to_vec()));
    assert_eq!(q.next_ordered(), Some(b"heyo".to_vec()));
    assert_eq!(q.next_ordered(), None);
}

#[test]
fn single_piece_fragment_is_delivered() {
    let mut q = ReceiveQueue::new();
    let got = q.fragmented(frag_frame(Reliability::Reliable, 0, 1, 2, 0), &b"solo".to_vec());
    assert_eq!(got, Some(b"solo".to_vec()));
}

#[test]
fn piece_index_out_of_range_is_ignored() {
    let mut q = ReceiveQueue::new();
    assert_eq!(q.fragmented(frag_frame(Reliability::Reliable, 0, 2, 3, 5), &b"xx".to_vec()), None);
    assert_eq!(q.fragmented(frag_frame(Reliability::Reliable, 0, 2, 3, 0), &b"aa".to_vec()), None);
    let got = q.fragmented(frag_frame(Reliability::Reliable, 0, 2, 3, 1), &b"bb".to_vec());
    assert_eq!(got, Some(b"aabb".to_vec()));
}
