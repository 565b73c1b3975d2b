//! Connection state machine: one connected session.
//!
//! A connection routes inbound datagrams by their flag byte to the ACK,
//! NACK or frameset path, answers pings, raises application payloads and
//! lifecycle events, and drives the send queue on a periodic tick.  The
//! caller supplies the clock and moves bytes between the socket and the
//! connection's outbox.

use vstd::prelude::*;
use crate::codec::copy_range;
use crate::packets::{Frame, Reliability};
use crate::receive::ReceiveQueue;
use crate::send::{all_packets, bview, nacked_view, remove_acked, sendable_now, DatagramSender};
use crate::system_packets::{
    range_of, range_packet_decodes, Ack, Acknowledge, ConnectedPing, ConnectedPong,
    DisconnectionNotification, Nack, ACK_ID, CONNECTED_PING_ID, CONNECTED_PONG_ID,
    DISCONNECTION_NOTIFICATION_ID, NACK_ID,
};
use crate::Error;

verus! {

pub const DATAGRAM_FLAG: u8 = 0x80;

pub const ACK_FLAG: u8 = 0x40;

pub const NACK_FLAG: u8 = 0x20;

/// Milliseconds of silence before the next keep-alive ping.
pub const PING_INTERVAL_MS: u64 = 4500;

/// What a connection hands up to the application.
#[derive(Clone, PartialEq, Eq, Debug)]
pub enum ConnEvent {
    /// An in-order application payload.
    Packet(Vec<u8>),
    /// The peer closed the session.
    Disconnected,
    /// Retransmission was exhausted; the session is lost.
    Timeout,
}


/// The ACK (or NACK) packets that announce the given ranges, in order.
pub open spec fn range_wires(rs: Seq<(u32, u32)>, positive: bool) -> Seq<Seq<u8>> {
    rs.map_values(
        |p: (u32, u32)|
            if positive {
                (Ack {
                    ack: Acknowledge {
                        record_count: 1,
                        max_equals_min: p.0 == p.1,
                        sequences: p,
                    },
                }).wire()
            } else {
                (Nack {
                    nack: Acknowledge {
                        record_count: 1,
                        max_equals_min: p.0 == p.1,
                        sequences: p,
                    },
                }).wire()
            },
    )
}

/// One connected session.
pub struct Conn {
    pub receive: ReceiveQueue,
    pub send: DatagramSender,
    /// When the last keep-alive ping left.
    pub last_ping_ms: u64,
    /// Events waiting for the application, oldest first.
    pub events: Vec<ConnEvent>,
}

impl Conn {
    pub open spec fn wf(self) -> bool {
        self.receive.wf() && self.send.wf()
    }

    pub fn new(mtu: usize, now_ms: u64) -> (r: Conn)
        requires
            576 <= mtu <= 1400,
        ensures
            r.wf(),
            r.events@.len() == 0,
            r.send.outbox@.len() == 0,
            r.last_ping_ms == now_ms,
    {
        Conn {
            receive: ReceiveQueue::new(),
            send: DatagramSender::new(mtu),
            last_ping_ms: now_ms,
            events: Vec::new(),
        }
    }

    /// Datagrams built and not yet on the socket.
    pub fn take_outgoing(&mut self) -> (r: Vec<Vec<u8>>)
        ensures
            final(self).send.outbox@.len() == 0,
            crate::send::obview(r@) == crate::send::obview(old(self).send.outbox@),
            final(self).receive == old(self).receive,
            final(self).events@ == old(self).events@,
            final(self).last_ping_ms == old(self).last_ping_ms,
    {
        self.send.take_outgoing()
    }

    /// Events for the application, oldest first.
    pub fn take_events(&mut self) -> (r: Vec<ConnEvent>)
        ensures
            final(self).events@.len() == 0,
            r@ == old(self).events@,
            final(self).receive == old(self).receive,
            final(self).last_ping_ms == old(self).last_ping_ms,
    {
        let mut out: Vec<ConnEvent> = Vec::new();
        core::mem::swap(&mut out, &mut self.events);
        out
    }

    /// Send one application write of any size; large writes fragment as
    /// the send queue's own contract describes.
    pub fn send(&mut self, bytes: &Vec<u8>, reliability: Reliability, now_ms: u64)
        requires
            old(self).wf(),
            bytes@.len() <= 0x7fffffff,
        ensures
            final(self).wf(),
            final(self).receive == old(self).receive,
            final(self).events@ == old(self).events@,
            final(self).last_ping_ms == old(self).last_ping_ms,
            bytes@.len() + crate::packets::Frame::spec_size(reliability, false) <= old(self).send.max_payload_len ==> DatagramSender::send_post(
                old(self).send,
                final(self).send,
                bytes@,
                reliability,
                now_ms,
            ),
            bytes@.len() + crate::packets::Frame::spec_size(reliability, false) > old(self).send.max_payload_len ==> {
                let rel2 = crate::send::spec_upgraded(reliability);
                let ps = old(self).send.max_payload_len - crate::packets::Frame::spec_size(
                    rel2,
                    true,
                );
                all_packets(bview(final(self).send.buffer@)) == all_packets(
                    bview(old(self).send.buffer@),
                ) + crate::send::frag_pieces(
                    bytes@,
                    rel2,
                    old(self).send.mindex,
                    old(self).send.sindex,
                    old(self).send.oindex,
                    old(self).send.fragment_id,
                    ps,
                )
            },
    {
        self.send.send_ref(bytes, reliability, now_ms);
    }

    pub fn set_nodelay(&mut self, nodelay: bool)
        requires
            old(self).wf(),
        ensures
            final(self).wf(),
            final(self).send.nodelay == nodelay,
    {
        self.send.set_nodelay(nodelay);
    }

    pub fn nodelay(&self) -> (r: bool)
        ensures
            r == self.send.nodelay,
    {
        self.send.nodelay()
    }

    /// Route one inbound datagram by its flag byte: acknowledgement,
    /// negative acknowledgement, or frameset.  Unknown first bytes are
    /// ignored; malformed packets abort only this datagram.
    pub fn handle(&mut self, bytes: &Vec<u8>, now_ms: u64) -> (r: Result<(), Error>)
        requires
            old(self).wf(),
        ensures
            final(self).wf(),
            final(self).events@.len() >= old(self).events@.len(),
            final(self).events@.subrange(0, old(self).events@.len() as int) == old(self).events@,
            final(self).last_ping_ms == old(self).last_ping_ms,
            bytes@.len() == 0 ==> r == Err::<(), Error>(Error::InvalidData) && final(self).receive
                == old(self).receive && final(self).events@ == old(self).events@ && bview(
                final(self).send.buffer@,
            ) == bview(old(self).send.buffer@) && final(self).send.outbox@ == old(self).send.outbox@,
            bytes@.len() >= 1 && (bytes@[0] & ACK_FLAG) != 0 ==> {
                &&& final(self).receive == old(self).receive
                &&& final(self).events@ == old(self).events@
                &&& (r is Err <==> !range_packet_decodes(bytes@, ACK_ID))
                &&& (r is Err ==> bview(final(self).send.buffer@) == bview(
                    old(self).send.buffer@,
                ) && final(self).send.outbox@ == old(self).send.outbox@)
                &&& (r is Ok ==> all_packets(bview(final(self).send.buffer@)) == all_packets(
                    remove_acked(
                        bview(old(self).send.buffer@),
                        range_of(bytes@).0,
                        range_of(bytes@).1,
                    ),
                ) && sendable_now(
                    bview(final(self).send.buffer@),
                    final(self).send.cubic.cwnd,
                    final(self).send.nodelay,
                ) < 0)
            },
            bytes@.len() >= 1 && (bytes@[0] & ACK_FLAG) == 0 && (bytes@[0] & NACK_FLAG) != 0 ==> {
                &&& final(self).receive == old(self).receive
                &&& final(self).events@ == old(self).events@
                &&& (r is Err <==> !range_packet_decodes(bytes@, NACK_ID))
                &&& (r is Err ==> bview(final(self).send.buffer@) == bview(
                    old(self).send.buffer@,
                ) && final(self).send.outbox@ == old(self).send.outbox@)
                &&& (r is Ok ==> all_packets(bview(final(self).send.buffer@)) == all_packets(
                    nacked_view(
                        bview(old(self).send.buffer@),
                        range_of(bytes@).0,
                        range_of(bytes@).1,
                    ),
                ) && sendable_now(
                    bview(final(self).send.buffer@),
                    final(self).send.cubic.cwnd,
                    final(self).send.nodelay,
                ) < 0)
            },
            bytes@.len() >= 1 && (bytes@[0] & ACK_FLAG) == 0 && (bytes@[0] & NACK_FLAG) == 0 && (
            bytes@[0] & DATAGRAM_FLAG) != 0 ==> {
                &&& (bytes@.len() < 4 ==> r == Err::<(), Error>(Error::InvalidData) && final(self).receive.ack@ == old(self).receive.ack@ && final(self).receive.ack_next == old(self).receive.ack_next && final(self).receive.ack_missing@ == old(self).receive.ack_missing@ && final(self).send.outbox@ == old(self).send.outbox@)
                &&& (bytes@.len() >= 4 ==> {
                    let seq = crate::codec::le24_val(bytes@.subrange(1, 4));
                    &&& final(self).receive.ack_next == old(self).receive.ack_next
                    &&& final(self).receive.ack_missing@ == old(self).receive.ack_missing@
                    &&& (seq < old(self).receive.ack_next ==> final(self).receive.ack@ == old(self).receive.ack@)
                    &&& (seq >= old(self).receive.ack_next ==> forall|v: u32|
                        final(self).receive.ack@.contains(v) <==> (old(self).receive.ack@.contains(v) || v == seq))
                })
            },
            bytes@.len() >= 1 && (bytes@[0] & ACK_FLAG) == 0 && (bytes@[0] & NACK_FLAG) == 0 && (
            bytes@[0] & DATAGRAM_FLAG) == 0 ==> r is Ok && final(self).receive == old(self).receive && final(self).events@ == old(self).events@ && bview(
                final(self).send.buffer@,
            ) == bview(old(self).send.buffer@) && final(self).send.outbox@ == old(self).send.outbox@,
    {
        proof {
            assert(self.events@.subrange(0, self.events@.len() as int) =~= self.events@);
        }
        if bytes.len() == 0 {
            return Err(Error::InvalidData);
        }
        let id = bytes[0];
        if id & ACK_FLAG != 0 {
            self.handle_ack(bytes, now_ms)
        } else if id & NACK_FLAG != 0 {
            self.handle_nack(bytes, now_ms)
        } else if id & DATAGRAM_FLAG != 0 {
            self.handle_datagram(bytes, now_ms)
        } else {
            Ok(())
        }
    }

    /// Acknowledgement: the covered groups leave the send queue, the freed
    /// window is refilled.
    fn handle_ack(&mut self, bytes: &Vec<u8>, now_ms: u64) -> (r: Result<(), Error>)
        requires
            old(self).wf(),
        ensures
            final(self).wf(),
            final(self).events@ == old(self).events@,
            final(self).receive == old(self).receive,
            final(self).last_ping_ms == old(self).last_ping_ms,
            r is Err <==> !range_packet_decodes(bytes@, ACK_ID),
            r is Err ==> bview(final(self).send.buffer@) == bview(old(self).send.buffer@)
                && final(self).send.outbox@ == old(self).send.outbox@,
            r is Ok ==> {
                let lo = range_of(bytes@).0;
                let hi = range_of(bytes@).1;
                &&& all_packets(bview(final(self).send.buffer@)) == all_packets(
                    remove_acked(bview(old(self).send.buffer@), lo, hi),
                )
                &&& sendable_now(
                    bview(final(self).send.buffer@),
                    final(self).send.cubic.cwnd,
                    final(self).send.nodelay,
                ) < 0
            },
    {
        let ack = match Ack::decode(bytes) {
            Ok(a) => a,
            Err(e) => {
                return Err(e);
            },
        };
        self.send.ack(ack.ack.sequences.0, ack.ack.sequences.1, now_ms);
        self.send.refill(now_ms);
        Ok(())
    }

    /// Negative acknowledgement: the covered groups drop their unreliable
    /// frames and are queued for retransmission.
    fn handle_nack(&mut self, bytes: &Vec<u8>, now_ms: u64) -> (r: Result<(), Error>)
        requires
            old(self).wf(),
        ensures
            final(self).wf(),
            final(self).events@ == old(self).events@,
            final(self).receive == old(self).receive,
            final(self).last_ping_ms == old(self).last_ping_ms,
            r is Err <==> !range_packet_decodes(bytes@, NACK_ID),
            r is Err ==> bview(final(self).send.buffer@) == bview(old(self).send.buffer@)
                && final(self).send.outbox@ == old(self).send.outbox@,
            r is Ok ==> {
                let lo = range_of(bytes@).0;
                let hi = range_of(bytes@).1;
                &&& all_packets(bview(final(self).send.buffer@)) == all_packets(
                    nacked_view(bview(old(self).send.buffer@), lo, hi),
                )
                &&& sendable_now(
                    bview(final(self).send.buffer@),
                    final(self).send.cubic.cwnd,
                    final(self).send.nodelay,
                ) < 0
            },
    {
        let nack = match Nack::decode(bytes) {
            Ok(a) => a,
            Err(e) => {
                return Err(e);
            },
        };
        self.send.nack(nack.nack.sequences.0, nack.nack.sequences.1, now_ms);
        self.send.refill(now_ms);
        Ok(())
    }

    /// Frameset: record the datagram sequence for acknowledgement, then
    /// demultiplex each carried frame.  A malformed frame drops the rest of
    /// the frameset.
    fn handle_datagram(&mut self, bytes: &Vec<u8>, now_ms: u64) -> (r: Result<(), Error>)
        requires
            old(self).wf(),
            bytes@.len() >= 1,
        ensures
            final(self).wf(),
            final(self).events@.len() >= old(self).events@.len(),
            final(self).events@.subrange(0, old(self).events@.len() as int) == old(self).events@,
            final(self).last_ping_ms == old(self).last_ping_ms,
            bytes@.len() < 4 ==> r == Err::<(), Error>(Error::InvalidData) && final(self).receive.ack@ == old(self).receive.ack@ && final(self).receive.ack_next == old(self).receive.ack_next && final(self).receive.ack_missing@ == old(self).receive.ack_missing@ && final(self).send.outbox@ == old(self).send.outbox@,
            bytes@.len() >= 4 ==> {
                let seq = crate::codec::le24_val(bytes@.subrange(1, 4));
                &&& final(self).receive.ack_next == old(self).receive.ack_next
                &&& final(self).receive.ack_missing@ == old(self).receive.ack_missing@
                &&& (seq < old(self).receive.ack_next ==> final(self).receive.ack@ == old(self).receive.ack@)
                &&& (seq >= old(self).receive.ack_next ==> forall|v: u32|
                    final(self).receive.ack@.contains(v) <==> (old(self).receive.ack@.contains(v)
                        || v == seq))
            },
    {
        proof {
            assert(self.events@.subrange(0, self.events@.len() as int) =~= self.events@);
        }
        let (seq, mut pos) = match crate::codec::U24::get(bytes, 1) {
            Some(x) => x,
            None => {
                return Err(Error::InvalidData);
            },
        };
        self.receive.received(seq);
        let ghost after_seq = self.receive;
        #[verifier::loop_isolation(false)]
        while pos < bytes.len()
            invariant
                self.wf(),
                self.events@.len() >= old(self).events@.len(),
                self.events@.subrange(0, old(self).events@.len() as int) == old(self).events@,
                pos <= bytes@.len(),
                self.receive.ack@ == after_seq.ack@,
                self.receive.ack_next == after_seq.ack_next,
                self.receive.ack_missing@ == after_seq.ack_missing@,
                self.last_ping_ms == old(self).last_ping_ms,
            decreases bytes@.len() - pos,
        {
            let (frame, p2) = match Frame::decode(bytes, pos) {
                Ok(x) => x,
                Err(e) => {
                    return Err(e);
                },
            };
            if bytes.len() - p2 < frame.length as usize {
                return Err(Error::InvalidData);
            }
            let data = copy_range(bytes, p2, p2 + frame.length as usize);
            let next = p2 + frame.length as usize;
            self.handle_packet(frame, data, now_ms);
            pos = next;
        }
        Ok(())
    }

    /// Demultiplex one frame by reliability: fragments are reassembled,
    /// unordered payloads are delivered at once, ordered payloads wait for
    /// their predecessors.
    fn handle_packet(&mut self, frame: Frame, data: Vec<u8>, now_ms: u64)
        requires
            old(self).wf(),
            frame.wf(),
        ensures
            final(self).wf(),
            final(self).events@.len() >= old(self).events@.len(),
            final(self).events@.subrange(0, old(self).events@.len() as int) == old(self).events@,
            final(self).receive.ack@ == old(self).receive.ack@,
            final(self).receive.ack_next == old(self).receive.ack_next,
            final(self).receive.ack_missing@ == old(self).receive.ack_missing@,
            final(self).last_ping_ms == old(self).last_ping_ms,
    {
        proof {
            assert(self.events@.subrange(0, self.events@.len() as int) =~= self.events@);
        }
        if frame.fragment.is_some() {
            match self.receive.fragmented(frame, &data) {
                Some(v) => {
                    self.handle_incoming(v, now_ms);
                },
                None => {},
            }
        } else if !frame.reliability.sequenced() && !frame.reliability.ordered() {
            self.handle_incoming(data, now_ms);
        } else {
            self.receive.ordered(frame, &data);
        }
        // deliver everything now in order, fragments included
        loop
            invariant
                self.wf(),
                self.events@.len() >= old(self).events@.len(),
                self.events@.subrange(0, old(self).events@.len() as int) == old(self).events@,
                self.receive.ack@ == old(self).receive.ack@,
                self.receive.ack_next == old(self).receive.ack_next,
                self.receive.ack_missing@ == old(self).receive.ack_missing@,
                self.last_ping_ms == old(self).last_ping_ms,
            ensures
                self.wf(),
                self.events@.len() >= old(self).events@.len(),
                self.events@.subrange(0, old(self).events@.len() as int) == old(self).events@,
                self.receive.ack@ == old(self).receive.ack@,
                self.receive.ack_next == old(self).receive.ack_next,
                self.receive.ack_missing@ == old(self).receive.ack_missing@,
                self.last_ping_ms == old(self).last_ping_ms,
            decreases self.receive.ordered@.len(),
        {
            let ghost before = self.receive.ordered@.len();
            match self.receive.next_ordered() {
                Some(v) => {
                    self.handle_incoming(v, now_ms);
                    proof {
                        assert(self.receive.ordered@.len() < before);
                    }
                },
                None => {
                    break ;
                },
            }
        }
    }

    /// Interpret one delivered payload: answer pings, raise a disconnect,
    /// pass anything else to the application.
    pub fn handle_incoming(&mut self, bytes: Vec<u8>, now_ms: u64)
        requires
            old(self).wf(),
        ensures
            final(self).wf(),
            final(self).receive == old(self).receive,
            final(self).last_ping_ms == old(self).last_ping_ms,
            final(self).events@.len() >= old(self).events@.len(),
            final(self).events@.subrange(0, old(self).events@.len() as int) == old(self).events@,
            bytes@.len() >= 1 && bytes@[0] == DISCONNECTION_NOTIFICATION_ID ==> final(self).events@ == old(self).events@.push(ConnEvent::Disconnected)
                && DatagramSender::send_post(
                old(self).send,
                final(self).send,
                (DisconnectionNotification {  }).wire(),
                Reliability::ReliableOrdered,
                now_ms,
            ),
            bytes@.len() >= 1 && !(bytes@[0] == CONNECTED_PING_ID || bytes@[0]
                == CONNECTED_PONG_ID || bytes@[0] == DISCONNECTION_NOTIFICATION_ID) ==> final(self).events@ == old(self).events@.push(ConnEvent::Packet(bytes)) && bview(
                final(self).send.buffer@,
            ) == bview(old(self).send.buffer@) && final(self).send.outbox@ == old(self).send.outbox@,
            bytes@.len() >= 1 && (bytes@[0] == CONNECTED_PING_ID || bytes@[0]
                == CONNECTED_PONG_ID) ==> final(self).events@ == old(self).events@,
            bytes@.len() >= 9 && bytes@[0] == CONNECTED_PING_ID ==> DatagramSender::send_post(
                old(self).send,
                final(self).send,
                (ConnectedPong {
                    client_timestamp: crate::codec::be64_val(bytes@.subrange(1, 9)),
                    server_timestamp: now_ms,
                }).wire(),
                Reliability::Reliable,
                now_ms,
            ),
            bytes@.len() >= 1 && (bytes@[0] == CONNECTED_PONG_ID || (bytes@[0]
                == CONNECTED_PING_ID && bytes@.len() < 9)) ==> bview(final(self).send.buffer@)
                == bview(old(self).send.buffer@) && final(self).send.outbox@ == old(self).send.outbox@,
    {
        proof {
            assert(self.events@.subrange(0, self.events@.len() as int) =~= self.events@);
        }
        if bytes.len() == 0 {
            return ;
        }
        let id = bytes[0];
        if id == CONNECTED_PING_ID {
            match ConnectedPing::decode(&bytes) {
                Ok(ping) => {
                    let pong = ConnectedPong {
                        client_timestamp: ping.client_timestamp,
                        server_timestamp: now_ms,
                    };
                    let mut out: Vec<u8> = Vec::new();
                    pong.encode(&mut out);
                    self.send.send(out, Reliability::Reliable, now_ms);
                },
                Err(_) => {},
            }
        } else if id == CONNECTED_PONG_ID {
            // nothing to do
        } else if id == DISCONNECTION_NOTIFICATION_ID {
            // answer in kind, then tell the application
            let mut out: Vec<u8> = Vec::new();
            let note = DisconnectionNotification {  };
            note.encode(&mut out);
            self.send.send(out, Reliability::ReliableOrdered, now_ms);
            self.events.push(ConnEvent::Disconnected);
        } else {
            self.events.push(ConnEvent::Packet(bytes));
        }
    }

    /// Build one ACK range datagram, bypassing the send queue.
    fn send_ack(&mut self, lo: u32, hi: u32)
        requires
            old(self).wf(),
            lo < 0x1000000,
            hi < 0x1000000,
        ensures
            final(self).wf(),
            final(self).receive == old(self).receive,
            final(self).events@ == old(self).events@,
            final(self).last_ping_ms == old(self).last_ping_ms,
            bview(final(self).send.buffer@) == bview(old(self).send.buffer@),
            final(self).send.cubic == old(self).send.cubic,
            final(self).send.rto == old(self).send.rto,
            final(self).send.mindex == old(self).send.mindex,
            final(self).send.nodelay == old(self).send.nodelay,
            crate::send::obview(final(self).send.outbox@) == crate::send::obview(
                old(self).send.outbox@,
            ).push(
                (Ack {
                    ack: Acknowledge {
                        record_count: 1,
                        max_equals_min: lo == hi,
                        sequences: (lo, hi),
                    },
                }).wire(),
            ),
    {
        let ack = Ack {
            ack: Acknowledge { record_count: 1, max_equals_min: lo == hi, sequences: (lo, hi) },
        };
        let mut out: Vec<u8> = Vec::new();
        ack.encode(&mut out);
        self.send.outbox.push(out);
        proof {
            assert(crate::send::obview(self.send.outbox@) =~= crate::send::obview(
                old(self).send.outbox@,
            ).push(ack.wire()));
        }
    }

    /// Build one NACK range datagram, bypassing the send queue.
    fn send_nack(&mut self, lo: u32, hi: u32)
        requires
            old(self).wf(),
            lo < 0x1000000,
            hi < 0x1000000,
        ensures
            final(self).wf(),
            final(self).receive == old(self).receive,
            final(self).events@ == old(self).events@,
            final(self).last_ping_ms == old(self).last_ping_ms,
            bview(final(self).send.buffer@) == bview(old(self).send.buffer@),
            final(self).send.cubic == old(self).send.cubic,
            final(self).send.rto == old(self).send.rto,
            final(self).send.mindex == old(self).send.mindex,
            final(self).send.nodelay == old(self).send.nodelay,
            crate::send::obview(final(self).send.outbox@) == crate::send::obview(
                old(self).send.outbox@,
            ).push(
                (Nack {
                    nack: Acknowledge {
                        record_count: 1,
                        max_equals_min: lo == hi,
                        sequences: (lo, hi),
                    },
                }).wire(),
            ),
    {
        let nack = Nack {
            nack: Acknowledge { record_count: 1, max_equals_min: lo == hi, sequences: (lo, hi) },
        };
        let mut out: Vec<u8> = Vec::new();
        nack.encode(&mut out);
        self.send.outbox.push(out);
        proof {
            assert(crate::send::obview(self.send.outbox@) =~= crate::send::obview(
                old(self).send.outbox@,
            ).push(nack.wire()));
        }
    }

    /// Periodic drive: flush every pending ACK range and then every NACK
    /// range as one datagram each, run the retransmission timer (raising
    /// `Timeout` exactly when a group is spent), refill the window, and
    /// ping the peer after enough silence.
    pub fn update(&mut self, now_ms: u64)
        requires
            old(self).wf(),
        ensures
            final(self).wf(),
            final(self).events@.len() >= old(self).events@.len(),
            final(self).events@.subrange(0, old(self).events@.len() as int) == old(self).events@,
            final(self).receive.ack@.len() == 0,
            final(self).receive.ack_missing@.len() == 0,
            final(self).receive.ordered@ == old(self).receive.ordered@,
            final(self).receive.ordered_next == old(self).receive.ordered_next,
            final(self).receive.fragment@ == old(self).receive.fragment@,
            // one ACK packet per pending run, then one NACK packet per
            // missing run (the gaps the ACK drain uncovers included)
            ({
                let acks = range_wires(crate::receive::runs(old(self).receive.ack@), true);
                let nacks = range_wires(
                    crate::receive::runs(
                        old(self).receive.ack_missing@ + crate::receive::ack_gaps(
                            old(self).receive.ack@,
                            old(self).receive.ack_next as int,
                        ),
                    ),
                    false,
                );
                &&& crate::send::obview(final(self).send.outbox@).take(
                    (old(self).send.outbox@.len() + acks.len() + nacks.len()) as int,
                ) == crate::send::obview(old(self).send.outbox@) + acks + nacks
                &&& final(self).send.outbox@.len() >= old(self).send.outbox@.len() + acks.len()
                    + nacks.len()
            }),
            // the retransmission timer reports a lost peer exactly when an
            // expired group has already been retransmitted four times
            ({
                let lost = exists|i: int|
                    0 <= i < bview(old(self).send.buffer@).len() && crate::send::timed_out(
                        #[trigger] bview(old(self).send.buffer@)[i],
                        now_ms,
                        old(self).send.rto.rto_ms,
                    ) && (bview(old(self).send.buffer@)[i].2 matches Some(k) && k >= 4);
                final(self).events@ == (if lost {
                    old(self).events@.push(ConnEvent::Timeout)
                } else {
                    old(self).events@
                })
            }),
            // keep-alive cadence
            final(self).last_ping_ms == (if crate::cubic::sat_sub(
                now_ms as int,
                old(self).last_ping_ms as int,
            ) > PING_INTERVAL_MS {
                now_ms
            } else {
                old(self).last_ping_ms
            }),
            ({
                let lost = exists|i: int|
                    0 <= i < bview(old(self).send.buffer@).len() && crate::send::timed_out(
                        #[trigger] bview(old(self).send.buffer@)[i],
                        now_ms,
                        old(self).send.rto.rto_ms,
                    ) && (bview(old(self).send.buffer@)[i].2 matches Some(k) && k >= 4);
                let silent = crate::cubic::sat_sub(now_ms as int, old(self).last_ping_ms as int)
                    > PING_INTERVAL_MS;
                let ticked = crate::send::tick_view(
                    bview(old(self).send.buffer@),
                    now_ms,
                    old(self).send.rto.rto_ms,
                );
                &&& (!lost && silent) ==> all_packets(bview(final(self).send.buffer@))
                    == all_packets(ticked).push(
                    (
                        Frame {
                            reliability: Reliability::Reliable,
                            length: 9,
                            mindex: old(self).send.mindex,
                            sindex: 0,
                            oindex: 0,
                            fragment: None,
                        },
                        (ConnectedPing { client_timestamp: now_ms }).wire(),
                    ),
                )
                &&& (!lost && !silent) ==> all_packets(bview(final(self).send.buffer@))
                    == all_packets(ticked)
            }),
    {
        proof {
            assert(self.events@.subrange(0, self.events@.len() as int) =~= self.events@);
        }
        let ghost ack0 = self.receive.ack@;
        let ghost next0 = self.receive.ack_next as int;
        let ghost miss0 = self.receive.ack_missing@;
        let ghost ob0 = crate::send::obview(self.send.outbox@);
        // flush ACK ranges
        loop
            invariant
                self.wf(),
                self.events@ == old(self).events@,
                self.receive.ordered@ == old(self).receive.ordered@,
                self.receive.ordered_next == old(self).receive.ordered_next,
                self.receive.fragment@ == old(self).receive.fragment@,
                bview(self.send.buffer@) == bview(old(self).send.buffer@),
                self.send.cubic == old(self).send.cubic,
                self.send.rto == old(self).send.rto,
                self.send.mindex == old(self).send.mindex,
                self.send.nodelay == old(self).send.nodelay,
                self.last_ping_ms == old(self).last_ping_ms,
                ack0 == old(self).receive.ack@,
                next0 == old(self).receive.ack_next as int,
                miss0 == old(self).receive.ack_missing@,
                ob0 == crate::send::obview(old(self).send.outbox@),
                crate::send::obview(self.send.outbox@) + range_wires(
                    crate::receive::runs(self.receive.ack@),
                    true,
                ) == ob0 + range_wires(crate::receive::runs(ack0), true),
                self.receive.ack_missing@ + crate::receive::ack_gaps(
                    self.receive.ack@,
                    self.receive.ack_next as int,
                ) == miss0 + crate::receive::ack_gaps(ack0, next0),
            ensures
                self.wf(),
                self.events@ == old(self).events@,
                self.receive.ack@.len() == 0,
                self.receive.ordered@ == old(self).receive.ordered@,
                self.receive.ordered_next == old(self).receive.ordered_next,
                self.receive.fragment@ == old(self).receive.fragment@,
                bview(self.send.buffer@) == bview(old(self).send.buffer@),
                self.send.cubic == old(self).send.cubic,
                self.send.rto == old(self).send.rto,
                self.send.mindex == old(self).send.mindex,
                self.send.nodelay == old(self).send.nodelay,
                self.last_ping_ms == old(self).last_ping_ms,
                crate::send::obview(self.send.outbox@) == ob0 + range_wires(
                    crate::receive::runs(ack0),
                    true,
                ),
                self.receive.ack_missing@ == miss0 + crate::receive::ack_gaps(ack0, next0),
            decreases self.receive.ack@.len(),
        {
            let ghost before = self.receive.ack@.len();
            let ghost pre_ack = self.receive.ack@;
            let ghost pre_next = self.receive.ack_next as int;
            let ghost pre_miss = self.receive.ack_missing@;
            let ghost pre_ob = crate::send::obview(self.send.outbox@);
            match self.receive.get_ack() {
                Some((lo, hi)) => {
                    proof {
                        crate::receive::lemma_run_len(pre_ack);
                        let k = crate::receive::run_len(pre_ack);
                        assert(pre_ack[k - 1] == pre_ack[0] + (k - 1));
                        assert(pre_ack[k - 1] < 0x1000000);
                        assert(self.receive.ack@.len() < before);
                    }
                    self.send_ack(lo, hi);
                    proof {
                        let k = crate::receive::run_len(pre_ack);
                        let pair = (pre_ack[0], (pre_ack[0] + k - 1) as u32);
                        let w = (Ack {
                            ack: Acknowledge {
                                record_count: 1,
                                max_equals_min: lo == hi,
                                sequences: (lo, hi),
                            },
                        }).wire();
                        assert(crate::receive::runs(pre_ack) == seq![pair] + crate::receive::runs(
                            pre_ack.skip(k),
                        ));
                        assert(range_wires(crate::receive::runs(pre_ack), true) =~= seq![w]
                            + range_wires(crate::receive::runs(pre_ack.skip(k)), true));
                        assert(crate::send::obview(self.send.outbox@) + range_wires(
                            crate::receive::runs(self.receive.ack@),
                            true,
                        ) =~= pre_ob + range_wires(crate::receive::runs(pre_ack), true));
                        assert(crate::receive::ack_gaps(pre_ack, pre_next)
                            == crate::receive::range_seq(pre_next, pre_ack[0] as int)
                            + crate::receive::ack_gaps(pre_ack.skip(k), pre_ack[0] + k));
                        assert(self.receive.ack_missing@ + crate::receive::ack_gaps(
                            self.receive.ack@,
                            self.receive.ack_next as int,
                        ) =~= pre_miss + crate::receive::ack_gaps(pre_ack, pre_next));
                    }
                },
                None => {
                    proof {
                        assert(crate::send::obview(self.send.outbox@) + range_wires(
                            crate::receive::runs(self.receive.ack@),
                            true,
                        ) =~= crate::send::obview(self.send.outbox@));
                        assert(self.receive.ack_missing@ + crate::receive::ack_gaps(
                            self.receive.ack@,
                            self.receive.ack_next as int,
                        ) =~= self.receive.ack_missing@);
                    }
                    break ;
                },
            }
        }
        let ghost miss1 = self.receive.ack_missing@;
        let ghost ob1 = crate::send::obview(self.send.outbox@);
        // flush NACK ranges
        loop
            invariant
                self.wf(),
                self.events@ == old(self).events@,
                self.receive.ack@.len() == 0,
                self.receive.ordered@ == old(self).receive.ordered@,
                self.receive.ordered_next == old(self).receive.ordered_next,
                self.receive.fragment@ == old(self).receive.fragment@,
                bview(self.send.buffer@) == bview(old(self).send.buffer@),
                self.send.cubic == old(self).send.cubic,
                self.send.rto == old(self).send.rto,
                self.send.mindex == old(self).send.mindex,
                self.send.nodelay == old(self).send.nodelay,
                self.last_ping_ms == old(self).last_ping_ms,
                crate::send::obview(self.send.outbox@) + range_wires(
                    crate::receive::runs(self.receive.ack_missing@),
                    false,
                ) == ob1 + range_wires(crate::receive::runs(miss1), false),
            ensures
                self.wf(),
                self.events@ == old(self).events@,
                self.receive.ack@.len() == 0,
                self.receive.ack_missing@.len() == 0,
                self.receive.ordered@ == old(self).receive.ordered@,
                self.receive.ordered_next == old(self).receive.ordered_next,
                self.receive.fragment@ == old(self).receive.fragment@,
                bview(self.send.buffer@) == bview(old(self).send.buffer@),
                self.send.cubic == old(self).send.cubic,
                self.send.rto == old(self).send.rto,
                self.send.mindex == old(self).send.mindex,
                self.send.nodelay == old(self).send.nodelay,
                self.last_ping_ms == old(self).last_ping_ms,
                crate::send::obview(self.send.outbox@) == ob1 + range_wires(
                    crate::receive::runs(miss1),
                    false,
                ),
            decreases self.receive.ack_missing@.len(),
        {
            let ghost before = self.receive.ack_missing@.len();
            let ghost pre_miss = self.receive.ack_missing@;
            let ghost pre_ob = crate::send::obview(self.send.outbox@);
            match self.receive.get_nack() {
                Some((lo, hi)) => {
                    proof {
                        crate::receive::lemma_run_len(pre_miss);
                        let k = crate::receive::run_len(pre_miss);
                        assert(pre_miss[k - 1] == pre_miss[0] + (k - 1));
                        assert(pre_miss[k - 1] < 0x1000000);
                        assert(self.receive.ack_missing@.len() < before);
                    }
                    self.send_nack(lo, hi);
                    proof {
                        let k = crate::receive::run_len(pre_miss);
                        let pair = (pre_miss[0], (pre_miss[0] + k - 1) as u32);
                        let w = (Nack {
                            nack: Acknowledge {
                                record_count: 1,
                                max_equals_min: lo == hi,
                                sequences: (lo, hi),
                            },
                        }).wire();
                        assert(crate::receive::runs(pre_miss) == seq![pair]
                            + crate::receive::runs(pre_miss.skip(k)));
                        assert(range_wires(crate::receive::runs(pre_miss), false) =~= seq![w]
                            + range_wires(crate::receive::runs(pre_miss.skip(k)), false));
                        assert(crate::send::obview(self.send.outbox@) + range_wires(
                            crate::receive::runs(self.receive.ack_missing@),
                            false,
                        ) =~= pre_ob + range_wires(crate::receive::runs(pre_miss), false));
                    }
                },
                None => {
                    proof {
                        assert(crate::send::obview(self.send.outbox@) + range_wires(
                            crate::receive::runs(self.receive.ack_missing@),
                            false,
                        ) =~= crate::send::obview(self.send.outbox@));
                    }
                    break ;
                },
            }
        }
        let ghost flushed = crate::send::obview(self.send.outbox@);
        proof {
            assert(flushed =~= crate::send::obview(old(self).send.outbox@) + range_wires(
                crate::receive::runs(old(self).receive.ack@),
                true,
            ) + range_wires(
                crate::receive::runs(
                    old(self).receive.ack_missing@ + crate::receive::ack_gaps(
                        old(self).receive.ack@,
                        old(self).receive.ack_next as int,
                    ),
                ),
                false,
            ));
        }
        // retransmission timer
        if self.send.tick(now_ms) {
            self.events.push(ConnEvent::Timeout);
        } else {
            self.send.refill(now_ms);
            proof {
                assert(crate::send::obview(self.send.outbox@).take(flushed.len() as int)
                    =~= flushed);
            }
        }
        // keep-alive cadence
        let silent: u64 = if now_ms >= self.last_ping_ms {
            now_ms - self.last_ping_ms
        } else {
            0
        };
        if silent > PING_INTERVAL_MS {
            let ping = ConnectedPing { client_timestamp: now_ms };
            let mut out: Vec<u8> = Vec::new();
            ping.encode(&mut out);
            let ghost pre_send = self.send;
            self.send.send(out, Reliability::Reliable, now_ms);
            self.last_ping_ms = now_ms;
            proof {
                let item = (
                    Frame {
                        reliability: Reliability::Reliable,
                        length: 9,
                        mindex: pre_send.mindex,
                        sindex: 0,
                        oindex: 0,
                        fragment: None,
                    },
                    ping.wire(),
                );
                let bv2 = crate::send::spec_push(
                    bview(pre_send.buffer@),
                    item,
                    pre_send.max_payload_len as int,
                );
                crate::send::lemma_all_packets_push(
                    bview(pre_send.buffer@),
                    item,
                    pre_send.max_payload_len as int,
                );
                let j = crate::send::sendable_now(bv2, pre_send.cubic.cwnd, pre_send.nodelay);
                if j >= 0 {
                    crate::send::lemma_first_sendable(bv2);
                    crate::send::lemma_all_packets_update(
                        bv2,
                        j,
                        (
                            bv2[j].0,
                            Some(crate::send::SentConf { sequence: pre_send.sequence, time_ms: now_ms }),
                            bv2[j].2,
                        ),
                    );
                }
                assert(crate::send::obview(self.send.outbox@).take(flushed.len() as int)
                    =~= flushed);
            }
        }
        proof {
            assert(crate::send::obview(self.send.outbox@).len() == self.send.outbox@.len());
            assert(self.send.outbox@.len() >= flushed.len());
        }
    }
}

} // verus!
