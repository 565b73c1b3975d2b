//! Send queue and pacer: frame assembly, fragmentation, batching into
//! datagrams, retransmission and congestion feedback.
//!
//! The sender is a pure state machine: outgoing datagrams are appended to
//! `outbox`, which the caller drains and puts on the socket.  All times are
//! caller-supplied milliseconds.

use vstd::prelude::*;
use crate::codec::{le24, put_u8, copy_bytes, U24};
use crate::cubic::Cubic;
use crate::packets::{FragmentHeader, Frame, Reliability};

verus! {

/// UDP header allowance subtracted from the MTU.
pub const UDP_HEADER: usize = 32;

pub const DATAGRAM_FLAG: u8 = 0x80;

/// Flag set on every transmitted data datagram.
pub const NEEDS_B_AND_AS_FLAG: u8 = 0x4;

pub const MAX_RTO_MS: u64 = 10000;

pub const MIN_RTO_MS: u64 = 1000;

// ---------------------------------------------------------------------------
// Round-trip estimator (RFC 6298 with alpha = 1/8, beta = 1/4, K = 4).
// ---------------------------------------------------------------------------

/// `rto` clamped into `[MIN_RTO_MS, MAX_RTO_MS]`.
pub open spec fn spec_clamp_rto(v: int) -> int {
    if v < MIN_RTO_MS {
        MIN_RTO_MS as int
    } else if v > MAX_RTO_MS {
        MAX_RTO_MS as int
    } else {
        v
    }
}

/// Retransmission-timeout estimator state, in milliseconds.
pub struct Rto {
    pub rto_ms: u64,
    pub srtt_ms: u64,
    pub rttvar_ms: u64,
    pub has_sample: bool,
}

impl Rto {
    pub open spec fn wf(self) -> bool {
        MIN_RTO_MS <= self.rto_ms <= MAX_RTO_MS
    }

    pub fn new() -> (r: Rto)
        ensures
            r.wf(),
            r.rto_ms == 1000,
            !r.has_sample,
    {
        Rto { rto_ms: 1000, srtt_ms: 0, rttvar_ms: 0, has_sample: false }
    }

    /// Fold one round-trip sample into the estimator.  The first sample
    /// seeds `srtt = rtt`, `rttvar = rtt/2`; later samples use the
    /// exponential averages `rttvar' = (3 rttvar + |srtt - rtt|)/4` and
    /// `srtt' = (7 srtt + rtt)/8`.  Always `rto = srtt + 4 rttvar`,
    /// clamped into `[1s, 10s]`.
    /// Relation between the states before and after `compute`.
    pub open spec fn compute_post(pre: Rto, post: Rto, rtt_ms: u64) -> bool {
        &&& post.wf()
        &&& post.has_sample
        &&& !pre.has_sample ==> post.srtt_ms == rtt_ms && post.rttvar_ms == rtt_ms / 2
            && post.rto_ms == spec_clamp_rto(rtt_ms + 4 * (rtt_ms / 2))
        &&& pre.has_sample ==> {
            let var2 = (3 * pre.rttvar_ms + (if pre.srtt_ms >= rtt_ms {
                pre.srtt_ms - rtt_ms
            } else {
                rtt_ms - pre.srtt_ms
            })) / 4;
            let srtt2 = (7 * pre.srtt_ms + rtt_ms) / 8;
            &&& post.rttvar_ms == var2
            &&& post.srtt_ms == srtt2
            &&& post.rto_ms == spec_clamp_rto(srtt2 + 4 * var2)
        }
    }

    pub fn compute(&mut self, rtt_ms: u64)
        ensures
            final(self).wf(),
            Rto::compute_post(*old(self), *final(self), rtt_ms),
            MIN_RTO_MS <= final(self).rto_ms <= MAX_RTO_MS,
    {
        if self.has_sample {
            let diff: u64 = if self.srtt_ms >= rtt_ms {
                self.srtt_ms - rtt_ms
            } else {
                rtt_ms - self.srtt_ms
            };
            let var_wide: u128 = (3 * (self.rttvar_ms as u128) + (diff as u128)) / 4;
            let srtt_wide: u128 = (7 * (self.srtt_ms as u128) + (rtt_ms as u128)) / 8;
            proof {
                assert(var_wide <= u64::MAX && srtt_wide <= u64::MAX);
            }
            let var2: u64 = var_wide as u64;
            let srtt2: u64 = srtt_wide as u64;
            let sum: u128 = (srtt2 as u128) + 4 * (var2 as u128);
            self.rto_ms = if sum < MIN_RTO_MS as u128 {
                MIN_RTO_MS
            } else if sum > MAX_RTO_MS as u128 {
                MAX_RTO_MS
            } else {
                sum as u64
            };
            self.srtt_ms = srtt2;
            self.rttvar_ms = var2;
        } else {
            self.srtt_ms = rtt_ms;
            self.rttvar_ms = rtt_ms / 2;
            let sum: u128 = (rtt_ms as u128) + 4 * ((rtt_ms / 2) as u128);
            self.rto_ms = if sum < MIN_RTO_MS as u128 {
                MIN_RTO_MS
            } else if sum > MAX_RTO_MS as u128 {
                MAX_RTO_MS
            } else {
                sum as u64
            };
            self.has_sample = true;
        }
    }
}

// ---------------------------------------------------------------------------
// Outgoing packets and groups.
// ---------------------------------------------------------------------------

/// One frame together with its payload bytes.
pub struct OutPacket {
    pub frame: Frame,
    pub data: Vec<u8>,
}

impl OutPacket {
    pub open spec fn wf(self) -> bool {
        self.frame.wf() && self.frame.length == self.data@.len()
    }

    /// Encoded size: header plus payload.
    pub open spec fn spec_length(self) -> int {
        self.frame.length + Frame::spec_size(self.frame.reliability, self.frame.fragment is Some)
    }

    pub fn length(&self) -> (r: usize)
        requires
            self.wf(),
        ensures
            r == self.spec_length(),
    {
        self.data.len() + Frame::size(self.frame.reliability, self.frame.fragment.is_some())
    }

    /// The packet's bytes on the wire.
    pub open spec fn wire(self) -> Seq<u8> {
        self.frame.header_wire() + self.data@
    }

    pub fn encode(&self, out: &mut Vec<u8>)
        requires
            self.wf(),
        ensures
            final(out)@ == old(out)@ + self.wire(),
    {
        self.frame.encode(out);
        let ghost mid = out@;
        let mut i: usize = 0;
        #[verifier::loop_isolation(false)]
        while i < self.data.len()
            invariant
                i <= self.data@.len(),
                out@ == mid + self.data@.subrange(0, i as int),
            decreases self.data@.len() - i,
        {
            out.push(self.data[i]);
            i += 1;
            proof {
                assert(out@ =~= mid + self.data@.subrange(0, i as int));
            }
        }
        proof {
            assert(mid + self.data@.subrange(0, self.data@.len() as int) =~= old(out)@
                + self.wire());
        }
    }
}

/// A packet as plain values: its frame header and payload bytes.
pub open spec fn pk(p: OutPacket) -> (Frame, Seq<u8>) {
    (p.frame, p.data@)
}

pub open spec fn pks(s: Seq<OutPacket>) -> Seq<(Frame, Seq<u8>)> {
    s.map_values(|p: OutPacket| (p.frame, p.data@))
}

/// Transmission record of a group: the datagram sequence it rode in and
/// when it left.
#[derive(Clone, Copy, PartialEq, Eq, Structural, Debug)]
pub struct SentConf {
    pub sequence: u32,
    pub time_ms: u64,
}

/// One buffered datagram's worth of packets, with its transmission state.
pub struct SendGroup {
    pub packets: Vec<OutPacket>,
    pub sent: Option<SentConf>,
    pub resend_count: Option<u32>,
}

/// A group as plain values.
pub open spec fn gv(g: SendGroup) -> (Seq<(Frame, Seq<u8>)>, Option<SentConf>, Option<u32>) {
    (pks(g.packets@), g.sent, g.resend_count)
}

pub open spec fn bview(s: Seq<SendGroup>) -> Seq<
    (Seq<(Frame, Seq<u8>)>, Option<SentConf>, Option<u32>),
> {
    s.map_values(|g: SendGroup| (pks(g.packets@), g.sent, g.resend_count))
}

/// Sum of the encoded sizes of packets (plain view).
pub open spec fn pks_len(s: Seq<(Frame, Seq<u8>)>) -> int
    decreases s.len(),
{
    if s.len() == 0 {
        0
    } else {
        s[0].0.length + Frame::spec_size(s[0].0.reliability, s[0].0.fragment is Some) + pks_len(
            s.skip(1),
        )
    }
}

/// Every packet is well-formed and its header length matches its payload.
pub open spec fn pks_wf(s: Seq<(Frame, Seq<u8>)>) -> bool {
    forall|i: int| 0 <= i < s.len() ==> (#[trigger] s[i]).0.wf() && s[i].0.length == s[i].1.len()
}

/// The wire bytes of a sequence of packets, concatenated.
pub open spec fn pks_wire(s: Seq<(Frame, Seq<u8>)>) -> Seq<u8>
    decreases s.len(),
{
    if s.len() == 0 {
        Seq::empty()
    } else {
        s[0].0.header_wire() + s[0].1 + pks_wire(s.skip(1))
    }
}

/// The bytes of one data datagram: flag byte, 24-bit sequence, frames.
pub open spec fn datagram_wire(seqno: u32, packets: Seq<(Frame, Seq<u8>)>) -> Seq<u8> {
    seq![(DATAGRAM_FLAG | NEEDS_B_AND_AS_FLAG) as u8] + le24(seqno) + pks_wire(packets)
}

/// Number of groups in flight (transmitted and neither acknowledged nor
/// reset).
pub open spec fn inflight(
    s: Seq<(Seq<(Frame, Seq<u8>)>, Option<SentConf>, Option<u32>)>,
) -> int
    decreases s.len(),
{
    if s.len() == 0 {
        0
    } else {
        (if s[0].1 is Some {
            1int
        } else {
            0int
        }) + inflight(s.skip(1))
    }
}

/// Index of the first group not yet transmitted, or -1.
pub open spec fn first_sendable(
    s: Seq<(Seq<(Frame, Seq<u8>)>, Option<SentConf>, Option<u32>)>,
) -> int
    decreases s.len(),
{
    if s.len() == 0 {
        -1
    } else if s[0].1 is None {
        0
    } else {
        let r = first_sendable(s.skip(1));
        if r < 0 {
            -1
        } else {
            r + 1
        }
    }
}


/// All packets currently buffered, in order.
pub open spec fn all_packets(
    s: Seq<(Seq<(Frame, Seq<u8>)>, Option<SentConf>, Option<u32>)>,
) -> Seq<(Frame, Seq<u8>)>
    decreases s.len(),
{
    if s.len() == 0 {
        Seq::empty()
    } else {
        s[0].0 + all_packets(s.skip(1))
    }
}

/// Where `push_outpacket` puts a packet: appended to the last group when
/// that group is untransmitted and the datagram still has room, into a
/// fresh group otherwise.
pub open spec fn spec_push(
    bv: Seq<(Seq<(Frame, Seq<u8>)>, Option<SentConf>, Option<u32>)>,
    item: (Frame, Seq<u8>),
    mpl: int,
) -> Seq<(Seq<(Frame, Seq<u8>)>, Option<SentConf>, Option<u32>)> {
    let ilen = item.0.length + Frame::spec_size(item.0.reliability, item.0.fragment is Some);
    if bv.len() > 0 && bv.last().1 is None && bv.last().2 is None && pks_len(bv.last().0) + ilen
        <= mpl {
        bv.update(bv.len() - 1, (bv.last().0.push(item), None, None))
    } else {
        bv.push((seq![item], None, None))
    }
}

/// The group `send_next` would transmit now, or -1: the first sendable
/// group, unless the congestion window is full, or coalescing is on and
/// this is the only sendable group while others are in flight.
pub open spec fn sendable_now(
    bv: Seq<(Seq<(Frame, Seq<u8>)>, Option<SentConf>, Option<u32>)>,
    cwnd: u32,
    nodelay: bool,
) -> int {
    let i = first_sendable(bv);
    if inflight(bv) >= cwnd || i < 0 {
        -1
    } else if !nodelay && i + 1 == bv.len() && inflight(bv) > 0 {
        -1
    } else {
        i
    }
}

/// Group `i` marked as transmitted under sequence `seqno` at `now_ms`.
pub open spec fn mark_sent(
    bv: Seq<(Seq<(Frame, Seq<u8>)>, Option<SentConf>, Option<u32>)>,
    i: int,
    seqno: u32,
    now_ms: u64,
) -> Seq<(Seq<(Frame, Seq<u8>)>, Option<SentConf>, Option<u32>)> {
    bv.update(i, (bv[i].0, Some(SentConf { sequence: seqno, time_ms: now_ms }), bv[i].2))
}

pub proof fn lemma_inflight_take(
    s: Seq<(Seq<(Frame, Seq<u8>)>, Option<SentConf>, Option<u32>)>,
    k: int,
)
    requires
        0 <= k < s.len(),
    ensures
        inflight(s.take(k + 1)) == inflight(s.take(k)) + (if s[k].1 is Some {
            1int
        } else {
            0int
        }),
    decreases k,
{
    if k == 0 {
        assert(s.take(1).skip(1) =~= Seq::empty());
        assert(s.take(0) =~= Seq::empty());
    } else {
        lemma_inflight_take(s.skip(1), k - 1);
        assert(s.take(k + 1).skip(1) =~= s.skip(1).take(k));
        assert(s.take(k).skip(1) =~= s.skip(1).take(k - 1));
    }
}

pub proof fn lemma_inflight_all(s: Seq<(Seq<(Frame, Seq<u8>)>, Option<SentConf>, Option<u32>)>)
    ensures
        inflight(s.take(s.len() as int)) == inflight(s),
{
    assert(s.take(s.len() as int) =~= s);
}

pub proof fn lemma_first_sendable(s: Seq<(Seq<(Frame, Seq<u8>)>, Option<SentConf>, Option<u32>)>)
    ensures
        first_sendable(s) >= 0 ==> first_sendable(s) < s.len() && s[first_sendable(s)].1 is None,
        first_sendable(s) < 0 ==> forall|i: int| 0 <= i < s.len() ==> (#[trigger] s[i].1) is Some,
    decreases s.len(),
{
    if s.len() > 0 && !(s[0].1 is None) {
        lemma_first_sendable(s.skip(1));
        let r = first_sendable(s.skip(1));
        if r >= 0 {
            assert(s.skip(1)[r] == s[r + 1]);
        } else {
            assert forall|i: int| 0 <= i < s.len() implies (#[trigger] s[i].1) is Some by {
                if i > 0 {
                    assert(s.skip(1)[i - 1] == s[i]);
                }
            }
        }
    }
}

pub proof fn lemma_first_sendable_unique(
    s: Seq<(Seq<(Frame, Seq<u8>)>, Option<SentConf>, Option<u32>)>,
    i: int,
)
    requires
        0 <= i < s.len(),
        s[i].1 is None,
        forall|j: int| 0 <= j < i ==> (#[trigger] s[j].1) is Some,
    ensures
        first_sendable(s) == i,
    decreases i,
{
    if i > 0 {
        lemma_first_sendable_unique(s.skip(1), i - 1);
        assert forall|j: int| 0 <= j < i - 1 implies (#[trigger] s.skip(1)[j].1) is Some by {
            assert(s.skip(1)[j] == s[j + 1]);
        }
        assert(s.skip(1)[i - 1] == s[i]);
    }
}

pub proof fn lemma_pks_wire_take(s: Seq<(Frame, Seq<u8>)>, k: int)
    requires
        0 <= k < s.len(),
    ensures
        pks_wire(s.take(k + 1)) == pks_wire(s.take(k)) + (s[k].0.header_wire() + s[k].1),
    decreases k,
{
    if k == 0 {
        assert(s.take(1).skip(1) =~= Seq::<(Frame, Seq<u8>)>::empty());
        assert(s.take(0) =~= Seq::<(Frame, Seq<u8>)>::empty());
        assert(s.take(1)[0] == s[0]);
        assert(pks_wire(Seq::<(Frame, Seq<u8>)>::empty()) =~= Seq::<u8>::empty());
        assert(pks_wire(s.take(1)) =~= s[0].0.header_wire() + s[0].1);
        assert(pks_wire(s.take(0)) + (s[0].0.header_wire() + s[0].1) =~= s[0].0.header_wire()
            + s[0].1);
    } else {
        lemma_pks_wire_take(s.skip(1), k - 1);
        assert(s.take(k + 1).skip(1) =~= s.skip(1).take(k));
        assert(s.take(k).skip(1) =~= s.skip(1).take(k - 1));
        assert(s.take(k + 1)[0] == s[0] && s.take(k)[0] == s[0]);
        assert(s.skip(1)[k - 1] == s[k]);
        assert(pks_wire(s.take(k + 1)) =~= pks_wire(s.take(k)) + (s[k].0.header_wire() + s[k].1));
    }
}

pub proof fn lemma_pks_wire_all(s: Seq<(Frame, Seq<u8>)>)
    ensures
        pks_wire(s.take(s.len() as int)) == pks_wire(s),
{
    assert(s.take(s.len() as int) =~= s);
}

/// The outbox as plain byte sequences.
pub open spec fn obview(s: Seq<Vec<u8>>) -> Seq<Seq<u8>> {
    s.map_values(|v: Vec<u8>| v@)
}

/// Send-side state of one session.
pub struct DatagramSender {
    /// Negotiated MTU minus the UDP header, flag byte and sequence number.
    pub max_payload_len: usize,
    /// Datagram groups: not yet transmitted, or in flight.
    pub buffer: Vec<SendGroup>,
    pub cubic: Cubic,
    pub rto: Rto,
    /// Sequence number of the next transmitted datagram.
    pub sequence: u32,
    /// A congestion episode is open (cleared when a retransmitted group is
    /// acknowledged).
    pub is_congestion: bool,
    /// Next reliable frame index.
    pub mindex: u32,
    /// Next sequenced index.
    pub sindex: u32,
    /// Next ordered index.
    pub oindex: u32,
    /// Next fragment group id.
    pub fragment_id: u16,
    /// When false, the last sendable group is held back while anything is
    /// in flight, hoping to batch more writes into it.
    pub nodelay: bool,
    /// Built datagrams waiting for the caller to put them on the socket.
    pub outbox: Vec<Vec<u8>>,
}

impl DatagramSender {
    pub open spec fn wf(self) -> bool {
        &&& 100 <= self.max_payload_len <= 1364
        &&& self.sequence < 0x1000000
        &&& self.mindex < 0x1000000
        &&& self.sindex < 0x1000000
        &&& self.oindex < 0x1000000
        &&& self.cubic.wf()
        &&& self.rto.wf()
        &&& forall|i: int| 0 <= i < self.buffer@.len() ==> pks_wf(
            (#[trigger] bview(self.buffer@)[i]).0,
        ) && pks_len(bview(self.buffer@)[i].0) <= self.max_payload_len
    }

    pub fn new(mtu: usize) -> (r: DatagramSender)
        requires
            576 <= mtu <= 1400,
        ensures
            r.wf(),
            r.max_payload_len == mtu - UDP_HEADER - 4,
            r.buffer@.len() == 0,
            r.outbox@.len() == 0,
            r.sequence == 0,
            r.mindex == 0,
            r.sindex == 0,
            r.oindex == 0,
            r.fragment_id == 0,
            !r.nodelay,
            !r.is_congestion,
            r.cubic.cwnd == crate::cubic::spec_iw(mtu as u16),
            r.rto.rto_ms == 1000,
            !r.rto.has_sample,
    {
        DatagramSender {
            max_payload_len: mtu - UDP_HEADER - 4,
            buffer: Vec::new(),
            cubic: Cubic::new(mtu as u16),
            rto: Rto::new(),
            sequence: 0,
            is_congestion: false,
            mindex: 0,
            sindex: 0,
            oindex: 0,
            fragment_id: 0,
            nodelay: false,
            outbox: Vec::new(),
        }
    }

    /// Number of transmitted groups awaiting acknowledgement.
    fn inflight_count(&self) -> (r: usize)
        ensures
            r == inflight(bview(self.buffer@)),
    {
        let ghost bv = bview(self.buffer@);
        let mut n: usize = 0;
        let mut i: usize = 0;
        #[verifier::loop_isolation(false)]
        while i < self.buffer.len()
            invariant
                i <= self.buffer@.len(),
                n <= i,
                n == inflight(bv.take(i as int)),
            decreases self.buffer@.len() - i,
        {
            proof {
                lemma_inflight_take(bv, i as int);
            }
            if self.buffer[i].sent.is_some() {
                n += 1;
            }
            i += 1;
        }
        proof {
            lemma_inflight_all(bv);
        }
        n
    }

    /// Append `out` to the last open group when it still fits, else open a
    /// new group.
    pub fn push_outpacket(&mut self, out: OutPacket)
        requires
            old(self).wf(),
            out.wf(),
            out.spec_length() <= old(self).max_payload_len,
        ensures
            final(self).wf(),
            bview(final(self).buffer@) == spec_push(
                bview(old(self).buffer@),
                pk(out),
                old(self).max_payload_len as int,
            ),
            final(self).max_payload_len == old(self).max_payload_len,
            final(self).cubic == old(self).cubic,
            final(self).rto == old(self).rto,
            final(self).sequence == old(self).sequence,
            final(self).is_congestion == old(self).is_congestion,
            final(self).mindex == old(self).mindex,
            final(self).sindex == old(self).sindex,
            final(self).oindex == old(self).oindex,
            final(self).fragment_id == old(self).fragment_id,
            final(self).nodelay == old(self).nodelay,
            final(self).outbox@ == old(self).outbox@,
    {
        let ghost bv = bview(self.buffer@);
        let n = self.buffer.len();
        let mut merge = false;
        if n > 0 {
            let last = &self.buffer[n - 1];
            if last.sent.is_none() && last.resend_count.is_none() {
                // room left in the open group?
                let mut total: usize = 0;
                let mut i: usize = 0;
                let ghost lastpks = pks(last.packets@);
                proof {
                    assert(pks_len(lastpks) <= self.max_payload_len);
                }
                #[verifier::loop_isolation(false)]
                while i < last.packets.len()
                    invariant
                        i <= last.packets@.len(),
                        total == pks_len(lastpks.take(i as int)),
                        total <= self.max_payload_len,
                        pks_wf(lastpks),
                        lastpks == pks(self.buffer@[n - 1].packets@),
                        n == self.buffer@.len(),
                        self.buffer@.len() > 0,
                        pks_len(lastpks) <= self.max_payload_len,
                    decreases last.packets@.len() - i,
                {
                    proof {
                        lemma_pks_len_take(lastpks, i as int);
                        lemma_pks_len_split(lastpks, i + 1);
                        lemma_pks_len_nonneg(lastpks.skip(i + 1));
                        assert(lastpks[i as int].0 == last.packets@[i as int].frame);
                    }
                    total += self.buffer[n - 1].packets[i].length();
                    i += 1;
                }
                proof {
                    assert(lastpks.take(lastpks.len() as int) =~= lastpks);
                }
                if total + out.length() <= self.max_payload_len {
                    merge = true;
                }
            }
        }
        if merge {
            let mut last = self.buffer.remove(n - 1);
            last.packets.push(out);
            self.buffer.push(last);
            proof {
                assert(pks(last.packets@) =~= bv.last().0.push(pk(out)));
                assert(bview(self.buffer@) =~~= bv.update(bv.len() - 1, (
                    bv.last().0.push(pk(out)),
                    None,
                    None,
                )));
                lemma_pks_len_push(bv.last().0, pk(out));
            }
        } else {
            let mut packets: Vec<OutPacket> = Vec::new();
            packets.push(out);
            let g = SendGroup { packets, sent: None, resend_count: None };
            self.buffer.push(g);
            proof {
                assert(pks(g.packets@) =~= seq![pk(out)]);
                assert(bview(self.buffer@) =~~= bv.push((seq![pk(out)], None, None)));
                assert(pks_len(seq![pk(out)]) == pk(out).0.length + Frame::spec_size(
                    pk(out).0.reliability,
                    pk(out).0.fragment is Some,
                ) + pks_len(seq![pk(out)].skip(1)));
                assert(seq![pk(out)].skip(1) =~= Seq::<(Frame, Seq<u8>)>::empty());
            }
        }
    }

    /// Transmit the first sendable group, when the congestion window and
    /// the coalescing rule allow: its frames are encoded into one datagram
    /// appended to the outbox, and the group records the sequence number it
    /// rode in.
    pub fn send_next(&mut self, now_ms: u64)
        requires
            old(self).wf(),
        ensures
            final(self).wf(),
            final(self).max_payload_len == old(self).max_payload_len,
            final(self).cubic == old(self).cubic,
            final(self).rto == old(self).rto,
            final(self).is_congestion == old(self).is_congestion,
            final(self).mindex == old(self).mindex,
            final(self).sindex == old(self).sindex,
            final(self).oindex == old(self).oindex,
            final(self).fragment_id == old(self).fragment_id,
            final(self).nodelay == old(self).nodelay,
            ({
                let bv = bview(old(self).buffer@);
                let i = sendable_now(bv, old(self).cubic.cwnd, old(self).nodelay);
                if i < 0 {
                    final(self).buffer@ == old(self).buffer@ && final(self).outbox@ == old(
                        self,
                    ).outbox@ && final(self).sequence == old(self).sequence
                } else {
                    &&& bview(final(self).buffer@) == mark_sent(bv, i, old(self).sequence, now_ms)
                    &&& obview(final(self).outbox@) == obview(old(self).outbox@).push(
                        datagram_wire(old(self).sequence, bv[i].0),
                    )
                    &&& final(self).sequence == ((old(self).sequence + 1) % 0x1000000) as u32
                }
            }),
    {
        let ghost bv = bview(self.buffer@);
        if self.inflight_count() >= self.cubic.cwnd as usize {
            proof {
                assert(sendable_now(bv, self.cubic.cwnd, self.nodelay) < 0);
            }
            return ;
        }
        // find the first group not yet transmitted
        let mut idx: usize = 0;
        let mut found = false;
        #[verifier::loop_isolation(false)]
        while idx < self.buffer.len() && !found
            invariant
                idx <= self.buffer@.len(),
                forall|j: int| 0 <= j < idx ==> (#[trigger] bv[j].1) is Some,
                found ==> idx < self.buffer@.len() && bv[idx as int].1 is None,
                bv == bview(self.buffer@),
            decreases self.buffer@.len() - idx + (if found {
                0int
            } else {
                1int
            }),
        {
            if self.buffer[idx].sent.is_none() {
                found = true;
            } else {
                idx += 1;
            }
        }
        proof {
            lemma_first_sendable(bv);
            if found {
                lemma_first_sendable_unique(bv, idx as int);
            }
        }
        if !found {
            return ;
        }
        if !self.nodelay {
            // hold the only sendable group back while others are in flight
            if idx + 1 == self.buffer.len() && self.inflight_count() > 0 {
                return ;
            }
        }
        proof {
            assert(sendable_now(bv, self.cubic.cwnd, self.nodelay) == idx);
        }
        // build the datagram
        let mut buff: Vec<u8> = Vec::new();
        put_u8(&mut buff, DATAGRAM_FLAG | NEEDS_B_AND_AS_FLAG);
        U24::put(&mut buff, self.sequence);
        let ghost head = buff@;
        let ghost grouppks = bv[idx as int].0;
        let mut i: usize = 0;
        #[verifier::loop_isolation(false)]
        while i < self.buffer[idx].packets.len()
            invariant
                i <= self.buffer@[idx as int].packets@.len(),
                buff@ == head + pks_wire(grouppks.take(i as int)),
                grouppks == pks(self.buffer@[idx as int].packets@),
                idx < self.buffer@.len(),
                bv == bview(self.buffer@),
                pks_wf(grouppks),
            decreases self.buffer@[idx as int].packets@.len() - i,
        {
            proof {
                lemma_pks_wire_take(grouppks, i as int);
                assert(grouppks[i as int].0 == self.buffer@[idx as int].packets@[i as int].frame);
            }
            self.buffer[idx].packets[i].encode(&mut buff);
            i += 1;
        }
        proof {
            lemma_pks_wire_all(grouppks);
            assert(buff@ =~= datagram_wire(self.sequence, grouppks));
        }
        self.outbox.push(buff);
        // record the transmission
        let mut g = self.buffer.remove(idx);
        g.sent = Some(SentConf { sequence: self.sequence, time_ms: now_ms });
        self.buffer.insert(idx, g);
        self.sequence = (self.sequence + 1) % 0x1000000;
        proof {
            assert(bview(self.buffer@) =~~= mark_sent(bv, idx as int, old(self).sequence, now_ms));
            assert(obview(self.outbox@) =~~= obview(old(self).outbox@).push(
                datagram_wire(old(self).sequence, grouppks),
            ));
        }
    }

    pub fn set_nodelay(&mut self, nodelay: bool)
        ensures
            *final(self) == (DatagramSender { nodelay, ..*old(self) }),
    {
        self.nodelay = nodelay;
    }

    pub fn nodelay(&self) -> (r: bool)
        ensures
            r == self.nodelay,
    {
        self.nodelay
    }

    /// Drain the built datagrams; the caller puts each on the socket.
    pub fn take_outgoing(&mut self) -> (r: Vec<Vec<u8>>)
        ensures
            final(self).outbox@.len() == 0,
            obview(r@) == obview(old(self).outbox@),
            final(self).buffer@ == old(self).buffer@,
            final(self).max_payload_len == old(self).max_payload_len,
            final(self).cubic == old(self).cubic,
            final(self).rto == old(self).rto,
            final(self).sequence == old(self).sequence,
            final(self).is_congestion == old(self).is_congestion,
            final(self).mindex == old(self).mindex,
            final(self).sindex == old(self).sindex,
            final(self).oindex == old(self).oindex,
            final(self).fragment_id == old(self).fragment_id,
            final(self).nodelay == old(self).nodelay,
    {
        let mut out: Vec<Vec<u8>> = Vec::new();
        core::mem::swap(&mut out, &mut self.outbox);
        out
    }
}

pub proof fn lemma_pks_len_take(s: Seq<(Frame, Seq<u8>)>, k: int)
    requires
        0 <= k < s.len(),
    ensures
        pks_len(s.take(k + 1)) == pks_len(s.take(k)) + s[k].0.length + Frame::spec_size(
            s[k].0.reliability,
            s[k].0.fragment is Some,
        ),
    decreases k,
{
    if k == 0 {
        assert(s.take(1).skip(1) =~= Seq::<(Frame, Seq<u8>)>::empty());
        assert(s.take(0) =~= Seq::<(Frame, Seq<u8>)>::empty());
        assert(s.take(1)[0] == s[0]);
    } else {
        lemma_pks_len_take(s.skip(1), k - 1);
        assert(s.take(k + 1).skip(1) =~= s.skip(1).take(k));
        assert(s.take(k).skip(1) =~= s.skip(1).take(k - 1));
        assert(s.take(k + 1)[0] == s[0] && s.take(k)[0] == s[0]);
        assert(s.skip(1)[k - 1] == s[k]);
    }
}

pub proof fn lemma_pks_len_nonneg(s: Seq<(Frame, Seq<u8>)>)
    ensures
        pks_len(s) >= 0,
    decreases s.len(),
{
    if s.len() > 0 {
        lemma_pks_len_nonneg(s.skip(1));
    }
}

/// The buffered total splits at any point.
pub proof fn lemma_pks_len_split(s: Seq<(Frame, Seq<u8>)>, k: int)
    requires
        0 <= k <= s.len(),
    ensures
        pks_len(s) == pks_len(s.take(k)) + pks_len(s.skip(k)),
    decreases k,
{
    if k == 0 {
        assert(s.take(0) =~= Seq::<(Frame, Seq<u8>)>::empty());
        assert(s.skip(0) =~= s);
    } else {
        lemma_pks_len_split(s.skip(1), k - 1);
        assert(s.take(k).skip(1) =~= s.skip(1).take(k - 1));
        assert(s.skip(k) =~= s.skip(1).skip(k - 1));
        assert(s.take(k)[0] == s[0]);
    }
}

pub proof fn lemma_pks_len_push(s: Seq<(Frame, Seq<u8>)>, item: (Frame, Seq<u8>))
    ensures
        pks_len(s.push(item)) == pks_len(s) + item.0.length + Frame::spec_size(
            item.0.reliability,
            item.0.fragment is Some,
        ),
    decreases s.len(),
{
    if s.len() == 0 {
        assert(s.push(item)[0] == item);
        assert(s.push(item).skip(1) =~= Seq::<(Frame, Seq<u8>)>::empty());
        assert(pks_len(s.push(item).skip(1)) == 0);
        assert(pks_len(s) == 0);
    } else {
        lemma_pks_len_push(s.skip(1), item);
        assert(s.push(item).skip(1) =~= s.skip(1).push(item));
        assert(s.push(item)[0] == s[0]);
    }
}


/// Reliability used for fragments: fragmented traffic must be recoverable,
/// so unreliable levels are upgraded to their reliable counterparts.
pub open spec fn spec_upgraded(r: Reliability) -> Reliability {
    match r {
        Reliability::Unreliable => Reliability::Reliable,
        Reliability::UnreliableSequenced => Reliability::ReliableSequenced,
        _ => r,
    }
}

/// Number of fragments an application write splits into: the ceiling of
/// `len / ps`.
pub open spec fn frag_count(len: int, ps: int) -> int {
    len / ps + if len % ps != 0 {
        1int
    } else {
        0int
    }
}

/// Fragment `i` of a split write: its frame header and payload slice.
pub open spec fn piece_at(
    bytes: Seq<u8>,
    rel: Reliability,
    m0: u32,
    si: u32,
    oi: u32,
    fid: u16,
    ps: int,
    i: int,
) -> (Frame, Seq<u8>) {
    let count = frag_count(bytes.len() as int, ps);
    let start = i * ps;
    let end = if i == count - 1 {
        bytes.len() as int
    } else {
        start + ps
    };
    (
        Frame {
            reliability: rel,
            length: (end - start) as u16,
            mindex: ((m0 + i) % 0x1000000) as u32,
            sindex: si,
            oindex: oi,
            fragment: Some(
                FragmentHeader { size: count as u32, id: fid, index: i as u32 },
            ),
        },
        bytes.subrange(start, end),
    )
}

/// All fragments of a split write, in piece order.
pub open spec fn frag_pieces(
    bytes: Seq<u8>,
    rel: Reliability,
    m0: u32,
    si: u32,
    oi: u32,
    fid: u16,
    ps: int,
) -> Seq<(Frame, Seq<u8>)> {
    Seq::new(
        frag_count(bytes.len() as int, ps) as nat,
        |i: int| piece_at(bytes, rel, m0, si, oi, fid, ps, i),
    )
}

pub proof fn lemma_all_packets_snoc(
    bv: Seq<(Seq<(Frame, Seq<u8>)>, Option<SentConf>, Option<u32>)>,
    g: (Seq<(Frame, Seq<u8>)>, Option<SentConf>, Option<u32>),
)
    ensures
        all_packets(bv.push(g)) == all_packets(bv) + g.0,
    decreases bv.len(),
{
    if bv.len() == 0 {
        assert(bv.push(g).skip(1) =~= Seq::<
            (Seq<(Frame, Seq<u8>)>, Option<SentConf>, Option<u32>),
        >::empty());
        assert(bv.push(g)[0] == g);
        reveal_with_fuel(all_packets, 3);
        assert(all_packets(bv) =~= Seq::<(Frame, Seq<u8>)>::empty());
        assert(all_packets(bv.push(g)) =~= g.0 + Seq::<(Frame, Seq<u8>)>::empty());
        assert(g.0 + Seq::<(Frame, Seq<u8>)>::empty() =~= all_packets(bv) + g.0);
    } else {
        lemma_all_packets_snoc(bv.skip(1), g);
        assert(bv.push(g).skip(1) =~= bv.skip(1).push(g));
        assert(bv.push(g)[0] == bv[0]);
        assert(bv[0].0 + (all_packets(bv.skip(1)) + g.0) =~= (bv[0].0 + all_packets(bv.skip(1)))
            + g.0);
    }
}

/// Changing a group's transmission state leaves the buffered packets alone.
pub proof fn lemma_all_packets_update(
    bv: Seq<(Seq<(Frame, Seq<u8>)>, Option<SentConf>, Option<u32>)>,
    i: int,
    g: (Seq<(Frame, Seq<u8>)>, Option<SentConf>, Option<u32>),
)
    requires
        0 <= i < bv.len(),
        g.0 == bv[i].0,
    ensures
        all_packets(bv.update(i, g)) == all_packets(bv),
    decreases i,
{
    if i == 0 {
        assert(bv.update(0, g).skip(1) =~= bv.skip(1));
        assert(bv.update(0, g)[0] == g);
    } else {
        lemma_all_packets_update(bv.skip(1), i - 1, g);
        assert(bv.update(i, g).skip(1) =~= bv.skip(1).update(i - 1, g));
        assert(bv.update(i, g)[0] == bv[0]);
    }
}

/// Appending a packet to the open last group appends it to the buffered
/// packets.
pub proof fn lemma_all_packets_update_last(
    bv: Seq<(Seq<(Frame, Seq<u8>)>, Option<SentConf>, Option<u32>)>,
    g: (Seq<(Frame, Seq<u8>)>, Option<SentConf>, Option<u32>),
    x: (Frame, Seq<u8>),
)
    requires
        bv.len() > 0,
        g.0 == bv.last().0.push(x),
    ensures
        all_packets(bv.update(bv.len() - 1, g)) == all_packets(bv).push(x),
    decreases bv.len(),
{
    if bv.len() == 1 {
        assert(bv.update(0, g).skip(1) =~= Seq::<
            (Seq<(Frame, Seq<u8>)>, Option<SentConf>, Option<u32>),
        >::empty());
        assert(bv.update(0, g)[0] == g);
        assert(bv.last() == bv[0]);
        reveal_with_fuel(all_packets, 3);
        assert(all_packets(bv.update(0, g)) =~= g.0 + Seq::<(Frame, Seq<u8>)>::empty());
        assert(g.0 + Seq::<(Frame, Seq<u8>)>::empty() =~= g.0);
        assert(bv.skip(1) =~= Seq::<
            (Seq<(Frame, Seq<u8>)>, Option<SentConf>, Option<u32>),
        >::empty());
        assert(all_packets(bv) =~= bv[0].0 + Seq::<(Frame, Seq<u8>)>::empty());
        assert(bv[0].0 + Seq::<(Frame, Seq<u8>)>::empty() =~= bv[0].0);
        assert(g.0 =~= all_packets(bv).push(x));
    } else {
        lemma_all_packets_update_last(bv.skip(1), g, x);
        assert(bv.update(bv.len() - 1, g).skip(1) =~= bv.skip(1).update(bv.skip(1).len() - 1, g));
        assert(bv.skip(1).last() == bv.last());
        assert(bv.update(bv.len() - 1, g)[0] == bv[0]);
        assert(bv[0].0 + all_packets(bv.skip(1)).push(x) =~= (bv[0].0 + all_packets(
            bv.skip(1),
        )).push(x));
    }
}

/// `spec_push` appends exactly the new packet to the buffered packets.
pub proof fn lemma_all_packets_push(
    bv: Seq<(Seq<(Frame, Seq<u8>)>, Option<SentConf>, Option<u32>)>,
    item: (Frame, Seq<u8>),
    mpl: int,
)
    ensures
        all_packets(spec_push(bv, item, mpl)) == all_packets(bv).push(item),
{
    let ilen = item.0.length + Frame::spec_size(item.0.reliability, item.0.fragment is Some);
    if bv.len() > 0 && bv.last().1 is None && bv.last().2 is None && pks_len(bv.last().0) + ilen
        <= mpl {
        lemma_all_packets_update_last(bv, (bv.last().0.push(item), None, None), item);
    } else {
        lemma_all_packets_snoc(bv, (seq![item], None, None));
        assert(all_packets(bv) + seq![item] =~= all_packets(bv).push(item));
    }
}

/// Marking a group sent raises the in-flight count by one.
pub proof fn lemma_inflight_update(
    bv: Seq<(Seq<(Frame, Seq<u8>)>, Option<SentConf>, Option<u32>)>,
    i: int,
    g: (Seq<(Frame, Seq<u8>)>, Option<SentConf>, Option<u32>),
)
    requires
        0 <= i < bv.len(),
    ensures
        inflight(bv.update(i, g)) == inflight(bv) + (if g.1 is Some {
            1int
        } else {
            0int
        }) - (if bv[i].1 is Some {
            1int
        } else {
            0int
        }),
    decreases i,
{
    if i == 0 {
        assert(bv.update(0, g).skip(1) =~= bv.skip(1));
        assert(bv.update(0, g)[0] == g);
    } else {
        lemma_inflight_update(bv.skip(1), i - 1, g);
        assert(bv.update(i, g).skip(1) =~= bv.skip(1).update(i - 1, g));
        assert(bv.update(i, g)[0] == bv[0]);
    }
}

impl DatagramSender {
    /// The state change `send` makes: the write is framed with the current
    /// channel indices, buffered, and one transmission is attempted.
    pub open spec fn send_post(
        pre: DatagramSender,
        post: DatagramSender,
        bytes: Seq<u8>,
        reliability: Reliability,
        now_ms: u64,
    ) -> bool {
        let f = Frame {
            reliability,
            length: bytes.len() as u16,
            mindex: if reliability.spec_reliable() {
                pre.mindex
            } else {
                0
            },
            sindex: if reliability.spec_sequenced() {
                pre.sindex
            } else {
                0
            },
            oindex: if reliability.spec_ordered() {
                pre.oindex
            } else {
                0
            },
            fragment: None,
        };
        let bv1 = spec_push(bview(pre.buffer@), (f, bytes), pre.max_payload_len as int);
        let i = sendable_now(bv1, pre.cubic.cwnd, pre.nodelay);
        &&& post.mindex == if reliability.spec_reliable() {
            ((pre.mindex + 1) % 0x1000000) as int
        } else {
            pre.mindex as int
        }
        &&& post.sindex == if reliability.spec_sequenced() {
            ((pre.sindex + 1) % 0x1000000) as int
        } else {
            pre.sindex as int
        }
        &&& post.oindex == if reliability.spec_ordered() {
            ((pre.oindex + 1) % 0x1000000) as int
        } else {
            pre.oindex as int
        }
        &&& post.max_payload_len == pre.max_payload_len
        &&& post.cubic == pre.cubic
        &&& post.rto == pre.rto
        &&& post.is_congestion == pre.is_congestion
        &&& post.fragment_id == pre.fragment_id
        &&& post.nodelay == pre.nodelay
        &&& (if i < 0 {
            bview(post.buffer@) == bv1 && obview(post.outbox@) == obview(pre.outbox@)
                && post.sequence == pre.sequence
        } else {
            &&& bview(post.buffer@) == mark_sent(bv1, i, pre.sequence, now_ms)
            &&& obview(post.outbox@) == obview(pre.outbox@).push(
                datagram_wire(pre.sequence, bv1[i].0),
            )
            &&& post.sequence == ((pre.sequence + 1) % 0x1000000) as u32
        })
    }

    /// Frame one application write and buffer it, consuming the channel
    /// indices its reliability calls for, then attempt one transmission.
    pub fn send(&mut self, bytes: Vec<u8>, reliability: Reliability, now_ms: u64)
        requires
            old(self).wf(),
            bytes@.len() + Frame::spec_size(reliability, false) <= old(self).max_payload_len,
        ensures
            final(self).wf(),
            DatagramSender::send_post(*old(self), *final(self), bytes@, reliability, now_ms),
    {
        let mut frame = Frame {
            reliability,
            length: bytes.len() as u16,
            mindex: 0,
            sindex: 0,
            oindex: 0,
            fragment: None,
        };
        if reliability.reliable() {
            frame.mindex = self.mindex;
            self.mindex = (self.mindex + 1) % 0x1000000;
        }
        if reliability.sequenced() {
            frame.sindex = self.sindex;
            self.sindex = (self.sindex + 1) % 0x1000000;
        }
        if reliability.ordered() {
            frame.oindex = self.oindex;
            self.oindex = (self.oindex + 1) % 0x1000000;
        }
        let out = OutPacket { frame, data: bytes };
        self.push_outpacket(out);
        self.send_next(now_ms);
    }

    /// Transmit while the congestion window and the coalescing rule allow;
    /// afterwards nothing more may be transmitted without new input.
    pub fn refill(&mut self, now_ms: u64)
        requires
            old(self).wf(),
        ensures
            final(self).wf(),
            final(self).max_payload_len == old(self).max_payload_len,
            final(self).cubic == old(self).cubic,
            final(self).rto == old(self).rto,
            final(self).is_congestion == old(self).is_congestion,
            final(self).mindex == old(self).mindex,
            final(self).sindex == old(self).sindex,
            final(self).oindex == old(self).oindex,
            final(self).fragment_id == old(self).fragment_id,
            final(self).nodelay == old(self).nodelay,
            sendable_now(bview(final(self).buffer@), final(self).cubic.cwnd, final(self).nodelay)
                < 0,
            all_packets(bview(final(self).buffer@)) == all_packets(bview(old(self).buffer@)),
            obview(final(self).outbox@).take(old(self).outbox@.len() as int) == obview(
                old(self).outbox@,
            ),
            final(self).outbox@.len() >= old(self).outbox@.len(),
    {
        proof {
            assert(obview(self.outbox@).take(self.outbox@.len() as int) =~= obview(
                self.outbox@,
            ));
            lemma_inflight_le_len(bview(self.buffer@));
        }
        loop
            invariant
                self.wf(),
                self.max_payload_len == old(self).max_payload_len,
                self.cubic == old(self).cubic,
                self.rto == old(self).rto,
                self.is_congestion == old(self).is_congestion,
                self.mindex == old(self).mindex,
                self.sindex == old(self).sindex,
                self.oindex == old(self).oindex,
                self.fragment_id == old(self).fragment_id,
                self.nodelay == old(self).nodelay,
                all_packets(bview(self.buffer@)) == all_packets(bview(old(self).buffer@)),
                obview(self.outbox@).take(old(self).outbox@.len() as int) == obview(
                    old(self).outbox@,
                ),
                self.outbox@.len() >= old(self).outbox@.len(),
                inflight(bview(self.buffer@)) <= self.buffer@.len(),
            ensures
                sendable_now(bview(self.buffer@), self.cubic.cwnd, self.nodelay) < 0,
            decreases self.buffer@.len() - inflight(bview(self.buffer@)),
        {
            let ghost bv = bview(self.buffer@);
            let ghost ob0 = obview(self.outbox@);
            let ghost seq0 = self.sequence;
            let ghost obl = old(self).outbox@.len() as int;
            let n = self.inflight_count();
            if n >= self.cubic.cwnd as usize {
                proof {
                    assert(sendable_now(bv, self.cubic.cwnd, self.nodelay) < 0);
                }
                break ;
            }
            let before = self.outbox.len();
            self.send_next(now_ms);
            if self.outbox.len() == before {
                proof {
                    let i = sendable_now(bv, self.cubic.cwnd, self.nodelay);
                    if i >= 0 {
                        assert(obview(self.outbox@).len() == self.outbox@.len());
                        assert(obview(self.outbox@) == ob0.push(datagram_wire(seq0, bv[i].0)));
                        assert(false);
                    }
                }
                break ;
            }
            proof {
                let i = sendable_now(bv, self.cubic.cwnd, self.nodelay);
                lemma_first_sendable(bv);
                let g = (bv[i].0, Some(SentConf { sequence: seq0, time_ms: now_ms }), bv[i].2);
                assert(bview(self.buffer@) == bv.update(i, g));
                lemma_all_packets_update(bv, i, g);
                lemma_inflight_update(bv, i, g);
                lemma_inflight_le_len(bview(self.buffer@));
                assert(obview(self.outbox@) == ob0.push(datagram_wire(seq0, bv[i].0)));
                assert(obview(self.outbox@).len() == ob0.len() + 1);
                assert(self.outbox@.len() == ob0.len() + 1);
                assert(ob0.len() == before);
                assert(obview(self.outbox@).take(obl) =~= ob0.take(obl));
            }
        }
    }
}

pub proof fn lemma_inflight_le_len(s: Seq<(Seq<(Frame, Seq<u8>)>, Option<SentConf>, Option<u32>)>)
    ensures
        0 <= inflight(s) <= s.len(),
    decreases s.len(),
{
    if s.len() > 0 {
        lemma_inflight_le_len(s.skip(1));
    }
}


impl DatagramSender {
    fn upgraded(reliability: Reliability) -> (r: Reliability)
        ensures
            r == spec_upgraded(reliability),
    {
        match reliability {
            Reliability::Unreliable => Reliability::Reliable,
            Reliability::UnreliableSequenced => Reliability::ReliableSequenced,
            r => r,
        }
    }

    /// Send one application write of any size.  A write that fits one frame
    /// is framed directly; a larger write is upgraded to a reliable level,
    /// split into fragments that share one fragment id (and one ordered and
    /// sequenced index), each fragment taking its own reliable index.
    #[verifier::rlimit(100)]
    pub fn send_ref(&mut self, bytes: &Vec<u8>, reliability: Reliability, now_ms: u64)
        requires
            old(self).wf(),
            bytes@.len() <= 0x7fffffff,
        ensures
            final(self).wf(),
            bytes@.len() + Frame::spec_size(reliability, false) <= old(self).max_payload_len
                ==> DatagramSender::send_post(
                *old(self),
                *final(self),
                bytes@,
                reliability,
                now_ms,
            ),
            bytes@.len() + Frame::spec_size(reliability, false) > old(self).max_payload_len ==> {
                let rel2 = spec_upgraded(reliability);
                let ps = old(self).max_payload_len - Frame::spec_size(rel2, true);
                let count = frag_count(bytes@.len() as int, ps);
                &&& final(self).mindex == (old(self).mindex + count) % 0x1000000
                &&& final(self).sindex == (if rel2.spec_sequenced() {
                    ((old(self).sindex + 1) % 0x1000000) as int
                } else {
                    old(self).sindex as int
                })
                &&& final(self).oindex == (if rel2.spec_ordered() {
                    ((old(self).oindex + 1) % 0x1000000) as int
                } else {
                    old(self).oindex as int
                })
                &&& final(self).fragment_id == (old(self).fragment_id + 1) % 0x10000
                &&& all_packets(bview(final(self).buffer@)) == all_packets(
                    bview(old(self).buffer@),
                ) + frag_pieces(
                    bytes@,
                    rel2,
                    old(self).mindex,
                    old(self).sindex,
                    old(self).oindex,
                    old(self).fragment_id,
                    ps,
                )
                &&& obview(final(self).outbox@).take(old(self).outbox@.len() as int) == obview(
                    old(self).outbox@,
                )
                &&& final(self).outbox@.len() >= old(self).outbox@.len()
                &&& final(self).max_payload_len == old(self).max_payload_len
                &&& final(self).cubic == old(self).cubic
                &&& final(self).rto == old(self).rto
                &&& final(self).is_congestion == old(self).is_congestion
                &&& final(self).nodelay == old(self).nodelay
            },
    {
        let header_small = Frame::size(reliability, false);
        if bytes.len() <= self.max_payload_len - header_small {
            proof {
                assert(obview(self.outbox@).take(self.outbox@.len() as int) =~= obview(
                    self.outbox@,
                ));
            }
            self.send(copy_bytes(bytes), reliability, now_ms);
            return ;
        }
        let reliability = Self::upgraded(reliability);
        let header_size = Frame::size(reliability, true);
        let payload_size = self.max_payload_len - header_size;
        let len = bytes.len();
        let m = len % payload_size;
        let mut count = len / payload_size;
        if m != 0 {
            count += 1;
        }
        proof {
            assert(Frame::spec_size(reliability, false) <= 13);
            assert(reliability.spec_reliable());
            assert(Frame::spec_size(reliability, true) >= 16);
            assert(count == frag_count(len as int, payload_size as int));
            assert(len >= 1);
            assert((len as int) == (payload_size as int) * ((len as int) / (payload_size as int))
                + (len as int) % (payload_size as int)) by (nonlinear_arith)
                requires
                    payload_size >= 1,
            ;
            assert(count >= 1) by (nonlinear_arith)
                requires
                    len >= 1,
                    payload_size >= 1,
                    (len as int) == (payload_size as int) * ((len as int) / (
                    payload_size as int)) + (len as int) % (payload_size as int),
                    count == (len as int) / (payload_size as int) + (if (len as int) % (
                    payload_size as int) != 0 {
                        1int
                    } else {
                        0int
                    }),
            ;
            assert((count - 1) * (payload_size as int) <= len && len <= count * (
            payload_size as int) && (count - 1) * (payload_size as int) == (count as int - 1)
                * (payload_size as int)) by (nonlinear_arith)
                requires
                    payload_size >= 1,
                    (len as int) == (payload_size as int) * ((len as int) / (
                    payload_size as int)) + (len as int) % (payload_size as int),
                    count == (len as int) / (payload_size as int) + (if (len as int) % (
                    payload_size as int) != 0 {
                        1int
                    } else {
                        0int
                    }),
            ;
        }
        let ghost m0 = self.mindex;
        let ghost si0 = self.sindex;
        let ghost oi0 = self.oindex;
        let ghost fid0 = self.fragment_id;
        let ghost pieces = frag_pieces(
            bytes@,
            reliability,
            m0,
            si0,
            oi0,
            fid0,
            payload_size as int,
        );
        let mut i: usize = 0;
        #[verifier::loop_isolation(false)]
        while i < count
            invariant
                i <= count,
                self.wf(),
                self.mindex == (m0 + i) % 0x1000000,
                self.sindex == si0,
                self.oindex == oi0,
                self.fragment_id == fid0,
                self.max_payload_len == old(self).max_payload_len,
                self.cubic == old(self).cubic,
                self.rto == old(self).rto,
                self.is_congestion == old(self).is_congestion,
                self.nodelay == old(self).nodelay,
                all_packets(bview(self.buffer@)) == all_packets(bview(old(self).buffer@))
                    + pieces.take(i as int),
                obview(self.outbox@).take(old(self).outbox@.len() as int) == obview(
                    old(self).outbox@,
                ),
                self.outbox@.len() >= old(self).outbox@.len(),
            decreases count - i,
        {
            let mut length = payload_size;
            if i == count - 1 {
                length = len - (count - 1) * payload_size;
                proof {
                    assert((i as int) * (payload_size as int) == (count - 1) * (
                    payload_size as int));
                    assert(count * (payload_size as int) - (count - 1) * (payload_size as int)
                        == payload_size) by (nonlinear_arith);
                }
            } else {
                proof {
                    assert((i as int) * (payload_size as int) + payload_size <= (count - 1) * (
                    payload_size as int)) by (nonlinear_arith)
                        requires
                            i + 1 <= count - 1,
                            payload_size >= 1,
                    ;
                }
            }
            let pos = i * payload_size;
            let header = FragmentHeader {
                size: count as u32,
                id: self.fragment_id,
                index: i as u32,
            };
            let frame = Frame {
                reliability,
                length: length as u16,
                mindex: self.mindex,
                sindex: self.sindex,
                oindex: self.oindex,
                fragment: Some(header),
            };
            self.mindex = (self.mindex + 1) % 0x1000000;
            let data = crate::codec::copy_range(bytes, pos, pos + length);
            let out = OutPacket { frame, data };
            proof {
                assert(pk(out) == piece_at(
                    bytes@,
                    reliability,
                    m0,
                    si0,
                    oi0,
                    fid0,
                    payload_size as int,
                    i as int,
                ));
                assert((m0 + i) % 0x1000000 < 0x1000000);
            }
            let ghost bv_pre = bview(self.buffer@);
            let ghost ob_pre = obview(self.outbox@);
            let ghost seq_pre = self.sequence;
            self.push_outpacket(out);
            proof {
                lemma_all_packets_push(bv_pre, pk(out), self.max_payload_len as int);
                assert(pieces.take(i + 1) =~= pieces.take(i as int).push(pk(out)));
                assert((all_packets(bview(old(self).buffer@)) + pieces.take(i as int)).push(
                    pk(out),
                ) =~= all_packets(bview(old(self).buffer@)) + pieces.take(i + 1));
            }
            let ghost bv_mid = bview(self.buffer@);
            self.send_next(now_ms);
            proof {
                let j = sendable_now(bv_mid, self.cubic.cwnd, self.nodelay);
                if j >= 0 {
                    lemma_first_sendable(bv_mid);
                    let g = (
                        bv_mid[j].0,
                        Some(SentConf { sequence: seq_pre, time_ms: now_ms }),
                        bv_mid[j].2,
                    );
                    assert(bview(self.buffer@) == bv_mid.update(j, g));
                    lemma_all_packets_update(bv_mid, j, g);
                    assert(obview(self.outbox@).len() == ob_pre.len() + 1);
                    assert(self.outbox@.len() == ob_pre.len() + 1);
                    assert(obview(self.outbox@).take(old(self).outbox@.len() as int) =~= ob_pre.take(
                        old(self).outbox@.len() as int,
                    ));
                }
                assert((m0 + i) % 0x1000000 + 1 <= 0x1000000);
                assert(((m0 + i) % 0x1000000 + 1) % 0x1000000 == (m0 + (i + 1)) % 0x1000000)
                    by (nonlinear_arith);
            }
            i += 1;
        }
        self.fragment_id = (((self.fragment_id as u32) + 1) % 0x10000) as u16;
        if reliability.ordered() {
            self.oindex = (self.oindex + 1) % 0x1000000;
        }
        if reliability.sequenced() {
            self.sindex = (self.sindex + 1) % 0x1000000;
        }
        proof {
            assert(pieces.take(count as int) =~= pieces);
        }
    }
}


/// The group was transmitted under a sequence in `[lo, hi]`.
pub open spec fn acked_in(
    g: (Seq<(Frame, Seq<u8>)>, Option<SentConf>, Option<u32>),
    lo: u32,
    hi: u32,
) -> bool {
    g.1 matches Some(c) && lo <= c.sequence <= hi
}

/// The buffer without the groups acknowledged by `[lo, hi]`.
pub open spec fn remove_acked(
    bv: Seq<(Seq<(Frame, Seq<u8>)>, Option<SentConf>, Option<u32>)>,
    lo: u32,
    hi: u32,
) -> Seq<(Seq<(Frame, Seq<u8>)>, Option<SentConf>, Option<u32>)> {
    bv.filter(|g: (Seq<(Frame, Seq<u8>)>, Option<SentConf>, Option<u32>)| !acked_in(g, lo, hi))
}

/// Only the reliable packets, in order.
pub open spec fn reliable_only(s: Seq<(Frame, Seq<u8>)>) -> Seq<(Frame, Seq<u8>)> {
    s.filter(|p: (Frame, Seq<u8>)| p.0.reliability.spec_reliable())
}

/// A group stripped to its reliable packets and made sendable again.
pub open spec fn reset_group(
    g: (Seq<(Frame, Seq<u8>)>, Option<SentConf>, Option<u32>),
) -> (Seq<(Frame, Seq<u8>)>, Option<SentConf>, Option<u32>) {
    (reliable_only(g.0), None, g.2)
}

/// The buffer after a NACK of `[lo, hi]`: matched groups keep only their
/// reliable packets and become sendable again.
pub open spec fn nacked_view(
    bv: Seq<(Seq<(Frame, Seq<u8>)>, Option<SentConf>, Option<u32>)>,
    lo: u32,
    hi: u32,
) -> Seq<(Seq<(Frame, Seq<u8>)>, Option<SentConf>, Option<u32>)> {
    Seq::new(
        bv.len(),
        |i: int|
            if acked_in(bv[i], lo, hi) {
                reset_group(bv[i])
            } else {
                bv[i]
            },
    )
}

/// The transmission record with the greatest sequence among the groups
/// acknowledged by `[lo, hi]` (the most recently transmitted of them).
pub open spec fn latest_acked(
    bv: Seq<(Seq<(Frame, Seq<u8>)>, Option<SentConf>, Option<u32>)>,
    lo: u32,
    hi: u32,
) -> Option<SentConf>
    decreases bv.len(),
{
    if bv.len() == 0 {
        None
    } else {
        let rest = latest_acked(bv.drop_last(), lo, hi);
        let g = bv.last();
        if acked_in(g, lo, hi) {
            match rest {
                None => g.1,
                Some(c) => if g.1->0.sequence >= c.sequence {
                    g.1
                } else {
                    rest
                },
            }
        } else {
            rest
        }
    }
}

/// The earliest send time among the groups matched by `[lo, hi]`.
pub open spec fn oldest_acked_time(
    bv: Seq<(Seq<(Frame, Seq<u8>)>, Option<SentConf>, Option<u32>)>,
    lo: u32,
    hi: u32,
) -> Option<u64>
    decreases bv.len(),
{
    if bv.len() == 0 {
        None
    } else {
        let rest = oldest_acked_time(bv.drop_last(), lo, hi);
        let g = bv.last();
        if acked_in(g, lo, hi) {
            match rest {
                None => Some(g.1->0.time_ms),
                Some(t) => if g.1->0.time_ms < t {
                    Some(g.1->0.time_ms)
                } else {
                    rest
                },
            }
        } else {
            rest
        }
    }
}

/// Number of groups acknowledged by `[lo, hi]`, capped at `u32::MAX`.
pub open spec fn acked_count(
    bv: Seq<(Seq<(Frame, Seq<u8>)>, Option<SentConf>, Option<u32>)>,
    lo: u32,
    hi: u32,
) -> u32 {
    let c = bv.len() - remove_acked(bv, lo, hi).len();
    if c > u32::MAX {
        u32::MAX
    } else {
        c as u32
    }
}

/// The group's retransmission timer has expired.
pub open spec fn timed_out(
    g: (Seq<(Frame, Seq<u8>)>, Option<SentConf>, Option<u32>),
    now_ms: u64,
    rto_ms: u64,
) -> bool {
    g.1 matches Some(c) && crate::cubic::sat_sub(now_ms as int, c.time_ms as int) > rto_ms
}

/// The buffer after a timer pass: expired groups keep only their reliable
/// packets, become sendable again, and count one more retransmission.
pub open spec fn tick_view(
    bv: Seq<(Seq<(Frame, Seq<u8>)>, Option<SentConf>, Option<u32>)>,
    now_ms: u64,
    rto_ms: u64,
) -> Seq<(Seq<(Frame, Seq<u8>)>, Option<SentConf>, Option<u32>)> {
    Seq::new(
        bv.len(),
        |i: int|
            if timed_out(bv[i], now_ms, rto_ms) {
                (
                    reliable_only(bv[i].0),
                    None,
                    match bv[i].2 {
                        None => Some(1u32),
                        Some(k) => Some((k + 1) as u32),
                    },
                )
            } else {
                bv[i]
            },
    )
}

/// The earliest send time among the expired groups.
pub open spec fn oldest_expired_time(
    bv: Seq<(Seq<(Frame, Seq<u8>)>, Option<SentConf>, Option<u32>)>,
    now_ms: u64,
    rto_ms: u64,
) -> Option<u64>
    decreases bv.len(),
{
    if bv.len() == 0 {
        None
    } else {
        let rest = oldest_expired_time(bv.drop_last(), now_ms, rto_ms);
        let g = bv.last();
        if timed_out(g, now_ms, rto_ms) {
            match rest {
                None => Some(g.1->0.time_ms),
                Some(t) => if g.1->0.time_ms < t {
                    Some(g.1->0.time_ms)
                } else {
                    rest
                },
            }
        } else {
            rest
        }
    }
}

/// Filtering distributes over appending one element.
pub proof fn lemma_filter_push<A>(s: Seq<A>, pred: spec_fn(A) -> bool, a: A)
    ensures
        s.push(a).filter(pred) == if pred(a) {
            s.filter(pred).push(a)
        } else {
            s.filter(pred)
        },
{
    reveal(Seq::filter);
    assert(s.push(a).drop_last() =~= s);
    assert(s.push(a).last() == a);
}

impl DatagramSender {
    /// Keep only the reliable packets of a group's frame list.
    #[verifier::rlimit(60)]
    fn retain_reliable(packets: Vec<OutPacket>) -> (r: Vec<OutPacket>)
        ensures
            pks(r@) == reliable_only(pks(packets@)),
    {
        let ghost orig = pks(packets@);
        let mut kept: Vec<OutPacket> = Vec::new();
        let mut i: usize = 0;
        let n = packets.len();
        let mut packets = packets;
        #[verifier::loop_isolation(false)]
        while i < n
            invariant
                i <= n,
                n == orig.len(),
                pks(packets@) == orig.skip(i as int),
                pks(kept@) == reliable_only(orig.take(i as int)),
            decreases n - i,
        {
            let ghost pv = packets@;
            let p = packets.remove(0);
            proof {
                assert(packets@ == pv.remove(0));
                assert forall|j: int| 0 <= j < packets@.len() implies #[trigger] pks(packets@)[j]
                    == orig.skip(i + 1)[j] by {
                    assert(packets@[j] == pv[j + 1]);
                    assert(pks(pv)[j + 1] == orig.skip(i as int)[j + 1]);
                }
                assert(pks(packets@) =~= orig.skip(i + 1));
                assert(pk(p) == pks(pv)[0]);
                assert(pks(pv)[0] == orig.skip(i as int)[0]);
                assert(pk(p) == orig[i as int]);
                assert(orig.take(i + 1) =~= orig.take(i as int).push(orig[i as int]));
                lemma_filter_push(
                    orig.take(i as int),
                    |q: (Frame, Seq<u8>)| q.0.reliability.spec_reliable(),
                    orig[i as int],
                );
            }
            if p.frame.reliability.reliable() {
                kept.push(p);
                proof {
                    assert(pks(kept@) =~= reliable_only(orig.take(i + 1)));
                }
            }
            i += 1;
        }
        proof {
            assert(orig.take(n as int) =~= orig);
        }
        kept
    }

    /// Acknowledgement of the datagram sequences `[lo, hi]` (inclusive).
    /// Every group transmitted under a sequence in the range leaves the
    /// buffer.  The congestion flag clears when a retransmitted group was
    /// acknowledged and no retransmitted group remains.  When anything was
    /// acknowledged, the congestion window and the RTO estimator take the
    /// round trip of the most recently transmitted acknowledged group.
    /// Freed window is not refilled here: the caller follows with `refill`.
    #[verifier::rlimit(100)]
    pub fn ack(&mut self, lo: u32, hi: u32, now_ms: u64)
        requires
            old(self).wf(),
        ensures
            final(self).wf(),
            bview(final(self).buffer@) == remove_acked(bview(old(self).buffer@), lo, hi),
            final(self).max_payload_len == old(self).max_payload_len,
            final(self).sequence == old(self).sequence,
            final(self).mindex == old(self).mindex,
            final(self).sindex == old(self).sindex,
            final(self).oindex == old(self).oindex,
            final(self).fragment_id == old(self).fragment_id,
            final(self).nodelay == old(self).nodelay,
            final(self).outbox@ == old(self).outbox@,
            ({
                let bv = bview(old(self).buffer@);
                let rest = remove_acked(bv, lo, hi);
                let removed_resend = exists|i: int|
                    0 <= i < bv.len() && acked_in(#[trigger] bv[i], lo, hi) && bv[i].2 is Some;
                let rest_clean = forall|i: int| 0 <= i < rest.len() ==> (#[trigger] rest[i].2)
                    is None;
                &&& final(self).is_congestion == (if removed_resend && rest_clean {
                    false
                } else {
                    old(self).is_congestion
                })
                &&& (match latest_acked(bv, lo, hi) {
                    Some(c) => {
                        let rtt = crate::cubic::sat_sub(now_ms as int, c.time_ms as int) as u64;
                        &&& Cubic::on_ack_post(
                            old(self).cubic,
                            final(self).cubic,
                            acked_count(bv, lo, hi),
                            rtt,
                            now_ms,
                        )
                        &&& Rto::compute_post(old(self).rto, final(self).rto, rtt)
                    },
                    None => final(self).cubic == old(self).cubic && final(self).rto == old(
                        self,
                    ).rto,
                })
            }),
    {
        let ghost bv = bview(self.buffer@);
        let mut kept: Vec<SendGroup> = Vec::new();
        let mut best: Option<SentConf> = None;
        let mut cnt: usize = 0;
        let mut removed_resend = false;
        let n = self.buffer.len();
        let mut i: usize = 0;
        proof {
            assert(bv.take(0) =~= Seq::<
                (Seq<(Frame, Seq<u8>)>, Option<SentConf>, Option<u32>),
            >::empty());
            reveal(Seq::filter);
        }
        #[verifier::loop_isolation(false)]
        while i < n
            invariant
                i <= n,
                n == bv.len(),
                bview(self.buffer@) == bv.skip(i as int),
                bview(kept@) == remove_acked(bv.take(i as int), lo, hi),
                best == latest_acked(bv.take(i as int), lo, hi),
                cnt == i - bview(kept@).len(),
                removed_resend == (exists|j: int|
                    0 <= j < i && acked_in(#[trigger] bv[j], lo, hi) && bv[j].2 is Some),
                self.max_payload_len == old(self).max_payload_len,
                self.cubic == old(self).cubic,
                self.rto == old(self).rto,
                self.sequence == old(self).sequence,
                self.is_congestion == old(self).is_congestion,
                self.mindex == old(self).mindex,
                self.sindex == old(self).sindex,
                self.oindex == old(self).oindex,
                self.fragment_id == old(self).fragment_id,
                self.nodelay == old(self).nodelay,
                self.outbox@ == old(self).outbox@,
                forall|j: int| 0 <= j < kept@.len() ==> pks_wf((#[trigger] bview(kept@)[j]).0)
                    && pks_len(bview(kept@)[j].0) <= self.max_payload_len,
            decreases n - i,
        {
            let ghost pv = self.buffer@;
            let g = self.buffer.remove(0);
            proof {
                assert(self.buffer@ == pv.remove(0));
                assert forall|j: int| 0 <= j < self.buffer@.len() implies #[trigger] bview(
                    self.buffer@,
                )[j] == bv.skip(i + 1)[j] by {
                    assert(self.buffer@[j] == pv[j + 1]);
                    assert(bview(pv)[j + 1] == bv.skip(i as int)[j + 1]);
                }
                assert(bview(self.buffer@) =~= bv.skip(i + 1));
                assert(gv(g) == bview(pv)[0]);
                assert(bview(pv)[0] == bv.skip(i as int)[0]);
                assert(gv(g) == bv[i as int]);
                assert(bv.take(i + 1) =~= bv.take(i as int).push(bv[i as int]));
                lemma_filter_push(
                    bv.take(i as int),
                    |q: (Seq<(Frame, Seq<u8>)>, Option<SentConf>, Option<u32>)|
                        !acked_in(q, lo, hi),
                    bv[i as int],
                );
                assert(bv.take(i + 1).drop_last() =~= bv.take(i as int));
                assert(bv.take(i + 1).last() == bv[i as int]);
            }
            let mut matched = false;
            match &g.sent {
                Some(c) => {
                    if lo <= c.sequence && c.sequence <= hi {
                        matched = true;
                    }
                },
                None => {},
            }
            if matched {
                cnt += 1;
                if g.resend_count.is_some() {
                    removed_resend = true;
                }
                let c = match &g.sent {
                    Some(c) => *c,
                    None => {
                        proof {
                            assert(false);
                        }
                        SentConf { sequence: 0, time_ms: 0 }
                    },
                };
                let take_it = match &best {
                    None => true,
                    Some(b) => c.sequence >= b.sequence,
                };
                if take_it {
                    best = Some(c);
                }
            } else {
                kept.push(g);
                proof {
                    assert(bview(kept@) =~= remove_acked(bv.take(i as int), lo, hi).push(
                        bv[i as int],
                    ));
                }
            }
            i += 1;
        }
        proof {
            assert(bv.take(n as int) =~= bv);
            assert(bv.skip(n as int) =~= Seq::<
                (Seq<(Frame, Seq<u8>)>, Option<SentConf>, Option<u32>),
            >::empty());
        }
        self.buffer = kept;
        // clear the congestion flag when the retransmitted groups are gone
        if removed_resend {
            let mut clean = true;
            let mut j: usize = 0;
            #[verifier::loop_isolation(false)]
            while j < self.buffer.len()
                invariant
                    j <= self.buffer@.len(),
                    clean == (forall|k: int| 0 <= k < j ==> (#[trigger] bview(self.buffer@)[k].2)
                        is None),
                decreases self.buffer@.len() - j,
            {
                if self.buffer[j].resend_count.is_some() {
                    clean = false;
                    proof {
                        assert(bview(self.buffer@)[j as int].2 is Some);
                    }
                }
                j += 1;
            }
            if clean {
                self.is_congestion = false;
            }
        }
        // feed the congestion controller and the estimator one sample
        match best {
            Some(c) => {
                let rtt: u64 = if now_ms >= c.time_ms {
                    now_ms - c.time_ms
                } else {
                    0
                };
                let ack32: u32 = if cnt >= u32::MAX as usize {
                    u32::MAX
                } else {
                    cnt as u32
                };
                proof {
                    assert(ack32 == acked_count(bv, lo, hi));
                }
                self.cubic.on_ack(ack32, rtt, now_ms);
                self.rto.compute(rtt);
            },
            None => {},
        }
    }
}


impl DatagramSender {
    /// Negative acknowledgement of the datagram sequences `[lo, hi]`.
    /// Every group transmitted under a sequence in the range drops its
    /// unreliable packets and becomes sendable again under a future new
    /// sequence number.  A loss is a congestion event: the controller is
    /// told the oldest send time among the matched groups.  The caller
    /// follows with `refill`.
    #[verifier::rlimit(100)]
    pub fn nack(&mut self, lo: u32, hi: u32, now_ms: u64)
        requires
            old(self).wf(),
        ensures
            final(self).wf(),
            bview(final(self).buffer@) == nacked_view(bview(old(self).buffer@), lo, hi),
            final(self).max_payload_len == old(self).max_payload_len,
            final(self).sequence == old(self).sequence,
            final(self).mindex == old(self).mindex,
            final(self).sindex == old(self).sindex,
            final(self).oindex == old(self).oindex,
            final(self).fragment_id == old(self).fragment_id,
            final(self).nodelay == old(self).nodelay,
            final(self).outbox@ == old(self).outbox@,
            final(self).rto == old(self).rto,
            final(self).is_congestion == old(self).is_congestion,
            (match oldest_acked_time(bview(old(self).buffer@), lo, hi) {
                Some(t) => Cubic::on_congestion_post(
                    old(self).cubic,
                    final(self).cubic,
                    t,
                    false,
                    now_ms,
                ),
                None => final(self).cubic == old(self).cubic,
            }),
    {
        let ghost bv = bview(self.buffer@);
        let n = self.buffer.len();
        let mut oldest: Option<u64> = None;
        let mut i: usize = 0;
        proof {
            assert(bv.take(0) =~= Seq::<
                (Seq<(Frame, Seq<u8>)>, Option<SentConf>, Option<u32>),
            >::empty());
        }
        #[verifier::loop_isolation(false)]
        while i < n
            invariant
                i <= n,
                n == bv.len(),
                self.buffer@.len() == n,
                forall|j: int| 0 <= j < i ==> #[trigger] bview(self.buffer@)[j] == nacked_view(
                    bv,
                    lo,
                    hi,
                )[j],
                forall|j: int| i <= j < n ==> #[trigger] bview(self.buffer@)[j] == bv[j],
                oldest == oldest_acked_time(bv.take(i as int), lo, hi),
                self.max_payload_len == old(self).max_payload_len,
                self.cubic == old(self).cubic,
                self.rto == old(self).rto,
                self.sequence == old(self).sequence,
                self.is_congestion == old(self).is_congestion,
                self.mindex == old(self).mindex,
                self.sindex == old(self).sindex,
                self.oindex == old(self).oindex,
                self.fragment_id == old(self).fragment_id,
                self.nodelay == old(self).nodelay,
                self.outbox@ == old(self).outbox@,
                self.wf(),
            decreases n - i,
        {
            proof {
                assert(bv.take(i + 1).drop_last() =~= bv.take(i as int));
                assert(bv.take(i + 1).last() == bv[i as int]);
                assert(gv(self.buffer@[i as int]) == bview(self.buffer@)[i as int]);
            }
            let mut matched = false;
            match &self.buffer[i].sent {
                Some(c) => {
                    if lo <= c.sequence && c.sequence <= hi {
                        matched = true;
                        let t = c.time_ms;
                        let take_it = match &oldest {
                            None => true,
                            Some(b) => t < *b,
                        };
                        if take_it {
                            oldest = Some(t);
                        }
                    }
                },
                None => {},
            }
            if matched {
                let ghost pre = bview(self.buffer@);
                let ghost prevec = self.buffer@;
                let g = self.buffer.remove(i);
                proof {
                    assert(gv(g) == pre[i as int]);
                    assert(pre[i as int] == bv[i as int]);
                    assert(pks_wf(gv(g).0));
                }
                let kept = Self::retain_reliable(g.packets);
                let g2 = SendGroup { packets: kept, sent: None, resend_count: g.resend_count };
                proof {
                    lemma_pks_len_filter(gv(g).0);
                }
                self.buffer.insert(i, g2);
                proof {
                    assert forall|j: int| 0 <= j < n implies #[trigger] bview(self.buffer@)[j]
                        == (if j == i {
                        reset_group(bv[j])
                    } else {
                        pre[j]
                    }) by {
                        if j == i {
                            assert(self.buffer@[j] == g2);
                            assert(pks(g2.packets@) == reliable_only(bv[j].0));
                        } else if j < i {
                            assert(self.buffer@[j] == prevec[j]);
                        } else {
                            assert(self.buffer@[j] == prevec[j]);
                        }
                    }
                }
            }
            i += 1;
        }
        proof {
            assert(bv.take(n as int) =~= bv);
            assert(bview(self.buffer@) =~~= nacked_view(bv, lo, hi));
        }
        match oldest {
            Some(t) => {
                self.cubic.on_congestion_event(t, false, now_ms);
            },
            None => {},
        }
    }

    /// Retransmission-timer pass.  Every expired group drops its unreliable
    /// packets, becomes sendable again and counts one more retransmission;
    /// a group already retransmitted four times signals a lost connection
    /// (`true`).  The first expiry of an episode is a congestion event: the
    /// controller is told the oldest expired send time, the timeout doubles
    /// (capped), and the episode is marked open.  The caller follows with
    /// `refill`.
    #[verifier::rlimit(100)]
    pub fn tick(&mut self, now_ms: u64) -> (r: bool)
        requires
            old(self).wf(),
        ensures
            final(self).wf(),
            final(self).max_payload_len == old(self).max_payload_len,
            final(self).sequence == old(self).sequence,
            final(self).mindex == old(self).mindex,
            final(self).sindex == old(self).sindex,
            final(self).oindex == old(self).oindex,
            final(self).fragment_id == old(self).fragment_id,
            final(self).nodelay == old(self).nodelay,
            final(self).outbox@ == old(self).outbox@,
            r == (exists|i: int|
                0 <= i < bview(old(self).buffer@).len() && timed_out(
                    #[trigger] bview(old(self).buffer@)[i],
                    now_ms,
                    old(self).rto.rto_ms,
                ) && (bview(old(self).buffer@)[i].2 matches Some(k) && k >= 4)),
            !r ==> {
                let bv = bview(old(self).buffer@);
                let rto0 = old(self).rto.rto_ms;
                &&& bview(final(self).buffer@) == tick_view(bv, now_ms, rto0)
                &&& (match oldest_expired_time(bv, now_ms, rto0) {
                    Some(t) => if !old(self).is_congestion {
                        &&& Cubic::on_congestion_post(
                            old(self).cubic,
                            final(self).cubic,
                            t,
                            false,
                            now_ms,
                        )
                        &&& final(self).rto.rto_ms == (if 2 * rto0 > MAX_RTO_MS {
                            MAX_RTO_MS as int
                        } else {
                            2 * rto0
                        })
                        &&& final(self).is_congestion
                    } else {
                        final(self).cubic == old(self).cubic && final(self).rto == old(self).rto
                            && final(self).is_congestion
                    },
                    None => final(self).cubic == old(self).cubic && final(self).rto == old(
                        self,
                    ).rto && final(self).is_congestion == old(self).is_congestion,
                })
            },
    {
        let ghost bv = bview(self.buffer@);
        let rto0 = self.rto.rto_ms;
        let n = self.buffer.len();
        let mut oldest: Option<u64> = None;
        let mut i: usize = 0;
        proof {
            assert(bv.take(0) =~= Seq::<
                (Seq<(Frame, Seq<u8>)>, Option<SentConf>, Option<u32>),
            >::empty());
        }
        #[verifier::loop_isolation(false)]
        while i < n
            invariant
                i <= n,
                n == bv.len(),
                self.buffer@.len() == n,
                forall|j: int| 0 <= j < i ==> #[trigger] bview(self.buffer@)[j] == tick_view(
                    bv,
                    now_ms,
                    rto0,
                )[j],
                forall|j: int| i <= j < n ==> #[trigger] bview(self.buffer@)[j] == bv[j],
                forall|j: int| 0 <= j < i ==> !(timed_out(#[trigger] bv[j], now_ms, rto0) && (
                bv[j].2 matches Some(k) && k >= 4)),
                oldest == oldest_expired_time(bv.take(i as int), now_ms, rto0),
                rto0 == old(self).rto.rto_ms,
                self.max_payload_len == old(self).max_payload_len,
                self.cubic == old(self).cubic,
                self.rto == old(self).rto,
                self.sequence == old(self).sequence,
                self.is_congestion == old(self).is_congestion,
                self.mindex == old(self).mindex,
                self.sindex == old(self).sindex,
                self.oindex == old(self).oindex,
                self.fragment_id == old(self).fragment_id,
                self.nodelay == old(self).nodelay,
                self.outbox@ == old(self).outbox@,
                self.wf(),
            decreases n - i,
        {
            proof {
                assert(bv.take(i + 1).drop_last() =~= bv.take(i as int));
                assert(bv.take(i + 1).last() == bv[i as int]);
                assert(gv(self.buffer@[i as int]) == bview(self.buffer@)[i as int]);
            }
            let mut expired = false;
            match &self.buffer[i].sent {
                Some(c) => {
                    let age: u64 = if now_ms >= c.time_ms {
                        now_ms - c.time_ms
                    } else {
                        0
                    };
                    if age > rto0 {
                        expired = true;
                        let t = c.time_ms;
                        let take_it = match &oldest {
                            None => true,
                            Some(b) => t < *b,
                        };
                        if take_it {
                            oldest = Some(t);
                        }
                    }
                },
                None => {},
            }
            if expired {
                match &self.buffer[i].resend_count {
                    Some(k) => {
                        if *k >= 4 {
                            // connection lost
                            proof {
                                assert(timed_out(bv[i as int], now_ms, rto0));
                            }
                            return true;
                        }
                    },
                    None => {},
                }
                let ghost pre = bview(self.buffer@);
                let ghost prevec = self.buffer@;
                let g = self.buffer.remove(i);
                proof {
                    assert(gv(g) == pre[i as int]);
                    assert(pre[i as int] == bv[i as int]);
                    assert(pks_wf(gv(g).0));
                }
                let kept = Self::retain_reliable(g.packets);
                let next_count: Option<u32> = match g.resend_count {
                    None => Some(1),
                    Some(k) => Some(k + 1),
                };
                let g2 = SendGroup { packets: kept, sent: None, resend_count: next_count };
                proof {
                    lemma_pks_len_filter(gv(g).0);
                }
                self.buffer.insert(i, g2);
                proof {
                    assert forall|j: int| 0 <= j < n implies #[trigger] bview(self.buffer@)[j]
                        == (if j == i {
                        tick_view(bv, now_ms, rto0)[j]
                    } else {
                        pre[j]
                    }) by {
                        if j == i {
                            assert(self.buffer@[j] == g2);
                            assert(pks(g2.packets@) == reliable_only(bv[j].0));
                        } else if j < i {
                            assert(self.buffer@[j] == prevec[j]);
                        } else {
                            assert(self.buffer@[j] == prevec[j]);
                        }
                    }
                }
            }
            i += 1;
        }
        proof {
            assert(bv.take(n as int) =~= bv);
            assert(bview(self.buffer@) =~~= tick_view(bv, now_ms, rto0));
        }
        match oldest {
            Some(t) => {
                if !self.is_congestion {
                    self.cubic.on_congestion_event(t, false, now_ms);
                    let doubled = rto0 * 2;
                    self.rto.rto_ms = if doubled > MAX_RTO_MS {
                        MAX_RTO_MS
                    } else {
                        doubled
                    };
                    self.is_congestion = true;
                }
            },
            None => {},
        }
        proof {
            assert(!(exists|i: int|
                0 <= i < bv.len() && timed_out(#[trigger] bv[i], now_ms, rto0) && (
                bv[i].2 matches Some(k) && k >= 4)));
        }
        false
    }
}

/// Filtering to the reliable packets keeps well-formedness and never
/// lengthens the buffered total.
pub proof fn lemma_pks_len_filter(s: Seq<(Frame, Seq<u8>)>)
    requires
        pks_wf(s),
    ensures
        pks_wf(reliable_only(s)),
        0 <= pks_len(reliable_only(s)) <= pks_len(s),
    decreases s.len(),
{
    reveal(Seq::filter);
    if s.len() == 0 {
        assert(reliable_only(s) =~= s);
    } else {
        assert forall|k: int| 0 <= k < s.drop_last().len() implies (
        #[trigger] s.drop_last()[k]).0.wf() && s.drop_last()[k].0.length
            == s.drop_last()[k].1.len() by {
            assert(s.drop_last()[k] == s[k]);
        }
        lemma_pks_len_filter(s.drop_last());
        let fd = reliable_only(s.drop_last());
        let last = s.last();
        lemma_pks_len_push(s.drop_last(), last);
        assert(s.drop_last().push(last) =~= s);
        if last.0.reliability.spec_reliable() {
            assert(reliable_only(s) == fd.push(last));
            lemma_pks_len_push(fd, last);
            assert forall|k: int| 0 <= k < fd.push(last).len() implies (
            #[trigger] fd.push(last)[k]).0.wf() && fd.push(last)[k].0.length == fd.push(
                last,
            )[k].1.len() by {
                if k < fd.len() {
                    assert(fd.push(last)[k] == fd[k]);
                } else {
                    assert(fd.push(last)[k] == last);
                    assert(last == s[s.len() - 1]);
                }
            }
        } else {
            assert(reliable_only(s) == fd);
        }
    }
}

} // verus!
