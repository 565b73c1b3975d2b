//! Frame-level wire format: reliability tags and the per-frame header.

use vstd::prelude::*;
use crate::codec::{be16, be16_val, le24, le24_val, be32, be32_val, Big, U24, put_u8, get_u8};
use crate::Error;

verus! {

/// Bit set in the frame flag byte when the frame carries a fragment header.
pub const FRAGMENT_FLAG: u8 = 0x10;

/// Per-frame delivery guarantee selected by the sender.
#[derive(Clone, Copy, PartialEq, Eq, Structural, Debug)]
pub enum Reliability {
    Unreliable,
    UnreliableSequenced,
    Reliable,
    ReliableOrdered,
    ReliableSequenced,
}

impl Reliability {
    /// Wire discriminant of the reliability (the top three bits of the
    /// frame flag byte).
    pub open spec fn tag(self) -> u8 {
        match self {
            Reliability::Unreliable => 0,
            Reliability::UnreliableSequenced => 1,
            Reliability::Reliable => 2,
            Reliability::ReliableOrdered => 3,
            Reliability::ReliableSequenced => 4,
        }
    }

    pub fn to_u8(&self) -> (r: u8)
        ensures
            r == self.tag(),
    {
        match self {
            Reliability::Unreliable => 0,
            Reliability::UnreliableSequenced => 1,
            Reliability::Reliable => 2,
            Reliability::ReliableOrdered => 3,
            Reliability::ReliableSequenced => 4,
        }
    }

    /// The reliability with wire discriminant `v`, if there is one.
    pub open spec fn spec_from_u8(v: u8) -> Option<Reliability> {
        if v == 0 {
            Some(Reliability::Unreliable)
        } else if v == 1 {
            Some(Reliability::UnreliableSequenced)
        } else if v == 2 {
            Some(Reliability::Reliable)
        } else if v == 3 {
            Some(Reliability::ReliableOrdered)
        } else if v == 4 {
            Some(Reliability::ReliableSequenced)
        } else {
            None
        }
    }

    /// Decode a wire discriminant; any value above 4 is malformed.
    pub fn from_u8(v: u8) -> (r: Result<Reliability, Error>)
        ensures
            v <= 4 ==> (r matches Ok(rel) && Self::spec_from_u8(v) == Some(rel)),
            v > 4 ==> r == Err::<Reliability, Error>(Error::InvalidData),
    {
        match v {
            0 => Ok(Reliability::Unreliable),
            1 => Ok(Reliability::UnreliableSequenced),
            2 => Ok(Reliability::Reliable),
            3 => Ok(Reliability::ReliableOrdered),
            4 => Ok(Reliability::ReliableSequenced),
            _ => Err(Error::InvalidData),
        }
    }

    /// Frames with this reliability are retransmitted until acknowledged.
    pub open spec fn spec_reliable(self) -> bool {
        match self {
            Reliability::Reliable => true,
            Reliability::ReliableOrdered => true,
            Reliability::ReliableSequenced => true,
            _ => false,
        }
    }

    pub fn reliable(&self) -> (r: bool)
        ensures
            r == self.spec_reliable(),
    {
        match self {
            Reliability::Reliable | Reliability::ReliableOrdered
                | Reliability::ReliableSequenced => true,
            _ => false,
        }
    }

    /// Frames with this reliability carry a sequenced index; only the
    /// newest one on the channel is delivered.
    pub open spec fn spec_sequenced(self) -> bool {
        match self {
            Reliability::UnreliableSequenced => true,
            Reliability::ReliableSequenced => true,
            _ => false,
        }
    }

    pub fn sequenced(&self) -> (r: bool)
        ensures
            r == self.spec_sequenced(),
    {
        match self {
            Reliability::UnreliableSequenced | Reliability::ReliableSequenced => true,
            _ => false,
        }
    }

    /// Frames with this reliability carry an ordered index.
    pub open spec fn spec_ordered(self) -> bool {
        self == Reliability::ReliableOrdered || self.spec_sequenced()
    }

    pub fn ordered(&self) -> (r: bool)
        ensures
            r == self.spec_ordered(),
    {
        match self {
            Reliability::ReliableOrdered | Reliability::UnreliableSequenced
                | Reliability::ReliableSequenced => true,
            _ => false,
        }
    }
}

/// Fragment bookkeeping carried by one piece of a split message.
#[derive(Clone, Copy, PartialEq, Eq, Structural, Debug)]
pub struct FragmentHeader {
    /// Number of pieces the message was split into.
    pub size: u32,
    /// Identifier shared by every piece of one message.
    pub id: u16,
    /// Position of this piece, at least zero and below `size`.
    pub index: u32,
}

/// One frame header: a logical application message (or one fragment of
/// one) with its reliability and channel indices.  The payload itself is
/// carried separately.
#[derive(Clone, Copy, PartialEq, Eq, Structural, Debug)]
pub struct Frame {
    pub reliability: Reliability,
    /// Payload length in bytes (sent on the wire as bits).
    pub length: u16,
    /// Reliable frame index; meaningful only when the reliability is reliable.
    pub mindex: u32,
    /// Sequenced index; meaningful only when the reliability is sequenced.
    pub sindex: u32,
    /// Ordered index; meaningful only when the reliability is ordered.
    pub oindex: u32,
    pub fragment: Option<FragmentHeader>,
}

impl Frame {
    /// A header that can be put on the wire: the bit length fits in a u16
    /// and the 24-bit counters are in range.
    pub open spec fn wf(self) -> bool {
        &&& self.length <= 0x1fff
        &&& self.mindex < 0x1000000
        &&& self.sindex < 0x1000000
        &&& self.oindex < 0x1000000
    }

    /// Size in bytes of the encoded header.
    pub open spec fn spec_size(reliability: Reliability, fragment: bool) -> int {
        3 + (if reliability.spec_reliable() {
            3int
        } else {
            0int
        }) + (if reliability.spec_sequenced() {
            3int
        } else {
            0int
        }) + (if reliability.spec_ordered() {
            4int
        } else {
            0int
        }) + (if fragment {
            10int
        } else {
            0int
        })
    }

    pub fn size(reliability: Reliability, fragment: bool) -> (r: usize)
        ensures
            r == Self::spec_size(reliability, fragment),
    {
        let mut ret: usize = 1 + 2;  // flag byte + length in bits
        if reliability.reliable() {
            ret += 3;
        }
        if reliability.sequenced() {
            ret += 3;
        }
        if reliability.ordered() {
            ret += 4;
        }
        if fragment {
            ret += 10;
        }
        ret
    }

    /// Flag byte: reliability tag in the top three bits, fragment bit below.
    pub open spec fn spec_flag(self) -> u8 {
        if self.fragment is Some {
            ((self.reliability.tag() << 5) | FRAGMENT_FLAG) as u8
        } else {
            (self.reliability.tag() << 5) as u8
        }
    }

    /// The exact bytes of the encoded header.
    pub open spec fn header_wire(self) -> Seq<u8> {
        seq![self.spec_flag()] + be16((self.length * 8) as u16) + (if self.reliability.spec_reliable() {
            le24(self.mindex)
        } else {
            Seq::empty()
        }) + (if self.reliability.spec_sequenced() {
            le24(self.sindex)
        } else {
            Seq::empty()
        }) + (if self.reliability.spec_ordered() {
            le24(self.oindex) + seq![0u8]
        } else {
            Seq::empty()
        }) + (match self.fragment {
            Some(h) => be32(h.size) + be16(h.id) + be32(h.index),
            None => Seq::empty(),
        })
    }

    /// Append the encoded header to `out`.
    pub fn encode(&self, out: &mut Vec<u8>)
        requires
            self.wf(),
        ensures
            final(out)@ == old(out)@ + self.header_wire(),
    {
        let tag = self.reliability.to_u8();
        proof {
            let t = self.reliability.tag();
            assert(t <= 4 ==> ((t << 5) | 0x10) < 256 && (t << 5) < 256) by (bit_vector);
        }
        let flag: u8 = if self.fragment.is_some() {
            (tag << 5) | FRAGMENT_FLAG
        } else {
            tag << 5
        };
        put_u8(out, flag);
        Big::put_u16(out, self.length * 8);
        if self.reliability.reliable() {
            U24::put(out, self.mindex);
        }
        if self.reliability.sequenced() {
            U24::put(out, self.sindex);
        }
        if self.reliability.ordered() {
            U24::put(out, self.oindex);
            put_u8(out, 0);
        }
        match &self.fragment {
            Some(h) => {
                Big::put_u32(out, h.size);
                Big::put_u16(out, h.id);
                Big::put_u32(out, h.index);
            },
            None => {},
        }
        proof {
            assert(out@ =~= old(out)@ + self.header_wire());
        }
    }

    /// Parse one frame header at `pos`: the functional specification of
    /// `decode`.  Returns the header and the position just past it.
    pub open spec fn parse(s: Seq<u8>, pos: int) -> Option<(Frame, int)> {
        if pos + 3 > s.len() {
            None
        } else {
            let flag = s[pos];
            let frag = (flag & FRAGMENT_FLAG) != 0;
            match Reliability::spec_from_u8((flag & 224) >> 5) {
                None => None,
                Some(rel) => {
                    let length = (be16_val(s.subrange(pos + 1, pos + 3)) / 8) as u16;
                    let p1 = pos + 3;
                    let p2 = if rel.spec_reliable() {
                        p1 + 3
                    } else {
                        p1
                    };
                    let p3 = if rel.spec_sequenced() {
                        p2 + 3
                    } else {
                        p2
                    };
                    let p4 = if rel.spec_ordered() {
                        p3 + 4
                    } else {
                        p3
                    };
                    let p5 = if frag {
                        p4 + 10
                    } else {
                        p4
                    };
                    if p5 > s.len() {
                        None
                    } else {
                        let mindex = if rel.spec_reliable() {
                            le24_val(s.subrange(p1, p1 + 3))
                        } else {
                            0
                        };
                        let sindex = if rel.spec_sequenced() {
                            le24_val(s.subrange(p2, p2 + 3))
                        } else {
                            0
                        };
                        let oindex = if rel.spec_ordered() {
                            le24_val(s.subrange(p3, p3 + 3))
                        } else {
                            0
                        };
                        let fragment = if frag {
                            Some(
                                FragmentHeader {
                                    size: be32_val(s.subrange(p4, p4 + 4)),
                                    id: be16_val(s.subrange(p4 + 4, p4 + 6)),
                                    index: be32_val(s.subrange(p4 + 6, p4 + 10)),
                                },
                            )
                        } else {
                            None
                        };
                        Some(
                            (
                                Frame { reliability: rel, length, mindex, sindex, oindex, fragment },
                                p5,
                            ),
                        )
                    }
                },
            }
        }
    }

    /// Decode one frame header at `pos`.  Fails exactly where the buffer is
    /// too short or the reliability discriminant is invalid.
    pub fn decode(b: &Vec<u8>, pos: usize) -> (r: Result<(Frame, usize), Error>)
        ensures
            match r {
                Ok((f, p2)) => Self::parse(b@, pos as int) == Some((f, p2 as int)) && p2 <= b.len()
                    && pos < p2 && f.wf(),
                Err(e) => e == Error::InvalidData && Self::parse(b@, pos as int) is None,
            },
    {
        let (flag, p) = match get_u8(b, pos) {
            Some(x) => x,
            None => {
                return Err(Error::InvalidData);
            },
        };
        let frag = (flag & FRAGMENT_FLAG) != 0;
        proof {
            assert((flag & 224) >> 5 <= 7) by (bit_vector);
        }
        let rel = Reliability::from_u8((flag & 224) >> 5)?;
        let (length_bits, p) = match Big::get_u16(b, p) {
            Some(x) => x,
            None => {
                return Err(Error::InvalidData);
            },
        };
        let length = length_bits / 8;
        let mut mindex: u32 = 0;
        let mut sindex: u32 = 0;
        let mut oindex: u32 = 0;
        let mut p = p;
        if rel.reliable() {
            let (v, p2) = match U24::get(b, p) {
                Some(x) => x,
                None => {
                    return Err(Error::InvalidData);
                },
            };
            mindex = v;
            p = p2;
        }
        if rel.sequenced() {
            let (v, p2) = match U24::get(b, p) {
                Some(x) => x,
                None => {
                    return Err(Error::InvalidData);
                },
            };
            sindex = v;
            p = p2;
        }
        if rel.ordered() {
            let (v, p2) = match U24::get(b, p) {
                Some(x) => x,
                None => {
                    return Err(Error::InvalidData);
                },
            };
            oindex = v;
            // one padding byte after the ordered index
            if p2 >= b.len() {
                return Err(Error::InvalidData);
            }
            p = p2 + 1;
        }
        let fragment = if frag {
            let (size, p2) = match Big::get_u32(b, p) {
                Some(x) => x,
                None => {
                    return Err(Error::InvalidData);
                },
            };
            let (id, p3) = match Big::get_u16(b, p2) {
                Some(x) => x,
                None => {
                    return Err(Error::InvalidData);
                },
            };
            let (index, p4) = match Big::get_u32(b, p3) {
                Some(x) => x,
                None => {
                    return Err(Error::InvalidData);
                },
            };
            p = p4;
            Some(FragmentHeader { size, id, index })
        } else {
            None
        };
        Ok((Frame { reliability: rel, length, mindex, sindex, oindex, fragment }, p))
    }
}


/// A window into an embedded byte string equals the same window into the
/// string itself.
proof fn lemma_subrange_shift(s: Seq<u8>, w: Seq<u8>, pos: int, a: int, b: int)
    requires
        0 <= pos,
        pos + w.len() <= s.len(),
        s.subrange(pos, pos + w.len()) == w,
        0 <= a <= b <= w.len(),
    ensures
        s.subrange(pos + a, pos + b) == w.subrange(a, b),
{
    assert forall|i: int| 0 <= i < b - a implies s.subrange(pos + a, pos + b)[i] == w.subrange(
        a,
        b,
    )[i] by {
        assert(s.subrange(pos, pos + w.len())[a + i] == s[pos + a + i]);
        assert(s.subrange(pos + a, pos + b)[i] == s[pos + a + i]);
    }
    assert(s.subrange(pos + a, pos + b) =~= w.subrange(a, b));
}

/// Round trip of the frame header: wherever an encoded header stands in a
/// buffer, parsing at its position yields that frame back and stops
/// exactly past the header.
pub proof fn lemma_frame_roundtrip(f: Frame, s: Seq<u8>, pos: int)
    requires
        f.wf(),
        !f.reliability.spec_reliable() ==> f.mindex == 0,
        !f.reliability.spec_sequenced() ==> f.sindex == 0,
        !f.reliability.spec_ordered() ==> f.oindex == 0,
        0 <= pos,
        pos + f.header_wire().len() <= s.len(),
        s.subrange(pos, pos + f.header_wire().len()) == f.header_wire(),
    ensures
        Frame::parse(s, pos) == Some((f, pos + f.header_wire().len())),
{
    let w = f.header_wire();
    let t = f.reliability.tag();
    let frag = f.fragment is Some;
    assert(t <= 4 ==> (((((t << 5) | 16) & 224) >> 5 == t) && ((((t << 5) & 224) >> 5) == t) && ((((
    t << 5) | 16) & 16) != 0) && (((t << 5) & 16) == 0))) by (bit_vector);
    // the flag byte recovers the reliability and the fragment bit
    assert(s[pos] == f.spec_flag()) by {
        lemma_subrange_shift(s, w, pos, 0, 1);
        assert(w.subrange(0, 1) =~= seq![f.spec_flag()]);
        assert(s.subrange(pos, pos + 1)[0] == s[pos]);
    }
    assert(Reliability::spec_from_u8((f.spec_flag() & 224) >> 5) == Some(f.reliability));
    assert(((f.spec_flag() & FRAGMENT_FLAG) != 0) == frag);
    // the length in bits recovers the length in bytes
    lemma_subrange_shift(s, w, pos, 1, 3);
    assert(w.subrange(1, 3) =~= be16((f.length * 8) as u16));
    crate::codec::lemma_be16_roundtrip((f.length * 8) as u16);
    assert(be16_val(s.subrange(pos + 1, pos + 3)) / 8 == f.length);
    // the channel indices sit at their conditional offsets
    let q1 = 3int;
    let q2 = q1 + (if f.reliability.spec_reliable() {
        3int
    } else {
        0int
    });
    let q3 = q2 + (if f.reliability.spec_sequenced() {
        3int
    } else {
        0int
    });
    let q4 = q3 + (if f.reliability.spec_ordered() {
        4int
    } else {
        0int
    });
    let q5 = q4 + (if frag {
        10int
    } else {
        0int
    });
    assert(w.len() == Frame::spec_size(f.reliability, frag));
    assert(q5 == w.len());
    if f.reliability.spec_reliable() {
        lemma_subrange_shift(s, w, pos, q1, q1 + 3);
        assert(w.subrange(q1, q1 + 3) =~= le24(f.mindex));
        crate::codec::lemma_le24_roundtrip(f.mindex);
    }
    if f.reliability.spec_sequenced() {
        lemma_subrange_shift(s, w, pos, q2, q2 + 3);
        assert(w.subrange(q2, q2 + 3) =~= le24(f.sindex));
        crate::codec::lemma_le24_roundtrip(f.sindex);
    }
    if f.reliability.spec_ordered() {
        lemma_subrange_shift(s, w, pos, q3, q3 + 3);
        assert(w.subrange(q3, q3 + 3) =~= le24(f.oindex));
        crate::codec::lemma_le24_roundtrip(f.oindex);
    }
    match f.fragment {
        Some(h) => {
            lemma_subrange_shift(s, w, pos, q4, q4 + 4);
            lemma_subrange_shift(s, w, pos, q4 + 4, q4 + 6);
            lemma_subrange_shift(s, w, pos, q4 + 6, q4 + 10);
            assert(w.subrange(q4, q4 + 4) =~= be32(h.size));
            assert(w.subrange(q4 + 4, q4 + 6) =~= be16(h.id));
            assert(w.subrange(q4 + 6, q4 + 10) =~= be32(h.index));
            crate::codec::lemma_be32_roundtrip(h.size);
            crate::codec::lemma_be16_roundtrip(h.id);
            crate::codec::lemma_be32_roundtrip(h.index);
        },
        None => {},
    }
}

} // verus!
