//! Bit-exact codecs for the primitive wire types.
//!
//! Every width has a pair of spec functions — one from value to bytes, one
//! from bytes to value — and executable encode/decode functions proved
//! against them, plus a round-trip lemma.  Encoders append to a `Vec<u8>`;
//! decoders read at a position and return the value with the next position.

use vstd::prelude::*;
use vstd::utf8::{valid_utf8, decode_utf8, encode_utf8};

verus! {

// ---------------------------------------------------------------------------
// Byte-level spec functions.
// ---------------------------------------------------------------------------

pub open spec fn be16(v: u16) -> Seq<u8> {
    seq![((v >> 8) & 0xff) as u8, (v & 0xff) as u8]
}

pub open spec fn be16_val(s: Seq<u8>) -> u16 {
    (((s[0] as u16) << 8) | (s[1] as u16)) as u16
}

pub open spec fn le16(v: u16) -> Seq<u8> {
    seq![(v & 0xff) as u8, ((v >> 8) & 0xff) as u8]
}

pub open spec fn le16_val(s: Seq<u8>) -> u16 {
    ((s[0] as u16) | ((s[1] as u16) << 8)) as u16
}

pub open spec fn le24(v: u32) -> Seq<u8> {
    seq![(v & 0xff) as u8, ((v >> 8) & 0xff) as u8, ((v >> 16) & 0xff) as u8]
}

pub open spec fn le24_val(s: Seq<u8>) -> u32 {
    ((s[0] as u32) | ((s[1] as u32) << 8) | ((s[2] as u32) << 16)) as u32
}

pub open spec fn be32(v: u32) -> Seq<u8> {
    seq![
        ((v >> 24) & 0xff) as u8,
        ((v >> 16) & 0xff) as u8,
        ((v >> 8) & 0xff) as u8,
        (v & 0xff) as u8,
    ]
}

pub open spec fn be32_val(s: Seq<u8>) -> u32 {
    (((s[0] as u32) << 24) | ((s[1] as u32) << 16) | ((s[2] as u32) << 8) | (s[3] as u32)) as u32
}

pub open spec fn le32(v: u32) -> Seq<u8> {
    seq![
        (v & 0xff) as u8,
        ((v >> 8) & 0xff) as u8,
        ((v >> 16) & 0xff) as u8,
        ((v >> 24) & 0xff) as u8,
    ]
}

pub open spec fn le32_val(s: Seq<u8>) -> u32 {
    ((s[0] as u32) | ((s[1] as u32) << 8) | ((s[2] as u32) << 16) | ((s[3] as u32) << 24)) as u32
}

pub open spec fn be64(v: u64) -> Seq<u8> {
    seq![
        ((v >> 56) & 0xff) as u8,
        ((v >> 48) & 0xff) as u8,
        ((v >> 40) & 0xff) as u8,
        ((v >> 32) & 0xff) as u8,
        ((v >> 24) & 0xff) as u8,
        ((v >> 16) & 0xff) as u8,
        ((v >> 8) & 0xff) as u8,
        (v & 0xff) as u8,
    ]
}

pub open spec fn be64_val(s: Seq<u8>) -> u64 {
    (((s[0] as u64) << 56) | ((s[1] as u64) << 48) | ((s[2] as u64) << 40) | ((s[3] as u64) << 32)
        | ((s[4] as u64) << 24) | ((s[5] as u64) << 16) | ((s[6] as u64) << 8) | (s[7] as u64)) as u64
}

pub open spec fn le64(v: u64) -> Seq<u8> {
    seq![
        (v & 0xff) as u8,
        ((v >> 8) & 0xff) as u8,
        ((v >> 16) & 0xff) as u8,
        ((v >> 24) & 0xff) as u8,
        ((v >> 32) & 0xff) as u8,
        ((v >> 40) & 0xff) as u8,
        ((v >> 48) & 0xff) as u8,
        ((v >> 56) & 0xff) as u8,
    ]
}

pub open spec fn le64_val(s: Seq<u8>) -> u64 {
    ((s[0] as u64) | ((s[1] as u64) << 8) | ((s[2] as u64) << 16) | ((s[3] as u64) << 24)
        | ((s[4] as u64) << 32) | ((s[5] as u64) << 40) | ((s[6] as u64) << 48)
        | ((s[7] as u64) << 56)) as u64
}

// ---------------------------------------------------------------------------
// Round-trip lemmas: reading back what was written yields the value.
// ---------------------------------------------------------------------------

pub proof fn lemma_be16_roundtrip(v: u16)
    ensures
        be16_val(be16(v)) == v,
{
    assert(((((((v >> 8) & 0xff) as u8) as u16) << 8) | (((v & 0xff) as u8) as u16)) as u16 == v)
        by (bit_vector);
}

pub proof fn lemma_le16_roundtrip(v: u16)
    ensures
        le16_val(le16(v)) == v,
{
    assert(((((v & 0xff) as u8) as u16) | (((((v >> 8) & 0xff) as u8) as u16) << 8)) as u16 == v)
        by (bit_vector);
}

pub proof fn lemma_le24_roundtrip(v: u32)
    requires
        v < 0x1000000,
    ensures
        le24_val(le24(v)) == v,
{
    assert(v < 0x1000000 ==> ((((v & 0xff) as u8) as u32) | (((((v >> 8) & 0xff) as u8) as u32)
        << 8) | (((((v >> 16) & 0xff) as u8) as u32) << 16)) as u32 == v) by (bit_vector);
}

pub proof fn lemma_be32_roundtrip(v: u32)
    ensures
        be32_val(be32(v)) == v,
{
    assert((((((((v >> 24) & 0xff) as u8) as u32) << 24) | (((((v >> 16) & 0xff) as u8) as u32)
        << 16) | (((((v >> 8) & 0xff) as u8) as u32) << 8) | (((v & 0xff) as u8) as u32)) as u32)
        == v) by (bit_vector);
}

pub proof fn lemma_le32_roundtrip(v: u32)
    ensures
        le32_val(le32(v)) == v,
{
    assert((((((v & 0xff) as u8) as u32)) | (((((v >> 8) & 0xff) as u8) as u32) << 8)
        | (((((v >> 16) & 0xff) as u8) as u32) << 16) | (((((v >> 24) & 0xff) as u8) as u32)
        << 24)) as u32 == v) by (bit_vector);
}

pub proof fn lemma_be64_roundtrip(v: u64)
    ensures
        be64_val(be64(v)) == v,
{
    assert((((((v >> 56) & 0xff) as u8) as u64) << 56 | ((((v >> 48) & 0xff) as u8) as u64) << 48
        | ((((v >> 40) & 0xff) as u8) as u64) << 40 | ((((v >> 32) & 0xff) as u8) as u64) << 32
        | ((((v >> 24) & 0xff) as u8) as u64) << 24 | ((((v >> 16) & 0xff) as u8) as u64) << 16
        | ((((v >> 8) & 0xff) as u8) as u64) << 8 | (((v & 0xff) as u8) as u64)) as u64 == v)
        by (bit_vector);
}

pub proof fn lemma_le64_roundtrip(v: u64)
    ensures
        le64_val(le64(v)) == v,
{
    assert(((((v & 0xff) as u8) as u64) | ((((v >> 8) & 0xff) as u8) as u64) << 8
        | ((((v >> 16) & 0xff) as u8) as u64) << 16 | ((((v >> 24) & 0xff) as u8) as u64) << 24
        | ((((v >> 32) & 0xff) as u8) as u64) << 32 | ((((v >> 40) & 0xff) as u8) as u64) << 40
        | ((((v >> 48) & 0xff) as u8) as u64) << 48 | ((((v >> 56) & 0xff) as u8) as u64) << 56)
        as u64 == v) by (bit_vector);
}

// ---------------------------------------------------------------------------
// Executable encoders.  Each appends the spec bytes to `out`.
// ---------------------------------------------------------------------------

pub fn put_u8(out: &mut Vec<u8>, v: u8)
    ensures
        final(out)@ == old(out)@.push(v),
{
    out.push(v);
}

pub fn put_bool(out: &mut Vec<u8>, v: bool)
    ensures
        final(out)@ == old(out)@.push(if v { 1u8 } else { 0u8 }),
{
    if v {
        out.push(1);
    } else {
        out.push(0);
    }
}

pub fn put_u16_le(out: &mut Vec<u8>, v: u16)
    ensures
        final(out)@ == old(out)@ + le16(v),
{
    proof {
        assert((v >> 8) & 0xff < 256 && v & 0xff < 256) by (bit_vector);
    }
    out.push((v & 0xff) as u8);
    out.push(((v >> 8) & 0xff) as u8);
    proof {
        assert(out@ =~= old(out)@ + le16(v));
    }
}

pub fn put_u32_le(out: &mut Vec<u8>, v: u32)
    ensures
        final(out)@ == old(out)@ + le32(v),
{
    proof {
        assert((v >> 24) & 0xff < 256 && (v >> 16) & 0xff < 256 && (v >> 8) & 0xff < 256 && v
            & 0xff < 256) by (bit_vector);
    }
    out.push((v & 0xff) as u8);
    out.push(((v >> 8) & 0xff) as u8);
    out.push(((v >> 16) & 0xff) as u8);
    out.push(((v >> 24) & 0xff) as u8);
    proof {
        assert(out@ =~= old(out)@ + le32(v));
    }
}

pub fn put_u64_le(out: &mut Vec<u8>, v: u64)
    ensures
        final(out)@ == old(out)@ + le64(v),
{
    proof {
        assert((v >> 56) & 0xff < 256 && (v >> 48) & 0xff < 256 && (v >> 40) & 0xff < 256 && (v
            >> 32) & 0xff < 256 && (v >> 24) & 0xff < 256 && (v >> 16) & 0xff < 256 && (v >> 8)
            & 0xff < 256 && v & 0xff < 256) by (bit_vector);
    }
    out.push((v & 0xff) as u8);
    out.push(((v >> 8) & 0xff) as u8);
    out.push(((v >> 16) & 0xff) as u8);
    out.push(((v >> 24) & 0xff) as u8);
    out.push(((v >> 32) & 0xff) as u8);
    out.push(((v >> 40) & 0xff) as u8);
    out.push(((v >> 48) & 0xff) as u8);
    out.push(((v >> 56) & 0xff) as u8);
    proof {
        assert(out@ =~= old(out)@ + le64(v));
    }
}

// ---------------------------------------------------------------------------
// Executable decoders.  Each reads at `pos` and returns (value, next pos);
// `None` exactly when the buffer is too short.
// ---------------------------------------------------------------------------

pub fn get_u8(b: &Vec<u8>, pos: usize) -> (r: Option<(u8, usize)>)
    ensures
        pos < b.len() ==> r == Some((b@[pos as int], (pos + 1) as usize)),
        pos >= b.len() ==> r is None,
{
    if pos < b.len() {
        Some((b[pos], pos + 1))
    } else {
        None
    }
}

pub fn get_bool(b: &Vec<u8>, pos: usize) -> (r: Option<(bool, usize)>)
    ensures
        pos < b.len() ==> r == Some((b@[pos as int] != 0, (pos + 1) as usize)),
        pos >= b.len() ==> r is None,
{
    if pos < b.len() {
        Some((b[pos] != 0, pos + 1))
    } else {
        None
    }
}

pub fn get_u16_le(b: &Vec<u8>, pos: usize) -> (r: Option<(u16, usize)>)
    ensures
        pos + 2 <= b.len() ==> r == Some(
            (le16_val(b@.subrange(pos as int, pos + 2)), (pos + 2) as usize),
        ),
        pos + 2 > b.len() ==> r is None,
{
    if pos < b.len() && b.len() - pos >= 2 {
        let v = (b[pos] as u16) | ((b[pos + 1] as u16) << 8);
        proof {
            let s = b@.subrange(pos as int, pos + 2);
            assert(s[0] == b@[pos as int] && s[1] == b@[pos as int + 1]);
        }
        Some((v, pos + 2))
    } else {
        None
    }
}

pub fn get_u32_le(b: &Vec<u8>, pos: usize) -> (r: Option<(u32, usize)>)
    ensures
        pos + 4 <= b.len() ==> r == Some(
            (le32_val(b@.subrange(pos as int, pos + 4)), (pos + 4) as usize),
        ),
        pos + 4 > b.len() ==> r is None,
{
    if pos < b.len() && b.len() - pos >= 4 {
        let v = (b[pos] as u32) | ((b[pos + 1] as u32) << 8) | ((b[pos + 2] as u32) << 16) | ((b[pos
            + 3] as u32) << 24);
        proof {
            let s = b@.subrange(pos as int, pos + 4);
            assert(s[0] == b@[pos as int] && s[1] == b@[pos as int + 1] && s[2] == b@[pos as int
                + 2] && s[3] == b@[pos as int + 3]);
        }
        Some((v, pos + 4))
    } else {
        None
    }
}

pub fn get_u64_le(b: &Vec<u8>, pos: usize) -> (r: Option<(u64, usize)>)
    ensures
        pos + 8 <= b.len() ==> r == Some(
            (le64_val(b@.subrange(pos as int, pos + 8)), (pos + 8) as usize),
        ),
        pos + 8 > b.len() ==> r is None,
{
    if pos < b.len() && b.len() - pos >= 8 {
        let v = (b[pos] as u64) | ((b[pos + 1] as u64) << 8) | ((b[pos + 2] as u64) << 16) | ((b[pos
            + 3] as u64) << 24) | ((b[pos + 4] as u64) << 32) | ((b[pos + 5] as u64) << 40)
            | ((b[pos + 6] as u64) << 48) | ((b[pos + 7] as u64) << 56);
        proof {
            let s = b@.subrange(pos as int, pos + 8);
            assert(s[0] == b@[pos as int] && s[1] == b@[pos as int + 1] && s[2] == b@[pos as int
                + 2] && s[3] == b@[pos as int + 3] && s[4] == b@[pos as int + 4] && s[5] == b@[pos
                as int + 5] && s[6] == b@[pos as int + 6] && s[7] == b@[pos as int + 7]);
        }
        Some((v, pos + 8))
    } else {
        None
    }
}

// ---------------------------------------------------------------------------
// Carrier types for the per-field endianness markers.
// ---------------------------------------------------------------------------

/// Big-endian integer codec.
pub struct Big;

impl Big {
pub fn put_u16(out: &mut Vec<u8>, v: u16)
    ensures
        final(out)@ == old(out)@ + be16(v),
{
    proof {
        assert((v >> 8) & 0xff < 256 && v & 0xff < 256) by (bit_vector);
    }
    out.push(((v >> 8) & 0xff) as u8);
    out.push((v & 0xff) as u8);
    proof {
        assert(out@ =~= old(out)@ + be16(v));
    }
}

pub fn put_u32(out: &mut Vec<u8>, v: u32)
    ensures
        final(out)@ == old(out)@ + be32(v),
{
    proof {
        assert((v >> 24) & 0xff < 256 && (v >> 16) & 0xff < 256 && (v >> 8) & 0xff < 256 && v
            & 0xff < 256) by (bit_vector);
    }
    out.push(((v >> 24) & 0xff) as u8);
    out.push(((v >> 16) & 0xff) as u8);
    out.push(((v >> 8) & 0xff) as u8);
    out.push((v & 0xff) as u8);
    proof {
        assert(out@ =~= old(out)@ + be32(v));
    }
}

pub fn put_u64(out: &mut Vec<u8>, v: u64)
    ensures
        final(out)@ == old(out)@ + be64(v),
{
    proof {
        assert((v >> 56) & 0xff < 256 && (v >> 48) & 0xff < 256 && (v >> 40) & 0xff < 256 && (v
            >> 32) & 0xff < 256 && (v >> 24) & 0xff < 256 && (v >> 16) & 0xff < 256 && (v >> 8)
            & 0xff < 256 && v & 0xff < 256) by (bit_vector);
    }
    out.push(((v >> 56) & 0xff) as u8);
    out.push(((v >> 48) & 0xff) as u8);
    out.push(((v >> 40) & 0xff) as u8);
    out.push(((v >> 32) & 0xff) as u8);
    out.push(((v >> 24) & 0xff) as u8);
    out.push(((v >> 16) & 0xff) as u8);
    out.push(((v >> 8) & 0xff) as u8);
    out.push((v & 0xff) as u8);
    proof {
        assert(out@ =~= old(out)@ + be64(v));
    }
}

pub fn get_u16(b: &Vec<u8>, pos: usize) -> (r: Option<(u16, usize)>)
    ensures
        pos + 2 <= b.len() ==> r == Some(
            (be16_val(b@.subrange(pos as int, pos + 2)), (pos + 2) as usize),
        ),
        pos + 2 > b.len() ==> r is None,
{
    if pos < b.len() && b.len() - pos >= 2 {
        let v = ((b[pos] as u16) << 8) | (b[pos + 1] as u16);
        proof {
            let s = b@.subrange(pos as int, pos + 2);
            assert(s[0] == b@[pos as int] && s[1] == b@[pos as int + 1]);
        }
        Some((v, pos + 2))
    } else {
        None
    }
}

pub fn get_u32(b: &Vec<u8>, pos: usize) -> (r: Option<(u32, usize)>)
    ensures
        pos + 4 <= b.len() ==> r == Some(
            (be32_val(b@.subrange(pos as int, pos + 4)), (pos + 4) as usize),
        ),
        pos + 4 > b.len() ==> r is None,
{
    if pos < b.len() && b.len() - pos >= 4 {
        let v = ((b[pos] as u32) << 24) | ((b[pos + 1] as u32) << 16) | ((b[pos + 2] as u32) << 8)
            | (b[pos + 3] as u32);
        proof {
            let s = b@.subrange(pos as int, pos + 4);
            assert(s[0] == b@[pos as int] && s[1] == b@[pos as int + 1] && s[2] == b@[pos as int
                + 2] && s[3] == b@[pos as int + 3]);
        }
        Some((v, pos + 4))
    } else {
        None
    }
}

pub fn get_u64(b: &Vec<u8>, pos: usize) -> (r: Option<(u64, usize)>)
    ensures
        pos + 8 <= b.len() ==> r == Some(
            (be64_val(b@.subrange(pos as int, pos + 8)), (pos + 8) as usize),
        ),
        pos + 8 > b.len() ==> r is None,
{
    if pos < b.len() && b.len() - pos >= 8 {
        let v = ((b[pos] as u64) << 56) | ((b[pos + 1] as u64) << 48) | ((b[pos + 2] as u64) << 40)
            | ((b[pos + 3] as u64) << 32) | ((b[pos + 4] as u64) << 24) | ((b[pos + 5] as u64)
            << 16) | ((b[pos + 6] as u64) << 8) | (b[pos + 7] as u64);
        proof {
            let s = b@.subrange(pos as int, pos + 8);
            assert(s[0] == b@[pos as int] && s[1] == b@[pos as int + 1] && s[2] == b@[pos as int
                + 2] && s[3] == b@[pos as int + 3] && s[4] == b@[pos as int + 4] && s[5] == b@[pos
                as int + 5] && s[6] == b@[pos as int + 6] && s[7] == b@[pos as int + 7]);
        }
        Some((v, pos + 8))
    } else {
        None
    }
}
}

/// Little-endian 24-bit counter codec.
pub struct U24;

impl U24 {
pub fn put(out: &mut Vec<u8>, v: u32)
    ensures
        final(out)@ == old(out)@ + le24(v),
{
    proof {
        assert((v >> 8) & 0xff < 256 && (v >> 16) & 0xff < 256 && v & 0xff < 256) by (bit_vector);
    }
    out.push((v & 0xff) as u8);
    out.push(((v >> 8) & 0xff) as u8);
    out.push(((v >> 16) & 0xff) as u8);
    proof {
        assert(out@ =~= old(out)@ + le24(v));
    }
}

pub fn get(b: &Vec<u8>, pos: usize) -> (r: Option<(u32, usize)>)
    ensures
        pos + 3 <= b.len() ==> r == Some(
            (le24_val(b@.subrange(pos as int, pos + 3)), (pos + 3) as usize),
        ),
        pos + 3 > b.len() ==> r is None,
        r matches Some((v, _)) ==> v < 0x1000000,
{
    if pos < b.len() && b.len() - pos >= 3 {
        let v = (b[pos] as u32) | ((b[pos + 1] as u32) << 8) | ((b[pos + 2] as u32) << 16);
        proof {
            let s = b@.subrange(pos as int, pos + 3);
            assert(s[0] == b@[pos as int] && s[1] == b@[pos as int + 1] && s[2] == b@[pos as int
                + 2]);
            let x = b@[pos as int];
            let y = b@[pos as int + 1];
            let z = b@[pos as int + 2];
            assert(((x as u32) | ((y as u32) << 8) | ((z as u32) << 16)) < 0x1000000u32)
                by (bit_vector);
        }
        Some((v, pos + 3))
    } else {
        None
    }
}
}


/// The 16-byte cookie that identifies the protocol family on the wire.
pub open spec fn magic_bytes() -> Seq<u8> {
    seq![0x00u8, 0xffu8, 0xffu8, 0x00u8, 0xfeu8, 0xfeu8, 0xfeu8, 0xfeu8,
        0xfdu8, 0xfdu8, 0xfdu8, 0xfdu8, 0x12u8, 0x34u8, 0x56u8, 0x78u8]
}

/// Marker for the fixed 16-byte protocol cookie.
pub struct MAGIC;

impl MAGIC {
    pub fn put(out: &mut Vec<u8>)
        ensures
            final(out)@ == old(out)@ + magic_bytes(),
    {
        out.push(0x00);
        out.push(0xff);
        out.push(0xff);
        out.push(0x00);
        out.push(0xfe);
        out.push(0xfe);
        out.push(0xfe);
        out.push(0xfe);
        out.push(0xfd);
        out.push(0xfd);
        out.push(0xfd);
        out.push(0xfd);
        out.push(0x12);
        out.push(0x34);
        out.push(0x56);
        out.push(0x78);
        proof {
            assert(out@ =~= old(out)@ + magic_bytes());
        }
    }

    /// Skip over the cookie.  As on the receive path of the wire format,
    /// the bytes are not compared against the expected cookie.
    pub fn get(b: &Vec<u8>, pos: usize) -> (r: Option<usize>)
        ensures
            pos + 16 <= b.len() ==> r == Some((pos + 16) as usize),
            pos + 16 > b.len() ==> r is None,
    {
        if pos < b.len() && b.len() - pos >= 16 {
            Some(pos + 16)
        } else {
            None
        }
    }
}


/// Copy a byte vector.
pub fn copy_bytes(b: &Vec<u8>) -> (r: Vec<u8>)
    ensures
        r@ == b@,
{
    let mut r: Vec<u8> = Vec::new();
    let mut i: usize = 0;
    while i < b.len()
        invariant
            i <= b.len(),
            r@ == b@.subrange(0, i as int),
        decreases b.len() - i,
    {
        r.push(b[i]);
        i += 1;
        proof {
            assert(r@ =~= b@.subrange(0, i as int));
        }
    }
    proof {
        assert(b@.subrange(0, b@.len() as int) =~= b@);
    }
    r
}


/// Copy the byte range `[start, end)`.
pub fn copy_range(b: &Vec<u8>, start: usize, end: usize) -> (r: Vec<u8>)
    requires
        start <= end <= b.len(),
    ensures
        r@ == b@.subrange(start as int, end as int),
{
    let mut r: Vec<u8> = Vec::new();
    let mut i: usize = start;
    #[verifier::loop_isolation(false)]
    while i < end
        invariant
            start <= i <= end,
            r@ == b@.subrange(start as int, i as int),
        decreases end - i,
    {
        r.push(b[i]);
        i += 1;
        proof {
            assert(r@ =~= b@.subrange(start as int, i as int));
        }
    }
    r
}


// ---------------------------------------------------------------------------
// Socket addresses (IPv4): a version byte, the four octets each
// bitwise-complemented, and a big-endian port.
// ---------------------------------------------------------------------------

/// An IPv4 endpoint as plain values.
#[derive(Clone, Copy, PartialEq, Eq, Structural, Debug)]
pub struct Address {
    pub a: u8,
    pub b: u8,
    pub c: u8,
    pub d: u8,
    pub port: u16,
}

/// The wire form of an IPv4 endpoint.
pub open spec fn addr_wire(v: Address) -> Seq<u8> {
    seq![4u8, (0xff - v.a) as u8, (0xff - v.b) as u8, (0xff - v.c) as u8, (0xff - v.d) as u8]
        + be16(v.port)
}

pub fn put_address(out: &mut Vec<u8>, v: &Address)
    ensures
        final(out)@ == old(out)@ + addr_wire(*v),
{
    out.push(4);
    out.push(0xff - v.a);
    out.push(0xff - v.b);
    out.push(0xff - v.c);
    out.push(0xff - v.d);
    Big::put_u16(out, v.port);
    proof {
        assert(out@ =~= old(out)@ + addr_wire(*v));
    }
}

/// Read an IPv4 endpoint.  Only version 4 is supported; any other version
/// byte fails the decode.
pub fn get_address(b: &Vec<u8>, pos: usize) -> (r: Option<(Address, usize)>)
    ensures
        pos + 7 <= b.len() && b@[pos as int] == 4 ==> (r matches Some((v, p2)) && p2 == pos + 7
            && v.a == 0xff - b@[pos + 1] && v.b == 0xff - b@[pos + 2] && v.c == 0xff - b@[pos + 3]
            && v.d == 0xff - b@[pos + 4] && v.port == be16_val(b@.subrange(pos + 5, pos + 7))),
        pos + 7 > b.len() || b@[pos as int] != 4 ==> r is None,
{
    if pos < b.len() && b.len() - pos >= 7 {
        if b[pos] != 4 {
            return None;
        }
        let port = match Big::get_u16(b, pos + 5) {
            Some((v, _)) => v,
            None => {
                return None;
            },
        };
        Some(
            (
                Address {
                    a: 0xff - b[pos + 1],
                    b: 0xff - b[pos + 2],
                    c: 0xff - b[pos + 3],
                    d: 0xff - b[pos + 4],
                    port,
                },
                pos + 7,
            ),
        )
    } else {
        None
    }
}

/// Complementing twice gives the address back.
pub proof fn lemma_addr_roundtrip(v: Address)
    ensures
        addr_wire(v).len() == 7,
        addr_wire(v)[0] == 4,
        0xff - addr_wire(v)[1] == v.a,
        0xff - addr_wire(v)[2] == v.b,
        0xff - addr_wire(v)[3] == v.c,
        0xff - addr_wire(v)[4] == v.d,
        be16_val(addr_wire(v).subrange(5, 7)) == v.port,
{
    lemma_be16_roundtrip(v.port);
    assert(addr_wire(v).subrange(5, 7) =~= be16(v.port));
}

// ---------------------------------------------------------------------------
// Length-prefixed UTF-8 strings.
// ---------------------------------------------------------------------------

/// The wire form of a string: big-endian byte count, then the UTF-8 bytes.
pub open spec fn string_wire(chars: Seq<char>) -> Seq<u8> {
    be16(encode_utf8(chars).len() as u16) + encode_utf8(chars)
}

/// Relies on `String::from_utf8`: it succeeds exactly on valid UTF-8 and
/// returns the string those bytes spell.
#[verifier::external_body]
fn string_from_bytes(v: Vec<u8>) -> (r: Option<String>)
    ensures
        (match r {
            Some(s) => valid_utf8(v@) && s@ == decode_utf8(v@),
            None => !valid_utf8(v@),
        }),
{
    match String::from_utf8(v) {
        Ok(s) => Some(s),
        Err(_) => None,
    }
}

pub fn put_string(out: &mut Vec<u8>, s: &String)
    requires
        encode_utf8(s@).len() <= 0xffff,
    ensures
        final(out)@ == old(out)@ + string_wire(s@),
{
    let bytes = s.as_str().as_bytes_vec();
    Big::put_u16(out, bytes.len() as u16);
    let ghost mid = out@;
    let mut i: usize = 0;
    #[verifier::loop_isolation(false)]
    while i < bytes.len()
        invariant
            i <= bytes@.len(),
            out@ == mid + bytes@.subrange(0, i as int),
        decreases bytes@.len() - i,
    {
        out.push(bytes[i]);
        i += 1;
        proof {
            assert(out@ =~= mid + bytes@.subrange(0, i as int));
        }
    }
    proof {
        assert(mid + bytes@.subrange(0, bytes@.len() as int) =~= old(out)@ + string_wire(s@));
    }
}

/// Read a length-prefixed UTF-8 string; fails when the buffer is short or
/// the bytes are not valid UTF-8.
pub fn get_string(b: &Vec<u8>, pos: usize) -> (r: Option<(String, usize)>)
    ensures
        ({
            let have_len = pos + 2 <= b.len();
            if !have_len {
                r is None
            } else {
                let n = be16_val(b@.subrange(pos as int, pos + 2)) as int;
                if pos + 2 + n > b.len() {
                    r is None
                } else {
                    let body = b@.subrange(pos + 2, pos + 2 + n);
                    if valid_utf8(body) {
                        r matches Some((s, p2)) && s@ == decode_utf8(body) && p2 == pos + 2 + n
                    } else {
                        r is None
                    }
                }
            }
        }),
{
    let (n, p) = match Big::get_u16(b, pos) {
        Some(x) => x,
        None => {
            return None;
        },
    };
    if b.len() - p < n as usize {
        return None;
    }
    let body = copy_range(b, p, p + n as usize);
    match string_from_bytes(body) {
        Some(s) => Some((s, p + n as usize)),
        None => None,
    }
}


// ---------------------------------------------------------------------------
// Signed integers ride the wire in the same two's-complement bytes as their
// unsigned counterparts.
// ---------------------------------------------------------------------------

pub fn put_i8(out: &mut Vec<u8>, v: i8)
    ensures
        final(out)@ == old(out)@.push(v as u8),
{
    out.push(v as u8);
}

pub fn get_i8(b: &Vec<u8>, pos: usize) -> (r: Option<(i8, usize)>)
    ensures
        pos < b.len() ==> r == Some((b@[pos as int] as i8, (pos + 1) as usize)),
        pos >= b.len() ==> r is None,
{
    match get_u8(b, pos) {
        Some((v, p)) => Some((v as i8, p)),
        None => None,
    }
}

pub fn put_i16_be(out: &mut Vec<u8>, v: i16)
    ensures
        final(out)@ == old(out)@ + be16(v as u16),
{
    Big::put_u16(out, v as u16);
}

pub fn get_i16_be(b: &Vec<u8>, pos: usize) -> (r: Option<(i16, usize)>)
    ensures
        pos + 2 <= b.len() ==> r == Some(
            (be16_val(b@.subrange(pos as int, pos + 2)) as i16, (pos + 2) as usize),
        ),
        pos + 2 > b.len() ==> r is None,
{
    match Big::get_u16(b, pos) {
        Some((v, p)) => Some((v as i16, p)),
        None => None,
    }
}

pub fn put_i16_le(out: &mut Vec<u8>, v: i16)
    ensures
        final(out)@ == old(out)@ + le16(v as u16),
{
    put_u16_le(out, v as u16);
}

pub fn get_i16_le(b: &Vec<u8>, pos: usize) -> (r: Option<(i16, usize)>)
    ensures
        pos + 2 <= b.len() ==> r == Some(
            (le16_val(b@.subrange(pos as int, pos + 2)) as i16, (pos + 2) as usize),
        ),
        pos + 2 > b.len() ==> r is None,
{
    match get_u16_le(b, pos) {
        Some((v, p)) => Some((v as i16, p)),
        None => None,
    }
}

pub fn put_i32_be(out: &mut Vec<u8>, v: i32)
    ensures
        final(out)@ == old(out)@ + be32(v as u32),
{
    Big::put_u32(out, v as u32);
}

pub fn get_i32_be(b: &Vec<u8>, pos: usize) -> (r: Option<(i32, usize)>)
    ensures
        pos + 4 <= b.len() ==> r == Some(
            (be32_val(b@.subrange(pos as int, pos + 4)) as i32, (pos + 4) as usize),
        ),
        pos + 4 > b.len() ==> r is None,
{
    match Big::get_u32(b, pos) {
        Some((v, p)) => Some((v as i32, p)),
        None => None,
    }
}

pub fn put_i32_le(out: &mut Vec<u8>, v: i32)
    ensures
        final(out)@ == old(out)@ + le32(v as u32),
{
    put_u32_le(out, v as u32);
}

pub fn get_i32_le(b: &Vec<u8>, pos: usize) -> (r: Option<(i32, usize)>)
    ensures
        pos + 4 <= b.len() ==> r == Some(
            (le32_val(b@.subrange(pos as int, pos + 4)) as i32, (pos + 4) as usize),
        ),
        pos + 4 > b.len() ==> r is None,
{
    match get_u32_le(b, pos) {
        Some((v, p)) => Some((v as i32, p)),
        None => None,
    }
}

pub fn put_i64_be(out: &mut Vec<u8>, v: i64)
    ensures
        final(out)@ == old(out)@ + be64(v as u64),
{
    Big::put_u64(out, v as u64);
}

pub fn get_i64_be(b: &Vec<u8>, pos: usize) -> (r: Option<(i64, usize)>)
    ensures
        pos + 8 <= b.len() ==> r == Some(
            (be64_val(b@.subrange(pos as int, pos + 8)) as i64, (pos + 8) as usize),
        ),
        pos + 8 > b.len() ==> r is None,
{
    match Big::get_u64(b, pos) {
        Some((v, p)) => Some((v as i64, p)),
        None => None,
    }
}

pub fn put_i64_le(out: &mut Vec<u8>, v: i64)
    ensures
        final(out)@ == old(out)@ + le64(v as u64),
{
    put_u64_le(out, v as u64);
}

pub fn get_i64_le(b: &Vec<u8>, pos: usize) -> (r: Option<(i64, usize)>)
    ensures
        pos + 8 <= b.len() ==> r == Some(
            (le64_val(b@.subrange(pos as int, pos + 8)) as i64, (pos + 8) as usize),
        ),
        pos + 8 > b.len() ==> r is None,
{
    match get_u64_le(b, pos) {
        Some((v, p)) => Some((v as i64, p)),
        None => None,
    }
}

} // verus!
