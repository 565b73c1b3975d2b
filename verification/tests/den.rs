//! Round trip of every primitive wire type, mirrored over a struct whose
//! fields cover each width and endianness once.

use ucp::codec::{
    copy_bytes, get_bool, get_i16_be, get_i16_le, get_i32_be, get_i32_le, get_i64_be, get_i64_le,
    get_i8, get_u16_le, get_u32_le, get_u64_le, get_u8, put_bool, put_i16_be, put_i16_le,
    put_i32_be, put_i32_le, put_i64_be, put_i64_le, put_i8, put_u16_le, put_u32_le, put_u64_le,
    put_u8, Big, U24,
};

#[derive(Debug, PartialEq)]
struct Hoge {
    u8: u8,
    i8: i8,
    u16: u16,
    u16_le: u16,
    i16: i16,
    i16_le: i16,
    u32: u32,
    u32_le: u32,
    i32: i32,
    i32_le: i32,
    u64: u64,
    u64_le: u64,
    i64: i64,
    i64_le: i64,
    bool: bool,
    u24: u32,
}

impl Hoge {
    fn encode(&self, out: &mut Vec<u8>) {
        put_u8(out, self.u8);
        put_i8(out, self.i8);
        Big::put_u16(out, self.u16);
        put_u16_le(out, self.u16_le);
        put_i16_be(out, self.i16);
        put_i16_le(out, self.i16_le);
        Big::put_u32(out, self.u32);
        put_u32_le(out, self.u32_le);
        put_i32_be(out, self.i32);
        put_i32_le(out, self.i32_le);
        Big::put_u64(out, self.u64);
        put_u64_le(out, self.u64_le);
        put_i64_be(out, self.i64);
        put_i64_le(out, self.i64_le);
        put_bool(out, self.bool);
        U24::put(out, self.u24);
    }

    fn decode(b: &Vec<u8>) -> Hoge {
        let (u8v, p) = get_u8(b, 0).unwrap();
        let (i8v, p) = get_i8(b, p).unwrap();
        let (u16v, p) = Big::get_u16(b, p).unwrap();
        let (u16le, p) = get_u16_le(b, p).unwrap();
        let (i16v, p) = get_i16_be(b, p).unwrap();
        let (i16le, p) = get_i16_le(b, p).unwrap();
        let (u32v, p) = Big::get_u32(b, p).unwrap();
        let (u32le, p) = get_u32_le(b, p).unwrap();
        let (i32v, p) = get_i32_be(b, p).unwrap();
        let (i32le, p) = get_i32_le(b, p).unwrap();
        let (u64v, p) = Big::get_u64(b, p).unwrap();
        let (u64le, p) = get_u64_le(b, p).unwrap();
        let (i64v, p) = get_i64_be(b, p).unwrap();
        let (i64le, p) = get_i64_le(b, p).unwrap();
        let (boolv, p) = get_bool(b, p).unwrap();
        let (u24v, _) = U24::get(b, p).unwrap();
        Hoge {
            u8: u8v,
            i8: i8v,
            u16: u16v,
            u16_le: u16le,
            i16: i16v,
            i16_le: i16le,
            u32: u32v,
            u32_le: u32le,
            i32: i32v,
            i32_le: i32le,
            u64: u64v,
            u64_le: u64le,
            i64: i64v,
            i64_le: i64le,
            bool: boolv,
            u24: u24v,
        }
    }

    fn size(&self) -> usize {
        1 + 1 + 2 + 2 + 2 + 2 + 4 + 4 + 4 + 4 + 8 + 8 + 8 + 8 + 1 + 3
    }
}

#[test]
fn den() {
    let hoge = Hoge {
        u8: 0x0F,
        i8: -0x80,
        u16: 0xF000,
        u16_le: 0x000F,
        i16: -0x00F0,
        i16_le: -0x0F00,
        u32: 0xF0000000,
        u32_le: 0x0000000F,
        i32: -0x80000000,
        i32_le: -0x00000008,
        u64: 0xF,
        u64_le: 0xF00000000000000,
        i64: -0x8,
        i64_le: -0x800000000000000,
        bool: false,
        u24: 0xF00000,
    };

    let mut dst = vec![];
    hoge.encode(&mut dst);
    let encoded = copy_bytes(&dst);
    assert_eq!(hoge.size(), encoded.len());

    let hoge2 = Hoge::decode(&encoded);
    assert_eq!(hoge, hoge2)
}
