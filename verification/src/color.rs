//! The byte layout of compressed colors: a discriminant byte followed by
//! the color's fields, little-endian.  The fields are held here as the
//! integer codes that the compressed form stores.
use vstd::prelude::*;

verus! {

/// A color in its compressed form: for an XYZ color, the 48-bit code of
/// its three channels; for a blackbody or temperature color, its
/// temperature in whole kelvin and the 16-bit float bits of its factor.
#[derive(Debug, Copy, Clone, PartialEq, Eq)]
pub enum CompressedColor {
    XYZ(u64),
    Blackbody { temperature: u16, factor: u16 },
    Temperature { temperature: u16, factor: u16 },
}

/// Byte `i` of the little-endian form of `v`.
pub open spec fn le_byte(v: u64, i: u64) -> u8 {
    ((v >> (8 * i)) & 0xff) as u8
}

/// The number of bytes of the compressed form.
pub open spec fn size_spec(c: CompressedColor) -> nat {
    match c {
        CompressedColor::XYZ(_) => 7,
        CompressedColor::Blackbody { .. } => 5,
        CompressedColor::Temperature { .. } => 5,
    }
}

/// The bytes of the compressed form.
pub open spec fn encode_spec(c: CompressedColor) -> Seq<u8> {
    match c {
        CompressedColor::XYZ(code) => seq![
            0u8,
            le_byte(code, 0),
            le_byte(code, 1),
            le_byte(code, 2),
            le_byte(code, 3),
            le_byte(code, 4),
            le_byte(code, 5),
        ],
        CompressedColor::Blackbody { temperature, factor } => seq![
            1u8,
            le_byte(temperature as u64, 0),
            le_byte(temperature as u64, 1),
            le_byte(factor as u64, 0),
            le_byte(factor as u64, 1),
        ],
        CompressedColor::Temperature { temperature, factor } => seq![
            2u8,
            le_byte(temperature as u64, 0),
            le_byte(temperature as u64, 1),
            le_byte(factor as u64, 0),
            le_byte(factor as u64, 1),
        ],
    }
}

/// The little-endian number of the bytes `b[from..from + n)`.
pub open spec fn le_value(b: Seq<u8>, from: int, n: nat) -> u64
    decreases n,
{
    if n == 0 {
        0
    } else {
        ((le_value(b, from + 1, (n - 1) as nat) << 8u64) | b[from] as u64) as u64
    }
}

/// The color whose compressed form starts `b`, and its size, for a known
/// discriminant.
pub open spec fn decode_spec(b: Seq<u8>) -> (CompressedColor, nat) {
    if b[0] == 0 {
        (CompressedColor::XYZ(le_value(b, 1, 6)), 7)
    } else if b[0] == 1 {
        (
            CompressedColor::Blackbody {
                temperature: le_value(b, 1, 2) as u16,
                factor: le_value(b, 3, 2) as u16,
            },
            5,
        )
    } else {
        (
            CompressedColor::Temperature {
                temperature: le_value(b, 1, 2) as u16,
                factor: le_value(b, 3, 2) as u16,
            },
            5,
        )
    }
}

/// A discriminant that the compressed form knows, with all the bytes its
/// color needs.
pub open spec fn decodable(b: Seq<u8>) -> bool {
    &&& b.len() >= 1
    &&& b[0] <= 2
    &&& b.len() >= if b[0] == 0 {
        7nat
    } else {
        5nat
    }
}

impl CompressedColor {
    /// The number of bytes of the compressed form.
    pub fn compressed_size(&self) -> (r: usize)
        ensures
            r == size_spec(*self),
    {
        match self {
            CompressedColor::XYZ(_) => 7,
            CompressedColor::Blackbody { .. } => 5,
            CompressedColor::Temperature { .. } => 5,
        }
    }

    /// Writes the compressed form to the start of `out_data`, which must
    /// have room for it, and returns its size.
    pub fn write_compressed(&self, out_data: &mut Vec<u8>) -> (r: usize)
        requires
            old(out_data)@.len() >= size_spec(*self),
        ensures
            r == size_spec(*self),
            final(out_data)@.len() == old(out_data)@.len(),
            final(out_data)@.take(r as int) == encode_spec(*self),
            final(out_data)@.skip(r as int) == old(out_data)@.skip(r as int),
    {
        let r = self.write_compressed_at(out_data, 0);
        proof {
            assert(out_data@.subrange(0, r as int) =~= out_data@.take(r as int));
        }
        r
    }

    /// Writes the compressed form into `out_data` from index `at`, which
    /// must leave room for it, and returns its size; the other bytes keep
    /// their values.
    pub fn write_compressed_at(&self, out_data: &mut Vec<u8>, at: usize) -> (r: usize)
        requires
            at + size_spec(*self) <= old(out_data)@.len(),
        ensures
            r == size_spec(*self),
            final(out_data)@.len() == old(out_data)@.len(),
            final(out_data)@.subrange(at as int, at + r) == encode_spec(*self),
            final(out_data)@.take(at as int) == old(out_data)@.take(at as int),
            final(out_data)@.skip(at + r) == old(out_data)@.skip(at + r),
    {
        let ghost before = out_data@;
        let _len = out_data.len();
        match *self {
            CompressedColor::XYZ(code) => {
                out_data.set(at, 0);
                out_data.set(at + 1, (code & 0xff) as u8);
                out_data.set(at + 2, ((code >> 8u64) & 0xff) as u8);
                out_data.set(at + 3, ((code >> 16u64) & 0xff) as u8);
                out_data.set(at + 4, ((code >> 24u64) & 0xff) as u8);
                out_data.set(at + 5, ((code >> 32u64) & 0xff) as u8);
                out_data.set(at + 6, ((code >> 40u64) & 0xff) as u8);
                proof {
                    assert((code & 0xff) as u8 == ((code >> 0u64) & 0xff) as u8) by (bit_vector);
                }
            },
            CompressedColor::Blackbody { temperature, factor } => {
                out_data.set(at, 1);
                out_data.set(at + 1, (temperature & 0xff) as u8);
                out_data.set(at + 2, (temperature >> 8u16) as u8);
                out_data.set(at + 3, (factor & 0xff) as u8);
                out_data.set(at + 4, (factor >> 8u16) as u8);
                proof {
                    lemma_u16_bytes(temperature);
                    lemma_u16_bytes(factor);
                }
            },
            CompressedColor::Temperature { temperature, factor } => {
                out_data.set(at, 2);
                out_data.set(at + 1, (temperature & 0xff) as u8);
                out_data.set(at + 2, (temperature >> 8u16) as u8);
                out_data.set(at + 3, (factor & 0xff) as u8);
                out_data.set(at + 4, (factor >> 8u16) as u8);
                proof {
                    lemma_u16_bytes(temperature);
                    lemma_u16_bytes(factor);
                }
            },
        }
        let r = self.compressed_size();
        proof {
            assert(out_data@.subrange(at as int, at + r) =~= encode_spec(*self));
            assert(out_data@.take(at as int) =~= before.take(at as int));
            assert(out_data@.skip(at + r) =~= before.skip(at + r));
        }
        r
    }

    /// Reads a color from the start of its compressed form, returning it
    /// and the number of bytes read.
    pub fn from_compressed(in_data: &[u8]) -> (r: (CompressedColor, usize))
        requires
            decodable(in_data@),
        ensures
            (r.0, r.1 as nat) == decode_spec(in_data@),
    {
        if in_data[0] == 0 {
            let ghost b = in_data@;
            let v: u64 = (in_data[6] as u64) << 40u64 | (in_data[5] as u64) << 32u64 | (
            in_data[4] as u64) << 24u64 | (in_data[3] as u64) << 16u64 | (in_data[2] as u64)
                << 8u64 | in_data[1] as u64;
            proof {
                let w1 = le_value(b, 6, 1);
                let w2 = le_value(b, 5, 2);
                let w3 = le_value(b, 4, 3);
                let w4 = le_value(b, 3, 4);
                let w5 = le_value(b, 2, 5);
                let w6 = le_value(b, 1, 6);
                let (b1, b2, b3, b4, b5, b6) = (b[1], b[2], b[3], b[4], b[5], b[6]);
                assert(le_value(b, 7, 0) == 0);
                assert(w1 == ((0u64 << 8u64) | b6 as u64) as u64);
                assert(w2 == ((w1 << 8u64) | b5 as u64) as u64);
                assert(w3 == ((w2 << 8u64) | b4 as u64) as u64);
                assert(w4 == ((w3 << 8u64) | b3 as u64) as u64);
                assert(w5 == ((w4 << 8u64) | b2 as u64) as u64);
                assert(w6 == ((w5 << 8u64) | b1 as u64) as u64);
                assert(v == w6) by (bit_vector)
                    requires
                        v == (b6 as u64) << 40u64 | (b5 as u64) << 32u64 | (b4 as u64) << 24u64 | (
                        b3 as u64) << 16u64 | (b2 as u64) << 8u64 | b1 as u64,
                        w1 == ((0u64 << 8u64) | b6 as u64) as u64,
                        w2 == ((w1 << 8u64) | b5 as u64) as u64,
                        w3 == ((w2 << 8u64) | b4 as u64) as u64,
                        w4 == ((w3 << 8u64) | b3 as u64) as u64,
                        w5 == ((w4 << 8u64) | b2 as u64) as u64,
                        w6 == ((w5 << 8u64) | b1 as u64) as u64,
                ;
            }
            (CompressedColor::XYZ(v), 7)
        } else {
            let t = (in_data[2] as u16) << 8u16 | in_data[1] as u16;
            let f = (in_data[4] as u16) << 8u16 | in_data[3] as u16;
            proof {
                lemma_le_two(in_data@, 1);
                lemma_le_two(in_data@, 3);
            }
            if in_data[0] == 1 {
                (CompressedColor::Blackbody { temperature: t, factor: f }, 5)
            } else {
                (CompressedColor::Temperature { temperature: t, factor: f }, 5)
            }
        }
    }
}

proof fn lemma_u16_bytes(v: u16)
    ensures
        (v & 0xff) as u8 == le_byte(v as u64, 0),
        (v >> 8u16) as u8 == le_byte(v as u64, 1),
{
    assert((v & 0xff) as u8 == (((v as u64) >> 0u64) & 0xff) as u8) by (bit_vector);
    assert((v >> 8u16) as u8 == (((v as u64) >> 8u64) & 0xff) as u8) by (bit_vector);
}

pub proof fn lemma_le_two(b: Seq<u8>, from: int)
    requires
        0 <= from,
        from + 2 <= b.len(),
    ensures
        ((b[from + 1] as u16) << 8u16 | b[from] as u16) == le_value(b, from, 2) as u16,
        le_value(b, from, 2) < 0x10000,
{
    let lo = b[from];
    let hi = b[from + 1];
    assert(le_value(b, from + 2, 0) == 0);
    assert(le_value(b, from + 1, 1) == ((0u64 << 8u64) | hi as u64) as u64);
    assert(le_value(b, from, 2) == ((le_value(b, from + 1, 1) << 8u64) | lo as u64) as u64);
    assert(((((0u64 << 8u64) | hi as u64) << 8u64) | lo as u64) < 0x10000 && ((hi as u16) << 8u16
        | lo as u16) == (((((0u64 << 8u64) | hi as u64) << 8u64) | lo as u64) as u16)) by (
    bit_vector);
}

/// Reading back what was written gives the color and its size again, for
/// every XYZ code of 48 bits and every blackbody or temperature color.
pub proof fn law_read_gives_back_write(c: CompressedColor)
    requires
        c matches CompressedColor::XYZ(code) ==> code < 0x1_0000_0000_0000,
    ensures
        decodable(encode_spec(c)),
        decode_spec(encode_spec(c)) == (c, size_spec(c)),
{
    let b = encode_spec(c);
    match c {
        CompressedColor::XYZ(code) => {
            let b0 = le_byte(code, 0);
            let b1 = le_byte(code, 1);
            let b2 = le_byte(code, 2);
            let b3 = le_byte(code, 3);
            let b4 = le_byte(code, 4);
            let b5 = le_byte(code, 5);
            let w1 = le_value(b, 6, 1);
            let w2 = le_value(b, 5, 2);
            let w3 = le_value(b, 4, 3);
            let w4 = le_value(b, 3, 4);
            let w5 = le_value(b, 2, 5);
            let w6 = le_value(b, 1, 6);
            assert(le_value(b, 7, 0) == 0);
            assert(w1 == ((0u64 << 8u64) | b5 as u64) as u64);
            assert(w2 == ((w1 << 8u64) | b4 as u64) as u64);
            assert(w3 == ((w2 << 8u64) | b3 as u64) as u64);
            assert(w4 == ((w3 << 8u64) | b2 as u64) as u64);
            assert(w5 == ((w4 << 8u64) | b1 as u64) as u64);
            assert(w6 == ((w5 << 8u64) | b0 as u64) as u64);
            assert(w6 == code) by (bit_vector)
                requires
                    code < 0x1_0000_0000_0000,
                    b0 == ((code >> 0u64) & 0xff) as u8,
                    b1 == ((code >> 8u64) & 0xff) as u8,
                    b2 == ((code >> 16u64) & 0xff) as u8,
                    b3 == ((code >> 24u64) & 0xff) as u8,
                    b4 == ((code >> 32u64) & 0xff) as u8,
                    b5 == ((code >> 40u64) & 0xff) as u8,
                    w1 == ((0u64 << 8u64) | b5 as u64) as u64,
                    w2 == ((w1 << 8u64) | b4 as u64) as u64,
                    w3 == ((w2 << 8u64) | b3 as u64) as u64,
                    w4 == ((w3 << 8u64) | b2 as u64) as u64,
                    w5 == ((w4 << 8u64) | b1 as u64) as u64,
                    w6 == ((w5 << 8u64) | b0 as u64) as u64,
            ;
        },
        CompressedColor::Blackbody { temperature, factor } => {
            lemma_le_two(b, 1);
            lemma_le_two(b, 3);
            lemma_u16_round_trip(temperature);
            lemma_u16_round_trip(factor);
        },
        CompressedColor::Temperature { temperature, factor } => {
            lemma_le_two(b, 1);
            lemma_le_two(b, 3);
            lemma_u16_round_trip(temperature);
            lemma_u16_round_trip(factor);
        },
    }
}

pub proof fn lemma_u16_round_trip(v: u16)
    ensures
        ((le_byte(v as u64, 1) as u16) << 8u16 | le_byte(v as u64, 0) as u16) == v,
{
    assert(((((((v as u64) >> 8u64) & 0xff) as u8) as u16) << 8u16 | ((((v as u64) >> 0u64)
        & 0xff) as u8) as u16) == v) by (bit_vector);
}

} // verus!
