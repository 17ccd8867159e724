//! The byte layout of compressed surface closures: a discriminant byte,
//! the closure's own fields, then its compressed color.
use vstd::prelude::*;
use vstd::slice::slice_subrange;
use crate::color::{
    decodable, decode_spec, encode_spec, law_read_gives_back_write, le_byte, le_value, size_spec,
    CompressedColor,
};

verus! {

/// A surface closure in its compressed form: a Lambert or emitting closure
/// with its color, or a GGX closure with its color and its roughness and
/// fresnel factors as 16-bit fractions.
#[derive(Debug, Copy, Clone, PartialEq, Eq)]
pub enum CompressedClosure {
    Lambert(CompressedColor),
    GGX { color: CompressedColor, roughness: u16, fresnel: u16 },
    Emit(CompressedColor),
}

/// The number of bytes of the compressed form.
pub open spec fn closure_size(c: CompressedClosure) -> nat {
    1 + match c {
        CompressedClosure::Lambert(color) => size_spec(color),
        CompressedClosure::GGX { color, .. } => 4 + size_spec(color),
        CompressedClosure::Emit(color) => size_spec(color),
    }
}

/// The bytes of the compressed form.
pub open spec fn encode_closure(c: CompressedClosure) -> Seq<u8> {
    match c {
        CompressedClosure::Lambert(color) => seq![0u8] + encode_spec(color),
        CompressedClosure::GGX { color, roughness, fresnel } => seq![
            1u8,
            le_byte(roughness as u64, 0),
            le_byte(roughness as u64, 1),
            le_byte(fresnel as u64, 0),
            le_byte(fresnel as u64, 1),
        ] + encode_spec(color),
        CompressedClosure::Emit(color) => seq![2u8] + encode_spec(color),
    }
}

/// A discriminant that the compressed form knows, with all the bytes its
/// closure needs.
pub open spec fn closure_decodable(b: Seq<u8>) -> bool {
    &&& b.len() >= 1
    &&& b[0] <= 2
    &&& if b[0] == 1 {
        b.len() >= 5 && decodable(b.skip(5))
    } else {
        decodable(b.skip(1))
    }
}

/// The closure whose compressed form starts `b`, and its size.
pub open spec fn decode_closure(b: Seq<u8>) -> (CompressedClosure, nat) {
    if b[0] == 0 {
        let (color, n) = decode_spec(b.skip(1));
        (CompressedClosure::Lambert(color), 1 + n)
    } else if b[0] == 1 {
        let (color, n) = decode_spec(b.skip(5));
        (
            CompressedClosure::GGX {
                color,
                roughness: le_value(b, 1, 2) as u16,
                fresnel: le_value(b, 3, 2) as u16,
            },
            5 + n,
        )
    } else {
        let (color, n) = decode_spec(b.skip(1));
        (CompressedClosure::Emit(color), 1 + n)
    }
}

impl CompressedClosure {
    /// The number of bytes of the compressed form.
    pub fn compressed_size(&self) -> (r: usize)
        ensures
            r == closure_size(*self),
    {
        match self {
            CompressedClosure::Lambert(color) => 1 + color.compressed_size(),
            CompressedClosure::GGX { color, .. } => 1 + 2 + 2 + color.compressed_size(),
            CompressedClosure::Emit(color) => 1 + color.compressed_size(),
        }
    }

    /// Writes the compressed form to the start of `out_data`, which must
    /// have room for it, and returns its size.
    pub fn write_compressed(&self, out_data: &mut Vec<u8>) -> (r: usize)
        requires
            old(out_data)@.len() >= closure_size(*self),
        ensures
            r == closure_size(*self),
            final(out_data)@.len() == old(out_data)@.len(),
            final(out_data)@.take(r as int) == encode_closure(*self),
            final(out_data)@.skip(r as int) == old(out_data)@.skip(r as int),
    {
        let ghost before = out_data@;
        match *self {
            CompressedClosure::Lambert(color) => {
                out_data.set(0, 0);
                color.write_compressed_at(out_data, 1);
            },
            CompressedClosure::GGX { color, roughness, fresnel } => {
                out_data.set(0, 1);
                out_data.set(1, (roughness & 0xff) as u8);
                out_data.set(2, (roughness >> 8u16) as u8);
                out_data.set(3, (fresnel & 0xff) as u8);
                out_data.set(4, (fresnel >> 8u16) as u8);
                proof {
                    lemma_u16_le(roughness);
                    lemma_u16_le(fresnel);
                }
                color.write_compressed_at(out_data, 5);
            },
            CompressedClosure::Emit(color) => {
                out_data.set(0, 2);
                color.write_compressed_at(out_data, 1);
            },
        }
        let r = self.compressed_size();
        proof {
            assert(out_data@.take(r as int) =~= encode_closure(*self));
            assert(out_data@.skip(r as int) =~= before.skip(r as int));
        }
        r
    }

    /// Reads a closure from the start of its compressed form, returning it
    /// and the number of bytes read.
    pub fn from_compressed(in_data: &[u8]) -> (r: (CompressedClosure, usize))
        requires
            closure_decodable(in_data@),
        ensures
            (r.0, r.1 as nat) == decode_closure(in_data@),
    {
        let n = in_data.len();
        if in_data[0] == 1 {
            let rest = slice_subrange(in_data, 5, n);
            proof {
                assert(rest@ =~= in_data@.skip(5));
            }
            let (color, size) = CompressedColor::from_compressed(rest);
            let roughness = (in_data[2] as u16) << 8u16 | in_data[1] as u16;
            let fresnel = (in_data[4] as u16) << 8u16 | in_data[3] as u16;
            proof {
                crate::color::lemma_le_two(in_data@, 1);
                crate::color::lemma_le_two(in_data@, 3);
            }
            (CompressedClosure::GGX { color, roughness, fresnel }, 5 + size)
        } else {
            let rest = slice_subrange(in_data, 1, n);
            proof {
                assert(rest@ =~= in_data@.skip(1));
            }
            let (color, size) = CompressedColor::from_compressed(rest);
            if in_data[0] == 0 {
                (CompressedClosure::Lambert(color), 1 + size)
            } else {
                (CompressedClosure::Emit(color), 1 + size)
            }
        }
    }
}

proof fn lemma_u16_le(v: u16)
    ensures
        (v & 0xff) as u8 == le_byte(v as u64, 0),
        (v >> 8u16) as u8 == le_byte(v as u64, 1),
{
    assert((v & 0xff) as u8 == (((v as u64) >> 0u64) & 0xff) as u8) by (bit_vector);
    assert((v >> 8u16) as u8 == (((v as u64) >> 8u64) & 0xff) as u8) by (bit_vector);
}

/// Reading back a written closure gives the closure and its size again,
/// for every closure whose color is an XYZ color of 48 bits or a blackbody
/// or temperature color.
pub proof fn law_closure_read_gives_back_write(c: CompressedClosure)
    requires
        match c {
            CompressedClosure::Lambert(color) => color matches CompressedColor::XYZ(code) ==> code
                < 0x1_0000_0000_0000,
            CompressedClosure::GGX { color, .. } => color matches CompressedColor::XYZ(code) ==> code
                < 0x1_0000_0000_0000,
            CompressedClosure::Emit(color) => color matches CompressedColor::XYZ(code) ==> code
                < 0x1_0000_0000_0000,
        },
    ensures
        closure_decodable(encode_closure(c)),
        decode_closure(encode_closure(c)) == (c, closure_size(c)),
{
    let b = encode_closure(c);
    match c {
        CompressedClosure::Lambert(color) => {
            law_read_gives_back_write(color);
            assert(b.skip(1) =~= encode_spec(color));
        },
        CompressedClosure::GGX { color, roughness, fresnel } => {
            law_read_gives_back_write(color);
            assert(b.skip(5) =~= encode_spec(color));
            crate::color::lemma_le_two(b, 1);
            crate::color::lemma_le_two(b, 3);
            crate::color::lemma_u16_round_trip(roughness);
            crate::color::lemma_u16_round_trip(fresnel);
        },
        CompressedClosure::Emit(color) => {
            law_read_gives_back_write(color);
            assert(b.skip(1) =~= encode_spec(color));
        },
    }
}

} // verus!
