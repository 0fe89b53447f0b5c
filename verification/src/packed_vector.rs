//! The quantized form of an embedding vector and its byte serialization.
//!
//! A packed vector holds one byte per dimension together with the IEEE-754
//! bit patterns of the per-vector minimum and maximum; the quantization from
//! and back to raw floats is a floating-point kernel supplied outside the
//! core, which stores and transports only this form. On disk a packed vector
//! is its byte count as a little-endian `u64`, the quantized bytes, then the
//! two scalar bit patterns, `data.len() + 16` bytes in all.
use vstd::prelude::*;

use crate::DbError;
use crate::bytes::{
    lemma_u32_le_roundtrip, lemma_u64_le_roundtrip, read_u32_le, read_u64_le, u32_le, u32_of_le,
    u64_le, u64_of_le, write_u32_le, write_u64_le,
};

verus! {

/// The mathematical value of a packed vector.
pub struct PackedVectorView {
    pub data: Seq<u8>,
    pub min_bits: u32,
    pub max_bits: u32,
}

/// A quantized vector: one byte per dimension plus the bit patterns of the
/// per-vector minimum and maximum.
pub struct PackedVector {
    pub data: Vec<u8>,
    pub min_bits: u32,
    pub max_bits: u32,
}

impl View for PackedVector {
    type V = PackedVectorView;

    open spec fn view(&self) -> PackedVectorView {
        PackedVectorView { data: self.data@, min_bits: self.min_bits, max_bits: self.max_bits }
    }
}

/// The serialized bytes of a packed vector.
pub open spec fn enc_packed(p: PackedVectorView) -> Seq<u8> {
    u64_le(p.data.len() as u64) + p.data + u32_le(p.min_bits) + u32_le(p.max_bits)
}

/// The packed vector serialized as `b`, when `b` is a well-formed
/// serialization.
pub open spec fn dec_packed(b: Seq<u8>) -> Option<PackedVectorView> {
    if b.len() >= 16 && u64_of_le(b.subrange(0, 8)) as int == b.len() - 16 {
        Some(
            PackedVectorView {
                data: b.subrange(8, b.len() - 8),
                min_bits: u32_of_le(b.subrange(b.len() - 8, b.len() - 4)),
                max_bits: u32_of_le(b.subrange(b.len() - 4, b.len() as int)),
            },
        )
    } else {
        None
    }
}

/// Serialization of a packed vector takes exactly sixteen bytes beyond the
/// quantized payload, and decoding it restores the packed vector.
pub proof fn lemma_packed_roundtrip(p: PackedVectorView)
    requires
        p.data.len() <= u64::MAX,
    ensures
        enc_packed(p).len() == p.data.len() + 16,
        dec_packed(enc_packed(p)) == Some(p),
{
    let b = enc_packed(p);
    lemma_u64_le_roundtrip(p.data.len() as u64);
    lemma_u32_le_roundtrip(p.min_bits);
    lemma_u32_le_roundtrip(p.max_bits);
    assert(b.subrange(0, 8) =~= u64_le(p.data.len() as u64));
    assert(b.subrange(8, b.len() - 8) =~= p.data);
    assert(b.subrange(b.len() - 8, b.len() - 4) =~= u32_le(p.min_bits));
    assert(b.subrange(b.len() - 4, b.len() as int) =~= u32_le(p.max_bits));
    assert(dec_packed(b).unwrap() == p);
}

/// The byte count of a raw, unquantized serialization of a `d`-dimensional
/// vector: a `u64` count followed by four bytes per dimension.
pub open spec fn raw_vector_len(d: nat) -> nat {
    8 + 4 * d
}

/// Law: the packed serialization is smaller than a third of the raw
/// float serialization for every dimension above forty. (The quarter bound
/// one might hope for fails by the sixteen framing bytes: a packed vector of
/// length 1024 serializes to 1040 bytes, just over a quarter of 4104.)
pub proof fn lemma_packed_beats_raw(p: PackedVectorView)
    requires
        p.data.len() > 40,
        p.data.len() <= u64::MAX,
    ensures
        3 * enc_packed(p).len() < raw_vector_len(p.data.len()),
{
    lemma_packed_roundtrip(p);
}

impl PackedVector {
    /// The serialized bytes: count, payload, then the two scalars.
    pub fn to_bytes(&self) -> (r: Vec<u8>)
        ensures
            r@ == enc_packed(self@),
    {
        let mut out: Vec<u8> = Vec::new();
        write_u64_le(self.data.len() as u64, &mut out);
        out.extend_from_slice(self.data.as_slice());
        write_u32_le(self.min_bits, &mut out);
        write_u32_le(self.max_bits, &mut out);
        proof {
            assert(out@ =~= enc_packed(self@));
        }
        out
    }

    /// Decodes a serialized packed vector; bytes that are not a well-formed
    /// serialization are corruption.
    pub fn from_bytes(b: &Vec<u8>) -> (r: Result<PackedVector, DbError>)
        ensures
            match dec_packed(b@) {
                Some(v) => r matches Ok(p) && p@ == v,
                None => r === Err(DbError::Corruption),
            },
    {
        let n = b.len();
        if n < 16 {
            return Err(DbError::Corruption);
        }
        let q64 = read_u64_le(b, 0);
        if q64 != (n - 16) as u64 {
            return Err(DbError::Corruption);
        }
        let q = n - 16;
        let data = vstd::slice::slice_to_vec(vstd::slice::slice_subrange(b.as_slice(), 8, 8 + q));
        let min_bits = read_u32_le(b, 8 + q);
        let max_bits = read_u32_le(b, 12 + q);
        let p = PackedVector { data, min_bits, max_bits };
        proof {
            assert(b@.subrange(8, 8 + q as int) =~= b@.subrange(8, b@.len() - 8));
            assert(b@.subrange(8 + q as int, 8 + q as int + 4) =~= b@.subrange(
                b@.len() - 8,
                b@.len() - 4,
            ));
            assert(b@.subrange(12 + q as int, 12 + q as int + 4) =~= b@.subrange(
                b@.len() - 4,
                b@.len() as int,
            ));
            assert(p@ == dec_packed(b@).unwrap());
        }
        Ok(p)
    }
}

} // verus!
