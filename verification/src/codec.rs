//! Order-preserving binary key and value codec.
//!
//! Document identifiers are embedded as big-endian 32-bit integers so that
//! ascending byte-lexicographic order on serialized keys matches ascending
//! numeric order. Counters are stored as little-endian signed 64-bit values.
use vstd::prelude::*;

verus! {

use crate::ReadError;

/// Width in bytes of an encoded document identifier.
pub const U32_LEN: usize = 4;

/// Width in bytes of an encoded counter value.
pub const I64_LEN: usize = 8;

/// The four big-endian bytes of a 32-bit value.
pub open spec fn be_u32_seq(v: u32) -> Seq<u8> {
    seq![
        ((v as int / 0x1000000) % 256) as u8,
        ((v as int / 0x10000) % 256) as u8,
        ((v as int / 0x100) % 256) as u8,
        ((v as int) % 256) as u8,
    ]
}

/// The 32-bit value read big-endian from a four-byte sequence.
pub open spec fn be_u32_of(s: Seq<u8>) -> u32 {
    (s[0] as int * 0x1000000 + s[1] as int * 0x10000 + s[2] as int * 0x100 + s[3] as int) as u32
}

/// The unsigned value read little-endian from an eight-byte sequence.
pub open spec fn le_u64_of(s: Seq<u8>) -> int {
    s[0] as int
        + s[1] as int * 0x100
        + s[2] as int * 0x10000
        + s[3] as int * 0x1000000
        + s[4] as int * 0x100000000
        + s[5] as int * 0x10000000000
        + s[6] as int * 0x1000000000000
        + s[7] as int * 0x100000000000000
}

/// The signed 64-bit value read little-endian from an eight-byte sequence
/// (two's complement).
pub open spec fn le_i64_of(s: Seq<u8>) -> int {
    let u = le_u64_of(s);
    if u < 0x8000000000000000 {
        u
    } else {
        u - 0x10000000000000000
    }
}

/// Serializes a 32-bit value as four big-endian bytes.
pub fn serialize_be_u32(v: u32) -> (r: Vec<u8>)
    ensures
        r@ == be_u32_seq(v),
{
    let mut r: Vec<u8> = Vec::new();
    r.push((v / 0x1000000) as u8);
    r.push(((v / 0x10000) % 256) as u8);
    r.push(((v / 0x100) % 256) as u8);
    r.push((v % 256) as u8);
    proof {
        assert(r@ =~= be_u32_seq(v));
    }
    r
}

/// Reads a big-endian 32-bit value at a known-valid offset.
pub fn read_be_u32_at(bytes: &Vec<u8>, offset: usize) -> (r: u32)
    requires
        offset + U32_LEN <= bytes@.len(),
    ensures
        r == be_u32_of(bytes@.subrange(offset as int, offset + U32_LEN)),
{
    let n = bytes.len();
    assert(offset + U32_LEN <= n);
    let b0 = bytes[offset] as u32;
    let b1 = bytes[offset + 1] as u32;
    let b2 = bytes[offset + 2] as u32;
    let b3 = bytes[offset + 3] as u32;
    let r = b0 * 0x1000000 + b1 * 0x10000 + b2 * 0x100 + b3;
    proof {
        let s = bytes@.subrange(offset as int, offset + U32_LEN);
        assert(s[0] == bytes@[offset as int]);
        assert(s[1] == bytes@[offset + 1]);
        assert(s[2] == bytes@[offset + 2]);
        assert(s[3] == bytes@[offset + 3]);
    }
    r
}

/// Decodes the big-endian 32-bit value at `offset`, failing with a
/// deserialization error when fewer than four bytes remain there.
pub fn deserialize_be_u32(bytes: &Vec<u8>, offset: usize) -> (r: Result<u32, ReadError>)
    ensures
        offset + U32_LEN <= bytes@.len() ==> r == Ok::<u32, ReadError>(
            be_u32_of(bytes@.subrange(offset as int, offset + U32_LEN)),
        ),
        offset + U32_LEN > bytes@.len() ==> r == Err::<u32, ReadError>(ReadError::Deserialization),
{
    if bytes.len() >= U32_LEN && offset <= bytes.len() - U32_LEN {
        Ok(read_be_u32_at(bytes, offset))
    } else {
        Err(ReadError::Deserialization)
    }
}

/// Decodes a little-endian signed 64-bit counter value, failing with a
/// deserialization error unless the payload is exactly eight bytes.
pub fn deserialize_i64_le(bytes: &Vec<u8>) -> (r: Result<i64, ReadError>)
    ensures
        bytes@.len() == I64_LEN ==> (r matches Ok(v) && v as int == le_i64_of(bytes@)),
        bytes@.len() != I64_LEN ==> r == Err::<i64, ReadError>(ReadError::Deserialization),
{
    if bytes.len() != I64_LEN {
        return Err(ReadError::Deserialization);
    }
    let lo: u64 = bytes[0] as u64
        + bytes[1] as u64 * 0x100
        + bytes[2] as u64 * 0x10000
        + bytes[3] as u64 * 0x1000000
        + bytes[4] as u64 * 0x100000000
        + bytes[5] as u64 * 0x10000000000
        + bytes[6] as u64 * 0x1000000000000
        + bytes[7] as u64 * 0x100000000000000;
    if lo < 0x8000000000000000 {
        Ok(lo as i64)
    } else {
        let flipped = (0xffffffffffffffffu64 - lo) as i64;
        Ok(-flipped - 1)
    }
}

/// A logical key of one bitmap index class: every present document of the
/// class has one backend key `subspace ++ class ++ be32(document_id)`.
pub struct BitmapKey {
    /// Namespace discriminator byte, the leading byte of the backend key.
    pub subspace: u8,
    /// Serialized class tag sitting between the subspace and the document id.
    pub class: Vec<u8>,
    /// Document identifier, serialized big-endian in the trailing four bytes.
    pub document_id: u32,
}

impl BitmapKey {
    /// The serialized form of this key.
    pub open spec fn serialized_spec(&self, with_subspace: bool) -> Seq<u8> {
        (if with_subspace {
            seq![self.subspace]
        } else {
            Seq::<u8>::empty()
        }) + self.class@ + be_u32_seq(self.document_id)
    }

    /// Serializes the key, optionally prefixed by its subspace byte.
    pub fn serialize(&self, with_subspace: bool) -> (r: Vec<u8>)
        ensures
            r@ == self.serialized_spec(with_subspace),
    {
        let mut r: Vec<u8> = Vec::new();
        if with_subspace {
            r.push(self.subspace);
        }
        let mut i: usize = 0;
        while i < self.class.len()
            invariant
                i <= self.class@.len(),
                r@ == (if with_subspace {
                    seq![self.subspace]
                } else {
                    Seq::<u8>::empty()
                }) + self.class@.take(i as int),
            decreases self.class@.len() - i,
        {
            r.push(self.class[i]);
            i += 1;
            proof {
                assert(self.class@.take(i as int) =~= self.class@.take(i - 1).push(
                    self.class@[i - 1],
                ));
            }
        }
        proof {
            assert(self.class@.take(self.class@.len() as int) =~= self.class@);
        }
        let mut doc = serialize_be_u32(self.document_id);
        r.append(&mut doc);
        proof {
            assert(r@ =~= self.serialized_spec(with_subspace));
        }
        r
    }
}

} // verus!
