use vstd::prelude::*;
use vstd::bytes::*;
use crate::errors::ForensicError;

verus! {

/// A fixed-width block hash: the identity of a proposed block, held as four
/// 64-bit words and persisted as a raw 32-byte key.
#[derive(Clone, Copy, Debug, PartialEq, Eq, Hash, Structural)]
pub struct HashValue {
    pub w0: u64,
    pub w1: u64,
    pub w2: u64,
    pub w3: u64,
}

/// The persisted key layout of a hash: the four words, each little-endian,
/// in order — 32 bytes in all.
pub open spec fn spec_key_bytes(h: HashValue) -> Seq<u8> {
    spec_u64_to_le_bytes(h.w0) + spec_u64_to_le_bytes(h.w1) + spec_u64_to_le_bytes(h.w2)
        + spec_u64_to_le_bytes(h.w3)
}

/// The hash that a 32-byte key decodes to.
pub open spec fn spec_key_of(b: Seq<u8>) -> HashValue {
    HashValue {
        w0: spec_u64_from_le_bytes(b.subrange(0, 8)),
        w1: spec_u64_from_le_bytes(b.subrange(8, 16)),
        w2: spec_u64_from_le_bytes(b.subrange(16, 24)),
        w3: spec_u64_from_le_bytes(b.subrange(24, 32)),
    }
}

/// Encoding a hash and decoding the bytes are mutually inverse.
pub proof fn lemma_key_bytes_round_trip(h: HashValue, b: Seq<u8>)
    ensures
        spec_key_bytes(h).len() == 32,
        spec_key_of(spec_key_bytes(h)) == h,
        b.len() == 32 ==> spec_key_bytes(spec_key_of(b)) == b,
{
    lemma_auto_spec_u64_to_from_le_bytes();
    let k = spec_key_bytes(h);
    assert(k.subrange(0, 8) =~= spec_u64_to_le_bytes(h.w0));
    assert(k.subrange(8, 16) =~= spec_u64_to_le_bytes(h.w1));
    assert(k.subrange(16, 24) =~= spec_u64_to_le_bytes(h.w2));
    assert(k.subrange(24, 32) =~= spec_u64_to_le_bytes(h.w3));
    if b.len() == 32 {
        assert(spec_key_bytes(spec_key_of(b)) =~= b);
    }
}

impl HashValue {
    /// A hash from its four 64-bit words.
    pub fn new(w0: u64, w1: u64, w2: u64, w3: u64) -> (r: HashValue)
        ensures
            r == (HashValue { w0, w1, w2, w3 }),
    {
        HashValue { w0, w1, w2, w3 }
    }

    /// The raw 32-byte key under which records for this hash are stored.
    pub fn encode_key(&self) -> (r: Vec<u8>)
        ensures
            r@ == spec_key_bytes(*self),
            r@.len() == 32,
    {
        proof {
            lemma_auto_spec_u64_to_from_le_bytes();
        }
        let mut out = u64_to_le_bytes(self.w0);
        let mut b1 = u64_to_le_bytes(self.w1);
        let mut b2 = u64_to_le_bytes(self.w2);
        let mut b3 = u64_to_le_bytes(self.w3);
        out.append(&mut b1);
        out.append(&mut b2);
        out.append(&mut b3);
        out
    }

    /// The hash a raw key holds; any length other than 32 bytes is a decode
    /// failure, distinct from "not found".
    pub fn decode_key(data: &[u8]) -> (r: Result<HashValue, ForensicError>)
        ensures
            data@.len() == 32 ==> (r matches Ok(h) && spec_key_bytes(h) == data@),
            data@.len() != 32 ==> r == Err::<HashValue, ForensicError>(ForensicError::DecodeError),
    {
        if data.len() != 32 {
            return Err(ForensicError::DecodeError);
        }
        let w0 = u64_from_le_bytes(vstd::slice::slice_subrange(data, 0, 8));
        let w1 = u64_from_le_bytes(vstd::slice::slice_subrange(data, 8, 16));
        let w2 = u64_from_le_bytes(vstd::slice::slice_subrange(data, 16, 24));
        let w3 = u64_from_le_bytes(vstd::slice::slice_subrange(data, 24, 32));
        let h = HashValue { w0, w1, w2, w3 };
        proof {
            assert(h == spec_key_of(data@));
            lemma_key_bytes_round_trip(h, data@);
        }
        Ok(h)
    }
}

} // verus!
