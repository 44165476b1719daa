use vstd::prelude::*;
use vstd::bytes::*;
use crate::errors::ForensicError;
use crate::hash_value::{HashValue, spec_key_bytes, spec_key_of, lemma_key_bytes_round_trip};

verus! {

/// What a stored certificate means: the id of the certified block, the round
/// it was certified at, and the opaque certificate payload.
#[verifier::ext_equal]
pub struct CertView {
    pub id: HashValue,
    pub round: u64,
    pub payload: Seq<u8>,
}

/// A quorum certificate: evidence that a quorum of participants certified the
/// block `id` at `round`. The payload carries the certificate itself, which
/// the store never interprets.
#[derive(Clone, Debug)]
pub struct QuorumCert {
    id: HashValue,
    round: u64,
    payload: Vec<u8>,
}

impl View for QuorumCert {
    type V = CertView;

    closed spec fn view(&self) -> CertView {
        CertView { id: self.id, round: self.round, payload: self.payload@ }
    }
}

/// The persisted value layout of a certificate: the 32-byte id, the round as
/// eight little-endian bytes, then the payload.
pub open spec fn spec_encode_cert(c: CertView) -> Seq<u8> {
    spec_key_bytes(c.id) + spec_u64_to_le_bytes(c.round) + c.payload
}

/// The certificate a stored value decodes to; values shorter than the fixed
/// 40-byte prefix decode to nothing.
pub open spec fn spec_decode_cert(data: Seq<u8>) -> Option<CertView> {
    if data.len() >= 40 {
        Some(
            CertView {
                id: spec_key_of(data.subrange(0, 32)),
                round: spec_u64_from_le_bytes(data.subrange(32, 40)),
                payload: data.subrange(40, data.len() as int),
            },
        )
    } else {
        None
    }
}

/// Encoding a certificate and decoding the bytes are mutually inverse.
pub proof fn lemma_cert_round_trip(c: CertView)
    ensures
        spec_encode_cert(c).len() == 40 + c.payload.len(),
        spec_decode_cert(spec_encode_cert(c)) == Some(c),
{
    lemma_auto_spec_u64_to_from_le_bytes();
    lemma_key_bytes_round_trip(c.id, Seq::<u8>::empty());
    let e = spec_encode_cert(c);
    assert(e.subrange(0, 32) =~= spec_key_bytes(c.id));
    assert(e.subrange(32, 40) =~= spec_u64_to_le_bytes(c.round));
    assert(e.subrange(40, e.len() as int) =~= c.payload);
    assert(spec_decode_cert(e) matches Some(d) && d =~= c);
}

impl QuorumCert {
    /// A certificate from its id, round and payload.
    pub fn new(id: HashValue, round: u64, payload: Vec<u8>) -> (r: QuorumCert)
        ensures
            r@ == (CertView { id, round, payload: payload@ }),
    {
        QuorumCert { id, round, payload }
    }

    /// The id of the certified block.
    pub fn id(&self) -> (r: HashValue)
        ensures
            r == self@.id,
    {
        self.id
    }

    /// The round the block was certified at.
    pub fn round(&self) -> (r: u64)
        ensures
            r == self@.round,
    {
        self.round
    }

    /// The opaque certificate payload.
    pub fn payload(&self) -> (r: &Vec<u8>)
        ensures
            r@ == self@.payload,
    {
        &self.payload
    }

    /// The bytes this certificate is persisted as.
    pub fn encode_value(&self) -> (r: Vec<u8>)
        ensures
            r@ == spec_encode_cert(self@),
    {
        proof {
            lemma_auto_spec_u64_to_from_le_bytes();
        }
        let mut out = self.id.encode_key();
        let mut round_bytes = u64_to_le_bytes(self.round);
        out.append(&mut round_bytes);
        let mut payload_bytes = self.payload.clone();
        out.append(&mut payload_bytes);
        proof {
            assert(out@ =~= spec_encode_cert(self@));
        }
        out
    }

    /// The certificate a stored value holds; too short a value is a decode
    /// failure, distinct from "not found".
    pub fn decode_value(data: &[u8]) -> (r: Result<QuorumCert, ForensicError>)
        ensures
            match spec_decode_cert(data@) {
                Some(c) => r matches Ok(qc) && qc@ == c,
                None => r == Err::<QuorumCert, ForensicError>(ForensicError::DecodeError),
            },
    {
        if data.len() < 40 {
            return Err(ForensicError::DecodeError);
        }
        let id = match HashValue::decode_key(vstd::slice::slice_subrange(data, 0, 32)) {
            Ok(h) => h,
            Err(e) => {
                return Err(e);
            },
        };
        let round = u64_from_le_bytes(vstd::slice::slice_subrange(data, 32, 40));
        let payload = vstd::slice::slice_to_vec(vstd::slice::slice_subrange(data, 40, data.len()));
        proof {
            lemma_key_bytes_round_trip(id, data@.subrange(0, 32));
            assert(spec_decode_cert(data@) matches Some(c) && c =~= (CertView {
                id,
                round,
                payload: payload@,
            }));
        }
        Ok(QuorumCert { id, round, payload })
    }
}

/// The nil-block flag stored for an id: whether the certified block was an
/// empty placeholder rather than a real proposal.
#[derive(Clone, Copy, Debug, PartialEq, Eq, Structural)]
pub struct IsNil {
    flag: bool,
}

/// The persisted value layout of a nil flag: exactly one byte, 0 for a real
/// proposal, 1 for a nil block.
pub open spec fn spec_encode_nil(is_nil: bool) -> Seq<u8> {
    seq![if is_nil { 1u8 } else { 0u8 }]
}

impl View for IsNil {
    type V = bool;

    closed spec fn view(&self) -> bool {
        self.flag
    }
}

impl IsNil {
    /// A flag from its value.
    pub fn new(is_nil: bool) -> (r: IsNil)
        ensures
            r@ == is_nil,
    {
        IsNil { flag: is_nil }
    }

    /// Whether the block is a nil placeholder.
    pub fn is_nil(&self) -> (r: bool)
        ensures
            r == self@,
    {
        self.flag
    }

    /// The single byte this flag is persisted as.
    pub fn encode_value(&self) -> (r: Vec<u8>)
        ensures
            r@ == spec_encode_nil(self@),
    {
        let mut out: Vec<u8> = Vec::new();
        out.push(if self.flag { 1u8 } else { 0u8 });
        proof {
            assert(out@ =~= spec_encode_nil(self@));
        }
        out
    }

    /// The flag a stored value holds; any length other than one byte is a
    /// decode failure, distinct from "not found".
    pub fn decode_value(data: &[u8]) -> (r: Result<IsNil, ForensicError>)
        ensures
            data@.len() == 1 ==> (r matches Ok(f) && f@ == (data@[0] != 0)),
            data@.len() != 1 ==> r == Err::<IsNil, ForensicError>(ForensicError::DecodeError),
    {
        if data.len() != 1 {
            return Err(ForensicError::DecodeError);
        }
        Ok(IsNil { flag: *vstd::slice::slice_index_get(data, 0) != 0 })
    }
}

} // verus!
