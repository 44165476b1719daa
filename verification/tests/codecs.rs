use forensic_store::errors::ForensicError;
use forensic_store::hash_value::HashValue;
use forensic_store::records::{IsNil, QuorumCert};

#[test]
fn key_codec_round_trip() {
    let h = HashValue::new(1, 2, 3, u64::MAX);
    let bytes = h.encode_key();
    assert_eq!(bytes.len(), 32);
    let back = HashValue::decode_key(&bytes).unwrap();
    assert_eq!(back, h);
}

#[test]
fn key_codec_exact_bytes() {
    let h = HashValue::new(0x0102_0304_0506_0708, 0, 0, 0);
    let bytes = h.encode_key();
    // little-endian words, in order
    assert_eq!(&bytes[0..8], &[8, 7, 6, 5, 4, 3, 2, 1]);
    assert_eq!(&bytes[8..32], &[0u8; 24]);
}

#[test]
fn key_codec_rejects_wrong_length() {
    assert_eq!(
        HashValue::decode_key(&[0u8; 31]).unwrap_err(),
        ForensicError::DecodeError
    );
    assert_eq!(
        HashValue::decode_key(&[0u8; 33]).unwrap_err(),
        ForensicError::DecodeError
    );
}

#[test]
fn cert_codec_round_trip() {
    let qc = QuorumCert::new(HashValue::new(4, 3, 2, 1), 77, vec![9, 8, 7]);
    let bytes = qc.encode_value();
    assert_eq!(bytes.len(), 40 + 3);
    let back = QuorumCert::decode_value(&bytes).unwrap();
    assert_eq!(back.id(), HashValue::new(4, 3, 2, 1));
    assert_eq!(back.round(), 77);
    assert_eq!(back.payload(), &vec![9, 8, 7]);
}

#[test]
fn cert_codec_empty_payload_round_trip() {
    let qc = QuorumCert::new(HashValue::new(0, 0, 0, 0), 0, vec![]);
    let bytes = qc.encode_value();
    assert_eq!(bytes.len(), 40);
    let back = QuorumCert::decode_value(&bytes).unwrap();
    assert_eq!(back.round(), 0);
    assert!(back.payload().is_empty());
}

#[test]
fn cert_codec_layout_holds_round_little_endian() {
    let qc = QuorumCert::new(HashValue::new(0, 0, 0, 0), 0x0a0b, vec![0xff]);
    let bytes = qc.encode_value();
    assert_eq!(&bytes[32..40], &[0x0b, 0x0a, 0, 0, 0, 0, 0, 0]);
    assert_eq!(bytes[40], 0xff);
}

#[test]
fn cert_codec_rejects_short_values() {
    assert_eq!(
        QuorumCert::decode_value(&[0u8; 39]).unwrap_err(),
        ForensicError::DecodeError
    );
    assert_eq!(
        QuorumCert::decode_value(&[]).unwrap_err(),
        ForensicError::DecodeError
    );
}

#[test]
fn nil_codec_is_one_byte() {
    assert_eq!(IsNil::new(true).encode_value(), vec![1u8]);
    assert_eq!(IsNil::new(false).encode_value(), vec![0u8]);
    assert!(IsNil::new(true).is_nil());
    assert!(!IsNil::new(false).is_nil());
}

#[test]
fn nil_codec_decodes_any_single_byte() {
    assert!(!IsNil::decode_value(&[0]).unwrap().is_nil());
    assert!(IsNil::decode_value(&[1]).unwrap().is_nil());
    assert!(IsNil::decode_value(&[7]).unwrap().is_nil());
}

#[test]
fn nil_codec_rejects_wrong_length() {
    assert_eq!(IsNil::decode_value(&[]).unwrap_err(), ForensicError::DecodeError);
    assert_eq!(
        IsNil::decode_value(&[0, 0]).unwrap_err(),
        ForensicError::DecodeError
    );
}
