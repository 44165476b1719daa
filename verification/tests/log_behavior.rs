use forensic_store::errors::ForensicError;
use forensic_store::hash_value::HashValue;
use forensic_store::log::PersistentLog;
use forensic_store::records::QuorumCert;
use forensic_store::store::{ForensicDB, ForensicStorage};

fn hash(n: u64) -> HashValue {
    HashValue::new(n, 2 * n, 3 * n, 4 * n)
}

#[test]
fn log_point_reads() {
    let mut log = PersistentLog::new();
    assert!(log.get_certificate(&hash(1)).unwrap().is_none());

    let qc = QuorumCert::new(hash(1), 11, vec![5, 6]);
    log.put_certificate(&qc);
    let back = log.get_certificate(&hash(1)).unwrap().unwrap();
    assert_eq!(back.id(), hash(1));
    assert_eq!(back.round(), 11);
    assert_eq!(back.payload(), &vec![5, 6]);

    log.put_nil_flag(&hash(1), true);
    assert_eq!(log.get_nil_flag(&hash(1)).unwrap(), Some(true));
}

#[test]
fn corrupt_certificate_value_is_decode_error() {
    let mut log = PersistentLog::new();
    log.put_raw_cert(hash(1), vec![0u8; 10]);
    assert_eq!(
        log.get_certificate(&hash(1)).unwrap_err(),
        ForensicError::DecodeError
    );
    // distinct from "not found"
    assert!(log.get_certificate(&hash(2)).unwrap().is_none());
}

#[test]
fn rewriting_an_id_keeps_one_entry_with_the_last_value() {
    let mut log = PersistentLog::new();
    log.put_certificate(&QuorumCert::new(hash(1), 4, vec![1]));
    log.put_certificate(&QuorumCert::new(hash(1), 4, vec![2]));

    let back = log.get_certificate(&hash(1)).unwrap().unwrap();
    assert_eq!(back.payload(), &vec![2]);

    let entries = log.iterate_certificates().unwrap();
    assert_eq!(entries.len(), 1);
    assert_eq!(entries[0].0, hash(1));
    assert_eq!(entries[0].1.payload(), &vec![2]);

    log.put_nil_flag(&hash(1), true);
    log.put_nil_flag(&hash(1), false);
    assert_eq!(log.get_nil_flag(&hash(1)).unwrap(), Some(false));
}

#[test]
fn iterate_certificates_walks_in_first_write_order() {
    let mut log = PersistentLog::new();
    log.put_certificate(&QuorumCert::new(hash(3), 1, vec![]));
    log.put_certificate(&QuorumCert::new(hash(1), 2, vec![]));
    log.put_certificate(&QuorumCert::new(hash(2), 1, vec![]));

    let entries = log.iterate_certificates().unwrap();
    let keys: Vec<HashValue> = entries.iter().map(|e| e.0).collect();
    assert_eq!(keys, vec![hash(3), hash(1), hash(2)]);

    let db = ForensicDB::new(log).unwrap();
    assert_eq!(db.get_latest_round().unwrap(), 2);
    let err = db.get_quorum_cert_at_round(1).unwrap_err();
    // certificates exist but no nil flags were ever saved
    assert_eq!(err, ForensicError::IndexInconsistency);
}
