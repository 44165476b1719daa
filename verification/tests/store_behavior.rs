use forensic_store::errors::ForensicError;
use forensic_store::hash_value::HashValue;
use forensic_store::log::PersistentLog;
use forensic_store::records::QuorumCert;
use forensic_store::store::{ForensicDB, ForensicStorage};

fn hash(n: u64) -> HashValue {
    HashValue::new(n, n.wrapping_mul(31), n ^ 0xdead_beef, n + 7)
}

fn cert(id: HashValue, round: u64) -> QuorumCert {
    QuorumCert::new(id, round, vec![0xab, round as u8])
}

fn open_empty() -> ForensicDB {
    ForensicDB::new(PersistentLog::new()).unwrap()
}

#[test]
fn test_put_get() {
    let mut db = open_empty();

    let genesis = cert(hash(1), 0);
    let qcs = vec![genesis];
    db.save_quorum_cert(&qcs).unwrap();
    db.save_block(&hash(1), false).unwrap();

    assert_eq!(db.get_quorum_cert_at_round(0).unwrap().len(), 1);
    assert_eq!(db.get_latest_round().unwrap(), 0);
}

#[test]
fn round_zero_scenario() {
    let mut db = open_empty();
    let c0 = cert(hash(1), 0);
    db.save_quorum_cert(&vec![c0]).unwrap();
    db.save_block(&hash(1), false).unwrap();

    let records = db.get_quorum_cert_at_round(0).unwrap();
    assert_eq!(records.len(), 1);
    assert_eq!(records[0].qc.id(), hash(1));
    assert_eq!(records[0].qc.round(), 0);
    assert_eq!(records[0].qc.payload(), &vec![0xab, 0]);
    assert!(!records[0].is_nil);
    assert_eq!(db.get_latest_round().unwrap(), 0);
}

#[test]
fn unsaved_round_returns_empty() {
    let db = open_empty();
    let records = db.get_quorum_cert_at_round(7).unwrap();
    assert_eq!(records.len(), 0);

    let mut db = open_empty();
    db.save_quorum_cert(&vec![cert(hash(2), 3)]).unwrap();
    db.save_block(&hash(2), false).unwrap();
    assert_eq!(db.get_quorum_cert_at_round(4).unwrap().len(), 0);
}

#[test]
fn latest_round_tracks_maximum() {
    let mut db = open_empty();
    assert_eq!(db.get_latest_round().unwrap(), 0);

    db.save_quorum_cert(&vec![cert(hash(1), 3)]).unwrap();
    assert_eq!(db.get_latest_round().unwrap(), 3);

    db.save_quorum_cert(&vec![cert(hash(2), 1)]).unwrap();
    assert_eq!(db.get_latest_round().unwrap(), 3);

    db.save_quorum_cert(&vec![cert(hash(3), 5)]).unwrap();
    assert_eq!(db.get_latest_round().unwrap(), 5);

    db.save_quorum_cert(&vec![cert(hash(4), 2)]).unwrap();
    assert_eq!(db.get_latest_round().unwrap(), 5);
}

#[test]
fn empty_batch_is_noop() {
    let mut db = open_empty();
    db.save_quorum_cert(&vec![cert(hash(1), 4)]).unwrap();
    db.save_block(&hash(1), true).unwrap();

    assert!(db.save_quorum_cert(&vec![]).is_ok());

    assert_eq!(db.get_latest_round().unwrap(), 4);
    let records = db.get_quorum_cert_at_round(4).unwrap();
    assert_eq!(records.len(), 1);
    assert_eq!(records[0].qc.id(), hash(1));
}

#[test]
fn missing_nil_flag_is_index_inconsistency() {
    let mut db = open_empty();
    db.save_quorum_cert(&vec![cert(hash(9), 5)]).unwrap();

    let err = db.get_quorum_cert_at_round(5).unwrap_err();
    assert_eq!(err, ForensicError::IndexInconsistency);
}

#[test]
fn nil_flag_saved_before_certificate() {
    let mut db = open_empty();
    db.save_block(&hash(3), true).unwrap();
    db.save_quorum_cert(&vec![cert(hash(3), 9)]).unwrap();

    let records = db.get_quorum_cert_at_round(9).unwrap();
    assert_eq!(records.len(), 1);
    assert_eq!(records[0].qc.id(), hash(3));
    assert!(records[0].is_nil);
}

#[test]
fn restart_rebuild_reproduces_index() {
    let mut db = open_empty();
    db.save_quorum_cert(&vec![cert(hash(1), 1), cert(hash(2), 1), cert(hash(3), 2)]).unwrap();
    db.save_block(&hash(1), false).unwrap();
    db.save_block(&hash(2), true).unwrap();
    db.save_block(&hash(3), false).unwrap();

    let before_round1: Vec<(HashValue, u64, bool)> = db
        .get_quorum_cert_at_round(1)
        .unwrap()
        .iter()
        .map(|r| (r.qc.id(), r.qc.round(), r.is_nil))
        .collect();
    let before_round2: Vec<(HashValue, u64, bool)> = db
        .get_quorum_cert_at_round(2)
        .unwrap()
        .iter()
        .map(|r| (r.qc.id(), r.qc.round(), r.is_nil))
        .collect();
    let before_latest = db.get_latest_round().unwrap();

    let persisted = db.close();
    let db = ForensicDB::new(persisted).unwrap();

    let after_round1: Vec<(HashValue, u64, bool)> = db
        .get_quorum_cert_at_round(1)
        .unwrap()
        .iter()
        .map(|r| (r.qc.id(), r.qc.round(), r.is_nil))
        .collect();
    let after_round2: Vec<(HashValue, u64, bool)> = db
        .get_quorum_cert_at_round(2)
        .unwrap()
        .iter()
        .map(|r| (r.qc.id(), r.qc.round(), r.is_nil))
        .collect();

    assert_eq!(before_round1, after_round1);
    assert_eq!(before_round2, after_round2);
    assert_eq!(before_latest, db.get_latest_round().unwrap());
    assert_eq!(after_round1.len(), 2);
    assert_eq!(after_round2.len(), 1);
}

#[test]
fn duplicate_save_keeps_one_record() {
    let mut db = open_empty();
    let c = cert(hash(5), 6);
    db.save_quorum_cert(&vec![c.clone()]).unwrap();
    db.save_quorum_cert(&vec![c]).unwrap();
    db.save_block(&hash(5), false).unwrap();

    let records = db.get_quorum_cert_at_round(6).unwrap();
    assert_eq!(records.len(), 1);
    assert_eq!(records[0].qc.id(), hash(5));
}

#[test]
fn records_come_in_submission_order() {
    let mut db = open_empty();
    db.save_quorum_cert(&vec![cert(hash(8), 2), cert(hash(4), 2), cert(hash(6), 2)]).unwrap();
    db.save_block(&hash(8), false).unwrap();
    db.save_block(&hash(4), true).unwrap();
    db.save_block(&hash(6), false).unwrap();

    let records = db.get_quorum_cert_at_round(2).unwrap();
    let ids: Vec<HashValue> = records.iter().map(|r| r.qc.id()).collect();
    assert_eq!(ids, vec![hash(8), hash(4), hash(6)]);
    assert!(records[1].is_nil);
}

#[test]
fn point_reads_find_saved_records() {
    let mut db = open_empty();
    db.save_quorum_cert(&vec![cert(hash(2), 4)]).unwrap();
    db.save_block(&hash(2), true).unwrap();

    let qc = db.get_quorum_cert(&hash(2)).unwrap().unwrap();
    assert_eq!(qc.round(), 4);
    assert!(db.get_quorum_cert(&hash(3)).unwrap().is_none());

    let flag = db.get_is_nil(&hash(2)).unwrap().unwrap();
    assert!(flag.is_nil());
    assert!(db.get_is_nil(&hash(3)).unwrap().is_none());
}

#[test]
fn corrupt_certificate_fails_open() {
    let mut log = PersistentLog::new();
    log.put_raw_cert(hash(1), vec![1, 2, 3]);
    let err = ForensicDB::new(log).err().unwrap();
    assert_eq!(err, ForensicError::DecodeError);
}

#[test]
fn mismatched_key_fails_open() {
    let mut log = PersistentLog::new();
    let stray = cert(hash(2), 1);
    log.put_raw_cert(hash(1), stray.encode_value());
    let err = ForensicDB::new(log).err().unwrap();
    assert_eq!(err, ForensicError::DecodeError);
}

#[test]
fn two_byte_nil_flag_is_decode_error() {
    let mut log = PersistentLog::new();
    log.put_raw_nil(hash(1), vec![0, 0]);

    assert_eq!(log.get_nil_flag(&hash(1)).unwrap_err(), ForensicError::DecodeError);
    // distinct from "not found"
    assert_eq!(log.get_nil_flag(&hash(2)).unwrap(), None);

    let c = cert(hash(1), 3);
    log.put_certificate(&c);
    let mut db = ForensicDB::new(log).unwrap();
    assert_eq!(db.get_is_nil(&hash(1)).unwrap_err(), ForensicError::DecodeError);
    assert_eq!(
        db.get_quorum_cert_at_round(3).unwrap_err(),
        ForensicError::DecodeError
    );
    // the store keeps serving other rounds
    db.save_quorum_cert(&vec![cert(hash(4), 1)]).unwrap();
    db.save_block(&hash(4), false).unwrap();
    assert_eq!(db.get_quorum_cert_at_round(1).unwrap().len(), 1);
}
