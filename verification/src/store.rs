use vstd::prelude::*;
use crate::errors::ForensicError;
use crate::hash_value::HashValue;
use crate::index::{LatestRoundTracker, RoundIndex, idx_ids, idx_wf};
use crate::log::{PersistentLog, certs_ok, has_cert_at_round, lemma_round_ids_mem, lemma_save_one,
    lemma_tbl_put, round_ids, spec_get_cert, spec_get_nil, spec_max_round, tbl_has, tbl_put,
    tbl_val, tbl_wf, valid_cert_entry};
use crate::records::{CertView, IsNil, QuorumCert, lemma_cert_round_trip, spec_decode_cert,
    spec_encode_cert, spec_encode_nil};

verus! {

// ---------------------------------------------------------------------------
// The read-time join served to auditors.
// ---------------------------------------------------------------------------

/// The read-time join of a certificate and its nil flag, for convenient
/// access to both; the two are never persisted jointly.
#[derive(Clone, Debug)]
pub struct ForensicQuorumCert {
    /// The certificate.
    pub qc: QuorumCert,
    /// Whether the certified block was a nil placeholder.
    pub is_nil: bool,
}

impl ForensicQuorumCert {
    /// A record from its two halves.
    pub fn new(qc: QuorumCert, is_nil: bool) -> (r: ForensicQuorumCert)
        ensures
            r.qc@ == qc@,
            r.is_nil == is_nil,
    {
        ForensicQuorumCert { qc, is_nil }
    }
}

// ---------------------------------------------------------------------------
// What saving and querying mean over the persisted tables.
// ---------------------------------------------------------------------------

/// The round stored for an id, read off the decoded certificate.
pub open spec fn tbl_round(t: Seq<(HashValue, Seq<u8>)>, id: HashValue) -> u64 {
    spec_decode_cert(tbl_val(t, id))->Some_0.round
}

/// An id's round never changes after its first write: each certificate of a
/// batch agrees with what its id already has in the table, and two batch
/// certificates with one id carry one round.
pub open spec fn batch_compat(t: Seq<(HashValue, Seq<u8>)>, qcs: Seq<QuorumCert>) -> bool {
    &&& forall|k: int|
        0 <= k < qcs.len() && tbl_has(t, (#[trigger] qcs[k])@.id) ==> tbl_round(t, qcs[k]@.id)
            == qcs[k]@.round
    &&& forall|k: int, l: int|
        0 <= k < qcs.len() && 0 <= l < qcs.len() && (#[trigger] qcs[k])@.id == (
        #[trigger] qcs[l])@.id ==> qcs[k]@.round == qcs[l]@.round
}

/// Whether some certificate of the batch has this id.
pub open spec fn batch_has(qcs: Seq<QuorumCert>, id: HashValue) -> bool {
    exists|k: int| 0 <= k < qcs.len() && (#[trigger] qcs[k])@.id == id
}

/// The certificate table after saving a batch, one write per certificate, in
/// order.
pub open spec fn spec_save_batch(
    t: Seq<(HashValue, Seq<u8>)>,
    qcs: Seq<QuorumCert>,
) -> Seq<(HashValue, Seq<u8>)>
    decreases qcs.len(),
{
    if qcs.len() == 0 {
        t
    } else {
        tbl_put(
            spec_save_batch(t, qcs.drop_last()),
            qcs.last()@.id,
            spec_encode_cert(qcs.last()@),
        )
    }
}

/// The highest round in a batch, 0 when the batch is empty.
pub open spec fn spec_batch_max(qcs: Seq<QuorumCert>) -> u64
    decreases qcs.len(),
{
    if qcs.len() == 0 {
        0
    } else {
        let m = spec_batch_max(qcs.drop_last());
        if qcs.last()@.round > m {
            qcs.last()@.round
        } else {
            m
        }
    }
}

/// What joining one indexed id with its log records returns: the certificate
/// and flag, a decode failure for corrupt bytes, or an index inconsistency
/// when either record is missing.
pub open spec fn spec_join_one(
    certs: Seq<(HashValue, Seq<u8>)>,
    nils: Seq<(HashValue, Seq<u8>)>,
    id: HashValue,
) -> Result<(CertView, bool), ForensicError> {
    match spec_get_cert(certs, id) {
        Err(e) => Err(e),
        Ok(copt) => match spec_get_nil(nils, id) {
            Err(e) => Err(e),
            Ok(nopt) => match copt {
                None => Err(ForensicError::IndexInconsistency),
                Some(c) => match nopt {
                    None => Err(ForensicError::IndexInconsistency),
                    Some(b) => Ok((c, b)),
                },
            },
        },
    }
}

/// What a per-round query returns: the joined records for the given ids in
/// order, or the first id's failure.
pub open spec fn spec_round_query(
    certs: Seq<(HashValue, Seq<u8>)>,
    nils: Seq<(HashValue, Seq<u8>)>,
    ids: Seq<HashValue>,
) -> Result<Seq<(CertView, bool)>, ForensicError>
    decreases ids.len(),
{
    if ids.len() == 0 {
        Ok(Seq::empty())
    } else {
        match spec_join_one(certs, nils, ids[0]) {
            Err(e) => Err(e),
            Ok(rec) => match spec_round_query(certs, nils, ids.drop_first()) {
                Err(e) => Err(e),
                Ok(rest) => Ok(seq![rec] + rest),
            },
        }
    }
}

// ---------------------------------------------------------------------------
// The storage capability.
// ---------------------------------------------------------------------------

/// The storage of the information necessary for forensics: the consensus
/// engine saves certificates and nil flags through it, an auditor reads them
/// back by round. Its contract is stated over the two persisted tables, so a
/// test double implementing it is held to the same behaviour.
pub trait ForensicStorage: Sized {
    /// The store is internally consistent.
    spec fn inv(&self) -> bool;

    /// The persisted certificate table: id to certificate bytes.
    spec fn cert_tbl(&self) -> Seq<(HashValue, Seq<u8>)>;

    /// The persisted nil-flag table: id to flag bytes.
    spec fn nil_tbl(&self) -> Seq<(HashValue, Seq<u8>)>;

    /// Save a batch of certificates: all are durably written, then indexed.
    /// An empty batch is a no-op success.
    fn save_quorum_cert(&mut self, quorum_certs: &Vec<QuorumCert>) -> (r: Result<
        (),
        ForensicError,
    >)
        requires
            old(self).inv(),
            batch_compat(old(self).cert_tbl(), quorum_certs@),
        ensures
            final(self).inv(),
            r == Ok::<(), ForensicError>(()),
            final(self).cert_tbl() == spec_save_batch(old(self).cert_tbl(), quorum_certs@),
            final(self).nil_tbl() == old(self).nil_tbl(),
            quorum_certs@.len() == 0 ==> *final(self) == *old(self),
    ;

    /// The certificate-and-flag records of every id certified at `round`, in
    /// first-write order; an unsaved round yields an empty sequence, and an
    /// indexed id missing either record is an error, never dropped.
    fn get_quorum_cert_at_round(&self, round: u64) -> (r: Result<
        Vec<ForensicQuorumCert>,
        ForensicError,
    >)
        requires
            self.inv(),
        ensures
            (match spec_round_query(
                self.cert_tbl(),
                self.nil_tbl(),
                round_ids(self.cert_tbl(), round),
            ) {
                Ok(recs) => r matches Ok(v) && v@.len() == recs.len() && (forall|i: int|
                    0 <= i < recs.len() ==> ((#[trigger] v@[i]).qc@, v@[i].is_nil) == recs[i]),
                Err(e) => r == Err::<Vec<ForensicQuorumCert>, ForensicError>(e),
            }),
    ;

    /// The highest round among all saved certificates, 0 when nothing was
    /// ever saved — 0 is also a legitimate genesis round, so it is no "empty"
    /// sentinel.
    fn get_latest_round(&self) -> (r: Result<u64, ForensicError>)
        requires
            self.inv(),
        ensures
            r == Ok::<u64, ForensicError>(spec_max_round(self.cert_tbl())),
    ;

    /// Save the nil flag for a block hash, independently of whether a
    /// certificate for it exists yet.
    fn save_block(&mut self, hash: &HashValue, is_nil: bool) -> (r: Result<(), ForensicError>)
        requires
            old(self).inv(),
        ensures
            final(self).inv(),
            r == Ok::<(), ForensicError>(()),
            final(self).nil_tbl() == tbl_put(old(self).nil_tbl(), *hash, spec_encode_nil(is_nil)),
            final(self).cert_tbl() == old(self).cert_tbl(),
    ;
}

// ---------------------------------------------------------------------------
// The persistent store: log, round index, latest-round tracker.
// ---------------------------------------------------------------------------

/// The persistent forensic store: the durable log as sole source of truth,
/// with the round index and the latest-round tracker rebuilt from it at open
/// time and maintained on every save.
pub struct ForensicDB {
    log: PersistentLog,
    round_to_qcs: RoundIndex,
    latest_round: LatestRoundTracker,
}

impl ForensicStorage for ForensicDB {
    /// Both tables are well-formed; every stored certificate decodes and
    /// names its key; the index lists for each round exactly the ids the log
    /// stores at that round, in log order; the tracker holds the log's
    /// maximum round.
    closed spec fn inv(&self) -> bool {
        &&& self.log.wf()
        &&& certs_ok(self.log.cert_tbl())
        &&& idx_wf(self.round_to_qcs@)
        &&& forall|r: u64| #[trigger]
            idx_ids(self.round_to_qcs@, r) == round_ids(self.log.cert_tbl(), r)
        &&& self.latest_round@ == spec_max_round(self.log.cert_tbl())
    }

    closed spec fn cert_tbl(&self) -> Seq<(HashValue, Seq<u8>)> {
        self.log.cert_tbl()
    }

    closed spec fn nil_tbl(&self) -> Seq<(HashValue, Seq<u8>)> {
        self.log.nil_tbl()
    }

    fn save_quorum_cert(&mut self, quorum_certs: &Vec<QuorumCert>) -> (r: Result<
        (),
        ForensicError,
    >) {
        let ghost t0 = self.log.cert_tbl();
        let ghost n0 = self.log.nil_tbl();
        let ghost qcs = quorum_certs@;
        if quorum_certs.len() == 0 {
            return Ok(());
        }
        // Durably write every certificate of the batch first.
        let mut k: usize = 0;
        while k < quorum_certs.len()
            invariant
                0 <= k <= qcs.len(),
                qcs == quorum_certs@,
                tbl_wf(t0),
                certs_ok(t0),
                batch_compat(t0, qcs),
                self.log.wf(),
                self.log.cert_tbl() == spec_save_batch(t0, qcs.take(k as int)),
                self.log.nil_tbl() == n0,
                self.round_to_qcs == old(self).round_to_qcs,
                self.latest_round == old(self).latest_round,
            decreases qcs.len() - k,
        {
            proof {
                lemma_save_batch_props(t0, qcs.take(k as int));
                lemma_batch_take_succ(t0, qcs, k as int);
            }
            let qc = &quorum_certs[k];
            self.log.put_certificate(qc);
            k += 1;
        }
        proof {
            assert(qcs.take(qcs.len() as int) =~= qcs);
        }
        // Then index each certificate and raise the latest round.
        let mut k: usize = 0;
        while k < quorum_certs.len()
            invariant
                0 <= k <= qcs.len(),
                qcs == quorum_certs@,
                tbl_wf(t0),
                certs_ok(t0),
                batch_compat(t0, qcs),
                self.log.wf(),
                self.log.cert_tbl() == spec_save_batch(t0, qcs),
                self.log.nil_tbl() == n0,
                idx_wf(self.round_to_qcs@),
                forall|r: u64| #[trigger]
                    idx_ids(self.round_to_qcs@, r) == round_ids(
                        spec_save_batch(t0, qcs.take(k as int)),
                        r,
                    ),
                self.latest_round@ == spec_max_round(spec_save_batch(t0, qcs.take(k as int))),
            decreases qcs.len() - k,
        {
            let ghost tk = spec_save_batch(t0, qcs.take(k as int));
            proof {
                lemma_save_batch_props(t0, qcs.take(k as int));
                lemma_batch_take_succ(t0, qcs, k as int);
                lemma_save_one(tk, qcs[k as int]@);
                lemma_round_ids_mem(tk, qcs[k as int]@.round);
            }
            let qc = &quorum_certs[k];
            let round = qc.round();
            let id = qc.id();
            proof {
                if tbl_has(tk, id) {
                    assert(has_cert_at_round(tk, id, round));
                    assert(idx_ids(self.round_to_qcs@, round).contains(id));
                } else {
                    if idx_ids(self.round_to_qcs@, round).contains(id) {
                        assert(has_cert_at_round(tk, id, round));
                    }
                }
            }
            self.latest_round.observe(round);
            self.round_to_qcs.add(round, id);
            k += 1;
        }
        proof {
            assert(qcs.take(qcs.len() as int) =~= qcs);
            lemma_save_batch_props(t0, qcs);
        }
        Ok(())
    }

    fn get_quorum_cert_at_round(&self, round: u64) -> (r: Result<
        Vec<ForensicQuorumCert>,
        ForensicError,
    >) {
        let ghost certs = self.log.cert_tbl();
        let ghost nils = self.log.nil_tbl();
        match self.round_to_qcs.get(round) {
            None => {
                proof {
                    assert(idx_ids(self.round_to_qcs@, round) =~= Seq::<HashValue>::empty());
                    assert(round_ids(certs, round) =~= Seq::<HashValue>::empty());
                }
                Ok(Vec::new())
            },
            Some(ids) => {
                let ghost idseq = ids@;
                let mut out: Vec<ForensicQuorumCert> = Vec::new();
                let mut i: usize = 0;
                while i < ids.len()
                    invariant
                        0 <= i <= idseq.len(),
                        ids@ == idseq,
                        self.inv(),
                        self.log.wf(),
                        certs == self.log.cert_tbl(),
                        nils == self.log.nil_tbl(),
                        idseq == round_ids(certs, round),
                        out@.len() == i,
                        forall|m: int|
                            0 <= m < i ==> spec_join_one(certs, nils, idseq[m]) == Ok::<
                                (CertView, bool),
                                ForensicError,
                            >(((#[trigger] out@[m]).qc@, out@[m].is_nil)),
                    decreases idseq.len() - i,
                {
                    let h = ids[i];
                    let qc_opt = match self.log.get_certificate(&h) {
                        Ok(o) => o,
                        Err(e) => {
                            proof {
                                assert forall|m: int| 0 <= m < i implies spec_join_one(
                                    certs,
                                    nils,
                                    #[trigger] idseq[m],
                                ) is Ok by {
                                    assert(spec_join_one(certs, nils, idseq[m]) == Ok::<
                                        (CertView, bool),
                                        ForensicError,
                                    >(((out@[m]).qc@, out@[m].is_nil)));
                                }
                                lemma_query_first_err(certs, nils, idseq, i as int, e);
                            }
                            return Err(e);
                        },
                    };
                    let nil_opt = match self.log.get_nil_flag(&h) {
                        Ok(o) => o,
                        Err(e) => {
                            proof {
                                assert forall|m: int| 0 <= m < i implies spec_join_one(
                                    certs,
                                    nils,
                                    #[trigger] idseq[m],
                                ) is Ok by {
                                    assert(spec_join_one(certs, nils, idseq[m]) == Ok::<
                                        (CertView, bool),
                                        ForensicError,
                                    >(((out@[m]).qc@, out@[m].is_nil)));
                                }
                                lemma_query_first_err(certs, nils, idseq, i as int, e);
                            }
                            return Err(e);
                        },
                    };
                    let qc = match qc_opt {
                        Some(q) => q,
                        None => {
                            proof {
                                assert forall|m: int| 0 <= m < i implies spec_join_one(
                                    certs,
                                    nils,
                                    #[trigger] idseq[m],
                                ) is Ok by {
                                    assert(spec_join_one(certs, nils, idseq[m]) == Ok::<
                                        (CertView, bool),
                                        ForensicError,
                                    >(((out@[m]).qc@, out@[m].is_nil)));
                                }
                                lemma_query_first_err(
                                    certs,
                                    nils,
                                    idseq,
                                    i as int,
                                    ForensicError::IndexInconsistency,
                                );
                            }
                            return Err(ForensicError::IndexInconsistency);
                        },
                    };
                    let flag = match nil_opt {
                        Some(b) => b,
                        None => {
                            proof {
                                assert forall|m: int| 0 <= m < i implies spec_join_one(
                                    certs,
                                    nils,
                                    #[trigger] idseq[m],
                                ) is Ok by {
                                    assert(spec_join_one(certs, nils, idseq[m]) == Ok::<
                                        (CertView, bool),
                                        ForensicError,
                                    >(((out@[m]).qc@, out@[m].is_nil)));
                                }
                                lemma_query_first_err(
                                    certs,
                                    nils,
                                    idseq,
                                    i as int,
                                    ForensicError::IndexInconsistency,
                                );
                            }
                            return Err(ForensicError::IndexInconsistency);
                        },
                    };
                    out.push(ForensicQuorumCert::new(qc, flag));
                    i += 1;
                }
                proof {
                    assert forall|m: int| 0 <= m < i implies spec_join_one(
                        certs,
                        nils,
                        #[trigger] idseq[m],
                    ) is Ok by {
                        assert(spec_join_one(certs, nils, idseq[m]) == Ok::<
                            (CertView, bool),
                            ForensicError,
                        >(((out@[m]).qc@, out@[m].is_nil)));
                    }
                    lemma_query_all_ok(certs, nils, idseq);
                }
                Ok(out)
            },
        }
    }

    fn get_latest_round(&self) -> (r: Result<u64, ForensicError>) {
        Ok(self.latest_round.get())
    }

    fn save_block(&mut self, hash: &HashValue, is_nil: bool) -> (r: Result<(), ForensicError>) {
        self.log.put_nil_flag(hash, is_nil);
        Ok(())
    }
}

impl ForensicDB {
    /// Open the store over persisted data: scan the certificate table once,
    /// rebuilding the round index and the latest round from what the log
    /// holds. Persisted certificate bytes that do not decode, or that name an
    /// id other than their key, fail the open with a decode error.
    pub fn new(log: PersistentLog) -> (r: Result<ForensicDB, ForensicError>)
        requires
            log.wf(),
        ensures
            certs_ok(log.cert_tbl()) ==> (r matches Ok(db) && db.inv() && db.cert_tbl()
                == log.cert_tbl() && db.nil_tbl() == log.nil_tbl()),
            !certs_ok(log.cert_tbl()) ==> r == Err::<ForensicDB, ForensicError>(
                ForensicError::DecodeError,
            ),
    {
        let ghost t = log.cert_tbl();
        let entries = match log.iterate_certificates() {
            Ok(v) => v,
            Err(e) => {
                proof {
                    let i = choose|i: int|
                        0 <= i < t.len() && spec_decode_cert((#[trigger] t[i]).1) is None;
                    assert(!valid_cert_entry(t[i]));
                }
                return Err(e);
            },
        };
        let mut index = RoundIndex::new();
        let mut latest = LatestRoundTracker::new();
        let mut i: usize = 0;
        while i < entries.len()
            invariant
                0 <= i <= entries@.len(),
                entries@.len() == t.len(),
                log.wf(),
                t == log.cert_tbl(),
                forall|m: int|
                    0 <= m < t.len() ==> (#[trigger] entries@[m]).0 == t[m].0 && spec_decode_cert(
                        t[m].1,
                    ) == Some(entries@[m].1@),
                forall|m: int| 0 <= m < i ==> valid_cert_entry(#[trigger] t[m]),
                idx_wf(index@),
                forall|r: u64| #[trigger] idx_ids(index@, r) == round_ids(t.take(i as int), r),
                latest@ == spec_max_round(t.take(i as int)),
            decreases entries@.len() - i,
        {
            let key = entries[i].0;
            let id = entries[i].1.id();
            if key != id {
                proof {
                    assert(!valid_cert_entry(t[i as int]));
                }
                return Err(ForensicError::DecodeError);
            }
            let round = entries[i].1.round();
            proof {
                let tp = t.take(i as int);
                let tp1 = t.take(i as int + 1);
                assert(tp1.drop_last() =~= tp);
                assert(tp1.last() == t[i as int]);
                assert(tbl_wf(tp) && certs_ok(tp)) by {
                    assert(forall|m: int| 0 <= m < tp.len() ==> #[trigger] tp[m] == t[m]);
                }
                lemma_round_ids_mem(tp, round);
                if idx_ids(index@, round).contains(id) {
                    assert(has_cert_at_round(tp, id, round));
                    let m = choose|m: int| 0 <= m < tp.len() && (#[trigger] tp[m]).0 == id;
                    assert(t[m].0 == id && t[i as int].0 == id);
                }
            }
            latest.observe(round);
            index.add(round, id);
            i += 1;
        }
        proof {
            assert(t.take(t.len() as int) =~= t);
        }
        Ok(ForensicDB { log, round_to_qcs: index, latest_round: latest })
    }

    /// The certificate stored for a hash, if any.
    pub fn get_quorum_cert(&self, hash: &HashValue) -> (r: Result<Option<QuorumCert>, ForensicError>)
        requires
            self.inv(),
        ensures
            (match spec_get_cert(self.cert_tbl(), *hash) {
                Ok(Some(c)) => r matches Ok(Some(qc)) && qc@ == c,
                Ok(None) => r == Ok::<Option<QuorumCert>, ForensicError>(None),
                Err(e) => r == Err::<Option<QuorumCert>, ForensicError>(e),
            }),
    {
        self.log.get_certificate(hash)
    }

    /// The nil flag stored for a hash, if any.
    pub fn get_is_nil(&self, hash: &HashValue) -> (r: Result<Option<IsNil>, ForensicError>)
        requires
            self.inv(),
        ensures
            (match spec_get_nil(self.nil_tbl(), *hash) {
                Ok(Some(b)) => r matches Ok(Some(f)) && f@ == b,
                Ok(None) => r == Ok::<Option<IsNil>, ForensicError>(None),
                Err(e) => r == Err::<Option<IsNil>, ForensicError>(e),
            }),
    {
        match self.log.get_nil_flag(hash) {
            Ok(Some(b)) => Ok(Some(IsNil::new(b))),
            Ok(None) => Ok(None),
            Err(e) => Err(e),
        }
    }

    /// Close the store, handing back the persisted data; opening a new store
    /// over it rebuilds the same index (see `lemma_restart_rebuild`).
    pub fn close(self) -> (r: PersistentLog)
        requires
            self.inv(),
        ensures
            r.wf(),
            certs_ok(r.cert_tbl()),
            r.cert_tbl() == self.cert_tbl(),
            r.nil_tbl() == self.nil_tbl(),
    {
        self.log
    }

    /// The round→ids entry the in-memory index currently serves for a round.
    pub closed spec fn spec_round_index(&self, round: u64) -> Seq<HashValue> {
        idx_ids(self.round_to_qcs@, round)
    }

    /// The round the in-memory tracker currently holds.
    pub closed spec fn spec_latest_round(&self) -> u64 {
        self.latest_round@
    }
}

// ---------------------------------------------------------------------------
// Supporting lemmas for saving and querying.
// ---------------------------------------------------------------------------

/// A batch prefix stays compatible, and one step of saving extends the prefix
/// by one write.
proof fn lemma_batch_take_succ(t: Seq<(HashValue, Seq<u8>)>, qcs: Seq<QuorumCert>, k: int)
    requires
        tbl_wf(t),
        certs_ok(t),
        0 <= k < qcs.len(),
        batch_compat(t, qcs),
    ensures
        batch_compat(t, qcs.take(k)),
        batch_compat(t, qcs.take(k + 1)),
        qcs.take(k + 1).drop_last() =~= qcs.take(k),
        qcs.take(k + 1).last() == qcs[k],
        spec_save_batch(t, qcs.take(k + 1)) == tbl_put(
            spec_save_batch(t, qcs.take(k)),
            qcs[k]@.id,
            spec_encode_cert(qcs[k]@),
        ),
        // the certificate being written agrees with what its id already has
        tbl_has(spec_save_batch(t, qcs.take(k)), qcs[k]@.id) ==> tbl_round(
            spec_save_batch(t, qcs.take(k)),
            qcs[k]@.id,
        ) == qcs[k]@.round,
{
    assert(forall|m: int| 0 <= m < k ==> #[trigger] qcs.take(k)[m] == qcs[m]);
    assert(forall|m: int| 0 <= m < k + 1 ==> #[trigger] qcs.take(k + 1)[m] == qcs[m]);
    assert(qcs.take(k + 1).drop_last() =~= qcs.take(k));
    lemma_save_batch_props(t, qcs.take(k));
    let tk = spec_save_batch(t, qcs.take(k));
    if tbl_has(tk, qcs[k]@.id) {
        if tbl_has(t, qcs[k]@.id) && !batch_has(qcs.take(k), qcs[k]@.id) {
            assert(tbl_round(tk, qcs[k]@.id) == tbl_round(t, qcs[k]@.id));
        } else {
            let m = choose|m: int|
                0 <= m < qcs.take(k).len() && (#[trigger] qcs.take(k)[m])@.id == qcs[k]@.id;
            assert(qcs[m]@.id == qcs[k]@.id);
            assert(qcs[m]@.round == qcs[k]@.round);
        }
    }
}

/// What saving a whole batch does to a valid certificate table: the result is
/// valid, holds exactly the old ids and the batch's ids, keeps every id's
/// round, and its maximum round is the larger of the old maximum and the
/// batch's highest round.
pub proof fn lemma_save_batch_props(t: Seq<(HashValue, Seq<u8>)>, qcs: Seq<QuorumCert>)
    requires
        tbl_wf(t),
        certs_ok(t),
        batch_compat(t, qcs),
    ensures
        ({
            let t2 = spec_save_batch(t, qcs);
            &&& tbl_wf(t2)
            &&& certs_ok(t2)
            &&& forall|id: HashValue| #[trigger]
                tbl_has(t2, id) == (tbl_has(t, id) || batch_has(qcs, id))
            &&& forall|id: HashValue|
                tbl_has(t, id) && !batch_has(qcs, id) ==> #[trigger] tbl_val(t2, id) == tbl_val(
                    t,
                    id,
                )
            &&& forall|id: HashValue|
                tbl_has(t, id) && tbl_has(t2, id) ==> #[trigger] tbl_round(t2, id) == tbl_round(
                    t,
                    id,
                )
            &&& forall|k: int|
                0 <= k < qcs.len() ==> tbl_round(t2, (#[trigger] qcs[k])@.id) == qcs[k]@.round
            &&& spec_max_round(t2) == if spec_batch_max(qcs) > spec_max_round(t) {
                spec_batch_max(qcs)
            } else {
                spec_max_round(t)
            }
        }),
    decreases qcs.len(),
{
    if qcs.len() == 0 {
    } else {
        let prefix = qcs.drop_last();
        let c = qcs.last()@;
        assert(forall|m: int| 0 <= m < prefix.len() ==> #[trigger] prefix[m] == qcs[m]);
        lemma_save_batch_props(t, prefix);
        let tp = spec_save_batch(t, prefix);
        let t2 = spec_save_batch(t, qcs);
        // the last certificate agrees with what its id already has
        if tbl_has(tp, c.id) {
            if tbl_has(t, c.id) && !batch_has(prefix, c.id) {
                assert(tbl_round(tp, c.id) == tbl_round(t, c.id));
                assert(qcs[qcs.len() - 1]@.id == c.id);
            } else {
                let m = choose|m: int|
                    0 <= m < prefix.len() && (#[trigger] prefix[m])@.id == c.id;
                assert(qcs[m]@.id == c.id && qcs[qcs.len() - 1]@.id == c.id);
                assert(qcs[m]@.round == qcs[qcs.len() - 1]@.round);
                assert(tbl_round(tp, c.id) == c.round);
            }
        }
        lemma_save_one(tp, c);
        lemma_cert_round_trip(c);
        assert(t2 == tbl_put(tp, c.id, spec_encode_cert(c)));
        // which ids the result holds
        assert forall|id: HashValue| #[trigger]
            tbl_has(t2, id) == (tbl_has(t, id) || batch_has(qcs, id)) by {
            if id == c.id {
                assert(tbl_has(t2, id));
                assert(qcs[qcs.len() - 1]@.id == id);
                assert(batch_has(qcs, id));
            } else {
                assert(tbl_has(t2, id) == tbl_has(tp, id));
                if batch_has(prefix, id) {
                    let m = choose|m: int|
                        0 <= m < prefix.len() && (#[trigger] prefix[m])@.id == id;
                    assert(qcs[m]@.id == id);
                }
                if batch_has(qcs, id) {
                    let m = choose|m: int| 0 <= m < qcs.len() && (#[trigger] qcs[m])@.id == id;
                    assert(m < prefix.len());
                    assert(prefix[m]@.id == id);
                }
            }
        }
        // values and rounds
        assert forall|id: HashValue|
            tbl_has(t, id) && !batch_has(qcs, id) implies #[trigger] tbl_val(t2, id) == tbl_val(
            t,
            id,
        ) by {
            assert(id != c.id) by {
                assert(qcs[qcs.len() - 1]@.id == c.id);
            }
            assert(!batch_has(prefix, id)) by {
                if batch_has(prefix, id) {
                    let m = choose|m: int|
                        0 <= m < prefix.len() && (#[trigger] prefix[m])@.id == id;
                    assert(qcs[m]@.id == id);
                }
            }
            assert(tbl_has(tp, id));
            assert(tbl_val(t2, id) == tbl_val(tp, id));
        }
        assert forall|id: HashValue|
            tbl_has(t, id) && tbl_has(t2, id) implies #[trigger] tbl_round(t2, id) == tbl_round(
            t,
            id,
        ) by {
            if id == c.id {
                assert(tbl_val(t2, id) == spec_encode_cert(c));
                assert(tbl_round(t2, id) == c.round);
                if tbl_has(t, c.id) && !batch_has(prefix, c.id) {
                    assert(tbl_round(t, id) == tbl_round(tp, id));
                } else {
                    let m = choose|m: int|
                        0 <= m < prefix.len() && (#[trigger] prefix[m])@.id == c.id;
                    assert(qcs[m]@.round == qcs[qcs.len() - 1]@.round);
                    assert(tbl_round(t, id) == qcs[m]@.round) by {
                        assert(tbl_round(t, qcs[m]@.id) == qcs[m]@.round);
                    }
                }
            } else {
                assert(tbl_has(tp, id));
                assert(tbl_val(t2, id) == tbl_val(tp, id));
                assert(tbl_round(tp, id) == tbl_round(t, id));
            }
        }
        assert forall|k: int|
            0 <= k < qcs.len() implies tbl_round(t2, (#[trigger] qcs[k])@.id) == qcs[k]@.round by {
            if qcs[k]@.id == c.id {
                assert(tbl_val(t2, c.id) == spec_encode_cert(c));
                assert(qcs[qcs.len() - 1]@.id == qcs[k]@.id);
                assert(qcs[k]@.round == c.round);
            } else {
                assert(k < prefix.len());
                assert(prefix[k]@.id == qcs[k]@.id);
                assert(tbl_round(tp, qcs[k]@.id) == qcs[k]@.round);
                assert(tbl_has(tp, qcs[k]@.id) == (tbl_has(t, qcs[k]@.id) || batch_has(
                    prefix,
                    qcs[k]@.id,
                )));
                assert(batch_has(prefix, qcs[k]@.id)) by {
                    assert(prefix[k]@.id == qcs[k]@.id);
                }
                assert(tbl_has(tp, qcs[k]@.id));
                assert(tbl_val(t2, qcs[k]@.id) == tbl_val(tp, qcs[k]@.id));
            }
        }
        // the maximum round
        assert(spec_batch_max(qcs) == if c.round > spec_batch_max(prefix) {
            c.round
        } else {
            spec_batch_max(prefix)
        });
        if tbl_has(tp, c.id) {
            assert(spec_max_round(t2) == spec_max_round(tp));
            assert(c.round <= spec_max_round(tp));
        } else {
            assert(spec_max_round(t2) == if c.round > spec_max_round(tp) {
                c.round
            } else {
                spec_max_round(tp)
            });
        }
    }
}

/// When every id joins successfully, the query succeeds and returns exactly
/// the per-id joins, in order.
pub proof fn lemma_query_all_ok(
    certs: Seq<(HashValue, Seq<u8>)>,
    nils: Seq<(HashValue, Seq<u8>)>,
    ids: Seq<HashValue>,
)
    requires
        forall|m: int| 0 <= m < ids.len() ==> spec_join_one(certs, nils, #[trigger] ids[m]) is Ok,
    ensures
        spec_round_query(certs, nils, ids) matches Ok(recs) && recs.len() == ids.len() && (forall|
            m: int,
        |
            0 <= m < ids.len() ==> Ok::<(CertView, bool), ForensicError>(#[trigger] recs[m])
                == spec_join_one(certs, nils, ids[m])),
    decreases ids.len(),
{
    if ids.len() == 0 {
    } else {
        let rest = ids.drop_first();
        assert(forall|m: int| 0 <= m < rest.len() ==> #[trigger] rest[m] == ids[m + 1]);
        lemma_query_all_ok(certs, nils, rest);
    }
}

/// The query fails with exactly the first failing id's error.
pub proof fn lemma_query_first_err(
    certs: Seq<(HashValue, Seq<u8>)>,
    nils: Seq<(HashValue, Seq<u8>)>,
    ids: Seq<HashValue>,
    j: int,
    e: ForensicError,
)
    requires
        0 <= j < ids.len(),
        forall|m: int| 0 <= m < j ==> spec_join_one(certs, nils, #[trigger] ids[m]) is Ok,
        spec_join_one(certs, nils, ids[j]) == Err::<(CertView, bool), ForensicError>(e),
    ensures
        spec_round_query(certs, nils, ids) == Err::<Seq<(CertView, bool)>, ForensicError>(e),
    decreases j,
{
    let rest = ids.drop_first();
    assert(forall|m: int| 0 <= m < rest.len() ==> #[trigger] rest[m] == ids[m + 1]);
    if j > 0 {
        lemma_query_first_err(certs, nils, rest, j - 1, e);
    }
}

// ---------------------------------------------------------------------------
// Laws of the store.
// ---------------------------------------------------------------------------

/// LAW — unsaved rounds: a round at which no certificate was ever stored has
/// an empty id list, and querying it succeeds with an empty sequence.
pub proof fn lemma_unsaved_round_empty(
    certs: Seq<(HashValue, Seq<u8>)>,
    nils: Seq<(HashValue, Seq<u8>)>,
    round: u64,
)
    requires
        forall|i: int|
            0 <= i < certs.len() ==> (spec_decode_cert((#[trigger] certs[i]).1) matches Some(c)
                ==> c.round != round),
    ensures
        round_ids(certs, round) == Seq::<HashValue>::empty(),
        spec_round_query(certs, nils, round_ids(certs, round)) == Ok::<
            Seq<(CertView, bool)>,
            ForensicError,
        >(Seq::empty()),
    decreases certs.len(),
{
    if certs.len() == 0 {
    } else {
        let prefix = certs.drop_last();
        assert(forall|i: int| 0 <= i < prefix.len() ==> #[trigger] prefix[i] == certs[i]);
        lemma_unsaved_round_empty(prefix, nils, round);
    }
}

/// LAW — round monotonicity: saving a batch raises the maximum stored round
/// to the larger of the old maximum and the batch's highest round; as
/// `get_latest_round` returns the maximum stored round, after any sequence of
/// saves it equals the highest round ever supplied.
pub proof fn lemma_latest_round_monotonic(t: Seq<(HashValue, Seq<u8>)>, qcs: Seq<QuorumCert>)
    requires
        tbl_wf(t),
        certs_ok(t),
        batch_compat(t, qcs),
    ensures
        spec_max_round(spec_save_batch(t, qcs)) == if spec_batch_max(qcs) > spec_max_round(t) {
            spec_batch_max(qcs)
        } else {
            spec_max_round(t)
        },
        spec_max_round(spec_save_batch(t, qcs)) >= spec_max_round(t),
{
    lemma_save_batch_props(t, qcs);
}

/// LAW — restart rebuild: two consistent stores over the same persisted
/// certificate table serve the same round→ids entry at every round and the
/// same latest round; closing a store and opening a new one over its data
/// therefore reproduces the index exactly.
pub proof fn lemma_restart_rebuild(d1: &ForensicDB, d2: &ForensicDB, round: u64)
    requires
        d1.inv(),
        d2.inv(),
        d1.cert_tbl() == d2.cert_tbl(),
    ensures
        d1.spec_round_index(round) == d2.spec_round_index(round),
        d1.spec_latest_round() == d2.spec_latest_round(),
{
}

/// LAW — nil-flag independence: a nil flag saved before its certificate is
/// found by the later per-round query: after storing the flag `true` for an
/// id and then the certificate with that id, the query at the certificate's
/// round succeeds — provided every other id at that round is fully recorded —
/// and its record for that id carries the certificate and `is_nil == true`.
pub proof fn lemma_nil_flag_independence(
    certs: Seq<(HashValue, Seq<u8>)>,
    nils: Seq<(HashValue, Seq<u8>)>,
    qc: QuorumCert,
)
    requires
        tbl_wf(certs),
        tbl_wf(nils),
        certs_ok(certs),
        tbl_has(certs, qc@.id) ==> tbl_round(certs, qc@.id) == qc@.round,
        forall|id: HashValue| #[trigger]
            round_ids(certs, qc@.round).contains(id) && id != qc@.id ==> spec_join_one(
                certs,
                nils,
                id,
            ) is Ok,
    ensures
        ({
            let certs2 = tbl_put(certs, qc@.id, spec_encode_cert(qc@));
            let nils2 = tbl_put(nils, qc@.id, spec_encode_nil(true));
            let ids = round_ids(certs2, qc@.round);
            &&& ids.contains(qc@.id)
            &&& spec_round_query(certs2, nils2, ids) matches Ok(recs) && recs.len() == ids.len()
                && (forall|i: int|
                0 <= i < ids.len() && ids[i] == qc@.id ==> #[trigger] recs[i] == (qc@, true))
        }),
{
    let certs2 = tbl_put(certs, qc@.id, spec_encode_cert(qc@));
    let nils2 = tbl_put(nils, qc@.id, spec_encode_nil(true));
    let ids = round_ids(certs2, qc@.round);
    lemma_save_one(certs, qc@);
    lemma_tbl_put(nils, qc@.id, spec_encode_nil(true));
    lemma_cert_round_trip(qc@);
    lemma_round_ids_mem(certs2, qc@.round);
    lemma_round_ids_mem(certs, qc@.round);
    assert(has_cert_at_round(certs2, qc@.id, qc@.round));
    assert(ids.contains(qc@.id));
    // the new records join to the certificate and the saved flag
    assert(spec_join_one(certs2, nils2, qc@.id) == Ok::<(CertView, bool), ForensicError>(
        (qc@, true),
    )) by {
        assert(tbl_val(certs2, qc@.id) == spec_encode_cert(qc@));
        assert(tbl_val(nils2, qc@.id) == spec_encode_nil(true));
        assert(spec_encode_nil(true).len() == 1 && spec_encode_nil(true)[0] == 1u8);
    }
    // every other indexed id joins as it did before either write
    assert forall|m: int| 0 <= m < ids.len() implies spec_join_one(
        certs2,
        nils2,
        #[trigger] ids[m],
    ) is Ok by {
        let id = ids[m];
        assert(ids.contains(id));
        if id != qc@.id {
            assert(has_cert_at_round(certs2, id, qc@.round));
            assert(tbl_has(certs2, id) == tbl_has(certs, id));
            assert(tbl_val(certs2, id) == tbl_val(certs, id));
            assert(has_cert_at_round(certs, id, qc@.round));
            assert(round_ids(certs, qc@.round).contains(id));
            assert(spec_join_one(certs, nils, id) is Ok);
            assert(tbl_has(nils2, id) == tbl_has(nils, id));
            if tbl_has(nils, id) {
                assert(tbl_val(nils2, id) == tbl_val(nils, id));
            }
        }
    }
    lemma_query_all_ok(certs2, nils2, ids);
}

} // verus!
