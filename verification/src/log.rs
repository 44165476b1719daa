use vstd::prelude::*;
use crate::errors::ForensicError;
use crate::hash_value::HashValue;
use crate::records::{CertView, IsNil, QuorumCert, lemma_cert_round_trip, spec_decode_cert,
    spec_encode_cert, spec_encode_nil};

verus! {

// ---------------------------------------------------------------------------
// The mathematical model of a persisted table: a sequence of key/value pairs
// with pairwise-distinct keys, in the order the keys were first written.
// ---------------------------------------------------------------------------

/// Whether the table holds an entry for `key`.
pub open spec fn tbl_has(t: Seq<(HashValue, Seq<u8>)>, key: HashValue) -> bool {
    exists|i: int| 0 <= i < t.len() && (#[trigger] t[i]).0 == key
}

/// The position of the entry for `key`; meaningful only when `tbl_has` holds.
pub open spec fn tbl_at(t: Seq<(HashValue, Seq<u8>)>, key: HashValue) -> int {
    choose|i: int| 0 <= i < t.len() && (#[trigger] t[i]).0 == key
}

/// The value stored under `key`; meaningful only when `tbl_has` holds.
pub open spec fn tbl_val(t: Seq<(HashValue, Seq<u8>)>, key: HashValue) -> Seq<u8> {
    t[tbl_at(t, key)].1
}

/// Keys are pairwise distinct.
pub open spec fn tbl_wf(t: Seq<(HashValue, Seq<u8>)>) -> bool {
    forall|i: int, j: int|
        0 <= i < t.len() && 0 <= j < t.len() && i != j ==> (#[trigger] t[i]).0 != (#[trigger] t[j]).0
}

/// Writing `value` under `key`: the entry is replaced in place when the key
/// is already present, and appended otherwise.
pub open spec fn tbl_put(t: Seq<(HashValue, Seq<u8>)>, key: HashValue, value: Seq<u8>) -> Seq<
    (HashValue, Seq<u8>),
> {
    if tbl_has(t, key) {
        t.update(tbl_at(t, key), (key, value))
    } else {
        t.push((key, value))
    }
}

/// In a well-formed table the position of a key is unique.
pub proof fn lemma_tbl_at_unique(t: Seq<(HashValue, Seq<u8>)>, key: HashValue, i: int)
    requires
        tbl_wf(t),
        0 <= i < t.len(),
        t[i].0 == key,
    ensures
        tbl_has(t, key),
        tbl_at(t, key) == i,
        tbl_val(t, key) == t[i].1,
{
    assert(tbl_has(t, key));
    let j = tbl_at(t, key);
    assert(0 <= j < t.len() && t[j].0 == key);
    if i != j {
        assert(t[i].0 != t[j].0);
    }
}

/// What one write does to a well-formed table.
pub proof fn lemma_tbl_put(t: Seq<(HashValue, Seq<u8>)>, key: HashValue, value: Seq<u8>)
    requires
        tbl_wf(t),
    ensures
        ({
            let t2 = tbl_put(t, key, value);
            &&& tbl_wf(t2)
            &&& tbl_has(t2, key)
            &&& tbl_val(t2, key) == value
            &&& forall|k2: HashValue| k2 != key ==> #[trigger] tbl_has(t2, k2) == tbl_has(t, k2)
            &&& forall|k2: HashValue|
                k2 != key && tbl_has(t, k2) ==> #[trigger] tbl_val(t2, k2) == tbl_val(t, k2)
            &&& t2.len() == if tbl_has(t, key) {
                t.len()
            } else {
                t.len() + 1
            }
        }),
{
    let t2 = tbl_put(t, key, value);
    if tbl_has(t, key) {
        let i = tbl_at(t, key);
        assert(0 <= i < t.len() && t[i].0 == key);
        assert(forall|m: int| 0 <= m < t2.len() ==> (#[trigger] t2[m]).0 == t[m].0);
        assert(tbl_wf(t2));
        lemma_tbl_at_unique(t2, key, i);
        assert forall|k2: HashValue| k2 != key implies #[trigger] tbl_has(t2, k2) == tbl_has(
            t,
            k2,
        ) by {
            if tbl_has(t, k2) {
                let m = tbl_at(t, k2);
                assert(t2[m].0 == k2);
            }
            if tbl_has(t2, k2) {
                let m = tbl_at(t2, k2);
                assert(t[m].0 == k2);
            }
        }
        assert forall|k2: HashValue| k2 != key && tbl_has(t, k2) implies #[trigger] tbl_val(t2, k2)
            == tbl_val(t, k2) by {
            let m = tbl_at(t, k2);
            assert(0 <= m < t.len() && t[m].0 == k2);
            assert(m != i);
            lemma_tbl_at_unique(t2, k2, m);
        }
    } else {
        assert(t2 == t.push((key, value)));
        assert(t2[t.len() as int].0 == key);
        assert forall|m: int, n: int|
            0 <= m < t2.len() && 0 <= n < t2.len() && m != n implies (#[trigger] t2[m]).0 != (
        #[trigger] t2[n]).0 by {
            if m < t.len() && n < t.len() {
                assert(t2[m].0 == t[m].0 && t2[n].0 == t[n].0);
            } else if m < t.len() {
                assert(t2[n].0 == key && t2[m].0 == t[m].0);
                assert(t[m].0 != key);
            } else {
                assert(t2[m].0 == key && t2[n].0 == t[n].0);
                assert(t[n].0 != key);
            }
        }
        lemma_tbl_at_unique(t2, key, t.len() as int);
        assert forall|k2: HashValue| k2 != key implies #[trigger] tbl_has(t2, k2) == tbl_has(
            t,
            k2,
        ) by {
            if tbl_has(t, k2) {
                let m = tbl_at(t, k2);
                assert(t2[m].0 == k2);
            }
            if tbl_has(t2, k2) {
                let m = tbl_at(t2, k2);
                assert(0 <= m < t2.len() && t2[m].0 == k2);
                assert(m != t.len());
                assert(t[m].0 == k2);
            }
        }
        assert forall|k2: HashValue| k2 != key && tbl_has(t, k2) implies #[trigger] tbl_val(t2, k2)
            == tbl_val(t, k2) by {
            let m = tbl_at(t, k2);
            assert(0 <= m < t.len() && t[m].0 == k2);
            lemma_tbl_at_unique(t2, k2, m);
        }
    }
}

// ---------------------------------------------------------------------------
// Reading the certificate table as certificates.
// ---------------------------------------------------------------------------

/// A stored certificate entry is valid when its value decodes and the decoded
/// certificate names the key it is stored under.
pub open spec fn valid_cert_entry(e: (HashValue, Seq<u8>)) -> bool {
    spec_decode_cert(e.1) matches Some(c) && c.id == e.0
}

/// Every entry of the certificate table is valid.
pub open spec fn certs_ok(t: Seq<(HashValue, Seq<u8>)>) -> bool {
    forall|i: int| 0 <= i < t.len() ==> valid_cert_entry(#[trigger] t[i])
}

/// The ids of the certificates stored with round `round`, in table order —
/// the round index entry that the table itself induces.
pub open spec fn round_ids(t: Seq<(HashValue, Seq<u8>)>, round: u64) -> Seq<HashValue>
    decreases t.len(),
{
    if t.len() == 0 {
        Seq::empty()
    } else {
        let rest = round_ids(t.drop_last(), round);
        match spec_decode_cert(t.last().1) {
            Some(c) => if c.round == round {
                rest.push(c.id)
            } else {
                rest
            },
            None => rest,
        }
    }
}

/// The highest round among the stored certificates, 0 when there are none.
pub open spec fn spec_max_round(t: Seq<(HashValue, Seq<u8>)>) -> u64
    decreases t.len(),
{
    if t.len() == 0 {
        0
    } else {
        let m = spec_max_round(t.drop_last());
        match spec_decode_cert(t.last().1) {
            Some(c) => if c.round > m {
                c.round
            } else {
                m
            },
            None => m,
        }
    }
}

/// The table holds, under `id` itself, a certificate for `id` at `round`.
pub open spec fn has_cert_at_round(t: Seq<(HashValue, Seq<u8>)>, id: HashValue, round: u64) -> bool {
    &&& tbl_has(t, id)
    &&& spec_decode_cert(tbl_val(t, id)) matches Some(c) && c.round == round
}

/// An id is listed for a round exactly when the table stores a certificate
/// for it at that round.
pub proof fn lemma_round_ids_mem(t: Seq<(HashValue, Seq<u8>)>, round: u64)
    requires
        tbl_wf(t),
        certs_ok(t),
    ensures
        forall|id: HashValue| #[trigger]
            round_ids(t, round).contains(id) <==> has_cert_at_round(t, id, round),
    decreases t.len(),
{
    if t.len() == 0 {
    } else {
        let prefix = t.drop_last();
        assert(tbl_wf(prefix) && certs_ok(prefix)) by {
            assert(forall|i: int| 0 <= i < prefix.len() ==> #[trigger] prefix[i] == t[i]);
        }
        lemma_round_ids_mem(prefix, round);
        let last = t.last();
        let n = t.len() - 1;
        assert(valid_cert_entry(t[n]));
        let c = spec_decode_cert(last.1)->Some_0;
        assert forall|id: HashValue| #[trigger]
            round_ids(t, round).contains(id) implies has_cert_at_round(t, id, round) by {
            let k = choose|k: int| 0 <= k < round_ids(t, round).len() && round_ids(t, round)[k] == id;
            let rest = round_ids(prefix, round);
            if c.round == round && k == rest.len() {
                assert(id == c.id);
                lemma_tbl_at_unique(t, id, n);
            } else {
                assert(rest[k] == id);
                assert(rest.contains(id));
                assert(has_cert_at_round(prefix, id, round));
                let m = tbl_at(prefix, id);
                assert(0 <= m < prefix.len() && prefix[m].0 == id);
                assert(t[m].0 == id);
                lemma_tbl_at_unique(t, id, m);
                assert(tbl_val(t, id) == tbl_val(prefix, id)) by {
                    lemma_tbl_at_unique(prefix, id, m);
                }
            }
        }
        assert forall|id: HashValue| has_cert_at_round(t, id, round) implies #[trigger] round_ids(
            t,
            round,
        ).contains(id) by {
            let m = tbl_at(t, id);
            assert(0 <= m < t.len() && t[m].0 == id);
            if m == n {
                assert(id == c.id && c.round == round);
                let ids = round_ids(t, round);
                assert(ids[ids.len() - 1] == id);
            } else {
                assert(prefix[m].0 == id);
                lemma_tbl_at_unique(prefix, id, m);
                lemma_tbl_at_unique(t, id, m);
                assert(has_cert_at_round(prefix, id, round));
                assert(round_ids(prefix, round).contains(id));
                let k = choose|k: int|
                    0 <= k < round_ids(prefix, round).len() && round_ids(prefix, round)[k] == id;
                assert(round_ids(t, round)[k] == id);
            }
        }
    }
}

/// Every stored round is bounded by the maximum, and the maximum is attained
/// when the table is not empty.
pub proof fn lemma_max_round_is_max(t: Seq<(HashValue, Seq<u8>)>)
    requires
        certs_ok(t),
    ensures
        forall|i: int|
            0 <= i < t.len() ==> spec_decode_cert((#[trigger] t[i]).1)->Some_0.round
                <= spec_max_round(t),
        t.len() > 0 ==> exists|i: int|
            0 <= i < t.len() && spec_decode_cert((#[trigger] t[i]).1)->Some_0.round
                == spec_max_round(t),
    decreases t.len(),
{
    if t.len() == 0 {
    } else {
        let prefix = t.drop_last();
        assert(certs_ok(prefix)) by {
            assert(forall|i: int| 0 <= i < prefix.len() ==> #[trigger] prefix[i] == t[i]);
        }
        lemma_max_round_is_max(prefix);
        let n = t.len() - 1;
        assert(valid_cert_entry(t[n]));
        let c = spec_decode_cert(t[n].1)->Some_0;
        if prefix.len() > 0 && c.round <= spec_max_round(prefix) {
            let w = choose|i: int|
                0 <= i < prefix.len() && spec_decode_cert((#[trigger] prefix[i]).1)->Some_0.round
                    == spec_max_round(prefix);
            assert(t[w] == prefix[w]);
        }
        assert(forall|i: int| 0 <= i < n ==> #[trigger] t[i] == prefix[i]);
    }
}

/// Replacing an entry's value by one that decodes to the same id and round
/// changes neither the induced round index nor the maximum round.
pub proof fn lemma_cert_tbl_update(t: Seq<(HashValue, Seq<u8>)>, j: int, value: Seq<u8>)
    requires
        0 <= j < t.len(),
        spec_decode_cert(t[j].1) is Some,
        spec_decode_cert(value) is Some,
        spec_decode_cert(value)->Some_0.id == spec_decode_cert(t[j].1)->Some_0.id,
        spec_decode_cert(value)->Some_0.round == spec_decode_cert(t[j].1)->Some_0.round,
    ensures
        forall|r: u64| #[trigger] round_ids(t.update(j, (t[j].0, value)), r) == round_ids(t, r),
        spec_max_round(t.update(j, (t[j].0, value))) == spec_max_round(t),
    decreases t.len(),
{
    let t2 = t.update(j, (t[j].0, value));
    if j == t.len() - 1 {
        assert(t2.drop_last() =~= t.drop_last());
        assert(t2.last() == (t[j].0, value));
        assert forall|r: u64| #[trigger] round_ids(t2, r) == round_ids(t, r) by {}
    } else {
        let prefix = t.drop_last();
        assert(prefix[j] == t[j]);
        lemma_cert_tbl_update(prefix, j, value);
        assert(t2.drop_last() =~= prefix.update(j, (prefix[j].0, value)));
        assert(t2.last() == t.last());
        assert forall|r: u64| #[trigger] round_ids(t2, r) == round_ids(t, r) by {
            assert(round_ids(t2.drop_last(), r) == round_ids(prefix, r));
        }
    }
}

/// What saving one certificate does to a valid certificate table: the entry
/// appears under its id; a fresh id joins its round's id list and can raise
/// the maximum round; rewriting a known id changes nothing that is observed.
pub proof fn lemma_save_one(t: Seq<(HashValue, Seq<u8>)>, c: CertView)
    requires
        tbl_wf(t),
        certs_ok(t),
        tbl_has(t, c.id) ==> spec_decode_cert(tbl_val(t, c.id))->Some_0.round == c.round,
    ensures
        ({
            let t2 = tbl_put(t, c.id, spec_encode_cert(c));
            &&& tbl_wf(t2)
            &&& certs_ok(t2)
            &&& tbl_has(t2, c.id)
            &&& tbl_val(t2, c.id) == spec_encode_cert(c)
            &&& forall|k2: HashValue| k2 != c.id ==> #[trigger] tbl_has(t2, k2) == tbl_has(t, k2)
            &&& forall|k2: HashValue|
                k2 != c.id && tbl_has(t, k2) ==> #[trigger] tbl_val(t2, k2) == tbl_val(t, k2)
            &&& if tbl_has(t, c.id) {
                (forall|r: u64| #[trigger] round_ids(t2, r) == round_ids(t, r)) && spec_max_round(
                    t2,
                ) == spec_max_round(t) && c.round <= spec_max_round(t)
            } else {
                round_ids(t2, c.round) == round_ids(t, c.round).push(c.id) && (forall|r: u64|
                    r != c.round ==> #[trigger] round_ids(t2, r) == round_ids(t, r))
                    && spec_max_round(t2) == if c.round > spec_max_round(t) {
                    c.round
                } else {
                    spec_max_round(t)
                }
            }
        }),
{
    lemma_cert_round_trip(c);
    lemma_tbl_put(t, c.id, spec_encode_cert(c));
    let t2 = tbl_put(t, c.id, spec_encode_cert(c));
    if tbl_has(t, c.id) {
        let j = tbl_at(t, c.id);
        assert(0 <= j < t.len() && t[j].0 == c.id);
        assert(valid_cert_entry(t[j]));
        assert(tbl_val(t, c.id) == t[j].1);
        lemma_cert_tbl_update(t, j, spec_encode_cert(c));
        assert(t2 == t.update(j, (t[j].0, spec_encode_cert(c))));
        assert(certs_ok(t2)) by {
            assert forall|i: int| 0 <= i < t2.len() implies valid_cert_entry(#[trigger] t2[i]) by {
                if i != j {
                    assert(t2[i] == t[i]);
                }
            }
        }
        lemma_max_round_is_max(t);
    } else {
        assert(t2 == t.push((c.id, spec_encode_cert(c))));
        assert(certs_ok(t2)) by {
            assert forall|i: int| 0 <= i < t2.len() implies valid_cert_entry(#[trigger] t2[i]) by {
                if i < t.len() {
                    assert(t2[i] == t[i]);
                }
            }
        }
        assert(t2.drop_last() =~= t);
        assert(t2.last() == (c.id, spec_encode_cert(c)));
        assert(round_ids(t2, c.round) == round_ids(t, c.round).push(c.id));
        assert forall|r: u64| r != c.round implies #[trigger] round_ids(t2, r) == round_ids(
            t,
            r,
        ) by {}
    }
}

// ---------------------------------------------------------------------------
// Point reads over the two tables.
// ---------------------------------------------------------------------------

/// What a certificate read returns: the decoded certificate, an absent value
/// for an unknown id, or a decode failure for a corrupt value.
pub open spec fn spec_get_cert(t: Seq<(HashValue, Seq<u8>)>, key: HashValue) -> Result<
    Option<CertView>,
    ForensicError,
> {
    if !tbl_has(t, key) {
        Ok(None)
    } else {
        match spec_decode_cert(tbl_val(t, key)) {
            Some(c) => Ok(Some(c)),
            None => Err(ForensicError::DecodeError),
        }
    }
}

/// What a nil-flag read returns: the flag, an absent value for an unknown id,
/// or a decode failure when the stored value is not exactly one byte.
pub open spec fn spec_get_nil(t: Seq<(HashValue, Seq<u8>)>, key: HashValue) -> Result<
    Option<bool>,
    ForensicError,
> {
    if !tbl_has(t, key) {
        Ok(None)
    } else {
        let v = tbl_val(t, key);
        if v.len() == 1 {
            Ok(Some(v[0] != 0))
        } else {
            Err(ForensicError::DecodeError)
        }
    }
}

// ---------------------------------------------------------------------------
// The durable log itself.
// ---------------------------------------------------------------------------

/// The view of one in-memory table as a persisted one.
pub open spec fn tbl_view(s: Seq<(HashValue, Vec<u8>)>) -> Seq<(HashValue, Seq<u8>)> {
    s.map_values(|e: (HashValue, Vec<u8>)| (e.0, e.1@))
}

/// The durable key-value log: a certificate table and a nil-flag table, the
/// sole source of truth that the in-memory index is rebuilt from. It stands
/// for an embedded engine with atomic batched writes; rewriting history, it
/// keeps each key at the position of its first write.
pub struct PersistentLog {
    certs: Vec<(HashValue, Vec<u8>)>,
    nils: Vec<(HashValue, Vec<u8>)>,
}

/// Find the position of a key in one table.
fn find_entry(entries: &Vec<(HashValue, Vec<u8>)>, key: &HashValue) -> (r: Option<usize>)
    ensures
        match r {
            Some(j) => 0 <= j < entries@.len() && tbl_view(entries@)[j as int].0 == *key,
            None => !tbl_has(tbl_view(entries@), *key),
        },
{
    let ghost t = tbl_view(entries@);
    let mut j: usize = 0;
    while j < entries.len()
        invariant
            0 <= j <= entries@.len(),
            t == tbl_view(entries@),
            forall|m: int| 0 <= m < j ==> (#[trigger] t[m]).0 != *key,
        decreases entries@.len() - j,
    {
        if entries[j].0 == *key {
            assert(t[j as int].0 == *key);
            return Some(j);
        }
        j += 1;
    }
    proof {
        if tbl_has(t, *key) {
            let i = tbl_at(t, *key);
            assert(0 <= i < t.len() && t[i].0 == *key);
        }
    }
    None
}

impl PersistentLog {
    /// The certificate table: id to stored certificate bytes.
    pub closed spec fn cert_tbl(&self) -> Seq<(HashValue, Seq<u8>)> {
        tbl_view(self.certs@)
    }

    /// The nil-flag table: id to stored flag bytes.
    pub closed spec fn nil_tbl(&self) -> Seq<(HashValue, Seq<u8>)> {
        tbl_view(self.nils@)
    }

    /// Both tables keep their keys pairwise distinct.
    pub open spec fn wf(&self) -> bool {
        tbl_wf(self.cert_tbl()) && tbl_wf(self.nil_tbl())
    }

    /// An empty log, as a fresh storage directory would provide.
    pub fn new() -> (r: PersistentLog)
        ensures
            r.wf(),
            r.cert_tbl() == Seq::<(HashValue, Seq<u8>)>::empty(),
            r.nil_tbl() == Seq::<(HashValue, Seq<u8>)>::empty(),
    {
        let r = PersistentLog { certs: Vec::new(), nils: Vec::new() };
        proof {
            assert(r.cert_tbl() =~= Seq::<(HashValue, Seq<u8>)>::empty());
            assert(r.nil_tbl() =~= Seq::<(HashValue, Seq<u8>)>::empty());
        }
        r
    }

    /// Lay down raw bytes in the certificate table, as found persisted data
    /// may hold them — not necessarily a valid certificate encoding.
    pub fn put_raw_cert(&mut self, key: HashValue, value: Vec<u8>)
        requires
            old(self).wf(),
        ensures
            final(self).wf(),
            final(self).cert_tbl() == tbl_put(old(self).cert_tbl(), key, value@),
            final(self).nil_tbl() == old(self).nil_tbl(),
    {
        proof {
            lemma_tbl_put(old(self).cert_tbl(), key, value@);
        }
        let ghost t = self.cert_tbl();
        match find_entry(&self.certs, &key) {
            Some(j) => {
                proof {
                    lemma_tbl_at_unique(t, key, j as int);
                }
                self.certs[j] = (key, value);
                proof {
                    assert(self.cert_tbl() =~= t.update(tbl_at(t, key), (key, value@)));
                }
            },
            None => {
                self.certs.push((key, value));
                proof {
                    assert(self.cert_tbl() =~= t.push((key, value@)));
                }
            },
        }
    }

    /// Lay down raw bytes in the nil-flag table, as found persisted data may
    /// hold them — not necessarily a single flag byte.
    pub fn put_raw_nil(&mut self, key: HashValue, value: Vec<u8>)
        requires
            old(self).wf(),
        ensures
            final(self).wf(),
            final(self).nil_tbl() == tbl_put(old(self).nil_tbl(), key, value@),
            final(self).cert_tbl() == old(self).cert_tbl(),
    {
        proof {
            lemma_tbl_put(old(self).nil_tbl(), key, value@);
        }
        let ghost t = self.nil_tbl();
        match find_entry(&self.nils, &key) {
            Some(j) => {
                proof {
                    lemma_tbl_at_unique(t, key, j as int);
                }
                self.nils[j] = (key, value);
                proof {
                    assert(self.nil_tbl() =~= t.update(tbl_at(t, key), (key, value@)));
                }
            },
            None => {
                self.nils.push((key, value));
                proof {
                    assert(self.nil_tbl() =~= t.push((key, value@)));
                }
            },
        }
    }

    /// Durably write a certificate under its own id.
    pub fn put_certificate(&mut self, qc: &QuorumCert)
        requires
            old(self).wf(),
        ensures
            final(self).wf(),
            final(self).cert_tbl() == tbl_put(
                old(self).cert_tbl(),
                qc@.id,
                spec_encode_cert(qc@),
            ),
            final(self).nil_tbl() == old(self).nil_tbl(),
    {
        let bytes = qc.encode_value();
        let id = qc.id();
        self.put_raw_cert(id, bytes);
    }

    /// Durably write a nil flag under an id.
    pub fn put_nil_flag(&mut self, key: &HashValue, is_nil: bool)
        requires
            old(self).wf(),
        ensures
            final(self).wf(),
            final(self).nil_tbl() == tbl_put(old(self).nil_tbl(), *key, spec_encode_nil(is_nil)),
            final(self).cert_tbl() == old(self).cert_tbl(),
    {
        let flag = IsNil::new(is_nil);
        let bytes = flag.encode_value();
        self.put_raw_nil(*key, bytes);
    }

    /// Read the certificate stored under an id.
    pub fn get_certificate(&self, key: &HashValue) -> (r: Result<Option<QuorumCert>, ForensicError>)
        requires
            self.wf(),
        ensures
            (match spec_get_cert(self.cert_tbl(), *key) {
                Ok(Some(c)) => r matches Ok(Some(qc)) && qc@ == c,
                Ok(None) => r == Ok::<Option<QuorumCert>, ForensicError>(None),
                Err(e) => r == Err::<Option<QuorumCert>, ForensicError>(e),
            }),
    {
        let ghost t = self.cert_tbl();
        match find_entry(&self.certs, key) {
            None => Ok(None),
            Some(j) => {
                proof {
                    lemma_tbl_at_unique(t, *key, j as int);
                }
                match QuorumCert::decode_value(self.certs[j].1.as_slice()) {
                    Ok(qc) => Ok(Some(qc)),
                    Err(e) => Err(e),
                }
            },
        }
    }

    /// Read the nil flag stored under an id.
    pub fn get_nil_flag(&self, key: &HashValue) -> (r: Result<Option<bool>, ForensicError>)
        requires
            self.wf(),
        ensures
            (match spec_get_nil(self.nil_tbl(), *key) {
                Ok(Some(b)) => r == Ok::<Option<bool>, ForensicError>(Some(b)),
                Ok(None) => r == Ok::<Option<bool>, ForensicError>(None),
                Err(e) => r == Err::<Option<bool>, ForensicError>(e),
            }),
    {
        let ghost t = self.nil_tbl();
        match find_entry(&self.nils, key) {
            None => Ok(None),
            Some(j) => {
                proof {
                    lemma_tbl_at_unique(t, *key, j as int);
                }
                match IsNil::decode_value(self.nils[j].1.as_slice()) {
                    Ok(f) => Ok(Some(f.is_nil())),
                    Err(e) => Err(e),
                }
            },
        }
    }

    /// Walk the whole certificate table once, decoding every entry — the
    /// startup scan that the round index is rebuilt from. Any entry that does
    /// not decode fails the scan.
    pub fn iterate_certificates(&self) -> (r: Result<Vec<(HashValue, QuorumCert)>, ForensicError>)
        requires
            self.wf(),
        ensures
            (match r {
                Ok(v) => v@.len() == self.cert_tbl().len() && forall|i: int|
                    0 <= i < v@.len() ==> (#[trigger] v@[i]).0 == self.cert_tbl()[i].0
                        && spec_decode_cert(self.cert_tbl()[i].1) == Some(v@[i].1@),
                Err(e) => e == ForensicError::DecodeError && exists|i: int|
                    0 <= i < self.cert_tbl().len() && spec_decode_cert(
                        (#[trigger] self.cert_tbl()[i]).1,
                    ) is None,
            }),
    {
        let ghost t = self.cert_tbl();
        let mut out: Vec<(HashValue, QuorumCert)> = Vec::new();
        let mut i: usize = 0;
        while i < self.certs.len()
            invariant
                0 <= i <= self.certs@.len(),
                t == self.cert_tbl(),
                out@.len() == i,
                forall|m: int|
                    0 <= m < i ==> (#[trigger] out@[m]).0 == t[m].0 && spec_decode_cert(t[m].1)
                        == Some(out@[m].1@),
            decreases self.certs@.len() - i,
        {
            let key = self.certs[i].0;
            match QuorumCert::decode_value(self.certs[i].1.as_slice()) {
                Ok(qc) => {
                    out.push((key, qc));
                },
                Err(_) => {
                    assert(spec_decode_cert(t[i as int].1) is None);
                    return Err(ForensicError::DecodeError);
                },
            }
            i += 1;
        }
        Ok(out)
    }
}

} // verus!
