use vstd::prelude::*;
use crate::hash_value::HashValue;

verus! {

// ---------------------------------------------------------------------------
// The mathematical model of the round index: round to id list, each round at
// most once.
// ---------------------------------------------------------------------------

/// Whether the index has an entry for `round`.
pub open spec fn idx_has(v: Seq<(u64, Seq<HashValue>)>, round: u64) -> bool {
    exists|i: int| 0 <= i < v.len() && (#[trigger] v[i]).0 == round
}

/// The position of the entry for `round`; meaningful only when `idx_has`
/// holds.
pub open spec fn idx_at(v: Seq<(u64, Seq<HashValue>)>, round: u64) -> int {
    choose|i: int| 0 <= i < v.len() && (#[trigger] v[i]).0 == round
}

/// The ids indexed for `round`; empty when the round has no entry.
pub open spec fn idx_ids(v: Seq<(u64, Seq<HashValue>)>, round: u64) -> Seq<HashValue> {
    if idx_has(v, round) {
        v[idx_at(v, round)].1
    } else {
        Seq::empty()
    }
}

/// Rounds are pairwise distinct.
pub open spec fn idx_wf(v: Seq<(u64, Seq<HashValue>)>) -> bool {
    forall|i: int, j: int|
        0 <= i < v.len() && 0 <= j < v.len() && i != j ==> (#[trigger] v[i]).0 != (#[trigger] v[j]).0
}

/// In a well-formed index the position of a round is unique.
pub proof fn lemma_idx_at_unique(v: Seq<(u64, Seq<HashValue>)>, round: u64, i: int)
    requires
        idx_wf(v),
        0 <= i < v.len(),
        v[i].0 == round,
    ensures
        idx_has(v, round),
        idx_at(v, round) == i,
        idx_ids(v, round) == v[i].1,
{
    assert(idx_has(v, round));
    let j = idx_at(v, round);
    assert(0 <= j < v.len() && v[j].0 == round);
    if i != j {
        assert(v[i].0 != v[j].0);
    }
}

/// The view of the in-memory entries as the model.
pub open spec fn idx_view(s: Seq<(u64, Vec<HashValue>)>) -> Seq<(u64, Seq<HashValue>)> {
    s.map_values(|e: (u64, Vec<HashValue>)| (e.0, e.1@))
}

// ---------------------------------------------------------------------------
// The in-memory components rebuilt from the log at open time.
// ---------------------------------------------------------------------------

/// The in-memory round index: for each round, the ids of every certificate
/// saved with that round, in first-write order — a pure projection of the
/// log's certificate table, never the source of truth.
pub struct RoundIndex {
    entries: Vec<(u64, Vec<HashValue>)>,
}

/// Find the position of a round among the entries.
fn find_round(entries: &Vec<(u64, Vec<HashValue>)>, round: u64) -> (r: Option<usize>)
    ensures
        match r {
            Some(j) => 0 <= j < entries@.len() && idx_view(entries@)[j as int].0 == round,
            None => !idx_has(idx_view(entries@), round),
        },
{
    let ghost v = idx_view(entries@);
    let mut j: usize = 0;
    while j < entries.len()
        invariant
            0 <= j <= entries@.len(),
            v == idx_view(entries@),
            forall|m: int| 0 <= m < j ==> (#[trigger] v[m]).0 != round,
        decreases entries@.len() - j,
    {
        if entries[j].0 == round {
            assert(v[j as int].0 == round);
            return Some(j);
        }
        j += 1;
    }
    proof {
        if idx_has(v, round) {
            let i = idx_at(v, round);
            assert(0 <= i < v.len() && v[i].0 == round);
        }
    }
    None
}

/// Whether an id already stands in a round's id list.
fn ids_contain(ids: &Vec<HashValue>, id: &HashValue) -> (r: bool)
    ensures
        r == ids@.contains(*id),
{
    let mut j: usize = 0;
    while j < ids.len()
        invariant
            0 <= j <= ids@.len(),
            forall|m: int| 0 <= m < j ==> ids@[m] != *id,
        decreases ids@.len() - j,
    {
        if ids[j] == *id {
            assert(ids@[j as int] == *id);
            return true;
        }
        j += 1;
    }
    proof {
        if ids@.contains(*id) {
            let m = choose|m: int| 0 <= m < ids@.len() && ids@[m] == *id;
            assert(ids@[m] != *id);
        }
    }
    false
}

impl View for RoundIndex {
    type V = Seq<(u64, Seq<HashValue>)>;

    closed spec fn view(&self) -> Seq<(u64, Seq<HashValue>)> {
        idx_view(self.entries@)
    }
}

impl RoundIndex {
    /// An empty index.
    pub fn new() -> (r: RoundIndex)
        ensures
            idx_wf(r@),
            r@ == Seq::<(u64, Seq<HashValue>)>::empty(),
    {
        let r = RoundIndex { entries: Vec::new() };
        proof {
            assert(r@ =~= Seq::<(u64, Seq<HashValue>)>::empty());
        }
        r
    }

    /// Record that a certificate with this id was saved at this round: the id
    /// joins the round's list unless it already stands there.
    pub fn add(&mut self, round: u64, id: HashValue)
        requires
            idx_wf(old(self)@),
        ensures
            idx_wf(final(self)@),
            idx_ids(final(self)@, round) == if idx_ids(old(self)@, round).contains(id) {
                idx_ids(old(self)@, round)
            } else {
                idx_ids(old(self)@, round).push(id)
            },
            forall|r2: u64| r2 != round ==> idx_ids(final(self)@, r2) == idx_ids(old(self)@, r2),
    {
        let ghost v0 = self@;
        match find_round(&self.entries, round) {
            Some(j) => {
                proof {
                    lemma_idx_at_unique(v0, round, j as int);
                }
                if ids_contain(&self.entries[j].1, &id) {
                    return ;
                }
                let entry = vstd::std_specs::vec::vec_index_mut(&mut self.entries, j);
                entry.1.push(id);
                proof {
                    let v1 = self@;
                    assert(v1 =~= v0.update(j as int, (round, v0[j as int].1.push(id))));
                    assert(forall|m: int| 0 <= m < v1.len() ==> (#[trigger] v1[m]).0 == v0[m].0);
                    lemma_idx_at_unique(v1, round, j as int);
                    assert forall|r2: u64| r2 != round implies idx_ids(v1, r2) == idx_ids(
                        v0,
                        r2,
                    ) by {
                        if idx_has(v0, r2) {
                            let m = idx_at(v0, r2);
                            assert(m != j);
                            lemma_idx_at_unique(v1, r2, m);
                        }
                        if idx_has(v1, r2) {
                            let m = idx_at(v1, r2);
                            assert(m != j);
                            assert(v0[m].0 == r2);
                            lemma_idx_at_unique(v0, r2, m);
                        }
                    }
                }
            },
            None => {
                let mut ids: Vec<HashValue> = Vec::new();
                ids.push(id);
                self.entries.push((round, ids));
                proof {
                    let v1 = self@;
                    assert(v1 =~= v0.push((round, seq![id])));
                    assert(v1[v0.len() as int].0 == round);
                    assert forall|m: int, n: int|
                        0 <= m < v1.len() && 0 <= n < v1.len() && m != n implies (
                    #[trigger] v1[m]).0 != (#[trigger] v1[n]).0 by {
                        if m < v0.len() && n < v0.len() {
                            assert(v1[m].0 == v0[m].0 && v1[n].0 == v0[n].0);
                        } else if m < v0.len() {
                            assert(v1[m].0 == v0[m].0 && v1[n].0 == round);
                            assert(v0[m].0 != round);
                        } else {
                            assert(v1[m].0 == round && v1[n].0 == v0[n].0);
                            assert(v0[n].0 != round);
                        }
                    }
                    lemma_idx_at_unique(v1, round, v0.len() as int);
                    assert(idx_ids(v0, round) =~= Seq::<HashValue>::empty());
                    assert(idx_ids(v1, round) =~= idx_ids(v0, round).push(id));
                    assert forall|r2: u64| r2 != round implies idx_ids(v1, r2) == idx_ids(
                        v0,
                        r2,
                    ) by {
                        if idx_has(v0, r2) {
                            let m = idx_at(v0, r2);
                            assert(v1[m].0 == r2);
                            lemma_idx_at_unique(v1, r2, m);
                        }
                        if idx_has(v1, r2) {
                            let m = idx_at(v1, r2);
                            assert(m != v0.len());
                            assert(v0[m].0 == r2);
                            lemma_idx_at_unique(v0, r2, m);
                        }
                    }
                }
            },
        }
    }

    /// The ids indexed for a round, if the round has an entry.
    pub fn get(&self, round: u64) -> (r: Option<&Vec<HashValue>>)
        requires
            idx_wf(self@),
        ensures
            match r {
                Some(ids) => idx_has(self@, round) && ids@ == idx_ids(self@, round),
                None => !idx_has(self@, round),
            },
    {
        match find_round(&self.entries, round) {
            Some(j) => {
                proof {
                    lemma_idx_at_unique(self@, round, j as int);
                }
                Some(&self.entries[j].1)
            },
            None => None,
        }
    }
}

/// The highest round observed so far, raised by compare-and-raise as
/// certificates are saved and rebuilt from the log at open time.
pub struct LatestRoundTracker {
    round: u64,
}

impl View for LatestRoundTracker {
    type V = u64;

    closed spec fn view(&self) -> u64 {
        self.round
    }
}

impl LatestRoundTracker {
    /// A fresh tracker: nothing observed yet, so round 0.
    pub fn new() -> (r: LatestRoundTracker)
        ensures
            r@ == 0,
    {
        LatestRoundTracker { round: 0 }
    }

    /// Raise the tracked maximum if the observed round exceeds it.
    pub fn observe(&mut self, round: u64)
        ensures
            final(self)@ == if round > old(self)@ {
                round
            } else {
                old(self)@
            },
    {
        if round > self.round {
            self.round = round;
        }
    }

    /// The tracked maximum.
    pub fn get(&self) -> (r: u64)
        ensures
            r == self@,
    {
        self.round
    }
}

} // verus!
