//! The slave registry: per connected slave, its transport routing identity,
//! its declared capability set, and its lifecycle state.
//!
//! A slave is *Idle* (eligible for matching) from the moment a verified IDLE
//! message is received from it, and *Dispatched* (ineligible) from the moment
//! a COMMAND is sent to it; a disconnected slave has no record at all.  The
//! registry is modelled as a finite partial map from routing identity to
//! (capability tokens, state), realised as a vector of records with pairwise
//! distinct identities.

use vstd::prelude::*;
use crate::cap::CapSet;
use crate::cap::bytes_eq;
use crate::cap::bytes_lt;
use crate::cap::lex_lt;

verus! {

/// The identity of a slave connection as reported by the master's command
/// socket; it is the envelope address for the next reply to that slave.
#[derive(Clone, Copy, Debug, PartialEq, Eq, Hash)]
pub struct SlaveId(pub [u8; 5]);

impl View for SlaveId {
    type V = Seq<u8>;

    open spec fn view(&self) -> Seq<u8> {
        self.0@
    }
}

impl SlaveId {
    /// Identity equality, as equality of the routing bytes.
    pub fn eq_id(&self, other: &SlaveId) -> (r: bool)
        ensures
            r == (self@ == other@),
    {
        bytes_eq(self.0.as_slice(), other.0.as_slice())
    }

    /// The fixed byte-lexicographic order on identities used to break
    /// scheduling ties deterministically.
    pub fn lt_id(&self, other: &SlaveId) -> (r: bool)
        ensures
            r == lex_lt(self@, other@),
    {
        bytes_lt(self.0.as_slice(), other.0.as_slice())
    }
}

/// Lifecycle state of a connected slave.
#[derive(Clone, Copy, Debug, PartialEq, Eq, Structural)]
pub enum SlaveState {
    /// Ready for a command; visible to the scheduler.
    Idle,
    /// A command is in flight to it; ineligible until its next IDLE.
    Dispatched,
}

/// One connected slave: identity, declared capabilities, lifecycle state.
pub struct SlaveRecord {
    pub id: SlaveId,
    pub caps: CapSet,
    pub state: SlaveState,
}

/// No two records share an identity.
pub open spec fn seq_distinct(rs: Seq<SlaveRecord>) -> bool {
    forall|i: int, j: int| 0 <= i < j < rs.len() ==> (#[trigger] rs[i].id)@ != (#[trigger] rs[j].id)@
}

pub open spec fn seq_has(rs: Seq<SlaveRecord>, k: Seq<u8>) -> bool {
    exists|i: int| 0 <= i < rs.len() && (#[trigger] rs[i].id)@ == k
}

pub open spec fn seq_idx(rs: Seq<SlaveRecord>, k: Seq<u8>) -> int {
    choose|i: int| 0 <= i < rs.len() && (#[trigger] rs[i].id)@ == k
}

pub proof fn lemma_seq_idx_valid(rs: Seq<SlaveRecord>, k: Seq<u8>)
    requires
        seq_has(rs, k),
    ensures
        0 <= seq_idx(rs, k) < rs.len(),
        rs[seq_idx(rs, k)].id@ == k,
{
}

pub proof fn lemma_seq_idx_unique(rs: Seq<SlaveRecord>, k: Seq<u8>, j: int)
    requires
        seq_distinct(rs),
        0 <= j < rs.len(),
        rs[j].id@ == k,
    ensures
        seq_has(rs, k),
        seq_idx(rs, k) == j,
{
    assert(seq_has(rs, k));
    lemma_seq_idx_valid(rs, k);
}

/// The master's registry of connected slaves.
pub struct SlaveRegistry {
    pub records: Vec<SlaveRecord>,
}

impl SlaveRegistry {
    /// Identities are pairwise distinct and every stored capability set is
    /// well formed, so the registry is a finite map.
    pub open spec fn wf(self) -> bool {
        &&& seq_distinct(self.records@)
        &&& forall|i: int| 0 <= i < self.records@.len() ==> (#[trigger] self.records@[i].caps).wf()
    }

    /// Is a slave with identity `k` connected (Idle or Dispatched)?
    pub open spec fn has(self, k: Seq<u8>) -> bool {
        seq_has(self.records@, k)
    }

    pub open spec fn state_at(self, k: Seq<u8>) -> SlaveState {
        self.records@[seq_idx(self.records@, k)].state
    }

    pub open spec fn caps_at(self, k: Seq<u8>) -> Seq<Seq<u8>> {
        self.records@[seq_idx(self.records@, k)].caps@
    }

    pub fn new() -> (r: SlaveRegistry)
        ensures
            r.wf(),
            forall|k: Seq<u8>| !r.has(k),
            r.records@.len() == 0,
    {
        SlaveRegistry { records: Vec::new() }
    }

    fn find_index(&self, id: &SlaveId) -> (r: Option<usize>)
        ensures
            match r {
                Some(i) => 0 <= i < self.records@.len() && self.records@[i as int].id@ == id@,
                None => !self.has(id@),
            },
    {
        let mut i: usize = 0;
        while i < self.records.len()
            invariant
                0 <= i <= self.records@.len(),
                forall|j: int| 0 <= j < i ==> (#[trigger] self.records@[j].id)@ != id@,
            decreases self.records@.len() - i,
        {
            if self.records[i].id.eq_id(id) {
                return Some(i);
            }
            i += 1;
        }
        None
    }

    /// Record a verified IDLE from `id`: insert or overwrite its record with
    /// the declared capabilities and state *Idle*.  If the slave was
    /// *Dispatched* this is the normal post-command-completion transition;
    /// the slave becomes visible to the scheduler again.  No other slave's
    /// record changes.
    pub fn mark_idle(&mut self, id: SlaveId, caps: CapSet)
        requires
            old(self).wf(),
            caps.wf(),
        ensures
            final(self).wf(),
            forall|k: Seq<u8>|
                #![trigger final(self).has(k)]
                final(self).has(k) <==> (old(self).has(k) || k == id@),
            final(self).state_at(id@) == SlaveState::Idle,
            final(self).caps_at(id@) == caps@,
            forall|k: Seq<u8>|
                #![trigger final(self).state_at(k)]
                #![trigger final(self).caps_at(k)]
                old(self).has(k) && k != id@ ==> final(self).state_at(k) == old(self).state_at(k)
                    && final(self).caps_at(k) == old(self).caps_at(k),
    {
        let ghost os = self.records@;
        let found = self.find_index(&id);
        let rec = SlaveRecord { id, caps, state: SlaveState::Idle };
        match found {
            Some(i) => {
                let _removed = self.records.remove(i);
                self.records.push(rec);
                proof {
                    lemma_upsert(os, self.records@, i as int, id@);
                }
            },
            None => {
                self.records.push(rec);
                proof {
                    lemma_append(os, self.records@, id@);
                }
            },
        }
    }

    /// Transition an *Idle* slave to *Dispatched*.  Returns whether the
    /// transition took place: it fails, leaving the registry untouched, when
    /// `id` is not currently Idle — a protocol violation (double dispatch)
    /// the caller must treat as a defect.
    pub fn mark_dispatched(&mut self, id: SlaveId) -> (ok: bool)
        requires
            old(self).wf(),
        ensures
            final(self).wf(),
            ok == (old(self).has(id@) && old(self).state_at(id@) == SlaveState::Idle),
            !ok ==> *final(self) == *old(self),
            forall|k: Seq<u8>|
                #![trigger final(self).has(k)]
                final(self).has(k) <==> old(self).has(k),
            ok ==> final(self).state_at(id@) == SlaveState::Dispatched && final(self).caps_at(id@)
                == old(self).caps_at(id@),
            forall|k: Seq<u8>|
                #![trigger final(self).state_at(k)]
                #![trigger final(self).caps_at(k)]
                old(self).has(k) && k != id@ ==> final(self).state_at(k) == old(self).state_at(k)
                    && final(self).caps_at(k) == old(self).caps_at(k),
    {
        let ghost os = self.records@;
        let found = self.find_index(&id);
        match found {
            Some(i) => {
                proof {
                    lemma_seq_idx_unique(os, id@, i as int);
                }
                if self.records[i].state == SlaveState::Idle {
                    let removed = self.records.remove(i);
                    let rec = SlaveRecord {
                        id: removed.id,
                        caps: removed.caps,
                        state: SlaveState::Dispatched,
                    };
                    self.records.push(rec);
                    proof {
                        lemma_upsert(os, self.records@, i as int, id@);
                    }
                    true
                } else {
                    false
                }
            },
            None => false,
        }
    }

    /// Drop the record for `id` entirely (disconnect); no other slave's
    /// record changes.
    pub fn remove(&mut self, id: SlaveId)
        requires
            old(self).wf(),
        ensures
            final(self).wf(),
            !final(self).has(id@),
            forall|k: Seq<u8>|
                #![trigger final(self).has(k)]
                k != id@ ==> (final(self).has(k) <==> old(self).has(k)),
            forall|k: Seq<u8>|
                #![trigger final(self).state_at(k)]
                #![trigger final(self).caps_at(k)]
                old(self).has(k) && k != id@ ==> final(self).state_at(k) == old(self).state_at(k)
                    && final(self).caps_at(k) == old(self).caps_at(k),
    {
        let ghost os = self.records@;
        let found = self.find_index(&id);
        match found {
            Some(i) => {
                let _removed = self.records.remove(i);
                proof {
                    lemma_drop(os, self.records@, i as int, id@);
                }
            },
            None => {},
        }
    }

    /// The identities of the slaves the scheduler may consider: exactly
    /// those currently *Idle*.
    pub fn idle_ids(&self) -> (r: Vec<SlaveId>)
        requires
            self.wf(),
        ensures
            forall|j: int|
                0 <= j < r@.len() ==> self.has((#[trigger] r@[j])@) && self.state_at(r@[j]@)
                    == SlaveState::Idle,
            forall|k: Seq<u8>|
                self.has(k) && #[trigger] self.state_at(k) == SlaveState::Idle ==> exists|j: int|
                    0 <= j < r@.len() && (#[trigger] r@[j])@ == k,
    {
        let mut r: Vec<SlaveId> = Vec::new();
        let mut i: usize = 0;
        while i < self.records.len()
            invariant
                self.wf(),
                0 <= i <= self.records@.len(),
                forall|j: int|
                    0 <= j < r@.len() ==> self.has((#[trigger] r@[j])@) && self.state_at(r@[j]@)
                        == SlaveState::Idle,
                forall|m: int|
                    0 <= m < i && (#[trigger] self.records@[m].state) == SlaveState::Idle ==> exists|
                        j: int,
                    | 0 <= j < r@.len() && (#[trigger] r@[j])@ == self.records@[m].id@,
            decreases self.records@.len() - i,
        {
            if self.records[i].state == SlaveState::Idle {
                let ghost before = r@;
                r.push(self.records[i].id);
                proof {
                    lemma_seq_idx_unique(self.records@, self.records@[i as int].id@, i as int);
                    assert(r@[r@.len() - 1]@ == self.records@[i as int].id@);
                    assert forall|m: int|
                        0 <= m < i + 1 && (#[trigger] self.records@[m].state) == SlaveState::Idle
                            implies exists|j: int|
                        0 <= j < r@.len() && (#[trigger] r@[j])@ == self.records@[m].id@ by {
                        if m < i {
                            let j = choose|j: int|
                                0 <= j < before.len() && (#[trigger] before[j])@
                                    == self.records@[m].id@;
                            assert(r@[j]@ == self.records@[m].id@);
                        } else {
                            assert(r@[r@.len() - 1]@ == self.records@[m].id@);
                        }
                    }
                }
            }
            i += 1;
        }
        proof {
            assert forall|k: Seq<u8>|
                self.has(k) && #[trigger] self.state_at(k) == SlaveState::Idle implies exists|
                j: int,
            | 0 <= j < r@.len() && (#[trigger] r@[j])@ == k by {
                lemma_seq_idx_valid(self.records@, k);
                let m = seq_idx(self.records@, k);
                assert(self.records@[m].state == SlaveState::Idle);
            }
        }
        r
    }

    /// Observe the lifecycle state of one slave, if connected.
    pub fn state_of(&self, id: &SlaveId) -> (r: Option<SlaveState>)
        requires
            self.wf(),
        ensures
            r == if self.has(id@) {
                Some(self.state_at(id@))
            } else {
                None::<SlaveState>
            },
    {
        let found = self.find_index(id);
        match found {
            Some(i) => {
                proof {
                    lemma_seq_idx_unique(self.records@, id@, i as int);
                }
                Some(self.records[i].state)
            },
            None => None,
        }
    }
}

/// After removing index `i0` of `os` and pushing a record with the same
/// identity `k`, the registry maps `k` to the pushed record and every other
/// identity to what it mapped to before.
proof fn lemma_upsert(os: Seq<SlaveRecord>, ns: Seq<SlaveRecord>, i0: int, k: Seq<u8>)
    requires
        seq_distinct(os),
        forall|i: int| 0 <= i < os.len() ==> (#[trigger] os[i].caps).wf(),
        0 <= i0 < os.len(),
        os[i0].id@ == k,
        ns == os.remove(i0).push(ns.last()),
        ns.len() == os.len(),
        ns.last().id@ == k,
        ns.last().caps.wf(),
    ensures
        seq_distinct(ns),
        forall|i: int| 0 <= i < ns.len() ==> (#[trigger] ns[i].caps).wf(),
        forall|k2: Seq<u8>| #![trigger seq_has(ns, k2)] seq_has(ns, k2) <==> seq_has(os, k2),
        seq_idx(ns, k) == ns.len() - 1,
        forall|k2: Seq<u8>|
            #![trigger seq_idx(ns, k2)]
            seq_has(os, k2) && k2 != k ==> ns[seq_idx(ns, k2)] == os[seq_idx(os, k2)],
{
    let mid = os.remove(i0);
    assert(forall|j: int| 0 <= j < i0 ==> mid[j] == os[j]);
    assert(forall|j: int| i0 <= j < mid.len() ==> mid[j] == os[j + 1]);
    assert(forall|j: int| 0 <= j < ns.len() - 1 ==> ns[j] == mid[j]);
    assert forall|i: int, j: int| 0 <= i < j < ns.len() implies (#[trigger] ns[i].id)@
        != (#[trigger] ns[j].id)@ by {
        let oi = if i < i0 {
            i
        } else {
            i + 1
        };
        if j < ns.len() - 1 {
            let oj = if j < i0 {
                j
            } else {
                j + 1
            };
            assert(ns[i] == os[oi] && ns[j] == os[oj]);
        } else {
            assert(ns[i] == os[oi]);
            assert(oi != i0);
            assert(os[oi].id@ != os[i0].id@);
        }
    }
    assert forall|i: int| 0 <= i < ns.len() implies (#[trigger] ns[i].caps).wf() by {
        if i < ns.len() - 1 {
            let oi = if i < i0 {
                i
            } else {
                i + 1
            };
            assert(ns[i] == os[oi]);
        }
    }
    assert forall|k2: Seq<u8>| #![trigger seq_has(ns, k2)] seq_has(ns, k2) <==> seq_has(
        os,
        k2,
    ) by {
        if seq_has(ns, k2) {
            let i = seq_idx(ns, k2);
            lemma_seq_idx_valid(ns, k2);
            if i < ns.len() - 1 {
                let oi = if i < i0 {
                    i
                } else {
                    i + 1
                };
                assert(os[oi].id@ == k2);
            } else {
                assert(os[i0].id@ == k2);
            }
        }
        if seq_has(os, k2) {
            let oi = seq_idx(os, k2);
            lemma_seq_idx_valid(os, k2);
            if oi == i0 {
                assert(ns[ns.len() - 1].id@ == k2);
            } else if oi < i0 {
                assert(ns[oi].id@ == k2);
            } else {
                assert(ns[oi - 1].id@ == k2);
            }
        }
    }
    lemma_seq_idx_unique(ns, k, ns.len() - 1);
    assert forall|k2: Seq<u8>|
        #![trigger seq_idx(ns, k2)]
        seq_has(os, k2) && k2 != k implies ns[seq_idx(ns, k2)] == os[seq_idx(os, k2)] by {
        let oi = seq_idx(os, k2);
        lemma_seq_idx_valid(os, k2);
        assert(oi != i0);
        let ni = if oi < i0 {
            oi
        } else {
            oi - 1
        };
        assert(ns[ni] == os[oi]);
        lemma_seq_idx_unique(ns, k2, ni);
    }
}

/// Appending a record with a fresh identity `k` adds exactly that mapping.
proof fn lemma_append(os: Seq<SlaveRecord>, ns: Seq<SlaveRecord>, k: Seq<u8>)
    requires
        seq_distinct(os),
        forall|i: int| 0 <= i < os.len() ==> (#[trigger] os[i].caps).wf(),
        !seq_has(os, k),
        ns == os.push(ns.last()),
        ns.len() == os.len() + 1,
        ns.last().id@ == k,
        ns.last().caps.wf(),
    ensures
        seq_distinct(ns),
        forall|i: int| 0 <= i < ns.len() ==> (#[trigger] ns[i].caps).wf(),
        forall|k2: Seq<u8>|
            #![trigger seq_has(ns, k2)]
            seq_has(ns, k2) <==> (seq_has(os, k2) || k2 == k),
        seq_idx(ns, k) == ns.len() - 1,
        forall|k2: Seq<u8>|
            #![trigger seq_idx(ns, k2)]
            seq_has(os, k2) && k2 != k ==> ns[seq_idx(ns, k2)] == os[seq_idx(os, k2)],
{
    assert(forall|j: int| 0 <= j < os.len() ==> ns[j] == os[j]);
    assert forall|i: int, j: int| 0 <= i < j < ns.len() implies (#[trigger] ns[i].id)@
        != (#[trigger] ns[j].id)@ by {
        if j == ns.len() - 1 {
            assert(ns[i] == os[i]);
            if os[i].id@ == k {
                assert(seq_has(os, k));
            }
        }
    }
    assert forall|k2: Seq<u8>| #![trigger seq_has(ns, k2)] seq_has(ns, k2) <==> (seq_has(os, k2)
        || k2 == k) by {
        if seq_has(ns, k2) {
            let i = seq_idx(ns, k2);
            lemma_seq_idx_valid(ns, k2);
            if i < ns.len() - 1 {
                assert(os[i].id@ == k2);
            }
        }
        if seq_has(os, k2) {
            let oi = seq_idx(os, k2);
            lemma_seq_idx_valid(os, k2);
            assert(ns[oi].id@ == k2);
        }
        if k2 == k {
            assert(ns[ns.len() - 1].id@ == k2);
        }
    }
    lemma_seq_idx_unique(ns, k, ns.len() - 1);
    assert forall|k2: Seq<u8>|
        #![trigger seq_idx(ns, k2)]
        seq_has(os, k2) && k2 != k implies ns[seq_idx(ns, k2)] == os[seq_idx(os, k2)] by {
        let oi = seq_idx(os, k2);
        lemma_seq_idx_valid(os, k2);
        assert(ns[oi] == os[oi]);
        lemma_seq_idx_unique(ns, k2, oi);
    }
}

/// Removing the record at `i0` deletes exactly the mapping for its identity.
proof fn lemma_drop(os: Seq<SlaveRecord>, ns: Seq<SlaveRecord>, i0: int, k: Seq<u8>)
    requires
        seq_distinct(os),
        forall|i: int| 0 <= i < os.len() ==> (#[trigger] os[i].caps).wf(),
        0 <= i0 < os.len(),
        os[i0].id@ == k,
        ns == os.remove(i0),
    ensures
        seq_distinct(ns),
        forall|i: int| 0 <= i < ns.len() ==> (#[trigger] ns[i].caps).wf(),
        !seq_has(ns, k),
        forall|k2: Seq<u8>|
            #![trigger seq_has(ns, k2)]
            k2 != k ==> (seq_has(ns, k2) <==> seq_has(os, k2)),
        forall|k2: Seq<u8>|
            #![trigger seq_idx(ns, k2)]
            seq_has(os, k2) && k2 != k ==> ns[seq_idx(ns, k2)] == os[seq_idx(os, k2)],
{
    assert(forall|j: int| 0 <= j < i0 ==> ns[j] == os[j]);
    assert(forall|j: int| i0 <= j < ns.len() ==> ns[j] == os[j + 1]);
    assert forall|i: int, j: int| 0 <= i < j < ns.len() implies (#[trigger] ns[i].id)@
        != (#[trigger] ns[j].id)@ by {
        let oi = if i < i0 {
            i
        } else {
            i + 1
        };
        let oj = if j < i0 {
            j
        } else {
            j + 1
        };
        assert(ns[i] == os[oi] && ns[j] == os[oj]);
    }
    assert forall|i: int| 0 <= i < ns.len() implies (#[trigger] ns[i].caps).wf() by {
        let oi = if i < i0 {
            i
        } else {
            i + 1
        };
        assert(ns[i] == os[oi]);
    }
    if seq_has(ns, k) {
        let i = seq_idx(ns, k);
        lemma_seq_idx_valid(ns, k);
        let oi = if i < i0 {
            i
        } else {
            i + 1
        };
        assert(os[oi].id@ == k && oi != i0);
        assert(os[oi].id@ != os[i0].id@);
    }
    assert forall|k2: Seq<u8>| #![trigger seq_has(ns, k2)] k2 != k implies (seq_has(ns, k2)
        <==> seq_has(os, k2)) by {
        if seq_has(ns, k2) {
            let i = seq_idx(ns, k2);
            lemma_seq_idx_valid(ns, k2);
            let oi = if i < i0 {
                i
            } else {
                i + 1
            };
            assert(os[oi].id@ == k2);
        }
        if seq_has(os, k2) {
            let oi = seq_idx(os, k2);
            lemma_seq_idx_valid(os, k2);
            assert(oi != i0);
            if oi < i0 {
                assert(ns[oi].id@ == k2);
            } else {
                assert(ns[oi - 1].id@ == k2);
            }
        }
    }
    assert forall|k2: Seq<u8>|
        #![trigger seq_idx(ns, k2)]
        seq_has(os, k2) && k2 != k implies ns[seq_idx(ns, k2)] == os[seq_idx(os, k2)] by {
        let oi = seq_idx(os, k2);
        lemma_seq_idx_valid(os, k2);
        assert(oi != i0);
        let ni = if oi < i0 {
            oi
        } else {
            oi - 1
        };
        assert(ns[ni] == os[oi]);
        lemma_seq_idx_unique(ns, k2, ni);
    }
}

} // verus!
