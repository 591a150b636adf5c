//! The capability matcher: given the required capability set of a command,
//! pick the best idle slave from the registry.
//!
//! A slave qualifies when it is Idle and its declared set is a superset of
//! the required set.  Among qualifying slaves the one with the fewest
//! declared capabilities wins — a best-fit heuristic that preserves highly
//! capable slaves for commands that need them — and equal cardinalities are
//! broken by the byte-lexicographic order on routing identities, so that the
//! choice is a pure function of the registry contents.

use vstd::prelude::*;
use crate::cap::CapSet;
use crate::cap::lemma_lex_lt_asym;
use crate::cap::lemma_lex_lt_total;
use crate::cap::lemma_lex_lt_trans;
use crate::cap::lex_lt;
use crate::cap::tokens_subset;
use crate::registry::SlaveId;
use crate::registry::SlaveRegistry;
use crate::registry::SlaveState;
use crate::registry::lemma_seq_idx_unique;
use crate::registry::lemma_seq_idx_valid;
use crate::registry::seq_idx;

verus! {

/// The slave with identity `k` may be sent a command requiring `required`:
/// it is connected, Idle, and declares every required token.
pub open spec fn qualifies(reg: SlaveRegistry, required: Seq<Seq<u8>>, k: Seq<u8>) -> bool {
    reg.has(k) && reg.state_at(k) == SlaveState::Idle && tokens_subset(required, reg.caps_at(k))
}

/// `k1` is at least as good a choice as `k2`: strictly fewer declared
/// capabilities, or equally many and first in identity order.
pub open spec fn beats(reg: SlaveRegistry, k1: Seq<u8>, k2: Seq<u8>) -> bool {
    ||| reg.caps_at(k1).len() < reg.caps_at(k2).len()
    ||| (reg.caps_at(k1).len() == reg.caps_at(k2).len() && (k1 == k2 || lex_lt(k1, k2)))
}

/// `k` is the slave the scheduler must select for `required`: it qualifies
/// and is at least as good as every qualifying slave.
pub open spec fn is_best(reg: SlaveRegistry, required: Seq<Seq<u8>>, k: Seq<u8>) -> bool {
    qualifies(reg, required, k) && forall|k2: Seq<u8>|
        #[trigger] qualifies(reg, required, k2) ==> beats(reg, k, k2)
}

/// The record at index `m` qualifies for `required`.
spec fn q_at(reg: SlaveRegistry, required: Seq<Seq<u8>>, m: int) -> bool {
    reg.records@[m].state == SlaveState::Idle && tokens_subset(required, reg.records@[m].caps@)
}

/// Index-level reading of `beats`.
spec fn beats_at(reg: SlaveRegistry, b: int, m: int) -> bool {
    ||| reg.records@[b].caps@.len() < reg.records@[m].caps@.len()
    ||| (reg.records@[b].caps@.len() == reg.records@[m].caps@.len() && (b == m || lex_lt(
        reg.records@[b].id@,
        reg.records@[m].id@,
    )))
}

proof fn lemma_beats_at_trans(reg: SlaveRegistry, a: int, b: int, c: int)
    requires
        beats_at(reg, a, b),
        beats_at(reg, b, c),
    ensures
        beats_at(reg, a, c),
{
    if reg.records@[a].caps@.len() == reg.records@[b].caps@.len() && reg.records@[b].caps@.len()
        == reg.records@[c].caps@.len() && a != b && b != c && a != c {
        lemma_lex_lt_trans(reg.records@[a].id@, reg.records@[b].id@, reg.records@[c].id@);
    }
}

/// At most one slave is best: the choice is a pure function of the registry
/// contents, so identical registries always yield the same selection.
pub proof fn lemma_select_deterministic(
    reg: SlaveRegistry,
    required: Seq<Seq<u8>>,
    k1: Seq<u8>,
    k2: Seq<u8>,
)
    requires
        is_best(reg, required, k1),
        is_best(reg, required, k2),
    ensures
        k1 == k2,
{
    assert(beats(reg, k1, k2));
    assert(beats(reg, k2, k1));
    if k1 != k2 {
        if lex_lt(k1, k2) {
            lemma_lex_lt_asym(k1, k2);
        }
    }
}

/// Select the best idle slave for `required`, or none when no idle slave
/// qualifies.
pub fn select_slave(reg: &SlaveRegistry, required: &CapSet) -> (r: Option<SlaveId>)
    requires
        reg.wf(),
    ensures
        match r {
            Some(id) => is_best(*reg, required@, id@),
            None => forall|k: Seq<u8>| !qualifies(*reg, required@, k),
        },
{
    let n = reg.records.len();
    let mut best: Option<usize> = None;
    let mut i: usize = 0;
    while i < n
        invariant
            reg.wf(),
            n == reg.records@.len(),
            0 <= i <= n,
            match best {
                Some(b) => 0 <= b < i && q_at(*reg, required@, b as int) && forall|m: int|
                    0 <= m < i && #[trigger] q_at(*reg, required@, m) ==> beats_at(
                        *reg,
                        b as int,
                        m,
                    ),
                None => forall|m: int| 0 <= m < i ==> !q_at(*reg, required@, m),
            },
        decreases n - i,
    {
        let idle = record_is_idle(reg, i);
        let qual = if idle {
            reg.records[i].caps.contains_all(required)
        } else {
            false
        };
        if qual {
            match best {
                None => {
                    best = Some(i);
                },
                Some(b) => {
                    let ci = reg.records[i].caps.len();
                    let cb = reg.records[b].caps.len();
                    let take = if ci < cb {
                        true
                    } else if ci == cb {
                        reg.records[i].id.lt_id(&reg.records[b].id)
                    } else {
                        false
                    };
                    if take {
                        proof {
                            assert(beats_at(*reg, i as int, b as int));
                            assert forall|m: int|
                                0 <= m < i + 1 && #[trigger] q_at(*reg, required@, m) implies
                                beats_at(*reg, i as int, m) by {
                                if m < i {
                                    lemma_beats_at_trans(*reg, i as int, b as int, m);
                                }
                            }
                        }
                        best = Some(i);
                    } else {
                        proof {
                            if cb == ci {
                                lemma_lex_lt_total(
                                    reg.records@[b as int].id@,
                                    reg.records@[i as int].id@,
                                );
                                assert(reg.records@[b as int].id@ != reg.records@[i as int].id@);
                            }
                            assert(beats_at(*reg, b as int, i as int));
                        }
                    }
                },
            }
        }
        i += 1;
    }
    match best {
        Some(b) => {
            let id = reg.records[b].id;
            proof {
                lemma_seq_idx_unique(reg.records@, id@, b as int);
                assert(qualifies(*reg, required@, id@));
                assert forall|k2: Seq<u8>| #[trigger] qualifies(*reg, required@, k2) implies beats(
                    *reg,
                    id@,
                    k2,
                ) by {
                    lemma_seq_idx_valid(reg.records@, k2);
                    let m = seq_idx(reg.records@, k2);
                    assert(q_at(*reg, required@, m));
                    assert(beats_at(*reg, b as int, m));
                }
            }
            Some(id)
        },
        None => {
            proof {
                assert forall|k: Seq<u8>| !qualifies(*reg, required@, k) by {
                    if qualifies(*reg, required@, k) {
                        lemma_seq_idx_valid(reg.records@, k);
                        let m = seq_idx(reg.records@, k);
                        assert(q_at(*reg, required@, m));
                    }
                }
            }
            None
        },
    }
}

/// Whether the record at `i` is Idle (helper kept separate so that the
/// match on lifecycle state stays readable at the call site).
fn record_is_idle(reg: &SlaveRegistry, i: usize) -> (r: bool)
    requires
        i < reg.records@.len(),
    ensures
        r == (reg.records@[i as int].state == SlaveState::Idle),
{
    reg.records[i].state == SlaveState::Idle
}

} // verus!
