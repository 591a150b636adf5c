//! The master-side protocol state machine.
//!
//! The master processes one event at a time: a verified (or rejected)
//! message from a slave, the submission of a build command, or a
//! transport-reported disconnect.  It owns the slave registry and the queue
//! of commands no slave could serve yet.  The surrounding program performs
//! transport and cryptography and hands each event in as a plain value; the
//! returned [`Dispatch`], when present, is what it must sign, encrypt and
//! send.
//!
//! Queue invariant: a command is pending only while no idle slave qualifies
//! for it, so a pending command is dispatched exactly when a qualifying
//! slave next declares itself idle — no command is silently dropped.

use vstd::prelude::*;
use crate::cap::CapSet;
use crate::cap::tokens_subset;
use crate::message::PendingCommand;
use crate::message::Request;
use crate::message::Response;
use crate::registry::SlaveId;
use crate::registry::SlaveRegistry;
use crate::registry::SlaveState;
use crate::scheduler::is_best;
use crate::scheduler::qualifies;
use crate::scheduler::select_slave;

verus! {

/// A fully decided outgoing send: wrap `response` for `command` and address
/// it to the routing identity `to`.
pub struct Dispatch {
    pub to: SlaveId,
    pub command: PendingCommand,
    pub response: Response,
}

/// The queued command at index `p` could be served by a slave declaring the
/// capability tokens `caps`.
pub open spec fn pending_matched(pending: Seq<PendingCommand>, caps: Seq<Seq<u8>>, p: int) -> bool {
    0 <= p < pending.len() && tokens_subset(pending[p].required@, caps)
}

/// The global state of the master: the slave registry and the queue of
/// commands that no slave qualified for at submission time.
pub struct Master {
    pub registry: SlaveRegistry,
    pub pending: Vec<PendingCommand>,
}

impl Master {
    /// Well-formedness: the registry is a map with well-formed capability
    /// sets, every queued requirement set is well formed, and no queued
    /// command has a qualifying idle slave (else it would have been
    /// dispatched already).
    pub open spec fn wf(self) -> bool {
        &&& self.registry.wf()
        &&& forall|i: int|
            0 <= i < self.pending@.len() ==> (#[trigger] self.pending@[i]).required.wf()
        &&& forall|p: int, k: Seq<u8>|
            0 <= p < self.pending@.len() ==> !(#[trigger] qualifies(
                self.registry,
                self.pending@[p].required@,
                k,
            ))
    }

    pub fn new() -> (r: Master)
        ensures
            r.wf(),
            forall|k: Seq<u8>| !r.registry.has(k),
            r.pending@.len() == 0,
    {
        Master { registry: SlaveRegistry::new(), pending: Vec::new() }
    }

    /// Find an idle slave with the smallest number of capabilities that has
    /// at least the given capabilities.
    #[allow(non_snake_case)]
    pub fn findIdleSlave(&self, requiredCaps: &CapSet) -> (r: Option<SlaveId>)
        requires
            self.wf(),
        ensures
            match r {
                Some(id) => is_best(self.registry, requiredCaps@, id@),
                None => forall|k: Seq<u8>| !qualifies(self.registry, requiredCaps@, k),
            },
    {
        select_slave(&self.registry, requiredCaps)
    }

    /// Submit a build command.  If an idle slave qualifies, the best one is
    /// marked Dispatched and the command is handed back for sending to it;
    /// otherwise the command is queued, never dropped.
    pub fn submit(&mut self, command: PendingCommand) -> (r: Option<Dispatch>)
        requires
            old(self).wf(),
            command.required.wf(),
        ensures
            final(self).wf(),
            r is Some <==> (exists|k: Seq<u8>|
                qualifies(old(self).registry, command.required@, k)),
            (r matches Some(d) ==> ({
                &&& d.command == command
                &&& d.response == Response::COMMAND
                &&& is_best(old(self).registry, command.required@, d.to@)
                &&& final(self).pending == old(self).pending
                &&& (forall|k: Seq<u8>|
                    #![trigger final(self).registry.has(k)]
                    final(self).registry.has(k) <==> old(self).registry.has(k))
                &&& final(self).registry.state_at(d.to@) == SlaveState::Dispatched
                &&& final(self).registry.caps_at(d.to@) == old(self).registry.caps_at(d.to@)
                &&& (forall|k: Seq<u8>|
                    #![trigger final(self).registry.state_at(k)]
                    #![trigger final(self).registry.caps_at(k)]
                    old(self).registry.has(k) && k != d.to@ ==> final(self).registry.state_at(k)
                        == old(self).registry.state_at(k) && final(self).registry.caps_at(k) == old(
                        self,
                    ).registry.caps_at(k))
            })),
            (r is None ==> final(self).registry == old(self).registry && final(self).pending@ == old(
                self,
            ).pending@.push(command)),
    {
        let sel = select_slave(&self.registry, &command.required);
        match sel {
            Some(id) => {
                let ok = self.registry.mark_dispatched(id);
                proof {
                    assert(ok);
                    assert forall|p: int, k: Seq<u8>|
                        0 <= p < self.pending@.len() implies !(#[trigger] qualifies(
                        self.registry,
                        self.pending@[p].required@,
                        k,
                    )) by {
                        if qualifies(self.registry, self.pending@[p].required@, k) {
                            assert(k != id@);
                            assert(qualifies(
                                old(self).registry,
                                old(self).pending@[p].required@,
                                k,
                            ));
                        }
                    }
                }
                Some(Dispatch { to: id, command, response: Response::COMMAND })
            },
            None => {
                self.pending.push(command);
                proof {
                    assert forall|p: int, k: Seq<u8>|
                        0 <= p < self.pending@.len() implies !(#[trigger] qualifies(
                        self.registry,
                        self.pending@[p].required@,
                        k,
                    )) by {
                        if p < self.pending@.len() - 1 {
                            assert(self.pending@[p] == old(self).pending@[p]);
                        } else {
                            assert(self.pending@[p] == command);
                        }
                    }
                }
                None
            },
        }
    }

    /// Process one message received on the command socket, already taken
    /// through the secure channel: `verified` is the decoded request when
    /// decryption and signature verification succeeded, and `None` when
    /// they failed.
    ///
    /// A rejected message changes nothing and produces no response.  A
    /// verified IDLE records the sender as idle with its declared
    /// capabilities; if a queued command can now be served by that slave,
    /// the first such command is dispatched to it at once (eager dispatch)
    /// and the sender becomes Dispatched instead.
    pub fn handle_message(&mut self, from: SlaveId, verified: Option<Request>) -> (r: Option<
        Dispatch,
    >)
        requires
            old(self).wf(),
            (verified matches Some(req) ==> (req matches Request::IDLE(c) && c.wf())),
        ensures
            final(self).wf(),
            (verified is None ==> *final(self) == *old(self) && r is None),
            (verified matches Some(req) ==> (req matches Request::IDLE(c) && ({
                &&& (forall|k: Seq<u8>|
                    #![trigger final(self).registry.has(k)]
                    final(self).registry.has(k) <==> (old(self).registry.has(k) || k == from@))
                &&& final(self).registry.caps_at(from@) == c@
                &&& (forall|k: Seq<u8>|
                    #![trigger final(self).registry.state_at(k)]
                    #![trigger final(self).registry.caps_at(k)]
                    old(self).registry.has(k) && k != from@ ==> final(self).registry.state_at(k)
                        == old(self).registry.state_at(k) && final(self).registry.caps_at(k) == old(
                        self,
                    ).registry.caps_at(k))
                &&& ((forall|p: int| !pending_matched(old(self).pending@, c@, p)) ==> ({
                    &&& r is None
                    &&& final(self).pending == old(self).pending
                    &&& final(self).registry.state_at(from@) == SlaveState::Idle
                }))
                &&& ((exists|p: int| #[trigger] pending_matched(old(self).pending@, c@, p)) ==> ({
                    &&& final(self).registry.state_at(from@) == SlaveState::Dispatched
                    &&& (r matches Some(d) && d.to == from && d.response == Response::COMMAND
                        && (exists|p: int|
                        #![trigger pending_matched(old(self).pending@, c@, p)]
                        pending_matched(old(self).pending@, c@, p) && (forall|q: int|
                            0 <= q < p ==> !pending_matched(old(self).pending@, c@, q))
                            && d.command == old(self).pending@[p] && final(self).pending@ == old(
                            self,
                        ).pending@.remove(p)))
                }))
            }))),
    {
        match verified {
            None => None,
            Some(req) => match req {
                Request::IDLE(caps) => {
                    let ghost capsv = caps@;
                    let n = self.pending.len();
                    let mut found: Option<usize> = None;
                    let mut p: usize = 0;
                    while p < n
                        invariant
                            *self == *old(self),
                            n == self.pending@.len(),
                            0 <= p <= n,
                            caps@ == capsv,
                            match found {
                                Some(f) => 0 <= f < p && pending_matched(
                                    self.pending@,
                                    capsv,
                                    f as int,
                                ) && (forall|q: int|
                                    0 <= q < f ==> !pending_matched(self.pending@, capsv, q)),
                                None => forall|q: int|
                                    0 <= q < p ==> !pending_matched(self.pending@, capsv, q),
                            },
                        decreases n - p,
                    {
                        if found.is_none() {
                            let sat = caps.contains_all(&self.pending[p].required);
                            if sat {
                                found = Some(p);
                            }
                        }
                        p += 1;
                    }
                    self.registry.mark_idle(from, caps);
                    match found {
                        Some(f) => {
                            let cmd = self.pending.remove(f);
                            let ok = self.registry.mark_dispatched(from);
                            proof {
                                assert(ok);
                                assert(final(self).pending@ == old(self).pending@.remove(f as int));
                                assert forall|i: int|
                                    0 <= i < self.pending@.len() implies (
                                #[trigger] self.pending@[i]).required.wf() by {
                                    if i < f {
                                        assert(self.pending@[i] == old(self).pending@[i]);
                                    } else {
                                        assert(self.pending@[i] == old(self).pending@[i + 1]);
                                    }
                                }
                                assert forall|p2: int, k: Seq<u8>|
                                    0 <= p2 < self.pending@.len() implies !(#[trigger] qualifies(
                                    self.registry,
                                    self.pending@[p2].required@,
                                    k,
                                )) by {
                                    let oi = if p2 < f {
                                        p2
                                    } else {
                                        p2 + 1
                                    };
                                    assert(self.pending@[p2] == old(self).pending@[oi]);
                                    if qualifies(self.registry, self.pending@[p2].required@, k) {
                                        assert(k != from@);
                                        assert(old(self).registry.has(k));
                                        assert(qualifies(
                                            old(self).registry,
                                            old(self).pending@[oi].required@,
                                            k,
                                        ));
                                    }
                                }
                                assert(pending_matched(old(self).pending@, capsv, f as int));
                            }
                            Some(Dispatch { to: from, command: cmd, response: Response::COMMAND })
                        },
                        None => {
                            proof {
                                assert forall|p2: int, k: Seq<u8>|
                                    0 <= p2 < self.pending@.len() implies !(#[trigger] qualifies(
                                    self.registry,
                                    self.pending@[p2].required@,
                                    k,
                                )) by {
                                    if qualifies(self.registry, self.pending@[p2].required@, k) {
                                        if k == from@ {
                                            assert(self.registry.caps_at(k) == capsv);
                                            assert(!pending_matched(self.pending@, capsv, p2));
                                        } else {
                                            assert(old(self).registry.has(k));
                                            assert(qualifies(
                                                old(self).registry,
                                                old(self).pending@[p2].required@,
                                                k,
                                            ));
                                        }
                                    }
                                }
                            }
                            None
                        },
                    }
                },
            },
        }
    }

    /// Transport-reported disconnect of `id`: drop its record.  If it was
    /// Dispatched its in-flight command is considered lost; queued commands
    /// are unaffected.
    pub fn on_disconnect(&mut self, id: SlaveId)
        requires
            old(self).wf(),
        ensures
            final(self).wf(),
            !final(self).registry.has(id@),
            forall|k: Seq<u8>|
                #![trigger final(self).registry.has(k)]
                k != id@ ==> (final(self).registry.has(k) <==> old(self).registry.has(k)),
            forall|k: Seq<u8>|
                #![trigger final(self).registry.state_at(k)]
                #![trigger final(self).registry.caps_at(k)]
                old(self).registry.has(k) && k != id@ ==> final(self).registry.state_at(k) == old(
                    self,
                ).registry.state_at(k) && final(self).registry.caps_at(k) == old(
                    self,
                ).registry.caps_at(k),
            final(self).pending == old(self).pending,
    {
        self.registry.remove(id);
        proof {
            assert forall|p: int, k: Seq<u8>|
                0 <= p < self.pending@.len() implies !(#[trigger] qualifies(
                self.registry,
                self.pending@[p].required@,
                k,
            )) by {
                if qualifies(self.registry, self.pending@[p].required@, k) {
                    assert(k != id@);
                    assert(old(self).registry.has(k));
                    assert(qualifies(old(self).registry, old(self).pending@[p].required@, k));
                }
            }
        }
    }

    /// How many submitted commands are still waiting for a qualifying
    /// slave.
    pub fn pending_count(&self) -> (n: usize)
        ensures
            n == self.pending@.len(),
    {
        self.pending.len()
    }

    /// Observe one slave's lifecycle state, if it is connected.
    pub fn slave_state(&self, id: &SlaveId) -> (r: Option<SlaveState>)
        requires
            self.wf(),
        ensures
            r == if self.registry.has(id@) {
                Some(self.registry.state_at(id@))
            } else {
                None::<SlaveState>
            },
    {
        self.registry.state_of(id)
    }
}

/// The queue invariant, stated on its own: while the master is well formed,
/// no queued command has a qualifying idle slave — a command waits only
/// because nobody can serve it, and the eager-dispatch transition of
/// `handle_message` hands it out as soon as somebody can.
pub proof fn lemma_pending_unmatched(m: Master, p: int, k: Seq<u8>)
    requires
        m.wf(),
        0 <= p < m.pending@.len(),
    ensures
        !qualifies(m.registry, m.pending@[p].required@, k),
{
}

/// Eager dispatch is still a scheduler decision: when a slave declaring
/// `caps` satisfies the queued command at `p`, then in the registry `r2`
/// obtained by marking that slave idle (`idk` names its identity) it is the
/// unique qualifying slave, hence the one `select_slave` would return.  So
/// every Idle-to-Dispatched transition of the master goes to a slave that
/// is best for the command it receives.
pub proof fn lemma_eager_dispatch_is_best(
    m: Master,
    r2: SlaveRegistry,
    idk: Seq<u8>,
    caps: Seq<Seq<u8>>,
    p: int,
)
    requires
        m.wf(),
        pending_matched(m.pending@, caps, p),
        forall|k: Seq<u8>|
            #![trigger r2.has(k)]
            r2.has(k) <==> (m.registry.has(k) || k == idk),
        r2.state_at(idk) == SlaveState::Idle,
        r2.caps_at(idk) == caps,
        forall|k: Seq<u8>|
            #![trigger r2.state_at(k)]
            #![trigger r2.caps_at(k)]
            m.registry.has(k) && k != idk ==> r2.state_at(k) == m.registry.state_at(k)
                && r2.caps_at(k) == m.registry.caps_at(k),
    ensures
        is_best(r2, m.pending@[p].required@, idk),
{
    let req = m.pending@[p].required@;
    assert(qualifies(r2, req, idk));
    assert forall|k2: Seq<u8>| #[trigger] qualifies(r2, req, k2) implies crate::scheduler::beats(
        r2,
        idk,
        k2,
    ) by {
        if k2 != idk {
            assert(m.registry.has(k2));
            assert(qualifies(m.registry, req, k2));
        }
    }
}

} // verus!
