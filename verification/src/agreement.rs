//! Why the protocol is safe: agreement, validity and the stickiness of a
//! decision, proved of every run in which each peer follows the correct
//! behavior for as long as it runs.
//!
//! A run is told by its ledger: for every phase and peer, what the peer
//! broadcast and accepted in that phase, as far as it got. Peers may be
//! arbitrarily slow and may stop for good at the boundary of a round; the
//! transport neither invents nor duplicates a message.

use crate::message::Value;
use crate::outcome::Decision;
use crate::step::{spec_conclude, spec_verdict, Ballots};
use vstd::prelude::*;

verus! {

/// What one peer did in one phase, as far as it got.
pub struct Turn {
    /// The report that it broadcast, once it has begun the phase.
    pub report: Option<Value>,
    /// The reports that it accepted before it broadcast its proposal.
    pub reports: Ballots,
    /// The proposal that it broadcast, once it is through the report round.
    pub proposal: Option<Option<Value>>,
    /// The proposals that it accepted before it left the phase.
    pub proposals: Ballots,
    /// The state in which it left the phase, once it has.
    pub outcome: Option<Decision>,
}

/// The ledger of a run: the value that each peer starts with, the number of
/// faulty peers that the peers allow for, and the turn of every peer in
/// every phase. Phase 0 of the ledger is the first phase that the peers
/// run. The turns of the phases that a peer has not reached are empty.
pub struct Ledger {
    pub num_adversaries: nat,
    pub inits: Seq<Value>,
    pub turns: spec_fn(int, int) -> Turn,
}

/// How many of the first `n` peers satisfy `holds`.
pub open spec fn count(n: nat, holds: spec_fn(int) -> bool) -> nat
    decreases n,
{
    if n == 0 {
        0
    } else {
        count((n - 1) as nat, holds) + if holds(n - 1) {
            1nat
        } else {
            0nat
        }
    }
}

impl Ledger {
    /// The number of peers.
    pub open spec fn num_processes(self) -> nat {
        self.inits.len()
    }

    /// The number of ballots that a peer waits for in each round.
    pub open spec fn take(self) -> nat {
        (self.num_processes() - self.num_adversaries) as nat
    }

    /// What peer `peer` did in phase `phase`.
    pub open spec fn turn(self, phase: int, peer: int) -> Turn {
        (self.turns)(phase, peer)
    }

    /// Whether a peer reported `value` in `phase`.
    pub open spec fn reported(self, phase: int, value: Value) -> spec_fn(int) -> bool {
        |peer: int| self.turn(phase, peer).report == Some(value)
    }

    /// Whether a peer cast the ballot `ballot` as its proposal in `phase`.
    pub open spec fn proposed(self, phase: int, ballot: Option<Value>) -> spec_fn(int) -> bool {
        |peer: int| self.turn(phase, peer).proposal == Some(ballot)
    }

    /// How many peers reported `value` in `phase`.
    pub open spec fn reporters(self, phase: int, value: Value) -> nat {
        count(self.num_processes(), self.reported(phase, value))
    }

    /// How many peers cast `ballot` as their proposal in `phase`.
    pub open spec fn proposers(self, phase: int, ballot: Option<Value>) -> nat {
        count(self.num_processes(), self.proposed(phase, ballot))
    }

    /// Whether `turn` is what a correct peer can have done in `phase`.
    ///
    /// The peer goes through the phase in order. It reports the value that
    /// it started with or took from the phase before. The ballots that it
    /// accepts in a round are as many as it waits for, and no more of a kind
    /// than peers have broadcast of that kind in the phase. Its proposal and
    /// the state in which it leaves the phase follow from what it accepted.
    pub open spec fn is_turn(self, phase: int, peer: int) -> bool {
        let turn = self.turn(phase, peer);
        &&& turn.outcome is Some ==> turn.proposal is Some
        &&& turn.proposal is Some ==> turn.report is Some
        &&& turn.report matches Some(value) ==> if phase == 0 {
            value == self.inits[peer]
        } else {
            self.turn(phase - 1, peer).outcome matches Some(before) && value == before.spec_next()
        }
        &&& turn.proposal matches Some(ballot) ==> {
            &&& turn.reports.total() == self.take()
            &&& turn.reports.undecided == 0
            &&& turn.reports.ones <= self.reporters(phase, Value::One)
            &&& turn.reports.zeros <= self.reporters(phase, Value::Zero)
            &&& ballot == spec_verdict(turn.reports, self.num_processes())
        }
        &&& turn.outcome matches Some(decision) ==> {
            &&& turn.proposals.total() == self.take()
            &&& turn.proposals.ones <= self.proposers(phase, Some(Value::One))
            &&& turn.proposals.zeros <= self.proposers(phase, Some(Value::Zero))
            &&& turn.proposals.undecided <= self.proposers(phase, None)
            &&& exists|coin: Value| decision == spec_conclude(turn.proposals, self.num_adversaries, coin)
        }
    }

    /// Whether the ledger tells a run of correct peers.
    pub open spec fn is_run(self) -> bool {
        &&& self.num_adversaries < self.num_processes()
        &&& forall|phase: int, peer: int|
            0 <= phase && 0 <= peer < self.num_processes() ==> #[trigger] self.is_turn(phase, peer)
    }

    /// Whether fewer than half of the peers are allowed to be faulty.
    pub open spec fn tolerates(self) -> bool {
        2 * self.num_adversaries < self.num_processes()
    }

    /// Whether every report of `phase` names `value`.
    pub open spec fn all_report(self, phase: int, value: Value) -> bool {
        forall|peer: int|
            0 <= peer < self.num_processes() ==> (#[trigger] self.turn(phase, peer)).report is Some
                ==> self.turn(phase, peer).report == Some(value)
    }

    /// Whether every peer that left `phase` left it to go on with `value`.
    pub open spec fn all_go_on_with(self, phase: int, value: Value) -> bool {
        forall|peer: int|
            0 <= peer < self.num_processes() ==> (#[trigger] self.turn(phase, peer)).outcome is Some
                ==> self.turn(phase, peer).outcome.unwrap().spec_next() == value
    }

    /// Whether no peer that left `phase` decided in it on another value than
    /// `value`.
    pub open spec fn none_decides_against(self, phase: int, value: Value) -> bool {
        forall|peer: int|
            0 <= peer < self.num_processes() ==> (#[trigger] self.turn(phase, peer)).outcome is Some
                ==> self.turn(phase, peer).outcome.unwrap().spec_decided() is Some
                ==> self.turn(phase, peer).outcome.unwrap().spec_decided() == Some(value)
    }

    /// Whether every peer that left `phase` left it decided on `value`.
    pub open spec fn all_decide(self, phase: int, value: Value) -> bool {
        forall|peer: int|
            0 <= peer < self.num_processes() ==> (#[trigger] self.turn(phase, peer)).outcome is Some
                ==> self.turn(phase, peer).outcome == Some(
                Decision::Done { next: value, decided: value },
            )
    }
}

/// The other value.
pub open spec fn opposite(value: Value) -> Value {
    match value {
        Value::One => Value::Zero,
        Value::Zero => Value::One,
    }
}

/// The count of ballots for `value`.
pub open spec fn votes(ballots: Ballots, value: Value) -> nat {
    match value {
        Value::One => ballots.ones,
        Value::Zero => ballots.zeros,
    }
}

proof fn lemma_count_none(n: nat, holds: spec_fn(int) -> bool)
    requires
        forall|i: int| 0 <= i < n ==> !#[trigger] holds(i),
    ensures
        count(n, holds) == 0,
    decreases n,
{
    if n > 0 {
        lemma_count_none((n - 1) as nat, holds);
    }
}

proof fn lemma_count_apart(
    n: nat,
    first: spec_fn(int) -> bool,
    second: spec_fn(int) -> bool,
    third: spec_fn(int) -> bool,
)
    requires
        forall|i: int| 0 <= i < n ==> !(#[trigger] first(i) && #[trigger] second(i)),
        forall|i: int| 0 <= i < n ==> !(#[trigger] first(i) && #[trigger] third(i)),
        forall|i: int| 0 <= i < n ==> !(#[trigger] second(i) && #[trigger] third(i)),
    ensures
        count(n, first) + count(n, second) + count(n, third) <= n,
    decreases n,
{
    if n > 0 {
        lemma_count_apart((n - 1) as nat, first, second, third);
    }
}

impl Ledger {
    /// No peer casts two ballots in one round: the counts of the kinds of
    /// report, and of the kinds of proposal, add up to no more than the
    /// number of peers.
    proof fn lemma_one_ballot_each(self, phase: int)
        ensures
            self.reporters(phase, Value::One) + self.reporters(phase, Value::Zero)
                <= self.num_processes(),
            self.proposers(phase, Some(Value::One)) + self.proposers(phase, Some(Value::Zero))
                + self.proposers(phase, None) <= self.num_processes(),
    {
        let nobody = |peer: int| false;
        lemma_count_none(self.num_processes(), nobody);
        lemma_count_apart(
            self.num_processes(),
            self.reported(phase, Value::One),
            self.reported(phase, Value::Zero),
            nobody,
        );
        lemma_count_apart(
            self.num_processes(),
            self.proposed(phase, Some(Value::One)),
            self.proposed(phase, Some(Value::Zero)),
            self.proposed(phase, None),
        );
    }

    /// In a phase in which every report names `value`, every proposal names
    /// it and every peer that leaves the phase decides it.
    proof fn lemma_unanimous_phase_decides(self, phase: int, value: Value)
        requires
            self.is_run(),
            self.tolerates(),
            0 <= phase,
            self.all_report(phase, value),
        ensures
            self.all_decide(phase, value),
    {
        let n = self.num_processes();
        assert(self.reporters(phase, opposite(value)) == 0) by {
            let against = self.reported(phase, opposite(value));
            assert forall|peer: int| 0 <= peer < n implies !#[trigger] against(peer) by {
                let turn = self.turn(phase, peer);
            }
            lemma_count_none(n, against);
        }
        assert forall|peer: int| 0 <= peer < n && self.turn(phase, peer).proposal is Some implies
            #[trigger] self.turn(phase, peer).proposal == Some(Some(value)) by {
            assert(self.is_turn(phase, peer));
            let reports = self.turn(phase, peer).reports;
            assert(votes(reports, opposite(value)) == 0);
            assert(votes(reports, value) == self.take());
        }
        assert(self.proposers(phase, Some(opposite(value))) == 0) by {
            let against = self.proposed(phase, Some(opposite(value)));
            assert forall|peer: int| 0 <= peer < n implies !#[trigger] against(peer) by {
                let turn = self.turn(phase, peer);
            }
            lemma_count_none(n, against);
        }
        assert(self.proposers(phase, None) == 0) by {
            let blank = self.proposed(phase, None);
            assert forall|peer: int| 0 <= peer < n implies !#[trigger] blank(peer) by {
                let turn = self.turn(phase, peer);
            }
            lemma_count_none(n, blank);
        }
        assert forall|peer: int| 0 <= peer < n && (#[trigger] self.turn(phase, peer)).outcome
            is Some implies self.turn(phase, peer).outcome == Some(
            Decision::Done { next: value, decided: value },
        ) by {
            assert(self.is_turn(phase, peer));
            let proposals = self.turn(phase, peer).proposals;
            assert(votes(proposals, opposite(value)) == 0);
            assert(proposals.undecided == 0);
            assert(votes(proposals, value) == self.take());
        }
    }

    /// When every peer that left a phase goes on with `value`, every report
    /// of the next phase names it.
    proof fn lemma_reports_follow(self, phase: int, value: Value)
        requires
            self.is_run(),
            0 <= phase,
            self.all_go_on_with(phase, value),
        ensures
            self.all_report(phase + 1, value),
    {
        assert forall|peer: int|
            0 <= peer < self.num_processes() && (#[trigger] self.turn(phase + 1, peer)).report
                is Some implies self.turn(phase + 1, peer).report == Some(value) by {
            assert(self.is_turn(phase + 1, peer));
            assert(self.turn(phase, peer).outcome is Some);
        }
    }

    /// A decision locks the phase: when a peer decides `value` in a phase,
    /// every peer that leaves that phase goes on with `value`, and none
    /// decides the other value in it.
    proof fn lemma_decision_locks_phase(self, phase: int, decider: int, value: Value)
        requires
            self.is_run(),
            self.tolerates(),
            0 <= phase,
            0 <= decider < self.num_processes(),
            self.turn(phase, decider).outcome matches Some(decision) && decision.spec_decided()
                == Some(value),
        ensures
            self.all_go_on_with(phase, value),
            self.none_decides_against(phase, value),
    {
        let n = self.num_processes();
        self.lemma_one_ballot_each(phase);
        assert(self.is_turn(phase, decider));
        let seen = self.turn(phase, decider).proposals;
        assert(seen.definite() > self.num_adversaries);
        assert(seen.leading() == value);
        assert(votes(seen, value) > 0);
        assert(self.proposers(phase, Some(value)) > 0);
        // Nobody proposed the other value: that would take a second majority.
        assert(self.proposers(phase, Some(opposite(value))) == 0) by {
            let against = self.proposed(phase, Some(opposite(value)));
            assert forall|peer: int| 0 <= peer < n implies !#[trigger] against(peer) by {
                if self.turn(phase, peer).proposal == Some(Some(opposite(value))) {
                    assert(self.is_turn(phase, peer));
                    assert(2 * self.reporters(phase, opposite(value)) > n);
                    let backer = self.lemma_proposer_exists(phase, value);
                    assert(self.is_turn(phase, backer));
                    assert(2 * self.reporters(phase, value) > n);
                }
            }
            lemma_count_none(n, against);
        }
        assert(votes(seen, opposite(value)) == 0);
        assert(votes(seen, value) > self.num_adversaries);
        assert(self.proposers(phase, None) < self.take());
        assert forall|peer: int| 0 <= peer < n && (#[trigger] self.turn(phase, peer)).outcome
            is Some implies {
            let decision = self.turn(phase, peer).outcome.unwrap();
            &&& decision.spec_next() == value
            &&& decision.spec_decided() is Some ==> decision.spec_decided() == Some(value)
        } by {
            assert(self.is_turn(phase, peer));
            let proposals = self.turn(phase, peer).proposals;
            assert(votes(proposals, opposite(value)) == 0);
            assert(proposals.undecided < self.take());
            assert(votes(proposals, value) > 0);
        }
    }

    /// Where the count of proposers of a value is positive, one exists.
    proof fn lemma_proposer_exists(self, phase: int, value: Value) -> (peer: int)
        requires
            self.proposers(phase, Some(value)) > 0,
        ensures
            0 <= peer < self.num_processes(),
            self.turn(phase, peer).proposal == Some(Some(value)),
    {
        let backing = self.proposed(phase, Some(value));
        if forall|peer: int| 0 <= peer < self.num_processes() ==> !#[trigger] backing(peer) {
            lemma_count_none(self.num_processes(), backing);
        }
        choose|peer: int| 0 <= peer < self.num_processes() && #[trigger] backing(peer)
    }

    /// Once every peer that left a phase goes on with `value`, every peer
    /// that leaves a later phase decides `value` in it.
    proof fn lemma_locked_for_good(self, phase: int, later: int, value: Value)
        requires
            self.is_run(),
            self.tolerates(),
            0 <= phase < later,
            self.all_go_on_with(phase, value),
        ensures
            self.all_decide(later, value),
        decreases later - phase,
    {
        self.lemma_reports_follow(phase, value);
        self.lemma_unanimous_phase_decides(phase + 1, value);
        if phase + 1 < later {
            assert(self.all_go_on_with(phase + 1, value)) by {
                assert forall|peer: int|
                    0 <= peer < self.num_processes() && (#[trigger] self.turn(
                        phase + 1,
                        peer,
                    )).outcome is Some implies self.turn(
                    phase + 1,
                    peer,
                ).outcome.unwrap().spec_next() == value by {}
            }
            self.lemma_locked_for_good(phase + 1, later, value);
        }
    }

    /// Agreement: in a run of correct peers that allow for fewer faulty
    /// peers than half of all peers, no two peers decide differently,
    /// whatever the phases in which they decide.
    pub proof fn lemma_agreement(
        self,
        phase: int,
        peer: int,
        value: Value,
        other_phase: int,
        other_peer: int,
        other_value: Value,
    )
        requires
            self.is_run(),
            self.tolerates(),
            0 <= phase,
            0 <= other_phase,
            0 <= peer < self.num_processes(),
            0 <= other_peer < self.num_processes(),
            self.turn(phase, peer).outcome matches Some(decision) && decision.spec_decided()
                == Some(value),
            self.turn(other_phase, other_peer).outcome matches Some(decision)
                && decision.spec_decided() == Some(other_value),
        ensures
            value == other_value,
    {
        if phase <= other_phase {
            self.lemma_decision_locks_phase(phase, peer, value);
            if phase < other_phase {
                self.lemma_locked_for_good(phase, other_phase, value);
                assert(self.turn(other_phase, other_peer).outcome is Some);
            } else {
                assert(self.turn(phase, other_peer).outcome is Some);
            }
        } else {
            self.lemma_decision_locks_phase(other_phase, other_peer, other_value);
            self.lemma_locked_for_good(other_phase, phase, other_value);
            assert(self.turn(phase, peer).outcome is Some);
        }
    }

    /// Validity: when all peers start with the same value and allow for
    /// fewer faulty peers than half of all peers, every peer that leaves the
    /// first phase has decided that value, and so has every peer that leaves
    /// a later one.
    pub proof fn lemma_validity(self, value: Value, phase: int, peer: int)
        requires
            self.is_run(),
            self.tolerates(),
            forall|i: int| 0 <= i < self.num_processes() ==> self.inits[i] == value,
            0 <= phase,
            0 <= peer < self.num_processes(),
            self.turn(phase, peer).outcome is Some,
        ensures
            self.turn(phase, peer).outcome == Some(Decision::Done { next: value, decided: value }),
    {
        assert(self.all_report(0, value)) by {
            assert forall|i: int|
                0 <= i < self.num_processes() && (#[trigger] self.turn(0, i)).report
                    is Some implies self.turn(0, i).report == Some(value) by {
                assert(self.is_turn(0, i));
            }
        }
        self.lemma_unanimous_phase_decides(0, value);
        if phase > 0 {
            assert(self.all_go_on_with(0, value)) by {
                assert forall|i: int|
                    0 <= i < self.num_processes() && (#[trigger] self.turn(0, i)).outcome
                        is Some implies self.turn(0, i).outcome.unwrap().spec_next() == value by {}
            }
            self.lemma_locked_for_good(0, phase, value);
        }
        assert(self.turn(phase, peer).outcome is Some);
    }

    /// A decision is final: a peer that has decided a value in one phase
    /// decides the same value in every later phase that it leaves, and goes
    /// on with it.
    pub proof fn lemma_decision_is_final(self, phase: int, later: int, peer: int, value: Value)
        requires
            self.is_run(),
            self.tolerates(),
            0 <= phase < later,
            0 <= peer < self.num_processes(),
            self.turn(phase, peer).outcome matches Some(decision) && decision.spec_decided()
                == Some(value),
            self.turn(later, peer).outcome is Some,
        ensures
            self.turn(later, peer).outcome == Some(Decision::Done { next: value, decided: value }),
    {
        self.lemma_decision_locks_phase(phase, peer, value);
        self.lemma_locked_for_good(phase, later, value);
        assert(self.turn(later, peer).outcome is Some);
    }
}

} // verus!
