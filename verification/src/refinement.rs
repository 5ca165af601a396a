//! Why a simulation is a run: the proof that the peers of a simulation,
//! poll by poll, keep the ledger of a run of correct peers. The ledger is
//! carried along as what has been broadcast; the inboxes and tallies never
//! hold more copies of a message than peers have broadcast it.

use crate::agreement::{count, Ledger, Turn};
use crate::execution::{
    is_benign, is_execution, leads_to, moves, spec_initial_value, starts_safely, World,
};
use crate::message::{Message, Phase, Value};
use crate::outcome::{decisions, Decision, Outcome};
use crate::process::{Id, Peer, Poll};
use crate::step::{
    coin_value, inbox_after, intake, spec_conclude, spec_correct, spec_crash_draw, spec_sift,
    spec_step, spec_verdict, step_allows, Ballots, Behavior, Draws, Intake, Progress, Round,
    Scene, Stage,
};
use crate::transport::broadcast;
use vstd::prelude::*;

verus! {


/// How often `message` occurs in `inbox`.
pub open spec fn occurrences(inbox: Seq<Message>, message: Message) -> nat
    decreases inbox.len(),
{
    if inbox.len() == 0 {
        0
    } else {
        occurrences(inbox.drop_last(), message) + if inbox.last() == message {
            1nat
        } else {
            0nat
        }
    }
}

proof fn lemma_occurrences_push(inbox: Seq<Message>, pushed: Message, message: Message)
    ensures
        occurrences(inbox.push(pushed), message) == occurrences(inbox, message) + if pushed
            == message {
            1nat
        } else {
            0nat
        },
{
    assert(inbox.push(pushed).drop_last() =~= inbox);
}

proof fn lemma_occurrences_add(front: Seq<Message>, back: Seq<Message>, message: Message)
    ensures
        occurrences(front + back, message) == occurrences(front, message) + occurrences(
            back,
            message,
        ),
    decreases back.len(),
{
    if back.len() == 0 {
        assert(front + back =~= front);
    } else {
        assert((front + back).drop_last() =~= front + back.drop_last());
        lemma_occurrences_add(front, back.drop_last(), message);
    }
}

proof fn lemma_occurrences_single(single: Message, message: Message)
    ensures
        occurrences(seq![single], message) == if single == message {
            1nat
        } else {
            0nat
        },
{
    assert(seq![single] =~= Seq::<Message>::empty().push(single));
    lemma_occurrences_push(Seq::empty(), single, message);
}

proof fn lemma_occurrences_first(inbox: Seq<Message>, message: Message)
    requires
        inbox.len() > 0,
    ensures
        occurrences(inbox, message) == occurrences(inbox.drop_first(), message) + if inbox[0]
            == message {
            1nat
        } else {
            0nat
        },
{
    assert(inbox =~= seq![inbox[0]] + inbox.drop_first());
    lemma_occurrences_add(seq![inbox[0]], inbox.drop_first(), message);
    lemma_occurrences_single(inbox[0], message);
}

/// The count of the ballots of one kind.
pub open spec fn tallied(ballots: Ballots, ballot: Option<Value>) -> nat {
    match ballot {
        Some(Value::One) => ballots.ones,
        Some(Value::Zero) => ballots.zeros,
        None => ballots.undecided,
    }
}

/// The ballots of `message` that a peer holds in its tally if it stands in
/// `round` of `phase` with `ballots`.
pub open spec fn held_in(round: Round, phase: Phase, ballots: Ballots, message: Message) -> nat {
    match spec_sift(round, phase, message) {
        Intake::Accept(ballot) => tallied(ballots, ballot),
        _ => 0,
    }
}

/// A pass moves messages from the inbox into the tally, puts them back or
/// drops them; it creates none. Of every message, the tally and the inbox
/// together hold no more after the pass than before.
pub proof fn lemma_intake_conserves(
    round: Round,
    phase: Phase,
    take: nat,
    ballots: Ballots,
    backlog: Seq<Message>,
    message: Message,
)
    ensures
        held_in(round, phase, intake(round, phase, take, ballots, backlog).ballots, message)
            + occurrences(
            inbox_after(backlog, intake(round, phase, take, ballots, backlog)),
            message,
        ) <= held_in(round, phase, ballots, message) + occurrences(backlog, message),
        round == Round::Report && ballots.undecided == 0 ==> intake(
            round,
            phase,
            take,
            ballots,
            backlog,
        ).ballots.undecided == 0,
    decreases backlog.len(),
{
    let done = intake(round, phase, take, ballots, backlog);
    if ballots.total() >= take || backlog.len() == 0 {
        assert(inbox_after(backlog, done) =~= backlog);
    } else {
        let first = backlog[0];
        let tail = backlog.drop_first();
        let next = match spec_sift(round, phase, first) {
            Intake::Accept(ballot) => ballots.with(ballot),
            _ => ballots,
        };
        let rest = intake(round, phase, take, next, tail);
        lemma_intake_conserves(round, phase, take, next, tail, message);
        crate::step::lemma_intake_bounds(round, phase, take, next, tail);
        lemma_occurrences_first(backlog, message);
        assert(backlog.skip(done.examined as int) =~= tail.skip(rest.examined as int));
        if spec_sift(round, phase, first) == Intake::Requeue {
            assert(inbox_after(backlog, done) =~= tail.skip(rest.examined as int) + (seq![first]
                + rest.requeued));
            lemma_occurrences_add(tail.skip(rest.examined as int), seq![first] + rest.requeued, message);
            lemma_occurrences_add(seq![first], rest.requeued, message);
            lemma_occurrences_add(tail.skip(rest.examined as int), rest.requeued, message);
            lemma_occurrences_single(first, message);
        } else {
            assert(inbox_after(backlog, done) =~= inbox_after(tail, rest));
        }
    }
}



/// What the proof needs to know of a peer: the decisions that it has
/// emitted, the decision that it stands at, and its place within the phase.
pub struct Standing {
    pub emitted: Seq<Decision>,
    pub current: Decision,
    pub stage: Stage,
}

impl Standing {
    /// The phase of the ledger that the peer is in or will begin next: the
    /// number of phases that it has left.
    pub open spec fn phase(self) -> int {
        self.emitted.len() as int
    }

    /// The decision with which the peer entered `phase` of the ledger.
    pub open spec fn entered(self, phase: int) -> Decision {
        if 0 <= phase < self.emitted.len() {
            self.emitted[phase]
        } else {
            self.current
        }
    }

    /// The phase number that the peer's messages carry: phase 0 of the
    /// ledger is run as phase 1.
    pub open spec fn wire_phase(self) -> Phase {
        Phase((self.emitted.len() + 1) as u64)
    }

    /// The ballots of `message` that the peer holds in its tally.
    pub open spec fn held(self, message: Message) -> nat {
        match self.stage.round {
            Some(round) => held_in(round, self.wire_phase(), self.stage.ballots, message),
            None => 0,
        }
    }
}

/// How many peers have broadcast `message`, by the ledger.
pub open spec fn sent(ledger: Ledger, message: Message) -> nat {
    match message {
        Message::Report { phase, value } => if phase.0 >= 1 {
            ledger.reporters(phase.0 - 1, value)
        } else {
            0
        },
        Message::Proposal { phase, value } => if phase.0 >= 1 {
            ledger.proposers(phase.0 - 1, value)
        } else {
            0
        },
    }
}

/// Whether a peer holds, in its tally and its inbox together, no more
/// copies of `message` than peers have broadcast it.
pub open spec fn within(
    inbox: Seq<Message>,
    standing: Standing,
    ledger: Ledger,
    message: Message,
) -> bool {
    standing.held(message) + occurrences(inbox, message) <= sent(ledger, message)
}

/// Whether the ledger tells what peer `peer` has done so far.
pub open spec fn keeps(inbox: Seq<Message>, standing: Standing, ledger: Ledger, peer: int) -> bool {
    let phase = standing.phase();
    let turn = ledger.turn(phase, peer);
    &&& standing.entered(0) == Decision::Pending { next: ledger.inits[peer] }
    &&& forall|before: int|
        0 <= before < phase ==> (#[trigger] ledger.turn(before, peer)).outcome == Some(
            standing.entered(before + 1),
        )
    &&& forall|later: int| later > phase ==> (#[trigger] ledger.turn(later, peer)).report is None
    &&& match standing.stage.round {
        None => turn.report is None,
        Some(Round::Report) => {
            &&& phase < u64::MAX
            &&& turn.report == Some(standing.current.spec_next())
            &&& turn.proposal is None
            &&& standing.stage.ballots.undecided == 0
            &&& standing.stage.ballots.total() <= ledger.take()
        },
        Some(Round::Proposal) => {
            &&& phase < u64::MAX
            &&& turn.proposal is Some
            &&& turn.outcome is None
            &&& standing.stage.ballots.total() <= ledger.take()
        },
    }
    &&& forall|message: Message| #[trigger] within(inbox, standing, ledger, message)
}

/// Whether the ledger tells a run of correct peers that tolerates its
/// faulty peers, and tells what every peer has done so far.
pub open spec fn follows(inboxes: Seq<Seq<Message>>, standings: Seq<Standing>, ledger: Ledger) -> bool {
    &&& ledger.is_run()
    &&& ledger.tolerates()
    &&& inboxes.len() == ledger.num_processes()
    &&& standings.len() == ledger.num_processes()
    &&& forall|peer: int|
        0 <= peer < ledger.num_processes() ==> #[trigger] keeps(
            inboxes[peer],
            standings[peer],
            ledger,
            peer,
        )
}

/// The ledger with the turn of one peer in one phase replaced.
pub open spec fn with_turn(ledger: Ledger, phase: int, peer: int, turn: Turn) -> Ledger {
    Ledger {
        turns: |j: int, q: int|
            if j == phase && q == peer {
                turn
            } else {
                (ledger.turns)(j, q)
            },
        ..ledger
    }
}

/// Whether `after` is `before` carried on: what the peer had broadcast and
/// accepted stays.
pub open spec fn carries_on(before: Turn, after: Turn) -> bool {
    &&& before.report is Some ==> after.report == before.report
    &&& before.proposal is Some ==> after.proposal == before.proposal && after.reports
        == before.reports
    &&& before.outcome is None
}

proof fn lemma_count_grows(n: nat, before: spec_fn(int) -> bool, after: spec_fn(int) -> bool)
    requires
        forall|i: int| 0 <= i < n ==> (#[trigger] before(i) ==> #[trigger] after(i)),
    ensures
        count(n, before) <= count(n, after),
    decreases n,
{
    if n > 0 {
        lemma_count_grows((n - 1) as nat, before, after);
    }
}

proof fn lemma_count_gains(
    n: nat,
    before: spec_fn(int) -> bool,
    after: spec_fn(int) -> bool,
    at: int,
)
    requires
        0 <= at < n,
        !before(at),
        after(at),
        forall|i: int| 0 <= i < n && i != at ==> #[trigger] before(i) == #[trigger] after(i),
    ensures
        count(n, after) == count(n, before) + 1,
    decreases n,
{
    if n - 1 == at {
        lemma_count_grows((n - 1) as nat, before, after);
        lemma_count_grows((n - 1) as nat, after, before);
    } else {
        lemma_count_gains((n - 1) as nat, before, after, at);
    }
}

/// A ledger stays the ledger of a run when one peer carries its turn on in
/// keeping with the rules, and nothing that was broadcast is taken back.
proof fn lemma_ledger_carried_on(ledger: Ledger, phase: int, peer: int, turn: Turn)
    requires
        ledger.is_run(),
        0 <= phase,
        0 <= peer < ledger.num_processes(),
        carries_on(ledger.turn(phase, peer), turn),
        ledger.turn(phase + 1, peer).report is None,
        with_turn(ledger, phase, peer, turn).is_turn(phase, peer),
    ensures
        with_turn(ledger, phase, peer, turn).is_run(),
        forall|message: Message|
            #[trigger] sent(with_turn(ledger, phase, peer, turn), message) >= sent(ledger, message),
{
    let after = with_turn(ledger, phase, peer, turn);
    let n = ledger.num_processes();
    assert forall|j: int, value: Value| 0 <= j implies #[trigger] after.reporters(j, value)
        >= ledger.reporters(j, value) by {
        assert forall|i: int| 0 <= i < n && #[trigger] ledger.reported(j, value)(i) implies
            #[trigger] after.reported(j, value)(i) by {
            assert(ledger.turn(j, i).report is Some ==> after.turn(j, i).report == ledger.turn(
                j,
                i,
            ).report);
        }
        lemma_count_grows(n, ledger.reported(j, value), after.reported(j, value));
    }
    assert forall|j: int, ballot: Option<Value>| 0 <= j implies #[trigger] after.proposers(
        j,
        ballot,
    ) >= ledger.proposers(j, ballot) by {
        assert forall|i: int| 0 <= i < n && #[trigger] ledger.proposed(j, ballot)(i) implies
            #[trigger] after.proposed(j, ballot)(i) by {
            assert(ledger.turn(j, i).proposal is Some ==> after.turn(j, i).proposal
                == ledger.turn(j, i).proposal);
        }
        lemma_count_grows(n, ledger.proposed(j, ballot), after.proposed(j, ballot));
    }
    assert forall|j: int, q: int| 0 <= j && 0 <= q < n implies #[trigger] after.is_turn(j, q) by {
        if !(j == phase && q == peer) {
            assert(ledger.is_turn(j, q));
            assert(after.turn(j, q) == ledger.turn(j, q));
            assert(after.reporters(j, Value::One) >= ledger.reporters(j, Value::One));
            assert(after.reporters(j, Value::Zero) >= ledger.reporters(j, Value::Zero));
            assert(after.proposers(j, Some(Value::One)) >= ledger.proposers(j, Some(Value::One)));
            assert(after.proposers(j, Some(Value::Zero)) >= ledger.proposers(
                j,
                Some(Value::Zero),
            ));
            assert(after.proposers(j, None) >= ledger.proposers(j, None));
            if j == phase + 1 && q == peer {
                assert(after.turn(j, q).report is None);
            } else if j > 0 {
                assert(after.turn(j - 1, q) == ledger.turn(j - 1, q));
            }
        }
    }
    assert forall|message: Message| #[trigger] sent(after, message) >= sent(ledger, message) by {
        match message {
            Message::Report { phase: wire, value } => {
                if wire.0 >= 1 {
                    assert(after.reporters(wire.0 - 1, value) >= ledger.reporters(
                        wire.0 - 1,
                        value,
                    ));
                }
            },
            Message::Proposal { phase: wire, value } => {
                if wire.0 >= 1 {
                    assert(after.proposers(wire.0 - 1, value) >= ledger.proposers(
                        wire.0 - 1,
                        value,
                    ));
                }
            },
        }
    }
}


/// A broadcast keeps every peer within the ledger, if the ledger gains a
/// sender of the message and no peer gains ballots.
proof fn lemma_broadcast_within(
    inboxes: Seq<Seq<Message>>,
    standings: Seq<Standing>,
    ledger: Ledger,
    after_standings: Seq<Standing>,
    after: Ledger,
    sender: int,
    message: Message,
)
    requires
        inboxes.len() == standings.len(),
        after_standings.len() == standings.len(),
        forall|peer: int, other: Message|
            0 <= peer < inboxes.len() ==> #[trigger] within(
                inboxes[peer],
                standings[peer],
                ledger,
                other,
            ),
        forall|other: Message| #[trigger] sent(after, other) >= sent(ledger, other),
        sent(after, message) >= sent(ledger, message) + 1,
        forall|peer: int, other: Message|
            0 <= peer < inboxes.len() ==> (#[trigger] after_standings[peer].held(other))
                <= standings[peer].held(other),
    ensures
        forall|peer: int, other: Message|
            0 <= peer < inboxes.len() ==> #[trigger] within(
                broadcast(inboxes, message)[peer],
                after_standings[peer],
                after,
                other,
            ),
{
    assert forall|peer: int, other: Message| 0 <= peer < inboxes.len() implies #[trigger] within(
        broadcast(inboxes, message)[peer],
        after_standings[peer],
        after,
        other,
    ) by {
        assert(within(inboxes[peer], standings[peer], ledger, other));
        lemma_occurrences_push(inboxes[peer], message, other);
        assert(after_standings[peer].held(other) <= standings[peer].held(other));
        assert(sent(after, other) >= sent(ledger, other));
    }
}

/// The start of a phase keeps the ledger: the peer's report is entered.
proof fn lemma_begin(
    inboxes: Seq<Seq<Message>>,
    standings: Seq<Standing>,
    ledger: Ledger,
    peer: int,
) -> (after: Ledger)
    requires
        follows(inboxes, standings, ledger),
        0 <= peer < ledger.num_processes(),
        standings[peer].stage.round is None,
        standings[peer].phase() < u64::MAX,
    ensures
        after.inits == ledger.inits,
        after.num_adversaries == ledger.num_adversaries,
        follows(
            broadcast(
                inboxes,
                Message::Report {
                    phase: standings[peer].wire_phase(),
                    value: standings[peer].current.spec_next(),
                },
            ),
            standings.update(
                peer,
                Standing { stage: Stage::entering(Round::Report), ..standings[peer] },
            ),
            after,
        ),
{
    let n = ledger.num_processes();
    let standing = standings[peer];
    let phase = standing.phase();
    let value = standing.current.spec_next();
    let message = Message::Report { phase: standing.wire_phase(), value };
    let old = ledger.turn(phase, peer);
    let turn = Turn { report: Some(value), ..old };
    let after = with_turn(ledger, phase, peer, turn);
    let begun = Standing { stage: Stage::entering(Round::Report), ..standing };
    let after_standings = standings.update(peer, begun);
    let after_inboxes = broadcast(inboxes, message);
    assert(keeps(inboxes[peer], standing, ledger, peer));
    assert(ledger.is_turn(phase, peer));
    assert(after.is_turn(phase, peer)) by {
        if phase > 0 {
            assert(ledger.turn(phase - 1, peer).outcome == Some(standing.entered(phase - 1 + 1)));
        }
        assert(after.turn(phase, peer) == turn);
    }
    lemma_ledger_carried_on(ledger, phase, peer, turn);
    assert(sent(after, message) >= sent(ledger, message) + 1) by {
        assert(after.turn(phase, peer) == turn);
        lemma_count_gains(
            n,
            ledger.reported(phase, value),
            after.reported(phase, value),
            peer,
        );
    }
    assert forall|q: int, other: Message| 0 <= q < inboxes.len() implies #[trigger] within(
        inboxes[q],
        standings[q],
        ledger,
        other,
    ) by {
        assert(keeps(inboxes[q], standings[q], ledger, q));
    }
    lemma_broadcast_within(inboxes, standings, ledger, after_standings, after, peer, message);
    assert forall|q: int| 0 <= q < n implies #[trigger] keeps(
        after_inboxes[q],
        after_standings[q],
        after,
        q,
    ) by {
        assert(keeps(inboxes[q], standings[q], ledger, q));
        assert forall|j: int| after.turn(j, q) == if j == phase && q == peer {
            turn
        } else {
            ledger.turn(j, q)
        } by {}
        assert forall|other: Message| #[trigger]
            within(after_inboxes[q], after_standings[q], after, other) by {}
    }
    after
}

/// A pass over the inbox keeps the ledger as it is.
proof fn lemma_pass(
    inboxes: Seq<Seq<Message>>,
    standings: Seq<Standing>,
    ledger: Ledger,
    peer: int,
    round: Round,
)
    requires
        follows(inboxes, standings, ledger),
        0 <= peer < ledger.num_processes(),
        standings[peer].stage.round == Some(round),
    ensures
        follows(
            inboxes.update(
                peer,
                inbox_after(
                    inboxes[peer],
                    intake(
                        round,
                        standings[peer].wire_phase(),
                        ledger.take(),
                        standings[peer].stage.ballots,
                        inboxes[peer],
                    ),
                ),
            ),
            standings.update(
                peer,
                Standing {
                    stage: Stage {
                        round: Some(round),
                        ballots: intake(
                            round,
                            standings[peer].wire_phase(),
                            ledger.take(),
                            standings[peer].stage.ballots,
                            inboxes[peer],
                        ).ballots,
                    },
                    ..standings[peer]
                },
            ),
            ledger,
        ),
{
    let n = ledger.num_processes();
    let standing = standings[peer];
    let wire = standing.wire_phase();
    let done = intake(round, wire, ledger.take(), standing.stage.ballots, inboxes[peer]);
    let passed = Standing { stage: Stage { round: Some(round), ballots: done.ballots }, ..standing };
    let after_inboxes = inboxes.update(peer, inbox_after(inboxes[peer], done));
    let after_standings = standings.update(peer, passed);
    assert(keeps(inboxes[peer], standing, ledger, peer));
    crate::step::lemma_intake_bounds(
        round,
        wire,
        ledger.take(),
        standing.stage.ballots,
        inboxes[peer],
    );
    assert forall|q: int| 0 <= q < n implies #[trigger] keeps(
        after_inboxes[q],
        after_standings[q],
        ledger,
        q,
    ) by {
        assert(keeps(inboxes[q], standings[q], ledger, q));
        if q == peer {
            assert forall|message: Message| #[trigger]
                within(after_inboxes[q], after_standings[q], ledger, message) by {
                lemma_intake_conserves(
                    round,
                    wire,
                    ledger.take(),
                    standing.stage.ballots,
                    inboxes[peer],
                    message,
                );
                assert(within(inboxes[peer], standing, ledger, message));
            }
            lemma_intake_conserves(
                round,
                wire,
                ledger.take(),
                standing.stage.ballots,
                inboxes[peer],
                Message::Report { phase: wire, value: Value::One },
            );
        }
    }
}

/// The end of the report round keeps the ledger: the peer's tally of
/// reports and its proposal are entered.
proof fn lemma_propose(
    inboxes: Seq<Seq<Message>>,
    standings: Seq<Standing>,
    ledger: Ledger,
    peer: int,
) -> (after: Ledger)
    requires
        follows(inboxes, standings, ledger),
        0 <= peer < ledger.num_processes(),
        standings[peer].stage.round == Some(Round::Report),
        standings[peer].stage.ballots.total() >= ledger.take(),
    ensures
        after.inits == ledger.inits,
        after.num_adversaries == ledger.num_adversaries,
        follows(
            broadcast(
                inboxes,
                Message::Proposal {
                    phase: standings[peer].wire_phase(),
                    value: spec_verdict(standings[peer].stage.ballots, ledger.num_processes()),
                },
            ),
            standings.update(
                peer,
                Standing { stage: Stage::entering(Round::Proposal), ..standings[peer] },
            ),
            after,
        ),
{
    let n = ledger.num_processes();
    let standing = standings[peer];
    let phase = standing.phase();
    let reports = standing.stage.ballots;
    let ballot = spec_verdict(reports, n);
    let message = Message::Proposal { phase: standing.wire_phase(), value: ballot };
    let old = ledger.turn(phase, peer);
    let turn = Turn { reports, proposal: Some(ballot), ..old };
    let after = with_turn(ledger, phase, peer, turn);
    let proposing = Standing { stage: Stage::entering(Round::Proposal), ..standing };
    let after_standings = standings.update(peer, proposing);
    let after_inboxes = broadcast(inboxes, message);
    assert(keeps(inboxes[peer], standing, ledger, peer));
    assert(ledger.is_turn(phase, peer));
    assert(after.turn(phase, peer) == turn);
    assert(after.is_turn(phase, peer)) by {
        assert(within(
            inboxes[peer],
            standing,
            ledger,
            Message::Report { phase: standing.wire_phase(), value: Value::One },
        ));
        assert(within(
            inboxes[peer],
            standing,
            ledger,
            Message::Report { phase: standing.wire_phase(), value: Value::Zero },
        ));
        assert forall|value: Value| #[trigger] after.reporters(phase, value) == ledger.reporters(
            phase,
            value,
        ) by {
            lemma_count_grows(n, ledger.reported(phase, value), after.reported(phase, value));
            lemma_count_grows(n, after.reported(phase, value), ledger.reported(phase, value));
        }
        if phase > 0 {
            assert(after.turn(phase - 1, peer) == ledger.turn(phase - 1, peer));
        }
    }
    lemma_ledger_carried_on(ledger, phase, peer, turn);
    assert(sent(after, message) >= sent(ledger, message) + 1) by {
        lemma_count_gains(
            n,
            ledger.proposed(phase, ballot),
            after.proposed(phase, ballot),
            peer,
        );
    }
    assert forall|q: int, other: Message| 0 <= q < inboxes.len() implies #[trigger] within(
        inboxes[q],
        standings[q],
        ledger,
        other,
    ) by {
        assert(keeps(inboxes[q], standings[q], ledger, q));
    }
    lemma_broadcast_within(inboxes, standings, ledger, after_standings, after, peer, message);
    assert forall|q: int| 0 <= q < n implies #[trigger] keeps(
        after_inboxes[q],
        after_standings[q],
        after,
        q,
    ) by {
        assert(keeps(inboxes[q], standings[q], ledger, q));
        assert forall|j: int| after.turn(j, q) == if j == phase && q == peer {
            turn
        } else {
            ledger.turn(j, q)
        } by {}
        assert forall|other: Message| #[trigger]
            within(after_inboxes[q], after_standings[q], after, other) by {}
    }
    after
}

/// The end of the proposal round keeps the ledger: the peer's tally of
/// proposals and the state in which it leaves the phase are entered. That
/// state does not contradict the decision that the peer stands at.
proof fn lemma_conclude(
    inboxes: Seq<Seq<Message>>,
    standings: Seq<Standing>,
    ledger: Ledger,
    peer: int,
    coin: Value,
) -> (after: Ledger)
    requires
        follows(inboxes, standings, ledger),
        0 <= peer < ledger.num_processes(),
        standings[peer].stage.round == Some(Round::Proposal),
        standings[peer].stage.ballots.total() >= ledger.take(),
    ensures
        after.inits == ledger.inits,
        after.num_adversaries == ledger.num_adversaries,
        standings[peer].current.spec_admits(
            spec_conclude(standings[peer].stage.ballots, ledger.num_adversaries, coin),
        ),
        follows(
            inboxes,
            standings.update(
                peer,
                Standing {
                    emitted: standings[peer].emitted.push(standings[peer].current),
                    current: spec_conclude(
                        standings[peer].stage.ballots,
                        ledger.num_adversaries,
                        coin,
                    ),
                    stage: Stage::idle(),
                },
            ),
            after,
        ),
{
    let n = ledger.num_processes();
    let standing = standings[peer];
    let phase = standing.phase();
    let proposals = standing.stage.ballots;
    let decision = spec_conclude(proposals, ledger.num_adversaries, coin);
    let old = ledger.turn(phase, peer);
    let turn = Turn { proposals, outcome: Some(decision), ..old };
    let after = with_turn(ledger, phase, peer, turn);
    let left = Standing {
        emitted: standing.emitted.push(standing.current),
        current: decision,
        stage: Stage::idle(),
    };
    let after_standings = standings.update(peer, left);
    assert(keeps(inboxes[peer], standing, ledger, peer));
    assert(ledger.is_turn(phase, peer));
    assert(after.turn(phase, peer) == turn);
    assert(after.is_turn(phase, peer)) by {
        assert(within(
            inboxes[peer],
            standing,
            ledger,
            Message::Proposal { phase: standing.wire_phase(), value: Some(Value::One) },
        ));
        assert(within(
            inboxes[peer],
            standing,
            ledger,
            Message::Proposal { phase: standing.wire_phase(), value: Some(Value::Zero) },
        ));
        assert(within(
            inboxes[peer],
            standing,
            ledger,
            Message::Proposal { phase: standing.wire_phase(), value: None },
        ));
        assert forall|value: Value| #[trigger] after.reporters(phase, value) == ledger.reporters(
            phase,
            value,
        ) by {
            lemma_count_grows(n, ledger.reported(phase, value), after.reported(phase, value));
            lemma_count_grows(n, after.reported(phase, value), ledger.reported(phase, value));
        }
        assert forall|ballot: Option<Value>| #[trigger] after.proposers(phase, ballot)
            == ledger.proposers(phase, ballot) by {
            lemma_count_grows(n, ledger.proposed(phase, ballot), after.proposed(phase, ballot));
            lemma_count_grows(n, after.proposed(phase, ballot), ledger.proposed(phase, ballot));
        }
        if phase > 0 {
            assert(after.turn(phase - 1, peer) == ledger.turn(phase - 1, peer));
        }
    }
    lemma_ledger_carried_on(ledger, phase, peer, turn);
    assert(standing.current.spec_admits(decision)) by {
        if standing.current.spec_decided() is Some && decision.spec_decided() is Some {
            assert(phase > 0);
            assert(ledger.turn(phase - 1, peer).outcome == Some(standing.entered(phase - 1 + 1)));
            assert(after.turn(phase - 1, peer) == ledger.turn(phase - 1, peer));
            after.lemma_agreement(
                phase - 1,
                peer,
                standing.current.spec_decided().unwrap(),
                phase,
                peer,
                decision.spec_decided().unwrap(),
            );
        }
    }
    assert forall|q: int| 0 <= q < n implies #[trigger] keeps(
        inboxes[q],
        after_standings[q],
        after,
        q,
    ) by {
        assert(keeps(inboxes[q], standings[q], ledger, q));
        assert forall|j: int| after.turn(j, q) == if j == phase && q == peer {
            turn
        } else {
            ledger.turn(j, q)
        } by {}
        assert forall|other: Message| #[trigger]
            within(inboxes[q], after_standings[q], after, other) by {
            assert(within(inboxes[q], standings[q], ledger, other));
            assert(sent(after, other) >= sent(ledger, other));
        }
        if q == peer {
            assert forall|before: int| 0 <= before < left.phase() implies (#[trigger] after.turn(
                before,
                peer,
            )).outcome == Some(left.entered(before + 1)) by {
                if before < phase {
                    assert(ledger.turn(before, peer).outcome == Some(
                        standing.entered(before + 1),
                    ));
                }
            }
        }
    }
    after
}


/// The standing of a peer after a call of the correct step function that
/// left it at `stage` with `progress`.
pub open spec fn settled(standing: Standing, stage: Stage, progress: Progress) -> Standing {
    match progress {
        Progress::Finished(decision) => Standing {
            emitted: standing.emitted.push(standing.current),
            current: decision,
            stage,
        },
        _ => Standing { stage, ..standing },
    }
}

/// A call of the correct step function keeps the ledger, whatever the coin,
/// and never ends a phase in a state that contradicts the peer's decision.
proof fn lemma_correct_follows(
    inboxes: Seq<Seq<Message>>,
    standings: Seq<Standing>,
    ledger: Ledger,
    peer: int,
    coin: Value,
) -> (after: Ledger)
    requires
        follows(inboxes, standings, ledger),
        0 <= peer < ledger.num_processes(),
        standings[peer].phase() < u64::MAX,
    ensures
        after.inits == ledger.inits,
        after.num_adversaries == ledger.num_adversaries,
        ({
            let result = spec_correct(
                Scene { inboxes, stage: standings[peer].stage },
                peer,
                standings[peer].wire_phase(),
                standings[peer].current.spec_next(),
                ledger.num_adversaries,
                coin,
            );
            &&& !(result.1 is Crashed)
            &&& result.1 matches Progress::Finished(decision)
                ==> standings[peer].current.spec_admits(decision)
            &&& follows(
                result.0.inboxes,
                standings.update(peer, settled(standings[peer], result.0.stage, result.1)),
                after,
            )
        }),
{
    let standing = standings[peer];
    let wire = standing.wire_phase();
    let take = ledger.take();
    assert(keeps(inboxes[peer], standing, ledger, peer));
    // The start of the phase.
    let mut ledger1 = ledger;
    let mut inboxes1 = inboxes;
    let mut standings1 = standings;
    if standing.stage.round is None {
        ledger1 = lemma_begin(inboxes, standings, ledger, peer);
        inboxes1 = broadcast(
            inboxes,
            Message::Report { phase: wire, value: standing.current.spec_next() },
        );
        standings1 = standings.update(
            peer,
            Standing { stage: Stage::entering(Round::Report), ..standing },
        );
    } else {
        assert(standings1 =~= standings.update(peer, Standing { stage: standing.stage, ..standing }));
    }
    let standing1 = standings1[peer];
    // The report round.
    let mut ledger2 = ledger1;
    let mut inboxes2 = inboxes1;
    let mut standings2 = standings1;
    if standing1.stage.round == Some(Round::Report) {
        lemma_pass(inboxes1, standings1, ledger1, peer, Round::Report);
        let done = intake(Round::Report, wire, take, standing1.stage.ballots, inboxes1[peer]);
        let passed = Standing {
            stage: Stage { round: Some(Round::Report), ballots: done.ballots },
            ..standing1
        };
        inboxes2 = inboxes1.update(peer, inbox_after(inboxes1[peer], done));
        standings2 = standings1.update(peer, passed);
        if done.ballots.total() >= take {
            ledger2 = lemma_propose(inboxes2, standings2, ledger1, peer);
            inboxes2 = broadcast(
                inboxes2,
                Message::Proposal {
                    phase: wire,
                    value: spec_verdict(done.ballots, ledger.num_processes()),
                },
            );
            standings2 = standings2.update(
                peer,
                Standing { stage: Stage::entering(Round::Proposal), ..passed },
            );
        }
    }
    let standing2 = standings2[peer];
    assert(standings2 =~= standings.update(peer, Standing { stage: standing2.stage, ..standing }));
    // The proposal round.
    if standing2.stage.round == Some(Round::Proposal) {
        lemma_pass(inboxes2, standings2, ledger2, peer, Round::Proposal);
        let done = intake(Round::Proposal, wire, take, standing2.stage.ballots, inboxes2[peer]);
        let passed = Standing {
            stage: Stage { round: Some(Round::Proposal), ballots: done.ballots },
            ..standing2
        };
        let inboxes3 = inboxes2.update(peer, inbox_after(inboxes2[peer], done));
        let standings3 = standings2.update(peer, passed);
        if done.ballots.total() >= take {
            let ledger3 = lemma_conclude(inboxes3, standings3, ledger2, peer, coin);
            let decision = spec_conclude(done.ballots, ledger.num_adversaries, coin);
            assert(standings3.update(
                peer,
                Standing {
                    emitted: passed.emitted.push(passed.current),
                    current: decision,
                    stage: Stage::idle(),
                },
            ) =~= standings.update(
                peer,
                settled(standing, Stage::idle(), Progress::Finished(decision)),
            ));
            ledger3
        } else {
            assert(standings3 =~= standings.update(
                peer,
                settled(standing, passed.stage, Progress::Blocked),
            ));
            ledger2
        }
    } else {
        ledger2
    }
}

/// What the proof needs to know of `peer`.
pub open spec fn standing_of(peer: Peer) -> Standing {
    Standing {
        emitted: decisions(peer.timeline().emitted()),
        current: peer.timeline().current(),
        stage: peer.stage(),
    }
}

/// The standings of the peers of `world`.
pub open spec fn standings_of(world: World) -> Seq<Standing> {
    Seq::new(world.peers.len(), |i: int| standing_of(world.peers[i]))
}

/// Whether peer `index` is as the proof needs it: consistent, benign, not
/// stopped by the guard, and emitting its outcomes under consecutive
/// phases from 0 on.
pub open spec fn in_step(peer: Peer, index: int, num_adversaries: nat) -> bool {
    &&& peer.wf()
    &&& peer.id() == Id(index as usize)
    &&& index <= usize::MAX
    &&& is_benign(peer.behavior())
    &&& peer.num_adversaries() == num_adversaries
    &&& !peer.timeline().spec_is_broken()
    &&& forall|k: int|
        0 <= k < peer.timeline().emitted().len() ==> (#[trigger] peer.timeline().emitted()[k]).phase
            == Phase(k as u64)
    &&& peer.timeline().upcoming().len() > 0 ==> peer.timeline().upcoming()[0].0
        == peer.timeline().emitted().len()
}

/// Whether `ledger` tells what has happened in `world`.
pub open spec fn holds(world: World, ledger: Ledger) -> bool {
    &&& world.peers.len() == ledger.num_processes()
    &&& forall|i: int|
        0 <= i < world.peers.len() ==> #[trigger] in_step(
            world.peers[i],
            i,
            ledger.num_adversaries,
        )
    &&& follows(world.inboxes, standings_of(world), ledger)
}


/// A poll keeps the ledger: whatever a benign peer does when it is polled,
/// some ledger of a run tells the world after the poll.
proof fn lemma_move_holds(before: World, index: int, after: World, poll: Poll, ledger: Ledger) -> (next:
    Ledger)
    requires
        holds(before, ledger),
        moves(before, index, after, poll),
    ensures
        holds(after, next),
        next.inits == ledger.inits,
        next.num_adversaries == ledger.num_adversaries,
{
    let peer = before.peers[index];
    let moved = after.peers[index];
    let standings = standings_of(before);
    let standing = standing_of(peer);
    assert(in_step(peer, index, ledger.num_adversaries));
    assert(standings[index] == standing);
    peer.lemma_wf();
    peer.timeline().lemma_wf();
    moved.lemma_wf();
    moved.timeline().lemma_wf();
    let mut next = ledger;
    if peer.is_over() {
        assert(standings_of(after) =~= standings);
    } else {
        let scene = Scene { inboxes: before.inboxes, stage: peer.stage() };
        let due = peer.timeline().spec_due().unwrap();
        let progress = choose|progress: Progress|
            {
                &&& #[trigger] step_allows(
                    peer.behavior(),
                    scene,
                    peer.id().0 as int,
                    due.0,
                    due.1,
                    peer.num_adversaries() as nat,
                    Scene { inboxes: after.inboxes, stage: moved.stage() },
                    progress,
                )
                &&& peer.settles(progress, moved, poll)
            };
        let reached = Scene { inboxes: after.inboxes, stage: moved.stage() };
        let draws = choose|draws: Draws|
            (peer.behavior() == Behavior::RandomlyAdversial ==> crate::step::is_plain_adversary(
                draws.pick,
            )) && (reached, progress) == #[trigger] spec_step(
                peer.behavior(),
                scene,
                index,
                due.0,
                due.1,
                ledger.num_adversaries,
                draws,
            );
        assert(due.0 == standing.wire_phase());
        assert(due.1 == standing.current.spec_next());
        if peer.behavior() == Behavior::Crashes && scene.stage.round is None && spec_crash_draw(
            draws.crash,
            due.0,
        ) {
            assert(standings_of(after) =~= standings);
        } else {
            next = lemma_correct_follows(
                before.inboxes,
                standings,
                ledger,
                index,
                coin_value(draws.coin),
            );
            assert(decisions(peer.timeline().emitted().push(
                Outcome { phase: peer.timeline().upcoming()[0], decision: peer.timeline().current() },
            )) =~= decisions(peer.timeline().emitted()).push(peer.timeline().current()));
            assert(standings_of(after) =~= standings.update(
                index,
                settled(standing, reached.stage, progress),
            ));
            if progress is Finished && peer.timeline().upcoming().len() > 1 {
                assert(peer.timeline().upcoming()[1].0 == peer.timeline().upcoming()[0].0 + 1);
                assert(moved.timeline().upcoming()[0] == peer.timeline().upcoming()[1]);
            }
        }
    }
    assert forall|i: int| 0 <= i < after.peers.len() implies #[trigger] in_step(
        after.peers[i],
        i,
        next.num_adversaries,
    ) by {
        assert(in_step(before.peers[i], i, ledger.num_adversaries));
    }
    next
}

/// The turn of a peer that has not begun the phase.
pub open spec fn not_begun() -> Turn {
    Turn {
        report: None,
        reports: Ballots::none(),
        proposal: None,
        proposals: Ballots::none(),
        outcome: None,
    }
}

/// The ledger of a simulation in which nothing has happened tells it.
proof fn lemma_start_holds(
    world: World,
    num_zeros: int,
    num_adversaries: usize,
    adversarial_behavior: Behavior,
) -> (ledger: Ledger)
    requires
        starts_safely(world, num_zeros, num_adversaries, adversarial_behavior),
    ensures
        holds(world, ledger),
        ledger.num_adversaries == num_adversaries,
        ledger.inits == Seq::new(world.peers.len(), |i: int| spec_initial_value(i, num_zeros)),
{
    let n = world.peers.len();
    let ledger = Ledger {
        num_adversaries: num_adversaries as nat,
        inits: Seq::new(n, |i: int| spec_initial_value(i, num_zeros)),
        turns: |phase: int, peer: int| not_begun(),
    };
    let standings = standings_of(world);
    assert forall|phase: int, peer: int| 0 <= phase && 0 <= peer < n implies #[trigger]
        ledger.is_turn(phase, peer) by {}
    assert forall|peer: int| 0 <= peer < n implies #[trigger] keeps(
        world.inboxes[peer],
        standings[peer],
        ledger,
        peer,
    ) by {
        let started = world.peers[peer];
        assert(standings[peer].emitted =~= Seq::<Decision>::empty());
        assert forall|message: Message| #[trigger]
            within(world.inboxes[peer], standings[peer], ledger, message) by {
            assert(world.inboxes[peer].len() == 0);
        }
    }
    assert forall|i: int| 0 <= i < n implies #[trigger] in_step(
        world.peers[i],
        i,
        ledger.num_adversaries,
    ) by {
        let started = world.peers[i];
    }
    ledger
}

/// The simulation keeps the ledger of a run: every world of an execution
/// that starts safely is told by the ledger of a run of correct peers that
/// tolerates its faulty peers, with the initial values and the number of
/// faulty peers of the simulation.
pub proof fn lemma_execution_holds(
    worlds: Seq<World>,
    num_zeros: int,
    num_adversaries: usize,
    adversarial_behavior: Behavior,
    at: int,
) -> (ledger: Ledger)
    requires
        0 <= at < worlds.len(),
        starts_safely(worlds[0], num_zeros, num_adversaries, adversarial_behavior),
        is_execution(worlds),
    ensures
        holds(worlds[at], ledger),
        ledger.num_adversaries == num_adversaries,
        ledger.inits == Seq::new(worlds[0].peers.len(), |i: int| spec_initial_value(i, num_zeros)),
    decreases at,
{
    if at == 0 {
        lemma_start_holds(worlds[0], num_zeros, num_adversaries, adversarial_behavior)
    } else {
        let before = lemma_execution_holds(
            worlds,
            num_zeros,
            num_adversaries,
            adversarial_behavior,
            at - 1,
        );
        assert(leads_to(worlds[at - 1], worlds[at - 1 + 1]));
        let (index, poll): (int, Poll) = choose|index: int, poll: Poll| #[trigger]
            moves(worlds[at - 1], index, worlds[at], poll);
        lemma_move_holds(worlds[at - 1], index, worlds[at], poll, before)
    }
}


} // verus!
