//! The step functions: what a peer does in one phase. The correct behavior
//! is Ben-Or's two-round algorithm; the adversarial behaviors wrap it.
//!
//! A step never blocks. It works through the messages that wait in the
//! peer's inbox and, if they do not suffice to finish the phase, keeps its
//! place in the peer's context and reports that it is blocked; the next call
//! takes up where this one stopped.

use crate::message::{Message, Phase, Value};
use crate::outcome::Decision;
use crate::random::Entropy;
use crate::transport::{broadcast, Transport};
use vstd::prelude::*;

verus! {

/// How a peer behaves.
#[derive(Clone, Copy, Debug, PartialEq, Eq, Structural)]
pub enum Behavior {
    /// Follows the protocol.
    Correct,
    /// Follows the protocol until, at the start of some phase, it stops for good.
    Crashes,
    /// At the start of a phase, may broadcast one arbitrary message in place
    /// of the phase.
    SendsInvalidMessages,
    /// At the start of a phase, may skip the phase.
    StopsExecuting,
    /// At the start of a phase, behaves in one of the three adversarial ways.
    RandomlyAdversial,
}

/// The two rounds of a phase.
#[derive(Clone, Copy, Debug, PartialEq, Eq, Structural)]
pub enum Round {
    Report,
    Proposal,
}

/// What a round does with an incoming message.
#[derive(Clone, Copy, Debug, PartialEq, Eq, Structural)]
pub enum Intake {
    /// The message belongs to this round of this phase: count its ballot.
    Accept(Option<Value>),
    /// The message is for a round that this peer has yet to reach: put it
    /// back into the own inbox.
    Requeue,
    /// The message is stale: forget it.
    Drop,
}

/// How a round of phase `current` treats `message`. The report round counts
/// the reports of its phase, puts back the proposals of its phase and of
/// later ones, and drops the rest. The proposal round counts the proposals
/// of its phase, puts back the reports of later phases, and drops the rest.
pub open spec fn spec_sift(round: Round, current: Phase, message: Message) -> Intake {
    match round {
        Round::Report => match message {
            Message::Report { phase, value } => if phase == current {
                Intake::Accept(Some(value))
            } else {
                Intake::Drop
            },
            Message::Proposal { phase, value: _ } => if phase.0 >= current.0 {
                Intake::Requeue
            } else {
                Intake::Drop
            },
        },
        Round::Proposal => match message {
            Message::Proposal { phase, value } => if phase == current {
                Intake::Accept(value)
            } else {
                Intake::Drop
            },
            Message::Report { phase, value: _ } => if phase.0 > current.0 {
                Intake::Requeue
            } else {
                Intake::Drop
            },
        },
    }
}

/// Decides what a round of phase `current` does with `message`.
#[verifier::when_used_as_spec(spec_sift)]
pub fn sift(round: Round, current: Phase, message: Message) -> (intake: Intake)
    ensures
        intake == spec_sift(round, current, message),
{
    match round {
        Round::Report => match message {
            Message::Report { phase, value } => if phase.0 == current.0 {
                Intake::Accept(Some(value))
            } else {
                Intake::Drop
            },
            Message::Proposal { phase, value: _ } => if phase.0 >= current.0 {
                Intake::Requeue
            } else {
                Intake::Drop
            },
        },
        Round::Proposal => match message {
            Message::Proposal { phase, value } => if phase.0 == current.0 {
                Intake::Accept(value)
            } else {
                Intake::Drop
            },
            Message::Report { phase, value: _ } => if phase.0 > current.0 {
                Intake::Requeue
            } else {
                Intake::Drop
            },
        },
    }
}

/// The ballots that a round has accepted, by what they say.
pub struct Ballots {
    pub ones: nat,
    pub zeros: nat,
    pub undecided: nat,
}

impl Ballots {
    /// No ballot.
    pub open spec fn none() -> Ballots {
        Ballots { ones: 0, zeros: 0, undecided: 0 }
    }

    /// The number of ballots.
    pub open spec fn total(self) -> nat {
        self.ones + self.zeros + self.undecided
    }

    /// The number of ballots that name a value.
    pub open spec fn definite(self) -> nat {
        self.ones + self.zeros
    }

    /// These ballots and one more.
    pub open spec fn with(self, ballot: Option<Value>) -> Ballots {
        match ballot {
            Some(Value::One) => Ballots { ones: self.ones + 1, ..self },
            Some(Value::Zero) => Ballots { zeros: self.zeros + 1, ..self },
            None => Ballots { undecided: self.undecided + 1, ..self },
        }
    }

    /// The value with the higher count. On a tie it is `Zero`.
    pub open spec fn leading(self) -> Value {
        if self.ones > self.zeros {
            Value::One
        } else {
            Value::Zero
        }
    }

    /// The count of the leading value.
    pub open spec fn lead(self) -> nat {
        if self.ones > self.zeros {
            self.ones
        } else {
            self.zeros
        }
    }
}

/// The ballot that a peer casts in the second round after it has accepted
/// `reports` in the first, among `num_processes` peers: the leading value if
/// strictly more than half of all peers reported it, else undecided.
pub open spec fn spec_verdict(reports: Ballots, num_processes: nat) -> Option<Value> {
    if reports.lead() > num_processes / 2 {
        Some(reports.leading())
    } else {
        None
    }
}

/// The state in which a peer leaves a phase after it has accepted
/// `proposals` in the second round, with `num_adversaries` faulty peers
/// allowed for. It goes on with the leading value if any proposal named a
/// value and with `coin` if none did; it decides the leading value if more
/// proposals named a value than there may be faulty peers.
pub open spec fn spec_conclude(proposals: Ballots, num_adversaries: nat, coin: Value) -> Decision {
    let next = if proposals.definite() > 0 {
        proposals.leading()
    } else {
        coin
    };
    if proposals.definite() > num_adversaries {
        Decision::Done { next, decided: proposals.leading() }
    } else {
        Decision::Pending { next }
    }
}

/// A tie among the reports never yields a definite proposal, whichever way
/// it is broken: with equal counts neither value was reported by more than
/// half of the peers.
pub proof fn lemma_tie_is_undecided(reports: Ballots, num_processes: nat)
    requires
        reports.ones == reports.zeros,
        reports.total() <= num_processes,
    ensures
        reports.leading() == Value::Zero,
        spec_verdict(reports, num_processes) is None,
{
}

/// The ballots that a round has accepted so far, as counters.
#[derive(Clone, Copy, Debug, PartialEq, Eq, Structural)]
pub struct Tally {
    ones: usize,
    zeros: usize,
    accepted: usize,
}

impl View for Tally {
    type V = Ballots;

    closed spec fn view(&self) -> Ballots {
        Ballots {
            ones: self.ones as nat,
            zeros: self.zeros as nat,
            undecided: (self.accepted - self.ones - self.zeros) as nat,
        }
    }
}

impl Tally {
    /// The counters are consistent: no more ballots name a value than were
    /// accepted.
    pub closed spec fn wf(&self) -> bool {
        self.ones + self.zeros <= self.accepted
    }

    /// A tally without ballots.
    pub fn new() -> (tally: Tally)
        ensures
            tally.wf(),
            tally@ == Ballots::none(),
    {
        Tally { ones: 0, zeros: 0, accepted: 0 }
    }

    /// The number of ballots accepted.
    pub fn accepted(&self) -> (accepted: usize)
        requires
            self.wf(),
        ensures
            accepted == self@.total(),
    {
        self.accepted
    }

    /// The number of accepted ballots for `One`.
    pub fn ones(&self) -> (ones: usize)
        ensures
            ones == self@.ones,
    {
        self.ones
    }

    /// The number of accepted ballots for `Zero`.
    pub fn zeros(&self) -> (zeros: usize)
        ensures
            zeros == self@.zeros,
    {
        self.zeros
    }

    /// Counts one more ballot.
    pub fn record(&mut self, ballot: Option<Value>)
        requires
            old(self).wf(),
            old(self)@.total() < usize::MAX,
        ensures
            final(self).wf(),
            final(self)@ == old(self)@.with(ballot),
    {
        self.accepted = self.accepted + 1;
        match ballot {
            Some(Value::One) => {
                self.ones = self.ones + 1;
            },
            Some(Value::Zero) => {
                self.zeros = self.zeros + 1;
            },
            None => {},
        }
    }

    /// The value with the higher count; `Zero` on a tie.
    pub fn leading(&self) -> (value: Value)
        ensures
            value == self@.leading(),
    {
        if self.ones > self.zeros {
            Value::One
        } else {
            Value::Zero
        }
    }

    /// The second-round ballot that follows from these reports.
    pub fn verdict(&self, num_processes: usize) -> (ballot: Option<Value>)
        ensures
            ballot == spec_verdict(self@, num_processes as nat),
    {
        let lead: usize = if self.ones > self.zeros {
            self.ones
        } else {
            self.zeros
        };
        if lead > num_processes / 2 {
            Some(self.leading())
        } else {
            None
        }
    }

    /// Whether any accepted ballot names a value.
    pub fn has_definite(&self) -> (definite: bool)
        ensures
            definite == (self@.definite() > 0),
    {
        self.ones > 0 || self.zeros > 0
    }

    /// The state in which these proposals leave the phase; `coin` is used
    /// only if no proposal names a value.
    pub fn conclude(&self, num_adversaries: usize, coin: Value) -> (decision: Decision)
        requires
            self.wf(),
        ensures
            decision == spec_conclude(self@, num_adversaries as nat, coin),
    {
        let next = if self.has_definite() {
            self.leading()
        } else {
            coin
        };
        if self.ones + self.zeros > num_adversaries {
            Decision::Done { next, decided: self.leading() }
        } else {
            Decision::Pending { next }
        }
    }
}


/// What an intake has made of a backlog: the ballots it holds, the messages
/// it put back, in order, and how many messages it looked at.
pub struct Intaken {
    pub ballots: Ballots,
    pub requeued: Seq<Message>,
    pub examined: nat,
}

/// One pass of a round over the messages that wait in the inbox, oldest
/// first. The pass ends when `take` ballots are accepted or the backlog is
/// used up, whichever comes first.
pub open spec fn intake(
    round: Round,
    phase: Phase,
    take: nat,
    ballots: Ballots,
    backlog: Seq<Message>,
) -> Intaken
    decreases backlog.len(),
{
    if ballots.total() >= take || backlog.len() == 0 {
        Intaken { ballots, requeued: Seq::empty(), examined: 0 }
    } else {
        let first = backlog[0];
        let rest = intake(
            round,
            phase,
            take,
            match spec_sift(round, phase, first) {
                Intake::Accept(ballot) => ballots.with(ballot),
                _ => ballots,
            },
            backlog.drop_first(),
        );
        Intaken {
            ballots: rest.ballots,
            requeued: if spec_sift(round, phase, first) == Intake::Requeue {
                seq![first] + rest.requeued
            } else {
                rest.requeued
            },
            examined: rest.examined + 1,
        }
    }
}

/// The inbox that a pass leaves behind: what it did not look at, followed by
/// what it put back.
pub open spec fn inbox_after(backlog: Seq<Message>, done: Intaken) -> Seq<Message> {
    backlog.skip(done.examined as int) + done.requeued
}

/// A pass neither invents ballots nor loses count: it looks at no more
/// messages than wait, accepts no more than it looks at, stops at `take`,
/// and does not stop short of `take` while messages wait.
pub proof fn lemma_intake_bounds(
    round: Round,
    phase: Phase,
    take: nat,
    ballots: Ballots,
    backlog: Seq<Message>,
)
    ensures
        intake(round, phase, take, ballots, backlog).examined <= backlog.len(),
        intake(round, phase, take, ballots, backlog).ballots.ones >= ballots.ones,
        intake(round, phase, take, ballots, backlog).ballots.zeros >= ballots.zeros,
        intake(round, phase, take, ballots, backlog).ballots.undecided >= ballots.undecided,
        intake(round, phase, take, ballots, backlog).ballots.total() + intake(
            round,
            phase,
            take,
            ballots,
            backlog,
        ).requeued.len() <= ballots.total() + intake(round, phase, take, ballots, backlog).examined,
        ballots.total() <= take ==> intake(round, phase, take, ballots, backlog).ballots.total()
            <= take,
        intake(round, phase, take, ballots, backlog).ballots.total() >= take || intake(
            round,
            phase,
            take,
            ballots,
            backlog,
        ).examined == backlog.len(),
    decreases backlog.len(),
{
    if !(ballots.total() >= take || backlog.len() == 0) {
        let next = match spec_sift(round, phase, backlog[0]) {
            Intake::Accept(ballot) => ballots.with(ballot),
            _ => ballots,
        };
        lemma_intake_bounds(round, phase, take, next, backlog.drop_first());
    }
}

/// Works through the messages that wait in the inbox of peer `id`, oldest
/// first, until `take` ballots of the round are in `tally` or every message
/// that waited at the call has been looked at once. Messages of the round
/// and phase are counted, messages for a later round are put back at the
/// end of the inbox, stale ones are dropped.
pub fn read_values<T: Transport>(
    transport: &mut T,
    id: usize,
    take: usize,
    round: Round,
    phase: Phase,
    tally: &mut Tally,
)
    requires
        old(transport).wf(),
        id < old(transport).inboxes().len(),
        old(tally).wf(),
    ensures
        final(transport).wf(),
        final(tally).wf(),
        final(tally)@ == intake(
            round,
            phase,
            take as nat,
            old(tally)@,
            old(transport).inboxes()[id as int],
        ).ballots,
        final(transport).inboxes() == old(transport).inboxes().update(
            id as int,
            inbox_after(
                old(transport).inboxes()[id as int],
                intake(
                    round,
                    phase,
                    take as nat,
                    old(tally)@,
                    old(transport).inboxes()[id as int],
                ),
            ),
        ),
{
    let budget: usize = transport.pending(id);
    let ghost backlog = transport.inboxes()[id as int];
    let ghost whole = intake(round, phase, take as nat, tally@, backlog);
    let ghost mut requeued: Seq<Message> = Seq::empty();
    let mut examined: usize = 0;
    assert(backlog.skip(0) =~= backlog);
    assert(transport.inboxes() =~= old(transport).inboxes().update(
        id as int,
        backlog.skip(0) + requeued,
    ));
    while examined < budget && tally.accepted() < take
        invariant
            transport.wf(),
            tally.wf(),
            id < transport.inboxes().len(),
            id < old(transport).inboxes().len(),
            backlog == old(transport).inboxes()[id as int],
            budget == backlog.len(),
            examined <= budget,
            whole == intake(round, phase, take as nat, old(tally)@, backlog),
            transport.inboxes() == old(transport).inboxes().update(
                id as int,
                backlog.skip(examined as int) + requeued,
            ),
            whole.ballots == intake(
                round,
                phase,
                take as nat,
                tally@,
                backlog.skip(examined as int),
            ).ballots,
            whole.requeued == requeued + intake(
                round,
                phase,
                take as nat,
                tally@,
                backlog.skip(examined as int),
            ).requeued,
            whole.examined == examined + intake(
                round,
                phase,
                take as nat,
                tally@,
                backlog.skip(examined as int),
            ).examined,
        decreases budget - examined,
    {
        let ghost ahead = backlog.skip(examined as int);
        let ghost before = transport.inboxes();
        assert(ahead[0] == backlog[examined as int]);
        assert(ahead.drop_first() =~= backlog.skip(examined + 1));
        assert((ahead + requeued).drop_first() =~= backlog.skip(examined + 1) + requeued);
        let ghost rest = intake(round, phase, take as nat, tally@, ahead);
        assert(before[id as int] == ahead + requeued);
        assert(ahead.len() > 0);
        assert((ahead + requeued)[0] == ahead[0]);
        let ghost counted = tally@;
        match transport.receive(id) {
            None => {},
            Some(message) => {
                match sift(round, phase, message) {
                    Intake::Accept(ballot) => {
                        tally.record(ballot);
                    },
                    Intake::Requeue => {
                        transport.send_to_self(id, message);
                        proof {
                            assert(message == ahead[0]);
                            assert(rest.requeued == seq![message] + intake(
                                round,
                                phase,
                                take as nat,
                                counted,
                                ahead.drop_first(),
                            ).requeued);
                            requeued = requeued.push(message);
                            assert(requeued + intake(
                                round,
                                phase,
                                take as nat,
                                tally@,
                                backlog.skip(examined + 1),
                            ).requeued =~= whole.requeued);
                        }
                    },
                    Intake::Drop => {},
                }
            },
        }
        examined = examined + 1;
        assert(transport.inboxes() =~= old(transport).inboxes().update(
            id as int,
            backlog.skip(examined as int) + requeued,
        ));
    }
    proof {
        assert(whole.examined == examined);
        assert(whole.requeued =~= requeued);
    }
}


/// The identity of a peer: its index among the peers.
#[derive(Clone, Copy, Debug, PartialEq, Eq, Structural)]
pub struct ProcessId(pub usize);

/// Where a peer stands within the phase that it is running: the round it is
/// in, if it has begun the phase, and the ballots of that round so far.
pub struct Stage {
    pub round: Option<Round>,
    pub ballots: Ballots,
}

impl Stage {
    /// Between two phases.
    pub open spec fn idle() -> Stage {
        Stage { round: None, ballots: Ballots::none() }
    }

    /// At the start of `round`, with no ballot counted.
    pub open spec fn entering(round: Round) -> Stage {
        Stage { round: Some(round), ballots: Ballots::none() }
    }
}

/// What a step function keeps from call to call: the peer's identity and its
/// place within the phase.
pub struct Context {
    id: ProcessId,
    round: Option<Round>,
    tally: Tally,
}

impl Context {
    /// The peer's identity.
    pub closed spec fn spec_id(&self) -> ProcessId {
        self.id
    }

    /// The peer's place within the phase.
    pub closed spec fn stage(&self) -> Stage {
        Stage { round: self.round, ballots: self.tally@ }
    }

    /// The counters are consistent, and empty between two phases.
    pub closed spec fn wf(&self) -> bool {
        &&& self.tally.wf()
        &&& self.round is None ==> self.tally@ == Ballots::none()
    }

    /// What the invariant says, for callers: between two phases the peer
    /// holds no ballots.
    pub proof fn lemma_wf(&self)
        requires
            self.wf(),
        ensures
            self.stage().round is None ==> self.stage() == Stage::idle(),
    {
    }

    /// The context of a peer that has not begun a phase.
    pub fn new(id: ProcessId) -> (context: Context)
        ensures
            context.wf(),
            context.spec_id() == id,
            context.stage() == Stage::idle(),
    {
        Context { id, round: None, tally: Tally::new() }
    }

    /// The peer's identity.
    #[verifier::when_used_as_spec(spec_id)]
    pub fn id(&self) -> (id: ProcessId)
        ensures
            id == self.spec_id(),
    {
        self.id
    }

    /// Whether the peer is between two phases.
    pub fn is_idle(&self) -> (idle: bool)
        ensures
            idle == (self.stage().round is None),
    {
        self.round.is_none()
    }
}

/// How far a call of a step function got.
#[derive(Clone, Copy, Debug, PartialEq, Eq, Structural)]
pub enum Progress {
    /// The phase needs messages that have not arrived: call again later.
    Blocked,
    /// The phase is over and leaves the peer in this state.
    Finished(Decision),
    /// The peer has crashed and takes no further step.
    Crashed,
}

/// The part of the world that a step can change: every peer's inbox, and the
/// stage of the peer that takes the step.
pub struct Scene {
    pub inboxes: Seq<Seq<Message>>,
    pub stage: Stage,
}

/// The scene after the peer `id` has made one pass of `round` over its inbox.
pub open spec fn after_intake(scene: Scene, id: int, round: Round, phase: Phase, take: nat) -> Scene {
    let done = intake(round, phase, take, scene.stage.ballots, scene.inboxes[id]);
    Scene {
        inboxes: scene.inboxes.update(id, inbox_after(scene.inboxes[id], done)),
        stage: Stage { round: Some(round), ballots: done.ballots },
    }
}

/// The start of a phase: the peer broadcasts its value and enters the
/// report round.
pub open spec fn spec_begin(scene: Scene, phase: Phase, value: Value) -> Scene {
    Scene {
        inboxes: broadcast(scene.inboxes, Message::Report { phase, value }),
        stage: Stage::entering(Round::Report),
    }
}

/// The report round: one pass over the inbox and, once `take` reports are
/// accepted, the broadcast of the verdict and the entry into the proposal
/// round.
pub open spec fn spec_report_round(scene: Scene, id: int, phase: Phase, take: nat) -> Scene {
    let taken = after_intake(scene, id, Round::Report, phase, take);
    if taken.stage.ballots.total() >= take {
        Scene {
            inboxes: broadcast(
                taken.inboxes,
                Message::Proposal {
                    phase,
                    value: spec_verdict(taken.stage.ballots, scene.inboxes.len()),
                },
            ),
            stage: Stage::entering(Round::Proposal),
        }
    } else {
        taken
    }
}

/// The proposal round: one pass over the inbox and, once `take` proposals
/// are accepted, the end of the phase.
pub open spec fn spec_proposal_round(
    scene: Scene,
    id: int,
    phase: Phase,
    take: nat,
    num_adversaries: nat,
    coin: Value,
) -> (Scene, Progress) {
    let taken = after_intake(scene, id, Round::Proposal, phase, take);
    if taken.stage.ballots.total() >= take {
        (
            Scene { inboxes: taken.inboxes, stage: Stage::idle() },
            Progress::Finished(spec_conclude(taken.stage.ballots, num_adversaries, coin)),
        )
    } else {
        (taken, Progress::Blocked)
    }
}

/// One call of the correct step function by peer `id`, among as many peers
/// as there are inboxes, of which `num_adversaries` may be faulty. The peer
/// begins the phase if it stands between two phases, then goes as far as
/// the messages in its inbox carry it. In each round it waits for as many
/// ballots as there are peers that cannot all be faulty.
pub open spec fn spec_correct(
    scene: Scene,
    id: int,
    phase: Phase,
    value: Value,
    num_adversaries: nat,
    coin: Value,
) -> (Scene, Progress) {
    let take = (scene.inboxes.len() - num_adversaries) as nat;
    let begun = if scene.stage.round is None {
        spec_begin(scene, phase, value)
    } else {
        scene
    };
    let reported = if begun.stage.round == Some(Round::Report) {
        spec_report_round(begun, id, phase, take)
    } else {
        begun
    };
    if reported.stage.round == Some(Round::Proposal) {
        spec_proposal_round(reported, id, phase, take, num_adversaries, coin)
    } else {
        (reported, Progress::Blocked)
    }
}

/// The value that a coin flip stands for.
pub open spec fn coin_value(coin: bool) -> Value {
    if coin {
        Value::One
    } else {
        Value::Zero
    }
}

/// Makes one pass of the context's round over the peer's inbox.
fn pass<T: Transport>(context: &mut Context, transport: &mut T, phase: Phase, take: usize)
    requires
        old(context).wf(),
        old(context).stage().round is Some,
        old(transport).wf(),
        old(context).spec_id().0 < old(transport).inboxes().len(),
    ensures
        final(context).wf(),
        final(transport).wf(),
        final(context).spec_id() == old(context).spec_id(),
        (Scene { inboxes: final(transport).inboxes(), stage: final(context).stage() })
            == after_intake(
            Scene { inboxes: old(transport).inboxes(), stage: old(context).stage() },
            old(context).spec_id().0 as int,
            old(context).stage().round.unwrap(),
            phase,
            take as nat,
        ),
{
    match context.round {
        Some(round) => {
            read_values(transport, context.id.0, take, round, phase, &mut context.tally);
        },
        None => {},
    }
}

/// The correct behavior: Ben-Or's two rounds.
///
/// In the report round the peer broadcasts its value, accepts the reports of
/// its phase until it holds one from every peer that cannot be faulty, and
/// broadcasts as its proposal the value that more than half of all peers
/// reported, or an undecided ballot. In the proposal round it accepts the
/// proposals of its phase in the same number, goes on with the leading
/// value among them, or with a coin flip if none names a value, and decides
/// if more of them name a value than there may be faulty peers.
pub fn correct<T: Transport, E: Entropy>(
    context: &mut Context,
    transport: &mut T,
    entropy: &mut E,
    current_phase: Phase,
    current_value: Value,
    num_adversaries: usize,
) -> (progress: Progress)
    requires
        old(context).wf(),
        old(transport).wf(),
        old(context).spec_id().0 < old(transport).inboxes().len(),
        num_adversaries < old(transport).inboxes().len(),
    ensures
        final(context).wf(),
        final(transport).wf(),
        final(context).spec_id() == old(context).spec_id(),
        exists|coin: bool|
            (Scene { inboxes: final(transport).inboxes(), stage: final(context).stage() }, progress)
                == #[trigger] spec_correct(
                Scene { inboxes: old(transport).inboxes(), stage: old(context).stage() },
                old(context).spec_id().0 as int,
                current_phase,
                current_value,
                num_adversaries as nat,
                coin_value(coin),
            ),
{
    let ghost before = Scene { inboxes: old(transport).inboxes(), stage: old(context).stage() };
    let ghost id = context.id.0 as int;
    let num_processes: usize = transport.num_senders();
    let take: usize = num_processes - num_adversaries;
    if context.round.is_none() {
        transport.send(Message::Report { phase: current_phase, value: current_value });
        context.round = Some(Round::Report);
        context.tally = Tally::new();
    }
    let ghost begun = Scene { inboxes: transport.inboxes(), stage: context.stage() };
    if context.round == Some(Round::Report) {
        pass(context, transport, current_phase, take);
        if context.tally.accepted() >= take {
            transport.send(
                Message::Proposal {
                    phase: current_phase,
                    value: context.tally.verdict(num_processes),
                },
            );
            context.round = Some(Round::Proposal);
            context.tally = Tally::new();
        }
    }
    let ghost reported = Scene { inboxes: transport.inboxes(), stage: context.stage() };
    if context.round == Some(Round::Proposal) {
        pass(context, transport, current_phase, take);
        if context.tally.accepted() >= take {
            let coin: bool = if context.tally.has_definite() {
                false
            } else {
                entropy.flip()
            };
            let decision = context.tally.conclude(
                num_adversaries,
                if coin {
                    Value::One
                } else {
                    Value::Zero
                },
            );
            context.round = None;
            context.tally = Tally::new();
            assert((Scene { inboxes: transport.inboxes(), stage: context.stage() }, Progress::Finished(decision))
                == spec_correct(
                before,
                id,
                current_phase,
                current_value,
                num_adversaries as nat,
                coin_value(coin),
            ));
            return Progress::Finished(decision);
        }
    }
    assert((Scene { inboxes: transport.inboxes(), stage: context.stage() }, Progress::Blocked)
        == spec_correct(
        before,
        id,
        current_phase,
        current_value,
        num_adversaries as nat,
        coin_value(false),
    ));
    Progress::Blocked
}


/// The random draws that one call of a step function may consult. A call
/// consults only those that its behavior and the scene ask for.
pub struct Draws {
    /// Decides whether a crashing peer crashes.
    pub crash: u64,
    /// Whether a peer that sends invalid messages does so in this phase.
    pub deviate: bool,
    /// Whether the invalid message is a proposal rather than a report.
    pub as_proposal: bool,
    /// Whether the invalid proposal names the peer's value.
    pub with_value: bool,
    /// Whether a peer that stops executing skips this phase.
    pub skip: bool,
    /// The behavior that a randomly adversarial peer takes on.
    pub pick: Behavior,
    /// The coin of the proposal round.
    pub coin: bool,
}

/// Whether the draw makes a crashing peer crash at the start of `phase`: one
/// draw in `phase + 2` does.
pub open spec fn spec_crash_draw(draw: u64, phase: Phase) -> bool {
    draw as int % (phase.0 + 2) == 0
}

/// Whether the draw makes a crashing peer crash at the start of `phase`.
#[verifier::when_used_as_spec(spec_crash_draw)]
pub fn crash_draw(draw: u64, phase: Phase) -> (crash: bool)
    ensures
        crash == spec_crash_draw(draw, phase),
{
    draw as u128 % (phase.0 as u128 + 2) == 0
}

/// The message that a peer with `value` broadcasts in `phase` when it sends
/// an invalid message: well-formed, but not backed by the protocol.
pub open spec fn spec_deviant_message(
    as_proposal: bool,
    with_value: bool,
    phase: Phase,
    value: Value,
) -> Message {
    if as_proposal {
        Message::Proposal {
            phase,
            value: if with_value {
                Some(value)
            } else {
                None
            },
        }
    } else {
        Message::Report { phase, value }
    }
}

/// Builds the message of a peer that sends an invalid message.
#[verifier::when_used_as_spec(spec_deviant_message)]
pub fn deviant_message(as_proposal: bool, with_value: bool, phase: Phase, value: Value) -> (message:
    Message)
    ensures
        message == spec_deviant_message(as_proposal, with_value, phase, value),
{
    if as_proposal {
        Message::Proposal {
            phase,
            value: if with_value {
                Some(value)
            } else {
                None
            },
        }
    } else {
        Message::Report { phase, value }
    }
}

/// Whether `behavior` is one of the three that a randomly adversarial peer
/// takes on.
pub open spec fn is_plain_adversary(behavior: Behavior) -> bool {
    behavior == Behavior::Crashes || behavior == Behavior::SendsInvalidMessages || behavior
        == Behavior::StopsExecuting
}

/// One call of the step function of `behavior`, given the random draws.
///
/// Every adversarial behavior deviates only at the start of a phase; once
/// the peer is within a phase, it carries the phase through as a correct
/// peer would. A peer that crashes changes nothing. A peer that sends an
/// invalid message broadcasts it and ends the phase undecided with the value
/// it came with. A peer that stops executing ends the phase in the same way
/// without a broadcast.
pub open spec fn spec_step(
    behavior: Behavior,
    scene: Scene,
    id: int,
    phase: Phase,
    value: Value,
    num_adversaries: nat,
    draws: Draws,
) -> (Scene, Progress) {
    let kind = if behavior == Behavior::RandomlyAdversial {
        draws.pick
    } else {
        behavior
    };
    let at_start = scene.stage.round is None;
    if at_start && kind == Behavior::Crashes && spec_crash_draw(draws.crash, phase) {
        (scene, Progress::Crashed)
    } else if at_start && kind == Behavior::SendsInvalidMessages && draws.deviate {
        (
            Scene {
                inboxes: broadcast(
                    scene.inboxes,
                    spec_deviant_message(draws.as_proposal, draws.with_value, phase, value),
                ),
                stage: scene.stage,
            },
            Progress::Finished(Decision::Pending { next: value }),
        )
    } else if at_start && kind == Behavior::StopsExecuting && draws.skip {
        (scene, Progress::Finished(Decision::Pending { next: value }))
    } else {
        spec_correct(scene, id, phase, value, num_adversaries, coin_value(draws.coin))
    }
}

/// Whether a call of the step function of `behavior` can lead from `before`
/// to `after` with `progress`: whether some random draws make it do so.
pub open spec fn step_allows(
    behavior: Behavior,
    before: Scene,
    id: int,
    phase: Phase,
    value: Value,
    num_adversaries: nat,
    after: Scene,
    progress: Progress,
) -> bool {
    exists|draws: Draws|
        (behavior == Behavior::RandomlyAdversial ==> is_plain_adversary(draws.pick)) && (
        after,
        progress,
    ) == #[trigger] spec_step(behavior, before, id, phase, value, num_adversaries, draws)
}

/// No step adds or removes a peer: the number of inboxes stays.
pub proof fn lemma_step_keeps_peers(
    behavior: Behavior,
    before: Scene,
    id: int,
    phase: Phase,
    value: Value,
    num_adversaries: nat,
    after: Scene,
    progress: Progress,
)
    requires
        step_allows(behavior, before, id, phase, value, num_adversaries, after, progress),
        0 <= id < before.inboxes.len(),
    ensures
        after.inboxes.len() == before.inboxes.len(),
{
}

/// The behavior that crashes: at the start of phase `k` it stops for good
/// with probability `1 / (k + 2)`; otherwise it is correct.
pub fn randomly_crashes<T: Transport, E: Entropy>(
    context: &mut Context,
    transport: &mut T,
    entropy: &mut E,
    current_phase: Phase,
    current_value: Value,
    num_adversaries: usize,
) -> (progress: Progress)
    requires
        old(context).wf(),
        old(transport).wf(),
        old(context).spec_id().0 < old(transport).inboxes().len(),
        num_adversaries < old(transport).inboxes().len(),
    ensures
        final(context).wf(),
        final(transport).wf(),
        final(context).spec_id() == old(context).spec_id(),
        exists|draws: Draws|
            (Scene { inboxes: final(transport).inboxes(), stage: final(context).stage() }, progress)
                == #[trigger] spec_step(
                Behavior::Crashes,
                Scene { inboxes: old(transport).inboxes(), stage: old(context).stage() },
                old(context).spec_id().0 as int,
                current_phase,
                current_value,
                num_adversaries as nat,
                draws,
            ),
{
    let ghost before = Scene { inboxes: old(transport).inboxes(), stage: old(context).stage() };
    let ghost mut draws = Draws {
        crash: 1,
        deviate: false,
        as_proposal: false,
        with_value: false,
        skip: false,
        pick: Behavior::Crashes,
        coin: false,
    };
    if context.is_idle() {
        let draw: u64 = entropy.number();
        proof {
            draws.crash = draw;
        }
        if crash_draw(draw, current_phase) {
            assert((before, Progress::Crashed) == spec_step(
                Behavior::Crashes,
                before,
                context.spec_id().0 as int,
                current_phase,
                current_value,
                num_adversaries as nat,
                draws,
            ));
            return Progress::Crashed;
        }
    }
    let progress = correct(
        context,
        transport,
        entropy,
        current_phase,
        current_value,
        num_adversaries,
    );
    proof {
        let coin = choose|coin: bool|
            (Scene { inboxes: transport.inboxes(), stage: context.stage() }, progress)
                == #[trigger] spec_correct(
                before,
                old(context).spec_id().0 as int,
                current_phase,
                current_value,
                num_adversaries as nat,
                coin_value(coin),
            );
        draws.coin = coin;
        assert((Scene { inboxes: transport.inboxes(), stage: context.stage() }, progress)
            == spec_step(
            Behavior::Crashes,
            before,
            old(context).spec_id().0 as int,
            current_phase,
            current_value,
            num_adversaries as nat,
            draws,
        ));
    }
    progress
}

/// The behavior that sends invalid messages: at the start of a phase, with
/// probability one half, it broadcasts one message that the protocol does
/// not back and ends the phase undecided; otherwise it is correct.
pub fn randomly_sends_invalid_messages<T: Transport, E: Entropy>(
    context: &mut Context,
    transport: &mut T,
    entropy: &mut E,
    current_phase: Phase,
    current_value: Value,
    num_adversaries: usize,
) -> (progress: Progress)
    requires
        old(context).wf(),
        old(transport).wf(),
        old(context).spec_id().0 < old(transport).inboxes().len(),
        num_adversaries < old(transport).inboxes().len(),
    ensures
        final(context).wf(),
        final(transport).wf(),
        final(context).spec_id() == old(context).spec_id(),
        exists|draws: Draws|
            (Scene { inboxes: final(transport).inboxes(), stage: final(context).stage() }, progress)
                == #[trigger] spec_step(
                Behavior::SendsInvalidMessages,
                Scene { inboxes: old(transport).inboxes(), stage: old(context).stage() },
                old(context).spec_id().0 as int,
                current_phase,
                current_value,
                num_adversaries as nat,
                draws,
            ),
{
    let ghost before = Scene { inboxes: old(transport).inboxes(), stage: old(context).stage() };
    let ghost mut draws = Draws {
        crash: 1,
        deviate: false,
        as_proposal: false,
        with_value: false,
        skip: false,
        pick: Behavior::SendsInvalidMessages,
        coin: false,
    };
    if context.is_idle() && entropy.flip() {
        let as_proposal: bool = entropy.flip();
        let with_value: bool = if as_proposal {
            entropy.flip()
        } else {
            false
        };
        transport.send(deviant_message(as_proposal, with_value, current_phase, current_value));
        proof {
            draws.deviate = true;
            draws.as_proposal = as_proposal;
            draws.with_value = with_value;
            assert((
                Scene { inboxes: transport.inboxes(), stage: context.stage() },
                Progress::Finished(Decision::Pending { next: current_value }),
            ) == spec_step(
                Behavior::SendsInvalidMessages,
                before,
                context.spec_id().0 as int,
                current_phase,
                current_value,
                num_adversaries as nat,
                draws,
            ));
        }
        return Progress::Finished(Decision::Pending { next: current_value });
    }
    let progress = correct(
        context,
        transport,
        entropy,
        current_phase,
        current_value,
        num_adversaries,
    );
    proof {
        let coin = choose|coin: bool|
            (Scene { inboxes: transport.inboxes(), stage: context.stage() }, progress)
                == #[trigger] spec_correct(
                before,
                old(context).spec_id().0 as int,
                current_phase,
                current_value,
                num_adversaries as nat,
                coin_value(coin),
            );
        draws.coin = coin;
        assert((Scene { inboxes: transport.inboxes(), stage: context.stage() }, progress)
            == spec_step(
            Behavior::SendsInvalidMessages,
            before,
            old(context).spec_id().0 as int,
            current_phase,
            current_value,
            num_adversaries as nat,
            draws,
        ));
    }
    progress
}

/// The behavior that stops executing: at the start of a phase, with
/// probability one half, it skips the phase and stays undecided with the
/// value it came with; otherwise it is correct.
pub fn randomly_stops_executing<T: Transport, E: Entropy>(
    context: &mut Context,
    transport: &mut T,
    entropy: &mut E,
    current_phase: Phase,
    current_value: Value,
    num_adversaries: usize,
) -> (progress: Progress)
    requires
        old(context).wf(),
        old(transport).wf(),
        old(context).spec_id().0 < old(transport).inboxes().len(),
        num_adversaries < old(transport).inboxes().len(),
    ensures
        final(context).wf(),
        final(transport).wf(),
        final(context).spec_id() == old(context).spec_id(),
        exists|draws: Draws|
            (Scene { inboxes: final(transport).inboxes(), stage: final(context).stage() }, progress)
                == #[trigger] spec_step(
                Behavior::StopsExecuting,
                Scene { inboxes: old(transport).inboxes(), stage: old(context).stage() },
                old(context).spec_id().0 as int,
                current_phase,
                current_value,
                num_adversaries as nat,
                draws,
            ),
{
    let ghost before = Scene { inboxes: old(transport).inboxes(), stage: old(context).stage() };
    let ghost mut draws = Draws {
        crash: 1,
        deviate: false,
        as_proposal: false,
        with_value: false,
        skip: false,
        pick: Behavior::StopsExecuting,
        coin: false,
    };
    if context.is_idle() && entropy.flip() {
        proof {
            draws.skip = true;
            assert((before, Progress::Finished(Decision::Pending { next: current_value }))
                == spec_step(
                Behavior::StopsExecuting,
                before,
                context.spec_id().0 as int,
                current_phase,
                current_value,
                num_adversaries as nat,
                draws,
            ));
        }
        return Progress::Finished(Decision::Pending { next: current_value });
    }
    let progress = correct(
        context,
        transport,
        entropy,
        current_phase,
        current_value,
        num_adversaries,
    );
    proof {
        let coin = choose|coin: bool|
            (Scene { inboxes: transport.inboxes(), stage: context.stage() }, progress)
                == #[trigger] spec_correct(
                before,
                old(context).spec_id().0 as int,
                current_phase,
                current_value,
                num_adversaries as nat,
                coin_value(coin),
            );
        draws.coin = coin;
        assert((Scene { inboxes: transport.inboxes(), stage: context.stage() }, progress)
            == spec_step(
            Behavior::StopsExecuting,
            before,
            old(context).spec_id().0 as int,
            current_phase,
            current_value,
            num_adversaries as nat,
            draws,
        ));
    }
    progress
}


/// Whether two strings hold the same text.
fn same_text(left: &str, right: &str) -> (same: bool)
    ensures
        same == (left@ == right@),
{
    left.to_owned().eq(&right.to_owned())
}

impl Behavior {
    /// The name of the behavior on the command line.
    pub open spec fn spec_name(self) -> Seq<char> {
        match self {
            Behavior::Correct => "correct"@,
            Behavior::Crashes => "crashes"@,
            Behavior::SendsInvalidMessages => "sends_invalid_messages"@,
            Behavior::StopsExecuting => "stops_executing"@,
            Behavior::RandomlyAdversial => "randomly_adversarial"@,
        }
    }

    /// The name of the behavior on the command line.
    pub fn name(&self) -> (name: &'static str)
        ensures
            name@ == self.spec_name(),
    {
        match self {
            Behavior::Correct => "correct",
            Behavior::Crashes => "crashes",
            Behavior::SendsInvalidMessages => "sends_invalid_messages",
            Behavior::StopsExecuting => "stops_executing",
            Behavior::RandomlyAdversial => "randomly_adversarial",
        }
    }

    /// The behavior that goes by `name`, if there is one.
    pub fn parse(name: &str) -> (behavior: Option<Behavior>)
        ensures
            behavior matches Some(b) ==> b.spec_name() == name@,
            behavior is None ==> forall|b: Behavior| b.spec_name() != name@,
    {
        if same_text(name, "correct") {
            Some(Behavior::Correct)
        } else if same_text(name, "crashes") {
            Some(Behavior::Crashes)
        } else if same_text(name, "sends_invalid_messages") {
            Some(Behavior::SendsInvalidMessages)
        } else if same_text(name, "stops_executing") {
            Some(Behavior::StopsExecuting)
        } else if same_text(name, "randomly_adversarial") {
            Some(Behavior::RandomlyAdversial)
        } else {
            None
        }
    }

    /// No two behaviors share a name, so a name is parsed back to the
    /// behavior that it was taken from.
    pub proof fn lemma_names_differ(self, other: Behavior)
        requires
            self.spec_name() == other.spec_name(),
        ensures
            self == other,
    {
        reveal_strlit("correct");
        reveal_strlit("crashes");
        reveal_strlit("sends_invalid_messages");
        reveal_strlit("stops_executing");
        reveal_strlit("randomly_adversarial");
        assert("correct"@.len() == 7 && "correct"@[1] == 'o');
        assert("crashes"@.len() == 7 && "crashes"@[1] == 'r');
        assert("sends_invalid_messages"@.len() == 22);
        assert("stops_executing"@.len() == 15);
        assert("randomly_adversarial"@.len() == 20);
    }

    /// One call of the behavior's step function: the dispatch over the
    /// behaviors. A randomly adversarial peer takes on one of the three
    /// other adversarial behaviors, chosen anew at the start of each phase.
    pub fn step<T: Transport, E: Entropy>(
        &self,
        context: &mut Context,
        transport: &mut T,
        entropy: &mut E,
        current_phase: Phase,
        current_value: Value,
        num_adversaries: usize,
    ) -> (progress: Progress)
        requires
            old(context).wf(),
            old(transport).wf(),
            old(context).spec_id().0 < old(transport).inboxes().len(),
            num_adversaries < old(transport).inboxes().len(),
        ensures
            final(context).wf(),
            final(transport).wf(),
            final(context).spec_id() == old(context).spec_id(),
            step_allows(
                *self,
                Scene { inboxes: old(transport).inboxes(), stage: old(context).stage() },
                old(context).spec_id().0 as int,
                current_phase,
                current_value,
                num_adversaries as nat,
                Scene { inboxes: final(transport).inboxes(), stage: final(context).stage() },
                progress,
            ),
    {
        let ghost before = Scene { inboxes: old(transport).inboxes(), stage: old(context).stage() };
        let ghost id = context.spec_id().0 as int;
        let kind: Behavior = match self {
            Behavior::RandomlyAdversial => {
                if context.is_idle() {
                    let options: Vec<Behavior> = vec![
                        Behavior::Crashes,
                        Behavior::SendsInvalidMessages,
                        Behavior::StopsExecuting,
                    ];
                    match entropy.pick(&options) {
                        Some(kind) => kind,
                        None => Behavior::Crashes,
                    }
                } else {
                    Behavior::Crashes
                }
            },
            _ => *self,
        };
        assert(*self == Behavior::RandomlyAdversial ==> is_plain_adversary(kind));
        let progress = match kind {
            Behavior::Crashes => randomly_crashes(
                context,
                transport,
                entropy,
                current_phase,
                current_value,
                num_adversaries,
            ),
            Behavior::SendsInvalidMessages => randomly_sends_invalid_messages(
                context,
                transport,
                entropy,
                current_phase,
                current_value,
                num_adversaries,
            ),
            Behavior::StopsExecuting => randomly_stops_executing(
                context,
                transport,
                entropy,
                current_phase,
                current_value,
                num_adversaries,
            ),
            _ => {
                let progress = correct(
                    context,
                    transport,
                    entropy,
                    current_phase,
                    current_value,
                    num_adversaries,
                );
                proof {
                    let after = Scene { inboxes: transport.inboxes(), stage: context.stage() };
                    let coin = choose|coin: bool|
                        (after, progress) == #[trigger] spec_correct(
                            before,
                            id,
                            current_phase,
                            current_value,
                            num_adversaries as nat,
                            coin_value(coin),
                        );
                    let draws = Draws {
                        crash: 1,
                        deviate: false,
                        as_proposal: false,
                        with_value: false,
                        skip: false,
                        pick: Behavior::Correct,
                        coin,
                    };
                    assert((after, progress) == spec_step(
                        kind,
                        before,
                        id,
                        current_phase,
                        current_value,
                        num_adversaries as nat,
                        draws,
                    ));
                }
                progress
            },
        };
        proof {
            let after = Scene { inboxes: transport.inboxes(), stage: context.stage() };
            let drawn = choose|draws: Draws|
                (after, progress) == #[trigger] spec_step(
                    kind,
                    before,
                    id,
                    current_phase,
                    current_value,
                    num_adversaries as nat,
                    draws,
                );
            let draws = Draws { pick: kind, ..drawn };
            assert((after, progress) == spec_step(
                *self,
                before,
                id,
                current_phase,
                current_value,
                num_adversaries as nat,
                draws,
            ));
        }
        progress
    }
}

impl std::str::FromStr for Behavior {
    type Err = String;

    fn from_str(name: &str) -> (behavior: Result<Behavior, String>)
        ensures
            behavior matches Ok(b) ==> b.spec_name() == name@,
            behavior is Err ==> forall|b: Behavior| b.spec_name() != name@,
    {
        match Behavior::parse(name) {
            Some(behavior) => Ok(behavior),
            None => Err("invalid behavior string".to_owned()),
        }
    }
}

} // verus!
