//! A peer: an identity, an initial value, a behavior and the number of
//! faulty peers to allow for, bound into a stream of outcomes.

use crate::message::{Message, Phase, Value};
use crate::outcome::{Decision, Outcome, Timeline};
use crate::step::{step_allows, Behavior, Context, ProcessId, Progress, Scene, Stage};
use crate::random::{Entropy, ThreadLocal};
use crate::transport::Transport;
use vstd::prelude::*;

verus! {

/// The identity of a peer: its index among the peers.
#[derive(Clone, Copy, Debug, PartialEq, Eq, Structural)]
pub struct Id(pub usize);

/// A peer that has not started.
pub struct Process {
    pub id: Id,
}

/// What a poll of a peer brings.
#[derive(Clone, Copy, Debug, PartialEq, Eq, Structural)]
pub enum Poll {
    /// The peer finished a phase and emits the outcome of the one before.
    Ready(Id, Outcome),
    /// The peer waits for messages: poll it again when others have moved.
    Blocked,
    /// The peer emits nothing any more: it crashed, a step contradicted its
    /// decision, or the phases are used up.
    Ended,
}

/// A running peer: the outcome stream of a process, one poll at a time.
pub struct Peer {
    id: Id,
    behavior: Behavior,
    num_adversaries: usize,
    context: Context,
    timeline: Timeline,
    crashed: bool,
}

impl Process {
    /// Starts the peer with the value `init`. Its stream begins undecided at
    /// phase 0.
    pub fn run(self, init: Value, behavior: Behavior, num_adversaries: usize) -> (peer: Peer)
        ensures
            peer.wf(),
            peer.id() == self.id,
            peer.behavior() == behavior,
            peer.num_adversaries() == num_adversaries,
            peer.stage() == Stage::idle(),
            !peer.has_crashed(),
            peer.timeline().current() == (Decision::Pending { next: init }),
            peer.timeline().emitted() == Seq::<Outcome>::empty(),
            !peer.timeline().spec_is_broken(),
            peer.timeline().upcoming().len() == u64::MAX,
            forall|i: int|
                0 <= i < peer.timeline().upcoming().len() ==> (
                #[trigger] peer.timeline().upcoming()[i]).0 == i,
    {
        Peer {
            id: self.id,
            behavior,
            num_adversaries,
            context: Context::new(ProcessId(self.id.0)),
            timeline: Timeline::new(init, Phase::generate()),
            crashed: false,
        }
    }
}

impl Peer {
    /// The peer's identity.
    pub closed spec fn id(&self) -> Id {
        self.id
    }

    /// The peer's behavior.
    pub closed spec fn behavior(&self) -> Behavior {
        self.behavior
    }

    /// The number of faulty peers that the peer allows for.
    pub closed spec fn num_adversaries(&self) -> usize {
        self.num_adversaries
    }

    /// The peer's place within the phase that it is running.
    pub closed spec fn stage(&self) -> Stage {
        self.context.stage()
    }

    /// The fold of the peer's outcomes so far.
    pub closed spec fn timeline(&self) -> Timeline {
        self.timeline
    }

    /// Whether the peer has crashed.
    pub closed spec fn has_crashed(&self) -> bool {
        self.crashed
    }

    /// The peer's parts are consistent and speak of the same peer.
    pub closed spec fn wf(&self) -> bool {
        &&& self.context.wf()
        &&& self.context.spec_id() == ProcessId(self.id.0)
        &&& self.timeline.wf()
    }

    /// What the invariant says, for callers: the fold of the outcomes is
    /// consistent, and a peer between two phases holds no ballots.
    pub proof fn lemma_wf(&self)
        requires
            self.wf(),
        ensures
            self.timeline().wf(),
            self.stage().round is None ==> self.stage() == Stage::idle(),
    {
        self.context.lemma_wf();
    }

    /// Whether the peer will emit nothing any more.
    pub open spec fn is_over(&self) -> bool {
        self.has_crashed() || !self.timeline().is_live()
    }

    /// What a poll makes of the progress of the step that was due: how the
    /// peer `after` and the result `poll` follow from the peer before.
    pub open spec fn settles(&self, progress: Progress, after: Peer, poll: Poll) -> bool {
        match progress {
            Progress::Blocked => {
                &&& poll == Poll::Blocked
                &&& !after.has_crashed()
                &&& after.timeline() == self.timeline()
            },
            Progress::Crashed => {
                &&& poll == Poll::Ended
                &&& after.has_crashed()
                &&& after.timeline() == self.timeline()
            },
            Progress::Finished(decision) => {
                &&& !after.has_crashed()
                &&& after.timeline().emitted() == if self.timeline().current().spec_admits(
                    decision,
                ) {
                    self.timeline().emitted().push(
                        Outcome {
                            phase: self.timeline().upcoming()[0],
                            decision: self.timeline().current(),
                        },
                    )
                } else {
                    self.timeline().emitted()
                }
                &&& if self.timeline().current().spec_admits(decision) {
                    &&& poll == Poll::Ready(
                        self.id(),
                        Outcome {
                            phase: self.timeline().upcoming()[0],
                            decision: self.timeline().current(),
                        },
                    )
                    &&& !after.timeline().spec_is_broken()
                    &&& after.timeline().current() == decision
                    &&& after.timeline().upcoming() == self.timeline().upcoming().drop_first()
                } else {
                    &&& poll == Poll::Ended
                    &&& after.timeline().spec_is_broken()
                    &&& after.timeline().current() == self.timeline().current()
                    &&& after.timeline().upcoming() == self.timeline().upcoming()
                }
            },
        }
    }

    /// Whether one poll can lead from this peer and `inboxes` to the peer
    /// `after`, the inboxes `inboxes_after` and the result `poll`.
    ///
    /// A peer that is over stays as it is. Any other peer takes the step
    /// that is due, with its behavior, in the protocol phase that follows
    /// the phase of its next outcome, and the result of the poll settles
    /// what the step brought.
    pub open spec fn poll_allows(
        &self,
        inboxes: Seq<Seq<Message>>,
        after: Peer,
        inboxes_after: Seq<Seq<Message>>,
        poll: Poll,
    ) -> bool {
        &&& after.id() == self.id()
        &&& after.behavior() == self.behavior()
        &&& after.num_adversaries() == self.num_adversaries()
        &&& inboxes_after.len() == inboxes.len()
        &&& self.is_over() ==> {
            &&& poll == Poll::Ended
            &&& after.timeline() == self.timeline()
            &&& after.stage() == self.stage()
            &&& after.has_crashed() == self.has_crashed()
            &&& inboxes_after == inboxes
        }
        &&& !self.is_over() ==> exists|progress: Progress|
            {
                &&& #[trigger] step_allows(
                    self.behavior(),
                    Scene { inboxes, stage: self.stage() },
                    self.id().0 as int,
                    self.timeline().spec_due().unwrap().0,
                    self.timeline().spec_due().unwrap().1,
                    self.num_adversaries() as nat,
                    Scene { inboxes: inboxes_after, stage: after.stage() },
                    progress,
                )
                &&& self.settles(progress, after, poll)
            }
    }

    /// Lets the peer take the step that is due, as far as the messages in
    /// its inbox carry it, with random draws from `entropy`. When the step
    /// finishes the phase, its result is checked against the peer's decision
    /// and the outcome of the phase before is emitted: the outcome of phase
    /// `k` carries the state in which the peer entered the step for phase
    /// `k + 1`.
    pub fn poll_with<T: Transport, E: Entropy>(&mut self, transport: &mut T, entropy: &mut E) -> (poll:
        Poll)
        requires
            old(self).wf(),
            old(transport).wf(),
            old(self).id().0 < old(transport).inboxes().len(),
            old(self).num_adversaries() < old(transport).inboxes().len(),
        ensures
            final(self).wf(),
            final(transport).wf(),
            old(self).poll_allows(
                old(transport).inboxes(),
                *final(self),
                final(transport).inboxes(),
                poll,
            ),
    {
        if self.crashed {
            return Poll::Ended;
        }
        match self.timeline.due() {
            None => Poll::Ended,
            Some((phase, value)) => {
                let progress = self.behavior.step(
                    &mut self.context,
                    transport,
                    entropy,
                    phase,
                    value,
                    self.num_adversaries,
                );
                proof {
                    crate::step::lemma_step_keeps_peers(
                        self.behavior,
                        Scene { inboxes: old(transport).inboxes(), stage: old(self).stage() },
                        old(self).id().0 as int,
                        phase,
                        value,
                        self.num_adversaries as nat,
                        Scene { inboxes: transport.inboxes(), stage: self.stage() },
                        progress,
                    );
                }
                let poll = match progress {
                    Progress::Blocked => Poll::Blocked,
                    Progress::Crashed => {
                        self.crashed = true;
                        Poll::Ended
                    },
                    Progress::Finished(decision) => match self.timeline.record(decision) {
                        Some(outcome) => Poll::Ready(self.id, outcome),
                        None => Poll::Ended,
                    },
                };
                assert(old(self).settles(progress, *self, poll));
                poll
            },
        }
    }

    /// Lets the peer take the step that is due, with random draws from the
    /// thread-local generator.
    pub fn poll<T: Transport>(&mut self, transport: &mut T) -> (poll: Poll)
        requires
            old(self).wf(),
            old(transport).wf(),
            old(self).id().0 < old(transport).inboxes().len(),
            old(self).num_adversaries() < old(transport).inboxes().len(),
        ensures
            final(self).wf(),
            final(transport).wf(),
            old(self).poll_allows(
                old(transport).inboxes(),
                *final(self),
                final(transport).inboxes(),
                poll,
            ),
    {
        let mut entropy = ThreadLocal;
        self.poll_with(transport, &mut entropy)
    }

    /// Whether the peer has crashed.
    pub fn crashed(&self) -> (crashed: bool)
        ensures
            crashed == self.has_crashed(),
    {
        self.crashed
    }

    /// Whether a step of the peer contradicted its earlier decision.
    pub fn is_broken(&self) -> (broken: bool)
        ensures
            broken == self.timeline().spec_is_broken(),
    {
        self.timeline.is_broken()
    }
}

} // verus!
