//! The outcome stream of one peer: its decision in every phase, produced by
//! folding a step function over the phases, and the guard that keeps a
//! decision, once made, from changing.

use crate::message::{Phase, Phases, Value};
use vstd::prelude::*;

verus! {

/// The local state of a peer at the end of a phase.
#[derive(Clone, Copy, Debug, PartialEq, Eq, Structural)]
pub enum Decision {
    /// The peer has decided; `next` is what it proposes in the next phase.
    Done { next: Value, decided: Value },
    /// The peer has not decided; `next` is what it proposes in the next phase.
    Pending { next: Value },
}

impl Decision {
    pub open spec fn spec_decided(&self) -> Option<Value> {
        match *self {
            Decision::Done { next: _, decided } => Some(decided),
            Decision::Pending { next: _ } => None,
        }
    }

    /// The decided value, if the peer has decided.
    #[verifier::when_used_as_spec(spec_decided)]
    pub fn decided(&self) -> (decided: Option<Value>)
        ensures
            decided == self.spec_decided(),
    {
        match self {
            Decision::Done { next: _, decided } => Some(*decided),
            Decision::Pending { next: _ } => None,
        }
    }

    pub open spec fn spec_next(&self) -> Value {
        match *self {
            Decision::Done { next, decided: _ } => next,
            Decision::Pending { next } => next,
        }
    }

    /// The value that the peer takes into the next phase.
    #[verifier::when_used_as_spec(spec_next)]
    pub fn next(&self) -> (next: Value)
        ensures
            next == self.spec_next(),
    {
        match self {
            Decision::Done { next, decided: _ } => *next,
            Decision::Pending { next } => *next,
        }
    }

    /// Whether `later` may follow `self` in one peer's stream: a decided
    /// value must not be followed by another decided value.
    pub open spec fn spec_admits(&self, later: Decision) -> bool {
        self.spec_decided() is Some && later.spec_decided() is Some ==> self.spec_decided()
            == later.spec_decided()
    }

    /// The stickiness guard of the stream.
    #[verifier::when_used_as_spec(spec_admits)]
    pub fn admits(&self, later: Decision) -> (admitted: bool)
        ensures
            admitted == self.spec_admits(later),
    {
        match (self.decided(), later.decided()) {
            (Some(Value::One), Some(Value::Zero)) => false,
            (Some(Value::Zero), Some(Value::One)) => false,
            _ => true,
        }
    }
}

/// What one peer emits for one phase.
#[derive(Clone, Copy, Debug, PartialEq, Eq, Structural)]
pub struct Outcome {
    pub phase: Phase,
    pub decision: Decision,
}

/// Whether every decision in `chain` may follow the one before it.
pub open spec fn is_admitted_chain(chain: Seq<Decision>) -> bool {
    forall|i: int| 0 <= i && i + 1 < chain.len() ==> (#[trigger] chain[i]).spec_admits(chain[i + 1])
}

/// Whether no decision in `chain` is followed by an undecided state.
pub open spec fn never_retracts(chain: Seq<Decision>) -> bool {
    forall|i: int|
        0 <= i && i + 1 < chain.len() && (#[trigger] chain[i]).spec_decided() is Some ==> chain[i
            + 1].spec_decided() is Some
}

/// Decisions are sticky: in a chain that the guard admitted and in which the
/// step function never falls back from decided to undecided, a value decided
/// in one phase is the value decided in every later phase.
pub proof fn lemma_decision_is_sticky(chain: Seq<Decision>, k: int, later: int)
    requires
        is_admitted_chain(chain),
        never_retracts(chain),
        0 <= k <= later < chain.len(),
        chain[k].spec_decided() is Some,
    ensures
        chain[later].spec_decided() == chain[k].spec_decided(),
    decreases later - k,
{
    if k < later {
        lemma_decision_is_sticky(chain, k, later - 1);
        assert(chain[later - 1].spec_admits(chain[later - 1 + 1]));
    }
}

/// The guard alone keeps two decided values apart only as far as the chain
/// between them stays decided: whatever the step function does, a run of
/// decided states agrees on one value.
pub proof fn lemma_decided_run_agrees(chain: Seq<Decision>, k: int, later: int)
    requires
        is_admitted_chain(chain),
        0 <= k <= later < chain.len(),
        forall|i: int| k <= i <= later ==> (#[trigger] chain[i]).spec_decided() is Some,
    ensures
        chain[later].spec_decided() == chain[k].spec_decided(),
    decreases later - k,
{
    if k < later {
        lemma_decided_run_agrees(chain, k, later - 1);
        assert(chain[later - 1].spec_admits(chain[later - 1 + 1]));
    }
}

/// The decisions of a sequence of outcomes.
pub open spec fn decisions(outcomes: Seq<Outcome>) -> Seq<Decision> {
    Seq::new(outcomes.len(), |i: int| outcomes[i].decision)
}

/// The fold behind an outcome stream: the decision that is emitted next, the
/// phases still to come, and whether the guard has stopped the stream.
pub struct Timeline {
    current: Decision,
    phases: Phases,
    broken: bool,
    emitted: Ghost<Seq<Outcome>>,
}

impl Timeline {
    /// The decision that the next outcome will carry.
    pub closed spec fn current(&self) -> Decision {
        self.current
    }

    /// The phases for which no outcome was emitted yet.
    pub closed spec fn upcoming(&self) -> Seq<Phase> {
        self.phases@
    }

    /// Whether a step result contradicted an earlier decision.
    pub closed spec fn spec_is_broken(&self) -> bool {
        self.broken
    }

    /// The outcomes emitted so far, oldest first.
    pub closed spec fn emitted(&self) -> Seq<Outcome> {
        self.emitted@
    }

    /// Whether the stream can emit another outcome.
    pub open spec fn is_live(&self) -> bool {
        !self.spec_is_broken() && self.upcoming().len() > 0
    }

    /// The invariant of the stream: the phases emitted and to come follow one
    /// another without a gap, each has a successor, and every decision, the
    /// current one included, was admitted after the one before it.
    pub closed spec fn wf(&self) -> bool {
        &&& forall|i: int|
            0 <= i < self.phases@.len() ==> (#[trigger] self.phases@[i]).0 < u64::MAX
        &&& forall|i: int|
            0 <= i < self.phases@.len() ==> (#[trigger] self.phases@[i]).0 == self.phases@[0].0 + i
        &&& forall|i: int|
            0 <= i < self.emitted@.len() ==> (#[trigger] self.emitted@[i]).phase.0
                == self.emitted@[0].phase.0 + i
        &&& self.emitted@.len() > 0 && self.phases@.len() > 0 ==> self.phases@[0].0
            == self.emitted@[0].phase.0 + self.emitted@.len()
        &&& is_admitted_chain(decisions(self.emitted@).push(self.current))
    }

    /// What the invariant says, for callers: the emitted phases are
    /// consecutive and run into the upcoming ones, those all have a
    /// successor, and the decisions, with the current one at the end, form a
    /// chain that the guard admitted.
    pub proof fn lemma_wf(&self)
        requires
            self.wf(),
        ensures
            forall|i: int|
                0 <= i < self.upcoming().len() ==> (#[trigger] self.upcoming()[i]).0 < u64::MAX,
            forall|i: int|
                0 <= i < self.upcoming().len() ==> (#[trigger] self.upcoming()[i]).0
                    == self.upcoming()[0].0 + i,
            forall|i: int|
                0 <= i < self.emitted().len() ==> (#[trigger] self.emitted()[i]).phase.0
                    == self.emitted()[0].phase.0 + i,
            self.emitted().len() > 0 && self.upcoming().len() > 0 ==> self.upcoming()[0].0
                == self.emitted()[0].phase.0 + self.emitted().len(),
            is_admitted_chain(decisions(self.emitted()).push(self.current())),
    {
    }

    /// Starts a stream in the undecided state that carries `init`.
    pub fn new(init: Value, phases: Phases) -> (timeline: Timeline)
        ensures
            timeline.wf(),
            timeline.current() == (Decision::Pending { next: init }),
            timeline.upcoming() == phases@,
            !timeline.spec_is_broken(),
            timeline.emitted() == Seq::<Outcome>::empty(),
    {
        proof {
            phases.lemma_consecutive();
        }
        Timeline {
            current: Decision::Pending { next: init },
            phases,
            broken: false,
            emitted: Ghost(Seq::empty()),
        }
    }

    /// The same stream, cut off after its next `n` outcomes.
    pub fn take(self, n: usize) -> (timeline: Timeline)
        requires
            self.wf(),
        ensures
            timeline.wf(),
            timeline.current() == self.current(),
            timeline.emitted() == self.emitted(),
            timeline.spec_is_broken() == self.spec_is_broken(),
            timeline.upcoming() == if n <= self.upcoming().len() {
                self.upcoming().take(n as int)
            } else {
                self.upcoming()
            },
    {
        Timeline {
            current: self.current,
            phases: self.phases.take(n),
            broken: self.broken,
            emitted: self.emitted,
        }
    }

    /// Whether a step result contradicted an earlier decision. The stream
    /// emits nothing from then on.
    #[verifier::when_used_as_spec(spec_is_broken)]
    pub fn is_broken(&self) -> (broken: bool)
        ensures
            broken == self.spec_is_broken(),
    {
        self.broken
    }

    /// The step that is due: the protocol phase to run, which is the
    /// successor of the phase whose outcome is emitted next, and the value
    /// to run it with. `None` when the stream has ended.
    pub fn due(&self) -> (due: Option<(Phase, Value)>)
        requires
            self.wf(),
        ensures
            due == self.spec_due(),
    {
        if self.broken {
            return None;
        }
        match self.phases.peek() {
            None => None,
            Some(phase) => Some((phase.next(), self.current.next())),
        }
    }

    pub open spec fn spec_due(&self) -> Option<(Phase, Value)> {
        if self.is_live() {
            Some((Phase((self.upcoming()[0].0 + 1) as u64), self.current().spec_next()))
        } else {
            None
        }
    }

    /// Takes the result of the step that was due. If the guard admits it,
    /// emits the outcome of the current phase and moves on; if not, stops
    /// the stream for good.
    pub fn record(&mut self, stepped: Decision) -> (outcome: Option<Outcome>)
        requires
            old(self).wf(),
        ensures
            final(self).wf(),
            !old(self).is_live() ==> outcome is None && *final(self) == *old(self),
            old(self).is_live() && !old(self).current().spec_admits(stepped) ==> {
                &&& outcome is None
                &&& final(self).spec_is_broken()
                &&& final(self).current() == old(self).current()
                &&& final(self).upcoming() == old(self).upcoming()
                &&& final(self).emitted() == old(self).emitted()
            },
            old(self).is_live() && old(self).current().spec_admits(stepped) ==> {
                &&& outcome == Some(
                    Outcome { phase: old(self).upcoming()[0], decision: old(self).current() },
                )
                &&& !final(self).spec_is_broken()
                &&& final(self).current() == stepped
                &&& final(self).upcoming() == old(self).upcoming().drop_first()
                &&& final(self).emitted() == old(self).emitted().push(outcome.unwrap())
            },
    {
        if self.broken {
            return None;
        }
        match self.phases.peek() {
            None => None,
            Some(phase) => {
                if !self.current.admits(stepped) {
                    self.broken = true;
                    return None;
                }
                self.phases.next();
                let outcome = Outcome { phase, decision: self.current };
                proof {
                    let before = decisions(old(self).emitted@).push(old(self).current);
                    let after = decisions(old(self).emitted@.push(outcome)).push(stepped);
                    assert(after =~= before.push(stepped));
                    assert forall|i: int| 0 <= i && i + 1 < after.len() implies (
                    #[trigger] after[i]).spec_admits(after[i + 1]) by {
                        if i + 1 < before.len() {
                            assert(before[i].spec_admits(before[i + 1]));
                        }
                    }
                    self.emitted@ = old(self).emitted@.push(outcome);
                }
                self.current = stepped;
                Some(outcome)
            },
        }
    }
}


/// An outcome stream driven by a step function that runs to completion when
/// it is called: the fold of `step_fn` over the phases.
pub struct Outcomes<C, F> {
    timeline: Timeline,
    step_fn: F,
    context: C,
    num_adversaries: usize,
}

impl Outcome {
    /// The lazy stream of outcomes that starts undecided with `init` and
    /// obtains the state after each phase from `step_fn`.
    pub fn generate<C, F: Fn(&C, Phase, Value, usize) -> Decision>(
        init: Value,
        phases: Phases,
        step_fn: F,
        context: C,
        num_adversaries: usize,
    ) -> (stream: Outcomes<C, F>)
        requires
            forall|phase: Phase, value: Value|
                call_requires(step_fn, (&context, phase, value, num_adversaries)),
        ensures
            stream.wf(),
            stream.timeline().current() == (Decision::Pending { next: init }),
            stream.timeline().upcoming() == phases@,
            stream.timeline().emitted() == Seq::<Outcome>::empty(),
            !stream.timeline().spec_is_broken(),
            stream.step_fn() == step_fn,
            stream.context() == context,
            stream.num_adversaries() == num_adversaries,
    {
        Outcomes { timeline: Timeline::new(init, phases), step_fn, context, num_adversaries }
    }
}

impl<C, F: Fn(&C, Phase, Value, usize) -> Decision> Outcomes<C, F> {
    /// The fold that the stream has carried out so far.
    pub closed spec fn timeline(&self) -> Timeline {
        self.timeline
    }

    /// The step function of the stream.
    pub closed spec fn step_fn(&self) -> F {
        self.step_fn
    }

    /// The context that every step is given.
    pub closed spec fn context(&self) -> C {
        self.context
    }

    /// The number of faulty peers that every step is told of.
    pub closed spec fn num_adversaries(&self) -> usize {
        self.num_adversaries
    }

    /// The stream's fold is consistent and its step function can be called
    /// on every phase and value.
    pub closed spec fn wf(&self) -> bool {
        &&& self.timeline.wf()
        &&& forall|phase: Phase, value: Value|
            call_requires(self.step_fn, (&self.context, phase, value, self.num_adversaries))
    }

    /// Whether `stepped` can be what the step function returns for the step
    /// that is due.
    pub open spec fn may_step_to(&self, stepped: Decision) -> bool {
        self.timeline().spec_due() matches Some((phase, value)) && call_ensures(
            self.step_fn(),
            (&self.context(), phase, value, self.num_adversaries()),
            stepped,
        )
    }

    /// Emits the outcome of the next phase: the current decision. Before it
    /// does, it runs the step that is due, checks its result against the
    /// current decision, and makes it the next current decision. `None`
    /// when the phases are used up, and from the moment that a step result
    /// contradicts an earlier decision.
    pub fn next(&mut self) -> (outcome: Option<Outcome>)
        requires
            old(self).wf(),
        ensures
            final(self).wf(),
            final(self).step_fn() == old(self).step_fn(),
            final(self).context() == old(self).context(),
            final(self).num_adversaries() == old(self).num_adversaries(),
            !old(self).timeline().is_live() ==> outcome is None && final(self).timeline() == old(
                self,
            ).timeline(),
            old(self).timeline().is_live() ==> match outcome {
                Some(emitted) => {
                    &&& emitted == Outcome {
                        phase: old(self).timeline().upcoming()[0],
                        decision: old(self).timeline().current(),
                    }
                    &&& old(self).may_step_to(final(self).timeline().current())
                    &&& old(self).timeline().current().spec_admits(
                        final(self).timeline().current(),
                    )
                    &&& !final(self).timeline().spec_is_broken()
                    &&& final(self).timeline().upcoming() == old(
                        self,
                    ).timeline().upcoming().drop_first()
                    &&& final(self).timeline().emitted() == old(self).timeline().emitted().push(
                        emitted,
                    )
                },
                None => {
                    &&& exists|stepped: Decision|
                        old(self).may_step_to(stepped) && !old(
                            self,
                        ).timeline().current().spec_admits(stepped)
                    &&& final(self).timeline().spec_is_broken()
                    &&& final(self).timeline().current() == old(self).timeline().current()
                    &&& final(self).timeline().upcoming() == old(self).timeline().upcoming()
                    &&& final(self).timeline().emitted() == old(self).timeline().emitted()
                },
            },
    {
        match self.timeline.due() {
            None => None,
            Some((phase, value)) => {
                let stepped = (self.step_fn)(&self.context, phase, value, self.num_adversaries);
                assert(old(self).may_step_to(stepped));
                self.timeline.record(stepped)
            },
        }
    }

    /// The same stream, cut off after its next `n` outcomes.
    pub fn take(self, n: usize) -> (stream: Outcomes<C, F>)
        requires
            self.wf(),
        ensures
            stream.wf(),
            stream.step_fn() == self.step_fn(),
            stream.context() == self.context(),
            stream.num_adversaries() == self.num_adversaries(),
            stream.timeline().current() == self.timeline().current(),
            stream.timeline().emitted() == self.timeline().emitted(),
            stream.timeline().spec_is_broken() == self.timeline().spec_is_broken(),
            stream.timeline().upcoming() == if n <= self.timeline().upcoming().len() {
                self.timeline().upcoming().take(n as int)
            } else {
                self.timeline().upcoming()
            },
    {
        Outcomes {
            timeline: self.timeline.take(n),
            step_fn: self.step_fn,
            context: self.context,
            num_adversaries: self.num_adversaries,
        }
    }

    /// Whether a step result contradicted an earlier decision.
    pub fn is_broken(&self) -> (broken: bool)
        ensures
            broken == self.timeline().spec_is_broken(),
    {
        self.timeline.is_broken()
    }
}

} // verus!
