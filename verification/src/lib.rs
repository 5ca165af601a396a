//! Ben-Or's randomized binary consensus: the message model and wire codec,
//! the all-to-all transports, the per-peer phase state machine with its
//! adversarial variants, the outcome stream, and the simulator that binds
//! them together.
//!
//! The library never blocks and starts no thread. A simulation owns the
//! transport and the peers; whoever drives it decides which peer moves next,
//! by polling it.
//!
//! - `message`: values, phases, messages and their wire format.
//! - `transport`: the inboxes of the peers, as messages or as byte frames.
//! - `outcome`: decisions, outcomes, and the fold that emits them.
//! - `step`: the correct behavior and the adversarial ones, one call at a time.
//! - `random`: where the random draws come from.
//! - `process`: a peer and its polls.
//! - `agreement`: the ledger of a run, and why runs of correct peers are safe.
//! - `refinement`: why a simulation keeps such a ledger.
//! - `execution`: what therefore holds of everything that a simulation emits.
//!
//! What is proved of a simulation, for every order of polls and every
//! outcome of every random draw: if its peers are correct or crash, and
//! allow for fewer faulty peers than half of their number, then no two of
//! them ever decide differently, a decision once made is repeated in every
//! later phase, and peers that all start with one value decide it in the
//! first phase that they leave. None of this is owed beside a peer that
//! skips phases or sends messages of its own making.

pub mod agreement;
pub mod execution;
pub mod message;
pub mod outcome;
pub mod process;
pub mod random;
pub mod refinement;
pub mod step;
pub mod transport;

use crate::execution::{
    is_execution, leads_to, lemma_simulation_agrees, lemma_simulation_is_sticky,
    lemma_simulation_is_valid, moves, reached, spec_assigned_behavior, spec_initial_value, starts,
    starts_safely, World,
};
use crate::message::Value;
use crate::outcome::{Decision, Outcome};
use crate::process::{Id, Peer, Poll, Process};
use crate::random::{Entropy, ThreadLocal};
use crate::step::Stage;
use vstd::prelude::*;

pub use crate::step::Behavior;
pub use crate::transport::{ByteChannel, MessageChannel, Transport};

verus! {

/// A set of peers around one transport. For the sake of proof, a simulation
/// remembers the worlds that it has gone through.
pub struct Simulation<T: Transport> {
    transport: T,
    peers: Vec<Peer>,
    history: Ghost<Seq<World>>,
}

/// Sets up one peer for every inbox of the transport. The first `num_zeros`
/// peers start with `Zero`, the rest with `One`; the first `num_adversaries`
/// peers follow `adversarial_behavior`, the rest are correct. Every peer
/// allows for `num_adversaries` faulty peers.
pub fn simulate<T: Transport>(
    num_zeros: usize,
    num_adversaries: usize,
    adversarial_behavior: Behavior,
    transport: T,
) -> (simulation: Simulation<T>)
    requires
        transport.wf(),
        num_zeros <= transport.inboxes().len(),
        num_adversaries < transport.inboxes().len(),
    ensures
        simulation.wf(),
        simulation.inboxes() == transport.inboxes(),
        simulation.num_adversaries() == num_adversaries,
        starts(simulation.world(), num_zeros as int, num_adversaries, adversarial_behavior),
        simulation.history() == seq![simulation.world()],
{
    let num_processes: usize = transport.num_senders();
    let mut peers: Vec<Peer> = Vec::new();
    let mut i: usize = 0;
    while i < num_processes
        invariant
            i <= num_processes,
            peers@.len() == i,
            forall|j: int|
                0 <= j < i ==> {
                    let peer = #[trigger] peers@[j];
                    &&& peer.wf()
                    &&& peer.num_adversaries() == num_adversaries
                    &&& peer.id() == Id(j as usize)
                    &&& peer.behavior() == spec_assigned_behavior(
                        j,
                        num_adversaries as int,
                        adversarial_behavior,
                    )
                    &&& peer.stage() == Stage::idle()
                    &&& !peer.has_crashed()
                    &&& peer.timeline().current() == (Decision::Pending {
                        next: spec_initial_value(j, num_zeros as int),
                    })
                    &&& peer.timeline().emitted() == Seq::<Outcome>::empty()
                    &&& !peer.timeline().spec_is_broken()
                    &&& peer.timeline().upcoming().len() == u64::MAX
                    &&& peer.timeline().upcoming()[0].0 == 0
                },
        decreases num_processes - i,
    {
        let init = if i < num_zeros {
            Value::Zero
        } else {
            Value::One
        };
        let behavior = if i < num_adversaries {
            adversarial_behavior
        } else {
            Behavior::Correct
        };
        let process = Process { id: Id(i) };
        peers.push(process.run(init, behavior, num_adversaries));
        i = i + 1;
    }
    let ghost history = Seq::<World>::empty().push(
        World { inboxes: transport.inboxes(), peers: peers@ },
    );
    let simulation = Simulation { transport, peers, history: Ghost(history) };
    assert(simulation.history() =~= seq![simulation.world()]);
    simulation
}

impl<T: Transport> Simulation<T> {
    /// The messages waiting for each peer, oldest first.
    pub closed spec fn inboxes(&self) -> Seq<Seq<crate::message::Message>> {
        self.transport.inboxes()
    }

    /// The peers, by identity.
    pub closed spec fn peers(&self) -> Seq<Peer> {
        self.peers@
    }

    /// The simulation as the proofs about executions see it.
    pub open spec fn world(&self) -> World {
        World { inboxes: self.inboxes(), peers: self.peers() }
    }

    /// The worlds that the simulation has gone through, from the one in
    /// which it was set up to the present one.
    pub closed spec fn history(&self) -> Seq<World> {
        self.history@
    }

    /// The number of faulty peers that every peer allows for.
    pub closed spec fn num_adversaries(&self) -> usize {
        self.peers@[0].num_adversaries()
    }

    /// There is one consistent peer for every inbox, each under its own
    /// identity, and all allow for the same number of faulty peers, which is
    /// smaller than the number of peers. The history is an execution that
    /// ends in the present world.
    pub closed spec fn wf(&self) -> bool {
        &&& self.history@.len() > 0
        &&& self.history@.last() == self.world()
        &&& is_execution(self.history@)
        &&& self.transport.wf()
        &&& self.peers@.len() == self.transport.inboxes().len()
        &&& self.peers@.len() > 0
        &&& self.peers@[0].num_adversaries() < self.peers@.len()
        &&& forall|i: int|
            0 <= i < self.peers@.len() ==> {
                &&& (#[trigger] self.peers@[i]).wf()
                &&& self.peers@[i].id() == Id(i as usize)
                &&& self.peers@[i].num_adversaries() == self.peers@[0].num_adversaries()
            }
    }

    /// What the invariant says, for callers.
    pub proof fn lemma_wf(&self)
        requires
            self.wf(),
        ensures
            self.peers().len() == self.inboxes().len(),
            self.num_adversaries() < self.peers().len(),
            forall|i: int|
                0 <= i < self.peers().len() ==> {
                    &&& (#[trigger] self.peers()[i]).wf()
                    &&& self.peers()[i].id() == Id(i as usize)
                    &&& self.peers()[i].num_adversaries() == self.num_adversaries()
                },
            self.history().len() > 0,
            self.history().last() == self.world(),
            is_execution(self.history()),
    {
    }

    /// Agreement: if the simulation was set up with no message on its way,
    /// with benign peers that allow for fewer faulty peers than half of
    /// their number, then no two decisions that its peers have reached
    /// differ, whatever the polls and the random draws have been.
    pub proof fn lemma_agreement(
        &self,
        num_zeros: int,
        adversarial_behavior: Behavior,
        peer: int,
        k: int,
        other: int,
        l: int,
    )
        requires
            self.wf(),
            starts_safely(
                self.history()[0],
                num_zeros,
                self.num_adversaries(),
                adversarial_behavior,
            ),
            0 <= peer < self.peers().len(),
            0 <= other < self.peers().len(),
            0 <= k < reached(self.peers()[peer]).len(),
            0 <= l < reached(self.peers()[other]).len(),
            reached(self.peers()[peer])[k].spec_decided() is Some,
            reached(self.peers()[other])[l].spec_decided() is Some,
        ensures
            reached(self.peers()[peer])[k].spec_decided() == reached(
                self.peers()[other],
            )[l].spec_decided(),
    {
        let last = self.history().len() - 1;
        lemma_simulation_agrees(
            self.history(),
            num_zeros,
            self.num_adversaries(),
            adversarial_behavior,
            last,
            peer,
            k,
            last,
            other,
            l,
        );
    }

    /// Validity: if, moreover, all peers started with the same value, every
    /// peer that has left a phase has decided that value.
    pub proof fn lemma_validity(
        &self,
        num_zeros: int,
        adversarial_behavior: Behavior,
        peer: int,
        k: int,
    )
        requires
            self.wf(),
            starts_safely(
                self.history()[0],
                num_zeros,
                self.num_adversaries(),
                adversarial_behavior,
            ),
            num_zeros <= 0 || num_zeros == self.history()[0].peers.len(),
            0 <= peer < self.peers().len(),
            1 <= k < reached(self.peers()[peer]).len(),
        ensures
            reached(self.peers()[peer])[k] == (Decision::Done {
                next: spec_initial_value(0, num_zeros),
                decided: spec_initial_value(0, num_zeros),
            }),
    {
        lemma_simulation_is_valid(
            self.history(),
            num_zeros,
            self.num_adversaries(),
            adversarial_behavior,
            self.history().len() - 1,
            peer,
            k,
        );
    }

    /// Stickiness: under the conditions of agreement, a peer that has
    /// decided a value has decided it at the end of every later phase, and
    /// the guard of its stream has not stopped it.
    pub proof fn lemma_stickiness(
        &self,
        num_zeros: int,
        adversarial_behavior: Behavior,
        peer: int,
        k: int,
        later: int,
    )
        requires
            self.wf(),
            starts_safely(
                self.history()[0],
                num_zeros,
                self.num_adversaries(),
                adversarial_behavior,
            ),
            0 <= peer < self.peers().len(),
            0 <= k < later < reached(self.peers()[peer]).len(),
            reached(self.peers()[peer])[k].spec_decided() is Some,
        ensures
            !self.peers()[peer].timeline().spec_is_broken(),
            reached(self.peers()[peer])[later] == (Decision::Done {
                next: reached(self.peers()[peer])[k].spec_decided().unwrap(),
                decided: reached(self.peers()[peer])[k].spec_decided().unwrap(),
            }),
    {
        lemma_simulation_is_sticky(
            self.history(),
            num_zeros,
            self.num_adversaries(),
            adversarial_behavior,
            self.history().len() - 1,
            peer,
            k,
            later,
        );
    }

    /// The number of peers.
    pub fn num_processes(&self) -> (n: usize)
        requires
            self.wf(),
        ensures
            n == self.peers().len(),
    {
        self.peers.len()
    }

    /// Peer `index`, to look at.
    pub fn peer(&self, index: usize) -> (peer: &Peer)
        requires
            self.wf(),
            index < self.peers().len(),
        ensures
            *peer == self.peers()[index as int],
    {
        &self.peers[index]
    }

    /// Lets peer `index` move, with random draws from `entropy`: it takes
    /// the step that is due as far as its inbox carries it. No other peer
    /// changes; the inboxes change as the step of that peer changes them.
    pub fn poll_with<E: Entropy>(&mut self, index: usize, entropy: &mut E) -> (poll: Poll)
        requires
            old(self).wf(),
            index < old(self).peers().len(),
        ensures
            final(self).wf(),
            final(self).num_adversaries() == old(self).num_adversaries(),
            moves(old(self).world(), index as int, final(self).world(), poll),
            final(self).history() == old(self).history().push(final(self).world()),
    {
        let poll = self.peers[index].poll_with(&mut self.transport, entropy);
        proof {
            let before = old(self).history();
            let after = before.push(self.world());
            assert(moves(old(self).world(), index as int, self.world(), poll));
            assert forall|i: int| 0 <= i && i + 1 < after.len() implies leads_to(
                #[trigger] after[i],
                after[i + 1],
            ) by {
                if i + 1 < before.len() {
                    assert(leads_to(before[i], before[i + 1]));
                }
            }
            self.history@ = after;
        }
        poll
    }

    /// Lets peer `index` move, with random draws from the thread-local
    /// generator.
    pub fn poll(&mut self, index: usize) -> (poll: Poll)
        requires
            old(self).wf(),
            index < old(self).peers().len(),
        ensures
            final(self).wf(),
            final(self).num_adversaries() == old(self).num_adversaries(),
            moves(old(self).world(), index as int, final(self).world(), poll),
            final(self).history() == old(self).history().push(final(self).world()),
    {
        let mut entropy = ThreadLocal;
        self.poll_with(index, &mut entropy)
    }
}

} // verus!
