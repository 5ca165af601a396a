//! Executions of a simulation: the worlds that polls lead through, and what
//! holds of all of them when the peers are benign and fewer than half of
//! them may be faulty: agreement, validity, and the stickiness of decisions.

use crate::message::{Message, Value};
use crate::outcome::{decisions, Decision, Outcome};
use crate::process::{Id, Peer, Poll};
use crate::refinement::{holds, keeps, in_step, lemma_execution_holds, standings_of};
use crate::step::{step_allows, Behavior, Progress, Scene, Stage};
use vstd::prelude::*;

verus! {

/// A simulation at one moment: the inboxes and the peers.
pub struct World {
    pub inboxes: Seq<Seq<Message>>,
    pub peers: Seq<Peer>,
}

/// Whether one poll of peer `index` can lead from `before` to `after` with
/// the result `poll`: the polled peer moves as its poll allows, and no
/// other peer changes.
pub open spec fn moves(before: World, index: int, after: World, poll: Poll) -> bool {
    &&& 0 <= index < before.peers.len()
    &&& after.peers.len() == before.peers.len()
    &&& forall|i: int|
        0 <= i < before.peers.len() && i != index ==> #[trigger] after.peers[i] == before.peers[i]
    &&& after.peers[index].wf()
    &&& before.peers[index].poll_allows(before.inboxes, after.peers[index], after.inboxes, poll)
}

/// The value that peer `index` starts with when the first `num_zeros` peers
/// start with `Zero` and the rest with `One`.
pub open spec fn spec_initial_value(index: int, num_zeros: int) -> Value {
    if index < num_zeros {
        Value::Zero
    } else {
        Value::One
    }
}

/// The behavior of peer `index` when the first `num_adversaries` peers are
/// adversarial and the rest correct.
pub open spec fn spec_assigned_behavior(
    index: int,
    num_adversaries: int,
    adversarial_behavior: Behavior,
) -> Behavior {
    if index < num_adversaries {
        adversarial_behavior
    } else {
        Behavior::Correct
    }
}

/// Whether `world` is a simulation that was just set up: one peer for every
/// inbox, each under its own identity, undecided with its initial value at
/// phase 0, with its assigned behavior, all allowing for `num_adversaries`
/// faulty peers.
pub open spec fn starts(
    world: World,
    num_zeros: int,
    num_adversaries: usize,
    adversarial_behavior: Behavior,
) -> bool {
    &&& world.peers.len() == world.inboxes.len()
    &&& world.peers.len() <= usize::MAX
    &&& num_zeros <= world.peers.len()
    &&& num_adversaries < world.peers.len()
    &&& forall|i: int|
        0 <= i < world.peers.len() ==> {
            let peer = #[trigger] world.peers[i];
            &&& peer.wf()
            &&& peer.id() == Id(i as usize)
            &&& peer.num_adversaries() == num_adversaries
            &&& peer.behavior() == spec_assigned_behavior(
                i,
                num_adversaries as int,
                adversarial_behavior,
            )
            &&& peer.stage() == Stage::idle()
            &&& !peer.has_crashed()
            &&& peer.timeline().current() == (Decision::Pending {
                next: spec_initial_value(i, num_zeros),
            })
            &&& peer.timeline().emitted() == Seq::<Outcome>::empty()
            &&& !peer.timeline().spec_is_broken()
            &&& peer.timeline().upcoming().len() == u64::MAX
            &&& peer.timeline().upcoming()[0].0 == 0
        }
}

/// Whether no message is on its way.
pub open spec fn is_quiet(world: World) -> bool {
    forall|i: int| 0 <= i < world.inboxes.len() ==> (#[trigger] world.inboxes[i]).len() == 0
}

/// Whether the poll of some peer can lead from `before` to `after`.
pub open spec fn leads_to(before: World, after: World) -> bool {
    exists|index: int, poll: Poll| #[trigger] moves(before, index, after, poll)
}

/// Whether every world but the first comes from the one before by the poll
/// of a peer.
pub open spec fn is_execution(worlds: Seq<World>) -> bool {
    forall|i: int| 0 <= i && i + 1 < worlds.len() ==> leads_to(#[trigger] worlds[i], worlds[i + 1])
}

/// Whether a peer with `behavior` follows the protocol for as long as it
/// runs.
pub open spec fn is_benign(behavior: Behavior) -> bool {
    behavior == Behavior::Correct || behavior == Behavior::Crashes
}

/// Whether `world` is a simulation that was just set up with no message on
/// its way, all of whose peers are benign and allow for fewer faulty peers
/// than half of their number.
pub open spec fn starts_safely(
    world: World,
    num_zeros: int,
    num_adversaries: usize,
    adversarial_behavior: Behavior,
) -> bool {
    &&& starts(world, num_zeros, num_adversaries, adversarial_behavior)
    &&& is_quiet(world)
    &&& 2 * num_adversaries < world.peers.len()
    &&& forall|i: int| 0 <= i < world.peers.len() ==> is_benign((#[trigger] world.peers[i]).behavior())
}

/// The decisions that a peer has reached, oldest first: those that it has
/// emitted, and the one that it stands at. The first is the undecided state
/// that it started in; the one at index `k` is the state in which it left the
/// `k`-th phase that it ran.
pub open spec fn reached(peer: Peer) -> Seq<Decision> {
    decisions(peer.timeline().emitted()).push(peer.timeline().current())
}

/// What a peer has reached, it has reached for good: in every execution,
/// whatever the behaviors, the decisions that a peer has reached at one
/// moment are the first of those that it has reached at any later moment.
pub proof fn lemma_reached_only_grows(worlds: Seq<World>, at: int, later: int, peer: int)
    requires
        is_execution(worlds),
        0 <= at <= later < worlds.len(),
        0 <= peer < worlds[at].peers.len(),
    ensures
        worlds[later].peers.len() == worlds[at].peers.len(),
        reached(worlds[at].peers[peer]).len() <= reached(worlds[later].peers[peer]).len(),
        forall|k: int|
            0 <= k < reached(worlds[at].peers[peer]).len() ==> #[trigger] reached(
                worlds[later].peers[peer],
            )[k] == reached(worlds[at].peers[peer])[k],
    decreases later - at,
{
    if at < later {
        lemma_reached_only_grows(worlds, at, later - 1, peer);
        let before = worlds[later - 1];
        let after = worlds[later];
        assert(leads_to(worlds[later - 1], worlds[later - 1 + 1]));
        let (index, poll): (int, Poll) = choose|index: int, poll: Poll| #[trigger]
            moves(before, index, after, poll);
        if index == peer {
            let polled = before.peers[peer];
            let moved = after.peers[peer];
            if !polled.is_over() {
                let progress = choose|progress: Progress|
                    {
                        &&& #[trigger] step_allows(
                            polled.behavior(),
                            Scene { inboxes: before.inboxes, stage: polled.stage() },
                            polled.id().0 as int,
                            polled.timeline().spec_due().unwrap().0,
                            polled.timeline().spec_due().unwrap().1,
                            polled.num_adversaries() as nat,
                            Scene { inboxes: after.inboxes, stage: moved.stage() },
                            progress,
                        )
                        &&& polled.settles(progress, moved, poll)
                    };
                if progress is Finished {
                    let decision = progress->Finished_0;
                    if polled.timeline().current().spec_admits(decision) {
                        assert(reached(moved) =~= reached(polled).push(decision));
                    } else {
                        assert(reached(moved) =~= reached(polled));
                    }
                }
            }
        }
    }
}

/// Agreement: in a simulation of benign peers that allow for fewer faulty
/// peers than half of their number, whatever the order in which the peers
/// are polled and whatever their random draws, no two peers ever decide
/// differently, be it at the same moment or at different ones.
pub proof fn lemma_simulation_agrees(
    worlds: Seq<World>,
    num_zeros: int,
    num_adversaries: usize,
    adversarial_behavior: Behavior,
    at: int,
    peer: int,
    k: int,
    other_at: int,
    other: int,
    l: int,
)
    requires
        starts_safely(worlds[0], num_zeros, num_adversaries, adversarial_behavior),
        is_execution(worlds),
        0 <= at < worlds.len(),
        0 <= other_at < worlds.len(),
        0 <= peer < worlds[at].peers.len(),
        0 <= other < worlds[other_at].peers.len(),
        0 <= k < reached(worlds[at].peers[peer]).len(),
        0 <= l < reached(worlds[other_at].peers[other]).len(),
        reached(worlds[at].peers[peer])[k].spec_decided() is Some,
        reached(worlds[other_at].peers[other])[l].spec_decided() is Some,
    ensures
        reached(worlds[at].peers[peer])[k].spec_decided() == reached(
            worlds[other_at].peers[other],
        )[l].spec_decided(),
{
    let last = if at <= other_at {
        other_at
    } else {
        at
    };
    lemma_reached_only_grows(worlds, at, last, peer);
    lemma_reached_only_grows(worlds, other_at, last, other);
    assert(reached(worlds[last].peers[peer])[k] == reached(worlds[at].peers[peer])[k]);
    assert(reached(worlds[last].peers[other])[l] == reached(worlds[other_at].peers[other])[l]);
    lemma_world_agrees(
        worlds,
        num_zeros,
        num_adversaries,
        adversarial_behavior,
        last,
        peer,
        k,
        other,
        l,
    );
}

/// Agreement at one moment.
proof fn lemma_world_agrees(
    worlds: Seq<World>,
    num_zeros: int,
    num_adversaries: usize,
    adversarial_behavior: Behavior,
    at: int,
    peer: int,
    k: int,
    other: int,
    l: int,
)
    requires
        0 <= at < worlds.len(),
        starts_safely(worlds[0], num_zeros, num_adversaries, adversarial_behavior),
        is_execution(worlds),
        0 <= peer < worlds[at].peers.len(),
        0 <= other < worlds[at].peers.len(),
        0 <= k < reached(worlds[at].peers[peer]).len(),
        0 <= l < reached(worlds[at].peers[other]).len(),
        reached(worlds[at].peers[peer])[k].spec_decided() is Some,
        reached(worlds[at].peers[other])[l].spec_decided() is Some,
    ensures
        reached(worlds[at].peers[peer])[k].spec_decided() == reached(
            worlds[at].peers[other],
        )[l].spec_decided(),
{
    let ledger = lemma_execution_holds(
        worlds,
        num_zeros,
        num_adversaries,
        adversarial_behavior,
        at,
    );
    let world = worlds[at];
    let standings = standings_of(world);
    assert(keeps(world.inboxes[peer], standings[peer], ledger, peer));
    assert(keeps(world.inboxes[other], standings[other], ledger, other));
    assert(reached(world.peers[peer])[k] == standings[peer].entered(k));
    assert(reached(world.peers[other])[l] == standings[other].entered(l));
    assert(ledger.turn(k - 1, peer).outcome == Some(standings[peer].entered(k - 1 + 1)));
    assert(ledger.turn(l - 1, other).outcome == Some(standings[other].entered(l - 1 + 1)));
    ledger.lemma_agreement(
        k - 1,
        peer,
        reached(world.peers[peer])[k].spec_decided().unwrap(),
        l - 1,
        other,
        reached(world.peers[other])[l].spec_decided().unwrap(),
    );
}

/// Validity: in such a simulation, when all peers start with the same
/// value, every peer that leaves a phase has decided that value.
pub proof fn lemma_simulation_is_valid(
    worlds: Seq<World>,
    num_zeros: int,
    num_adversaries: usize,
    adversarial_behavior: Behavior,
    at: int,
    peer: int,
    k: int,
)
    requires
        0 <= at < worlds.len(),
        starts_safely(worlds[0], num_zeros, num_adversaries, adversarial_behavior),
        is_execution(worlds),
        num_zeros <= 0 || num_zeros == worlds[0].peers.len(),
        0 <= peer < worlds[at].peers.len(),
        1 <= k < reached(worlds[at].peers[peer]).len(),
    ensures
        reached(worlds[at].peers[peer])[k] == (Decision::Done {
            next: spec_initial_value(0, num_zeros),
            decided: spec_initial_value(0, num_zeros),
        }),
{
    let ledger = lemma_execution_holds(
        worlds,
        num_zeros,
        num_adversaries,
        adversarial_behavior,
        at,
    );
    let world = worlds[at];
    let standings = standings_of(world);
    assert(keeps(world.inboxes[peer], standings[peer], ledger, peer));
    assert(reached(world.peers[peer])[k] == standings[peer].entered(k));
    assert(ledger.turn(k - 1, peer).outcome == Some(standings[peer].entered(k - 1 + 1)));
    ledger.lemma_validity(spec_initial_value(0, num_zeros), k - 1, peer);
}

/// Stickiness: in such a simulation, a peer that has decided a value has
/// decided the same value at the end of every later phase, and goes on with
/// it; the guard of its outcome stream never has to stop it.
pub proof fn lemma_simulation_is_sticky(
    worlds: Seq<World>,
    num_zeros: int,
    num_adversaries: usize,
    adversarial_behavior: Behavior,
    at: int,
    peer: int,
    k: int,
    later: int,
)
    requires
        0 <= at < worlds.len(),
        starts_safely(worlds[0], num_zeros, num_adversaries, adversarial_behavior),
        is_execution(worlds),
        0 <= peer < worlds[at].peers.len(),
        0 <= k < later < reached(worlds[at].peers[peer]).len(),
        reached(worlds[at].peers[peer])[k].spec_decided() is Some,
    ensures
        !worlds[at].peers[peer].timeline().spec_is_broken(),
        reached(worlds[at].peers[peer])[later] == (Decision::Done {
            next: reached(worlds[at].peers[peer])[k].spec_decided().unwrap(),
            decided: reached(worlds[at].peers[peer])[k].spec_decided().unwrap(),
        }),
{
    let ledger = lemma_execution_holds(
        worlds,
        num_zeros,
        num_adversaries,
        adversarial_behavior,
        at,
    );
    let world = worlds[at];
    let standings = standings_of(world);
    assert(in_step(world.peers[peer], peer, ledger.num_adversaries));
    assert(keeps(world.inboxes[peer], standings[peer], ledger, peer));
    assert(reached(world.peers[peer])[k] == standings[peer].entered(k));
    assert(reached(world.peers[peer])[later] == standings[peer].entered(later));
    assert(ledger.turn(k - 1, peer).outcome == Some(standings[peer].entered(k - 1 + 1)));
    assert(ledger.turn(later - 1, peer).outcome == Some(standings[peer].entered(later - 1 + 1)));
    ledger.lemma_decision_is_final(
        k - 1,
        later - 1,
        peer,
        reached(world.peers[peer])[k].spec_decided().unwrap(),
    );
}

} // verus!
