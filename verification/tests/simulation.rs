use ben_or_randomized_consensus::message::{Phase, Value};
use ben_or_randomized_consensus::outcome::{Decision, Outcome};
use ben_or_randomized_consensus::process::{Id, Poll, Process};
use ben_or_randomized_consensus::random::{Entropy, Script, ThreadLocal};
use ben_or_randomized_consensus::{
    simulate, Behavior, ByteChannel, MessageChannel, Simulation, Transport,
};

/// Polls the peers in turn, `first` first, until every peer from `from` on
/// has emitted `phases` outcomes, and returns what each peer emitted.
fn run<T: Transport, E: Entropy>(
    simulation: &mut Simulation<T>,
    entropy: &mut E,
    first: usize,
    from: usize,
    phases: usize,
) -> Vec<Vec<Outcome>> {
    let n = simulation.num_processes();
    let mut emitted: Vec<Vec<Outcome>> = vec![vec![]; n];
    for _ in 0..100_000 {
        if (from..n).all(|i| emitted[i].len() >= phases) {
            return emitted;
        }
        for turn in 0..n {
            let i = (first + turn) % n;
            if let Poll::Ready(id, outcome) = simulation.poll_with(i, entropy) {
                assert_eq!(id, Id(i));
                emitted[i].push(outcome);
            }
        }
    }
    panic!("the peers did not get through {} phases", phases);
}

fn check_unanimous<T: Transport>(transport: T, num_zeros: usize, value: Value) {
    let mut simulation = simulate(num_zeros, 0, Behavior::Correct, transport);
    let emitted = run(&mut simulation, &mut Script::new(vec![], vec![]), 0, 0, 12);
    for outcomes in emitted {
        assert_eq!(
            outcomes[0],
            Outcome { phase: Phase(0), decision: Decision::Pending { next: value } }
        );
        for (k, outcome) in outcomes.iter().enumerate().skip(1) {
            assert_eq!(
                *outcome,
                Outcome {
                    phase: Phase(k as u64),
                    decision: Decision::Done { next: value, decided: value }
                }
            );
        }
    }
}

#[test]
fn unanimous_zeros_decide_zero_at_phase_one() {
    check_unanimous(MessageChannel::new(3), 3, Value::Zero);
    check_unanimous(ByteChannel::new(3), 3, Value::Zero);
}

#[test]
fn unanimous_ones_decide_one_at_phase_one() {
    check_unanimous(MessageChannel::new(3), 0, Value::One);
    check_unanimous(ByteChannel::new(3), 0, Value::One);
}

#[test]
fn unanimous_peers_decide_with_faulty_peers_allowed_for() {
    // Five correct peers that allow for two faulty ones wait for three
    // ballots in each round; three is more than half of five, and more
    // than two.
    for first in 0..5 {
        let mut simulation = simulate(5, 2, Behavior::Correct, MessageChannel::new(5));
        let emitted = run(&mut simulation, &mut Script::new(vec![true], vec![]), first, 0, 6);
        for outcomes in emitted {
            assert_eq!(outcomes[0].decision, Decision::Pending { next: Value::Zero });
            for outcome in &outcomes[1..] {
                assert_eq!(
                    outcome.decision,
                    Decision::Done { next: Value::Zero, decided: Value::Zero }
                );
            }
        }
    }
}

fn check_split<T: Transport>(transport: T) {
    let mut simulation = simulate(2, 0, Behavior::Correct, transport);
    let emitted = run(&mut simulation, &mut Script::new(vec![true], vec![]), 0, 0, 8);
    // Peers 0 and 1 start with Zero, peer 2 with One.
    assert_eq!(emitted[0][0].decision, Decision::Pending { next: Value::Zero });
    assert_eq!(emitted[1][0].decision, Decision::Pending { next: Value::Zero });
    assert_eq!(emitted[2][0].decision, Decision::Pending { next: Value::One });
    // Two of three reports say Zero: all propose Zero, and all decide it.
    for outcomes in emitted {
        for (k, outcome) in outcomes.iter().enumerate().skip(1) {
            assert_eq!(
                *outcome,
                Outcome {
                    phase: Phase(k as u64),
                    decision: Decision::Done { next: Value::Zero, decided: Value::Zero }
                }
            );
        }
    }
}

#[test]
fn split_two_to_one_decides_the_majority() {
    check_split(MessageChannel::new(3));
    check_split(ByteChannel::new(3));
}

#[test]
fn a_tie_passes_no_value_on() {
    for (coin, value) in [(true, Value::One), (false, Value::Zero)] {
        let mut simulation = simulate(2, 0, Behavior::Correct, MessageChannel::new(4));
        let emitted = run(&mut simulation, &mut Script::new(vec![coin], vec![]), 0, 0, 5);
        for (i, outcomes) in emitted.iter().enumerate() {
            let init = if i < 2 { Value::Zero } else { Value::One };
            assert_eq!(outcomes[0].decision, Decision::Pending { next: init });
            // Two reports for each value: nobody proposes a value, nobody
            // decides, everybody goes on with the coin.
            assert_eq!(outcomes[1].decision, Decision::Pending { next: value });
            // Now all agree.
            assert_eq!(outcomes[2].decision, Decision::Done { next: value, decided: value });
        }
    }
}

#[test]
fn correct_peers_decide_beside_a_peer_that_skips_every_phase() {
    // Peer 0 stops executing, and every flip tells it to; every coin of the
    // proposal round shows One.
    let mut simulation = simulate(2, 1, Behavior::StopsExecuting, MessageChannel::new(4));
    let emitted = run(&mut simulation, &mut Script::new(vec![true], vec![]), 0, 1, 25);
    for outcome in &emitted[0] {
        assert_eq!(outcome.decision, Decision::Pending { next: Value::Zero });
    }
    assert_eq!(emitted[1][0].decision, Decision::Pending { next: Value::Zero });
    assert_eq!(emitted[2][0].decision, Decision::Pending { next: Value::One });
    assert_eq!(emitted[3][0].decision, Decision::Pending { next: Value::One });
    for outcomes in &emitted[1..] {
        assert!(outcomes.len() >= 25);
        // One report for Zero, two for One: no value has more than half of
        // the four peers behind it, so the coin decides, and then all three
        // report One.
        assert_eq!(outcomes[1].decision, Decision::Pending { next: Value::One });
        for (k, outcome) in outcomes.iter().enumerate().skip(2) {
            assert_eq!(
                *outcome,
                Outcome {
                    phase: Phase(k as u64),
                    decision: Decision::Done { next: Value::One, decided: Value::One }
                }
            );
        }
    }
}

#[test]
fn correct_peers_get_on_beside_a_peer_that_stops_at_random() {
    let mut simulation = simulate(2, 1, Behavior::StopsExecuting, ByteChannel::new(4));
    let emitted = run(&mut simulation, &mut ThreadLocal, 0, 1, 25);
    for (i, outcomes) in emitted.iter().enumerate() {
        for (k, outcome) in outcomes.iter().enumerate() {
            assert_eq!(outcome.phase, Phase(k as u64));
        }
        let init = if i < 2 { Value::Zero } else { Value::One };
        if let Some(first) = outcomes.first() {
            assert_eq!(first.decision, Decision::Pending { next: init });
        }
    }
    for i in 1..4 {
        assert!(!simulation.peer(i).crashed());
        assert!(!simulation.peer(i).is_broken());
    }
}

#[test]
fn poll_uses_the_thread_local_generator() {
    let mut simulation = simulate(1, 0, Behavior::Correct, MessageChannel::new(1));
    assert_eq!(simulation.num_processes(), 1);
    assert_eq!(
        simulation.poll(0),
        Poll::Ready(
            Id(0),
            Outcome { phase: Phase(0), decision: Decision::Pending { next: Value::Zero } }
        )
    );
    assert_eq!(
        simulation.poll(0),
        Poll::Ready(
            Id(0),
            Outcome {
                phase: Phase(1),
                decision: Decision::Done { next: Value::Zero, decided: Value::Zero }
            }
        )
    );
}

#[test]
fn a_crashed_peer_emits_nothing_more() {
    // Every number drawn is 0, a multiple of every modulus.
    let mut simulation = simulate(0, 1, Behavior::Crashes, MessageChannel::new(3));
    let mut entropy = Script::new(vec![], vec![0]);
    assert!(!simulation.peer(0).crashed());
    assert_eq!(simulation.poll_with(0, &mut entropy), Poll::Ended);
    assert!(simulation.peer(0).crashed());
    assert_eq!(simulation.poll_with(0, &mut entropy), Poll::Ended);
    // The two correct peers wait for two ballots each round and go on
    // without it.
    let emitted = run(&mut simulation, &mut entropy, 0, 1, 10);
    assert!(emitted[0].is_empty());
    for outcomes in &emitted[1..] {
        assert_eq!(outcomes[0].decision, Decision::Pending { next: Value::One });
        for outcome in &outcomes[1..] {
            assert_eq!(outcome.decision, Decision::Done { next: Value::One, decided: Value::One });
        }
    }
}

#[test]
fn adversaries_are_the_first_peers_and_zeros_the_first_values() {
    let simulation = simulate(3, 2, Behavior::SendsInvalidMessages, MessageChannel::new(5));
    assert_eq!(simulation.num_processes(), 5);
    assert!(!simulation.peer(0).crashed());
    // A peer that skips its first phase shows the value that it started with.
    let mut simulation_of_skippers = simulate(3, 4, Behavior::StopsExecuting, MessageChannel::new(5));
    let mut entropy = Script::new(vec![true], vec![]);
    for i in 0..4 {
        let init = if i < 3 { Value::Zero } else { Value::One };
        assert_eq!(
            simulation_of_skippers.poll_with(i, &mut entropy),
            Poll::Ready(
                Id(i),
                Outcome { phase: Phase(0), decision: Decision::Pending { next: init } }
            )
        );
    }
    // The last peer is correct. With four of five peers allowed to be
    // faulty it waits for one ballot in each round, and has its own.
    assert_eq!(
        simulation_of_skippers.poll_with(4, &mut entropy),
        Poll::Ready(
            Id(4),
            Outcome { phase: Phase(0), decision: Decision::Pending { next: Value::One } }
        )
    );
    // Its own report is no majority among five, so it went on with the coin.
    assert_eq!(
        simulation_of_skippers.poll_with(4, &mut entropy),
        Poll::Ready(
            Id(4),
            Outcome { phase: Phase(1), decision: Decision::Pending { next: Value::One } }
        )
    );
}

#[test]
fn a_peer_outside_a_simulation() {
    let mut transport = MessageChannel::new(1);
    let mut peer = Process { id: Id(0) }.run(Value::One, Behavior::Correct, 0);
    assert!(!peer.crashed());
    assert!(!peer.is_broken());
    assert_eq!(
        peer.poll(&mut transport),
        Poll::Ready(
            Id(0),
            Outcome { phase: Phase(0), decision: Decision::Pending { next: Value::One } }
        )
    );
    assert_eq!(
        peer.poll_with(&mut transport, &mut Script::new(vec![], vec![])),
        Poll::Ready(
            Id(0),
            Outcome {
                phase: Phase(1),
                decision: Decision::Done { next: Value::One, decided: Value::One }
            }
        )
    );
}

/// Polls the peers in an order drawn from `seed` and returns what each
/// peer emitted in `polls` polls.
fn run_shuffled<T: Transport, E: Entropy>(
    simulation: &mut Simulation<T>,
    entropy: &mut E,
    seed: u64,
    polls: usize,
) -> Vec<Vec<Outcome>> {
    let n = simulation.num_processes();
    let mut emitted: Vec<Vec<Outcome>> = vec![vec![]; n];
    let mut state = seed;
    for _ in 0..polls {
        state = state.wrapping_mul(6364136223846793005).wrapping_add(1442695040888963407);
        let i = ((state >> 33) as usize) % n;
        if let Poll::Ready(id, outcome) = simulation.poll_with(i, entropy) {
            assert_eq!(id, Id(i));
            emitted[i].push(outcome);
        }
    }
    emitted
}

/// The values decided in `emitted`, by any peer in any phase.
fn decided(emitted: &[Vec<Outcome>]) -> Vec<Value> {
    let mut values: Vec<Value> = emitted
        .iter()
        .flatten()
        .filter_map(|outcome| outcome.decision.decided())
        .collect();
    values.dedup();
    values
}

fn check_sticky(emitted: &[Vec<Outcome>]) {
    for outcomes in emitted {
        for (k, outcome) in outcomes.iter().enumerate() {
            assert_eq!(outcome.phase, Phase(k as u64));
            if let Some(value) = outcome.decision.decided() {
                for later in &outcomes[k + 1..] {
                    assert_eq!(later.decision, Decision::Done { next: value, decided: value });
                }
            }
        }
    }
}

#[test]
fn correct_peers_never_disagree() {
    for seed in 0..40u64 {
        for (n, num_zeros, f) in [(3, 1, 1), (4, 2, 1), (5, 2, 2), (5, 3, 0), (7, 3, 3)] {
            let flips = vec![seed % 2 == 0, seed % 3 == 0, seed % 5 == 0, true, false];
            let mut simulation = simulate(num_zeros, f, Behavior::Correct, MessageChannel::new(n));
            let emitted =
                run_shuffled(&mut simulation, &mut Script::new(flips, vec![]), seed, 4000);
            assert!(decided(&emitted).len() <= 1);
            check_sticky(&emitted);
            for i in 0..n {
                assert!(!simulation.peer(i).is_broken());
            }
        }
    }
}

#[test]
fn correct_peers_never_disagree_with_random_coins() {
    for seed in 0..20u64 {
        let mut simulation = simulate(2, 2, Behavior::Correct, ByteChannel::new(5));
        let emitted = run_shuffled(&mut simulation, &mut ThreadLocal, seed, 6000);
        assert!(decided(&emitted).len() <= 1);
        check_sticky(&emitted);
    }
}

#[test]
fn correct_peers_never_disagree_beside_crashing_peers() {
    for seed in 0..40u64 {
        // The numbers make a crashing peer crash at the start of a phase
        // whose number plus two divides the number drawn.
        let numbers = vec![seed + 1, 7, 12, 5];
        let flips = vec![seed % 2 == 1, false, true];
        let mut simulation = simulate(3, 3, Behavior::Crashes, MessageChannel::new(7));
        let emitted =
            run_shuffled(&mut simulation, &mut Script::new(flips, numbers), seed, 6000);
        assert!(decided(&emitted).len() <= 1);
        check_sticky(&emitted);
        for i in 0..7 {
            assert!(!simulation.peer(i).is_broken());
        }
    }
    for seed in 0..10u64 {
        let mut simulation = simulate(1, 1, Behavior::Crashes, ByteChannel::new(4));
        let emitted = run_shuffled(&mut simulation, &mut ThreadLocal, seed, 4000);
        assert!(decided(&emitted).len() <= 1);
        check_sticky(&emitted);
    }
}

#[test]
fn unanimous_peers_decide_their_value_in_any_order() {
    for seed in 0..30u64 {
        for (num_zeros, value) in [(5, Value::Zero), (0, Value::One)] {
            let mut simulation = simulate(num_zeros, 2, Behavior::Correct, ByteChannel::new(5));
            let emitted =
                run_shuffled(&mut simulation, &mut Script::new(vec![seed % 2 == 0], vec![]), seed, 3000);
            for outcomes in &emitted {
                for (k, outcome) in outcomes.iter().enumerate() {
                    if k == 0 {
                        assert_eq!(outcome.decision, Decision::Pending { next: value });
                    } else {
                        assert_eq!(outcome.decision, Decision::Done { next: value, decided: value });
                    }
                }
            }
            assert!(emitted.iter().any(|outcomes| outcomes.len() > 1));
        }
    }
}

#[test]
fn without_a_majority_of_correct_peers_unanimity_is_not_enough() {
    // Two peers that allow for one faulty peer wait for one report each;
    // one report is not more than half of two, so nobody proposes a value
    // and the coin decides how the peers go on.
    let mut simulation = simulate(2, 1, Behavior::Correct, MessageChannel::new(2));
    let emitted = run(&mut simulation, &mut Script::new(vec![true], vec![]), 0, 0, 3);
    for outcomes in &emitted {
        assert_eq!(outcomes[0].decision, Decision::Pending { next: Value::Zero });
        assert_eq!(outcomes[1].decision, Decision::Pending { next: Value::One });
    }
}

#[test]
fn a_peer_that_resumes_with_a_stale_value_can_split_the_decisions() {
    // Agreement is owed among peers that follow the protocol for as long as
    // they run. A peer that skips phases and comes back with the value that
    // it had before is none: with two such peers among five, this order of
    // polls lets correct peers decide One first and Zero later.
    let flips = vec![false, false, true, false, false];
    let mut simulation = simulate(2, 2, Behavior::StopsExecuting, MessageChannel::new(5));
    let emitted = run_shuffled(&mut simulation, &mut Script::new(flips, vec![]), 136, 36);
    let correct = &emitted[2..];
    assert!(correct.iter().flatten().any(|o| o.decision.decided() == Some(Value::One)));
    assert!(correct.iter().flatten().any(|o| o.decision.decided() == Some(Value::Zero)));
}
