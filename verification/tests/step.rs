use ben_or_randomized_consensus::message::{Message, Phase, Value};
use ben_or_randomized_consensus::outcome::Decision;
use ben_or_randomized_consensus::random::{Entropy, Script, ThreadLocal};
use ben_or_randomized_consensus::step::{
    correct, crash_draw, deviant_message, randomly_crashes, randomly_sends_invalid_messages,
    randomly_stops_executing, read_values, sift, Context, Intake, ProcessId, Progress, Round,
    Tally,
};
use ben_or_randomized_consensus::{Behavior, ByteChannel, MessageChannel, Transport};
use std::str::FromStr;

fn report(phase: u64, value: Value) -> Message {
    Message::Report { phase: Phase(phase), value }
}

fn proposal(phase: u64, value: Option<Value>) -> Message {
    Message::Proposal { phase: Phase(phase), value }
}

fn tally(ones: usize, zeros: usize, undecided: usize) -> Tally {
    let mut tally = Tally::new();
    for _ in 0..ones {
        tally.record(Some(Value::One));
    }
    for _ in 0..zeros {
        tally.record(Some(Value::Zero));
    }
    for _ in 0..undecided {
        tally.record(None);
    }
    tally
}

fn drain<T: Transport>(transport: &mut T, id: usize) -> Vec<Message> {
    let mut messages = vec![];
    while let Some(m) = transport.receive(id) {
        messages.push(m);
    }
    messages
}

#[test]
fn report_round_sifts_by_kind_and_phase() {
    let k = Phase(5);
    assert_eq!(sift(Round::Report, k, report(5, Value::One)), Intake::Accept(Some(Value::One)));
    assert_eq!(sift(Round::Report, k, report(5, Value::Zero)), Intake::Accept(Some(Value::Zero)));
    assert_eq!(sift(Round::Report, k, report(4, Value::One)), Intake::Drop);
    assert_eq!(sift(Round::Report, k, report(6, Value::One)), Intake::Drop);
    assert_eq!(sift(Round::Report, k, proposal(5, None)), Intake::Requeue);
    assert_eq!(sift(Round::Report, k, proposal(5, Some(Value::One))), Intake::Requeue);
    assert_eq!(sift(Round::Report, k, proposal(9, None)), Intake::Requeue);
    assert_eq!(sift(Round::Report, k, proposal(4, Some(Value::Zero))), Intake::Drop);
}

#[test]
fn proposal_round_sifts_by_kind_and_phase() {
    let k = Phase(5);
    assert_eq!(sift(Round::Proposal, k, proposal(5, None)), Intake::Accept(None));
    assert_eq!(
        sift(Round::Proposal, k, proposal(5, Some(Value::Zero))),
        Intake::Accept(Some(Value::Zero))
    );
    assert_eq!(sift(Round::Proposal, k, proposal(4, None)), Intake::Drop);
    assert_eq!(sift(Round::Proposal, k, proposal(6, Some(Value::One))), Intake::Drop);
    assert_eq!(sift(Round::Proposal, k, report(6, Value::One)), Intake::Requeue);
    assert_eq!(sift(Round::Proposal, k, report(5, Value::One)), Intake::Drop);
    assert_eq!(sift(Round::Proposal, k, report(4, Value::One)), Intake::Drop);
}

#[test]
fn verdict_needs_more_than_half_of_all_peers() {
    assert_eq!(tally(2, 1, 0).verdict(3), Some(Value::One));
    assert_eq!(tally(1, 2, 0).verdict(3), Some(Value::Zero));
    assert_eq!(tally(3, 0, 0).verdict(4), Some(Value::One));
    assert_eq!(tally(2, 1, 0).verdict(4), None);
    assert_eq!(tally(2, 0, 0).verdict(4), None);
    assert_eq!(tally(0, 3, 0).verdict(5), Some(Value::Zero));
    assert_eq!(tally(0, 2, 0).verdict(5), None);
    assert_eq!(tally(0, 0, 0).verdict(0), None);
    assert_eq!(tally(1, 0, 0).verdict(1), Some(Value::One));
}

#[test]
fn a_tie_among_the_reports_is_undecided() {
    // With four peers, two for each value, no value is backed by more than
    // half of the peers.
    assert_eq!(tally(2, 2, 0).leading(), Value::Zero);
    assert_eq!(tally(2, 2, 0).verdict(4), None);
    for n in 0..40usize {
        for each in 0..=n / 2 {
            assert_eq!(tally(each, each, 0).leading(), Value::Zero);
            assert_eq!(tally(each, each, 0).verdict(n), None);
        }
    }
}

#[test]
fn conclude_follows_the_definite_proposals() {
    // No proposal names a value: the coin decides what comes next.
    assert_eq!(
        tally(0, 0, 3).conclude(0, Value::One),
        Decision::Pending { next: Value::One }
    );
    assert_eq!(
        tally(0, 0, 3).conclude(0, Value::Zero),
        Decision::Pending { next: Value::Zero }
    );
    // One proposal names a value, one peer may be faulty: follow, do not decide.
    assert_eq!(
        tally(1, 0, 2).conclude(1, Value::Zero),
        Decision::Pending { next: Value::One }
    );
    // More proposals name a value than peers may be faulty: decide.
    assert_eq!(
        tally(2, 0, 1).conclude(1, Value::Zero),
        Decision::Done { next: Value::One, decided: Value::One }
    );
    assert_eq!(
        tally(0, 3, 0).conclude(0, Value::One),
        Decision::Done { next: Value::Zero, decided: Value::Zero }
    );
    assert_eq!(
        tally(0, 1, 0).conclude(0, Value::One),
        Decision::Done { next: Value::Zero, decided: Value::Zero }
    );
    // The count that is held against the number of faulty peers is that of
    // all proposals that name a value.
    assert_eq!(
        tally(1, 1, 0).conclude(1, Value::One),
        Decision::Done { next: Value::Zero, decided: Value::Zero }
    );
    assert_eq!(
        tally(2, 1, 0).conclude(2, Value::Zero),
        Decision::Done { next: Value::One, decided: Value::One }
    );
    assert_eq!(
        tally(2, 1, 0).conclude(3, Value::Zero),
        Decision::Pending { next: Value::One }
    );
}

#[test]
fn tally_counts() {
    let t = tally(2, 3, 4);
    assert_eq!(t.ones(), 2);
    assert_eq!(t.zeros(), 3);
    assert_eq!(t.accepted(), 9);
    assert!(t.has_definite());
    assert!(!tally(0, 0, 2).has_definite());
    assert_eq!(tally(3, 2, 0).leading(), Value::One);
    assert_eq!(tally(2, 3, 0).leading(), Value::Zero);
}

#[test]
fn read_values_counts_requeues_and_drops() {
    let mut transport = MessageChannel::new(2);
    let backlog = [
        report(2, Value::One),
        proposal(3, None),
        report(3, Value::One),
        proposal(2, Some(Value::One)),
        report(3, Value::Zero),
        proposal(4, Some(Value::Zero)),
        report(3, Value::One),
        report(3, Value::One),
    ];
    for m in backlog {
        transport.send(m);
    }
    let mut tally = Tally::new();
    read_values(&mut transport, 1, 3, Round::Report, Phase(3), &mut tally);
    assert_eq!(tally.accepted(), 3);
    assert_eq!(tally.ones(), 2);
    assert_eq!(tally.zeros(), 1);
    // The pass stopped at the third report of phase 3. What it did not look
    // at comes first, what it put back comes after.
    assert_eq!(
        drain(&mut transport, 1),
        vec![report(3, Value::One), proposal(3, None), proposal(4, Some(Value::Zero))]
    );
    // The other inbox was not touched.
    assert_eq!(transport.pending(0), 8);
}

#[test]
fn read_values_looks_at_each_waiting_message_once() {
    let mut transport = ByteChannel::new(1);
    transport.send(report(8, Value::One));
    transport.send(proposal(7, Some(Value::One)));
    transport.send(report(7, Value::One));
    let mut tally = Tally::new();
    read_values(&mut transport, 0, 2, Round::Proposal, Phase(7), &mut tally);
    assert_eq!(tally.accepted(), 1);
    assert_eq!(tally.ones(), 1);
    // The report of the later phase was put back, the stale one dropped; the
    // pass did not go on to look at what it had put back.
    assert_eq!(drain(&mut transport, 0), vec![report(8, Value::One)]);
    // A pass with enough ballots takes nothing.
    transport.send(proposal(7, None));
    read_values(&mut transport, 0, 1, Round::Proposal, Phase(7), &mut tally);
    assert_eq!(tally.accepted(), 1);
    assert_eq!(transport.pending(0), 1);
}

#[test]
fn correct_peer_alone_decides_at_once() {
    let mut transport = MessageChannel::new(1);
    let mut context = Context::new(ProcessId(0));
    let mut entropy = Script::new(vec![], vec![]);
    assert!(context.is_idle());
    let progress = correct(&mut context, &mut transport, &mut entropy, Phase(1), Value::One, 0);
    assert_eq!(
        progress,
        Progress::Finished(Decision::Done { next: Value::One, decided: Value::One })
    );
    assert!(context.is_idle());
    assert_eq!(context.id(), ProcessId(0));
    assert_eq!(transport.pending(0), 0);
}

#[test]
fn correct_peer_waits_for_the_others() {
    let mut transport = MessageChannel::new(3);
    let mut context = Context::new(ProcessId(2));
    let mut entropy = Script::new(vec![], vec![]);
    // Alone, the peer has its own report only.
    assert_eq!(
        correct(&mut context, &mut transport, &mut entropy, Phase(1), Value::Zero, 0),
        Progress::Blocked
    );
    assert!(!context.is_idle());
    assert_eq!(drain(&mut transport, 0), vec![report(1, Value::Zero)]);
    assert_eq!(transport.pending(2), 0);
    // The other reports arrive, with a proposal between them.
    transport.send_to_self(2, report(1, Value::Zero));
    transport.send_to_self(2, proposal(1, Some(Value::Zero)));
    transport.send_to_self(2, report(1, Value::One));
    assert_eq!(
        correct(&mut context, &mut transport, &mut entropy, Phase(1), Value::Zero, 0),
        Progress::Blocked
    );
    // Two of three reports said Zero: the peer proposes Zero to everyone.
    assert_eq!(drain(&mut transport, 0), vec![proposal(1, Some(Value::Zero))]);
    // It has accepted the proposal that it had put back, and its own.
    assert_eq!(transport.pending(2), 0);
    transport.send_to_self(2, proposal(1, None));
    assert_eq!(
        correct(&mut context, &mut transport, &mut entropy, Phase(1), Value::Zero, 0),
        Progress::Finished(Decision::Done { next: Value::Zero, decided: Value::Zero })
    );
    assert!(context.is_idle());
}

#[test]
fn correct_peer_flips_a_coin_when_no_proposal_names_a_value() {
    for (coin, value) in [(true, Value::One), (false, Value::Zero)] {
        let mut transport = ByteChannel::new(2);
        let mut context = Context::new(ProcessId(0));
        let mut entropy = Script::new(vec![coin], vec![]);
        transport.send_to_self(0, report(4, Value::One));
        transport.send_to_self(0, proposal(4, None));
        // Its own report for Zero and the other's for One: a tie.
        let progress =
            correct(&mut context, &mut transport, &mut entropy, Phase(4), Value::Zero, 0);
        assert_eq!(progress, Progress::Finished(Decision::Pending { next: value }));
        assert_eq!(
            drain(&mut transport, 1),
            vec![report(4, Value::Zero), proposal(4, None)]
        );
    }
}

#[test]
fn crash_draws() {
    assert!(crash_draw(0, Phase(0)));
    assert!(!crash_draw(1, Phase(0)));
    assert!(crash_draw(2, Phase(0)));
    assert!(crash_draw(9, Phase(1)));
    assert!(!crash_draw(10, Phase(1)));
    assert!(crash_draw(0, Phase(u64::MAX)));
    assert!(!crash_draw(u64::MAX, Phase(u64::MAX)));
    assert!(!crash_draw(u64::MAX, Phase(u64::MAX - 1)));
    assert!(crash_draw(u64::MAX, Phase(u64::MAX - 2)));
}

#[test]
fn deviant_messages() {
    assert_eq!(deviant_message(true, true, Phase(3), Value::One), proposal(3, Some(Value::One)));
    assert_eq!(deviant_message(true, false, Phase(3), Value::One), proposal(3, None));
    assert_eq!(deviant_message(false, true, Phase(3), Value::Zero), report(3, Value::Zero));
    assert_eq!(deviant_message(false, false, Phase(3), Value::Zero), report(3, Value::Zero));
}

#[test]
fn crashing_peer_crashes_on_its_draw() {
    let mut transport = MessageChannel::new(1);
    let mut context = Context::new(ProcessId(0));
    // 6 is a multiple of 1 + 2.
    let mut entropy = Script::new(vec![], vec![6]);
    assert_eq!(
        randomly_crashes(&mut context, &mut transport, &mut entropy, Phase(1), Value::One, 0),
        Progress::Crashed
    );
    assert_eq!(transport.pending(0), 0);
    assert!(context.is_idle());
    // 7 is not.
    let mut entropy = Script::new(vec![], vec![7]);
    assert_eq!(
        randomly_crashes(&mut context, &mut transport, &mut entropy, Phase(1), Value::One, 0),
        Progress::Finished(Decision::Done { next: Value::One, decided: Value::One })
    );
}

#[test]
fn peer_that_sends_invalid_messages() {
    let cases = [
        (vec![true, true, true], Some(proposal(2, Some(Value::One)))),
        (vec![true, true, false], Some(proposal(2, None))),
        (vec![true, false], Some(report(2, Value::One))),
        (vec![false], None),
    ];
    for (flips, sent) in cases {
        let mut transport = MessageChannel::new(2);
        let mut context = Context::new(ProcessId(0));
        let mut entropy = Script::new(flips, vec![]);
        let progress = randomly_sends_invalid_messages(
            &mut context,
            &mut transport,
            &mut entropy,
            Phase(2),
            Value::One,
            1,
        );
        match sent {
            Some(message) => {
                assert_eq!(progress, Progress::Finished(Decision::Pending { next: Value::One }));
                assert!(context.is_idle());
                assert_eq!(drain(&mut transport, 0), vec![message]);
                assert_eq!(drain(&mut transport, 1), vec![message]);
            }
            None => {
                // The peer is correct in this phase. With one peer allowed
                // to be faulty, its own messages carry it through: it
                // reports alone, so it proposes nothing definite, and the
                // coin is the script's only flip.
                assert_eq!(progress, Progress::Finished(Decision::Pending { next: Value::Zero }));
                assert_eq!(
                    drain(&mut transport, 1),
                    vec![report(2, Value::One), proposal(2, None)]
                );
            }
        }
    }
}

#[test]
fn peer_that_stops_executing() {
    let mut transport = MessageChannel::new(1);
    let mut context = Context::new(ProcessId(0));
    let mut entropy = Script::new(vec![true, false], vec![]);
    assert_eq!(
        randomly_stops_executing(
            &mut context,
            &mut transport,
            &mut entropy,
            Phase(1),
            Value::Zero,
            0
        ),
        Progress::Finished(Decision::Pending { next: Value::Zero })
    );
    assert_eq!(transport.pending(0), 0);
    assert_eq!(
        randomly_stops_executing(
            &mut context,
            &mut transport,
            &mut entropy,
            Phase(2),
            Value::Zero,
            0
        ),
        Progress::Finished(Decision::Done { next: Value::Zero, decided: Value::Zero })
    );
}

#[test]
fn adversaries_carry_a_phase_through_once_they_are_in_it() {
    let mut transport = MessageChannel::new(2);
    let mut context = Context::new(ProcessId(0));
    // The first flip lets the peer start the phase; from then on every flip
    // would make it skip, were it asked at all.
    let mut entropy = Script::new(vec![false, true, true, true], vec![]);
    assert_eq!(
        Behavior::StopsExecuting.step(
            &mut context,
            &mut transport,
            &mut entropy,
            Phase(1),
            Value::One,
            0
        ),
        Progress::Blocked
    );
    transport.send_to_self(0, report(1, Value::One));
    assert_eq!(
        Behavior::StopsExecuting.step(
            &mut context,
            &mut transport,
            &mut entropy,
            Phase(1),
            Value::One,
            0
        ),
        Progress::Blocked
    );
    transport.send_to_self(0, proposal(1, Some(Value::One)));
    assert_eq!(
        Behavior::StopsExecuting.step(
            &mut context,
            &mut transport,
            &mut entropy,
            Phase(1),
            Value::One,
            0
        ),
        Progress::Finished(Decision::Done { next: Value::One, decided: Value::One })
    );
}

#[test]
fn randomly_adversarial_peer_takes_on_the_picked_behavior() {
    // Pick 0 is the crashing peer, whose draw 0 makes it crash.
    let mut transport = MessageChannel::new(1);
    let mut context = Context::new(ProcessId(0));
    let mut entropy = Script::new(vec![true], vec![0]);
    assert_eq!(
        Behavior::RandomlyAdversial.step(
            &mut context,
            &mut transport,
            &mut entropy,
            Phase(1),
            Value::One,
            0
        ),
        Progress::Crashed
    );
    // Pick 1 sends an invalid message: a proposal that names its value.
    let mut entropy = Script::new(vec![true], vec![1]);
    assert_eq!(
        Behavior::RandomlyAdversial.step(
            &mut context,
            &mut transport,
            &mut entropy,
            Phase(1),
            Value::One,
            0
        ),
        Progress::Finished(Decision::Pending { next: Value::One })
    );
    assert_eq!(drain(&mut transport, 0), vec![proposal(1, Some(Value::One))]);
    // Pick 2 stops executing.
    let mut entropy = Script::new(vec![true], vec![2]);
    assert_eq!(
        Behavior::RandomlyAdversial.step(
            &mut context,
            &mut transport,
            &mut entropy,
            Phase(1),
            Value::One,
            0
        ),
        Progress::Finished(Decision::Pending { next: Value::One })
    );
    assert_eq!(transport.pending(0), 0);
}

#[test]
fn behavior_names() {
    let all = [
        (Behavior::Correct, "correct"),
        (Behavior::Crashes, "crashes"),
        (Behavior::SendsInvalidMessages, "sends_invalid_messages"),
        (Behavior::StopsExecuting, "stops_executing"),
        (Behavior::RandomlyAdversial, "randomly_adversarial"),
    ];
    for (behavior, name) in all {
        assert_eq!(behavior.name(), name);
        assert_eq!(Behavior::parse(name), Some(behavior));
        assert_eq!(Behavior::from_str(name), Ok(behavior));
    }
    assert_eq!(Behavior::parse("Correct"), None);
    assert_eq!(Behavior::parse(""), None);
    assert_eq!(Behavior::parse("randomly_adversial"), None);
    assert_eq!(
        Behavior::from_str("byzantine"),
        Err(String::from("invalid behavior string"))
    );
}

#[test]
fn script_replays_its_draws() {
    let mut script = Script::new(vec![true, false, false], vec![5, 9]);
    assert_eq!(
        [script.flip(), script.flip(), script.flip(), script.flip(), script.flip()],
        [true, false, false, true, false]
    );
    assert_eq!([script.number(), script.number(), script.number()], [5, 9, 5]);
    let options = vec![Behavior::Crashes, Behavior::SendsInvalidMessages, Behavior::StopsExecuting];
    // The next number is 9, and 9 modulo 3 is 0.
    assert_eq!(script.pick(&options), Some(Behavior::Crashes));
    // Then 5, and 5 modulo 3 is 2.
    assert_eq!(script.pick(&options), Some(Behavior::StopsExecuting));
    assert_eq!(script.pick(&vec![]), None);
    let mut empty = Script::new(vec![], vec![]);
    assert!(!empty.flip());
    assert_eq!(empty.number(), 0);
    assert_eq!(empty.pick(&options), Some(Behavior::Crashes));
}

#[test]
fn thread_local_picks_among_the_options() {
    let mut entropy = ThreadLocal;
    assert_eq!(entropy.pick(&vec![]), None);
    assert_eq!(entropy.pick(&vec![Behavior::StopsExecuting]), Some(Behavior::StopsExecuting));
    let options = vec![Behavior::Crashes, Behavior::SendsInvalidMessages, Behavior::StopsExecuting];
    let mut seen = [false; 3];
    for _ in 0..2000 {
        let chosen = entropy.pick(&options).unwrap();
        let at = options.iter().position(|b| *b == chosen).unwrap();
        seen[at] = true;
    }
    // Each option has a chance of a third in each of 2000 draws.
    assert_eq!(seen, [true, true, true]);
}

#[test]
fn thread_local_draws_vary() {
    let mut entropy = ThreadLocal;
    let mut heads = 0;
    let mut numbers = std::collections::HashSet::new();
    for _ in 0..2000 {
        if entropy.flip() {
            heads += 1;
        }
        numbers.insert(entropy.number());
    }
    // Both faces of the coin come up, and the numbers are not all the same.
    assert!(heads > 0 && heads < 2000);
    assert!(numbers.len() > 1);
}
