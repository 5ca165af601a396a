use ben_or_randomized_consensus::message::{count_from, MalformedFrame, Message, Phase, Value};

#[test]
fn equality() {
    assert_eq!(
        Message::Proposal {
            phase: Phase(56),
            value: Some(Value::One)
        },
        Message::Proposal {
            phase: Phase(56),
            value: Some(Value::One)
        }
    );
    assert_eq!(
        Message::Report {
            phase: Phase(56),
            value: Value::One
        },
        Message::Report {
            phase: Phase(56),
            value: Value::One
        }
    );
    assert_ne!(
        Message::Proposal {
            phase: Phase(56),
            value: Some(Value::Zero)
        },
        Message::Report {
            phase: Phase(56),
            value: Value::One
        }
    );
}

#[test]
fn count_from_works() {
    let mut it = count_from(0).take(3);
    assert_eq!(it.next(), Some(0));
    assert_eq!(it.next(), Some(1));
    assert_eq!(it.next(), Some(2));
    assert_eq!(it.next(), None);
}

#[test]
fn phase_generate_works() {
    let mut it = Phase::generate().take(3);
    assert_eq!(it.next(), Some(Phase(0)));
    assert_eq!(it.next(), Some(Phase(1)));
    assert_eq!(it.next(), Some(Phase(2)));
    assert_eq!(it.next(), None);
}

#[test]
fn phase_next_works() {
    assert_eq!(Phase(0).next(), Phase(1));
    assert_eq!(Phase(7).next(), Phase(8));
}

#[test]
fn serialization() {
    let undecided_proposal_bytes: Vec<u8> = vec![0, 0, 0, 0, 0, 0, 0, 0, 56];
    let undecided_proposal = Message::Proposal {
        phase: Phase(56),
        value: None,
    };
    assert_eq!(
        undecided_proposal_bytes,
        Vec::<u8>::from(undecided_proposal.clone())
    );
    assert_eq!(
        Ok(undecided_proposal),
        Message::try_from(undecided_proposal_bytes)
    );

    let decided_proposal_bytes: Vec<u8> = vec![1, 0, 0, 0, 0, 0, 0, 1, 0, 1];
    let decided_proposal = Message::Proposal {
        phase: Phase(256),
        value: Some(Value::One),
    };
    assert_eq!(
        decided_proposal_bytes,
        Vec::<u8>::from(decided_proposal.clone())
    );
    assert_eq!(
        Ok(decided_proposal),
        Message::try_from(decided_proposal_bytes)
    );

    let report_bytes: Vec<u8> = vec![2, 0, 0, 0, 0, 0, 0, 0, 56, 0];
    let report = Message::Report {
        phase: Phase(56),
        value: Value::Zero,
    };
    assert_eq!(report_bytes, Vec::<u8>::from(report.clone()));
    assert_eq!(Ok(report), Message::try_from(report_bytes));
}

#[test]
fn decode_rejects_each_malformation() {
    assert_eq!(Message::decode(&vec![]), Err(MalformedFrame::IllegalLength));
    assert_eq!(
        Message::decode(&vec![0, 0, 0, 0, 0, 0, 0, 0]),
        Err(MalformedFrame::IllegalLength)
    );
    assert_eq!(
        Message::decode(&vec![2, 0, 0, 0, 0, 0, 0, 0, 0, 0, 0]),
        Err(MalformedFrame::IllegalLength)
    );
    assert_eq!(
        Message::decode(&vec![3, 0, 0, 0, 0, 0, 0, 0, 0]),
        Err(MalformedFrame::UnknownTag)
    );
    assert_eq!(
        Message::decode(&vec![255, 0, 0, 0, 0, 0, 0, 0, 0, 1]),
        Err(MalformedFrame::UnknownTag)
    );
    assert_eq!(
        Message::decode(&vec![0, 0, 0, 0, 0, 0, 0, 0, 0, 0]),
        Err(MalformedFrame::LengthMismatch)
    );
    assert_eq!(
        Message::decode(&vec![1, 0, 0, 0, 0, 0, 0, 0, 0]),
        Err(MalformedFrame::LengthMismatch)
    );
    assert_eq!(
        Message::decode(&vec![2, 0, 0, 0, 0, 0, 0, 0, 0]),
        Err(MalformedFrame::LengthMismatch)
    );
    assert_eq!(
        Message::decode(&vec![1, 0, 0, 0, 0, 0, 0, 0, 0, 2]),
        Err(MalformedFrame::IllegalValue)
    );
    assert_eq!(
        Message::decode(&vec![2, 0, 0, 0, 0, 0, 0, 0, 0, 255]),
        Err(MalformedFrame::IllegalValue)
    );
}

#[test]
fn codec_round_trip_on_sample_messages() {
    let phases = [0u64, 1, 56, 255, 256, 0x0102_0304_0506_0708, u64::MAX];
    for p in phases {
        let messages = [
            Message::Proposal { phase: Phase(p), value: None },
            Message::Proposal { phase: Phase(p), value: Some(Value::Zero) },
            Message::Proposal { phase: Phase(p), value: Some(Value::One) },
            Message::Report { phase: Phase(p), value: Value::Zero },
            Message::Report { phase: Phase(p), value: Value::One },
        ];
        for m in messages {
            let frame = m.encode();
            assert_eq!(Message::decode(&frame), Ok(m));
            assert_eq!(Message::try_from(Vec::<u8>::from(m)), Ok(m));
        }
    }
}

#[test]
fn phase_is_written_big_endian() {
    let frame = Message::Report { phase: Phase(0x0102_0304_0506_0708), value: Value::One }.encode();
    assert_eq!(frame, vec![2, 1, 2, 3, 4, 5, 6, 7, 8, 1]);
    assert_eq!(
        Message::decode(&vec![0, 0xff, 0, 0, 0, 0, 0, 0, 1]),
        Ok(Message::Proposal { phase: Phase(0xff00_0000_0000_0001), value: None })
    );
}

#[test]
fn value_bytes() {
    assert_eq!(u8::from(Value::Zero), 0);
    assert_eq!(u8::from(Value::One), 1);
    assert_eq!(Value::try_from(0u8), Ok(Value::Zero));
    assert_eq!(Value::try_from(1u8), Ok(Value::One));
    assert_eq!(Value::try_from(2u8), Err(MalformedFrame::IllegalValue));
}

#[test]
fn counter_has_no_gaps_or_repeats() {
    let mut it = count_from(40);
    for expected in 40u64..1040 {
        assert_eq!(it.next(), Some(expected));
    }
    let mut phases = Phase::generate();
    for expected in 0u64..1000 {
        assert_eq!(phases.next(), Some(Phase(expected)));
    }
}

#[test]
fn counter_ends_before_the_last_number() {
    let mut it = count_from(u64::MAX - 2);
    assert_eq!(it.next(), Some(u64::MAX - 2));
    assert_eq!(it.next(), Some(u64::MAX - 1));
    assert_eq!(it.next(), None);
    assert_eq!(it.next(), None);
    let mut cut = count_from(5).take(0);
    assert_eq!(cut.next(), None);
    let mut twice = count_from(5).take(4).take(2);
    assert_eq!(twice.next(), Some(5));
    assert_eq!(twice.next(), Some(6));
    assert_eq!(twice.next(), None);
}
