use ben_or_randomized_consensus::message::{Message, Phase, Value};
use ben_or_randomized_consensus::{ByteChannel, MessageChannel, Transport};

fn report(phase: u64, value: Value) -> Message {
    Message::Report { phase: Phase(phase), value }
}

fn proposal(phase: u64, value: Option<Value>) -> Message {
    Message::Proposal { phase: Phase(phase), value }
}

fn check_transport<T: Transport>(mut transport: T) {
    assert_eq!(transport.num_senders(), 3);
    for id in 0..3 {
        assert_eq!(transport.pending(id), 0);
        assert_eq!(transport.receive(id), None);
    }
    // A broadcast reaches every inbox, the sender's own included.
    transport.send(report(1, Value::One));
    for id in 0..3 {
        assert_eq!(transport.pending(id), 1);
    }
    // A self-send reaches one inbox only.
    transport.send_to_self(1, proposal(1, None));
    assert_eq!(transport.pending(0), 1);
    assert_eq!(transport.pending(1), 2);
    assert_eq!(transport.pending(2), 1);
    transport.send(proposal(u64::MAX, Some(Value::Zero)));
    // Every inbox is a queue.
    assert_eq!(transport.receive(1), Some(report(1, Value::One)));
    assert_eq!(transport.receive(1), Some(proposal(1, None)));
    assert_eq!(transport.receive(1), Some(proposal(u64::MAX, Some(Value::Zero))));
    assert_eq!(transport.receive(1), None);
    assert_eq!(transport.receive(0), Some(report(1, Value::One)));
    assert_eq!(transport.pending(0), 1);
    assert_eq!(transport.pending(2), 2);
    assert_eq!(transport.receive(2), Some(report(1, Value::One)));
    assert_eq!(transport.receive(2), Some(proposal(u64::MAX, Some(Value::Zero))));
    assert_eq!(transport.receive(0), Some(proposal(u64::MAX, Some(Value::Zero))));
    assert_eq!(transport.receive(0), None);
}

#[test]
fn message_channel_delivers_in_order() {
    check_transport(MessageChannel::new(3));
}

#[test]
fn byte_channel_delivers_in_order() {
    check_transport(ByteChannel::new(3));
}

#[test]
fn channels_without_peers() {
    let mut messages = MessageChannel::new(0);
    assert_eq!(messages.num_senders(), 0);
    messages.send(report(0, Value::Zero));
    assert_eq!(messages.num_senders(), 0);
    let mut bytes = ByteChannel::new(0);
    assert_eq!(bytes.num_senders(), 0);
    bytes.send(report(0, Value::Zero));
    assert_eq!(bytes.num_senders(), 0);
}

#[test]
fn byte_channel_carries_every_kind_of_message() {
    let mut transport = ByteChannel::new(1);
    let messages = [
        proposal(56, None),
        proposal(256, Some(Value::One)),
        proposal(0, Some(Value::Zero)),
        report(56, Value::Zero),
        report(u64::MAX, Value::One),
    ];
    for m in messages {
        transport.send(m);
    }
    assert_eq!(transport.pending(0), 5);
    for m in messages {
        assert_eq!(transport.receive(0), Some(m));
    }
}
