//! The all-to-all transport between the peers, in two realizations: one that
//! carries messages as they are, one that carries their byte frames.
//!
//! A transport owns the inbox of every peer. A peer addresses its own inbox
//! by its identity; a broadcast reaches all of them. Nothing here blocks: a
//! peer whose inbox is empty is told so and comes back later.

use crate::message::{parse, wire, Message};
use std::collections::VecDeque;
use vstd::prelude::*;

verus! {

/// The inboxes after `message` was delivered to every one of them.
pub open spec fn broadcast(inboxes: Seq<Seq<Message>>, message: Message) -> Seq<Seq<Message>> {
    Seq::new(inboxes.len(), |i: int| inboxes[i].push(message))
}

/// The inboxes after `message` was delivered to the inbox of `id` alone.
pub open spec fn deliver(inboxes: Seq<Seq<Message>>, id: int, message: Message) -> Seq<
    Seq<Message>,
> {
    inboxes.update(id, inboxes[id].push(message))
}

/// The inboxes after the oldest message left the inbox of `id`, if it held one.
pub open spec fn consume(inboxes: Seq<Seq<Message>>, id: int) -> Seq<Seq<Message>> {
    if inboxes[id].len() > 0 {
        inboxes.update(id, inboxes[id].drop_first())
    } else {
        inboxes
    }
}

/// The oldest message in an inbox, if it holds one.
pub open spec fn oldest(inbox: Seq<Message>) -> Option<Message> {
    if inbox.len() > 0 {
        Some(inbox[0])
    } else {
        None
    }
}

/// What a peer can do with the network. `inboxes` is the model: for each
/// peer, the messages that wait for it, oldest first. Every inbox is a
/// queue, so the messages of one sender reach a receiver in the order in
/// which they were sent, each once.
pub trait Transport {
    /// The messages waiting for each peer, oldest first.
    spec fn inboxes(&self) -> Seq<Seq<Message>>;

    /// The transport's internal consistency.
    spec fn wf(&self) -> bool;

    /// The number of peers, the caller included.
    fn num_senders(&self) -> (n: usize)
        requires
            self.wf(),
        ensures
            n == self.inboxes().len(),
    ;

    /// Delivers `message` to every peer's inbox, the sender's own included.
    fn send(&mut self, message: Message)
        requires
            old(self).wf(),
        ensures
            final(self).wf(),
            final(self).inboxes() == broadcast(old(self).inboxes(), message),
    ;

    /// Delivers `message` to the inbox of peer `id` alone.
    fn send_to_self(&mut self, id: usize, message: Message)
        requires
            old(self).wf(),
            id < old(self).inboxes().len(),
        ensures
            final(self).wf(),
            final(self).inboxes() == deliver(old(self).inboxes(), id as int, message),
    ;

    /// Takes the oldest message out of the inbox of peer `id`; `None` when
    /// the inbox is empty.
    fn receive(&mut self, id: usize) -> (message: Option<Message>)
        requires
            old(self).wf(),
            id < old(self).inboxes().len(),
        ensures
            final(self).wf(),
            message == oldest(old(self).inboxes()[id as int]),
            final(self).inboxes() == consume(old(self).inboxes(), id as int),
    ;

    /// The number of messages that wait in the inbox of peer `id`.
    fn pending(&self, id: usize) -> (n: usize)
        requires
            self.wf(),
            id < self.inboxes().len(),
        ensures
            n == self.inboxes()[id as int].len(),
    ;
}

/// The transport that passes messages as structured values.
pub struct MessageChannel {
    queues: Vec<VecDeque<Message>>,
}

impl MessageChannel {
    /// Wires `num_processes` peers all to all, with every inbox empty.
    pub fn new(num_processes: usize) -> (channel: MessageChannel)
        ensures
            channel.wf(),
            channel.inboxes() == Seq::new(num_processes as nat, |i: int| Seq::<Message>::empty()),
    {
        let mut queues: Vec<VecDeque<Message>> = Vec::new();
        let mut i: usize = 0;
        while i < num_processes
            invariant
                i <= num_processes,
                queues@.len() == i,
                forall|j: int| 0 <= j < i ==> (#[trigger] queues@[j])@ == Seq::<Message>::empty(),
            decreases num_processes - i,
        {
            queues.push(VecDeque::new());
            i = i + 1;
        }
        let channel = MessageChannel { queues };
        assert(channel.inboxes() =~~= Seq::new(
            num_processes as nat,
            |i: int| Seq::<Message>::empty(),
        ));
        channel
    }
}

impl Transport for MessageChannel {
    closed spec fn inboxes(&self) -> Seq<Seq<Message>> {
        Seq::new(self.queues@.len(), |i: int| self.queues@[i]@)
    }

    closed spec fn wf(&self) -> bool {
        true
    }

    fn num_senders(&self) -> (n: usize) {
        self.queues.len()
    }

    fn send(&mut self, message: Message) {
        let n: usize = self.queues.len();
        let mut i: usize = 0;
        while i < n
            invariant
                i <= n,
                n == self.queues@.len(),
                n == old(self).queues@.len(),
                forall|j: int|
                    0 <= j < i ==> (#[trigger] self.queues@[j])@ == old(self).queues@[j]@.push(
                        message,
                    ),
                forall|j: int| i <= j < n ==> (#[trigger] self.queues@[j])@ == old(self).queues@[j]@,
            decreases n - i,
        {
            self.queues[i].push_back(message);
            i = i + 1;
        }
        assert(self.inboxes() =~~= broadcast(old(self).inboxes(), message));
    }

    fn send_to_self(&mut self, id: usize, message: Message) {
        self.queues[id].push_back(message);
        assert(self.inboxes() =~~= deliver(old(self).inboxes(), id as int, message));
    }

    fn receive(&mut self, id: usize) -> (message: Option<Message>) {
        let message = self.queues[id].pop_front();
        assert(self.inboxes() =~~= consume(old(self).inboxes(), id as int));
        message
    }

    fn pending(&self, id: usize) -> (n: usize) {
        self.queues[id].len()
    }
}


/// The transport that passes messages as their byte frames. A message is
/// encoded when it is sent and decoded when it is received; the inboxes hold
/// nothing but frames of messages, so decoding cannot fail.
pub struct ByteChannel {
    queues: Vec<VecDeque<Vec<u8>>>,
}

impl ByteChannel {
    /// Wires `num_processes` peers all to all, with every inbox empty.
    pub fn new(num_processes: usize) -> (channel: ByteChannel)
        ensures
            channel.wf(),
            channel.inboxes() == Seq::new(num_processes as nat, |i: int| Seq::<Message>::empty()),
    {
        let mut queues: Vec<VecDeque<Vec<u8>>> = Vec::new();
        let mut i: usize = 0;
        while i < num_processes
            invariant
                i <= num_processes,
                queues@.len() == i,
                forall|j: int|
                    0 <= j < i ==> (#[trigger] queues@[j])@ == Seq::<Vec<u8>>::empty(),
            decreases num_processes - i,
        {
            queues.push(VecDeque::new());
            i = i + 1;
        }
        let channel = ByteChannel { queues };
        assert(channel.inboxes() =~~= Seq::new(
            num_processes as nat,
            |i: int| Seq::<Message>::empty(),
        ));
        channel
    }

    /// The frames waiting for each peer, oldest first.
    pub closed spec fn frames(&self) -> Seq<Seq<Seq<u8>>> {
        Seq::new(
            self.queues@.len(),
            |i: int| Seq::new(self.queues@[i]@.len(), |j: int| self.queues@[i]@[j]@),
        )
    }

    /// Every frame in flight is the encoding of the message that the model
    /// shows in its place.
    pub proof fn lemma_frames_encode_inboxes(&self)
        requires
            self.wf(),
        ensures
            self.frames().len() == self.inboxes().len(),
            forall|i: int|
                0 <= i < self.inboxes().len() ==> (#[trigger] self.frames()[i]).len()
                    == self.inboxes()[i].len(),
            forall|i: int, j: int|
                0 <= i < self.inboxes().len() && 0 <= j < self.inboxes()[i].len()
                    ==> #[trigger] self.frames()[i][j] == wire(self.inboxes()[i][j]),
    {
        assert forall|i: int, j: int|
            0 <= i < self.inboxes().len() && 0 <= j < self.inboxes()[i].len() implies
            #[trigger] self.frames()[i][j] == wire(self.inboxes()[i][j]) by {
            crate::message::lemma_encode_decode(self.queues@[i]@[j]@);
        }
    }
}

impl Transport for ByteChannel {
    closed spec fn inboxes(&self) -> Seq<Seq<Message>> {
        Seq::new(
            self.queues@.len(),
            |i: int|
                Seq::new(self.queues@[i]@.len(), |j: int| parse(self.queues@[i]@[j]@).unwrap()),
        )
    }

    closed spec fn wf(&self) -> bool {
        forall|i: int, j: int|
            0 <= i < self.queues@.len() && 0 <= j < self.queues@[i]@.len() ==> parse(
                #[trigger] self.queues@[i]@[j]@,
            ) is Ok
    }

    fn num_senders(&self) -> (n: usize) {
        self.queues.len()
    }

    fn send(&mut self, message: Message) {
        let n: usize = self.queues.len();
        let mut i: usize = 0;
        proof {
            crate::message::lemma_decode_encode(message);
        }
        while i < n
            invariant
                i <= n,
                n == self.queues@.len(),
                n == old(self).queues@.len(),
                parse(wire(message)) == Ok::<Message, crate::message::MalformedFrame>(message),
                forall|j: int|
                    0 <= j < i ==> (#[trigger] self.queues@[j])@.len() == old(
                        self,
                    ).queues@[j]@.len() + 1,
                forall|j: int, k: int|
                    0 <= j < i && 0 <= k < old(self).queues@[j]@.len()
                        ==> #[trigger] self.queues@[j]@[k] == old(self).queues@[j]@[k],
                forall|j: int|
                    0 <= j < i ==> (#[trigger] self.queues@[j])@[
                        old(self).queues@[j]@.len() as int
                    ]@ == wire(message),
                forall|j: int| i <= j < n ==> (#[trigger] self.queues@[j])@ == old(self).queues@[j]@,
            decreases n - i,
        {
            self.queues[i].push_back(message.encode());
            i = i + 1;
        }
        assert(self.wf()) by {
            assert forall|i: int, j: int|
                0 <= i < self.queues@.len() && 0 <= j < self.queues@[i]@.len() implies parse(
                #[trigger] self.queues@[i]@[j]@,
            ) is Ok by {
                if j < old(self).queues@[i]@.len() {
                    assert(self.queues@[i]@[j] == old(self).queues@[i]@[j]);
                }
            }
        }
        assert(self.inboxes() =~~= broadcast(old(self).inboxes(), message));
    }

    fn send_to_self(&mut self, id: usize, message: Message) {
        proof {
            crate::message::lemma_decode_encode(message);
        }
        self.queues[id].push_back(message.encode());
        assert(self.wf()) by {
            assert forall|i: int, j: int|
                0 <= i < self.queues@.len() && 0 <= j < self.queues@[i]@.len() implies parse(
                #[trigger] self.queues@[i]@[j]@,
            ) is Ok by {
                if i != id || j < old(self).queues@[i]@.len() {
                    assert(self.queues@[i]@[j] == old(self).queues@[i]@[j]);
                }
            }
        }
        assert(self.inboxes() =~~= deliver(old(self).inboxes(), id as int, message));
    }

    fn receive(&mut self, id: usize) -> (message: Option<Message>) {
        let frame = self.queues[id].pop_front();
        assert(self.wf()) by {
            assert forall|i: int, j: int|
                0 <= i < self.queues@.len() && 0 <= j < self.queues@[i]@.len() implies parse(
                #[trigger] self.queues@[i]@[j]@,
            ) is Ok by {
                if i == id {
                    assert(self.queues@[i]@[j] == old(self).queues@[i]@[j + 1]);
                } else {
                    assert(self.queues@[i]@[j] == old(self).queues@[i]@[j]);
                }
            }
        }
        assert(self.inboxes() =~~= consume(old(self).inboxes(), id as int));
        match frame {
            None => None,
            Some(frame) => {
                assert(frame == old(self).queues@[id as int]@[0]);
                match Message::decode(&frame) {
                    Ok(message) => Some(message),
                    Err(_) => None,
                }
            },
        }
    }

    fn pending(&self, id: usize) -> (n: usize) {
        self.queues[id].len()
    }
}

} // verus!
