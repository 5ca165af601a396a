//! The protocol's messages, their phase numbers and binary values, and the
//! bit-exact wire format of the byte transport.

use vstd::prelude::*;
use vstd::std_specs::convert::FromSpecImpl;
use vstd::std_specs::convert::TryFromSpecImpl;

verus! {

/// A binary consensus value.
#[derive(Clone, Copy, Debug, PartialEq, Eq, Structural)]
pub enum Value {
    One,
    Zero,
}

/// A phase number: 0-origin, increasing by one per phase of a peer.
#[derive(Clone, Copy, Debug, PartialEq, Eq, Structural)]
pub struct Phase(pub u64);

/// A protocol message. The second round's ballot may be undecided (`None`).
#[derive(Clone, Copy, Debug, PartialEq, Eq, Structural)]
#[allow(inconsistent_fields)]
pub enum Message {
    Proposal { phase: Phase, value: Option<Value> },
    Report { phase: Phase, value: Value },
}

/// Why a byte frame is not the encoding of any message.
#[derive(Clone, Copy, Debug, PartialEq, Eq, Structural)]
pub enum MalformedFrame {
    /// The frame is neither 9 nor 10 bytes long.
    IllegalLength,
    /// The leading byte is not one of the three tags.
    UnknownTag,
    /// The length is not the one that the tag calls for.
    LengthMismatch,
    /// The trailing byte is neither `0x00` nor `0x01`.
    IllegalValue,
}

pub const TAG_UNDECIDED_PROPOSAL: u8 = 0;

pub const TAG_DECIDED_PROPOSAL: u8 = 1;

pub const TAG_REPORT: u8 = 2;

/// The byte that stands for a value on the wire.
pub open spec fn value_byte(value: Value) -> u8 {
    match value {
        Value::Zero => 0u8,
        Value::One => 1u8,
    }
}

/// The value that a wire byte stands for, if any.
pub open spec fn byte_value(byte: u8) -> Result<Value, MalformedFrame> {
    if byte == 0 {
        Ok(Value::Zero)
    } else if byte == 1 {
        Ok(Value::One)
    } else {
        Err(MalformedFrame::IllegalValue)
    }
}

/// The eight bytes of `x`, most significant first.
pub open spec fn be_bytes(x: u64) -> Seq<u8> {
    seq![
        (x >> 56) as u8,
        ((x >> 48) & 0xff) as u8,
        ((x >> 40) & 0xff) as u8,
        ((x >> 32) & 0xff) as u8,
        ((x >> 24) & 0xff) as u8,
        ((x >> 16) & 0xff) as u8,
        ((x >> 8) & 0xff) as u8,
        (x & 0xff) as u8,
    ]
}

/// The number whose big-endian bytes are `bytes[at..at + 8]`.
pub open spec fn be_value(bytes: Seq<u8>, at: int) -> u64 {
    (bytes[at] as u64) << 56 | (bytes[at + 1] as u64) << 48 | (bytes[at + 2] as u64) << 40 | (
    bytes[at + 3] as u64) << 32 | (bytes[at + 4] as u64) << 24 | (bytes[at + 5] as u64) << 16 | (
    bytes[at + 6] as u64) << 8 | (bytes[at + 7] as u64)
}

/// The wire encoding of a message: a tag, the phase as eight big-endian
/// bytes and, unless the message is an undecided proposal, the value byte.
pub open spec fn wire(message: Message) -> Seq<u8> {
    match message {
        Message::Proposal { phase, value: None } => seq![TAG_UNDECIDED_PROPOSAL] + be_bytes(
            phase.0,
        ),
        Message::Proposal { phase, value: Some(value) } => seq![TAG_DECIDED_PROPOSAL] + be_bytes(
            phase.0,
        ) + seq![value_byte(value)],
        Message::Report { phase, value } => seq![TAG_REPORT] + be_bytes(phase.0) + seq![
            value_byte(value),
        ],
    }
}

/// What decoding makes of a frame: the message it encodes, or the first
/// reason, in the order of `MalformedFrame`'s variants, why it encodes none.
pub open spec fn parse(frame: Seq<u8>) -> Result<Message, MalformedFrame> {
    if frame.len() != 9 && frame.len() != 10 {
        Err(MalformedFrame::IllegalLength)
    } else if frame[0] > TAG_REPORT {
        Err(MalformedFrame::UnknownTag)
    } else if (frame[0] == TAG_UNDECIDED_PROPOSAL) != (frame.len() == 9) {
        Err(MalformedFrame::LengthMismatch)
    } else if frame[0] == TAG_UNDECIDED_PROPOSAL {
        Ok(Message::Proposal { phase: Phase(be_value(frame, 1)), value: None })
    } else {
        match byte_value(frame[9]) {
            Err(e) => Err(e),
            Ok(value) => if frame[0] == TAG_DECIDED_PROPOSAL {
                Ok(Message::Proposal { phase: Phase(be_value(frame, 1)), value: Some(value) })
            } else {
                Ok(Message::Report { phase: Phase(be_value(frame, 1)), value })
            },
        }
    }
}


/// The big-endian bytes of a number spell that number.
pub proof fn lemma_be_value_of_be_bytes(x: u64, prefix: Seq<u8>, suffix: Seq<u8>)
    ensures
        be_value(prefix + be_bytes(x) + suffix, prefix.len() as int) == x,
{
    let frame = prefix + be_bytes(x) + suffix;
    let at = prefix.len() as int;
    assert(frame[at] == be_bytes(x)[0]);
    assert(frame[at + 1] == be_bytes(x)[1]);
    assert(frame[at + 2] == be_bytes(x)[2]);
    assert(frame[at + 3] == be_bytes(x)[3]);
    assert(frame[at + 4] == be_bytes(x)[4]);
    assert(frame[at + 5] == be_bytes(x)[5]);
    assert(frame[at + 6] == be_bytes(x)[6]);
    assert(frame[at + 7] == be_bytes(x)[7]);
    assert((((x >> 56) as u8) as u64) << 56 | ((((x >> 48) & 0xff) as u8) as u64) << 48 | ((((x
        >> 40) & 0xff) as u8) as u64) << 40 | ((((x >> 32) & 0xff) as u8) as u64) << 32 | ((((x
        >> 24) & 0xff) as u8) as u64) << 24 | ((((x >> 16) & 0xff) as u8) as u64) << 16 | ((((x
        >> 8) & 0xff) as u8) as u64) << 8 | (((x & 0xff) as u8) as u64) == x) by (bit_vector);
}

/// A number spelt by eight bytes has exactly those bytes.
pub proof fn lemma_be_bytes_of_be_value(bytes: Seq<u8>, at: int)
    requires
        0 <= at,
        at + 8 <= bytes.len(),
    ensures
        be_bytes(be_value(bytes, at)) == bytes.subrange(at, at + 8),
{
    let b0 = bytes[at];
    let b1 = bytes[at + 1];
    let b2 = bytes[at + 2];
    let b3 = bytes[at + 3];
    let b4 = bytes[at + 4];
    let b5 = bytes[at + 5];
    let b6 = bytes[at + 6];
    let b7 = bytes[at + 7];
    let x = be_value(bytes, at);
    assert(x == (b0 as u64) << 56 | (b1 as u64) << 48 | (b2 as u64) << 40 | (b3 as u64) << 32 | (
    b4 as u64) << 24 | (b5 as u64) << 16 | (b6 as u64) << 8 | (b7 as u64));
    assert(x == (b0 as u64) << 56 | (b1 as u64) << 48 | (b2 as u64) << 40 | (b3 as u64) << 32 | (
    b4 as u64) << 24 | (b5 as u64) << 16 | (b6 as u64) << 8 | (b7 as u64) ==> (x >> 56) as u8 == b0
        && ((x >> 48) & 0xff) as u8 == b1 && ((x >> 40) & 0xff) as u8 == b2 && ((x >> 32)
        & 0xff) as u8 == b3 && ((x >> 24) & 0xff) as u8 == b4 && ((x >> 16) & 0xff) as u8 == b5
        && ((x >> 8) & 0xff) as u8 == b6 && (x & 0xff) as u8 == b7) by (bit_vector);
    assert(be_bytes(x) =~= bytes.subrange(at, at + 8));
}

/// Decoding undoes encoding: every message is read back from its own frame.
pub proof fn lemma_decode_encode(message: Message)
    ensures
        parse(wire(message)) == Ok::<Message, MalformedFrame>(message),
{
    let frame = wire(message);
    match message {
        Message::Proposal { phase, value: None } => {
            lemma_be_value_of_be_bytes(phase.0, seq![TAG_UNDECIDED_PROPOSAL], Seq::empty());
            assert(frame =~= seq![TAG_UNDECIDED_PROPOSAL] + be_bytes(phase.0) + Seq::empty());
        },
        Message::Proposal { phase, value: Some(value) } => {
            lemma_be_value_of_be_bytes(
                phase.0,
                seq![TAG_DECIDED_PROPOSAL],
                seq![value_byte(value)],
            );
        },
        Message::Report { phase, value } => {
            lemma_be_value_of_be_bytes(phase.0, seq![TAG_REPORT], seq![value_byte(value)]);
        },
    }
}

/// Encoding undoes decoding: a frame that decodes is the frame of the
/// message read from it, so no two frames stand for one message.
pub proof fn lemma_encode_decode(frame: Seq<u8>)
    requires
        parse(frame) is Ok,
    ensures
        wire(parse(frame).unwrap()) == frame,
{
    lemma_be_bytes_of_be_value(frame, 1);
    assert(wire(parse(frame).unwrap()) =~= frame);
}

/// Every frame of a wrong length, with an unknown tag, or with a value byte
/// other than `0x00` and `0x01` where its tag calls for one, is rejected.
pub proof fn lemma_decode_rejects(frame: Seq<u8>)
    requires
        (frame.len() != 9 && frame.len() != 10) || frame[0] > TAG_REPORT || (frame.len() == 10 && (
        frame[0] == TAG_DECIDED_PROPOSAL || frame[0] == TAG_REPORT) && frame[9] > 1),
    ensures
        parse(frame) is Err,
{
}

/// A frame decodes exactly when it is the encoding of some message.
pub proof fn lemma_decodes_iff_encoded(frame: Seq<u8>)
    ensures
        parse(frame) is Ok <==> exists|message: Message| wire(message) == frame,
{
    if parse(frame) is Ok {
        lemma_encode_decode(frame);
        assert(wire(parse(frame).unwrap()) == frame);
    }
    if exists|message: Message| wire(message) == frame {
        let message = choose|message: Message| wire(message) == frame;
        lemma_decode_encode(message);
    }
}


impl From<Value> for u8 {
    fn from(value: Value) -> (byte: u8)
        ensures
            byte == value_byte(value),
    {
        match value {
            Value::One => 1,
            Value::Zero => 0,
        }
    }
}

impl FromSpecImpl<Value> for u8 {
    open spec fn obeys_from_spec() -> bool {
        true
    }

    open spec fn from_spec(value: Value) -> u8 {
        value_byte(value)
    }
}

impl TryFrom<u8> for Value {
    type Error = MalformedFrame;

    fn try_from(byte: u8) -> (r: Result<Value, MalformedFrame>)
        ensures
            r == byte_value(byte),
    {
        match byte {
            1 => Ok(Value::One),
            0 => Ok(Value::Zero),
            _ => Err(MalformedFrame::IllegalValue),
        }
    }
}

impl TryFromSpecImpl<u8> for Value {
    open spec fn obeys_try_from_spec() -> bool {
        true
    }

    open spec fn try_from_spec(byte: u8) -> Result<Value, MalformedFrame> {
        byte_value(byte)
    }
}

/// Appends the eight big-endian bytes of `x` to `bytes`.
fn push_be_bytes(bytes: &mut Vec<u8>, x: u64)
    ensures
        final(bytes)@ == old(bytes)@ + be_bytes(x),
{
    bytes.push((x >> 56) as u8);
    bytes.push(((x >> 48) & 0xff) as u8);
    bytes.push(((x >> 40) & 0xff) as u8);
    bytes.push(((x >> 32) & 0xff) as u8);
    bytes.push(((x >> 24) & 0xff) as u8);
    bytes.push(((x >> 16) & 0xff) as u8);
    bytes.push(((x >> 8) & 0xff) as u8);
    bytes.push((x & 0xff) as u8);
    assert(bytes@ =~= old(bytes)@ + be_bytes(x));
}

/// Reads the number spelt by the eight bytes from index 1 on.
fn read_phase(frame: &Vec<u8>) -> (phase: Phase)
    requires
        frame@.len() >= 9,
    ensures
        phase == Phase(be_value(frame@, 1)),
{
    Phase(
        (frame[1] as u64) << 56 | (frame[2] as u64) << 48 | (frame[3] as u64) << 40 | (
        frame[4] as u64) << 32 | (frame[5] as u64) << 24 | (frame[6] as u64) << 16 | (
        frame[7] as u64) << 8 | (frame[8] as u64),
    )
}

impl Message {
    /// The phase that the message belongs to.
    pub fn phase(&self) -> (phase: Phase)
        ensures
            phase == self.spec_phase(),
    {
        match self {
            Message::Proposal { phase, value: _ } => *phase,
            Message::Report { phase, value: _ } => *phase,
        }
    }

    pub open spec fn spec_phase(&self) -> Phase {
        match *self {
            Message::Proposal { phase, value: _ } => phase,
            Message::Report { phase, value: _ } => phase,
        }
    }

    /// Encodes the message into its frame.
    pub fn encode(&self) -> (frame: Vec<u8>)
        ensures
            frame@ == wire(*self),
    {
        let mut frame: Vec<u8> = Vec::new();
        match *self {
            Message::Proposal { phase, value: None } => {
                frame.push(TAG_UNDECIDED_PROPOSAL);
                push_be_bytes(&mut frame, phase.0);
            },
            Message::Proposal { phase, value: Some(value) } => {
                frame.push(TAG_DECIDED_PROPOSAL);
                push_be_bytes(&mut frame, phase.0);
                frame.push(u8::from(value));
            },
            Message::Report { phase, value } => {
                frame.push(TAG_REPORT);
                push_be_bytes(&mut frame, phase.0);
                frame.push(u8::from(value));
            },
        }
        assert(frame@ =~= wire(*self));
        frame
    }

    /// Decodes a frame: the message that it encodes, or why it encodes none.
    pub fn decode(frame: &Vec<u8>) -> (r: Result<Message, MalformedFrame>)
        ensures
            r == parse(frame@),
            r is Ok <==> exists|message: Message| wire(message) == frame@,
            r is Ok ==> wire(r.unwrap()) == frame@,
    {
        proof {
            lemma_decodes_iff_encoded(frame@);
            if parse(frame@) is Ok {
                lemma_encode_decode(frame@);
            }
        }
        let len: usize = frame.len();
        if len != 9 && len != 10 {
            return Err(MalformedFrame::IllegalLength);
        }
        let tag: u8 = frame[0];
        if tag > TAG_REPORT {
            return Err(MalformedFrame::UnknownTag);
        }
        if (tag == TAG_UNDECIDED_PROPOSAL) != (len == 9) {
            return Err(MalformedFrame::LengthMismatch);
        }
        let phase = read_phase(frame);
        if tag == TAG_UNDECIDED_PROPOSAL {
            return Ok(Message::Proposal { phase, value: None });
        }
        match Value::try_from(frame[9]) {
            Err(e) => Err(e),
            Ok(value) => if tag == TAG_DECIDED_PROPOSAL {
                Ok(Message::Proposal { phase, value: Some(value) })
            } else {
                Ok(Message::Report { phase, value })
            },
        }
    }
}

impl From<Message> for Vec<u8> {
    fn from(message: Message) -> (frame: Vec<u8>)
        ensures
            frame@ == wire(message),
    {
        message.encode()
    }
}

/// A `Vec` cannot be written down in a specification, only its view can: the
/// conversion's contract stands on `from` itself.
impl FromSpecImpl<Message> for Vec<u8> {
    open spec fn obeys_from_spec() -> bool {
        false
    }

    open spec fn from_spec(message: Message) -> Vec<u8> {
        arbitrary()
    }
}

impl TryFrom<Vec<u8>> for Message {
    type Error = MalformedFrame;

    fn try_from(frame: Vec<u8>) -> (r: Result<Message, MalformedFrame>)
        ensures
            r == parse(frame@),
    {
        Message::decode(&frame)
    }
}

impl TryFromSpecImpl<Vec<u8>> for Message {
    open spec fn obeys_try_from_spec() -> bool {
        true
    }

    open spec fn try_from_spec(frame: Vec<u8>) -> Result<Message, MalformedFrame> {
        parse(frame@)
    }
}


impl Phase {
    /// The phase after this one. The last phase that a `u64` can number has
    /// no successor.
    pub fn next(self) -> (successor: Phase)
        requires
            self.0 < u64::MAX,
        ensures
            successor.0 == self.0 + 1,
    {
        Phase(self.0 + 1)
    }

    /// All phases in order, from phase 0 on.
    pub fn generate() -> (phases: Phases)
        ensures
            phases@.len() == u64::MAX,
            forall|i: int| 0 <= i < phases@.len() ==> (#[trigger] phases@[i]).0 == i,
    {
        Phases { counter: count_from(0) }
    }
}

/// A lazy run of consecutive numbers. Its view is the sequence of numbers
/// that it has yet to hand out, in order.
pub struct Counter {
    current: u64,
    end: u64,
}

impl View for Counter {
    type V = Seq<u64>;

    closed spec fn view(&self) -> Seq<u64> {
        Seq::new(
            if self.current <= self.end {
                (self.end - self.current) as nat
            } else {
                0
            },
            |i: int| (self.current + i) as u64,
        )
    }
}

/// Counts upwards from `init`, one by one, for as long as the successor of
/// the number handed out still fits a `u64`.
pub fn count_from(init: u64) -> (counter: Counter)
    ensures
        counter@.len() == u64::MAX - init,
        forall|i: int| 0 <= i < counter@.len() ==> #[trigger] counter@[i] == init + i,
{
    Counter { current: init, end: u64::MAX }
}

impl Counter {
    /// Hands out the next number, if one is left.
    pub fn next(&mut self) -> (item: Option<u64>)
        ensures
            old(self)@.len() == 0 ==> item is None && final(self)@ == old(self)@,
            old(self)@.len() > 0 ==> item == Some(old(self)@[0]) && final(self)@ == old(
                self,
            )@.drop_first(),
    {
        if self.current < self.end {
            let item: u64 = self.current;
            self.current = item + 1;
            assert(self@ =~= old(self)@.drop_first());
            Some(item)
        } else {
            None
        }
    }

    /// The number that `next` would hand out, if one is left.
    pub fn peek(&self) -> (item: Option<u64>)
        ensures
            self@.len() == 0 ==> item is None,
            self@.len() > 0 ==> item == Some(self@[0]),
    {
        if self.current < self.end {
            Some(self.current)
        } else {
            None
        }
    }

    /// The same run, cut off after its first `n` numbers.
    pub fn take(self, n: usize) -> (counter: Counter)
        ensures
            counter@ == if n <= self@.len() {
                self@.take(n as int)
            } else {
                self@
            },
    {
        let left: u64 = if self.current <= self.end {
            self.end - self.current
        } else {
            0
        };
        let counter = if (n as u64) < left {
            Counter { current: self.current, end: self.current + n as u64 }
        } else {
            Counter { current: self.current, end: self.end }
        };
        assert(n <= self@.len() ==> counter@ =~= self@.take(n as int));
        assert(n > self@.len() ==> counter@ =~= self@);
        counter
    }
}

/// A lazy run of consecutive phases. Its view is the sequence of phases
/// that it has yet to hand out, in order.
pub struct Phases {
    counter: Counter,
}

impl View for Phases {
    type V = Seq<Phase>;

    closed spec fn view(&self) -> Seq<Phase> {
        Seq::new(self.counter@.len(), |i: int| Phase(self.counter@[i]))
    }
}

impl Phases {
    /// The phase that `next` would hand out, if one is left.
    pub fn peek(&self) -> (item: Option<Phase>)
        ensures
            self@.len() == 0 ==> item is None,
            self@.len() > 0 ==> item == Some(self@[0]),
    {
        match self.counter.peek() {
            Some(number) => Some(Phase(number)),
            None => None,
        }
    }

    /// Every phase that is still to come has a successor, and the phases
    /// follow one another without a gap.
    pub proof fn lemma_consecutive(&self)
        ensures
            forall|i: int| 0 <= i < self@.len() ==> (#[trigger] self@[i]).0 < u64::MAX,
            forall|i: int| 0 <= i < self@.len() ==> (#[trigger] self@[i]).0 == self@[0].0 + i,
    {
    }

    /// Hands out the next phase, if one is left.
    pub fn next(&mut self) -> (item: Option<Phase>)
        ensures
            old(self)@.len() == 0 ==> item is None && final(self)@ == old(self)@,
            old(self)@.len() > 0 ==> item == Some(old(self)@[0]) && final(self)@ == old(
                self,
            )@.drop_first(),
    {
        match self.counter.next() {
            Some(number) => {
                assert(self@ =~= old(self)@.drop_first());
                Some(Phase(number))
            },
            None => None,
        }
    }

    /// The same run, cut off after its first `n` phases.
    pub fn take(self, n: usize) -> (phases: Phases)
        ensures
            phases@ == if n <= self@.len() {
                self@.take(n as int)
            } else {
                self@
            },
    {
        let phases = Phases { counter: self.counter.take(n) };
        assert(n <= self@.len() ==> phases@ =~= self@.take(n as int));
        assert(n > self@.len() ==> phases@ =~= self@);
        phases
    }
}

} // verus!
