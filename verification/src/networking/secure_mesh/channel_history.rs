//! What the two ends of a channel do over its life: which messages arrive, and which frames are
//! refused.

use vstd::prelude::*;

use crate::networking::secure_mesh::crypto::{chacha20poly1305_opened, TAG_LEN};
use crate::networking::secure_mesh::secure_stream::{
    body_of, framed, header_of, nonce, read, Frame, SecureStream,
    StreamError, U32_LEN,
};

verus! {

/// A message that was sent.
pub struct Outgoing {
    /// The message.
    pub data: Seq<u8>,
    /// Its frame.
    pub frame: Frame,
    /// How many bytes the frame took.
    pub len: usize,
}

/// A frame that came in, and what was made of it.
pub struct Incoming {
    /// The header of the frame.
    pub header: Seq<u8>,
    /// The body of the frame.
    pub body: Seq<u8>,
    /// The message and the number of bytes of the frame, or why it was refused.
    pub outcome: Result<(Vec<u8>, usize), StreamError>,
}

/// What an end of a channel does.
pub enum Event {
    /// It sends a message.
    Sends(Outgoing),
    /// It is given a frame.
    Receives(Incoming),
}

impl Event {
    /// Whether the event takes an end of a channel from `before` to `after`.
    pub open spec fn happens(self, before: SecureStream, after: SecureStream) -> bool {
        match self {
            Event::Sends(message) => {
                &&& message.data.len() + TAG_LEN < 0x1_0000_0000
                &&& framed(before, message.data, Ok(message.frame))
                &&& message.len == U32_LEN + message.frame.body@.len()
                &&& after.steps(before, 1, 0)
            },
            Event::Receives(frame) => read(
                before,
                frame.header,
                frame.body,
                frame.outcome,
                after,
            ),
        }
    }
}

/// The messages that were sent, in order.
pub open spec fn outgoing(events: Seq<Event>) -> Seq<Outgoing>
    decreases events.len(),
{
    if events.len() == 0 {
        Seq::empty()
    } else {
        match events.last() {
            Event::Sends(message) => outgoing(events.drop_last()).push(message),
            Event::Receives(_) => outgoing(events.drop_last()),
        }
    }
}

/// The frames that came in, in order.
pub open spec fn incoming(events: Seq<Event>) -> Seq<Incoming>
    decreases events.len(),
{
    if events.len() == 0 {
        Seq::empty()
    } else {
        match events.last() {
            Event::Sends(_) => incoming(events.drop_last()),
            Event::Receives(frame) => incoming(events.drop_last()).push(frame),
        }
    }
}

/// The messages that arrived, in order, each with the number of bytes of its frame.
pub open spec fn arrived(events: Seq<Event>) -> Seq<(Vec<u8>, usize)>
    decreases events.len(),
{
    if events.len() == 0 {
        Seq::empty()
    } else {
        let before = arrived(events.drop_last());
        match events.last() {
            Event::Receives(Incoming { outcome: Ok(message), .. }) => before.push(message),
            _ => before,
        }
    }
}

/// The life of one end of a channel, from its first state on.
pub struct History {
    /// What it does, in order, in both directions.
    pub events: Seq<Event>,
    /// The end before each event, and after the last one.
    pub states: Seq<SecureStream>,
}

impl History {
    /// Whether each event leads from one state to the next.
    pub open spec fn valid(self) -> bool {
        &&& self.states.len() == self.events.len() + 1
        &&& forall|i: int|
            0 <= i < self.events.len() ==> (#[trigger] self.events[i]).happens(
                self.states[i],
                self.states[i + 1],
            )
    }

    /// The history before its last event.
    pub open spec fn before_last(self) -> History {
        History { events: self.events.drop_last(), states: self.states.drop_last() }
    }
}

/// Whether the message is the one that the end sends after `i` others.
pub open spec fn is_message(first: SecureStream, i: int, message: Outgoing) -> bool {
    &&& message.data.len() + TAG_LEN < 0x1_0000_0000
    &&& first.sent() + i < u64::MAX
    &&& message.frame.header@ == header_of(message.data.len())
    &&& message.frame.body@ == body_of(
        first.secret(),
        first.spec_role(),
        (first.sent() + i) as u64,
        message.data,
    )
    &&& message.frame.body@.len() == message.data.len() + TAG_LEN
    &&& message.len == U32_LEN + message.frame.body@.len()
}

/// The states of a history count its messages.
proof fn lemma_counters(h: History)
    requires
        h.valid(),
    ensures
        h.states.last().steps(
            h.states[0],
            outgoing(h.events).len() as int,
            arrived(h.events).len() as int,
        ),
        forall|i: int|
            0 <= i < outgoing(h.events).len() ==> is_message(
                h.states[0],
                i,
                #[trigger] outgoing(h.events)[i],
            ),
    decreases h.events.len(),
{
    if h.events.len() > 0 {
        let rest = h.before_last();
        lemma_rest_valid(h);
        lemma_counters(rest);
        assert(rest.states.last() == h.states[h.events.len() - 1]);
        assert(h.events[h.events.len() - 1].happens(h.states[h.events.len() - 1], h.states.last()));
        let sent = outgoing(h.events);
        assert forall|i: int| 0 <= i < sent.len() implies is_message(
            h.states[0],
            i,
            #[trigger] sent[i],
        ) by {
            if i < outgoing(rest.events).len() {
                assert(sent[i] == outgoing(rest.events)[i]);
            }
        }
    }
}

/// A history is valid before its last event.
proof fn lemma_rest_valid(h: History)
    requires
        h.valid(),
        h.events.len() > 0,
    ensures
        h.before_last().valid(),
        h.before_last().states[0] == h.states[0],
{
    let rest = h.before_last();
    assert forall|i: int| 0 <= i < rest.events.len() implies (#[trigger] rest.events[i]).happens(
        rest.states[i],
        rest.states[i + 1],
    ) by {
        assert(rest.events[i] == h.events[i]);
    }
}

/// Whether the frames that came in are the first ones that were sent, in order.
pub open spec fn brings(sent: Seq<Outgoing>, came: Seq<Incoming>) -> bool {
    &&& came.len() <= sent.len()
    &&& forall|i: int|
        0 <= i < came.len() ==> (#[trigger] came[i]).header == sent[i].frame.header@ && came[i].body
            == sent[i].frame.body@
}

/// Whether the message that was sent has arrived.
pub open spec fn arrives(message: Outgoing, outcome: Result<(Vec<u8>, usize), StreamError>) -> bool {
    &&& outcome is Ok
    &&& outcome.unwrap().0@ == message.data
    &&& outcome.unwrap().1 == message.len
    &&& message.len == message.data.len() + U32_LEN + TAG_LEN
}

/// A run of frames that reach the other end in the order in which they were sent arrives as it was
/// sent, with as many bytes received as were sent, whatever both ends send and receive in between.
pub proof fn law_run_of_frames_arrives(a: History, b: History)
    requires
        a.valid(),
        b.valid(),
        a.states[0].reaches(b.states[0]),
        brings(outgoing(a.events), incoming(b.events)),
    ensures
        arrived(b.events).len() == incoming(b.events).len(),
        forall|i: int|
            0 <= i < incoming(b.events).len() ==> arrives(
                outgoing(a.events)[i],
                (#[trigger] incoming(b.events)[i]).outcome,
            ),
    decreases b.events.len(),
{
    if b.events.len() > 0 {
        let rest = b.before_last();
        lemma_rest_valid(b);
        assert forall|i: int| 0 <= i < incoming(rest.events).len() implies (
        #[trigger] incoming(rest.events)[i]).header == outgoing(a.events)[i].frame.header@
            && incoming(rest.events)[i].body == outgoing(a.events)[i].frame.body@ by {
            assert(incoming(b.events)[i] == incoming(rest.events)[i]);
        }
        law_run_of_frames_arrives(a, rest);
        lemma_counters(a);
        lemma_counters(rest);
        let last = b.events.len() - 1;
        let before = b.states[last];
        assert(rest.states.last() == before);
        assert(b.events[last].happens(before, b.states[last + 1]));
        match b.events.last() {
            Event::Receives(frame) => {
                let k = incoming(rest.events).len() as int;
                let message = outgoing(a.events)[k];
                assert(incoming(b.events)[k] == frame);
                assert(is_message(a.states[0], k, message));
                assert(frame.body == body_of(
                    before.secret(),
                    before.spec_role().peer(),
                    before.received(),
                    message.data,
                ));
                assert(arrives(message, frame.outcome));
            },
            Event::Sends(_) => {},
        }
        assert forall|i: int| 0 <= i < incoming(b.events).len() implies arrives(
            outgoing(a.events)[i],
            (#[trigger] incoming(b.events)[i]).outcome,
        ) by {
            if i < incoming(rest.events).len() {
                assert(incoming(b.events)[i] == incoming(rest.events)[i]);
            }
        }
    }
}

/// Whether nobody but the end `first` has sealed anything under its nonces: under the nonce of a
/// message nothing opens but the frame of this message, and under the others nothing does.
pub open spec fn authentic(first: SecureStream, sent: Seq<Outgoing>) -> bool {
    forall|i: int, header: Seq<u8>, body: Seq<u8>|
        0 <= i && first.sent() + i <= u64::MAX && #[trigger] opens(first, i, header, body) ==> i
            < sent.len() && header == sent[i].frame.header@ && body == sent[i].frame.body@
}

/// Whether a frame opens under the nonce that the end `first` uses after `i` messages.
pub open spec fn opens(first: SecureStream, i: int, header: Seq<u8>, body: Seq<u8>) -> bool {
    chacha20poly1305_opened(
        first.secret(),
        nonce(first.spec_role(), (first.sent() + i) as u64),
        header,
        body,
    ) is Some
}

/// Whatever frames are given to an end, in whatever order, altered, repeated, its own or made up,
/// the messages that arrive are the first ones that the other end has sent, in order, where nobody
/// else can seal a frame.
pub proof fn law_only_sent_messages_arrive(a: History, b: History)
    requires
        a.valid(),
        b.valid(),
        a.states[0].reaches(b.states[0]),
        authentic(a.states[0], outgoing(a.events)),
    ensures
        arrived(b.events).len() <= outgoing(a.events).len(),
        forall|i: int|
            0 <= i < arrived(b.events).len() ==> (#[trigger] arrived(b.events)[i]).0@ == outgoing(
                a.events,
            )[i].data && arrived(b.events)[i].1 == outgoing(a.events)[i].len,
    decreases b.events.len(),
{
    if b.events.len() > 0 {
        let rest = b.before_last();
        lemma_rest_valid(b);
        law_only_sent_messages_arrive(a, rest);
        lemma_counters(a);
        lemma_counters(rest);
        let last = b.events.len() - 1;
        let before = b.states[last];
        assert(rest.states.last() == before);
        assert(b.events[last].happens(before, b.states[last + 1]));
        let k = arrived(rest.events).len() as int;
        match b.events.last() {
            Event::Receives(Incoming { header, body, outcome: Ok(got) }) => {
                assert(opens(a.states[0], k, header, body));
                let message = outgoing(a.events)[k];
                assert(is_message(a.states[0], k, message));
                assert(body == body_of(
                    before.secret(),
                    before.spec_role().peer(),
                    before.received(),
                    message.data,
                ));
                assert(arrived(b.events) == arrived(rest.events).push(got));
            },
            _ => {},
        }
        assert forall|i: int| 0 <= i < arrived(b.events).len() implies (#[trigger] arrived(
            b.events,
        )[i]).0@ == outgoing(a.events)[i].data && arrived(b.events)[i].1 == outgoing(
            a.events,
        )[i].len by {
            if i < k {
                assert(arrived(b.events)[i] == arrived(rest.events)[i]);
            }
        }
    }
}

/// Whether no other frame than the given one opens as the next frame of `receiver`.
pub open spec fn only_opens(receiver: SecureStream, frame: Frame) -> bool {
    forall|header: Seq<u8>, body: Seq<u8>|
        header != frame.header@ || body != frame.body@ ==> #[trigger] chacha20poly1305_opened(
            receiver.secret(),
            nonce(receiver.spec_role().peer(), receiver.received()),
            header,
            body,
        ) is None
}

/// A frame other than the next one that was sent is refused and changes nothing, where only this
/// one opens; the next one can still be read.
pub proof fn law_refused_frame_changes_nothing(
    sender: SecureStream,
    data: Seq<u8>,
    frame: Frame,
    receiver: SecureStream,
    forged: Incoming,
    between: SecureStream,
    outcome: Result<(Vec<u8>, usize), StreamError>,
    after: SecureStream,
)
    requires
        sender.reaches(receiver),
        data.len() + TAG_LEN < 0x1_0000_0000,
        framed(sender, data, Ok(frame)),
        only_opens(receiver, frame),
        forged.header != frame.header@ || forged.body != frame.body@,
        read(receiver, forged.header, forged.body, forged.outcome, between),
        read(between, frame.header@, frame.body@, outcome, after),
    ensures
        forged.outcome == Err::<(Vec<u8>, usize), StreamError>(StreamError::Decryption),
        between == receiver,
        outcome is Ok,
        outcome.unwrap().0@ == data,
        outcome.unwrap().1 == data.len() + U32_LEN + TAG_LEN,
        after.steps(receiver, 0, 1),
{
    assert(frame.body@ == body_of(
        receiver.secret(),
        receiver.spec_role().peer(),
        receiver.received(),
        data,
    ));
}

} // verus!
