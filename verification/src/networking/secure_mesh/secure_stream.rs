//! The frames of an encrypted channel.
//!
//! A frame is a header of four bytes, which hold the length of the body, and the sealed body. Each
//! direction has its own nonces, which count the frames.

use vstd::prelude::*;
use vstd::string::*;

use crate::networking::network::CountMismatch;
use crate::networking::secure_mesh::bytes::{
    big_endian, from_big_endian, law_big_endian_is_injective, law_big_endian_round_trip,
    lemma_big_endian_len, lemma_capacity, lemma_from_big_endian_bound, read_big_endian,
    to_big_endian,
};
use crate::networking::secure_mesh::crypto::{
    chacha20poly1305_opened, chacha20poly1305_sealed, seal, sealable, unseal, within_key_stream,
    TAG_LEN,
};
use crate::text::{decimal, with_number};

verus! {

/// How many bytes a header has.
pub const U32_LEN: usize = 4;

/// Which end of a connection a party is.
#[derive(Debug, Copy, Clone, PartialEq, Eq, Structural)]
pub enum ConnectionRole {
    /// The party that accepted the connection.
    Listener,
    /// The party that opened the connection.
    Initiator,
}

impl ConnectionRole {
    /// The other end.
    pub open spec fn peer(self) -> ConnectionRole {
        match self {
            ConnectionRole::Listener => ConnectionRole::Initiator,
            ConnectionRole::Initiator => ConnectionRole::Listener,
        }
    }

    /// The first byte of the nonces of this end.
    pub open spec fn mark(self) -> u8 {
        match self {
            ConnectionRole::Listener => 1,
            ConnectionRole::Initiator => 0,
        }
    }
}

/// The nonce of the frame that `sender` sends after `counter` others.
pub open spec fn nonce(sender: ConnectionRole, counter: u64) -> Seq<u8> {
    seq![sender.mark(), 0u8, 0u8, 0u8] + big_endian(counter as int, 8)
}

/// The header of a frame that carries `len` bytes: the lowest four bytes of the length of the body.
pub open spec fn header_of(len: nat) -> Seq<u8> {
    big_endian(((len + TAG_LEN) % 0x1_0000_0000) as int, 4)
}

/// The length of the body that a header announces.
pub open spec fn announced(header: Seq<u8>) -> int {
    from_big_endian(header)
}

/// The body of the frame with `data` that `sender` sends after `counter` others.
pub open spec fn body_of(key: Seq<u8>, sender: ConnectionRole, counter: u64, data: Seq<u8>) -> Seq<
    u8,
> {
    chacha20poly1305_sealed(key, nonce(sender, counter), header_of(data.len()), data)
}

/// What goes over the wire for one message.
pub struct Frame {
    /// The length of the body.
    pub header: Vec<u8>,
    /// The sealed message.
    pub body: Vec<u8>,
}

/// Why a frame could not be made or read.
#[derive(Debug, Copy, Clone, PartialEq, Eq, Structural)]
pub enum StreamError {
    /// The message is too large.
    Encryption,
    /// The header announces a body that is too short for a tag.
    PacketTooShort,
    /// The body is not authentic.
    Decryption,
    /// The signature of the peer is not valid.
    Authentication,
}

impl StreamError {
    /// The words of the error.
    pub open spec fn words(self) -> Seq<char> {
        match self {
            StreamError::Encryption => "Encryption error"@,
            StreamError::PacketTooShort => "Packet too short"@,
            StreamError::Decryption => "Decryption error"@,
            StreamError::Authentication => "Authentication failed: Invalid Signature"@,
        }
    }

    /// The words of the error.
    pub fn message(&self) -> (text: String)
        ensures
            text@ == self.words(),
    {
        match self {
            StreamError::Encryption => "Encryption error".to_owned(),
            StreamError::PacketTooShort => "Packet too short".to_owned(),
            StreamError::Decryption => "Decryption error".to_owned(),
            StreamError::Authentication => "Authentication failed: Invalid Signature".to_owned(),
        }
    }
}

/// The words of a stream about a batch of the wrong length.
pub open spec fn count_words(mismatch: CountMismatch) -> Seq<char> {
    "Count mismatch: received "@ + decimal(mismatch.received as nat) + " objects, expected "@
        + decimal(mismatch.expected as nat)
}

/// The words of a stream about a batch of the wrong length.
pub fn count_message(mismatch: &CountMismatch) -> (s: String)
    ensures
        s@ == count_words(*mismatch),
{
    let s = with_number("Count mismatch: received ", mismatch.received, " objects, expected ");
    let s = with_number(s.as_str(), mismatch.expected, "");
    proof {
        reveal_strlit("");
    }
    assert(s@ =~= count_words(*mismatch));
    s
}

/// One end of an encrypted channel.
pub struct SecureStream {
    key: [u8; 32],
    send_counter: u64,
    recv_counter: u64,
    role: ConnectionRole,
}

/// The outcome of an attempt to frame `data` as the next message of `stream`.
pub open spec fn framed(
    stream: SecureStream,
    data: Seq<u8>,
    r: Result<Frame, StreamError>,
) -> bool {
    match r {
        Ok(frame) => {
            &&& sealable(data.len())
            &&& frame.header@ == header_of(data.len())
            &&& frame.body@ == body_of(stream.secret(), stream.spec_role(), stream.sent(), data)
            &&& frame.body@.len() == data.len() + TAG_LEN
        },
        Err(error) => !sealable(data.len()) && error == StreamError::Encryption,
    }
}

/// The outcome of an attempt to read a frame: what the sealed body opens to, under the next nonce
/// of the other end. What the other end has framed as its next message comes out again.
pub open spec fn read(
    before: SecureStream,
    header: Seq<u8>,
    body: Seq<u8>,
    r: Result<(Vec<u8>, usize), StreamError>,
    after: SecureStream,
) -> bool {
    let sender = before.spec_role().peer();
    let counter = before.received();
    let opened = chacha20poly1305_opened(before.secret(), nonce(sender, counter), header, body);
    &&& match r {
        Ok(message) => {
            &&& opened == Some(message.0@)
            &&& message.0@.len() + TAG_LEN == body.len()
            &&& message.1 == U32_LEN + body.len()
            &&& after.steps(before, 0, 1)
        },
        Err(error) => {
            &&& opened is None
            &&& error == StreamError::Decryption
            &&& after == before
        },
    }
    &&& forall|data: Seq<u8>|
        header == header_of(data.len()) && body == #[trigger] body_of(
            before.secret(),
            sender,
            counter,
            data,
        ) && within_key_stream(data.len()) ==> r is Ok && r.unwrap().0@ == data
}

/// The nonce of the frame that `sender` sends after `counter` others.
fn make_nonce(sender: ConnectionRole, counter: u64) -> (bytes: [u8; 12])
    ensures
        bytes@ == nonce(sender, counter),
{
    let c = to_big_endian(counter, 8);
    proof {
        lemma_big_endian_len(counter as int, 8);
    }
    let mark: u8 = match sender {
        ConnectionRole::Listener => 1,
        ConnectionRole::Initiator => 0,
    };
    let bytes: [u8; 12] = [mark, 0, 0, 0, c[0], c[1], c[2], c[3], c[4], c[5], c[6], c[7]];
    assert(bytes@ =~= nonce(sender, counter));
    bytes
}

/// The frame with the given header, if there is a sealed message to go with it.
pub fn make_frame(header: Vec<u8>, sealed: Option<Vec<u8>>) -> (r: Result<Frame, StreamError>)
    ensures
        match sealed {
            Some(body) => r == Ok::<Frame, StreamError>(Frame { header, body }),
            None => r == Err::<Frame, StreamError>(StreamError::Encryption),
        },
{
    match sealed {
        Some(body) => Ok(Frame { header, body }),
        None => Err(StreamError::Encryption),
    }
}

impl SecureStream {
    /// The key of the channel.
    pub closed spec fn secret(&self) -> Seq<u8> {
        self.key@
    }

    /// How many frames were sent.
    pub closed spec fn sent(&self) -> u64 {
        self.send_counter
    }

    /// How many frames were received.
    pub closed spec fn received(&self) -> u64 {
        self.recv_counter
    }

    /// Which end this is.
    pub closed spec fn spec_role(&self) -> ConnectionRole {
        self.role
    }

    /// Whether `self` is the same end of the same channel as `before`, with as many frames more
    /// sent and received.
    pub open spec fn steps(&self, before: SecureStream, sent: int, received: int) -> bool {
        &&& self.secret() == before.secret()
        &&& self.spec_role() == before.spec_role()
        &&& self.sent() == before.sent() + sent
        &&& self.received() == before.received() + received
    }

    /// Whether `self` and `other` are the two ends of a channel, and `other` has received all
    /// that `self` has sent.
    pub open spec fn reaches(&self, other: SecureStream) -> bool {
        &&& self.secret() == other.secret()
        &&& self.spec_role() == other.spec_role().peer()
        &&& self.sent() == other.received()
    }

    /// The end `role` of a new channel with the given key.
    pub fn new(shared_secret: &[u8; 32], role: ConnectionRole) -> (stream: Self)
        ensures
            stream.secret() == shared_secret@,
            stream.spec_role() == role,
            stream.sent() == 0,
            stream.received() == 0,
    {
        SecureStream { key: *shared_secret, send_counter: 0, recv_counter: 0, role }
    }

    /// Whether there is a nonce left for another frame of this end.
    pub fn can_send(&self) -> (b: bool)
        ensures
            b == (self.sent() < u64::MAX),
    {
        self.send_counter < u64::MAX
    }

    /// Whether there is a nonce left for another frame of the other end.
    pub fn can_recv(&self) -> (b: bool)
        ensures
            b == (self.received() < u64::MAX),
    {
        self.recv_counter < u64::MAX
    }

    /// The frame that carries `data` as the next message.
    pub fn send(&self, data: &[u8]) -> (r: Result<Frame, StreamError>)
        requires
            within_key_stream(data@.len()) || !sealable(data@.len()),
        ensures
            framed(*self, data@, r),
    {
        let bytes = make_nonce(self.role, self.send_counter);
        let total: u128 = data.len() as u128 + TAG_LEN as u128;
        let header = to_big_endian((total % 0x1_0000_0000) as u64, U32_LEN);
        let sealed = seal(&self.key, &bytes, &header, data);
        make_frame(header, sealed)
    }

    /// Notes that a frame is on its way, and returns how many bytes it has.
    pub fn finish_send(&mut self, frame: &Frame) -> (len: usize)
        requires
            old(self).sent() < u64::MAX,
            frame.header@.len() == U32_LEN,
            frame.body@.len() + U32_LEN <= usize::MAX,
        ensures
            len == U32_LEN + frame.body@.len(),
            final(self).steps(*old(self), 1, 0),
    {
        self.send_counter = self.send_counter + 1;
        U32_LEN + frame.body.len()
    }

    /// How many bytes follow the given header.
    pub fn begin_recv(&self, header: &[u8; 4]) -> (r: Result<usize, StreamError>)
        ensures
            announced(header@) < TAG_LEN ==> r == Err::<usize, StreamError>(
                StreamError::PacketTooShort,
            ),
            announced(header@) >= TAG_LEN ==> r is Ok && r.unwrap() == announced(header@),
    {
        proof {
            lemma_from_big_endian_bound(header@);
            lemma_capacity();
        }
        let total = read_big_endian(header) as usize;
        if total < TAG_LEN {
            return Err(StreamError::PacketTooShort);
        }
        Ok(total)
    }

    /// The message of the next frame, and how many bytes the frame has.
    ///
    /// A frame that the other end has made as its next one gives back what it carries.
    pub fn recv(&mut self, header: &[u8; 4], body: &[u8]) -> (r: Result<
        (Vec<u8>, usize),
        StreamError,
    >)
        requires
            old(self).received() < u64::MAX,
            body@.len() == announced(header@),
            body@.len() >= TAG_LEN,
            body@.len() + U32_LEN <= usize::MAX,
        ensures
            read(*old(self), header@, body@, r, *final(self)),
    {
        proof {
            lemma_from_big_endian_bound(header@);
            lemma_capacity();
        }
        let sender = match self.role {
            ConnectionRole::Listener => ConnectionRole::Initiator,
            ConnectionRole::Initiator => ConnectionRole::Listener,
        };
        let bytes = make_nonce(sender, self.recv_counter);
        let opened = unseal(&self.key, &bytes, header, body);
        self.conclude_recv(opened, body.len())
    }

    /// Notes that a frame with a body of `len` bytes was opened, if it was, and returns the
    /// message with the number of bytes of the frame.
    pub fn conclude_recv(&mut self, opened: Option<Vec<u8>>, len: usize) -> (r: Result<
        (Vec<u8>, usize),
        StreamError,
    >)
        requires
            old(self).received() < u64::MAX,
            len + U32_LEN <= usize::MAX,
        ensures
            match opened {
                Some(plain) => {
                    &&& r == Ok::<(Vec<u8>, usize), StreamError>((plain, (U32_LEN + len) as usize))
                    &&& final(self).steps(*old(self), 0, 1)
                },
                None => {
                    &&& r == Err::<(Vec<u8>, usize), StreamError>(StreamError::Decryption)
                    &&& *final(self) == *old(self)
                },
            },
    {
        match opened {
            Some(plain) => {
                self.recv_counter = self.recv_counter + 1;
                Ok((plain, U32_LEN + len))
            },
            None => Err(StreamError::Decryption),
        }
    }
}

/// No two frames of a channel have the same nonce, whichever end sends them.
pub proof fn law_nonces_are_unique(
    a: (ConnectionRole, u64),
    b: (ConnectionRole, u64),
)
    requires
        nonce(a.0, a.1) == nonce(b.0, b.1),
    ensures
        a == b,
{
    lemma_big_endian_len(a.1 as int, 8);
    lemma_big_endian_len(b.1 as int, 8);
    let first = nonce(a.0, a.1);
    let second = nonce(b.0, b.1);
    assert(first[0] == a.0.mark());
    assert(second[0] == b.0.mark());
    assert(first.skip(4) =~= big_endian(a.1 as int, 8));
    assert(second.skip(4) =~= big_endian(b.1 as int, 8));
    lemma_capacity();
    law_big_endian_is_injective(a.1 as int, b.1 as int, 8);
}

/// A header announces the length of the body it stands before, where four bytes can hold it.
pub proof fn law_header_announces_body(len: nat)
    requires
        len + TAG_LEN < 0x1_0000_0000,
    ensures
        header_of(len).len() == U32_LEN,
        announced(header_of(len)) == len + TAG_LEN,
{
    lemma_capacity();
    law_big_endian_round_trip((len + TAG_LEN) as int, 4);
}

/// The other end reads back what was sent, where four bytes can hold the length of the frame, and
/// both ends stay in step.
pub proof fn law_recv_gives_back_what_was_sent(
    sender: SecureStream,
    data: Seq<u8>,
    frame: Frame,
    sender_after: SecureStream,
    receiver: SecureStream,
    r: Result<(Vec<u8>, usize), StreamError>,
    receiver_after: SecureStream,
)
    requires
        sender.reaches(receiver),
        data.len() + TAG_LEN < 0x1_0000_0000,
        framed(sender, data, Ok(frame)),
        sender_after.steps(sender, 1, 0),
        read(receiver, frame.header@, frame.body@, r, receiver_after),
    ensures
        announced(frame.header@) == frame.body@.len(),
        r is Ok,
        r.unwrap().0@ == data,
        r.unwrap().1 == U32_LEN + frame.body@.len(),
        sender_after.reaches(receiver_after),
{
    law_header_announces_body(data.len());
    assert(frame.body@ == body_of(
        receiver.secret(),
        receiver.spec_role().peer(),
        receiver.received(),
        data,
    ));
}

} // verus!
