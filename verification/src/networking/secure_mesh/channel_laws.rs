//! What the bytes of frames, handshakes and keys are, each taken by itself.

use vstd::prelude::*;

use crate::networking::network::CountMismatch;
use crate::networking::secure_mesh::bytes::{
    big_endian, capacity, from_big_endian, law_big_endian_round_trip, lemma_big_endian_len,
    lemma_capacity,
};
use crate::networking::secure_mesh::crypto::{
    chacha20poly1305_opened, chacha20poly1305_sealed, ed25519_decoded, ed25519_signature,
    ed25519_valid, sealable, within_key_stream, x25519_shared,
};
use crate::networking::secure_mesh::handshake::{
    agreed, authenticated, Agreement, KeyExchange, SigningIdentity,
};
use crate::networking::secure_mesh::identity::{key_of, KeyError};
use crate::networking::secure_mesh::secure_stream::{
    announced, count_words, framed, header_of, nonce, read, ConnectionRole, Frame, SecureStream,
    StreamError,
};
use crate::text::decimal;

verus! {

/// The most significant byte of a number comes first: one more byte makes the number that the bytes
/// before it stand for 256 times as large, and adds its own value.
pub proof fn law_most_significant_byte_comes_first(bytes: Seq<u8>, byte: u8, value: int, width: nat)
    requires
        0 <= value,
    ensures
        from_big_endian(Seq::<u8>::empty()) == 0,
        from_big_endian(bytes.push(byte)) == 256 * from_big_endian(bytes) + byte,
        big_endian(value, 0) == Seq::<u8>::empty(),
        big_endian(value, width + 1) == big_endian(value / 256, width).push((value % 256) as u8),
        capacity(0) == 1,
        capacity(width + 1) == 256 * capacity(width),
{
    assert(bytes.push(byte).drop_last() =~= bytes);
    assert(bytes.push(byte).last() == byte);
}

/// A nonce has twelve bytes: first the mark of the sender, which is one for the listening end and
/// zero for the other one, then three zeros, then the number of frames sent before.
pub proof fn law_nonce_is_mark_and_counter(sender: ConnectionRole, counter: u64)
    ensures
        nonce(sender, counter).len() == 12,
        nonce(sender, counter)[0] == (if sender == ConnectionRole::Listener {
            1u8
        } else {
            0u8
        }),
        nonce(sender, counter)[1] == 0,
        nonce(sender, counter)[2] == 0,
        nonce(sender, counter)[3] == 0,
        from_big_endian(nonce(sender, counter).skip(4)) == counter,
{
    lemma_capacity();
    lemma_big_endian_len(counter as int, 8);
    law_big_endian_round_trip(counter as int, 8);
    assert(nonce(sender, counter).skip(4) =~= big_endian(counter as int, 8));
}

/// A header has four bytes, which hold the length of the body, a tag of sixteen bytes included, as
/// far as four bytes can.
pub proof fn law_header_is_the_length(len: nat)
    ensures
        header_of(len).len() == 4,
        announced(header_of(len)) == (len + 16) % 0x1_0000_0000,
        from_big_endian(header_of(len)) == (len + 16) % 0x1_0000_0000,
{
    lemma_capacity();
    law_big_endian_round_trip(((len + 16) % 0x1_0000_0000) as int, 4);
}

/// The two ends of a channel are each other's peers.
pub proof fn law_ends_are_peers(role: ConnectionRole)
    ensures
        role.peer() != role,
        role.peer().peer() == role,
{
}

/// A message is sealed under the key of the channel, the nonce of the sending end and the number of
/// frames that it has sent, and its own header; only one that is too large is refused.
pub proof fn law_frames_are_sealed_messages(
    stream: SecureStream,
    data: Seq<u8>,
    r: Result<Frame, StreamError>,
)
    requires
        framed(stream, data, r),
    ensures
        r is Ok <==> data.len() / 64 < 0xffff_ffff,
        r is Err ==> r == Err::<Frame, StreamError>(StreamError::Encryption),
        r matches Ok(frame) ==> {
            &&& frame.header@.len() == 4
            &&& from_big_endian(frame.header@) == (data.len() + 16) % 0x1_0000_0000
            &&& frame.body@.len() == data.len() + 16
            &&& frame.body@ == chacha20poly1305_sealed(
                stream.secret(),
                nonce(stream.spec_role(), stream.sent()),
                frame.header@,
                data,
            )
        },
{
    law_header_is_the_length(data.len());
}

/// A frame is opened under the key of the channel, the nonce of the other end and the number of
/// frames that were received, and its header; it counts exactly where it opens.
pub proof fn law_frames_are_opened_or_refused(
    before: SecureStream,
    header: Seq<u8>,
    body: Seq<u8>,
    r: Result<(Vec<u8>, usize), StreamError>,
    after: SecureStream,
)
    requires
        read(before, header, body, r, after),
    ensures
        ({
            let opened = chacha20poly1305_opened(
                before.secret(),
                nonce(before.spec_role().peer(), before.received()),
                header,
                body,
            );
            &&& r is Ok <==> opened is Some
            &&& r matches Ok(message) ==> Some(message.0@) == opened && message.1 == body.len() + 4
                && message.0@.len() + 16 == body.len()
            &&& r is Err ==> r == Err::<(Vec<u8>, usize), StreamError>(StreamError::Decryption)
        }),
        after.secret() == before.secret(),
        after.spec_role() == before.spec_role(),
        after.sent() == before.sent(),
        after.received() == before.received() + if r is Ok {
            1int
        } else {
            0int
        },
{
}

/// What can be sealed has at most as many blocks as the cipher counts, and the key stream ends one
/// block earlier.
pub proof fn law_bounds_of_the_cipher(len: nat)
    ensures
        sealable(len) <==> len < 64 * 0xffff_ffff,
        within_key_stream(len) <==> len <= 64 * 0xffff_fffe,
        within_key_stream(len) ==> sealable(len),
{
}

/// Each end signs its own session key before the other one, and awaits the signature of the keys in
/// the other order; the key of the channel is what both session keys make together.
pub proof fn law_both_session_keys_are_signed(
    exchange: KeyExchange,
    identity: SigningIdentity,
    peer_public: Seq<u8>,
    agreement: Agreement,
)
    requires
        agreed(exchange, identity, peer_public, agreement),
    ensures
        agreement.spec_key() == x25519_shared(exchange.spec_secret(), peer_public),
        agreement.spec_signature() == ed25519_signature(
            identity.spec_secret(),
            exchange.spec_public() + peer_public,
        ),
        agreement.spec_expected() == peer_public + exchange.spec_public(),
{
}

/// An end gets its channel exactly where the signature over both session keys is valid under the
/// key of the other end; the channel is new, and has the agreed key and the given role.
pub proof fn law_only_a_valid_signature_connects(
    exchange: KeyExchange,
    identity: SigningIdentity,
    peer_public: Seq<u8>,
    agreement: Agreement,
    peer_identity: Seq<u8>,
    peer_signature: Seq<u8>,
    role: ConnectionRole,
    r: Result<SecureStream, StreamError>,
)
    requires
        agreed(exchange, identity, peer_public, agreement),
        authenticated(agreement, peer_identity, peer_signature, role, r),
    ensures
        r is Ok <==> ed25519_valid(
            peer_identity,
            peer_public + exchange.spec_public(),
            peer_signature,
        ),
        r is Err ==> r == Err::<SecureStream, StreamError>(StreamError::Authentication),
        r matches Ok(stream) ==> {
            &&& stream.secret() == x25519_shared(exchange.spec_secret(), peer_public)
            &&& stream.spec_role() == role
            &&& stream.sent() == 0
            &&& stream.received() == 0
        },
{
}

/// Bytes are a key exactly where there are thirty-two of them and they decode; the key is these
/// bytes.
pub proof fn law_keys_are_their_bytes(bytes: Seq<u8>, r: Result<[u8; 32], KeyError>)
    requires
        key_of(bytes, r),
    ensures
        r is Ok <==> bytes.len() == 32 && ed25519_decoded(bytes) is Ok,
        r matches Ok(key) ==> key@ == bytes,
        r matches Err(KeyError::Length) ==> bytes.len() != 32,
        bytes.len() != 32 ==> r is Err && r->Err_0 is Length,
        bytes.len() == 32 && r is Err ==> r->Err_0 is Point && ed25519_decoded(bytes) == Err::<
            (),
            Seq<char>,
        >(r->Err_0.words()),
{
}

/// The words of the errors of a stream.
pub proof fn law_words_about_streams(mismatch: CountMismatch, error: KeyError)
    ensures
        StreamError::Encryption.words() == "Encryption error"@,
        StreamError::PacketTooShort.words() == "Packet too short"@,
        StreamError::Decryption.words() == "Decryption error"@,
        StreamError::Authentication.words() == "Authentication failed: Invalid Signature"@,
        count_words(mismatch) == "Count mismatch: received "@ + decimal(mismatch.received as nat)
            + " objects, expected "@ + decimal(mismatch.expected as nat),
        match error {
            KeyError::Encoding { reason } => error.words() == reason@,
            KeyError::Point { reason } => error.words() == reason@,
            KeyError::Length => error.words() == "Invalid key length"@,
        },
{
}

} // verus!
