//! The secure mesh: frames, handshakes, identities and channels.

use chacha20poly1305::{AeadInPlace, ChaCha20Poly1305, Key, KeyInit, Nonce};
use ed25519_dalek::{Signer, SigningKey, Verifier};
use mpc_core::networking::network::{check_count, other_parties, total_len};
use mpc_core::networking::secure_mesh::bytes::{read_big_endian, to_big_endian};
use mpc_core::networking::secure_mesh::identity::{
    checked_key, decoded_key, deserialize, key_from_bytes, serialize, KeyError,
};
use mpc_core::networking::secure_mesh::mesh_network::{
    announced_peer, announcement, message, split_message, ChannelError,
    ConnectionError, MeshBuilder, Plan, Received, Sent,
};
use mpc_core::networking::secure_mesh::roster::{role_towards, Place};
use mpc_core::networking::secure_mesh::secure_stream::{
    count_message, make_frame, Frame, StreamError,
};
use mpc_core::networking::secure_mesh::{
    Agreement, ConnectionRole, KeyExchange, MeshNetwork, Roster, SecureStream, SigningIdentity,
};
use mpc_core::networking::{CountMismatch, ReceiveRequest, SendRequest};

const KEY: [u8; 32] = [7; 32];

fn ends() -> (SecureStream, SecureStream) {
    (
        SecureStream::new(&KEY, ConnectionRole::Listener),
        SecureStream::new(&KEY, ConnectionRole::Initiator),
    )
}

fn send(stream: &mut SecureStream, data: &[u8]) -> Frame {
    let frame = stream.send(data).unwrap();
    let len = stream.finish_send(&frame);
    assert_eq!(len, 4 + data.len() + 16);
    frame
}

fn header(frame: &Frame) -> [u8; 4] {
    [frame.header[0], frame.header[1], frame.header[2], frame.header[3]]
}

fn recv(stream: &mut SecureStream, frame: &Frame) -> Result<(Vec<u8>, usize), StreamError> {
    let len = stream.begin_recv(&header(frame))?;
    assert_eq!(len, frame.body.len());
    stream.recv(&header(frame), &frame.body)
}

#[test]
fn messages_arrive_in_order() {
    let (mut listener, mut initiator) = ends();
    for data in [&b"first"[..], &b""[..], &[0u8; 1000][..]] {
        let frame = send(&mut listener, data);
        assert_eq!(frame.header, to_big_endian((data.len() + 16) as u64, 4));
        let (plain, len) = recv(&mut initiator, &frame).unwrap();
        assert_eq!(plain, data);
        assert_eq!(len, 4 + data.len() + 16);
    }
    let frame = send(&mut initiator, b"back");
    assert_eq!(recv(&mut listener, &frame).unwrap().0, b"back");
}

#[test]
fn frames_are_not_the_messages() {
    let (mut listener, mut initiator) = ends();
    let one = send(&mut listener, b"same words");
    let two = send(&mut listener, b"same words");
    let three = send(&mut initiator, b"same words");
    assert_ne!(&one.body[..10], b"same words");
    assert_ne!(one.body, two.body);
    assert_ne!(one.body, three.body);
}

#[test]
fn frame_is_what_the_cipher_makes() {
    let (mut listener, mut initiator) = ends();
    send(&mut listener, b"0");
    let frame = send(&mut listener, b"hello");
    let nonce: [u8; 12] = [1, 0, 0, 0, 0, 0, 0, 0, 0, 0, 0, 1];
    let mut expected = b"hello".to_vec();
    ChaCha20Poly1305::new(Key::from_slice(&KEY))
        .encrypt_in_place(Nonce::from_slice(&nonce), &[0, 0, 0, 21], &mut expected)
        .unwrap();
    assert_eq!(frame.header, vec![0, 0, 0, 21]);
    assert_eq!(frame.body, expected);

    let frame = send(&mut initiator, b"hello");
    let mut expected = b"hello".to_vec();
    ChaCha20Poly1305::new(Key::from_slice(&KEY))
        .encrypt_in_place(Nonce::from_slice(&[0; 12]), &[0, 0, 0, 21], &mut expected)
        .unwrap();
    assert_eq!(frame.body, expected);
}

#[test]
fn altered_frames_are_refused() {
    let (mut listener, mut initiator) = ends();
    let mut frame = send(&mut listener, b"message");
    frame.body[3] ^= 1;
    assert_eq!(recv(&mut initiator, &frame).unwrap_err(), StreamError::Decryption);
    frame.body[3] ^= 1;
    // The refusal does not count, so that the frame can still be read, once.
    assert_eq!(recv(&mut initiator, &frame).unwrap().0, b"message");
    assert_eq!(recv(&mut initiator, &frame).unwrap_err(), StreamError::Decryption);
    // An end does not read its own frames.
    let frame = send(&mut listener, b"message");
    let mut other = SecureStream::new(&KEY, ConnectionRole::Listener);
    assert!(recv(&mut other, &frame).is_err());
    // Nor does anyone with another key.
    let mut stranger = SecureStream::new(&[8; 32], ConnectionRole::Initiator);
    assert!(recv(&mut stranger, &frame).is_err());
}

#[test]
fn short_packets_are_refused() {
    let (listener, _) = ends();
    assert_eq!(listener.begin_recv(&[0, 0, 0, 15]), Err(StreamError::PacketTooShort));
    assert_eq!(listener.begin_recv(&[0, 0, 0, 16]), Ok(16));
    assert_eq!(listener.begin_recv(&[1, 2, 3, 4]), Ok(0x01020304));
    assert_eq!(StreamError::PacketTooShort.message(), "Packet too short");
    assert_eq!(StreamError::Encryption.message(), "Encryption error");
    assert_eq!(StreamError::Decryption.message(), "Decryption error");
    assert_eq!(
        StreamError::Authentication.message(),
        "Authentication failed: Invalid Signature"
    );
}

#[test]
fn big_endian_numbers() {
    assert_eq!(to_big_endian(0x0102_0304_0506_0708, 8), vec![1, 2, 3, 4, 5, 6, 7, 8]);
    assert_eq!(to_big_endian(0x1_0000_0002, 4), vec![0, 0, 0, 2]);
    assert_eq!(read_big_endian(&[1, 2, 3, 4, 5, 6, 7, 8]), 0x0102_0304_0506_0708);
    assert_eq!(read_big_endian(&[255; 8]), u64::MAX);
    assert_eq!(read_big_endian(&[]), 0);
    for n in [0u64, 1, 255, 256, 65_535, u64::MAX] {
        assert_eq!(to_big_endian(n, 8), n.to_be_bytes());
        assert_eq!(read_big_endian(&n.to_be_bytes()), n);
    }
}

#[test]
fn handshake_connects_both_ends() {
    let alice = SigningIdentity::from_secret([1; 32]);
    let bob = SigningIdentity::from_secret([2; 32]);
    let a = KeyExchange::begin();
    let b = KeyExchange::begin();
    let (a_public, b_public) = (a.public_key(), b.public_key());
    assert_ne!(a_public, b_public);
    let a = a.agree(&alice, &b_public);
    let b = b.agree(&bob, &a_public);
    let (a_signature, b_signature) = (a.signature(), b.signature());
    let mut left = SecureStream::perform_handshake(
        a,
        &bob.public_key(),
        &b_signature,
        ConnectionRole::Initiator,
    )
    .unwrap();
    let mut right = SecureStream::perform_handshake(
        b,
        &alice.public_key(),
        &a_signature,
        ConnectionRole::Listener,
    )
    .unwrap();
    let frame = send(&mut left, b"ping");
    assert_eq!(recv(&mut right, &frame).unwrap().0, b"ping");
    let frame = send(&mut right, b"pong");
    assert_eq!(recv(&mut left, &frame).unwrap().0, b"pong");
}

#[test]
fn wrong_signatures_are_refused() {
    let alice = SigningIdentity::from_secret([1; 32]);
    let bob = SigningIdentity::from_secret([2; 32]);
    let mallory = SigningIdentity::from_secret([3; 32]);
    let a = KeyExchange::with_secret([11; 32]);
    let b = KeyExchange::with_secret([12; 32]);
    let (a_public, b_public) = (a.public_key(), b.public_key());
    let forged = b.agree(&mallory, &a_public);
    let result = SecureStream::perform_handshake(
        a.agree(&alice, &b_public),
        &bob.public_key(),
        &forged.signature(),
        ConnectionRole::Listener,
    );
    assert_eq!(result.err(), Some(StreamError::Authentication));

    // The own signature sent back is not the one of the peer.
    let a = KeyExchange::with_secret([11; 32]).agree(&alice, &b_public);
    let own = a.signature();
    let result =
        SecureStream::perform_handshake(a, &alice.public_key(), &own, ConnectionRole::Listener);
    assert_eq!(result.err(), Some(StreamError::Authentication));

    // Bytes that are no public key verify nothing.
    let a = KeyExchange::with_secret([11; 32]).agree(&alice, &b_public);
    let signature = a.signature();
    let mut no_key = [0u8; 32];
    no_key[0] = 2;
    assert!(key_from_bytes(&no_key).is_err());
    let result =
        SecureStream::perform_handshake(a, &no_key, &signature, ConnectionRole::Listener);
    assert_eq!(result.err(), Some(StreamError::Authentication));
}

#[test]
fn session_keys_and_signatures_are_those_of_the_primitives() {
    let identity = SigningIdentity::from_secret([9; 32]);
    let signing = SigningKey::from_bytes(&[9; 32]);
    assert_eq!(identity.public_key(), signing.verifying_key().to_bytes());

    let exchange = KeyExchange::with_secret([21; 32]);
    let secret = x25519_dalek::StaticSecret::from([21; 32]);
    let public = x25519_dalek::PublicKey::from(&secret).to_bytes();
    assert_eq!(exchange.public_key(), public);

    let peer = KeyExchange::with_secret([22; 32]).public_key();
    let agreement = exchange.agree(&identity, &peer);
    let mut payload = public.to_vec();
    payload.extend_from_slice(&peer);
    let signature = signing.sign(&payload);
    assert_eq!(agreement.signature(), signature.to_bytes());
    assert!(signing.verifying_key().verify(&payload, &signature).is_ok());

    // The key of the channel is the shared secret.
    let shared = secret.diffie_hellman(&x25519_dalek::PublicKey::from(peer)).to_bytes();
    let bob = SigningKey::from_bytes(&[10; 32]);
    let mut theirs = peer.to_vec();
    theirs.extend_from_slice(&public);
    let mut stream = SecureStream::perform_handshake(
        agreement,
        &bob.verifying_key().to_bytes(),
        &bob.sign(&theirs).to_bytes(),
        ConnectionRole::Initiator,
    )
    .unwrap();
    let frame = send(&mut stream, b"x");
    let mut other = SecureStream::new(&shared, ConnectionRole::Listener);
    assert_eq!(recv(&mut other, &frame).unwrap().0, b"x");
}

#[test]
fn keys_as_text() {
    let key = SigningIdentity::from_secret([5; 32]).public_key();
    let text = serialize(&key);
    assert_eq!(text.len(), 44);
    assert_eq!(deserialize(&text).unwrap(), key);
    assert_eq!(serialize(&[0; 32]), "AAAAAAAAAAAAAAAAAAAAAAAAAAAAAAAAAAAAAAAAAAA=");
}

#[test]
fn texts_that_are_no_keys() {
    let error = deserialize("!").unwrap_err();
    assert!(matches!(error, KeyError::Encoding { .. }));
    assert_eq!(error.message(), "Invalid symbol 33, offset 0.");
    let error = deserialize("AAAA").unwrap_err();
    assert!(matches!(error, KeyError::Length));
    assert_eq!(error.message(), "Invalid key length");
    let mut no_key = [0u8; 32];
    no_key[0] = 2;
    let error = deserialize(&serialize(&no_key)).unwrap_err();
    assert!(matches!(error, KeyError::Point { .. }));
    assert_eq!(error.message(), "signature error: Cannot decompress Edwards point");
    assert!(matches!(key_from_bytes(&[1, 2, 3]), Err(KeyError::Length)));
}

fn identity(party: usize) -> SigningIdentity {
    SigningIdentity::from_secret([party as u8 + 1; 32])
}

fn roster(my_id: usize, n: usize) -> Roster {
    Roster::new(my_id, (0..n).map(|party| identity(party).public_key()).collect())
}

/// What `peer` and the party of `roster` make of each other.
fn meet(roster: &Roster, peer: usize) -> ((Place, SecureStream), (Place, SecureStream)) {
    let theirs = self::roster(peer, roster.n_parties());
    let a = KeyExchange::begin();
    let b = KeyExchange::begin();
    let (a_public, b_public) = (a.public_key(), b.public_key());
    let a = a.agree(&identity(roster.my_id()), &b_public);
    let b = b.agree(&identity(peer), &a_public);
    let (a_signature, b_signature) = (a.signature(), b.signature());
    (
        roster.authenticate(peer, a, &b_signature).ok().unwrap(),
        theirs.authenticate(roster.my_id(), b, &a_signature).ok().unwrap(),
    )
}

fn place(roster: &Roster, peer: usize) -> Place {
    let ((place, _), _) = meet(roster, peer);
    place
}

fn mesh(my_id: usize, n: usize) -> MeshNetwork<char> {
    let names: Vec<char> = "abcdefgh".chars().collect();
    let roster = roster(my_id, n);
    let mut builder = MeshBuilder::new(&roster);
    assert_eq!(builder.expected_incoming(), n - 1 - my_id);
    for peer in (my_id + 1..n).rev() {
        builder.accept(place(&roster, peer), names[peer]).unwrap();
    }
    for target in 0..my_id {
        builder.connect(place(&roster, target), names[target]);
    }
    builder.finish()
}

#[test]
fn parties_take_the_places_of_their_keys() {
    assert_eq!(role_towards(2, 1), ConnectionRole::Initiator);
    assert_eq!(role_towards(1, 2), ConnectionRole::Listener);
    assert_eq!(role_towards(1, 1), ConnectionRole::Listener);

    let three = roster(0, 3);
    let ((mine, mut listener), (theirs, mut initiator)) = meet(&three, 2);
    assert_eq!((mine.index(), theirs.index()), (2, 0));
    let frame = send(&mut listener, b"ping");
    assert_eq!(recv(&mut initiator, &frame).unwrap().0, b"ping");
    let frame = send(&mut initiator, b"pong");
    assert_eq!(recv(&mut listener, &frame).unwrap().0, b"pong");

    // Who announces the number of another party has to sign with its key.
    let a = KeyExchange::with_secret([11; 32]);
    let b = KeyExchange::with_secret([12; 32]);
    let (a_public, b_public) = (a.public_key(), b.public_key());
    let a = a.agree(&identity(0), &b_public);
    let signature = b.agree(&identity(2), &a_public).signature();
    let result = three.authenticate(1, a, &signature);
    assert_eq!(result.err(), Some(StreamError::Authentication));
}

#[test]
fn mesh_reaches_all_others() {
    let mut network = mesh(1, 4);
    assert_eq!(network.my_id(), 1);
    assert_eq!(network.n_players(), 4);
    for (peer, name) in [(0, 'a'), (2, 'c'), (3, 'd')] {
        assert_eq!(*network.get_channel_mut(peer).unwrap(), name);
    }
    let error = network.get_channel_mut(1).unwrap_err();
    assert_eq!(error, ChannelError::NotConnected { target: 1 });
    assert_eq!(error.message(), "No connection to Node 1 (or target is self)");
    let error = network.get_channel_mut(4).unwrap_err();
    assert_eq!(error, ChannelError::InvalidPartyId);
    assert_eq!(error.message(), "Invalid Party ID");
    *network.get_channel_mut(2).unwrap() = 'z';
    assert_eq!(*network.get_channel_mut(2).unwrap(), 'z');
    assert_eq!(*network.get_channel_mut(3).unwrap(), 'd');
}

#[test]
fn unexpected_connections_are_refused() {
    let roster = roster(1, 4);
    let mut builder = MeshBuilder::new(&roster);
    assert!(!builder.is_connected(3));
    builder.accept(place(&roster, 3), 'd').unwrap();
    assert!(builder.is_connected(3));
    let error = builder.accept(place(&roster, 3), 'e').unwrap_err();
    assert_eq!(error, ConnectionError::Duplicate { my_id: 1, peer: 3 });
    assert_eq!(error.message(), "Node 1: Duplicate connection from Node 3");
    let error = builder.accept(place(&roster, 0), 'a').unwrap_err();
    assert_eq!(error, ConnectionError::Unexpected { my_id: 1, peer: 0 });
    assert_eq!(error.message(), "Node 1: Did not expect connection from Node 0");
}

#[test]
fn peers_announce_themselves() {
    let bytes = announcement(258);
    assert_eq!(bytes, vec![0, 0, 0, 0, 0, 0, 1, 2]);
    assert_eq!(announced_peer(&[0, 0, 0, 0, 0, 0, 1, 2]), 258);
}

#[test]
fn requests_share_channels() {
    let mut network = mesh(0, 4);
    let requests: Vec<ReceiveRequest<u8>> = vec![
        ReceiveRequest::new(2, 1),
        ReceiveRequest::new(1, 3),
        ReceiveRequest::new(2, 0),
        ReceiveRequest::new(1, 2),
    ];
    let mut plans = network.begin_recv_many(&requests).unwrap();
    plans.sort_by_key(|plan| plan.peer);
    assert_eq!(plans.len(), 2);
    assert_eq!((plans[0].peer, plans[0].channel), (1, 'b'));
    assert_eq!(plans[0].items, vec![(1, Some(3)), (3, Some(2))]);
    assert_eq!((plans[1].peer, plans[1].channel), (2, 'c'));
    assert_eq!(plans[1].items, vec![(0, Some(1)), (2, None)]);
    assert!(network.get_channel_mut(1).is_err());
    assert!(network.get_channel_mut(2).is_err());
    assert!(network.get_channel_mut(3).is_ok());

    let received: Vec<Received<char, u8>> = plans
        .into_iter()
        .map(|plan| {
            let batches = plan.items.iter().map(|item| vec![item.0 as u8; 2]).collect();
            let len = 10 + plan.peer;
            Received { plan, batches, len }
        })
        .collect();
    let (results, len) = network.finish_recv_many(&requests, received);
    assert_eq!(len, 11 + 12);
    assert_eq!(results, vec![vec![0, 0], vec![1, 1], vec![2, 2], vec![3, 3]]);
    assert_eq!(*network.get_channel_mut(1).unwrap(), 'b');
    assert_eq!(*network.get_channel_mut(2).unwrap(), 'c');
}

#[test]
fn payloads_for_one_peer_go_together() {
    let mut network = mesh(3, 4);
    let payload = 9u8;
    let requests = vec![
        SendRequest::new(0, 5u8),
        SendRequest::from_ref(2, &payload),
        SendRequest::new(0, 6u8),
    ];
    let mut plans: Vec<Plan<char, usize>> = network.begin_send_many(&requests).unwrap();
    plans.sort_by_key(|plan| plan.peer);
    assert_eq!(plans.len(), 2);
    assert_eq!((plans[0].peer, plans[0].items.clone()), (0, vec![0, 2]));
    assert_eq!((plans[1].peer, plans[1].items.clone()), (2, vec![1]));
    assert_eq!(message(&requests, &plans[0].items), vec![&5, &6]);
    assert_eq!(message(&requests, &plans[1].items), vec![&9]);
    let sent = plans.into_iter().map(|plan| Sent { len: 20 + plan.peer, plan }).collect();
    assert_eq!(network.finish_send_many(sent), 20 + 22);
    for (peer, name) in [(0, 'a'), (1, 'b'), (2, 'c')] {
        assert_eq!(*network.get_channel_mut(peer).unwrap(), name);
    }
}

#[test]
fn missing_channels_are_reported() {
    let mut network = mesh(0, 3);
    let requests: Vec<ReceiveRequest<u8>> = vec![ReceiveRequest::new(0, 1)];
    let error = network.begin_recv_many(&requests).err().unwrap();
    assert_eq!(error, ChannelError::Unavailable { peer: 0 });
    assert_eq!(error.message(), "Channel 0 unavailable or in use");
    let requests = vec![SendRequest::new(7, 1u8)];
    let error = network.begin_send_many(&requests).err().unwrap();
    assert_eq!(error, ChannelError::Unavailable { peer: 7 });
    let requests = vec![SendRequest::new(1, 1u8)];
    let plans = network.begin_send_many(&requests).unwrap();
    assert!(network.begin_send_many(&requests).is_err());
    let sent = plans.into_iter().map(|plan| Sent { plan, len: 1 }).collect();
    assert_eq!(network.finish_send_many(sent), 1);
    assert!(network.begin_send_many(&requests).is_ok());
}

#[test]
fn requests_and_counts() {
    let request: ReceiveRequest<u8> = ReceiveRequest::new(3, 2);
    assert_eq!((request.from, request.count), (3, Some(2)));
    assert_eq!(request.check(2), Ok(()));
    assert_eq!(request.check(0), Err(CountMismatch { received: 0, expected: 2 }));
    let request: ReceiveRequest<u8> = ReceiveRequest::new(3, 0);
    assert_eq!((request.from, request.count), (3, None));
    assert_eq!(request.check(0), Ok(()));
    assert_eq!(request.check(1), Err(CountMismatch { received: 1, expected: 0 }));
    let request = SendRequest::new(4, 'x');
    assert_eq!((request.to, *request.data), (4, 'x'));

    assert_eq!(check_count(2, Some(2)), Ok(()));
    assert_eq!(check_count(5, None), Ok(()));
    let mismatch = CountMismatch { received: 3, expected: 2 };
    assert_eq!(check_count(3, Some(2)), Err(mismatch));
    assert_eq!(mismatch.message(), "Batch size mismatch. Expected 2, got 3");
    assert_eq!(
        count_message(&mismatch),
        "Count mismatch: received 3 objects, expected 2"
    );
    assert_eq!(other_parties(4, 2), vec![0, 1, 3]);
    assert_eq!(other_parties(3, 5), vec![0, 1, 2]);
    assert_eq!(other_parties(1, 0), vec![]);
    assert_eq!(total_len(&[]), Some(0));
    assert_eq!(total_len(&[1, 20, 300]), Some(321));
    assert_eq!(total_len(&[usize::MAX, 0, 1]), None);
}

#[test]
fn messages_are_split_among_requests() {
    let items = vec![(0, Some(2)), (3, None), (4, Some(1))];
    // One message for all.
    let batches = split_message(vec!['a', 'b', 'c'], &items, 0).unwrap();
    assert_eq!(batches, vec![vec!['a', 'b'], vec![], vec!['c']]);
    // One message for each.
    assert_eq!(split_message(vec!['a', 'b'], &items, 0), Ok(vec![vec!['a', 'b']]));
    assert_eq!(split_message(Vec::<char>::new(), &items, 1), Ok(vec![vec![]]));
    assert_eq!(split_message(vec!['c'], &items, 1), Ok(vec![vec![], vec!['c']]));
    assert_eq!(split_message(vec!['c'], &items, 2), Ok(vec![vec!['c']]));

    let error = split_message(vec!['a'], &items, 0).unwrap_err();
    assert_eq!(error, CountMismatch { received: 1, expected: 2 });
    let error = split_message(vec!['a'; 4], &items, 0).unwrap_err();
    assert_eq!(error, CountMismatch { received: 4, expected: 2 });
    let error = split_message(Vec::<char>::new(), &items, 2).unwrap_err();
    assert_eq!(error, CountMismatch { received: 0, expected: 1 });

    // Nothing is asked for, so the message has to be empty.
    let nothing = vec![(0, None), (1, Some(0))];
    assert_eq!(split_message(Vec::<u8>::new(), &nothing, 0), Ok(vec![vec![]]));
    let error = split_message(vec![1u8], &nothing, 0).unwrap_err();
    assert_eq!(error, CountMismatch { received: 1, expected: 0 });

    let huge = vec![(0, Some(1)), (1, Some(usize::MAX)), (2, Some(1))];
    assert_eq!(split_message(vec![1u8], &huge, 0), Ok(vec![vec![1]]));
    let error = split_message(vec![1u8, 2], &huge, 0).unwrap_err();
    assert_eq!(error, CountMismatch { received: 2, expected: 1 });
}

#[test]
fn frames_of_both_directions_cross() {
    let (mut listener, mut initiator) = ends();
    let messages: Vec<Vec<u8>> = (0..6).map(|i| vec![i; 7 * i as usize]).collect();
    let there: Vec<Frame> = messages.iter().map(|data| send(&mut listener, data)).collect();
    let mut own = send(&mut initiator, b"own");
    for (frame, data) in there.iter().zip(&messages) {
        // Frames that are not the next one of the other end change nothing.
        assert!(recv(&mut initiator, &own).is_err());
        assert!(initiator.begin_recv(&[0, 0, 0, 3]).is_err());
        let back = send(&mut initiator, data);
        assert_eq!(recv(&mut initiator, frame), Ok((data.clone(), data.len() + 20)));
        assert!(recv(&mut initiator, frame).is_err());
        assert!(recv(&mut listener, &back).is_err());
        assert!(recv(&mut listener, &own).is_ok());
        own = back;
    }
    assert!(recv(&mut initiator, &there[0]).is_err());
    assert_eq!(recv(&mut listener, &own), Ok((messages[5].clone(), 55)));
}

#[test]
fn what_comes_of_sealed_and_opened_messages() {
    let frame = make_frame(vec![0, 0, 0, 17], Some(vec![9; 17])).unwrap();
    assert_eq!((frame.header.len(), frame.body), (4, vec![9; 17]));
    assert_eq!(make_frame(vec![], None).err(), Some(StreamError::Encryption));

    let (mut listener, mut initiator) = ends();
    assert_eq!(listener.conclude_recv(None, 20), Err(StreamError::Decryption));
    assert_eq!(listener.conclude_recv(Some(vec![1, 2]), 18), Ok((vec![1, 2], 22)));
    // One frame counts as received now.
    let first = send(&mut initiator, b"first");
    let second = send(&mut initiator, b"second");
    assert!(recv(&mut listener, &first).is_err());
    assert_eq!(recv(&mut listener, &second).unwrap().0, b"second");
}

#[test]
fn what_comes_of_signatures_and_keys() {
    let agreement = Agreement::new(KEY, [3; 64], &[1; 32], &[2; 32]);
    assert_eq!(agreement.signature(), [3; 64]);
    assert_eq!(
        agreement.conclude(false, ConnectionRole::Listener).err(),
        Some(StreamError::Authentication)
    );
    let agreement = Agreement::new(KEY, [3; 64], &[1; 32], &[2; 32]);
    let mut stream = agreement.conclude(true, ConnectionRole::Listener).unwrap();
    let (_, mut initiator) = ends();
    let frame = send(&mut stream, b"hello");
    assert_eq!(recv(&mut initiator, &frame).unwrap().0, b"hello");

    assert_eq!(checked_key([4; 32], Ok(())).unwrap(), [4; 32]);
    assert!(matches!(
        checked_key([4; 32], Err("no".to_string())),
        Err(KeyError::Point { reason }) if reason == "no"
    ));
    assert!(matches!(
        decoded_key(Err("bad".to_string())),
        Err(KeyError::Encoding { reason }) if reason == "bad"
    ));
    assert!(matches!(decoded_key(Ok(vec![1; 31])), Err(KeyError::Length)));
    let key = SigningIdentity::from_secret([6; 32]).public_key();
    assert_eq!(decoded_key(Ok(key.to_vec())).unwrap(), key);
}
