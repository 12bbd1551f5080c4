//! The handshake that makes a connection an authenticated and encrypted channel.
//!
//! Both ends exchange session keys, derive a shared secret from them, and sign what they have sent
//! and received.

use vstd::prelude::*;

use crate::networking::secure_mesh::crypto::{
    ed25519_decoded, ed25519_public, ed25519_public_key, ed25519_sign, ed25519_signature,
    ed25519_valid, ed25519_verify, random_secret, x25519_public, x25519_public_key, x25519_shared,
    x25519_shared_secret,
};
use crate::networking::secure_mesh::secure_stream::{ConnectionRole, SecureStream, StreamError};

verus! {

/// The long-lived key pair of a node.
pub struct SigningIdentity {
    secret: [u8; 32],
    public: [u8; 32],
}

impl SigningIdentity {
    /// The secret key.
    pub closed spec fn spec_secret(&self) -> Seq<u8> {
        self.secret@
    }

    /// The public key.
    pub closed spec fn spec_public(&self) -> Seq<u8> {
        self.public@
    }

    /// Whether the keys belong together.
    pub open spec fn well_formed(&self) -> bool {
        &&& self.spec_secret().len() == 32
        &&& self.spec_public() == ed25519_public(self.spec_secret())
        &&& ed25519_decoded(self.spec_public()) is Ok
    }

    /// The key pair of a secret key.
    pub fn from_secret(secret: [u8; 32]) -> (identity: Self)
        ensures
            identity.well_formed(),
            identity.spec_secret() == secret@,
    {
        let public = ed25519_public_key(&secret);
        SigningIdentity { secret, public }
    }

    /// The public key.
    pub fn public_key(&self) -> (public: [u8; 32])
        ensures
            public@ == self.spec_public(),
    {
        self.public
    }
}

/// The session keys of one end, before those of the other end are known.
pub struct KeyExchange {
    secret: [u8; 32],
    public: [u8; 32],
}

/// What one end knows once it has the session key of the other end.
pub struct Agreement {
    key: [u8; 32],
    signature: [u8; 64],
    expected: Vec<u8>,
}

impl KeyExchange {
    /// The secret session key.
    pub closed spec fn spec_secret(&self) -> Seq<u8> {
        self.secret@
    }

    /// The public session key.
    pub closed spec fn spec_public(&self) -> Seq<u8> {
        self.public@
    }

    /// Whether the keys belong together.
    pub open spec fn well_formed(&self) -> bool {
        &&& self.spec_secret().len() == 32
        &&& self.spec_public() == x25519_public(self.spec_secret())
    }

    /// Draws session keys at random.
    pub fn begin() -> (exchange: Self)
        ensures
            exchange.well_formed(),
    {
        KeyExchange::with_secret(random_secret())
    }

    /// The session keys of a secret.
    pub fn with_secret(secret: [u8; 32]) -> (exchange: Self)
        ensures
            exchange.well_formed(),
            exchange.spec_secret() == secret@,
    {
        let public = x25519_public_key(&secret);
        KeyExchange { secret, public }
    }

    /// The public session key, for the other end.
    pub fn public_key(&self) -> (public: [u8; 32])
        ensures
            public@ == self.spec_public(),
    {
        self.public
    }

    /// Derives the key of the channel and signs both public session keys.
    pub fn agree(self, identity: &SigningIdentity, peer_public: &[u8; 32]) -> (agreement: Agreement)
        ensures
            agreed(self, *identity, peer_public@, agreement),
    {
        let key = x25519_shared_secret(&self.secret, peer_public);
        let payload = both(&self.public, peer_public);
        let signature = ed25519_sign(&identity.secret, &payload);
        Agreement::new(key, signature, &self.public, peer_public)
    }
}

/// The bytes of both keys, one after the other.
fn both(first: &[u8; 32], second: &[u8; 32]) -> (bytes: Vec<u8>)
    ensures
        bytes@ == first@ + second@,
{
    let mut bytes: Vec<u8> = Vec::new();
    bytes.extend_from_slice(first);
    bytes.extend_from_slice(second);
    assert(bytes@ =~= first@ + second@);
    bytes
}

/// What one end makes of the public session key of the other: the key of the channel, which the
/// other end derives too, the signature of its own public session key before the other one, and
/// the same with the keys in the other order, which the other end signs.
pub open spec fn agreed(
    exchange: KeyExchange,
    identity: SigningIdentity,
    peer_public: Seq<u8>,
    agreement: Agreement,
) -> bool {
    let mine = exchange.spec_public();
    &&& agreement.spec_key() == x25519_shared(exchange.spec_secret(), peer_public)
    &&& agreement.spec_signature() == ed25519_signature(
        identity.spec_secret(),
        mine + peer_public,
    )
    &&& agreement.spec_expected() == peer_public + mine
    &&& forall|theirs: Seq<u8>|
        theirs.len() == 32 && peer_public == #[trigger] x25519_public(theirs)
            ==> agreement.spec_key() == x25519_shared(
            theirs,
            x25519_public(exchange.spec_secret()),
        )
}

/// The channel of an agreement if the other end has signed what it had to, and only then.
pub open spec fn authenticated(
    agreement: Agreement,
    peer_identity: Seq<u8>,
    peer_signature: Seq<u8>,
    role: ConnectionRole,
    r: Result<SecureStream, StreamError>,
) -> bool {
    let expected = agreement.spec_expected();
    &&& match r {
        Ok(stream) => {
            &&& ed25519_valid(peer_identity, expected, peer_signature)
            &&& stream.secret() == agreement.spec_key()
            &&& stream.spec_role() == role
            &&& stream.sent() == 0
            &&& stream.received() == 0
        },
        Err(error) => {
            &&& !ed25519_valid(peer_identity, expected, peer_signature)
            &&& error == StreamError::Authentication
        },
    }
    &&& forall|secret: Seq<u8>|
        secret.len() == 32 && peer_identity == ed25519_public(secret) && peer_signature
            == #[trigger] ed25519_signature(secret, expected) ==> r is Ok
}

impl Agreement {
    /// The key of the channel.
    pub closed spec fn spec_key(&self) -> Seq<u8> {
        self.key@
    }

    /// The signature for the other end.
    pub closed spec fn spec_signature(&self) -> Seq<u8> {
        self.signature@
    }

    /// What the other end has to sign.
    pub closed spec fn spec_expected(&self) -> Seq<u8> {
        self.expected@
    }

    /// What an end knows that has derived `key` and made `signature`; the other end has to sign
    /// both public session keys with its own one first.
    pub fn new(
        key: [u8; 32],
        signature: [u8; 64],
        my_public: &[u8; 32],
        peer_public: &[u8; 32],
    ) -> (agreement: Self)
        ensures
            agreement.spec_key() == key@,
            agreement.spec_signature() == signature@,
            agreement.spec_expected() == peer_public@ + my_public@,
    {
        let expected = both(peer_public, my_public);
        Agreement { key, signature, expected }
    }

    /// The signature, for the other end.
    pub fn signature(&self) -> (signature: [u8; 64])
        ensures
            signature@ == self.spec_signature(),
    {
        self.signature
    }

    /// The channel, if the signature of the other end was valid.
    pub fn conclude(self, valid: bool, role: ConnectionRole) -> (r: Result<
        SecureStream,
        StreamError,
    >)
        ensures
            match r {
                Ok(stream) => {
                    &&& valid
                    &&& stream.secret() == self.spec_key()
                    &&& stream.spec_role() == role
                    &&& stream.sent() == 0
                    &&& stream.received() == 0
                },
                Err(error) => !valid && error == StreamError::Authentication,
            },
    {
        if !valid {
            return Err(StreamError::Authentication);
        }
        Ok(SecureStream::new(&self.key, role))
    }
}

impl SecureStream {
    /// The end `role` of the channel of an agreement, if the signature of the other end is valid
    /// under its public key.
    pub fn perform_handshake(
        agreement: Agreement,
        peer_identity: &[u8; 32],
        peer_signature: &[u8; 64],
        role: ConnectionRole,
    ) -> (r: Result<SecureStream, StreamError>)
        ensures
            authenticated(agreement, peer_identity@, peer_signature@, role, r),
    {
        let valid = ed25519_verify(peer_identity, &agreement.expected, peer_signature);
        agreement.conclude(valid, role)
    }
}

/// Two ends that exchange their session keys and their signatures, and know the public key of
/// each other, end up with the two ends of one channel.
pub proof fn law_handshake_connects(
    exchanges: (KeyExchange, KeyExchange),
    identities: (SigningIdentity, SigningIdentity),
    agreements: (Agreement, Agreement),
    role: ConnectionRole,
    results: (Result<SecureStream, StreamError>, Result<SecureStream, StreamError>),
)
    requires
        exchanges.0.well_formed(),
        exchanges.1.well_formed(),
        identities.0.well_formed(),
        identities.1.well_formed(),
        agreed(exchanges.0, identities.0, exchanges.1.spec_public(), agreements.0),
        agreed(exchanges.1, identities.1, exchanges.0.spec_public(), agreements.1),
        authenticated(
            agreements.0,
            identities.1.spec_public(),
            agreements.1.spec_signature(),
            role,
            results.0,
        ),
        authenticated(
            agreements.1,
            identities.0.spec_public(),
            agreements.0.spec_signature(),
            role.peer(),
            results.1,
        ),
    ensures
        results.0 is Ok,
        results.1 is Ok,
        results.0.unwrap().reaches(results.1.unwrap()),
        results.1.unwrap().reaches(results.0.unwrap()),
{
    assert(ed25519_signature(identities.1.spec_secret(), agreements.0.spec_expected())
        == agreements.1.spec_signature());
    assert(ed25519_signature(identities.0.spec_secret(), agreements.1.spec_expected())
        == agreements.0.spec_signature());
    assert(x25519_public(exchanges.1.spec_secret()) == exchanges.1.spec_public());
}

} // verus!
