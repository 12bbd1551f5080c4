//! Who the parties are: their public keys, and which end of a connection each of them is.

use vstd::prelude::*;

use crate::networking::secure_mesh::handshake::{
    agreed, authenticated, law_handshake_connects, Agreement, KeyExchange, SigningIdentity,
};
use crate::networking::secure_mesh::secure_stream::{ConnectionRole, SecureStream, StreamError};

verus! {

/// The end of a connection that `my_id` is where `peer` is the other one: a party connects to the
/// parties before it, and listens for the others.
pub open spec fn spec_role(my_id: int, peer: int) -> ConnectionRole {
    if peer < my_id {
        ConnectionRole::Initiator
    } else {
        ConnectionRole::Listener
    }
}

/// The end of a connection that `my_id` is where `peer` is the other one.
pub fn role_towards(my_id: usize, peer: usize) -> (role: ConnectionRole)
    ensures
        role == spec_role(my_id as int, peer as int),
{
    if peer < my_id {
        ConnectionRole::Initiator
    } else {
        ConnectionRole::Listener
    }
}

/// Two parties are the two ends of their connection.
pub proof fn law_roles_are_opposite(a: int, b: int)
    requires
        a != b,
    ensures
        spec_role(a, b) == spec_role(b, a).peer(),
{
}

/// The public keys of all parties, as one of them knows them.
pub struct Roster {
    my_id: usize,
    public_keys: Vec<[u8; 32]>,
}

/// The place of a party whose key was checked. Only a roster gives one.
pub struct Place {
    peer: usize,
}

impl Place {
    /// The party.
    pub closed spec fn peer(&self) -> usize {
        self.peer
    }

    /// The party.
    pub fn index(&self) -> (peer: usize)
        ensures
            peer == self.peer(),
    {
        self.peer
    }
}

/// The outcome of an attempt to authenticate `peer`: its place with its end of the channel if the
/// signature is valid under the key of `peer`, and only then.
pub open spec fn admitted(
    roster: Roster,
    peer: int,
    agreement: Agreement,
    peer_signature: Seq<u8>,
    r: Result<(Place, SecureStream), StreamError>,
) -> bool {
    &&& authenticated(
        agreement,
        roster.keys()[peer],
        peer_signature,
        spec_role(roster.id() as int, peer),
        channel_of(r),
    )
    &&& r matches Ok((place, _)) ==> place.peer() == peer
}

/// The channel without the place.
pub open spec fn channel_of(r: Result<(Place, SecureStream), StreamError>) -> Result<
    SecureStream,
    StreamError,
> {
    match r {
        Ok((_, stream)) => Ok(stream),
        Err(error) => Err(error),
    }
}

impl Roster {
    /// The party that knows the keys.
    pub closed spec fn id(&self) -> usize {
        self.my_id
    }

    /// The public key of each party.
    pub closed spec fn keys(&self) -> Seq<Seq<u8>> {
        self.public_keys@.map_values(|key: [u8; 32]| key@)
    }

    /// Whether the party is one of all.
    pub open spec fn well_formed(&self) -> bool {
        self.id() < self.keys().len()
    }

    /// The keys of all parties, as the party `my_id` knows them.
    pub fn new(my_id: usize, public_keys: Vec<[u8; 32]>) -> (roster: Self)
        requires
            my_id < public_keys@.len(),
        ensures
            roster.well_formed(),
            roster.id() == my_id,
            roster.keys() == public_keys@.map_values(|key: [u8; 32]| key@),
    {
        Roster { my_id, public_keys }
    }

    /// The party that knows the keys.
    pub fn my_id(&self) -> (id: usize)
        ensures
            id == self.id(),
    {
        self.my_id
    }

    /// The number of parties.
    pub fn n_parties(&self) -> (n: usize)
        ensures
            n == self.keys().len(),
    {
        self.public_keys.len()
    }

    /// The place of `peer` and this party's end of the channel, if the signature of the other end
    /// is valid under the public key of `peer`.
    pub fn authenticate(
        &self,
        peer: usize,
        agreement: Agreement,
        peer_signature: &[u8; 64],
    ) -> (r: Result<(Place, SecureStream), StreamError>)
        requires
            peer < self.keys().len(),
        ensures
            admitted(*self, peer as int, agreement, peer_signature@, r),
    {
        let role = role_towards(self.my_id, peer);
        let key = self.public_keys[peer];
        let channel = SecureStream::perform_handshake(agreement, &key, peer_signature, role);
        match channel {
            Ok(stream) => Ok((Place { peer }, stream)),
            Err(error) => Err(error),
        }
    }
}

/// Two parties that know the keys of each other, and exchange their session keys and their
/// signatures, take each other's places and end up with the two ends of one channel.
pub proof fn law_parties_connect(
    rosters: (Roster, Roster),
    exchanges: (KeyExchange, KeyExchange),
    identities: (SigningIdentity, SigningIdentity),
    agreements: (Agreement, Agreement),
    results: (
        Result<(Place, SecureStream), StreamError>,
        Result<(Place, SecureStream), StreamError>,
    ),
)
    requires
        rosters.0.id() != rosters.1.id(),
        rosters.0.id() < rosters.1.keys().len(),
        rosters.1.id() < rosters.0.keys().len(),
        rosters.0.keys()[rosters.1.id() as int] == identities.1.spec_public(),
        rosters.1.keys()[rosters.0.id() as int] == identities.0.spec_public(),
        exchanges.0.well_formed(),
        exchanges.1.well_formed(),
        identities.0.well_formed(),
        identities.1.well_formed(),
        agreed(exchanges.0, identities.0, exchanges.1.spec_public(), agreements.0),
        agreed(exchanges.1, identities.1, exchanges.0.spec_public(), agreements.1),
        admitted(
            rosters.0,
            rosters.1.id() as int,
            agreements.0,
            agreements.1.spec_signature(),
            results.0,
        ),
        admitted(
            rosters.1,
            rosters.0.id() as int,
            agreements.1,
            agreements.0.spec_signature(),
            results.1,
        ),
    ensures
        results.0 is Ok,
        results.1 is Ok,
        results.0.unwrap().0.peer() == rosters.1.id(),
        results.1.unwrap().0.peer() == rosters.0.id(),
        results.0.unwrap().1.reaches(results.1.unwrap().1),
        results.1.unwrap().1.reaches(results.0.unwrap().1),
{
    let role = spec_role(rosters.0.id() as int, rosters.1.id() as int);
    law_roles_are_opposite(rosters.1.id() as int, rosters.0.id() as int);
    law_handshake_connects(
        exchanges,
        identities,
        agreements,
        role,
        (channel_of(results.0), channel_of(results.1)),
    );
}

} // verus!
