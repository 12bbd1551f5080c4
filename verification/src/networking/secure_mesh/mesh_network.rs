//! The channels of one party to all others, and how requests share them.

use std::collections::HashMap;

use itertools::Itertools;
use vstd::prelude::*;
use vstd::std_specs::iter::IteratorSpec;
use vstd::string::*;

use crate::networking::network::{
    lemma_received_from_none, lemma_total_take, received_from, sent_to, total, wanted_len,
    CountMismatch, ReceiveRequest, RecvLen, SendLen, SendRequest,
};
use crate::networking::secure_mesh::bytes::{
    big_endian, from_big_endian, law_big_endian_round_trip, lemma_capacity, read_big_endian,
    to_big_endian,
};
use crate::networking::secure_mesh::roster::{Place, Roster};
use crate::seqs::{contents, join, lemma_join_add, lemma_join_push, lemma_join_take};
use crate::text::{decimal, with_number};

verus! {

broadcast use vstd::std_specs::hash::group_hash_axioms;

/// The channels of one party, at most one to each party.
pub struct MeshNetwork<C> {
    my_id: usize,
    n_parties: usize,
    channels: Vec<Option<C>>,
}

/// Why there is no channel.
#[derive(Debug, Copy, Clone, PartialEq, Eq, Structural)]
pub enum ChannelError {
    /// There is no such party.
    InvalidPartyId,
    /// There is no connection to the party.
    NotConnected { target: usize },
    /// The channel is missing or in use.
    Unavailable { peer: usize },
}

impl ChannelError {
    /// The error in words.
    pub open spec fn words(self) -> Seq<char> {
        match self {
            ChannelError::InvalidPartyId => "Invalid Party ID"@,
            ChannelError::NotConnected { target } => "No connection to Node "@ + decimal(
                target as nat,
            ) + " (or target is self)"@,
            ChannelError::Unavailable { peer } => "Channel "@ + decimal(peer as nat)
                + " unavailable or in use"@,
        }
    }

    /// The error in words.
    pub fn message(&self) -> (text: String)
        ensures
            text@ == self.words(),
    {
        match self {
            ChannelError::InvalidPartyId => "Invalid Party ID".to_owned(),
            ChannelError::NotConnected { target } => with_number(
                "No connection to Node ",
                *target,
                " (or target is self)",
            ),
            ChannelError::Unavailable { peer } => with_number(
                "Channel ",
                *peer,
                " unavailable or in use",
            ),
        }
    }
}

impl<C> MeshNetwork<C> {
    /// The party.
    pub closed spec fn id(&self) -> usize {
        self.my_id
    }

    /// The number of parties.
    pub closed spec fn parties(&self) -> usize {
        self.n_parties
    }

    /// The channel to each party.
    pub closed spec fn links(&self) -> Seq<Option<C>> {
        self.channels@
    }

    /// Whether there is a place for each party.
    pub open spec fn well_formed(&self) -> bool {
        &&& self.links().len() == self.parties()
        &&& self.id() < self.parties()
    }

    /// Whether `self` belongs to the same party as `other` and has the given channels.
    pub open spec fn holds(&self, other: Self, links: Seq<Option<C>>) -> bool {
        &&& self.id() == other.id()
        &&& self.parties() == other.parties()
        &&& self.links() =~= links
    }

    /// Whether there is a channel to `peer`.
    pub open spec fn has(&self, peer: int) -> bool {
        0 <= peer < self.links().len() && self.links()[peer] is Some
    }

    /// Whether there is a channel to each other party.
    pub open spec fn complete(&self) -> bool {
        forall|peer: int| 0 <= peer < self.parties() && peer != self.id() ==> #[trigger] self.has(peer)
    }

    /// The party.
    pub fn my_id(&self) -> (id: usize)
        ensures
            id == self.id(),
    {
        self.my_id
    }

    /// The number of parties.
    pub fn n_players(&self) -> (n: usize)
        ensures
            n == self.parties(),
    {
        self.n_parties
    }

    /// The channel to `target`.
    pub fn get_channel_mut(&mut self, target: usize) -> (r: Result<&mut C, ChannelError>)
        requires
            old(self).well_formed(),
        ensures
            match r {
                Ok(channel) => {
                    &&& old(self).has(target as int)
                    &&& *channel == old(self).links()[target as int].unwrap()
                    &&& final(self).holds(
                        *old(self),
                        old(self).links().update(target as int, Some(*final(channel))),
                    )
                },
                Err(ChannelError::InvalidPartyId) => {
                    &&& target >= old(self).parties()
                    &&& *final(self) == *old(self)
                },
                Err(ChannelError::NotConnected { target: missing }) => {
                    &&& missing == target
                    &&& target < old(self).parties()
                    &&& !old(self).has(target as int)
                    &&& final(self).holds(*old(self), old(self).links())
                },
                Err(ChannelError::Unavailable { .. }) => false,
            },
    {
        if target >= self.n_parties {
            return Err(ChannelError::InvalidPartyId);
        }
        match &mut self.channels[target] {
            Some(channel) => Ok(channel),
            None => Err(ChannelError::NotConnected { target }),
        }
    }
}

} // verus!

verus! {

/// The values given for `peer`, in order.
pub open spec fn values_for<V>(pairs: Seq<(usize, V)>, peer: usize) -> Seq<V>
    decreases pairs.len(),
{
    if pairs.len() == 0 {
        Seq::empty()
    } else {
        let before = values_for(pairs.drop_last(), peer);
        if pairs.last().0 == peer {
            before.push(pairs.last().1)
        } else {
            before
        }
    }
}

/// Groups values by their peers with `itertools::Itertools::into_group_map`: each peer that has
/// values is mapped to them, in the order in which they were given.
#[verifier::external_body]
fn group_by_peer<V>(pairs: Vec<(usize, V)>) -> (groups: HashMap<usize, Vec<V>>)
    ensures
        forall|peer: usize|
            groups@.contains_key(peer) <==> #[trigger] values_for(pairs@, peer).len() > 0,
        forall|peer: usize| #[trigger]
            groups@.contains_key(peer) ==> groups@[peer]@ == values_for(pairs@, peer),
{
    pairs.into_iter().into_group_map()
}

/// A channel that is set aside for the requests that go through it.
pub struct Plan<C, V> {
    /// The party at the other end.
    pub peer: usize,
    /// The channel to this party.
    pub channel: C,
    /// The requests that go through it, in order.
    pub items: Vec<V>,
}

/// Whether `plans` serve each peer that has values, once and with all its values in order.
pub open spec fn serves<C, V>(plans: Seq<Plan<C, V>>, pairs: Seq<(usize, V)>) -> bool {
    &&& forall|i: int, j: int| 0 <= i < j < plans.len() ==> plans[i].peer != plans[j].peer
    &&& forall|i: int|
        0 <= i < plans.len() ==> (#[trigger] plans[i]).items@ == values_for(pairs, plans[i].peer)
            && plans[i].items@.len() > 0
    &&& forall|peer: usize| #[trigger]
        values_for(pairs, peer).len() > 0 ==> exists|i: int|
            0 <= i < plans.len() && (#[trigger] plans[i]).peer == peer
}

/// Whether one of the plans is for `peer`.
pub open spec fn planned<C, V>(plans: Seq<Plan<C, V>>, peer: int) -> bool {
    exists|i: int| 0 <= i < plans.len() && (#[trigger] plans[i]).peer == peer
}

/// Whether the plans hold the channels that `before` had, and the other channels are left.
pub open spec fn set_aside<C, V>(
    before: Seq<Option<C>>,
    plans: Seq<Plan<C, V>>,
    after: Seq<Option<C>>,
) -> bool {
    &&& after.len() == before.len()
    &&& forall|i: int|
        0 <= i < plans.len() ==> (#[trigger] plans[i]).peer < before.len()
            && before[plans[i].peer as int] == Some(plans[i].channel)
    &&& forall|peer: int|
        0 <= peer < before.len() ==> #[trigger] after[peer] == if planned(plans, peer) {
            None
        } else {
            before[peer]
        }
}

/// The peers that have values, in the order in which the groups are walked.
fn peers_of<V>(groups: &HashMap<usize, Vec<V>>) -> (peers: Vec<usize>)
    ensures
        peers@.no_duplicates(),
        forall|peer: usize| peers@.contains(peer) <==> #[trigger] groups@.contains_key(peer),
{
    let mut peers: Vec<usize> = Vec::new();
    let ghost keys = vstd::std_specs::hash::spec_keys_iter(groups).remaining();
    for key in it: groups.keys()
        invariant
            keys == vstd::std_specs::hash::spec_keys_iter(groups).remaining(),
            it.seq() == keys,
            peers@ == keys.unref().take(it.index()),
    {
        assert(*key == keys.unref()[it.index()]);
        peers.push(*key);
        assert(peers@ =~= keys.unref().take(it.index() + 1));
    }
    proof {
        assert(peers@ =~= keys.unref());
        assert forall|i: int, j: int| 0 <= i < j < peers@.len() implies peers@[i] != peers@[j] by {
            assert(keys[i] != keys[j]);
        }
        assert forall|peer: usize| peers@.contains(peer) <==> #[trigger] groups@.contains_key(
            peer,
        ) by {
            assert(keys.unref().to_set().contains(peer) == groups@.dom().contains(peer));
        }
    }
    peers
}

/// One more channel is set aside.
proof fn lemma_set_aside_push<C, V>(
    before: Seq<Option<C>>,
    plans: Seq<Plan<C, V>>,
    after: Seq<Option<C>>,
    plan: Plan<C, V>,
)
    requires
        set_aside(before, plans, after),
        plan.peer < before.len(),
        after[plan.peer as int] == Some(plan.channel),
    ensures
        set_aside(before, plans.push(plan), after.update(plan.peer as int, None)),
{
    let more = plans.push(plan);
    assert(more[plans.len() as int] == plan);
    assert forall|peer: int| 0 <= peer < before.len() implies planned(more, peer) == (planned(
        plans,
        peer,
    ) || peer == plan.peer) by {
        if planned(plans, peer) {
            let i = choose|i: int| 0 <= i < plans.len() && (#[trigger] plans[i]).peer == peer;
            assert(more[i] == plans[i]);
        }
        if planned(more, peer) {
            let i = choose|i: int| 0 <= i < more.len() && (#[trigger] more[i]).peer == peer;
            if i < plans.len() {
                assert(plans[i] == more[i]);
            }
        }
    }
    assert forall|i: int| 0 <= i < more.len() implies (#[trigger] more[i]).peer < before.len()
        && before[more[i].peer as int] == Some(more[i].channel) by {
        if i < plans.len() {
            assert(more[i] == plans[i]);
        }
    }
}

impl<C> MeshNetwork<C> {
    /// Sets aside the channels to all peers that have values.
    ///
    /// Where a channel is missing, the channels that were already set aside are dropped.
    fn set_aside<V>(&mut self, pairs: Vec<(usize, V)>) -> (r: Result<Vec<Plan<C, V>>, ChannelError>)
        requires
            old(self).well_formed(),
        ensures
            final(self).well_formed(),
            plan_outcome(*old(self), pairs@, r, *final(self)),
    {
        let ghost before = self.links();
        let ghost all = pairs@;
        let mut groups = group_by_peer(pairs);
        let peers = peers_of(&groups);
        let mut plans: Vec<Plan<C, V>> = Vec::new();
        let mut i: usize = 0;
        while i < peers.len()
            invariant
                all == pairs@,
                before == old(self).links(),
                old(self).well_formed(),
                self.well_formed(),
                self.id() == old(self).id(),
                self.parties() == old(self).parties(),
                i <= peers@.len(),
                plans@.len() == i,
                peers@.no_duplicates(),
                forall|j: int|
                    0 <= j < peers@.len() ==> values_for(all, #[trigger] peers@[j]).len() > 0,
                forall|peer: usize| #[trigger]
                    values_for(all, peer).len() > 0 ==> peers@.contains(peer),
                forall|j: int|
                    i <= j < peers@.len() ==> groups@.contains_key(#[trigger] peers@[j])
                        && groups@[peers@[j]]@ == values_for(all, peers@[j]),
                forall|j: int|
                    0 <= j < i ==> (#[trigger] plans@[j]).peer == peers@[j] && plans@[j].items@
                        == values_for(all, peers@[j]),
                set_aside(before, plans@, self.links()),
            decreases peers@.len() - i,
        {
            let peer = peers[i];
            let items = groups.remove(&peer).unwrap();
            if peer >= self.channels.len() || self.channels[peer].is_none() {
                proof {
                    if peer < before.len() && planned(plans@, peer as int) {
                        let j = choose|j: int|
                            0 <= j < plans@.len() && (#[trigger] plans@[j]).peer == peer;
                        assert(peers@[j] == peers@[i as int]);
                    }
                    if peer < before.len() {
                        assert(self.links()[peer as int] is None);
                    }
                    assert(values_for(all, peers@[i as int]).len() > 0);
                    assert forall|other: int| 0 <= other < before.len() && values_for(
                        all,
                        other as usize,
                    ).len() == 0 implies #[trigger] self.links()[other] == before[other] by {
                        if planned(plans@, other) {
                            let j = choose|j: int|
                                0 <= j < plans@.len() && (#[trigger] plans@[j]).peer == other;
                            assert(values_for(all, peers@[j]).len() > 0);
                        }
                    }
                }
                return Err(ChannelError::Unavailable { peer });
            }
            let ghost links = self.links();
            let ghost held = plans@;
            let channel = self.channels[peer].take().unwrap();
            let plan = Plan { peer, channel, items };
            proof {
                lemma_set_aside_push(before, held, links, plan);
                assert(self.links() =~= links.update(peer as int, None));
            }
            plans.push(plan);
            i = i + 1;
        }
        proof {
            assert forall|a: int, b: int| 0 <= a < b < plans@.len() implies plans@[a].peer
                != plans@[b].peer by {
                assert(peers@[a] != peers@[b]);
            }
            assert forall|peer: usize| #[trigger] values_for(all, peer).len() > 0 implies exists|
                j: int,
            |
                0 <= j < plans@.len() && (#[trigger] plans@[j]).peer == peer by {
                let j = peers@.index_of(peer);
                assert(plans@[j].peer == peers@[j]);
            }
            assert forall|j: int| 0 <= j < plans@.len() implies (#[trigger] plans@[j]).items@
                == values_for(all, plans@[j].peer) && plans@[j].items@.len() > 0 by {
                assert(values_for(all, peers@[j]).len() > 0);
            }
        }
        Ok(plans)
    }
}

/// The outcome of an attempt to set channels aside: either every peer that has values has its
/// channel in a plan, or some peer has none; then every channel is where it was or dropped.
pub open spec fn plan_outcome<C, V>(
    before: MeshNetwork<C>,
    pairs: Seq<(usize, V)>,
    r: Result<Vec<Plan<C, V>>, ChannelError>,
    after: MeshNetwork<C>,
) -> bool {
    &&& after.id() == before.id()
    &&& after.parties() == before.parties()
    &&& match r {
        Ok(plans) => {
            &&& serves(plans@, pairs)
            &&& set_aside(before.links(), plans@, after.links())
        },
        Err(ChannelError::Unavailable { peer }) => {
            &&& values_for(pairs, peer).len() > 0
            &&& !before.has(peer as int)
            &&& forall|other: int|
                0 <= other < before.links().len() ==> after.links()[other] is None
                    || #[trigger] after.links()[other] == before.links()[other]
            &&& forall|other: int|
                0 <= other < before.links().len() && values_for(pairs, other as usize).len() == 0
                    ==> #[trigger] after.links()[other] == before.links()[other]
        },
        Err(_) => false,
    }
}

} // verus!

verus! {

/// The place of a request among all, and the number of elements that it asks for.
pub type Wanted = (usize, Option<usize>);

/// The requests with their places, each with its source.
pub open spec fn receive_pairs<T>(requests: Seq<ReceiveRequest<T>>) -> Seq<(usize, Wanted)> {
    Seq::new(requests.len(), |i: int| (requests[i].from, (i as usize, requests[i].count)))
}

/// The places of the requests, each with its destination.
pub open spec fn send_pairs<'a, T: Clone>(requests: Seq<SendRequest<'a, T>>) -> Seq<(usize, usize)> {
    Seq::new(requests.len(), |i: int| (requests[i].to, i as usize))
}

/// What came through a channel that was set aside.
pub struct Received<C, T> {
    /// The channel and its requests.
    pub plan: Plan<C, Wanted>,
    /// One batch for each request.
    pub batches: Vec<Vec<T>>,
    /// How many bytes it took.
    pub len: RecvLen,
}

/// A channel that was set aside, once a message went through it.
pub struct Sent<C> {
    /// The channel and its requests.
    pub plan: Plan<C, usize>,
    /// How many bytes the message took.
    pub len: SendLen,
}

/// The plans of what was sent.
pub open spec fn plans_sent<C>(sent: Seq<Sent<C>>) -> Seq<Plan<C, usize>> {
    sent.map_values(|s: Sent<C>| s.plan)
}

/// How many bytes went through each channel.
pub open spec fn lens_sent<C>(sent: Seq<Sent<C>>) -> Seq<usize> {
    sent.map_values(|s: Sent<C>| s.len)
}

/// How many bytes came through each channel.
pub open spec fn lens_received<C, T>(received: Seq<Received<C, T>>) -> Seq<usize> {
    received.map_values(|r: Received<C, T>| r.len)
}

/// The plans of what was received.
pub open spec fn plans_of<C, T>(received: Seq<Received<C, T>>) -> Seq<Plan<C, Wanted>> {
    received.map_values(|r: Received<C, T>| r.plan)
}

/// Whether the plans are for different parties whose places are empty.
pub open spec fn vacant<C, V>(links: Seq<Option<C>>, plans: Seq<Plan<C, V>>) -> bool {
    &&& forall|i: int, j: int| 0 <= i < j < plans.len() ==> plans[i].peer != plans[j].peer
    &&& forall|i: int|
        0 <= i < plans.len() ==> (#[trigger] plans[i]).peer < links.len()
            && links[plans[i].peer as int] is None
}

/// Whether the channels of the plans are back in their places, and the others are as before.
pub open spec fn given_back<C, V>(
    before: Seq<Option<C>>,
    plans: Seq<Plan<C, V>>,
    after: Seq<Option<C>>,
) -> bool {
    &&& after.len() == before.len()
    &&& forall|i: int|
        0 <= i < plans.len() ==> (#[trigger] plans[i]).peer < before.len()
            && after[plans[i].peer as int] == Some(plans[i].channel)
    &&& forall|peer: int|
        0 <= peer < before.len() && !planned(plans, peer) ==> #[trigger] after[peer] == before[peer]
}

/// One more channel is back in its place.
proof fn lemma_given_back_push<C, V>(
    before: Seq<Option<C>>,
    plans: Seq<Plan<C, V>>,
    after: Seq<Option<C>>,
    plan: Plan<C, V>,
)
    requires
        given_back(before, plans, after),
        plan.peer < before.len(),
        !planned(plans, plan.peer as int),
    ensures
        given_back(before, plans.push(plan), after.update(plan.peer as int, Some(plan.channel))),
{
    let more = plans.push(plan);
    let place = plan.peer as int;
    let back = after.update(place, Some(plan.channel));
    assert forall|i: int| 0 <= i < more.len() implies back[(#[trigger] more[i]).peer as int] == Some(
        more[i].channel,
    ) by {
        if i < plans.len() {
            assert(more[i] == plans[i]);
            assert(planned(plans, plans[i].peer as int));
        }
    }
    assert forall|peer: int| 0 <= peer < before.len() && !planned(more, peer) implies
        #[trigger] back[peer] == before[peer] by {
        assert(more[plans.len() as int].peer == plan.peer);
        if planned(plans, peer) {
            let i = choose|i: int| 0 <= i < plans.len() && (#[trigger] plans[i]).peer == peer;
            assert(more[i] == plans[i]);
        }
    }
}

/// The values for a peer are found where its pairs are, in order.
pub(crate) proof fn lemma_values_for_receive<T>(requests: Seq<ReceiveRequest<T>>, peer: usize, n: int)
    requires
        0 <= n <= requests.len() <= usize::MAX,
    ensures
        ({
            let values = values_for(receive_pairs(requests).take(n), peer);
            &&& forall|j: int|
                0 <= j < values.len() ==> (#[trigger] values[j]).0 < n
                    && requests[values[j].0 as int].from == peer && values[j].1
                    == requests[values[j].0 as int].count
            &&& forall|j: int, k: int| 0 <= j < k < values.len() ==> values[j].0 < values[k].0
            &&& forall|i: int|
                0 <= i < n && (#[trigger] requests[i]).from == peer ==> values.contains(
                    (i as usize, requests[i].count),
                )
        }),
    decreases n,
{
    let pairs = receive_pairs(requests).take(n);
    if n > 0 {
        let rest = receive_pairs(requests).take(n - 1);
        lemma_values_for_receive(requests, peer, n - 1);
        assert(pairs.drop_last() =~= rest);
        let before = values_for(rest, peer);
        let values = values_for(pairs, peer);
        assert forall|i: int| 0 <= i < n && (#[trigger] requests[i]).from == peer implies
            values.contains((i as usize, requests[i].count)) by {
            if i < n - 1 {
                let j = before.index_of((i as usize, requests[i].count));
                assert(values[j] == before[j]);
            } else {
                assert(values.last() == (i as usize, requests[i].count));
            }
        }
    }
}

/// Puts batches in their places.
fn place<T>(results: &mut Vec<Option<Vec<T>>>, items: &Vec<Wanted>, batches: Vec<Vec<T>>)
    requires
        batches@.len() == items@.len(),
        forall|j: int| 0 <= j < items@.len() ==> (#[trigger] items@[j]).0 < old(results)@.len(),
        forall|j: int, k: int| 0 <= j < k < items@.len() ==> items@[j].0 < items@[k].0,
    ensures
        final(results)@.len() == old(results)@.len(),
        forall|j: int|
            0 <= j < items@.len() ==> final(results)@[(#[trigger] items@[j]).0 as int] == Some(
                batches@[j],
            ),
        forall|i: int|
            0 <= i < old(results)@.len() && (forall|j: int|
                0 <= j < items@.len() ==> (#[trigger] items@[j]).0 != i)
                ==> #[trigger] final(results)@[i] == old(results)@[i],
{
    let ghost before = results@;
    let ghost all = batches@;
    let total = batches.len();
    let mut n: usize = 0;
    for batch in it: batches
        invariant
            n == it.index(),
            it.seq() == all,
            all.len() == items@.len() == total,
            results@.len() == before.len(),
            before == old(results)@,
            forall|j: int| 0 <= j < items@.len() ==> (#[trigger] items@[j]).0 < before.len(),
            forall|j: int, k: int| 0 <= j < k < items@.len() ==> items@[j].0 < items@[k].0,
            forall|j: int|
                0 <= j < n ==> results@[(#[trigger] items@[j]).0 as int] == Some(all[j]),
            forall|i: int|
                0 <= i < before.len() && (forall|j: int|
                    0 <= j < items@.len() ==> (#[trigger] items@[j]).0 != i)
                    ==> #[trigger] results@[i] == before[i],
    {
        let index = items[n].0;
        results.set(index, Some(batch));
        n = n + 1;
    }
}

impl<C> MeshNetwork<C> {
    /// Sets aside the channels that the requests need, each with its requests in order.
    pub fn begin_recv_many<T>(&mut self, requests: &[ReceiveRequest<T>]) -> (r: Result<
        Vec<Plan<C, Wanted>>,
        ChannelError,
    >)
        requires
            old(self).well_formed(),
        ensures
            final(self).well_formed(),
            plan_outcome(*old(self), receive_pairs(requests@), r, *final(self)),
    {
        let mut pairs: Vec<(usize, Wanted)> = Vec::new();
        let mut i: usize = 0;
        while i < requests.len()
            invariant
                i <= requests@.len(),
                pairs@ == receive_pairs(requests@).take(i as int),
            decreases requests@.len() - i,
        {
            pairs.push((requests[i].from, (i, requests[i].count)));
            assert(pairs@ =~= receive_pairs(requests@).take(i + 1));
            i = i + 1;
        }
        assert(pairs@ =~= receive_pairs(requests@));
        self.set_aside(pairs)
    }

    /// Sets aside the channels that the requests need, each with the places of its requests.
    pub fn begin_send_many<'a, T: Clone>(&mut self, requests: &[SendRequest<'a, T>]) -> (r: Result<
        Vec<Plan<C, usize>>,
        ChannelError,
    >)
        requires
            old(self).well_formed(),
        ensures
            final(self).well_formed(),
            plan_outcome(*old(self), send_pairs(requests@), r, *final(self)),
    {
        let mut pairs: Vec<(usize, usize)> = Vec::new();
        let mut i: usize = 0;
        while i < requests.len()
            invariant
                i <= requests@.len(),
                pairs@ == send_pairs(requests@).take(i as int),
            decreases requests@.len() - i,
        {
            pairs.push((requests[i].to, i));
            assert(pairs@ =~= send_pairs(requests@).take(i + 1));
            i = i + 1;
        }
        assert(pairs@ =~= send_pairs(requests@));
        self.set_aside(pairs)
    }

    /// Puts the channels back, and says how many bytes went through them.
    pub fn finish_send_many(&mut self, sent: Vec<Sent<C>>) -> (len: SendLen)
        requires
            old(self).well_formed(),
            vacant(old(self).links(), plans_sent(sent@)),
            total(lens_sent(sent@)) <= usize::MAX,
        ensures
            final(self).well_formed(),
            final(self).id() == old(self).id(),
            final(self).parties() == old(self).parties(),
            given_back(old(self).links(), plans_sent(sent@), final(self).links()),
            len == total(lens_sent(sent@)),
    {
        let ghost all = sent@;
        let ghost plans = plans_sent(all);
        let ghost lens = lens_sent(all);
        let ghost before = self.links();
        let count = sent.len();
        let mut len: usize = 0;
        let mut n: usize = 0;
        assert(lens.take(0) =~= Seq::empty());
        for entry in it: sent
            invariant
                n == it.index(),
                it.seq() == all,
                all.len() == count,
                plans == plans_sent(all),
                lens == lens_sent(all),
                total(lens) <= usize::MAX,
                len == total(lens.take(n as int)),
                before == old(self).links(),
                self.well_formed(),
                self.id() == old(self).id(),
                self.parties() == old(self).parties(),
                vacant(before, plans),
                given_back(before, plans.take(n as int), self.links()),
        {
            let ghost links = self.links();
            let plan = entry.plan;
            proof {
                let done = plans.take(n as int);
                assert(plans[n as int] == plan);
                if planned(done, plan.peer as int) {
                    let i = choose|i: int|
                        0 <= i < done.len() && (#[trigger] done[i]).peer == plan.peer;
                    assert(plans[i].peer != plans[n as int].peer);
                }
                lemma_given_back_push(before, done, links, plan);
                assert(plans.take(n + 1) =~= done.push(plan));
                assert(lens.take(n + 1).drop_last() =~= lens.take(n as int));
                lemma_total_take(lens, n + 1);
            }
            self.channels.set(plan.peer, Some(plan.channel));
            assert(self.links() =~= links.update(plan.peer as int, Some(plan.channel)));
            len = len + entry.len;
            n = n + 1;
        }
        assert(plans.take(n as int) =~= plans);
        assert(lens.take(n as int) =~= lens);
        len
    }
}

} // verus!

verus! {

/// Whether the batch `j` of the channel `k` is where its request stands among all.
pub open spec fn delivered<C, T>(
    received: Seq<Received<C, T>>,
    results: Seq<Vec<T>>,
    k: int,
    j: int,
) -> bool {
    let place = received[k].plan.items@[j].0;
    place < results.len() && results[place as int] == received[k].batches@[j]
}

/// Whether there is a batch for each request, and each batch is where its request stands.
pub open spec fn all_delivered<C, T>(
    received: Seq<Received<C, T>>,
    requests: Seq<ReceiveRequest<T>>,
    results: Seq<Vec<T>>,
) -> bool {
    &&& results.len() == requests.len()
    &&& forall|k: int, j: int|
        0 <= k < received.len() && 0 <= j < received[k].plan.items@.len()
            ==> #[trigger] delivered(received, results, k, j)
}

/// Whether the first `n` channels have put their batches in place.
spec fn placed<C, T>(
    received: Seq<Received<C, T>>,
    results: Seq<Option<Vec<T>>>,
    n: int,
) -> bool {
    forall|k: int, j: int|
        0 <= k < n && 0 <= j < received[k].plan.items@.len()
            ==> results[(#[trigger] received[k].plan.items@[j]).0 as int] == Some(
            received[k].batches@[j],
        )
}

/// Whether the plans serve the requests, with one batch for each request.
pub open spec fn answered<C, T>(
    received: Seq<Received<C, T>>,
    requests: Seq<ReceiveRequest<T>>,
) -> bool {
    &&& serves(plans_of(received), receive_pairs(requests))
    &&& forall|k: int|
        0 <= k < received.len() ==> (#[trigger] received[k]).batches@.len()
            == received[k].plan.items@.len()
}

/// Whether the item `j` of the channel `k` stands for the request `i`.
pub open spec fn stands_for<C, T>(received: Seq<Received<C, T>>, k: int, j: int, i: int) -> bool {
    &&& 0 <= k < received.len()
    &&& 0 <= j < received[k].plan.items@.len()
    &&& received[k].plan.items@[j].0 == i
}

/// Whether some item stands for the request `i`.
spec fn stood_for<C, T>(received: Seq<Received<C, T>>, i: int) -> bool {
    exists|k: int, j: int| #[trigger] stands_for(received, k, j, i)
}

/// What the plans of received batches are.
proof fn lemma_items<C, T>(received: Seq<Received<C, T>>, requests: Seq<ReceiveRequest<T>>)
    requires
        answered(received, requests),
        requests.len() <= usize::MAX,
    ensures
        forall|k: int, j: int|
            0 <= k < received.len() && 0 <= j < received[k].plan.items@.len() ==> (
            #[trigger] received[k].plan.items@[j]).0 < requests.len()
                && requests[received[k].plan.items@[j].0 as int].from == received[k].plan.peer,
        forall|k: int, i: int, j: int|
            0 <= k < received.len() && 0 <= i < j < received[k].plan.items@.len() ==> (
            #[trigger] received[k].plan.items@[i]).0 < (#[trigger] received[k].plan.items@[j]).0,
        forall|k: int, l: int|
            0 <= k < l < received.len() ==> received[k].plan.peer != received[l].plan.peer,
        forall|i: int| 0 <= i < requests.len() ==> #[trigger] stood_for(received, i),
{
    let plans = plans_of(received);
    let pairs = receive_pairs(requests);
    let n = requests.len() as int;
    assert(pairs.take(n) =~= pairs);
    assert forall|k: int, j: int|
        0 <= k < received.len() && 0 <= j < received[k].plan.items@.len() implies (
    #[trigger] received[k].plan.items@[j]).0 < requests.len()
        && requests[received[k].plan.items@[j].0 as int].from == received[k].plan.peer by {
        assert(plans[k] == received[k].plan);
        lemma_values_for_receive(requests, plans[k].peer, n);
    }
    assert forall|k: int, i: int, j: int|
        0 <= k < received.len() && 0 <= i < j < received[k].plan.items@.len() implies (
    #[trigger] received[k].plan.items@[i]).0 < (#[trigger] received[k].plan.items@[j]).0 by {
        assert(plans[k] == received[k].plan);
        lemma_values_for_receive(requests, plans[k].peer, n);
    }
    assert forall|k: int, l: int| 0 <= k < l < received.len() implies received[k].plan.peer
        != received[l].plan.peer by {
        assert(plans[k].peer != plans[l].peer);
    }
    assert forall|i: int| 0 <= i < requests.len() implies #[trigger] stood_for(received, i) by {
        let peer = requests[i].from;
        lemma_values_for_receive(requests, peer, n);
        let values = values_for(pairs, peer);
        assert(values.contains((i as usize, requests[i].count)));
        assert(values.len() > 0);
        let k = choose|k: int| 0 <= k < plans.len() && (#[trigger] plans[k]).peer == peer;
        let j = values.index_of((i as usize, requests[i].count));
        assert(plans[k] == received[k].plan);
        assert(stands_for(received, k, j, i));
    }
}

/// As many empty places as asked for.
fn empty_places<T>(n: usize) -> (places: Vec<Option<Vec<T>>>)
    ensures
        places@.len() == n,
{
    let mut places: Vec<Option<Vec<T>>> = Vec::new();
    while places.len() < n
        invariant
            places@.len() <= n,
        decreases n - places@.len(),
    {
        places.push(None);
    }
    places
}

/// What is in the places.
fn unwrap_all<T>(places: Vec<Option<Vec<T>>>) -> (values: Vec<Vec<T>>)
    requires
        forall|i: int| 0 <= i < places@.len() ==> #[trigger] places@[i] is Some,
    ensures
        values@.len() == places@.len(),
        forall|i: int| 0 <= i < places@.len() ==> Some(#[trigger] values@[i]) == places@[i],
{
    let ghost all = places@;
    let mut values: Vec<Vec<T>> = Vec::new();
    for entry in it: places
        invariant
            it.seq() == all,
            forall|i: int| 0 <= i < all.len() ==> #[trigger] all[i] is Some,
            values@.len() == it.index(),
            forall|i: int| 0 <= i < values@.len() ==> Some(#[trigger] values@[i]) == all[i],
    {
        assert(all[it.index()] is Some);
        values.push(entry.unwrap());
    }
    values
}

impl<C> MeshNetwork<C> {
    /// Puts the channels back, and the batches in the order of the requests, and says how many
    /// bytes came through the channels.
    pub fn finish_recv_many<T>(
        &mut self,
        requests: &[ReceiveRequest<T>],
        received: Vec<Received<C, T>>,
    ) -> (r: (Vec<Vec<T>>, RecvLen))
        requires
            old(self).well_formed(),
            answered(received@, requests@),
            vacant(old(self).links(), plans_of(received@)),
            total(lens_received(received@)) <= usize::MAX,
        ensures
            final(self).well_formed(),
            final(self).id() == old(self).id(),
            final(self).parties() == old(self).parties(),
            given_back(old(self).links(), plans_of(received@), final(self).links()),
            all_delivered(received@, requests@, r.0@),
            r.1 == total(lens_received(received@)),
    {
        let ghost all = received@;
        let ghost plans = plans_of(all);
        let ghost before = self.links();
        let ghost lens = lens_received(all);
        let count = requests.len();
        let mut places: Vec<Option<Vec<T>>> = empty_places(count);
        let channels = received.len();
        let mut len: usize = 0;
        let mut n: usize = 0;
        proof {
            lemma_items(all, requests@);
            assert(lens.take(0) =~= Seq::empty());
        }
        for entry in it: received
            invariant
                n == it.index(),
                it.seq() == all,
                all.len() == channels,
                lens == lens_received(all),
                total(lens) <= usize::MAX,
                len == total(lens.take(n as int)),
                plans == plans_of(all),
                before == old(self).links(),
                self.well_formed(),
                self.id() == old(self).id(),
                self.parties() == old(self).parties(),
                answered(all, requests@),
                vacant(before, plans),
                given_back(before, plans.take(n as int), self.links()),
                places@.len() == requests@.len() == count,
                placed(all, places@, n as int),
        {
            let ghost links = self.links();
            let ghost old_places = places@;
            proof {
                lemma_items(all, requests@);
                let done = plans.take(n as int);
                assert(plans[n as int] == entry.plan);
                if planned(done, entry.plan.peer as int) {
                    let i = choose|i: int|
                        0 <= i < done.len() && (#[trigger] done[i]).peer == entry.plan.peer;
                    assert(plans[i].peer != plans[n as int].peer);
                }
                lemma_given_back_push(before, done, links, entry.plan);
                assert(plans.take(n + 1) =~= done.push(entry.plan));
                assert(all[n as int] == entry);
                assert(lens.take(n + 1).drop_last() =~= lens.take(n as int));
                lemma_total_take(lens, n + 1);
            }
            len = len + entry.len;
            place(&mut places, &entry.plan.items, entry.batches);
            self.channels.set(entry.plan.peer, Some(entry.plan.channel));
            proof {
                assert(self.links() =~= links.update(
                    entry.plan.peer as int,
                    Some(entry.plan.channel),
                ));
                assert forall|k: int, j: int|
                    0 <= k < n + 1 && 0 <= j < all[k].plan.items@.len() implies places@[(
                #[trigger] all[k].plan.items@[j]).0 as int] == Some(all[k].batches@[j]) by {
                    let i = all[k].plan.items@[j].0 as int;
                    if k < n {
                        assert forall|l: int| 0 <= l < entry.plan.items@.len() implies (
                        #[trigger] entry.plan.items@[l]).0 != i by {
                            assert(all[n as int].plan.items@[l].0 < requests@.len());
                        }
                        assert(places@[i] == old_places[i]);
                    }
                }
            }
            n = n + 1;
        }
        proof {
            assert(plans.take(n as int) =~= plans);
            assert(lens.take(n as int) =~= lens);
            lemma_items(all, requests@);
            assert forall|i: int| 0 <= i < places@.len() implies #[trigger] places@[i] is Some by {
                assert(stood_for(all, i));
                let (k, j) = choose|k: int, j: int| #[trigger] stands_for(all, k, j, i);
                assert(places@[all[k].plan.items@[j].0 as int] is Some);
            }
        }
        let results = unwrap_all(places);
        assert forall|k: int, j: int|
            0 <= k < all.len() && 0 <= j < all[k].plan.items@.len() implies #[trigger] delivered(
            all,
            results@,
            k,
            j,
        ) by {
            let i = all[k].plan.items@[j].0 as int;
            assert(i < requests@.len());
            assert(Some(results@[i]) == places@[i]);
        }
        (results, len)
    }
}

/// Channels that are set aside and come back as they were leave the network as it was.
pub proof fn law_channels_come_back<C, V>(
    before: Seq<Option<C>>,
    pairs: Seq<(usize, V)>,
    plans: Seq<Plan<C, V>>,
    between: Seq<Option<C>>,
    after: Seq<Option<C>>,
)
    requires
        serves(plans, pairs),
        set_aside(before, plans, between),
        given_back(between, plans, after),
    ensures
        vacant(between, plans),
        after == before,
{
    assert forall|i: int| 0 <= i < plans.len() implies (#[trigger] plans[i]).peer < between.len()
        && between[plans[i].peer as int] is None by {
        assert(planned(plans, plans[i].peer as int));
        assert(between[plans[i].peer as int] is None);
    }
    assert forall|peer: int| 0 <= peer < before.len() implies after[peer] == before[peer] by {
        if planned(plans, peer) {
            let i = choose|i: int| 0 <= i < plans.len() && (#[trigger] plans[i]).peer == peer;
            assert(after[plans[i].peer as int] == Some(plans[i].channel));
        } else {
            assert(between[peer] == before[peer]);
        }
    }
    assert(after =~= before);
}

} // verus!

verus! {

/// Each request is answered by a batch that came through the channel to its source.
pub proof fn law_requests_are_answered<C, T>(
    received: Seq<Received<C, T>>,
    requests: Seq<ReceiveRequest<T>>,
    results: Seq<Vec<T>>,
    i: int,
)
    requires
        requests.len() <= usize::MAX,
        answered(received, requests),
        all_delivered(received, requests, results),
        0 <= i < requests.len(),
    ensures
        exists|k: int, j: int|
            #[trigger] stands_for(received, k, j, i) && received[k].plan.peer == requests[i].from
                && results[i] == received[k].batches@[j],
{
    lemma_items(received, requests);
    assert(stood_for(received, i));
    let (k, j) = choose|k: int, j: int| #[trigger] stands_for(received, k, j, i);
    assert(delivered(received, results, k, j));
    assert(received[k].plan.items@[j].0 < requests.len());
}

/// How many elements each item asks for, all together.
pub open spec fn wanted_total(items: Seq<Wanted>) -> nat
    decreases items.len(),
{
    if items.len() == 0 {
        0
    } else {
        wanted_total(items.drop_last()) + wanted_len(items.last().1)
    }
}

/// Whether there is a batch for each item, as long as the item asks for.
pub open spec fn as_wanted<T>(items: Seq<Wanted>, batches: Seq<Vec<T>>) -> bool {
    &&& batches.len() == items.len()
    &&& forall|j: int| 0 <= j < items.len() ==> (#[trigger] batches[j])@.len() == wanted_len(items[j].1)
}

/// The first items ask for no more than all of them.
proof fn lemma_wanted_take(items: Seq<Wanted>, i: int)
    requires
        0 <= i <= items.len(),
    ensures
        wanted_total(items.take(i)) <= wanted_total(items),
    decreases items.len(),
{
    if i < items.len() {
        lemma_wanted_take(items.drop_last(), i);
        assert(items.drop_last().take(i) =~= items.take(i));
    } else {
        assert(items.take(i) =~= items);
    }
}

/// One more item adds what it asks for.
proof fn lemma_wanted_next(items: Seq<Wanted>, i: int)
    requires
        0 <= i < items.len(),
    ensures
        wanted_total(items.take(i + 1)) == wanted_total(items.take(i)) + wanted_len(items[i].1),
{
    assert(items.take(i + 1).drop_last() =~= items.take(i));
}

/// Whether a message of `len` objects answers the next `m` of the items that are left: at least
/// one, and no more than it takes to ask for as many objects.
pub open spec fn covers(left: Seq<Wanted>, len: nat, m: int) -> bool {
    &&& 1 <= m <= left.len()
    &&& wanted_total(left.take(m)) == len
    &&& forall|l: int| 1 <= l < m ==> wanted_total(#[trigger] left.take(l)) != len
}

/// Splits the objects of a message among the items from `done` on, in order.
///
/// A message answers one item or several: as many as it takes to ask for all its objects. Where
/// there are none such, the error speaks of the first item.
pub fn split_message<T>(objects: Vec<T>, items: &Vec<Wanted>, done: usize) -> (r: Result<
    Vec<Vec<T>>,
    CountMismatch,
>)
    requires
        done < items@.len(),
    ensures
        match r {
            Ok(batches) => {
                let m = batches@.len() as int;
                &&& covers(items@.skip(done as int), objects@.len(), m)
                &&& as_wanted(items@.skip(done as int).take(m), batches@)
                &&& join(contents(batches@)) == objects@
            },
            Err(mismatch) => {
                &&& forall|m: int| !(#[trigger] covers(items@.skip(done as int), objects@.len(), m))
                &&& mismatch.received == objects@.len()
                &&& mismatch.expected == wanted_len(items@[done as int].1)
            },
        },
{
    let received = objects.len();
    let expected: usize = match items[done].1 {
        Some(count) => count,
        None => 0,
    };
    let ghost all = objects@;
    let ghost left = items@.skip(done as int);
    let mut rest = objects;
    let mut batches: Vec<Vec<T>> = Vec::new();
    let mut next: usize = done;
    proof {
        assert(left.take(0) =~= Seq::empty());
        assert(contents(batches@) =~= Seq::empty());
        assert(all =~= join(contents(batches@)) + rest@);
        assert(left[0] == items@[done as int]);
    }
    while next == done || rest.len() > 0
        invariant
            done < items@.len(),
            left == items@.skip(done as int),
            all == objects@,
            done <= next <= items@.len(),
            batches@.len() == next - done,
            as_wanted(left.take(next - done), batches@),
            all == join(contents(batches@)) + rest@,
            join(contents(batches@)).len() == wanted_total(left.take(next - done)),
            forall|l: int|
                1 <= l < next - done ==> wanted_total(#[trigger] left.take(l)) != all.len(),
            received == all.len(),
            expected == wanted_len(items@[done as int].1),
        decreases items@.len() - next,
    {
        let ghost n = next - done;
        if next == items.len() {
            return Err(CountMismatch { received, expected });
        }
        proof {
            lemma_wanted_next(left, n);
            assert(left[n] == items@[next as int]);
        }
        let len: usize = match items[next].1 {
            Some(count) => count,
            None => 0,
        };
        if len > rest.len() {
            assert forall|m: int| !(#[trigger] covers(left, all.len(), m)) by {
                if n < m <= left.len() {
                    lemma_wanted_take(left.take(m), n + 1);
                    assert(left.take(m).take(n + 1) =~= left.take(n + 1));
                }
            }
            return Err(CountMismatch { received, expected });
        }
        let ghost old_rest = rest@;
        let ghost old_batches = batches@;
        let tail = rest.split_off(len);
        batches.push(rest);
        proof {
            let batch = old_rest.take(len as int);
            assert(contents(batches@) =~= contents(old_batches).push(batch));
            lemma_join_push(contents(old_batches), batch);
            assert(old_rest =~= batch + tail@);
            assert(all =~= join(contents(batches@)) + tail@);
            assert forall|j: int| 0 <= j < n + 1 implies (#[trigger] batches@[j])@.len()
                == wanted_len(left.take(n + 1)[j].1) by {
                if j < n {
                    assert(batches@[j] == old_batches[j]);
                    assert(left.take(n)[j] == left[j]);
                }
            }
        }
        rest = tail;
        next = next + 1;
    }
    assert(join(contents(batches@)) =~= all);
    Ok(batches)
}

/// The batches of one message after the other answer the items in order, and are what the messages
/// hold together.
pub proof fn law_split_messages_add_up<T>(
    items: Seq<Wanted>,
    before: Seq<Vec<T>>,
    more: Seq<Vec<T>>,
)
    requires
        before.len() + more.len() <= items.len(),
        as_wanted(items.take(before.len() as int), before),
        as_wanted(items.skip(before.len() as int).take(more.len() as int), more),
    ensures
        as_wanted(items.take((before.len() + more.len()) as int), before + more),
        join(contents(before + more)) == join(contents(before)) + join(contents(more)),
{
    let n = before.len() as int;
    let all = before + more;
    assert forall|j: int| 0 <= j < all.len() implies (#[trigger] all[j])@.len() == wanted_len(
        items.take(all.len() as int)[j].1,
    ) by {
        if j < n {
            assert(all[j] == before[j]);
            assert(items.take(n)[j] == items[j]);
        } else {
            assert(all[j] == more[j - n]);
            assert(items.skip(n).take(more.len() as int)[j - n] == items[j]);
        }
    }
    assert(contents(all) =~= contents(before) + contents(more));
    lemma_join_add(contents(before), contents(more));
}

/// A message answers at most one number of items.
pub proof fn law_messages_are_split_one_way(left: Seq<Wanted>, len: nat, m: int, n: int)
    requires
        covers(left, len, m),
        covers(left, len, n),
    ensures
        m == n,
{
    if m < n {
        assert(wanted_total(left.take(m)) != len);
    } else if n < m {
        assert(wanted_total(left.take(n)) != len);
    }
}

/// A message with as many objects as the next item asks for answers this item alone.
pub proof fn law_message_answers_one_item(left: Seq<Wanted>)
    requires
        left.len() > 0,
    ensures
        covers(left, wanted_len(left[0].1), 1),
{
    assert(left.take(0) =~= Seq::empty());
    lemma_wanted_next(left, 0);
}

/// A message with as many objects as all items ask for answers all of them, where each asks for
/// something.
pub proof fn law_message_answers_all_items(left: Seq<Wanted>)
    requires
        left.len() > 0,
        forall|i: int| 0 <= i < left.len() ==> wanted_len((#[trigger] left[i]).1) > 0,
    ensures
        covers(left, wanted_total(left), left.len() as int),
{
    assert(left.take(left.len() as int) =~= left);
    assert forall|l: int| 1 <= l < left.len() implies wanted_total(#[trigger] left.take(l))
        != wanted_total(left) by {
        lemma_wanted_next(left, l);
        lemma_wanted_take(left, l + 1);
        assert(wanted_len(left[l].1) > 0);
    }
}

/// The payloads of the requests at the given places.
pub open spec fn payloads_at<'a, T: Clone>(requests: Seq<SendRequest<'a, T>>, places: Seq<usize>) -> Seq<
    T,
> {
    Seq::new(places.len(), |j: int| requests[places[j] as int].payload())
}

/// The message of a channel: the payloads of its requests, in order.
pub fn message<'b, 'a, T: Clone>(requests: &'b [SendRequest<'a, T>], places: &Vec<usize>) -> (r: Vec<
    &'b T,
>)
    requires
        forall|j: int| 0 <= j < places@.len() ==> #[trigger] places@[j] < requests@.len(),
    ensures
        r@.unref() == payloads_at(requests@, places@),
{
    let mut objects: Vec<&'b T> = Vec::new();
    let mut i: usize = 0;
    while i < places.len()
        invariant
            i <= places@.len(),
            forall|j: int| 0 <= j < places@.len() ==> #[trigger] places@[j] < requests@.len(),
            objects@.unref() == payloads_at(requests@, places@.take(i as int)),
        decreases places@.len() - i,
    {
        let ghost before = objects@;
        let object = requests[places[i]].data_ref();
        objects.push(object);
        proof {
            assert(objects@.unref() =~= before.unref().push(*object));
            assert(payloads_at(requests@, places@.take(i + 1)) =~= payloads_at(
                requests@,
                places@.take(i as int),
            ).push(*object));
        }
        i = i + 1;
    }
    assert(places@.take(i as int) =~= places@);
    objects
}

/// The message of the channel to `peer` holds what the requests carry to `peer`, in order, and
/// there is one exactly where they carry something.
pub proof fn law_message_carries_requests<'a, T: Clone>(
    requests: Seq<SendRequest<'a, T>>,
    peer: usize,
)
    requires
        requests.len() <= usize::MAX,
    ensures
        forall|j: int|
            0 <= j < values_for(send_pairs(requests), peer).len() ==> #[trigger] values_for(
                send_pairs(requests),
                peer,
            )[j] < requests.len(),
        payloads_at(requests, values_for(send_pairs(requests), peer)) == sent_to(
            requests,
            peer as int,
        ),
    decreases requests.len(),
{
    let places = values_for(send_pairs(requests), peer);
    if requests.len() > 0 {
        let rest = requests.drop_last();
        law_message_carries_requests(rest, peer);
        assert(send_pairs(requests).drop_last() =~= send_pairs(rest));
        let before = values_for(send_pairs(rest), peer);
        assert(payloads_at(rest, before) =~= payloads_at(requests, before));
        if requests.last().to == peer {
            let last = (requests.len() - 1) as usize;
            assert(places == before.push(last));
            assert(payloads_at(requests, places) =~= payloads_at(requests, before).push(
                requests.last().payload(),
            ));
        }
    }
    assert(payloads_at(requests, places) =~= sent_to(requests, peer as int));
}

/// The values for a peer among the first pairs are the first values for it.
proof fn lemma_values_prefix<V>(pairs: Seq<(usize, V)>, peer: usize, n: int)
    requires
        0 <= n <= pairs.len(),
    ensures
        values_for(pairs.take(n), peer).len() <= values_for(pairs, peer).len(),
        values_for(pairs, peer).take(values_for(pairs.take(n), peer).len() as int) == values_for(
            pairs.take(n),
            peer,
        ),
    decreases pairs.len(),
{
    let short = values_for(pairs.take(n), peer);
    let long = values_for(pairs, peer);
    if n < pairs.len() {
        lemma_values_prefix(pairs.drop_last(), peer, n);
        assert(pairs.drop_last().take(n) =~= pairs.take(n));
        let most = values_for(pairs.drop_last(), peer);
        assert(long.take(short.len() as int) =~= most.take(short.len() as int));
    } else {
        assert(pairs.take(n) =~= pairs);
        assert(long.take(short.len() as int) =~= short);
    }
}

/// The batches of a channel are what its requests received, in order.
proof fn lemma_batches_in_order<C, T>(
    received: Seq<Received<C, T>>,
    requests: Seq<ReceiveRequest<T>>,
    results: Seq<Vec<T>>,
    k: int,
    n: int,
)
    requires
        requests.len() <= usize::MAX,
        answered(received, requests),
        all_delivered(received, requests, results),
        0 <= k < received.len(),
        0 <= n <= requests.len(),
    ensures
        ({
            let peer = received[k].plan.peer;
            let m = values_for(receive_pairs(requests).take(n), peer).len() as int;
            &&& m <= received[k].batches@.len()
            &&& received_from(requests.take(n), contents(results).take(n), peer as int) == join(
                contents(received[k].batches@).take(m),
            )
        }),
    decreases n,
{
    let plan = received[k].plan;
    let peer = plan.peer;
    let pairs = receive_pairs(requests);
    let batches = contents(received[k].batches@);
    let m = values_for(pairs.take(n), peer).len() as int;
    assert(plans_of(received)[k] == plan);
    lemma_values_prefix(pairs, peer, n);
    if n == 0 {
        assert(batches.take(m) =~= Seq::empty());
    } else {
        lemma_batches_in_order(received, requests, results, k, n - 1);
        assert(pairs.take(n).drop_last() =~= pairs.take(n - 1));
        assert(requests.take(n).drop_last() =~= requests.take(n - 1));
        assert(contents(results).take(n).drop_last() =~= contents(results).take(n - 1));
        let request = requests[n - 1];
        if request.from == peer {
            assert(values_for(pairs.take(n), peer)[m - 1] == ((n - 1) as usize, request.count));
            assert(plan.items@.take(m)[m - 1] == plan.items@[m - 1]);
            assert(delivered(received, results, k, m - 1));
            lemma_join_take(batches, m - 1);
        }
    }
}

/// What the requests of a party to `me` put into one message answers the requests of `me` to this
/// party: where the batches of its channel are the message, cut as the requests ask, the requests
/// receive, one after the other, what was sent, and each as many elements as it asked for.
pub proof fn law_message_answers_requests<'a, C, T: Clone>(
    sends: Seq<SendRequest<'a, T>>,
    me: usize,
    received: Seq<Received<C, T>>,
    requests: Seq<ReceiveRequest<T>>,
    results: Seq<Vec<T>>,
    k: int,
)
    requires
        sends.len() <= usize::MAX,
        requests.len() <= usize::MAX,
        answered(received, requests),
        all_delivered(received, requests, results),
        0 <= k < received.len(),
        join(contents(received[k].batches@)) == payloads_at(
            sends,
            values_for(send_pairs(sends), me),
        ),
        as_wanted(received[k].plan.items@, received[k].batches@),
    ensures
        received_from(requests, contents(results), received[k].plan.peer as int) == sent_to(
            sends,
            me as int,
        ),
        forall|i: int|
            0 <= i < requests.len() && (#[trigger] requests[i]).from == received[k].plan.peer
                ==> requests[i].admits(results[i]@.len()),
{
    let n = requests.len() as int;
    let plan = received[k].plan;
    let pairs = receive_pairs(requests);
    let batches = contents(received[k].batches@);
    law_message_carries_requests(sends, me);
    lemma_batches_in_order(received, requests, results, k, n);
    assert(pairs.take(n) =~= pairs);
    assert(requests.take(n) =~= requests);
    assert(contents(results).take(n) =~= contents(results));
    assert(plans_of(received)[k] == plan);
    assert(batches.take(batches.len() as int) =~= batches);
    assert forall|i: int|
        0 <= i < requests.len() && (#[trigger] requests[i]).from == plan.peer implies requests[i].admits(
        results[i]@.len(),
    ) by {
        lemma_values_for_receive(requests, plan.peer, n);
        let values = values_for(pairs, plan.peer);
        let j = values.index_of((i as usize, requests[i].count));
        assert(delivered(received, results, k, j));
        assert(received[k].batches@[j]@.len() == wanted_len(plan.items@[j].1));
    }
}

/// What all parties send answers the requests of `me`, where it reads one message from each party
/// that it asks for something, cuts each as its requests ask, and no other party sends to it.
pub proof fn law_messages_bring_what_was_sent<'a, C, T: Clone>(
    sends: Seq<Seq<SendRequest<'a, T>>>,
    me: usize,
    received: Seq<Received<C, T>>,
    requests: Seq<ReceiveRequest<T>>,
    results: Seq<Vec<T>>,
)
    requires
        requests.len() <= usize::MAX,
        sends.len() <= usize::MAX,
        forall|f: int| 0 <= f < sends.len() ==> (#[trigger] sends[f]).len() <= usize::MAX,
        answered(received, requests),
        all_delivered(received, requests, results),
        forall|k: int|
            0 <= k < received.len() ==> (#[trigger] received[k]).plan.peer < sends.len() && join(
                contents(received[k].batches@),
            ) == payloads_at(
                sends[received[k].plan.peer as int],
                values_for(send_pairs(sends[received[k].plan.peer as int]), me),
            ) && as_wanted(received[k].plan.items@, received[k].batches@),
        forall|f: int|
            0 <= f < sends.len() && sent_to(#[trigger] sends[f], me as int).len() > 0 ==> planned(
                plans_of(received),
                f,
            ),
    ensures
        forall|f: int|
            0 <= f < sends.len() ==> sent_to(#[trigger] sends[f], me as int) == received_from(
                requests,
                contents(results),
                f,
            ),
        forall|i: int|
            0 <= i < requests.len() ==> (#[trigger] requests[i]).admits(results[i]@.len()),
{
    let plans = plans_of(received);
    assert forall|f: int| 0 <= f < sends.len() implies sent_to(#[trigger] sends[f], me as int)
        == received_from(requests, contents(results), f) by {
        if planned(plans, f) {
            let k = choose|k: int| 0 <= k < plans.len() && (#[trigger] plans[k]).peer == f;
            assert(plans[k] == received[k].plan);
            law_message_answers_requests(sends[f], me, received, requests, results, k);
        } else {
            assert forall|i: int| 0 <= i < requests.len() implies (#[trigger] requests[i]).from
                != f by {
                if requests[i].from == f {
                    lemma_items(received, requests);
                    assert(stood_for(received, i));
                    let (k, j) = choose|k: int, j: int| #[trigger] stands_for(received, k, j, i);
                    assert(requests[received[k].plan.items@[j].0 as int].from
                        == received[k].plan.peer);
                    assert(plans[k].peer == f);
                }
            }
            lemma_received_from_none(requests, contents(results), f);
            assert(sent_to(sends[f], me as int) =~= received_from(
                requests,
                contents(results),
                f,
            ));
        }
    }
    assert forall|i: int| 0 <= i < requests.len() implies (#[trigger] requests[i]).admits(
        results[i]@.len(),
    ) by {
        lemma_items(received, requests);
        assert(stood_for(received, i));
        let (k, j) = choose|k: int, j: int| #[trigger] stands_for(received, k, j, i);
        assert(requests[received[k].plan.items@[j].0 as int].from == received[k].plan.peer);
        let f = received[k].plan.peer as int;
        law_message_answers_requests(sends[f], me, received, requests, results, k);
    }
}

} // verus!

verus! {

/// The mesh of one party while its connections are made.
pub struct MeshBuilder<C> {
    my_id: usize,
    connections: Vec<Option<C>>,
}

/// Why a connection of a peer is refused.
#[derive(Debug, Copy, Clone, PartialEq, Eq, Structural)]
pub enum ConnectionError {
    /// The peer is connected already.
    Duplicate { my_id: usize, peer: usize },
    /// The peer should have waited to be connected to.
    Unexpected { my_id: usize, peer: usize },
}

impl ConnectionError {
    /// The error in words.
    pub open spec fn words(self) -> Seq<char> {
        match self {
            ConnectionError::Duplicate { my_id, peer } => "Node "@ + decimal(my_id as nat)
                + ": Duplicate connection from Node "@ + decimal(peer as nat),
            ConnectionError::Unexpected { my_id, peer } => "Node "@ + decimal(my_id as nat)
                + ": Did not expect connection from Node "@ + decimal(peer as nat),
        }
    }

    /// The error in words.
    pub fn message(&self) -> (text: String)
        ensures
            text@ == self.words(),
    {
        let (before, peer) = match self {
            ConnectionError::Duplicate { my_id, peer } => (
                with_number("Node ", *my_id, ": Duplicate connection from Node "),
                *peer,
            ),
            ConnectionError::Unexpected { my_id, peer } => (
                with_number("Node ", *my_id, ": Did not expect connection from Node "),
                *peer,
            ),
        };
        let text = with_number(before.as_str(), peer, "");
        proof {
            reveal_strlit("");
        }
        assert(text@ =~= self.words());
        text
    }
}

/// How many of the places from `from` on are taken.
pub open spec fn taken_from<C>(links: Seq<Option<C>>, from: int) -> nat
    decreases links.len(),
{
    if links.len() == 0 || links.len() <= from {
        0
    } else {
        taken_from(links.drop_last(), from) + if links.last() is Some {
            1nat
        } else {
            0nat
        }
    }
}

/// The bytes by which a party tells who it is when it connects.
pub open spec fn announcement_of(id: usize) -> Seq<u8> {
    big_endian(id as int, 8)
}

/// The bytes by which a party tells who it is when it connects.
pub fn announcement(my_id: usize) -> (bytes: Vec<u8>)
    ensures
        bytes@ == announcement_of(my_id),
{
    to_big_endian(my_id as u64, 8)
}

/// The party that a connecting peer says it is.
///
/// What a party announces names this party.
pub fn announced_peer(bytes: &[u8; 8]) -> (peer: usize)
    ensures
        peer == from_big_endian(bytes@) as usize,
        forall|id: usize| bytes@ == #[trigger] announcement_of(id) ==> peer == id,
{
    proof {
        lemma_capacity();
        assert forall|id: usize| bytes@ == #[trigger] announcement_of(id) implies from_big_endian(
            bytes@,
        ) == id by {
            law_big_endian_round_trip(id as int, 8);
        }
    }
    read_big_endian(bytes) as usize
}

impl<C> MeshBuilder<C> {
    /// The party.
    pub closed spec fn id(&self) -> usize {
        self.my_id
    }

    /// The connections that are made.
    pub closed spec fn links(&self) -> Seq<Option<C>> {
        self.connections@
    }

    /// Whether the party is one of all.
    pub open spec fn well_formed(&self) -> bool {
        self.id() < self.links().len()
    }

    /// The mesh of the party of a roster, without connections.
    pub fn new(roster: &Roster) -> (builder: Self)
        requires
            roster.well_formed(),
        ensures
            builder.well_formed(),
            builder.id() == roster.id(),
            builder.links().len() == roster.keys().len(),
            forall|peer: int|
                0 <= peer < roster.keys().len() ==> #[trigger] builder.links()[peer] is None,
            taken_from(builder.links(), roster.id() as int) == 0,
    {
        let my_id = roster.my_id();
        let n_parties = roster.n_parties();
        let mut connections: Vec<Option<C>> = Vec::new();
        while connections.len() < n_parties
            invariant
                connections@.len() <= n_parties,
                forall|peer: int|
                    0 <= peer < connections@.len() ==> #[trigger] connections@[peer] is None,
                taken_from(connections@, my_id as int) == 0,
            decreases n_parties - connections@.len(),
        {
            let ghost before = connections@;
            connections.push(None);
            assert(connections@.drop_last() =~= before);
        }
        MeshBuilder { my_id, connections }
    }

    /// How many parties connect to this one: those after it.
    pub fn expected_incoming(&self) -> (n: usize)
        requires
            self.well_formed(),
        ensures
            n == self.links().len() - 1 - self.id(),
    {
        self.connections.len() - 1 - self.my_id
    }

    /// Whether the connection to `peer` is made.
    pub fn is_connected(&self, peer: usize) -> (b: bool)
        requires
            peer < self.links().len(),
        ensures
            b == (self.links()[peer as int] is Some),
    {
        self.connections[peer].is_some()
    }

    /// Takes the connection of a peer that has connected to this party, in the place of the party
    /// whose key was checked.
    pub fn accept(&mut self, place: Place, channel: C) -> (r: Result<(), ConnectionError>)
        requires
            old(self).well_formed(),
            place.peer() < old(self).links().len(),
        ensures
            final(self).well_formed(),
            final(self).id() == old(self).id(),
            final(self).links() == old(self).links().update(place.peer() as int, Some(channel)),
            match r {
                Ok(_) => {
                    &&& old(self).links()[place.peer() as int] is None
                    &&& place.peer() >= old(self).id()
                },
                Err(ConnectionError::Duplicate { my_id, peer: named }) => {
                    &&& old(self).links()[place.peer() as int] is Some
                    &&& my_id == old(self).id()
                    &&& named == place.peer()
                },
                Err(ConnectionError::Unexpected { my_id, peer: named }) => {
                    &&& old(self).links()[place.peer() as int] is None
                    &&& place.peer() < old(self).id()
                    &&& my_id == old(self).id()
                    &&& named == place.peer()
                },
            },
            r is Ok ==> taken_from(final(self).links(), old(self).id() as int) == taken_from(
                old(self).links(),
                old(self).id() as int,
            ) + 1,
    {
        let peer = place.index();
        let known = self.connections[peer].is_some();
        let ghost before = self.links();
        self.connections.set(peer, Some(channel));
        if known {
            return Err(ConnectionError::Duplicate { my_id: self.my_id, peer });
        }
        if peer < self.my_id {
            return Err(ConnectionError::Unexpected { my_id: self.my_id, peer });
        }
        proof {
            lemma_taken_update(before, self.id() as int, peer as int, channel);
        }
        Ok(())
    }

    /// Takes a connection that this party has made, in the place of the party whose key was
    /// checked.
    pub fn connect(&mut self, place: Place, channel: C)
        requires
            old(self).well_formed(),
            place.peer() < old(self).id(),
            old(self).links()[place.peer() as int] is None,
        ensures
            final(self).well_formed(),
            final(self).id() == old(self).id(),
            final(self).links() == old(self).links().update(place.peer() as int, Some(channel)),
            taken_from(final(self).links(), old(self).id() as int) == taken_from(
                old(self).links(),
                old(self).id() as int,
            ),
    {
        let target = place.index();
        let ghost before = self.links();
        self.connections.set(target, Some(channel));
        proof {
            lemma_taken_below(before, self.id() as int, target as int, channel);
        }
    }

    /// The network with the connections that were made.
    pub fn finish(self) -> (network: MeshNetwork<C>)
        requires
            self.well_formed(),
        ensures
            network.well_formed(),
            network.id() == self.id(),
            network.parties() == self.links().len(),
            network.links() == self.links(),
    {
        MeshNetwork {
            my_id: self.my_id,
            n_parties: self.connections.len(),
            channels: self.connections,
        }
    }
}

/// A place that is taken counts once.
proof fn lemma_taken_update<C>(links: Seq<Option<C>>, from: int, place: int, channel: C)
    requires
        0 <= from <= place < links.len(),
        links[place] is None,
    ensures
        taken_from(links.update(place, Some(channel)), from) == taken_from(links, from) + 1,
    decreases links.len(),
{
    let after = links.update(place, Some(channel));
    if place == links.len() - 1 {
        assert(after.drop_last() =~= links.drop_last());
    } else {
        lemma_taken_update(links.drop_last(), from, place, channel);
        assert(after.drop_last() =~= links.drop_last().update(place, Some(channel)));
    }
}

/// A place before the others does not count.
proof fn lemma_taken_below<C>(links: Seq<Option<C>>, from: int, place: int, channel: C)
    requires
        0 <= place < from,
        place < links.len(),
    ensures
        taken_from(links.update(place, Some(channel)), from) == taken_from(links, from),
    decreases links.len(),
{
    let after = links.update(place, Some(channel));
    if from < links.len() {
        lemma_taken_below(links.drop_last(), from, place, channel);
        assert(after.drop_last() =~= links.drop_last().update(place, Some(channel)));
    }
}

/// Where one place is empty and all but one are taken, the others are taken.
proof fn lemma_taken_all<C>(links: Seq<Option<C>>, from: int, empty: int, peer: int)
    requires
        0 <= from <= empty < links.len(),
        links[empty] is None,
        taken_from(links, from) == links.len() - from - 1,
        from <= peer < links.len(),
        peer != empty,
    ensures
        links[peer] is Some,
    decreases links.len(),
{
    let rest = links.drop_last();
    lemma_taken_bound(rest, from);
    if empty == links.len() - 1 {
        lemma_taken_full(rest, from, peer);
    } else {
        lemma_taken_bound_with_empty(rest, from, empty);
        if peer < links.len() - 1 {
            lemma_taken_all(rest, from, empty, peer);
        }
    }
}

/// No more places are taken than there are.
proof fn lemma_taken_bound<C>(links: Seq<Option<C>>, from: int)
    requires
        0 <= from,
    ensures
        taken_from(links, from) <= if from < links.len() {
            links.len() - from
        } else {
            0
        },
    decreases links.len(),
{
    if from < links.len() {
        lemma_taken_bound(links.drop_last(), from);
    }
}

/// An empty place is not taken.
proof fn lemma_taken_bound_with_empty<C>(links: Seq<Option<C>>, from: int, empty: int)
    requires
        0 <= from <= empty < links.len(),
        links[empty] is None,
    ensures
        taken_from(links, from) <= links.len() - from - 1,
    decreases links.len(),
{
    lemma_taken_bound(links.drop_last(), from);
    if empty < links.len() - 1 {
        lemma_taken_bound_with_empty(links.drop_last(), from, empty);
    }
}

/// Where as many places are taken as there are, each is.
proof fn lemma_taken_full<C>(links: Seq<Option<C>>, from: int, peer: int)
    requires
        0 <= from <= peer < links.len(),
        taken_from(links, from) == links.len() - from,
    ensures
        links[peer] is Some,
    decreases links.len(),
{
    lemma_taken_bound(links.drop_last(), from);
    if peer < links.len() - 1 {
        lemma_taken_full(links.drop_last(), from, peer);
    }
}

/// A mesh has a channel to each other party once it has accepted as many peers as it expects, none
/// of which took the place of the party itself, and has connected to all parties before it.
pub proof fn law_mesh_becomes_complete<C>(builder: MeshBuilder<C>, network: MeshNetwork<C>)
    requires
        builder.well_formed(),
        network.id() == builder.id(),
        network.parties() == builder.links().len(),
        network.links() == builder.links(),
        builder.links()[builder.id() as int] is None,
        taken_from(builder.links(), builder.id() as int) == builder.links().len() - 1
            - builder.id(),
        forall|target: int|
            0 <= target < builder.id() ==> #[trigger] builder.links()[target] is Some,
    ensures
        network.complete(),
{
    assert forall|peer: int| 0 <= peer < network.parties() && peer != network.id() implies
        #[trigger] network.has(peer) by {
        if peer > builder.id() {
            lemma_taken_all(builder.links(), builder.id() as int, builder.id() as int, peer);
        } else {
            assert(builder.links()[peer] is Some);
        }
    }
}

} // verus!
