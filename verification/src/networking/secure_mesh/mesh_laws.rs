//! How requests share the channels of a mesh, and what parties announce.

use vstd::prelude::*;

use crate::networking::network::{wanted_len, ReceiveRequest, SendRequest};
use crate::networking::secure_mesh::bytes::{
    from_big_endian, law_big_endian_round_trip, lemma_capacity,
};
use crate::networking::secure_mesh::mesh_network::{
    announcement_of, answered, lemma_values_for_receive, payloads_at, plan_outcome, planned,
    plans_of, receive_pairs, send_pairs, serves, taken_from, vacant, values_for, wanted_total,
    ChannelError, ConnectionError, MeshNetwork, Plan, Received, Wanted,
};
use crate::networking::secure_mesh::roster::spec_role;
use crate::networking::secure_mesh::secure_stream::ConnectionRole;
use crate::text::decimal;

verus! {

/// The values for a peer are those that are paired with it, in order.
pub proof fn law_values_are_grouped_in_order<V>(
    a: Seq<(usize, V)>,
    b: Seq<(usize, V)>,
    pair: (usize, V),
    peer: usize,
)
    ensures
        values_for(Seq::<(usize, V)>::empty(), peer) == Seq::<V>::empty(),
        pair.0 == peer ==> values_for(seq![pair], peer) == seq![pair.1],
        pair.0 != peer ==> values_for(seq![pair], peer) == Seq::<V>::empty(),
        values_for(a + b, peer) == values_for(a, peer) + values_for(b, peer),
    decreases b.len(),
{
    let one = seq![pair];
    assert(one.drop_last() =~= Seq::empty());
    assert(one.last() == pair);
    assert(values_for(one.drop_last(), peer) =~= Seq::empty());
    if pair.0 == peer {
        assert(values_for(one, peer) =~= seq![pair.1]);
    }
    if b.len() == 0 {
        assert(a + b =~= a);
        assert(values_for(a, peer) + values_for(b, peer) =~= values_for(a, peer));
    } else {
        law_values_are_grouped_in_order(a, b.drop_last(), pair, peer);
        assert((a + b).drop_last() =~= a + b.drop_last());
        assert(values_for(a + b, peer) =~= values_for(a, peer) + values_for(b, peer));
    }
}

/// Each request is listed with its peer, its place, and, where it receives, its count.
pub proof fn law_requests_are_listed_with_their_places<'a, T: Clone>(
    receives: Seq<ReceiveRequest<T>>,
    sends: Seq<SendRequest<'a, T>>,
    i: int,
)
    ensures
        receive_pairs(receives).len() == receives.len(),
        send_pairs(sends).len() == sends.len(),
        0 <= i < receives.len() ==> {
            &&& receive_pairs(receives)[i].0 == receives[i].from
            &&& receive_pairs(receives)[i].1.0 == i as usize
            &&& receive_pairs(receives)[i].1.1 == receives[i].count
        },
        0 <= i < sends.len() ==> {
            &&& send_pairs(sends)[i].0 == sends[i].to
            &&& send_pairs(sends)[i].1 == i as usize
        },
{
}

/// What items ask for adds up.
pub proof fn law_wanted_totals_add_up(a: Seq<Wanted>, b: Seq<Wanted>, item: Wanted)
    ensures
        wanted_total(Seq::<Wanted>::empty()) == 0,
        wanted_total(seq![item]) == match item.1 {
            Some(count) => count as nat,
            None => 0nat,
        },
        wanted_total(a + b) == wanted_total(a) + wanted_total(b),
    decreases b.len(),
{
    assert(seq![item].drop_last() =~= Seq::empty());
    assert(seq![item].last() == item);
    assert(wanted_total(Seq::<Wanted>::empty()) == 0);
    assert(wanted_len(item.1) == match item.1 {
        Some(count) => count as nat,
        None => 0nat,
    });
    if b.len() == 0 {
        assert(a + b =~= a);
    } else {
        law_wanted_totals_add_up(a, b.drop_last(), item);
        assert((a + b).drop_last() =~= a + b.drop_last());
    }
}

/// Where there is a channel to each peer that is asked, every request stands in the plan of its
/// peer, with the channel to it; the requests of a plan are those of its peer, in order.
pub proof fn law_receive_plans_hold_every_request<C, T>(
    before: MeshNetwork<C>,
    requests: Seq<ReceiveRequest<T>>,
    r: Result<Vec<Plan<C, Wanted>>, ChannelError>,
    after: MeshNetwork<C>,
    i: int,
)
    requires
        requests.len() <= usize::MAX,
        plan_outcome(before, receive_pairs(requests), r, after),
        0 <= i < requests.len(),
    ensures
        (forall|j: int|
            0 <= j < requests.len() ==> (#[trigger] requests[j]).from < before.links().len()
                && before.links()[requests[j].from as int] is Some) ==> r is Ok,
        r matches Ok(plans) ==> exists|k: int|
            0 <= k < plans@.len() && (#[trigger] plans@[k]).peer == requests[i].from
                && plans@[k].items@.contains((i as usize, requests[i].count))
                && before.links()[plans@[k].peer as int] == Some(plans@[k].channel)
                && after.links()[plans@[k].peer as int] is None,
        r matches Ok(plans) ==> forall|k: int, a: int, b: int|
            0 <= k < plans@.len() && 0 <= a < b < plans@[k].items@.len() ==> (
            #[trigger] plans@[k].items@[a]).0 < (#[trigger] plans@[k].items@[b]).0,
        r matches Ok(plans) ==> forall|k: int, a: int|
            0 <= k < plans@.len() && 0 <= a < plans@[k].items@.len() ==> {
                let item = #[trigger] plans@[k].items@[a];
                &&& item.0 < requests.len()
                &&& requests[item.0 as int].from == plans@[k].peer
                &&& item.1 == requests[item.0 as int].count
            },
{
    let pairs = receive_pairs(requests);
    let n = requests.len() as int;
    assert(pairs.take(n) =~= pairs);
    match r {
        Ok(plans) => {
            let peer = requests[i].from;
            lemma_values_for_receive(requests, peer, n);
            let values = values_for(pairs, peer);
            assert(values.contains((i as usize, requests[i].count)));
            assert(values.len() > 0);
            let k = choose|k: int| 0 <= k < plans@.len() && (#[trigger] plans@[k]).peer == peer;
            assert(planned(plans@, peer as int));
            assert(plans@[k].peer == peer);
            assert forall|k: int, a: int, b: int|
                0 <= k < plans@.len() && 0 <= a < b < plans@[k].items@.len() implies (
            #[trigger] plans@[k].items@[a]).0 < (#[trigger] plans@[k].items@[b]).0 by {
                lemma_values_for_receive(requests, plans@[k].peer, n);
            }
            assert forall|k: int, a: int|
                0 <= k < plans@.len() && 0 <= a < plans@[k].items@.len() implies ({
                let item = #[trigger] plans@[k].items@[a];
                &&& item.0 < requests.len()
                &&& requests[item.0 as int].from == plans@[k].peer
                &&& item.1 == requests[item.0 as int].count
            }) by {
                lemma_values_for_receive(requests, plans@[k].peer, n);
            }
        },
        Err(ChannelError::Unavailable { peer }) => {
            lemma_values_for_receive(requests, peer, n);
            let values = values_for(pairs, peer);
            assert(requests[values[0].0 as int].from == peer);
        },
        Err(_) => {},
    }
}

/// The message of a channel holds the payloads at the given places, in order.
pub proof fn law_payloads_are_picked_by_place<'a, T: Clone>(
    requests: Seq<SendRequest<'a, T>>,
    places: Seq<usize>,
    j: int,
)
    ensures
        payloads_at(requests, places).len() == places.len(),
        0 <= j < places.len() ==> payloads_at(requests, places)[j]
            == requests[places[j] as int].payload(),
{
}

/// There is a channel to a party exactly where its place is taken; a mesh is complete where there
/// is one to each party but the own one.
pub proof fn law_channels_stand_in_their_places<C>(network: MeshNetwork<C>, peer: int)
    ensures
        network.has(peer) <==> 0 <= peer < network.links().len() && network.links()[peer] is Some,
        network.complete() && 0 <= peer < network.parties() && peer != network.id()
            ==> network.has(peer),
        (forall|q: int|
            0 <= q < network.parties() && q != network.id() ==> 0 <= q < network.links().len()
                && (#[trigger] network.links()[q]) is Some) ==> network.complete(),
{
    if forall|q: int|
        0 <= q < network.parties() && q != network.id() ==> 0 <= q < network.links().len() && (
        #[trigger] network.links()[q]) is Some {
        assert forall|q: int| 0 <= q < network.parties() && q != network.id() implies
            #[trigger] network.has(q) by {
            assert(network.links()[q] is Some);
        }
    }
}

/// A place counts as taken exactly where it is not before the others and holds a connection.
pub proof fn law_taken_places_count_once<C>(links: Seq<Option<C>>, link: Option<C>, from: int)
    requires
        0 <= from,
    ensures
        taken_from(Seq::<Option<C>>::empty(), from) == 0,
        taken_from(links.push(link), from) == taken_from(links, from) + if link is Some
            && from <= links.len() {
            1nat
        } else {
            0nat
        },
{
    assert(links.push(link).drop_last() =~= links);
    if links.len() < from {
        lemma_none_taken(links, from);
    }
}

proof fn lemma_none_taken<C>(links: Seq<Option<C>>, from: int)
    requires
        links.len() <= from,
    ensures
        taken_from(links, from) == 0,
{
}

/// What a party announces is its number, in eight bytes.
pub proof fn law_announcement_is_the_number(id: usize)
    ensures
        announcement_of(id).len() == 8,
        from_big_endian(announcement_of(id)) == id,
{
    lemma_capacity();
    law_big_endian_round_trip(id as int, 8);
}

/// A party connects to those before it, and listens for those after it.
pub proof fn law_later_party_connects(my_id: int, peer: int)
    ensures
        spec_role(my_id, peer) == ConnectionRole::Initiator <==> peer < my_id,
        spec_role(my_id, peer) == ConnectionRole::Listener <==> peer >= my_id,
{
}

/// The words of an error about a channel name the party.
pub proof fn law_words_about_channels(party: usize)
    ensures
        (ChannelError::InvalidPartyId).words() == "Invalid Party ID"@,
        (ChannelError::NotConnected { target: party }).words() == "No connection to Node "@
            + decimal(party as nat) + " (or target is self)"@,
        (ChannelError::Unavailable { peer: party }).words() == "Channel "@ + decimal(party as nat)
            + " unavailable or in use"@,
{
}

/// The words of an error about a connection name both parties.
pub proof fn law_words_about_connections(my_id: usize, peer: usize)
    ensures
        (ConnectionError::Duplicate { my_id, peer }).words() == "Node "@ + decimal(my_id as nat)
            + ": Duplicate connection from Node "@ + decimal(peer as nat),
        (ConnectionError::Unexpected { my_id, peer }).words() == "Node "@ + decimal(my_id as nat)
            + ": Did not expect connection from Node "@ + decimal(peer as nat),
{
}

/// A network holds channels where it belongs to the same party and has exactly these.
pub proof fn law_networks_hold_their_channels<C>(
    network: MeshNetwork<C>,
    other: MeshNetwork<C>,
    links: Seq<Option<C>>,
)
    ensures
        network.holds(other, links) <==> network.id() == other.id() && network.parties()
            == other.parties() && network.links() == links,
{
}

/// Requests are answered where the plans serve them and each plan has a batch for each of its
/// requests; plans are vacant where they are for different parties whose places are empty.
pub proof fn law_served_requests_are_answered<C, T>(
    received: Seq<Received<C, T>>,
    requests: Seq<ReceiveRequest<T>>,
    links: Seq<Option<C>>,
)
    ensures
        answered(received, requests) <==> serves(plans_of(received), receive_pairs(requests))
            && forall|k: int|
            0 <= k < received.len() ==> (#[trigger] received[k]).batches@.len()
                == received[k].plan.items@.len(),
        vacant(links, plans_of(received)) <==> (forall|i: int, j: int|
            0 <= i < j < received.len() ==> (#[trigger] received[i]).plan.peer != (
            #[trigger] received[j]).plan.peer) && (forall|i: int|
            0 <= i < received.len() ==> (#[trigger] received[i]).plan.peer < links.len()
                && links[received[i].plan.peer as int] is None),
{
    let plans = plans_of(received);
    assert forall|i: int| 0 <= i < received.len() implies #[trigger] plans[i]
        == received[i].plan by {}
    if vacant(links, plans) {
        assert forall|i: int, j: int| 0 <= i < j < received.len() implies (
        #[trigger] received[i]).plan.peer != (#[trigger] received[j]).plan.peer by {
            assert(plans[i].peer != plans[j].peer);
        }
        assert forall|i: int| 0 <= i < received.len() implies (#[trigger] received[i]).plan.peer
            < links.len() && links[received[i].plan.peer as int] is None by {
            assert(plans[i].peer < links.len());
        }
    }
}

} // verus!
