//! Requests that a party hands to its network, and the checks on what comes back.

use std::borrow::Cow;
use std::marker::PhantomData;

use vstd::prelude::*;
use vstd::string::*;

use crate::text::{decimal, with_number};

verus! {

/// The number of bytes sent over the network.
pub type SendLen = usize;

/// The number of bytes received over the network.
pub type RecvLen = usize;

/// A directive to receive objects from a participant of the network.
pub struct ReceiveRequest<T> {
    /// The identifier of the source node.
    pub from: usize,
    /// The expected number of elements, or `None` if it is zero.
    pub count: Option<usize>,
    /// The element type of the batch.
    pub phantom: PhantomData<T>,
}

/// The count that a request for `count` elements carries.
pub open spec fn expected_count(count: usize) -> Option<usize> {
    if count == 0 {
        None
    } else {
        Some(count)
    }
}

impl<T> ReceiveRequest<T> {
    /// A request for exactly `count` elements from the node `from`.
    pub fn new(from: usize, count: usize) -> (r: Self)
        ensures
            r.from == from,
            r.count == expected_count(count),
            r.len() == count,
    {
        ReceiveRequest {
            from,
            count: if count == 0 { None } else { Some(count) },
            phantom: PhantomData,
        }
    }

    /// How many elements the request asks for.
    pub open spec fn len(&self) -> nat {
        wanted_len(self.count)
    }

    /// Whether a batch of `len` elements is what this request asked for.
    pub open spec fn admits(&self, len: nat) -> bool {
        len == self.len()
    }

    /// Checks that a batch of `received` elements is what this request asked for.
    pub fn check(&self, received: usize) -> (r: Result<(), CountMismatch>)
        ensures
            r is Ok <==> self.admits(received as nat),
            r matches Err(m) ==> m.received == received && m.expected == self.len(),
    {
        let expected: usize = match self.count {
            Some(count) => count,
            None => 0,
        };
        check_count(received, Some(expected))
    }
}

/// How many elements a count asks for.
pub open spec fn wanted_len(count: Option<usize>) -> nat {
    match count {
        Some(count) => count as nat,
        None => 0,
    }
}

/// A batch that does not have as many elements as were expected.
#[derive(Debug, Copy, Clone, PartialEq, Eq, Structural)]
pub struct CountMismatch {
    /// How many elements the batch has.
    pub received: usize,
    /// How many it should have.
    pub expected: usize,
}

impl CountMismatch {
    /// The error in words.
    pub open spec fn words(self) -> Seq<char> {
        "Batch size mismatch. Expected "@ + decimal(self.expected as nat) + ", got "@ + decimal(
            self.received as nat,
        )
    }

    /// The error in words.
    pub fn message(&self) -> (s: String)
        ensures
            s@ == self.words(),
    {
        let s = with_number("Batch size mismatch. Expected ", self.expected, ", got ");
        let s = with_number(s.as_str(), self.received, "");
        proof {
            reveal_strlit("");
        }
        assert(s@ =~= self.words());
        s
    }
}

/// Checks that a batch of `received` elements is as long as expected, where that is known.
pub fn check_count(received: usize, expected: Option<usize>) -> (r: Result<(), CountMismatch>)
    ensures
        match expected {
            Some(expected) => if received == expected {
                r is Ok
            } else {
                r == Err::<(), CountMismatch>(CountMismatch { received, expected })
            },
            None => r is Ok,
        },
{
    match expected {
        Some(expected) => {
            if received != expected {
                return Err(CountMismatch { received, expected });
            }
        },
        None => {},
    }
    Ok(())
}

/// A directive to transmit an object to a participant of the network.
#[verifier::reject_recursive_types(T)]
pub struct SendRequest<'a, T: Clone> {
    /// The identifier of the destination node.
    pub to: usize,
    /// The payload, owned or borrowed.
    pub data: Cow<'a, T>,
}

impl<'a, T: Clone> SendRequest<'a, T> {
    /// The object that the request carries, owned or borrowed.
    pub open spec fn payload(&self) -> T {
        match self.data {
            Cow::Borrowed(data) => *data,
            Cow::Owned(data) => data,
        }
    }

    /// A request that owns its payload.
    pub fn new(to: usize, data: T) -> (r: Self)
        ensures
            r.to == to,
            r.data == Cow::<'a, T>::Owned(data),
            r.payload() == data,
    {
        SendRequest { to, data: Cow::Owned(data) }
    }

    /// A request that borrows its payload.
    pub fn from_ref(to: usize, data: &'a T) -> (r: Self)
        ensures
            r.to == to,
            r.data == Cow::<'a, T>::Borrowed(data),
            r.payload() == *data,
    {
        SendRequest { to, data: Cow::Borrowed(data) }
    }

    /// The object that the request carries.
    pub fn data_ref(&self) -> (data: &T)
        ensures
            *data == self.payload(),
    {
        match &self.data {
            Cow::Borrowed(data) => *data,
            Cow::Owned(data) => data,
        }
    }
}

/// What the requests carry to the party `to`, in order.
pub open spec fn sent_to<'a, T: Clone>(requests: Seq<SendRequest<'a, T>>, to: int) -> Seq<T>
    decreases requests.len(),
{
    if requests.len() == 0 {
        Seq::empty()
    } else {
        let before = sent_to(requests.drop_last(), to);
        if requests.last().to == to {
            before.push(requests.last().payload())
        } else {
            before
        }
    }
}

/// What the batches bring for the requests to the party `from`, one batch after the other.
pub open spec fn received_from<T>(
    requests: Seq<ReceiveRequest<T>>,
    data: Seq<Seq<T>>,
    from: int,
) -> Seq<T>
    decreases requests.len(),
{
    if requests.len() == 0 {
        Seq::empty()
    } else {
        let before = received_from(requests.drop_last(), data.drop_last(), from);
        if requests.last().from == from {
            before + data.last()
        } else {
            before
        }
    }
}

/// What further requests carry comes behind.
pub proof fn lemma_sent_to_add<'a, T: Clone>(
    a: Seq<SendRequest<'a, T>>,
    b: Seq<SendRequest<'a, T>>,
    to: int,
)
    ensures
        sent_to(a + b, to) == sent_to(a, to) + sent_to(b, to),
    decreases b.len(),
{
    if b.len() == 0 {
        assert(a + b =~= a);
        assert(sent_to(a, to) + sent_to(b, to) =~= sent_to(a, to));
    } else {
        lemma_sent_to_add(a, b.drop_last(), to);
        assert((a + b).drop_last() =~= a + b.drop_last());
        assert(sent_to(a + b, to) =~= sent_to(a, to) + sent_to(b, to));
    }
}

/// What further requests receive comes behind.
pub proof fn lemma_received_from_add<T>(
    a: (Seq<ReceiveRequest<T>>, Seq<Seq<T>>),
    b: (Seq<ReceiveRequest<T>>, Seq<Seq<T>>),
    from: int,
)
    requires
        a.0.len() == a.1.len(),
        b.0.len() == b.1.len(),
    ensures
        received_from(a.0 + b.0, a.1 + b.1, from) == received_from(a.0, a.1, from) + received_from(
            b.0,
            b.1,
            from,
        ),
    decreases b.0.len(),
{
    let both = received_from(a.0, a.1, from) + received_from(b.0, b.1, from);
    if b.0.len() == 0 {
        assert(a.0 + b.0 =~= a.0);
        assert(a.1 + b.1 =~= a.1);
        assert(both =~= received_from(a.0, a.1, from));
    } else {
        lemma_received_from_add(a, (b.0.drop_last(), b.1.drop_last()), from);
        assert((a.0 + b.0).drop_last() =~= a.0 + b.0.drop_last());
        assert((a.1 + b.1).drop_last() =~= a.1 + b.1.drop_last());
        assert(received_from(a.0 + b.0, a.1 + b.1, from) =~= both);
    }
}

/// Requests to others carry nothing.
pub proof fn lemma_sent_to_none<'a, T: Clone>(requests: Seq<SendRequest<'a, T>>, to: int)
    requires
        forall|i: int| 0 <= i < requests.len() ==> (#[trigger] requests[i]).to != to,
    ensures
        sent_to(requests, to).len() == 0,
    decreases requests.len(),
{
    if requests.len() > 0 {
        lemma_sent_to_none(requests.drop_last(), to);
    }
}

/// The only request to a party carries what there is for it.
pub proof fn lemma_sent_to_one<'a, T: Clone>(requests: Seq<SendRequest<'a, T>>, k: int)
    requires
        0 <= k < requests.len(),
        forall|i: int|
            0 <= i < requests.len() && i != k ==> (#[trigger] requests[i]).to != requests[k].to,
    ensures
        sent_to(requests, requests[k].to as int) == seq![requests[k].payload()],
    decreases requests.len(),
{
    let rest = requests.drop_last();
    let to = requests[k].to as int;
    if k == requests.len() - 1 {
        lemma_sent_to_none(rest, to);
    } else {
        lemma_sent_to_one(rest, k);
        assert(requests[requests.len() - 1].to != to);
    }
    assert(sent_to(requests, to) =~= seq![requests[k].payload()]);
}

/// Requests to others receive nothing.
pub proof fn lemma_received_from_none<T>(
    requests: Seq<ReceiveRequest<T>>,
    data: Seq<Seq<T>>,
    from: int,
)
    requires
        requests.len() == data.len(),
        forall|i: int| 0 <= i < requests.len() ==> (#[trigger] requests[i]).from != from,
    ensures
        received_from(requests, data, from).len() == 0,
    decreases requests.len(),
{
    if requests.len() > 0 {
        lemma_received_from_none(requests.drop_last(), data.drop_last(), from);
    }
}

/// The only request to a party receives what comes from it.
pub proof fn lemma_received_from_one<T>(
    requests: Seq<ReceiveRequest<T>>,
    data: Seq<Seq<T>>,
    k: int,
)
    requires
        requests.len() == data.len(),
        0 <= k < requests.len(),
        forall|i: int|
            0 <= i < requests.len() && i != k ==> (#[trigger] requests[i]).from != requests[k].from,
    ensures
        received_from(requests, data, requests[k].from as int) == data[k],
    decreases requests.len(),
{
    let rest = requests.drop_last();
    let from = requests[k].from as int;
    if k == requests.len() - 1 {
        lemma_received_from_none(rest, data.drop_last(), from);
    } else {
        lemma_received_from_one(rest, data.drop_last(), k);
        assert(requests[requests.len() - 1].from != from);
    }
    assert(received_from(requests, data, from) =~= data[k]);
}

/// The sum of all lengths.
pub open spec fn total(lens: Seq<usize>) -> nat
    decreases lens.len(),
{
    if lens.len() == 0 {
        0
    } else {
        total(lens.drop_last()) + lens.last() as nat
    }
}

/// The first lengths add up to no more than all of them.
pub proof fn lemma_total_take(lens: Seq<usize>, i: int)
    requires
        0 <= i <= lens.len(),
    ensures
        total(lens.take(i)) <= total(lens),
    decreases lens.len(),
{
    if i < lens.len() {
        lemma_total_take(lens.drop_last(), i);
        assert(lens.drop_last().take(i) =~= lens.take(i));
    } else {
        assert(lens.take(i) =~= lens);
    }
}

/// The sum of all lengths, if a `usize` can hold it.
pub fn total_len(lens: &[usize]) -> (sum: Option<usize>)
    ensures
        match sum {
            Some(sum) => sum == total(lens@),
            None => total(lens@) > usize::MAX,
        },
{
    let mut sum: usize = 0;
    let mut i: usize = 0;
    assert(lens@.take(0) =~= Seq::empty());
    while i < lens.len()
        invariant
            i <= lens@.len(),
            sum == total(lens@.take(i as int)),
        decreases lens@.len() - i,
    {
        proof {
            assert(lens@.take(i + 1).drop_last() =~= lens@.take(i as int));
            lemma_total_take(lens@, i + 1);
        }
        sum = match sum.checked_add(lens[i]) {
            Some(sum) => sum,
            None => return None,
        };
        i = i + 1;
    }
    assert(lens@.take(i as int) =~= lens@);
    Some(sum)
}

/// The parties other than `me`, in ascending order.
pub open spec fn others(n: nat, me: int) -> Seq<int>
    decreases n,
{
    if n == 0 {
        Seq::empty()
    } else if n - 1 == me {
        others((n - 1) as nat, me)
    } else {
        others((n - 1) as nat, me).push(n - 1)
    }
}

/// The parties other than `me`, in ascending order.
pub fn other_parties(n: usize, me: usize) -> (parties: Vec<usize>)
    ensures
        parties@.len() == others(n as nat, me as int).len(),
        forall|i: int|
            0 <= i < parties@.len() ==> #[trigger] parties@[i] == others(n as nat, me as int)[i],
{
    let mut parties: Vec<usize> = Vec::new();
    let mut i: usize = 0;
    while i < n
        invariant
            i <= n,
            parties@.len() == others(i as nat, me as int).len(),
            forall|j: int|
                0 <= j < parties@.len() ==> #[trigger] parties@[j] == others(i as nat, me as int)[j],
        decreases n - i,
    {
        if i != me {
            parties.push(i);
        }
        i = i + 1;
    }
    parties
}

} // verus!
