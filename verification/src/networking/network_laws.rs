//! What requests ask for and carry, each taken by itself.

use vstd::prelude::*;

use crate::networking::network::{
    expected_count, lemma_received_from_add, lemma_sent_to_add, others, received_from, sent_to,
    total, wanted_len, CountMismatch, ReceiveRequest, SendRequest,
};
use crate::text::decimal;

verus! {

/// A request for a number of elements admits a batch exactly where it has as many elements.
pub proof fn law_request_admits_its_count<T>(request: ReceiveRequest<T>, count: usize, len: nat)
    requires
        request.count == expected_count(count),
    ensures
        request.len() == count,
        request.admits(len) <==> len == count,
        request.count is None <==> count == 0,
        request.count is Some ==> request.count == Some(count),
{
}

/// A count asks for as many elements as it says, and no count asks for none.
pub proof fn law_counts_ask_for_elements(count: usize)
    ensures
        wanted_len(Some(count)) == count,
        wanted_len(None) == 0,
{
}

/// The other parties are all parties but one, in ascending order.
pub proof fn law_others_are_all_but_one(n: nat, me: int, q: int, i: int, j: int)
    ensures
        others(n, me).contains(q) <==> 0 <= q < n && q != me,
        0 <= i < j < others(n, me).len() ==> others(n, me)[i] < others(n, me)[j],
        0 <= me < n ==> others(n, me).len() == n - 1,
        !(0 <= me < n) ==> others(n, me).len() == n,
    decreases n,
{
    if n > 0 {
        let m = (n - 1) as nat;
        let all = others(n, me);
        let rest = others(m, me);
        law_others_are_all_but_one(m, me, q, i, j);
        if m != me {
            assert(all == rest.push(m as int));
            assert(all[rest.len() as int] == m);
            if rest.contains(q) {
                assert(all[rest.index_of(q)] == q);
            }
            if all.contains(q) && q != m {
                let k = all.index_of(q);
                assert(rest[k] == q);
            }
            if 0 <= i < j && j == rest.len() {
                law_others_are_all_but_one(m, me, rest[i], i, j);
                assert(rest.contains(rest[i]));
            }
        }
    }
}

/// Lengths add up: those of two lists are the sum of both, and one length is itself.
pub proof fn law_totals_add_up(a: Seq<usize>, b: Seq<usize>, x: usize)
    ensures
        total(Seq::<usize>::empty()) == 0,
        total(seq![x]) == x,
        total(a + b) == total(a) + total(b),
    decreases b.len(),
{
    assert(seq![x].drop_last() =~= Seq::empty());
    assert(total(Seq::<usize>::empty()) == 0);
    assert(seq![x].last() == x);
    if b.len() == 0 {
        assert(a + b =~= a);
    } else {
        law_totals_add_up(a, b.drop_last(), x);
        assert((a + b).drop_last() =~= a + b.drop_last());
    }
}

/// What requests carry to a party is what each of them carries to it, in order.
pub proof fn law_requests_carry_in_order<'a, T: Clone>(
    a: Seq<SendRequest<'a, T>>,
    b: Seq<SendRequest<'a, T>>,
    request: SendRequest<'a, T>,
    to: int,
)
    ensures
        sent_to(Seq::<SendRequest<'a, T>>::empty(), to) == Seq::<T>::empty(),
        request.to == to ==> sent_to(seq![request], to) == seq![request.payload()],
        request.to != to ==> sent_to(seq![request], to) == Seq::<T>::empty(),
        sent_to(a + b, to) == sent_to(a, to) + sent_to(b, to),
{
    let one = seq![request];
    assert(one.drop_last() =~= Seq::empty());
    assert(one.last() == request);
    assert(sent_to(one.drop_last(), to) =~= Seq::empty());
    if request.to == to {
        assert(sent_to(one, to) =~= seq![request.payload()]);
    }
    lemma_sent_to_add(a, b, to);
}

/// What requests receive from a party is what each of them receives from it, in order.
pub proof fn law_requests_receive_in_order<T>(
    a: (Seq<ReceiveRequest<T>>, Seq<Seq<T>>),
    b: (Seq<ReceiveRequest<T>>, Seq<Seq<T>>),
    request: ReceiveRequest<T>,
    batch: Seq<T>,
    from: int,
)
    requires
        a.0.len() == a.1.len(),
        b.0.len() == b.1.len(),
    ensures
        received_from(Seq::<ReceiveRequest<T>>::empty(), Seq::<Seq<T>>::empty(), from)
            == Seq::<T>::empty(),
        request.from == from ==> received_from(seq![request], seq![batch], from) == batch,
        request.from != from ==> received_from(seq![request], seq![batch], from) == Seq::<
            T,
        >::empty(),
        received_from(a.0 + b.0, a.1 + b.1, from) == received_from(a.0, a.1, from)
            + received_from(b.0, b.1, from),
{
    let one = seq![request];
    let data = seq![batch];
    assert(one.drop_last() =~= Seq::empty());
    assert(data.drop_last() =~= Seq::empty());
    assert(one.last() == request);
    assert(data.last() == batch);
    assert(received_from(one.drop_last(), data.drop_last(), from) =~= Seq::empty());
    if request.from == from {
        assert(received_from(one, data, from) =~= batch);
    }
    lemma_received_from_add(a, b, from);
}

/// The words of a mismatch name first the expected and then the received number.
pub proof fn law_words_of_a_mismatch(mismatch: CountMismatch)
    ensures
        mismatch.words() == "Batch size mismatch. Expected "@ + decimal(mismatch.expected as nat)
            + ", got "@ + decimal(mismatch.received as nat),
{
}

} // verus!
