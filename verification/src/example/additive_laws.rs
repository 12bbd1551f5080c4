//! What the parts of additive secret sharing do, each taken by itself.

use std::convert::Infallible;

use vstd::prelude::*;

use crate::example::additive::{
    additive_phase, input_of, kept_share, lemma_others, payloads, reduced, shared_input, sum,
    with_inputs, AdditiveContext, AdditiveOperation, AdditivePending, AdditiveScheme,
};
use crate::example::executions::lemma_single_outputs;
use crate::example::wire_types::{output_of, type_of, WireType};
use crate::mpc::circuit::{
    all_inputs, all_outputs, compiled, graph, inputs_of, is_first_missing, is_first_repeated, lemma_all_outputs_add, round_sorted,
    round_without_input, wired, MpcCircuit, MpcCircuitError, WireId,
};
use crate::mpc::circuit_laws::law_operations_in_order_are_acyclic;
use crate::mpc::scheme::{FinalizePhaseOutput, MpcScheme, NetworkPhaseOutput, Operation};
use crate::networking::network::{others, ReceiveRequest, SendRequest};
use crate::seqs::lemma_join_find;

verus! {

/// An input names its party and produces one wire; a random value produces one wire from nothing;
/// a sum consumes its two operands in order; a reveal consumes one wire and produces another one.
pub proof fn law_operations_name_their_wires(op: AdditiveOperation)
    ensures
        op.output_wires().len() == 1,
        op.output_wires()[0] == output_of(op),
        match op {
            AdditiveOperation::Input { party_id, output } => {
                &&& op.input_party() == Some(party_id)
                &&& op.input_wires().len() == 0
                &&& op.output_wires()[0] == output
            },
            AdditiveOperation::GenRandom { output } => {
                &&& op.input_party() is None
                &&& op.input_wires().len() == 0
                &&& op.output_wires()[0] == output
            },
            AdditiveOperation::Add { left, right, output } => {
                &&& op.input_party() is None
                &&& op.input_wires().len() == 2
                &&& op.input_wires()[0] == left
                &&& op.input_wires()[1] == right
                &&& op.output_wires()[0] == output
            },
            AdditiveOperation::Reveal { input, output } => {
                &&& op.input_party() is None
                &&& op.input_wires().len() == 1
                &&& op.input_wires()[0] == input
                &&& op.output_wires()[0] == output
            },
        },
{
}

/// An operation is local exactly where its network phase asks nothing of the network, whichever
/// party among at least two runs it.
pub proof fn law_local_operations_ask_for_nothing<const M: u64>(
    scheme: AdditiveScheme<M>,
    before: AdditiveContext,
    op: AdditiveOperation,
    inputs: Seq<u64>,
    after: AdditiveContext,
    output: NetworkPhaseOutput<AdditiveScheme<M>>,
)
    requires
        before.id() < before.parties(),
        before.parties() >= 2,
        scheme.network_phase(before, op, inputs, after, Ok(output)),
    ensures
        scheme.local(op) <==> output.send_request@.len() == 0 && output.receive_request@.len() == 0,
{
    lemma_others(before.parties() as nat, before.id() as int);
    if let AdditiveOperation::Input { party_id, output: wire } = op {
        if party_id == before.id() {
            let shares = choose|shares: Seq<u64>| #[trigger]
                shared_input(
                    before,
                    wire,
                    shares,
                    M,
                    after,
                    output.pending,
                    output.send_request@,
                );
            assert(output.send_request@.len() >= 1);
        }
    }
}

/// Whether an operation is local does not depend on the wires that it names: sums and random values
/// are, inputs and reveals are not.
pub proof fn law_kind_decides_locality<const M: u64>(
    scheme: AdditiveScheme<M>,
    a: WireId,
    b: WireId,
    c: WireId,
    party_id: usize,
)
    ensures
        scheme.local(AdditiveOperation::Add { left: a, right: b, output: c }),
        scheme.local(AdditiveOperation::GenRandom { output: c }),
        !scheme.local(AdditiveOperation::Input { party_id, output: c }),
        !scheme.local(AdditiveOperation::Reveal { input: a, output: c }),
{
}

/// In a compiled circuit no sum and no random value waits for an exchange, and no input and no
/// reveal does without one.
pub proof fn law_only_inputs_and_reveals_are_exchanged<const M: u64>(
    operations: Seq<AdditiveOperation>,
    scheme: AdditiveScheme<M>,
    circuit: MpcCircuit<AdditiveScheme<M>>,
    k: int,
    j: int,
)
    requires
        compiled(operations, scheme, circuit),
    ensures
        0 <= k < circuit.online().len() && 0 <= j < circuit.online()[k].network().len() ==> {
            let op = circuit.online()[k].network()[j];
            op is Input || op is Reveal
        },
        0 <= k < circuit.online().len() && 0 <= j < circuit.online()[k].local().len() ==> {
            let op = circuit.online()[k].local()[j];
            op is Add || op is GenRandom
        },
        0 <= k < circuit.offline().len() && 0 <= j < circuit.offline()[k].network().len() ==> {
            let op = circuit.offline()[k].network()[j];
            op is Reveal
        },
        0 <= k < circuit.offline().len() && 0 <= j < circuit.offline()[k].local().len() ==> {
            let op = circuit.offline()[k].local()[j];
            op is Add || op is GenRandom
        },
{
    if 0 <= k < circuit.online().len() {
        assert(round_sorted(scheme, circuit.online()[k]));
    }
    if 0 <= k < circuit.offline().len() {
        assert(round_sorted(scheme, circuit.offline()[k]));
        assert(round_without_input(circuit.offline()[k]));
        if 0 <= j < circuit.offline()[k].network().len() {
            assert(circuit.offline()[k].network()[j].input_party() is None);
        }
    }
}

/// A context that is established is that of the party and of the number of parties that it was
/// established for, and has no inputs yet; there is always one.
pub proof fn law_established_context_names_the_party<const M: u64>(
    scheme: AdditiveScheme<M>,
    my_id: usize,
    n_players: usize,
    circuit: MpcCircuit<AdditiveScheme<M>>,
    result: Result<AdditiveContext, Infallible>,
    wire: WireId,
)
    requires
        scheme.established(my_id, n_players, circuit, result),
    ensures
        result is Ok,
        result.unwrap().id() == my_id,
        result.unwrap().parties() == n_players,
        !result.unwrap().given().contains_key(wire.0),
        input_of(result.unwrap().given(), wire) == 0,
{
}

/// Every additive circuit is sound, of whatever length and with whatever operations, unless the
/// modulus is zero.
pub proof fn law_only_the_modulus_decides_soundness<const M: u64>(
    scheme: AdditiveScheme<M>,
    circuit: Seq<AdditiveOperation>,
)
    ensures
        scheme.sound(circuit) <==> M != 0,
        scheme.usable() <==> M != 0,
{
}

/// Where the modulus is not zero, operations that produce each wire once, consume only what is
/// produced, and do not depend on themselves compile.
pub proof fn law_additive_circuits_compile<const M: u64>(
    operations: Seq<AdditiveOperation>,
    scheme: AdditiveScheme<M>,
    r: Result<MpcCircuit<AdditiveScheme<M>>, MpcCircuitError>,
)
    requires
        M != 0,
        operations.len() > 0,
        all_outputs(operations).no_duplicates(),
        forall|w: WireId| #[trigger]
            all_inputs(operations).contains(w) ==> all_outputs(operations).contains(w),
        graph(scheme, operations).acyclic(),
        match r {
            Err(MpcCircuitError::EmptyCircuit) => operations.len() == 0,
            Err(MpcCircuitError::CircuitUnsound) => operations.len() > 0 && !scheme.sound(
                operations,
            ),
            Err(MpcCircuitError::WireProducedManyTimes { wire }) => {
                &&& operations.len() > 0
                &&& scheme.sound(operations)
                &&& is_first_repeated(all_outputs(operations), wire)
            },
            Err(MpcCircuitError::WireConsumedButNotProduced { wire }) => {
                &&& operations.len() > 0
                &&& scheme.sound(operations)
                &&& all_outputs(operations).no_duplicates()
                &&& is_first_missing(all_inputs(operations), all_outputs(operations), wire)
            },
            Err(MpcCircuitError::CircuitCyclic) => {
                &&& operations.len() > 0
                &&& scheme.sound(operations)
                &&& wired(operations)
                &&& !graph(scheme, operations).acyclic()
            },
            Ok(circuit) => compiled(operations, scheme, circuit),
        },
    ensures
        r is Ok,
{
    let outs = all_outputs(operations);
    let ins = all_inputs(operations);
    match r {
        Err(MpcCircuitError::WireProducedManyTimes { wire }) => {
            let k = choose|k: int|
                0 <= k < outs.len() && #[trigger] outs[k] == wire && outs.take(k).contains(wire)
                    && outs.take(k).no_duplicates();
            let i = outs.take(k).index_of(wire);
            assert(outs[i] == outs[k]);
        },
        Err(MpcCircuitError::WireConsumedButNotProduced { wire }) => {
            let k = choose|k: int|
                0 <= k < ins.len() && #[trigger] ins[k] == wire && !outs.contains(wire);
            assert(ins.contains(wire));
        },
        _ => {},
    }
}

/// Where the modulus is not zero, operations of which each consumes only what others before it
/// produce, and that produce each wire once, compile.
pub proof fn law_operations_in_order_compile<const M: u64>(
    operations: Seq<AdditiveOperation>,
    scheme: AdditiveScheme<M>,
)
    requires
        M != 0,
        operations.len() > 0,
        forall|i: int, j: int|
            0 <= i < j < operations.len() ==> output_of(#[trigger] operations[i]) != output_of(
                #[trigger] operations[j],
            ),
        forall|c: int, w: WireId|
            0 <= c < operations.len() && #[trigger] operations[c].input_wires().contains(w)
                ==> all_outputs(operations.take(c)).contains(w),
    ensures
        scheme.sound(operations),
        wired(operations),
        graph(scheme, operations).acyclic(),
{
    let outs = all_outputs(operations);
    lemma_single_outputs(operations);
    assert forall|i: int, j: int| 0 <= i < outs.len() && 0 <= j < outs.len() && i != j implies outs[i]
        != outs[j] by {
        if i < j {
            assert(output_of(operations[i]) != output_of(operations[j]));
        } else {
            assert(output_of(operations[j]) != output_of(operations[i]));
        }
    }
    let ins = inputs_of(operations);
    assert forall|k: int| 0 <= k < all_inputs(operations).len() implies outs.contains(
        #[trigger] all_inputs(operations)[k],
    ) by {
        let place = lemma_join_find(ins, k);
        let c = place.0;
        let w = all_inputs(operations)[k];
        assert(operations[c].input_wires()[place.1] == w);
        assert(operations[c].input_wires().contains(w));
        let some = all_outputs(operations.take(c));
        assert(some.contains(w));
        assert(operations =~= operations.take(c) + operations.skip(c));
        lemma_all_outputs_add(operations.take(c), operations.skip(c));
        assert(outs[some.index_of(w)] == w);
    }
    law_operations_in_order_are_acyclic(scheme, operations);
}

/// The payloads of requests are those of each of them, in order.
pub proof fn law_payloads_are_listed_in_order(requests: Seq<SendRequest<'static, u64>>, k: int)
    ensures
        payloads(requests).len() == requests.len(),
        0 <= k < requests.len() ==> payloads(requests)[k] == requests[k].payload(),
{
}

/// A reveal sends the own share to each other party once, and awaits one value from each.
pub proof fn law_reveal_asks_every_other_party<const M: u64>(
    scheme: AdditiveScheme<M>,
    before: AdditiveContext,
    op: AdditiveOperation,
    inputs: Seq<u64>,
    after: AdditiveContext,
    output: NetworkPhaseOutput<AdditiveScheme<M>>,
    q: usize,
)
    requires
        op is Reveal,
        before.id() < before.parties(),
        scheme.network_phase(before, op, inputs, after, Ok(output)),
        q < before.parties(),
    ensures
        output.send_request@.len() == before.parties() - 1,
        output.receive_request@.len() == before.parties() - 1,
        q != before.id() ==> {
            let k = if q < before.id() {
                q as int
            } else {
                q - 1
            };
            &&& output.send_request@[k].to == q
            &&& output.send_request@[k].payload() == inputs[0]
            &&& output.receive_request@[k].from == q
            &&& output.receive_request@[k].count == Some(1usize)
        },
{
    lemma_others(before.parties() as nat, before.id() as int);
    if q != before.id() {
        let k = if q < before.id() {
            q as int
        } else {
            q - 1
        };
        assert(output.send_request@[k].to == others(before.parties() as nat, before.id() as int)[k]);
        assert(output.receive_request@[k].from == others(
            before.parties() as nat,
            before.id() as int,
        )[k]);
    }
}

/// The party that gives an input sends one share to each other party and awaits nothing; what it
/// keeps and what it sends add up to the input.
pub proof fn law_input_is_dealt_to_every_other_party<const M: u64>(
    scheme: AdditiveScheme<M>,
    before: AdditiveContext,
    party_id: usize,
    wire: WireId,
    inputs: Seq<u64>,
    after: AdditiveContext,
    output: NetworkPhaseOutput<AdditiveScheme<M>>,
    q: usize,
    data: Seq<u64>,
    contexts: (AdditiveContext, AdditiveContext),
    result: FinalizePhaseOutput<AdditiveScheme<M>>,
)
    requires
        M != 0,
        before.id() < before.parties(),
        party_id == before.id(),
        scheme.network_phase(
            before,
            AdditiveOperation::Input { party_id, output: wire },
            inputs,
            after,
            Ok(output),
        ),
        q < before.parties(),
        scheme.finalize_phase(contexts.0, output.pending, data, contexts.1, Ok(result)),
    ensures
        output.send_request@.len() == before.parties() - 1,
        output.receive_request@.len() == 0,
        q != before.id() ==> {
            let k = if q < before.id() {
                q as int
            } else {
                q - 1
            };
            &&& output.send_request@[k].to == q
            &&& output.send_request@[k].payload() < M
        },
        result.0@.len() == 1,
        result.0@[0] < M,
        (result.0@[0] + sum(payloads(output.send_request@))) % M as int == input_of(
            before.given(),
            wire,
        ) as int % M as int,
{
    lemma_others(before.parties() as nat, before.id() as int);
    let shares = choose|shares: Seq<u64>|
        reduced(shares, M) && #[trigger] shared_input(
            before,
            wire,
            shares,
            M,
            after,
            output.pending,
            output.send_request@,
        );
    let sent = output.send_request@;
    let m = M as int;
    let s = sum(shares);
    let input = input_of(before.given(), wire) as int;
    vstd::arithmetic::div_mod::lemma_add_mod_noop_right(s, input - s, m);
    if q != before.id() {
        let k = if q < before.id() {
            q as int
        } else {
            q - 1
        };
        assert(sent[k].to == others(before.parties() as nat, before.id() as int)[k]);
        assert(payloads(sent)[k] == sent[k].payload());
        assert(shares[k] < M);
    }
}

/// A party that does not give an input awaits one value from the party that does, sends nothing,
/// and takes what arrives, reduced.
pub proof fn law_input_is_awaited_from_its_party<const M: u64>(
    scheme: AdditiveScheme<M>,
    before: AdditiveContext,
    party_id: usize,
    wire: WireId,
    inputs: Seq<u64>,
    after: AdditiveContext,
    output: NetworkPhaseOutput<AdditiveScheme<M>>,
    data: Seq<u64>,
    contexts: (AdditiveContext, AdditiveContext),
    result: FinalizePhaseOutput<AdditiveScheme<M>>,
)
    requires
        M != 0,
        party_id != before.id(),
        scheme.network_phase(
            before,
            AdditiveOperation::Input { party_id, output: wire },
            inputs,
            after,
            Ok(output),
        ),
        data.len() > 0,
        scheme.finalize_phase(contexts.0, output.pending, data, contexts.1, Ok(result)),
    ensures
        output.send_request@.len() == 0,
        output.receive_request@.len() == 1,
        output.receive_request@[0].from == party_id,
        output.receive_request@[0].count == Some(1usize),
        result.0@.len() == 1,
        result.0@[0] == data[0] as int % M as int,
{
}

/// What the operations that take no input from a user give: a sum is that of its operands, a random
/// value is below the modulus, and a reveal is the sum of the own share and of all that arrive.
pub proof fn law_operations_give_their_results<const M: u64>(
    scheme: AdditiveScheme<M>,
    before: AdditiveContext,
    op: AdditiveOperation,
    inputs: Seq<u64>,
    after: AdditiveContext,
    output: NetworkPhaseOutput<AdditiveScheme<M>>,
    data: Seq<u64>,
    contexts: (AdditiveContext, AdditiveContext),
    result: FinalizePhaseOutput<AdditiveScheme<M>>,
)
    requires
        M != 0,
        scheme.network_phase(before, op, inputs, after, Ok(output)),
        scheme.finalize_phase(contexts.0, output.pending, data, contexts.1, Ok(result)),
    ensures
        result.0@.len() == 1,
        op is Add ==> result.0@[0] == (inputs[0] + inputs[1]) % M as int,
        op is GenRandom ==> result.0@[0] < M,
        op is Reveal && data.len() > 0 ==> result.0@[0] == (inputs[0] + sum(data)) % M as int,
        op is Reveal && data.len() == 0 ==> result.0@[0] == inputs[0],
{
}

/// Neither phase of an operation fails; neither forgets the party or the number of parties; and
/// only the input that is shared leaves the context.
pub proof fn law_phases_keep_the_context<const M: u64>(
    scheme: AdditiveScheme<M>,
    before: AdditiveContext,
    op: AdditiveOperation,
    inputs: Seq<u64>,
    after: AdditiveContext,
    output: Result<NetworkPhaseOutput<AdditiveScheme<M>>, Infallible>,
    w: usize,
)
    requires
        scheme.network_phase(before, op, inputs, after, output),
    ensures
        output is Ok,
        after.id() == before.id(),
        after.parties() == before.parties(),
        after.given().contains_key(w) <==> before.given().contains_key(w) && !(
        op.input_party() == Some(before.id()) && op.output_wires()[0].0 == w),
        after.given().contains_key(w) ==> after.given()[w] == before.given()[w],
{
    if let AdditiveOperation::Input { party_id, output: wire } = op {
        if party_id == before.id() {
            let out = output.unwrap();
            let shares = choose|shares: Seq<u64>| #[trigger]
                shared_input(before, wire, shares, M, after, out.pending, out.send_request@);
            assert(after.holds(before, before.given().remove(wire.0)));
        }
    }
}

/// The finalize phase never fails and leaves the context.
pub proof fn law_finalizing_keeps_the_context<const M: u64>(
    scheme: AdditiveScheme<M>,
    before: AdditiveContext,
    pending: AdditivePending,
    data: Seq<u64>,
    after: AdditiveContext,
    result: Result<FinalizePhaseOutput<AdditiveScheme<M>>, Infallible>,
)
    requires
        scheme.finalize_phase(before, pending, data, after, result),
    ensures
        result is Ok,
        after == before,
{
}

/// Inputs that are handed in are there, reduced; where a wire is given more than once, the last one
/// counts; inputs for other wires, the party and the number of parties stay.
pub proof fn law_prepared_inputs_are_kept<const M: u64>(
    scheme: AdditiveScheme<M>,
    before: AdditiveContext,
    inputs: Seq<(WireId, u64)>,
    after: AdditiveContext,
    w: WireId,
)
    requires
        M != 0,
        scheme.prepared(before, inputs, after),
    ensures
        after.id() == before.id(),
        after.parties() == before.parties(),
        forall|i: int|
            0 <= i < inputs.len() && (#[trigger] inputs[i]).0 == w && (forall|j: int|
                i < j < inputs.len() ==> (#[trigger] inputs[j]).0 != w) ==> after.given().contains_key(
                w.0,
            ) && after.given()[w.0] == inputs[i].1 as int % M as int,
        (forall|i: int| 0 <= i < inputs.len() ==> (#[trigger] inputs[i]).0 != w) ==> {
            &&& after.given().contains_key(w.0) == before.given().contains_key(w.0)
            &&& input_of(after.given(), w) == input_of(before.given(), w)
        },
{
    lemma_with_inputs_last(before.given(), inputs, M, w);
}

proof fn lemma_with_inputs_last(
    before: Map<usize, u64>,
    inputs: Seq<(WireId, u64)>,
    modulus: u64,
    w: WireId,
)
    requires
        modulus != 0,
    ensures
        ({
            let after = with_inputs(before, inputs, modulus);
            &&& forall|i: int|
                0 <= i < inputs.len() && (#[trigger] inputs[i]).0 == w && (forall|j: int|
                    i < j < inputs.len() ==> (#[trigger] inputs[j]).0 != w) ==> after.contains_key(
                    w.0,
                ) && after[w.0] == inputs[i].1 as int % modulus as int
            &&& (forall|i: int| 0 <= i < inputs.len() ==> (#[trigger] inputs[i]).0 != w) ==> {
                &&& after.contains_key(w.0) == before.contains_key(w.0)
                &&& input_of(after, w) == input_of(before, w)
            }
        }),
    decreases inputs.len(),
{
    let after = with_inputs(before, inputs, modulus);
    if inputs.len() > 0 {
        let rest = inputs.drop_last();
        let n = inputs.len() - 1;
        lemma_with_inputs_last(before, rest, modulus, w);
        if inputs[n].0 != w {
            assert(inputs[n].0.0 != w.0);
            assert forall|i: int|
                0 <= i < inputs.len() && (#[trigger] inputs[i]).0 == w && (forall|j: int|
                    i < j < inputs.len() ==> (#[trigger] inputs[j]).0 != w) implies after.contains_key(
                w.0,
            ) && after[w.0] == inputs[i].1 as int % modulus as int by {
                assert(rest[i] == inputs[i]);
                assert forall|j: int| i < j < rest.len() implies (#[trigger] rest[j]).0 != w by {
                    assert(inputs[j].0 != w);
                }
            }
            if forall|i: int| 0 <= i < inputs.len() ==> (#[trigger] inputs[i]).0 != w {
                assert forall|i: int| 0 <= i < rest.len() implies (#[trigger] rest[i]).0 != w by {
                    assert(inputs[i].0 != w);
                }
            }
        }
    }
}

/// Sums add up: that of one value is the value, and that of two lists is the sum of both sums.
pub proof fn law_sum_adds_up(a: Seq<u64>, b: Seq<u64>, x: u64)
    ensures
        sum(Seq::<u64>::empty()) == 0,
        sum(seq![x]) == x,
        sum(a + b) == sum(a) + sum(b),
    decreases b.len(),
{
    assert(seq![x].drop_last() =~= Seq::empty());
    assert(sum(Seq::<u64>::empty()) == 0);
    assert(seq![x].last() == x);
    if b.len() == 0 {
        assert(a + b =~= a);
        assert(sum(b) == 0);
    } else {
        law_sum_adds_up(a, b.drop_last(), x);
        assert((a + b).drop_last() =~= a + b.drop_last());
    }
}

/// What a context has for a wire is what it was given, or zero.
pub proof fn law_missing_inputs_are_zero(given: Map<usize, u64>, w: WireId, v: WireId, x: u64)
    ensures
        input_of(Map::empty(), w) == 0,
        input_of(given.insert(w.0, x), w) == x,
        v != w ==> input_of(given.insert(w.0, x), v) == input_of(given, v),
{
    if v != w {
        assert(v.0 != w.0);
    }
}

/// Inputs, random values and sums with a shared operand are shared; reveals and sums of public
/// values are public; and a sum has no type before both operands have one.
pub proof fn law_types_of_operations(
    op: AdditiveOperation,
    left: WireId,
    right: WireId,
    output: WireId,
    types: Map<usize, WireType>,
)
    ensures
        op is Input || op is GenRandom ==> type_of(op, types) == Some(WireType::Shared),
        op is Reveal ==> type_of(op, types) == Some(WireType::Public),
        ({
            let t = type_of(AdditiveOperation::Add { left, right, output }, types);
            &&& t is Some <==> types.contains_key(left.0) && types.contains_key(right.0)
            &&& t is Some ==> (t == Some(WireType::Public) <==> types[left.0] == WireType::Public
                && types[right.0] == WireType::Public)
        }),
{
}

/// Every share below the modulus may be drawn for a random value.
pub proof fn law_every_share_may_be_drawn<const M: u64>(
    scheme: AdditiveScheme<M>,
    before: AdditiveContext,
    wire: WireId,
    inputs: Seq<u64>,
    share: u64,
    output: NetworkPhaseOutput<AdditiveScheme<M>>,
)
    requires
        share < M,
        output.pending == (AdditivePending::GenRandom { my_share: share }),
        output.send_request@.len() == 0,
        output.receive_request@.len() == 0,
    ensures
        scheme.network_phase(
            before,
            AdditiveOperation::GenRandom { output: wire },
            inputs,
            before,
            Ok(output),
        ),
{
}

/// An input that is dealt so may be shared so.
proof fn lemma_dealt(
    before: AdditiveContext,
    wire: WireId,
    inputs: Seq<u64>,
    modulus: u64,
    shares: Seq<u64>,
    after: AdditiveContext,
    pending: AdditivePending,
    sent: Seq<SendRequest<'static, u64>>,
    awaited: Seq<ReceiveRequest<u64>>,
)
    requires
        awaited.len() == 0,
        reduced(shares, modulus),
        shared_input(before, wire, shares, modulus, after, pending, sent),
    ensures
        additive_phase(
            before,
            AdditiveOperation::Input { party_id: before.id(), output: wire },
            inputs,
            modulus,
            after,
            pending,
            sent,
            awaited,
        ),
{
    let op = AdditiveOperation::Input { party_id: before.id(), output: wire };
    assert(exists|s: Seq<u64>|
        reduced(s, modulus) && #[trigger] shared_input(
            before,
            wire,
            s,
            modulus,
            after,
            pending,
            sent,
        ));
    assert(op->Input_party_id == before.id() && op->Input_output == wire);
}

/// Whatever shares below the modulus are dealt to the other parties, an input may be shared so: the
/// party keeps what is missing.
pub proof fn law_every_dealing_is_possible<const M: u64>(
    scheme: AdditiveScheme<M>,
    before: AdditiveContext,
    wire: WireId,
    inputs: Seq<u64>,
    after: AdditiveContext,
    share: u64,
    output: NetworkPhaseOutput<AdditiveScheme<M>>,
)
    requires
        M != 0,
        before.id() < before.parties(),
        after.id() == before.id(),
        after.parties() == before.parties(),
        after.given() == before.given().remove(wire.0),
        output.receive_request@.len() == 0,
        output.send_request@.len() == before.parties() - 1,
        forall|k: int|
            0 <= k < output.send_request@.len() ==> (#[trigger] output.send_request@[k]).payload()
                < M && output.send_request@[k].to == if k < before.id() {
                k
            } else {
                k + 1
            },
        share < M,
        (share + sum(payloads(output.send_request@))) % M as int == input_of(
            before.given(),
            wire,
        ) as int % M as int,
        output.pending == (AdditivePending::Input { is_inputter: true, my_share: Some(share) }),
    ensures
        scheme.network_phase(
            before,
            AdditiveOperation::Input { party_id: before.id(), output: wire },
            inputs,
            after,
            Ok(output),
        ),
{
    let sent = output.send_request@;
    let shares = payloads(sent);
    let m = M as int;
    let s = sum(shares);
    let input = input_of(before.given(), wire) as int;
    lemma_others(before.parties() as nat, before.id() as int);
    assert forall|i: int| 0 <= i < shares.len() implies #[trigger] shares[i] < M by {
        assert(sent[i].payload() < M);
    }
    vstd::arithmetic::div_mod::lemma_sub_mod_noop(share + s, s, m);
    vstd::arithmetic::div_mod::lemma_sub_mod_noop(input, s, m);
    vstd::arithmetic::div_mod::lemma_small_mod(share as nat, M as nat);
    assert(share == kept_share(input as u64, shares, M));
    lemma_dealt(
        before,
        wire,
        inputs,
        M,
        shares,
        after,
        output.pending,
        sent,
        output.receive_request@,
    );
}

} // verus!
